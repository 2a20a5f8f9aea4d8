use grepdown::frontmatter::{extract_tags, parse_frontmatter};

fn tags(content: &str) -> Option<Vec<String>> {
    parse_frontmatter(content).map(|fm| extract_tags(&fm))
}

#[test]
fn tags_of_a_front_matter() {
    let content = "---\ntags: [rust, testing]\n---\n# Test Document\nThis is about Rust programming.\n";
    assert_eq!(tags(content), Some(vec!["rust".to_string(), "testing".to_string()]));
}

#[test]
fn whitespace_may_precede_the_front_matter() {
    assert_eq!(tags("  \n---\ntags:\n  - a\n  - b\n---\n"), Some(vec!["a".to_string(), "b".to_string()]));
}

#[test]
fn text_before_the_first_marker_means_no_front_matter() {
    assert!(parse_frontmatter("Intro\n---\ntags: [x]\n---\n").is_none());
}

#[test]
fn one_marker_is_not_enough() {
    assert!(parse_frontmatter("---\ntags: [x]\n").is_none());
    assert!(parse_frontmatter("no markers at all").is_none());
}

#[test]
fn non_sequence_or_non_string_tags() {
    assert_eq!(tags("---\ntags: single\n---\n"), Some(vec![]));
    assert_eq!(tags("---\ntags: [a, 1, b]\ntitle: t\n---\n"), Some(vec!["a".to_string(), "b".to_string()]));
    assert_eq!(tags("---\ntitle: only\n---\n"), Some(vec![]));
}

#[test]
fn yaml_that_is_not_a_map_is_refused() {
    assert!(parse_frontmatter("---\n[1, 2]\n---\n").is_none());
}
