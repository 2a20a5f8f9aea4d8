use grepdown::paths::{normalize_path, normalize_within, resolve_in_set};

#[test]
fn normalize_resolves_dots() {
    assert_eq!(normalize_path("a/./b/../c"), "a/c");
    assert_eq!(normalize_path("/x/../../y"), "/y");
    assert_eq!(normalize_path("../a"), "a");
    assert_eq!(normalize_path("a/b/.."), "a");
}

#[test]
fn normalize_is_idempotent_on_examples() {
    for p in ["a/./b/../c", "/x/../../y", "../../z/./w", "plain"] {
        let once = normalize_path(p);
        assert_eq!(normalize_path(&once), once);
    }
}

#[test]
fn resolve_prefers_the_md_file_then_the_index() {
    let paths = vec!["notes/b.md".to_string(), "notes/sub/index.md".to_string(), "top.md".to_string()];
    assert_eq!(resolve_in_set(&paths, "notes/a.md", "b"), Some("notes/b.md".to_string()));
    assert_eq!(resolve_in_set(&paths, "notes/a.md", "b.md"), Some("notes/b.md".to_string()));
    assert_eq!(resolve_in_set(&paths, "notes/a.md", "sub"), Some("notes/sub/index.md".to_string()));
    assert_eq!(resolve_in_set(&paths, "notes/a.md", "../top"), Some("top.md".to_string()));
    assert_eq!(resolve_in_set(&paths, "notes/a.md", "./missing"), None);
}

#[test]
fn a_path_without_parent_resolves_nothing() {
    let paths = vec!["b.md".to_string()];
    assert_eq!(resolve_in_set(&paths, "", "b"), None);
    assert_eq!(resolve_in_set(&paths, "a.md", "b"), Some("b.md".to_string()));
}

#[test]
fn a_link_that_climbs_above_the_root_resolves_nothing() {
    let paths = vec!["doc1.md".to_string(), "doc2.md".to_string()];
    assert_eq!(resolve_in_set(&paths, "doc1.md", "../doc2.md"), None);
    assert_eq!(resolve_in_set(&paths, "doc1.md", "sub/../doc2.md"), Some("doc2.md".to_string()));
    assert_eq!(normalize_within("a/../../b"), None);
    assert_eq!(normalize_within("a/./b/../c"), Some("a/c".to_string()));
}
