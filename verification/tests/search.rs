use grepdown::escape_fts5_query;
use grepdown::search::{document_content, merge_search_hits, search_query, search_query_under};

#[test]
fn literal_queries_are_quoted() {
    assert_eq!(escape_fts5_query("C++ error handling"), "\"C++ error handling\"");
    assert_eq!(escape_fts5_query("say \"hi\""), "\"say \"\"hi\"\"\"");
    assert_eq!(escape_fts5_query(""), "\"\"");
}

#[test]
fn search_parameters() {
    let q = search_query(20, None, None);
    assert_eq!(q.path_like, "%");
    assert_eq!(q.snippet_len, 32);
    assert_eq!(q.fetch_limit, 40);
    let q = search_query(5, Some("1"), Some(10));
    assert_eq!(q.path_like, "%1%");
    let q2 = search_query(5, Some("50%_off\\x"), None);
    assert_eq!(q2.path_like, "%50\\%\\_off\\\\x%");
    assert_eq!(q.snippet_len, 10);
    assert_eq!(q.fetch_limit, 10);
}

#[test]
fn hits_are_merged_by_path() {
    let paths: Vec<String> = ["a", "b", "a", "c", "a", "b"].iter().map(|s| s.to_string()).collect();
    let groups: Vec<(usize, usize)> = merge_search_hits(&paths, 10).iter().map(|g| (g.first, g.repeats)).collect();
    assert_eq!(groups, vec![(0, 2), (1, 1), (3, 0)]);
    let limited: Vec<(usize, usize)> = merge_search_hits(&paths, 2).iter().map(|g| (g.first, g.repeats)).collect();
    assert_eq!(limited, vec![(0, 2), (1, 1)]);
    assert!(merge_search_hits(&paths, 0).is_empty());
}

#[test]
fn test_get_document_returns_content_and_tags() {
    let text = "---\ntags: [rust, testing]\n---\n# Test Document\nThis is about Rust programming.\n";
    let d = document_content("test-doc.md", text.to_string());
    assert_eq!(d.path, "test-doc.md");
    assert!(d.content.contains("Rust programming"));
    assert!(d.tags.iter().any(|t| t == "rust"));
}

#[test]
fn a_literal_collapses_back_to_its_query() {
    let q = "a \"b\" \"\"c";
    let r = escape_fts5_query(q);
    assert_eq!(r.chars().count(), q.chars().count() + 2 + q.matches('"').count());
    assert!(r.starts_with('"') && r.ends_with('"'));
    assert_eq!(r[1..r.len() - 1].replace("\"\"", "\""), q);
}

#[test]
fn a_folder_filter_is_a_prefix() {
    let q = search_query_under(20, Some("notes/a_b"), None);
    assert_eq!(q.path_like, "notes/a\\_b%");
    assert_eq!(q.snippet_len, 32);
    assert_eq!(q.fetch_limit, 40);
    assert_eq!(search_query_under(3, None, Some(8)).path_like, "%");
}
