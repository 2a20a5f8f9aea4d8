use grepdown::cli::{approval_scope, effective_query, fallback_after_error, friendly_fts5_error, is_fts5_syntax_error, tag_counts, SearchFallback};

fn chain(msgs: &[&str]) -> Vec<String> {
    msgs.iter().map(|s| s.to_string()).collect()
}

#[test]
fn fts5_syntax_errors_are_recognised() {
    assert!(is_fts5_syntax_error(&chain(&["Search failed", "fts5: syntax error near \"\""])));
    assert!(is_fts5_syntax_error(&chain(&["unterminated string"])));
    assert!(is_fts5_syntax_error(&chain(&["fts5: bad syntax here"])));
    assert!(!is_fts5_syntax_error(&chain(&["fts5: no such column: x"])));
    assert!(!is_fts5_syntax_error(&chain(&["unterminated string!"])));
    assert!(!is_fts5_syntax_error(&chain(&["a syntax error in fts5:"])));
    assert!(!is_fts5_syntax_error(&chain(&[])));
}

#[test]
fn friendly_error_message() {
    let query = "a \"b";
    let escaped = grepdown::escape_fts5_query(query);
    let expected = format!(
        "Invalid FTS5 search query: {:?}\n  Cause: {}\n\n\
         FTS5 reserved syntax:\n  \
         - `-term` = NOT, `+term` = required, `\"phrase\"` = exact phrase, `prefix*` = suffix wildcard\n  \
         - Keywords: AND, OR, NOT, NEAR (case-insensitive)\n\n\
         To search for this exact string, rerun with `--literal` or use the quoted form: {}.",
        query, "fts5: syntax error", escaped,
    );
    let got = friendly_fts5_error(query, "fts5: syntax error");
    assert_eq!(got, expected);
    assert!(got.starts_with("Invalid FTS5 search query: \"a \\\"b\"\n  Cause: fts5: syntax error\n"));
    assert!(got.ends_with("quoted form: \"a \"\"b\"."));
}

#[test]
fn search_fallback_decisions() {
    assert!(matches!(fallback_after_error(false, true), SearchFallback::RetryLiteral));
    assert!(matches!(fallback_after_error(true, true), SearchFallback::ReportSyntax));
    assert!(matches!(fallback_after_error(false, false), SearchFallback::ReportFailure));
    assert!(matches!(fallback_after_error(true, false), SearchFallback::ReportFailure));
    assert_eq!(effective_query("a OR b", false), "a OR b");
    assert_eq!(effective_query("a OR b", true), "\"a OR b\"");
}

#[test]
fn tags_are_counted_and_ordered() {
    let rows = chain(&["rust testing", "python", "rust", " web  rust\tapi "]);
    let table = tag_counts(&rows);
    assert_eq!(
        table,
        vec![
            ("rust".to_string(), 3),
            ("api".to_string(), 1),
            ("python".to_string(), 1),
            ("testing".to_string(), 1),
            ("web".to_string(), 1)
        ]
    );
    assert!(tag_counts(&chain(&["", "   "])).is_empty());
    // A tag is counted once per document that carries it.
    let table = tag_counts(&chain(&["rust rust", "rust go"]));
    assert_eq!(table, vec![("rust".to_string(), 2), ("go".to_string(), 1)]);
}

#[test]
fn approval_scope_with_all() {
    let paths = chain(&["a.md", "b.md"]);
    assert!(approval_scope(true, &paths).is_empty());
    assert_eq!(approval_scope(false, &paths), paths);
}
