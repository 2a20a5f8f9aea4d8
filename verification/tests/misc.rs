use grepdown::db::{migrations_to_apply, DB_PATH};
use grepdown::mcp::{ApproveEditsParams, ReachableParams, SearchParams};
use grepdown::watch::{event_triggers_refresh, is_markdown_path, refresh_due, watch_step, ChangeKind, WatchEvent};

#[test]
fn mcp_defaults() {
    let p = SearchParams { query: "Rust".into(), limit: None, path_filter: None, snippet_length: None };
    assert_eq!(p.effective_limit(), 20);
    let p = SearchParams { query: "Rust".into(), limit: Some(10), path_filter: None, snippet_length: None };
    assert_eq!(p.effective_limit(), 10);
    let r = ReachableParams { doc_id: "doc1.md".into(), max_depth: None };
    assert_eq!(r.effective_max_depth(), 2);
    let r = ReachableParams { doc_id: "doc1.md".into(), max_depth: Some(5) };
    assert_eq!(r.effective_max_depth(), 5);
    assert!(ApproveEditsParams { paths: None }.approval_paths().is_empty());
    assert_eq!(ApproveEditsParams { paths: Some(vec!["a".into()]) }.approval_paths(), vec!["a".to_string()]);
}

#[test]
fn watcher_reacts_to_markdown_changes() {
    let md = vec!["/root/notes/a.md".to_string()];
    let other = vec!["/root/notes/a.txt".to_string(), "/root/md".to_string()];
    assert!(event_triggers_refresh(ChangeKind::Create, &md));
    assert!(event_triggers_refresh(ChangeKind::Modify, &md));
    assert!(event_triggers_refresh(ChangeKind::Remove, &md));
    assert!(!event_triggers_refresh(ChangeKind::Other, &md));
    assert!(!event_triggers_refresh(ChangeKind::Modify, &other));
    assert!(is_markdown_path("x/y.md"));
    assert!(!is_markdown_path("x/y.mdx"));
    assert!(!is_markdown_path(".md"));
    assert!(refresh_due(500));
    assert!(!refresh_due(499));
}

#[test]
fn pending_migrations() {
    assert_eq!(migrations_to_apply(10, 0), (0..10).collect::<Vec<usize>>());
    assert_eq!(migrations_to_apply(10, 7), vec![7, 8, 9]);
    assert!(migrations_to_apply(10, 10).is_empty());
    assert_eq!(DB_PATH, "md.db");
}

#[test]
fn a_change_within_the_interval_is_refreshed_later() {
    let change = || WatchEvent::Change { kind: ChangeKind::Modify, paths: vec!["notes/a.md".to_string()] };
    // Due: refresh at once.
    assert_eq!(watch_step(false, 800, change()), (false, true));
    // Too soon: kept pending, then refreshed by a later tick.
    assert_eq!(watch_step(false, 100, change()), (true, false));
    assert_eq!(watch_step(true, 300, WatchEvent::Tick), (true, false));
    assert_eq!(watch_step(true, 600, WatchEvent::Tick), (false, true));
    // Nothing pending: ticks and other files do nothing.
    assert_eq!(watch_step(false, 9000, WatchEvent::Tick), (false, false));
    let txt = WatchEvent::Change { kind: ChangeKind::Create, paths: vec!["a.txt".to_string()] };
    assert_eq!(watch_step(false, 9000, txt), (false, false));
}
