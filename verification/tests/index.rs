use grepdown::index::{content_hash, diff_walk, document_version, heading_line, index_document, split_results, tag_row, IndexedDoc, IndexedHeading, KnownDoc, ParseResult, WalkEntry};
use grepdown::lint::{approve_edits, run_lints, DocVersion, LinkRow};
use grepdown::mcp::ApproveEditsParams;

const DOC1: &str = "---\ntags: [rust, testing]\n---\n# Document 1\nThis is about Rust programming.\n[Link to doc2](doc2.md)\n[Example](https://example.com)\n";
const DOC2: &str = "---\ntags: [python]\n---\n# Document 2\nPython documentation.\n[Back to doc1](doc1.md)\n";
const DOC3: &str = "# Document 3\nStandalone document with no links.\n";

fn paths() -> Vec<String> {
    vec!["doc1.md".to_string(), "doc2.md".to_string(), "doc3.md".to_string()]
}

fn index_new(path: &str, content: &str) -> IndexedDoc {
    match index_document(&vec![], &paths(), &path.to_string(), 7, content.to_string()) {
        ParseResult::Changed(d) => d,
        ParseResult::Unchanged { .. } => panic!("a new document is indexed"),
    }
}

#[test]
fn blake3_digest_of_content() {
    let h = content_hash("");
    assert_eq!(h.len(), 32);
    let hex: String = h.iter().map(|b| format!("{:02x}", b)).collect();
    assert_eq!(hex, "af1349b9f5f9a1a6a0404dea36dcc9499bcb25c9adc112b7cc9a93cae41f3262");
    assert_ne!(content_hash("a"), content_hash("b"));
}

#[test]
fn indexing_a_document() {
    let d = index_new("doc1.md", DOC1);
    assert_eq!(d.path, "doc1.md");
    assert_eq!(d.mtime, 7);
    assert_eq!(d.tags, "rust testing");
    assert_eq!(d.hash, content_hash(DOC1));
    let links: Vec<(String, String, Option<String>)> =
        d.resolved_links.iter().map(|l| (l.resolved.clone(), l.raw.clone(), l.anchor.clone())).collect();
    assert_eq!(links, vec![("doc2.md".to_string(), "doc2.md".to_string(), None)]);
    assert_eq!(d.citations, vec!["https://example.com".to_string()]);
    assert!(d.broken_raw.is_empty());
    let hs: Vec<(i32, String, String)> = d.headings.iter().map(|h| (h.level, h.text.clone(), h.anchor.clone())).collect();
    // Without front-matter support in the Markdown parser, the closing `---`
    // makes the tag line a setext heading.
    assert_eq!(
        hs,
        vec![
            (2, "tags: [rust, testing]".to_string(), "tags-rust-testing".to_string()),
            (1, "Document 1".to_string(), "document-1".to_string())
        ]
    );
}

#[test]
fn test_get_links_bidirectional() {
    let d1 = index_new("doc1.md", DOC1);
    let d2 = index_new("doc2.md", DOC2);
    assert!(d1.resolved_links.len() > 0, "doc1 should have outgoing links");
    assert!(d2.resolved_links.iter().any(|l| l.resolved == "doc1.md"));
}

#[test]
fn test_get_citations_extracts_urls() {
    let d = index_new("doc1.md", DOC1);
    assert!(d.citations.iter().any(|c| c.contains("example.com")));
}

#[test]
fn duplicate_links_collapse_and_the_last_in_order_wins() {
    let content = "[one](doc2) [two](doc2.md) [again](doc2.md) [ext](https://e.org) [ext2](https://e.org) [gone](missing#a) [gone2](missing#b)\n";
    let d = index_new("doc1.md", content);
    let links: Vec<(String, String)> = d.resolved_links.iter().map(|l| (l.resolved.clone(), l.raw.clone())).collect();
    assert_eq!(links, vec![("doc2.md".to_string(), "doc2.md".to_string())]);
    assert_eq!(d.citations, vec!["https://e.org".to_string()]);
    assert_eq!(d.broken_raw, vec!["missing".to_string(), "missing".to_string()]);
}

#[test]
fn a_document_without_front_matter_has_no_tags() {
    let d = index_new("doc3.md", DOC3);
    assert_eq!(d.tags, "");
    assert!(d.resolved_links.is_empty() && d.citations.is_empty());
}

#[test]
fn same_content_is_only_touched() {
    let known = vec![KnownDoc { path: "doc1.md".to_string(), mtime: 1, hash: content_hash(DOC1) }];
    match index_document(&known, &paths(), &"doc1.md".to_string(), 9, DOC1.to_string()) {
        ParseResult::Unchanged { path, mtime, hash } => {
            assert_eq!(path, "doc1.md");
            assert_eq!(mtime, 9);
            assert_eq!(hash, content_hash(DOC1));
        }
        ParseResult::Changed(_) => panic!("content is unchanged"),
    }
    match index_document(&known, &paths(), &"doc1.md".to_string(), 9, DOC2.to_string()) {
        ParseResult::Changed(d) => assert_eq!(d.tags, "python"),
        ParseResult::Unchanged { .. } => panic!("content changed"),
    }
}

#[test]
fn walk_diff() {
    let known = vec![
        KnownDoc { path: "a.md".into(), mtime: 1, hash: vec![1] },
        KnownDoc { path: "b.md".into(), mtime: 2, hash: vec![2] },
        KnownDoc { path: "gone.md".into(), mtime: 3, hash: vec![3] },
    ];
    let walked = vec![
        WalkEntry { path: "a.md".into(), mtime: 1 },
        WalkEntry { path: "b.md".into(), mtime: 5 },
        WalkEntry { path: "new.md".into(), mtime: 7 },
    ];
    let d = diff_walk(&known, &walked);
    assert_eq!(d.changed, vec![("b.md".to_string(), 5), ("new.md".to_string(), 7)]);
    assert_eq!(d.current_paths, vec!["a.md".to_string(), "b.md".to_string(), "new.md".to_string()]);
    assert_eq!(d.deleted, vec!["gone.md".to_string()]);
}

#[test]
fn test_refresh_indexes_new_files() {
    // A first refresh indexes everything; a second, on the same files, finds no change.
    let walked = vec![
        WalkEntry { path: "doc1.md".into(), mtime: 10 },
        WalkEntry { path: "doc2.md".into(), mtime: 11 },
        WalkEntry { path: "doc3.md".into(), mtime: 12 },
    ];
    let first = diff_walk(&vec![], &walked);
    assert_eq!(first.changed.len(), 3);
    let contents = [DOC1, DOC2, DOC3];
    let results: Vec<ParseResult> = first
        .changed
        .iter()
        .zip(contents.iter())
        .map(|((p, m), c)| index_document(&vec![], &first.current_paths, p, *m, c.to_string()))
        .collect();
    let plan = split_results(results);
    assert_eq!(plan.changed.len(), 3);
    assert!(plan.touch.is_empty());
    let known: Vec<KnownDoc> =
        plan.changed_docs.iter().map(|d| KnownDoc { path: d.path.clone(), mtime: d.mtime, hash: d.hash.clone() }).collect();
    let second = diff_walk(&known, &walked);
    assert!(second.changed.is_empty());
    assert!(second.deleted.is_empty());
}

#[test]
fn split_keeps_order() {
    let known = vec![KnownDoc { path: "doc3.md".to_string(), mtime: 1, hash: content_hash(DOC3) }];
    let results = vec![
        index_document(&known, &paths(), &"doc1.md".to_string(), 2, DOC1.to_string()),
        index_document(&known, &paths(), &"doc3.md".to_string(), 3, DOC3.to_string()),
        index_document(&known, &paths(), &"doc2.md".to_string(), 4, DOC2.to_string()),
    ];
    let plan = split_results(results);
    assert_eq!(plan.changed, vec![("doc1.md".to_string(), 2), ("doc2.md".to_string(), 4)]);
    assert_eq!(plan.touch.len(), 1);
    assert_eq!(plan.touch[0].path, "doc3.md");
    assert_eq!(plan.touch[0].mtime, 3);
}

#[test]
fn test_lint_clean_project() {
    // Freshly indexed links are pinned to the current versions: nothing is stale.
    let docs = vec![DocVersion { path: "doc1.md".into(), version: 1 }, DocVersion { path: "doc2.md".into(), version: 1 }];
    let links = vec![
        LinkRow { rowid: 1, from_id: "doc1.md".into(), to_id: "doc2.md".into(), pinned_version: Some(1) },
        LinkRow { rowid: 2, from_id: "doc2.md".into(), to_id: "doc1.md".into(), pinned_version: Some(1) },
    ];
    assert!(run_lints(&links, &docs, vec![]).is_empty());
}

#[test]
fn test_approve_edits_returns_count() {
    // Approving with no paths on a freshly indexed project: the count parses and nothing was stale.
    let docs = vec![DocVersion { path: "doc1.md".into(), version: 1 }, DocVersion { path: "doc2.md".into(), version: 1 }];
    let mut links = vec![
        LinkRow { rowid: 1, from_id: "doc1.md".into(), to_id: "doc2.md".into(), pinned_version: Some(1) },
        LinkRow { rowid: 2, from_id: "doc2.md".into(), to_id: "doc1.md".into(), pinned_version: Some(1) },
    ];
    let paths = ApproveEditsParams { paths: None }.approval_paths();
    let count = approve_edits(&mut links, &docs, &paths);
    let text = format!("{}", count);
    let parsed: u64 = text.parse().unwrap();
    assert_eq!(parsed, 0);
}

#[test]
fn versions_rise_by_one_on_a_content_change() {
    let h1 = content_hash("one");
    let h2 = content_hash("two");
    assert_eq!(document_version(None, &h1), 1);
    assert_eq!(document_version(Some((4, h1.clone())), &h1), 4);
    assert_eq!(document_version(Some((4, h1.clone())), &h2), 5);
}

#[test]
fn tag_and_heading_rows() {
    assert_eq!(tag_row(&"".to_string()), None);
    assert_eq!(tag_row(&"rust testing".to_string()), Some("rust testing".to_string()));
    assert_eq!(heading_line(&vec![]), None);
    let hs = vec![
        IndexedHeading { level: 1, text: "Document 1".into(), anchor: "document-1".into() },
        IndexedHeading { level: 2, text: "Part".into(), anchor: "part".into() },
    ];
    assert_eq!(heading_line(&hs), Some("Document 1 Part".to_string()));
}
