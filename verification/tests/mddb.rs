use grepdown::lint::{DocVersion, LinkRow};
use grepdown::mddb::{approve_edits, extract_links, i64_to_decimal, link_candidates, resolve_link, run_lints, Lint, StaleRef};

#[test]
fn decimal_numbers() {
    for n in [0i64, 7, 10, 42, -42, 1_000_000, i64::MAX, i64::MIN] {
        assert_eq!(i64_to_decimal(n), n.to_string());
    }
}

#[test]
fn stale_reference_messages() {
    let docs = vec![DocVersion { path: "/a.md".into(), version: 1 }, DocVersion { path: "/b.md".into(), version: 2 }];
    let links = vec![LinkRow { rowid: 1, from_id: "/a.md".into(), to_id: "/b.md".into(), pinned_version: Some(1) }];
    let diags = StaleRef.check(&links, &docs);
    assert_eq!(diags.len(), 1);
    assert_eq!(diags[0].lint_id, "stale-ref");
    assert_eq!(diags[0].message, "pinned version 1 is behind current version 2");
    assert_eq!(run_lints(&links, &docs).len(), 1);
}

#[test]
fn approval_repins_every_link() {
    let docs = vec![DocVersion { path: "/b.md".into(), version: 4 }];
    let mut links = vec![
        LinkRow { rowid: 1, from_id: "/a.md".into(), to_id: "/b.md".into(), pinned_version: Some(1) },
        LinkRow { rowid: 2, from_id: "/a.md".into(), to_id: "/gone.md".into(), pinned_version: Some(1) },
    ];
    assert_eq!(approve_edits(&mut links, &docs), 2);
    assert_eq!(links[0].pinned_version, Some(4));
    assert_eq!(links[1].pinned_version, None);
    assert!(run_lints(&links, &docs).is_empty());
}

#[test]
fn legacy_links() {
    let got: Vec<(String, bool)> = extract_links("[a](b.md#x) [u](https://e.org) [f](ftp://h/f)")
        .into_iter()
        .map(|l| (l.target, l.is_external))
        .collect();
    assert_eq!(
        got,
        vec![("b.md#x".to_string(), false), ("https://e.org".to_string(), true), ("ftp://h/f".to_string(), true)]
    );
}

#[test]
fn legacy_link_resolution() {
    let c = link_candidates("/kb/notes/a.md", "../sub/b");
    assert_eq!(c, Some(("/kb/sub/b.md".to_string(), "/kb/sub/b/index.md".to_string())));
    assert_eq!(resolve_link(c.clone(), false, true), Some("/kb/sub/b/index.md".to_string()));
    assert_eq!(resolve_link(c.clone(), true, true), Some("/kb/sub/b.md".to_string()));
    assert_eq!(resolve_link(c, false, false), None);
    assert_eq!(link_candidates("", "x"), None);
}
