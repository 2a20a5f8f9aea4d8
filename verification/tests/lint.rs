use grepdown::lint::{approve_edits, run_lints, BrokenRow, DocVersion, Lint, LinkRow, LintData, Orphan, Severity, StaleRef};

fn doc(path: &str, version: i64) -> DocVersion {
    DocVersion { path: path.to_string(), version }
}

fn link(rowid: i64, from: &str, to: &str, pinned: i64) -> LinkRow {
    LinkRow { rowid, from_id: from.to_string(), to_id: to.to_string(), pinned_version: Some(pinned) }
}

#[test]
fn test_stale_ref_detection() {
    let docs = vec![doc("/a.md", 1), doc("/b.md", 2)];
    let links = vec![link(1, "/a.md", "/b.md", 1)];

    let lint = StaleRef;
    let diags = lint.check(&links, &docs);

    assert_eq!(diags.len(), 1);
    assert_eq!(diags[0].from_path, "/a.md");
    assert_eq!(diags[0].to_path, "/b.md");
    match &diags[0].data {
        LintData::StaleRef { pinned_version, current_version } => {
            assert_eq!(*pinned_version, 1);
            assert_eq!(*current_version, 2);
        }
        _ => panic!("a stale-reference diagnostic"),
    }
}

#[test]
fn test_no_stale_refs_when_up_to_date() {
    let docs = vec![doc("/a.md", 1), doc("/b.md", 2)];
    let links = vec![link(1, "/a.md", "/b.md", 2)];

    let lint = StaleRef;
    let diags = lint.check(&links, &docs);

    assert_eq!(diags.len(), 0);
}

#[test]
fn test_approve_edits_all() {
    let docs = vec![doc("/a.md", 1), doc("/b.md", 2)];
    let mut links = vec![link(1, "/a.md", "/b.md", 1)];

    let rows = approve_edits(&mut links, &docs, &vec![]);
    assert_eq!(rows, 1);

    // Verify the link was updated
    let pinned = links.iter().find(|l| l.from_id == "/a.md").unwrap().pinned_version.unwrap();
    assert_eq!(pinned, 2);
}

#[test]
fn test_approve_edits_specific_path() {
    let docs = vec![doc("/a.md", 1), doc("/b.md", 2), doc("/c.md", 3)];
    let mut links = vec![link(1, "/a.md", "/b.md", 1), link(2, "/a.md", "/c.md", 1)];

    let paths = vec!["/b.md".to_string()];
    let rows = approve_edits(&mut links, &docs, &paths);
    assert_eq!(rows, 1);

    // Verify only the link to /b.md was updated
    let pinned_b = links.iter().find(|l| l.to_id == "/b.md").unwrap().pinned_version.unwrap();
    assert_eq!(pinned_b, 2);

    let pinned_c = links.iter().find(|l| l.to_id == "/c.md").unwrap().pinned_version.unwrap();
    assert_eq!(pinned_c, 1);
}

#[test]
fn stale_ref_lint_describes_itself() {
    let lint = StaleRef;
    assert_eq!(lint.id(), "stale-ref");
    assert_eq!(lint.title(), "STALE REFERENCES DETECTED");
    assert!(lint.suggestions().contains("grepdown approve-edits <filenames>"));
}

#[test]
fn approve_all_then_lint_is_clean() {
    let docs = vec![doc("/a.md", 3), doc("/b.md", 5)];
    let mut links = vec![link(1, "/a.md", "/b.md", 1), link(2, "/b.md", "/a.md", 2), link(3, "/b.md", "/a.md", 3)];
    assert_eq!(run_lints(&links, &docs, vec![]).len(), 2);
    assert_eq!(approve_edits(&mut links, &docs, &vec![]), 2);
    assert!(run_lints(&links, &docs, vec![]).is_empty());
    // a second approval finds nothing left to approve
    assert_eq!(approve_edits(&mut links, &docs, &vec![]), 0);
}

#[test]
fn unpinned_and_dangling_links_are_never_stale() {
    let docs = vec![doc("/a.md", 4)];
    let links = vec![
        LinkRow { rowid: 1, from_id: "/b.md".into(), to_id: "/a.md".into(), pinned_version: None },
        link(2, "/a.md", "/gone.md", 1),
    ];
    let diags = run_lints(&links, &docs, vec![]);
    assert!(diags.is_empty());
    let d = StaleRef.check(&vec![link(3, "/x.md", "/a.md", 0)], &docs);
    assert!(matches!(d[0].severity, Severity::Warning));
}

#[test]
fn orphans_and_broken_links_are_reported() {
    let docs = vec![doc("a.md", 1), doc("b.md", 1), doc("c.md", 1)];
    // a.md links to itself and to c.md; nobody else links to a.md or b.md.
    let links = vec![link(1, "a.md", "a.md", 1), link(2, "a.md", "c.md", 1)];
    let broken = vec![BrokenRow { from_id: "a.md".into(), raw_target: "missing".into() }];
    let diags = run_lints(&links, &docs, broken);
    let got: Vec<(&str, String, String)> = diags.iter().map(|d| (d.lint_id, d.from_path.clone(), d.to_path.clone())).collect();
    assert_eq!(
        got,
        vec![
            ("orphan", "a.md".to_string(), "".to_string()),
            ("orphan", "b.md".to_string(), "".to_string()),
            ("broken-link", "a.md".to_string(), "missing".to_string()),
        ]
    );
    assert!(matches!(diags[0].severity, Severity::Warning));
    assert!(matches!(diags[2].severity, Severity::Error));
    assert!(matches!(diags[2].data, LintData::BrokenLink));
    assert_eq!(Orphan.id(), "orphan");
}

#[test]
fn approving_a_folder_approves_the_links_into_it() {
    let docs = vec![doc("notes/x.md", 2), doc("notesy.md", 2), doc("y.md", 2)];
    let mut links = vec![link(1, "a.md", "notes/x.md", 1), link(2, "a.md", "notesy.md", 1), link(3, "a.md", "y.md", 1)];
    assert_eq!(approve_edits(&mut links, &docs, &vec!["notes".to_string()]), 1);
    assert_eq!(links[0].pinned_version, Some(2));
    assert_eq!(links[1].pinned_version, Some(1));
    assert_eq!(approve_edits(&mut links, &docs, &vec!["notesy.md".to_string(), "y.md/".to_string()]), 1);
    assert_eq!(links[1].pinned_version, Some(2));
    assert_eq!(links[2].pinned_version, Some(1));
}
