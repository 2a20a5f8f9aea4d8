use grepdown::graph::reachable;

fn edges(list: &[(&str, &str)]) -> Vec<(String, String)> {
    list.iter().map(|(a, b)| (a.to_string(), b.to_string())).collect()
}

fn nodes(e: &Vec<(String, String)>, from: &str, depth: i64) -> Vec<(String, i64)> {
    reachable(e, from, depth).into_iter().map(|n| (n.path, n.depth)).collect()
}

#[test]
fn bfs_gives_minimum_depths() {
    let e = edges(&[("doc1.md", "doc2.md"), ("doc2.md", "doc1.md"), ("doc2.md", "doc3.md"), ("doc3.md", "doc4.md")]);
    assert_eq!(
        nodes(&e, "doc1.md", 2),
        vec![("doc2.md".to_string(), 1), ("doc1.md".to_string(), 2), ("doc3.md".to_string(), 2)]
    );
    assert_eq!(
        nodes(&e, "doc1.md", 3),
        vec![
            ("doc2.md".to_string(), 1),
            ("doc1.md".to_string(), 2),
            ("doc3.md".to_string(), 2),
            ("doc4.md".to_string(), 3)
        ]
    );
}

#[test]
fn nothing_lies_within_zero_hops() {
    let e = edges(&[("a", "b"), ("b", "c")]);
    assert!(nodes(&e, "a", 0).is_empty());
    assert!(nodes(&e, "a", -5).is_empty());
    assert_eq!(nodes(&e, "a", 1), vec![("b".to_string(), 1)]);
}

#[test]
fn a_shortcut_wins_over_a_long_way() {
    let e = edges(&[("a", "b"), ("b", "c"), ("c", "d"), ("a", "d")]);
    assert_eq!(
        nodes(&e, "a", 10),
        vec![("b".to_string(), 1), ("d".to_string(), 1), ("c".to_string(), 2)]
    );
}

#[test]
fn nothing_reachable_from_a_leaf() {
    let e = edges(&[("a", "b")]);
    assert!(nodes(&e, "b", 5).is_empty());
    assert!(nodes(&e, "zzz", 5).is_empty());
}

#[test]
fn test_get_reachable_finds_neighbors() {
    // doc1 links to doc2, doc2 links to doc1: both reachable
    let e = edges(&[("doc1.md", "doc2.md"), ("doc2.md", "doc1.md")]);
    let got = nodes(&e, "doc1.md", 2);
    assert!(got.iter().any(|(p, _)| p == "doc2.md"));
}
