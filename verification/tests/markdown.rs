use grepdown::markdown::{extract_headings, extract_links, markdown_events, MdEvent};
use grepdown::slug::slugify;

fn link_tuples(content: &str) -> Vec<(String, bool, Option<String>)> {
    extract_links(content).into_iter().map(|l| (l.target, l.is_external, l.anchor)).collect()
}

#[test]
fn links_are_classified_and_split_at_the_fragment() {
    let got = link_tuples(
        "[Link to doc2](doc2.md)\n[Example](https://example.com)\n![img](pics/a.png#frag)\n[mail](mailto:x@y.z) [proto](//cdn.example.org/a) [here](#top)\n",
    );
    assert_eq!(
        got,
        vec![
            ("doc2.md".to_string(), false, None),
            ("https://example.com".to_string(), true, None),
            ("pics/a.png".to_string(), false, Some("frag".to_string())),
            ("mailto:x@y.z".to_string(), true, None),
            ("//cdn.example.org/a".to_string(), true, None),
            ("".to_string(), false, Some("top".to_string())),
        ]
    );
}

#[test]
fn only_the_first_hash_splits() {
    let got = link_tuples("[a](page#one#two)");
    assert_eq!(got, vec![("page".to_string(), false, Some("one#two".to_string()))]);
}

#[test]
fn no_links_in_plain_text() {
    assert!(extract_links("just text, no [brackets]").is_empty());
}

#[test]
fn headings_with_levels() {
    let hs: Vec<(i32, String)> = extract_headings("# Title\n\nBody\n\n### Third level\n")
        .into_iter()
        .map(|h| (h.level, h.text))
        .collect();
    assert_eq!(hs, vec![(1, "Title".to_string()), (3, "Third level".to_string())]);
}

#[test]
fn heading_text_is_the_whole_heading() {
    // Emphasis and code inside a heading are part of its text.
    let hs: Vec<(i32, String)> = extract_headings("## Sub *emph* tail\n\n# Use `cargo` now\n\n# *Hello* world\n")
        .into_iter()
        .map(|h| (h.level, h.text))
        .collect();
    assert_eq!(
        hs,
        vec![(2, "Sub emph tail".to_string()), (1, "Use cargo now".to_string()), (1, "Hello world".to_string())]
    );
}

#[test]
fn event_stream_is_converted() {
    let evs = markdown_events("# H\n[l](t)");
    assert!(matches!(evs[0], MdEvent::HeadingStart { level: 1 }));
    assert!(evs.iter().any(|e| matches!(e, MdEvent::Link { dest } if dest == "t")));
    assert!(evs.iter().any(|e| matches!(e, MdEvent::Text { text } if text == "H")));
}

#[test]
fn slugs() {
    assert_eq!(slugify("Hello World"), "hello-world");
    assert_eq!(slugify("  Leading and -- trailing  "), "leading-and-trailing");
    assert_eq!(slugify("C++ & Rust!"), "c-rust");
    assert_eq!(slugify("Straße Café"), "straße-café");
    assert_eq!(slugify("ÄB 2"), "äb-2");
    assert_eq!(slugify("Élan Vital"), "élan-vital");
    // U+0130 lowercases to `i` and a combining dot, which is not alphanumeric.
    assert_eq!(slugify("\u{130}stanbul Trip"), "istanbul-trip");
    assert_eq!(slugify("---"), "");
    assert_eq!(slugify(""), "");
}

#[test]
fn slugify_is_idempotent() {
    for s in ["Hello World", "  a - b  c-", "Ünïcode & ASCII -- mix 42", "x"] {
        let once = slugify(s);
        assert_eq!(slugify(&once), once);
    }
}
