//! The first generation of the knowledge base (`mddb`): its lint, which
//! reports stale references as messages, its approval, which re-pins every
//! link, and its link classification without fragments.
use vstd::prelude::*;
use crate::text::{chars_of, string_from_chars, contains_chars, matches_at, contains_seq, starts_with_seq};
use crate::lint::{LinkRow, DocVersion, LinkRowView, link_rows_view, doc_versions_view, current_version, is_stale, find_version};
use crate::markdown::{markdown_events, markdown_events_of, events_view, MdEvent, MdEventView};
use crate::paths::{path_parent, path_parent_of, path_join, path_join_of, path_with_extension, path_with_extension_of,
    normalize_path, normalized_path};

verus! {

// ------------------------------------------------------------------
// Numbers as text
// ------------------------------------------------------------------

pub open spec fn digit_char(d: int) -> char {
    (d + 48) as char
}

/// The decimal digits of a natural number.
pub open spec fn digits(n: nat) -> Seq<char>
    decreases n,
{
    if n < 10 {
        seq![digit_char(n as int)]
    } else {
        digits(n / 10) + seq![digit_char((n % 10) as int)]
    }
}

/// The decimal form of an integer, as `Display` writes it.
pub open spec fn decimal(n: int) -> Seq<char> {
    if n < 0 {
        seq!['-'] + digits((-n) as nat)
    } else {
        digits(n as nat)
    }
}

pub open spec fn digits_or_empty(n: nat) -> Seq<char> {
    if n == 0 {
        Seq::empty()
    } else {
        digits(n)
    }
}

/// The decimal form of `n` (`n.to_string()`).
pub fn i64_to_decimal(n: i64) -> (s: String)
    ensures
        s@ == decimal(n as int),
{
    let mag: u64 = if n < 0 {
        let wide: i128 = n as i128;
        (-wide) as u64
    } else {
        n as u64
    };
    let mut acc: Vec<char> = Vec::new();
    if mag == 0 {
        acc.push('0');
    } else {
        let mut rest: u64 = mag;
        while rest > 0
            invariant
                mag > 0,
                digits(mag as nat) == digits_or_empty(rest as nat) + acc@,
            decreases rest,
        {
            let d: u8 = (rest % 10) as u8;
            let c: char = (d + 48) as char;
            assert(c == digit_char((rest % 10) as int));
            let ghost before = acc@;
            acc.insert(0, c);
            proof {
                assert(acc@ =~= seq![c] + before);
                if rest >= 10 {
                    assert(digits(rest as nat) == digits((rest / 10) as nat) + seq![c]);
                    assert(digits_or_empty((rest / 10) as nat) == digits((rest / 10) as nat));
                } else {
                    assert(digits(rest as nat) == seq![c]);
                    assert(digits_or_empty((rest / 10) as nat) =~= Seq::<char>::empty());
                }
                assert(digits_or_empty(rest as nat) + before =~= digits_or_empty((rest / 10) as nat) + acc@);
            }
            rest = rest / 10;
        }
        proof {
            assert(digits_or_empty(0) + acc@ =~= acc@);
        }
    }
    proof {
        if mag == 0 {
            assert(digits(0) =~= seq!['0']);
        }
    }
    if n < 0 {
        let mut out: Vec<char> = Vec::new();
        out.push('-');
        out.append(&mut acc);
        proof {
            assert(out@ =~= seq!['-'] + digits(mag as nat));
        }
        string_from_chars(&out)
    } else {
        string_from_chars(&acc)
    }
}

// ------------------------------------------------------------------
// Lints
// ------------------------------------------------------------------

pub enum Severity {
    Error,
    Warning,
}

/// A finding of a lint, with a human-readable message.
pub struct Diagnostic {
    pub lint_id: &'static str,
    pub severity: Severity,
    pub from_path: String,
    pub to_path: String,
    pub message: String,
}

/// The message of a stale reference.
pub open spec fn stale_message(pinned: i64, current: i64) -> Seq<char> {
    "pinned version "@ + decimal(pinned as int) + " is behind current version "@ + decimal(current as int)
}

/// The stale-reference diagnostics of a link table: (from, to, message).
pub open spec fn stale_messages(links: Seq<LinkRowView>, docs: Seq<(Seq<char>, i64)>) -> Seq<(Seq<char>, Seq<char>, Seq<char>)>
    decreases links.len(),
{
    if links.len() == 0 {
        Seq::empty()
    } else {
        let prev = stale_messages(links.drop_last(), docs);
        let l = links.last();
        if is_stale(l, docs) {
            prev.push((l.1, l.2, stale_message(l.3->0, current_version(docs, l.2)->0)))
        } else {
            prev
        }
    }
}

pub open spec fn messages_view(v: Seq<Diagnostic>) -> Seq<(Seq<char>, Seq<char>, Seq<char>)> {
    v.map_values(|d: Diagnostic| (d.from_path@, d.to_path@, d.message@))
}

/// A lint over the link graph.
pub trait Lint {
    fn id(&self) -> &'static str;

    fn check(&self, links: &Vec<LinkRow>, docs: &Vec<DocVersion>) -> Vec<Diagnostic>;
}

/// Finds links whose target changed after the link was pinned.
pub struct StaleRef;

impl Lint for StaleRef {
    fn id(&self) -> (r: &'static str)
        ensures
            r@ == "stale-ref"@,
    {
        "stale-ref"
    }

    /// One warning per stale link, in link-table order.
    fn check(&self, links: &Vec<LinkRow>, docs: &Vec<DocVersion>) -> (diags: Vec<Diagnostic>)
        ensures
            messages_view(diags@) == stale_messages(link_rows_view(links@), doc_versions_view(docs@)),
            forall|i: int| 0 <= i < diags.len() ==> (#[trigger] diags@[i]).lint_id@ == "stale-ref"@
                && diags@[i].severity is Warning,
    {
        let ghost lv = link_rows_view(links@);
        let ghost dv = doc_versions_view(docs@);
        let mut diags: Vec<Diagnostic> = Vec::new();
        let mut i: usize = 0;
        while i < links.len()
            invariant
                i <= links.len(),
                lv == link_rows_view(links@),
                dv == doc_versions_view(docs@),
                messages_view(diags@) == stale_messages(lv.take(i as int), dv),
                forall|k: int| 0 <= k < diags.len() ==> (#[trigger] diags@[k]).lint_id@ == "stale-ref"@
                    && diags@[k].severity is Warning,
            decreases links.len() - i,
        {
            proof {
                assert(lv.take(i + 1).drop_last() =~= lv.take(i as int));
                assert(lv.take(i + 1).last() == links@[i as int]@);
            }
            let l = &links[i];
            match l.pinned_version {
                Some(pinned) => match find_version(docs, &l.to_id) {
                    Some(current) => {
                        if pinned < current {
                            let mut message = "pinned version ".to_owned();
                            let p = i64_to_decimal(pinned);
                            message.append(p.as_str());
                            message.append(" is behind current version ");
                            let c = i64_to_decimal(current);
                            message.append(c.as_str());
                            let d = Diagnostic {
                                lint_id: self.id(),
                                severity: Severity::Warning,
                                from_path: l.from_id.clone(),
                                to_path: l.to_id.clone(),
                                message,
                            };
                            let ghost before = messages_view(diags@);
                            let ghost dv2 = (d.from_path@, d.to_path@, d.message@);
                            diags.push(d);
                            proof {
                                assert(messages_view(diags@) =~= before.push(dv2));
                            }
                        }
                    },
                    None => {},
                },
                None => {},
            }
            i += 1;
        }
        proof {
            assert(lv.take(links.len() as int) =~= lv);
        }
        diags
    }
}

/// Run every lint: the stale-reference findings.
pub fn run_lints(links: &Vec<LinkRow>, docs: &Vec<DocVersion>) -> (diags: Vec<Diagnostic>)
    ensures
        messages_view(diags@) == stale_messages(link_rows_view(links@), doc_versions_view(docs@)),
        forall|i: int| 0 <= i < diags.len() ==> (#[trigger] diags@[i]).lint_id@ == "stale-ref"@
            && diags@[i].severity is Warning,
{
    let lint = StaleRef;
    lint.check(links, docs)
}

/// A link re-pinned to its target's current version (none when the target
/// is not indexed).
pub open spec fn repinned(l: LinkRowView, docs: Seq<(Seq<char>, i64)>) -> LinkRowView {
    (l.0, l.1, l.2, current_version(docs, l.2))
}

/// Approve every link: pin each to its target's current version. Returns
/// the number of links updated, which is every link.
pub fn approve_edits(links: &mut Vec<LinkRow>, docs: &Vec<DocVersion>) -> (n: usize)
    ensures
        link_rows_view(final(links)@) == link_rows_view(old(links)@).map_values(
            |l: LinkRowView| repinned(l, doc_versions_view(docs@)),
        ),
        n == old(links).len(),
{
    let ghost orig = link_rows_view(links@);
    let ghost dv = doc_versions_view(docs@);
    let mut i: usize = 0;
    while i < links.len()
        invariant
            i <= links.len(),
            links.len() == orig.len(),
            dv == doc_versions_view(docs@),
            forall|k: int| 0 <= k < i ==> #[trigger] link_rows_view(links@)[k] == repinned(orig[k], dv),
            forall|k: int| i <= k < links.len() ==> #[trigger] link_rows_view(links@)[k] == orig[k],
        decreases links.len() - i,
    {
        proof {
            assert(link_rows_view(links@)[i as int] == orig[i as int]);
        }
        let current = find_version(docs, &links[i].to_id);
        let l = LinkRow {
            rowid: links[i].rowid,
            from_id: links[i].from_id.clone(),
            to_id: links[i].to_id.clone(),
            pinned_version: current,
        };
        let ghost before = link_rows_view(links@);
        let ghost lv = l@;
        links[i] = l;
        proof {
            assert(link_rows_view(links@) =~= before.update(i as int, lv));
        }
        i += 1;
    }
    proof {
        assert(link_rows_view(links@) =~= orig.map_values(|l: LinkRowView| repinned(l, dv)));
    }
    links.len()
}

/// After re-pinning every link, the lint finds nothing.
pub proof fn lemma_repin_clears(links: Seq<LinkRowView>, docs: Seq<(Seq<char>, i64)>)
    ensures
        stale_messages(links.map_values(|l: LinkRowView| repinned(l, docs)), docs) == Seq::<
            (Seq<char>, Seq<char>, Seq<char>),
        >::empty(),
    decreases links.len(),
{
    if links.len() > 0 {
        let f = |l: LinkRowView| repinned(l, docs);
        assert(links.map_values(f).drop_last() =~= links.drop_last().map_values(f));
        lemma_repin_clears(links.drop_last(), docs);
    }
}

// ------------------------------------------------------------------
// Links
// ------------------------------------------------------------------

/// A link of a document: its destination as written, and whether it is a
/// citation (an URL).
pub struct RawLink {
    pub target: String,
    pub is_external: bool,
}

pub open spec fn raw_links_view(v: Seq<RawLink>) -> Seq<(Seq<char>, bool)> {
    v.map_values(|l: RawLink| (l.target@, l.is_external))
}

/// A destination is external when it starts with `http://` or `https://`,
/// or holds `://`.
pub open spec fn is_url(url: Seq<char>) -> bool {
    starts_with_seq(url, "http://"@) || starts_with_seq(url, "https://"@) || contains_seq(url, "://"@)
}

/// The links of an event stream, in order.
pub open spec fn raw_links_of_events(evs: Seq<MdEventView>) -> Seq<(Seq<char>, bool)>
    decreases evs.len(),
{
    if evs.len() == 0 {
        Seq::empty()
    } else {
        let prev = raw_links_of_events(evs.drop_last());
        match evs.last() {
            MdEventView::Link(d) => prev.push((d, is_url(d))),
            MdEventView::Image(d) => prev.push((d, is_url(d))),
            _ => prev,
        }
    }
}

fn raw_link(url: &String) -> (l: RawLink)
    ensures
        l.target@ == url@,
        l.is_external == is_url(url@),
{
    let u = chars_of(url.as_str());
    let http = chars_of("http://");
    let https = chars_of("https://");
    let sep = chars_of("://");
    let is_external = matches_at(&u, &http, 0) || matches_at(&u, &https, 0) || contains_chars(&u, &sep);
    RawLink { target: url.clone(), is_external }
}

/// Extract all links from markdown content.
/// Returns (target, is_external) where is_external=true means citation (URL).
pub fn extract_links(content: &str) -> (links: Vec<RawLink>)
    ensures
        raw_links_view(links@) == raw_links_of_events(markdown_events_of(content@)),
{
    let events = markdown_events(content);
    let mut links: Vec<RawLink> = Vec::new();
    let mut i: usize = 0;
    while i < events.len()
        invariant
            i <= events.len(),
            raw_links_view(links@) == raw_links_of_events(events_view(events@.take(i as int))),
        decreases events.len() - i,
    {
        proof {
            assert(events_view(events@.take(i + 1)).drop_last() =~= events_view(events@.take(i as int)));
            assert(events_view(events@.take(i + 1)).last() == events@[i as int]@);
        }
        match &events[i] {
            MdEvent::Link { dest } => {
                let l = raw_link(dest);
                let ghost before = raw_links_view(links@);
                let ghost lv = (l.target@, l.is_external);
                links.push(l);
                proof {
                    assert(raw_links_view(links@) =~= before.push(lv));
                }
            },
            MdEvent::Image { dest } => {
                let l = raw_link(dest);
                let ghost before = raw_links_view(links@);
                let ghost lv = (l.target@, l.is_external);
                links.push(l);
                proof {
                    assert(raw_links_view(links@) =~= before.push(lv));
                }
            },
            _ => {},
        }
        i += 1;
    }
    proof {
        assert(events@.take(events.len() as int) =~= events@);
    }
    links
}

/// The two files a link may name, in the order they are tried: the target
/// (relative to the linking document's directory, normalised) with the
/// extension `md`, then the `index.md` inside it. `None` when the linking
/// path has no parent.
pub open spec fn link_candidates_of(base_path: Seq<char>, target: Seq<char>) -> Option<(Seq<char>, Seq<char>)> {
    match path_parent_of(base_path) {
        None => None,
        Some(dir) => {
            let n = normalized_path(path_join_of(dir, target));
            Some((path_with_extension_of(n, "md"@), path_join_of(n, "index.md"@)))
        },
    }
}

/// The candidate files of [`link_candidates_of`]; the link resolves to the
/// first of them that exists on disk.
pub fn link_candidates(base_path: &str, target: &str) -> (r: Option<(String, String)>)
    ensures
        match r {
            Some(c) => link_candidates_of(base_path@, target@) == Some((c.0@, c.1@)),
            None => link_candidates_of(base_path@, target@) is None,
        },
{
    let base_dir = match path_parent(base_path) {
        Some(d) => d,
        None => return None,
    };
    let joined = path_join(base_dir.as_str(), target);
    let normalized = normalize_path(joined.as_str());
    proof {
        reveal_strlit("md");
    }
    let direct = path_with_extension(normalized.as_str(), "md");
    let index = path_join(normalized.as_str(), "index.md");
    Some((direct, index))
}

/// Where a link resolves, given which candidate files exist: the first
/// existing one, else nowhere.
pub fn resolve_link(candidates: Option<(String, String)>, direct_exists: bool, index_exists: bool) -> (r: Option<String>)
    ensures
        match candidates {
            None => r is None,
            Some(c) => r == if direct_exists { Some(c.0) } else if index_exists { Some(c.1) } else { None },
        },
{
    match candidates {
        None => None,
        Some((direct, index)) => {
            if direct_exists {
                Some(direct)
            } else if index_exists {
                Some(index)
            } else {
                None
            }
        },
    }
}

} // verus!
