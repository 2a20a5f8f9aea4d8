//! What the indexer reads out of a Markdown document: its links and its headings.
use vstd::prelude::*;
use crate::text::{chars_of, string_from_chars, contains_chars, matches_at, contains_seq, starts_with_seq, occurs_at, slice_take, slice_skip};
use pulldown_cmark::{Event, Tag};

verus! {

/// The events of the Markdown event stream that the indexer reads;
/// every other event is `Other`.
pub enum MdEvent {
    /// Start of a link, with its destination.
    Link { dest: String },
    /// Start of an image, with its destination.
    Image { dest: String },
    /// Start of a heading of the given level (1 to 6).
    HeadingStart { level: u8 },
    /// Start of any other tagged element (emphasis, code block, list, ...).
    Start,
    /// A text node.
    Text { text: String },
    /// An inline code span, with its text.
    Code { text: String },
    /// The end of any tagged element.
    End,
    /// Any other event.
    Other,
}

/// The mathematical form of an [`MdEvent`].
pub enum MdEventView {
    Link(Seq<char>),
    Image(Seq<char>),
    HeadingStart(u8),
    Start,
    Text(Seq<char>),
    Code(Seq<char>),
    End,
    Other,
}

impl View for MdEvent {
    type V = MdEventView;

    open spec fn view(&self) -> MdEventView {
        match self {
            MdEvent::Link { dest } => MdEventView::Link(dest@),
            MdEvent::Image { dest } => MdEventView::Image(dest@),
            MdEvent::HeadingStart { level } => MdEventView::HeadingStart(*level),
            MdEvent::Start => MdEventView::Start,
            MdEvent::Text { text } => MdEventView::Text(text@),
            MdEvent::Code { text } => MdEventView::Code(text@),
            MdEvent::End => MdEventView::End,
            MdEvent::Other => MdEventView::Other,
        }
    }
}

/// The events of a sequence of [`MdEvent`]s, by their views.
pub open spec fn events_view(v: Seq<MdEvent>) -> Seq<MdEventView> {
    v.map_values(|e: MdEvent| e@)
}

/// The CommonMark event stream that `pulldown_cmark::Parser::new` (no options)
/// produces for a text, each event reduced to an [`MdEventView`].
pub uninterp spec fn markdown_events_of(text: Seq<char>) -> Seq<MdEventView>;

/// Runs `pulldown_cmark::Parser::new(content)` and converts each event, in order.
/// The contract says that the result is the parser's event stream for
/// `content` (named, not stated) and that heading levels are 1 to 6,
/// which `HeadingLevel` documents.
#[verifier::external_body]
pub fn markdown_events(content: &str) -> (events: Vec<MdEvent>)
    ensures
        events_view(events@) == markdown_events_of(content@),
        forall|i: int|
            0 <= i < events.len() ==> (#[trigger] events@[i] matches MdEvent::HeadingStart {
                level,
            } ==> 1 <= level <= 6),
{
    pulldown_cmark::Parser::new(content).map(|e| match e {
        Event::Start(Tag::Link { dest_url, .. }) => MdEvent::Link { dest: dest_url.to_string() },
        Event::Start(Tag::Image { dest_url, .. }) => MdEvent::Image { dest: dest_url.to_string() },
        Event::Start(Tag::Heading { level, .. }) => MdEvent::HeadingStart { level: level as u8 },
        Event::Start(_) => MdEvent::Start,
        Event::Text(text) => MdEvent::Text { text: text.to_string() },
        Event::Code(text) => MdEvent::Code { text: text.to_string() },
        Event::End(_) => MdEvent::End,
        _ => MdEvent::Other,
    }).collect()
}

// ------------------------------------------------------------------
// Links
// ------------------------------------------------------------------

/// A link found in a document: its target (without the fragment), whether it
/// points outside the knowledge base, and its fragment.
pub struct MdLink {
    pub target: String,
    pub is_external: bool,
    pub anchor: Option<String>,
}

/// The mathematical form of a link: (target, is_external, anchor).
pub type LinkView = (Seq<char>, bool, Option<Seq<char>>);

pub open spec fn opt_text(o: Option<String>) -> Option<Seq<char>> {
    match o {
        Some(s) => Some(s@),
        None => None,
    }
}

impl View for MdLink {
    type V = LinkView;

    open spec fn view(&self) -> LinkView {
        (self.target@, self.is_external, opt_text(self.anchor))
    }
}

impl MdLink {
    pub fn clone_link(&self) -> (r: MdLink)
        ensures
            r@ == self@,
    {
        MdLink {
            target: self.target.clone(),
            is_external: self.is_external,
            anchor: match &self.anchor {
                Some(a) => Some(a.clone()),
                None => None,
            },
        }
    }
}

pub open spec fn links_view(v: Seq<MdLink>) -> Seq<LinkView> {
    v.map_values(|l: MdLink| l@)
}

/// A destination is external (a citation) when it holds `://`, or starts
/// with `mailto:` or `//`.
pub open spec fn is_external_url(url: Seq<char>) -> bool {
    contains_seq(url, "://"@) || starts_with_seq(url, "mailto:"@) || starts_with_seq(url, "//"@)
}

/// Position of the first `c` in `s`.
pub open spec fn first_index_of(s: Seq<char>, c: char) -> Option<int>
    decreases s.len(),
{
    if s.len() == 0 {
        None
    } else if s[0] == c {
        Some(0)
    } else {
        match first_index_of(s.drop_first(), c) {
            Some(i) => Some(i + 1),
            None => None,
        }
    }
}

/// A destination split at its first `#` into target and fragment.
pub open spec fn split_anchor(url: Seq<char>) -> (Seq<char>, Option<Seq<char>>) {
    match first_index_of(url, '#') {
        Some(h) => (url.take(h), Some(url.skip(h + 1))),
        None => (url, None),
    }
}

/// The link that a destination URL makes.
pub open spec fn link_of_url(url: Seq<char>) -> LinkView {
    (split_anchor(url).0, is_external_url(url), split_anchor(url).1)
}

/// The links of an event stream, in order: one per link or image start.
pub open spec fn links_of_events(evs: Seq<MdEventView>) -> Seq<LinkView>
    decreases evs.len(),
{
    if evs.len() == 0 {
        Seq::empty()
    } else {
        let prev = links_of_events(evs.drop_last());
        match evs.last() {
            MdEventView::Link(d) => prev.push(link_of_url(d)),
            MdEventView::Image(d) => prev.push(link_of_url(d)),
            _ => prev,
        }
    }
}

pub proof fn lemma_first_index_of(s: Seq<char>, c: char)
    ensures
        match first_index_of(s, c) {
            Some(h) => 0 <= h < s.len() && s[h] == c && forall|j: int| 0 <= j < h ==> s[j] != c,
            None => forall|j: int| 0 <= j < s.len() ==> s[j] != c,
        },
    decreases s.len(),
{
    if s.len() > 0 && s[0] != c {
        lemma_first_index_of(s.drop_first(), c);
        assert forall|j: int| 1 <= j < s.len() implies s[j] == s.drop_first()[j - 1] by {}
    }
}

/// A destination with a scheme (`://` anywhere in it) is external: a
/// citation, not a link to a document.
pub proof fn lemma_scheme_is_external(url: Seq<char>, i: int)
    requires
        0 <= i && i + 3 <= url.len(),
        url[i] == ':' && url[i + 1] == '/' && url[i + 2] == '/',
    ensures
        link_of_url(url).1,
{
    reveal_strlit("://");
    assert(url.subrange(i, i + 3) =~= "://"@);
    assert(occurs_at(url, "://"@, i));
}

/// A protocol-relative destination (`//host/...`) and a `mailto:` address
/// are external too.
pub proof fn lemma_mailto_and_protocol_relative_are_external(url: Seq<char>)
    requires
        (url.len() >= 2 && url[0] == '/' && url[1] == '/') || (url.len() >= 7 && url.take(7) == "mailto:"@),
    ensures
        link_of_url(url).1,
{
    reveal_strlit("//");
    reveal_strlit("mailto:");
    if url.len() >= 2 && url[0] == '/' && url[1] == '/' {
        assert(url.subrange(0, 2) =~= "//"@);
    } else {
        assert(url.subrange(0, 7) =~= url.take(7));
    }
}

/// A destination without a `:` that does not start with `//` (a relative
/// path such as `notes/a.md`) is internal.
pub proof fn lemma_relative_path_is_internal(url: Seq<char>)
    requires
        forall|i: int| 0 <= i < url.len() ==> #[trigger] url[i] != ':',
        !(url.len() >= 2 && url[0] == '/' && url[1] == '/'),
    ensures
        !link_of_url(url).1,
{
    reveal_strlit("://");
    reveal_strlit("//");
    reveal_strlit("mailto:");
    assert forall|i: int| !occurs_at(url, "://"@, i) by {
        if occurs_at(url, "://"@, i) {
            assert(url.subrange(i, i + 3)[0] == ':');
            assert(url[i] == ':');
        }
    }
    if occurs_at(url, "mailto:"@, 0) {
        assert(url.subrange(0, 7)[6] == ':');
        assert(url[6] == ':');
    }
    if occurs_at(url, "//"@, 0) {
        assert(url.subrange(0, 2)[0] == '/');
        assert(url.subrange(0, 2)[1] == '/');
    }
}

/// A link's target and fragment make up its destination: without a `#` the
/// target is the whole destination; else the destination is the target, a
/// `#` and the fragment, and the target holds no `#` (the first `#` splits).
pub proof fn lemma_link_target_and_fragment(url: Seq<char>)
    ensures
        match link_of_url(url).2 {
            None => link_of_url(url).0 == url && !url.contains('#'),
            Some(a) => url == link_of_url(url).0 + seq!['#'] + a && !link_of_url(url).0.contains('#'),
        },
{
    lemma_first_index_of(url, '#');
    match first_index_of(url, '#') {
        Some(h) => {
            assert(url == url.take(h) + seq!['#'] + url.skip(h + 1));
            if url.take(h).contains('#') {
                let k = choose|k: int| 0 <= k < url.take(h).len() && url.take(h)[k] == '#';
                assert(url[k] == '#');
            }
        },
        None => {
            if url.contains('#') {
                let k = choose|k: int| 0 <= k < url.len() && url[k] == '#';
            }
        },
    }
}

/// Finds the first `c` in `s`.
pub fn find_char(s: &[char], c: char) -> (r: Option<usize>)
    ensures
        match r {
            Some(h) => first_index_of(s@, c) == Some(h as int),
            None => first_index_of(s@, c) is None,
        },
{
    proof {
        lemma_first_index_of(s@, c);
    }
    let mut i: usize = 0;
    while i < s.len()
        invariant
            i <= s.len(),
            forall|j: int| 0 <= j < i ==> s@[j] != c,
            match first_index_of(s@, c) {
                Some(h) => 0 <= h < s@.len() && s@[h] == c && forall|j: int| 0 <= j < h ==> s@[j] != c,
                None => forall|j: int| 0 <= j < s@.len() ==> s@[j] != c,
            },
        decreases s.len() - i,
    {
        if s[i] == c {
            return Some(i);
        }
        i += 1;
    }
    None
}

/// Classifies one destination URL and splits off its fragment.
pub fn link_from_url(url: &str) -> (l: MdLink)
    ensures
        l@ == link_of_url(url@),
{
    let u = chars_of(url);
    let sep = chars_of("://");
    let mailto = chars_of("mailto:");
    let slashes = chars_of("//");
    let is_external = contains_chars(&u, &sep) || matches_at(&u, &mailto, 0)
        || matches_at(&u, &slashes, 0);
    proof {
        lemma_first_index_of(u@, '#');
    }
    match find_char(&u, '#') {
        Some(h) => {
            let target = string_from_chars(slice_take(&u, h));
            let anchor = string_from_chars(slice_skip(&u, h + 1));
            MdLink { target, is_external, anchor: Some(anchor) }
        },
        None => MdLink { target: string_from_chars(&u), is_external, anchor: None },
    }
}

/// Extract all links from markdown content, in document order.
/// Each is (target, is_external, anchor) where is_external means a citation (URL).
pub fn extract_links(content: &str) -> (links: Vec<MdLink>)
    ensures
        links_view(links@) == links_of_events(markdown_events_of(content@)),
{
    let events = markdown_events(content);
    links_from_events(&events)
}

/// The links of an event stream (see [`links_of_events`]).
pub fn links_from_events(events: &Vec<MdEvent>) -> (links: Vec<MdLink>)
    ensures
        links_view(links@) == links_of_events(events_view(events@)),
{
    let mut links: Vec<MdLink> = Vec::new();
    let mut i: usize = 0;
    while i < events.len()
        invariant
            i <= events.len(),
            links_view(links@) == links_of_events(events_view(events@.take(i as int))),
        decreases events.len() - i,
    {
        proof {
            assert(events_view(events@.take(i + 1)).drop_last() =~= events_view(events@.take(i as int)));
            assert(events_view(events@.take(i + 1)).last() == events@[i as int]@);
        }
        match &events[i] {
            MdEvent::Link { dest } => {
                let l = link_from_url(dest.as_str());
                links.push(l);
            },
            MdEvent::Image { dest } => {
                let l = link_from_url(dest.as_str());
                links.push(l);
            },
            _ => {},
        }
        i += 1;
        proof {
            assert(links_view(links@) =~= links_of_events(events_view(events@.take(i as int))));
        }
    }
    proof {
        assert(events@.take(events.len() as int) =~= events@);
    }
    links
}

// ------------------------------------------------------------------
// Headings
// ------------------------------------------------------------------

/// A heading: its level (1 to 6) and its text.
pub struct Heading {
    pub level: i32,
    pub text: String,
}

impl View for Heading {
    type V = (i32, Seq<char>);

    open spec fn view(&self) -> (i32, Seq<char>) {
        (self.level, self.text@)
    }
}

pub open spec fn headings_view(v: Seq<Heading>) -> Seq<(i32, Seq<char>)> {
    v.map_values(|h: Heading| h@)
}

/// State of the heading scan: headings closed so far, whether a heading is
/// open, its level, the text gathered for it, and how many elements opened
/// inside it (emphasis, links, ...) are still open.
pub struct HeadingScan {
    pub done: Seq<(i32, Seq<char>)>,
    pub in_heading: bool,
    pub level: i32,
    pub text: Seq<char>,
    pub depth: nat,
}

/// One event of the heading scan. A heading start opens a heading and clears
/// its text; text and code anywhere inside it are appended; elements opened inside it
/// are counted, and the end event that matches the heading's own start
/// closes it.
pub open spec fn heading_step(st: HeadingScan, e: MdEventView) -> HeadingScan {
    match e {
        MdEventView::HeadingStart(l) => HeadingScan {
            in_heading: true,
            level: l as i32,
            text: Seq::empty(),
            depth: 0,
            ..st
        },
        MdEventView::Text(t) | MdEventView::Code(t) => if st.in_heading {
            HeadingScan { text: st.text + t, ..st }
        } else {
            st
        },
        MdEventView::Start | MdEventView::Link(_) | MdEventView::Image(_) => if st.in_heading {
            HeadingScan { depth: st.depth + 1, ..st }
        } else {
            st
        },
        MdEventView::End => if st.in_heading {
            if st.depth == 0 {
                HeadingScan { done: st.done.push((st.level, st.text)), in_heading: false, ..st }
            } else {
                HeadingScan { depth: (st.depth - 1) as nat, ..st }
            }
        } else {
            st
        },
        _ => st,
    }
}

pub open spec fn heading_scan(evs: Seq<MdEventView>) -> HeadingScan
    decreases evs.len(),
{
    if evs.len() == 0 {
        HeadingScan { done: Seq::empty(), in_heading: false, level: 0, text: Seq::empty(), depth: 0 }
    } else {
        heading_step(heading_scan(evs.drop_last()), evs.last())
    }
}

/// The headings of an event stream, in order: (level, text).
pub open spec fn headings_of_events(evs: Seq<MdEventView>) -> Seq<(i32, Seq<char>)> {
    heading_scan(evs).done
}

/// The texts of a run of text events, joined.
pub open spec fn joined_texts(evs: Seq<MdEventView>) -> Seq<char>
    decreases evs.len(),
{
    if evs.len() == 0 {
        Seq::empty()
    } else {
        joined_texts(evs.drop_last()) + match evs.last() {
            MdEventView::Text(t) => t,
            _ => Seq::empty(),
        }
    }
}

proof fn lemma_scan_texts(l: u8, ts: Seq<MdEventView>)
    requires
        forall|i: int| 0 <= i < ts.len() ==> (#[trigger] ts[i]) is Text,
    ensures
        heading_scan(seq![MdEventView::HeadingStart(l)] + ts) == (HeadingScan {
            done: Seq::empty(),
            in_heading: true,
            level: l as i32,
            text: joined_texts(ts),
            depth: 0,
        }),
    decreases ts.len(),
{
    let evs = seq![MdEventView::HeadingStart(l)] + ts;
    if ts.len() == 0 {
        assert(evs =~= seq![MdEventView::HeadingStart(l)]);
        assert(evs.drop_last() =~= Seq::<MdEventView>::empty());
        assert(evs.last() == MdEventView::HeadingStart(l));
        let st = heading_scan(evs);
        assert(st == heading_step(heading_scan(evs.drop_last()), evs.last()));
        assert(st.text =~= joined_texts(ts));
        assert(st.done =~= Seq::<(i32, Seq<char>)>::empty());
    } else {
        let d = ts.drop_last();
        assert forall|i: int| 0 <= i < d.len() implies (#[trigger] d[i]) is Text by {
            assert(d[i] == ts[i]);
        }
        lemma_scan_texts(l, d);
        assert(evs.drop_last() =~= seq![MdEventView::HeadingStart(l)] + d);
        assert(evs.last() == ts.last());
        assert(ts[ts.len() - 1] is Text);
        let t = ts.last()->Text_0;
        assert(ts.last() == MdEventView::Text(t));
        let st = heading_scan(evs);
        assert(st == heading_step(heading_scan(evs.drop_last()), evs.last()));
        assert(joined_texts(ts) == joined_texts(d) + t);
        assert(st.text == joined_texts(d) + t);
    }
}

/// A heading made of text ends at its end event and holds all its text:
/// a heading start, any number of text events and an end give one heading
/// of that level whose text is the texts joined.
pub proof fn lemma_heading_holds_all_its_text(l: u8, ts: Seq<MdEventView>)
    requires
        forall|i: int| 0 <= i < ts.len() ==> (#[trigger] ts[i]) is Text,
    ensures
        headings_of_events(seq![MdEventView::HeadingStart(l)] + ts + seq![MdEventView::End])
            == seq![(l as i32, joined_texts(ts))],
{
    lemma_scan_texts(l, ts);
    let evs = seq![MdEventView::HeadingStart(l)] + ts + seq![MdEventView::End];
    assert(evs.drop_last() =~= seq![MdEventView::HeadingStart(l)] + ts);
    assert(evs.last() == MdEventView::End);
    assert(Seq::<(i32, Seq<char>)>::empty().push((l as i32, joined_texts(ts))) =~= seq![(l as i32, joined_texts(ts))]);
}

/// An element inside a heading (such as emphasis) does not end it: its
/// text and the text after it both belong to the heading.
pub proof fn lemma_emphasis_stays_in_heading(l: u8, a: Seq<char>, b: Seq<char>)
    ensures
        headings_of_events(
            seq![
                MdEventView::HeadingStart(l),
                MdEventView::Start,
                MdEventView::Text(a),
                MdEventView::End,
                MdEventView::Text(b),
                MdEventView::End,
            ],
        ) == seq![(l as i32, a + b)],
{
    let evs = seq![
        MdEventView::HeadingStart(l),
        MdEventView::Start,
        MdEventView::Text(a),
        MdEventView::End,
        MdEventView::Text(b),
        MdEventView::End,
    ];
    let e0 = evs.take(0);
    let e1 = evs.take(1);
    let e2 = evs.take(2);
    let e3 = evs.take(3);
    let e4 = evs.take(4);
    let e5 = evs.take(5);
    assert(e1.drop_last() =~= e0);
    assert(e2.drop_last() =~= e1);
    assert(e3.drop_last() =~= e2);
    assert(e4.drop_last() =~= e3);
    assert(e5.drop_last() =~= e4);
    assert(evs.drop_last() =~= e5);
    assert(e1.last() == MdEventView::HeadingStart(l));
    assert(e2.last() == MdEventView::Start);
    assert(e3.last() == MdEventView::Text(a));
    assert(e4.last() == MdEventView::End);
    assert(e5.last() == MdEventView::Text(b));
    assert(evs.last() == MdEventView::End);
    let s1 = heading_scan(e1);
    assert(s1 == heading_step(heading_scan(e0), MdEventView::HeadingStart(l)));
    assert(s1.in_heading && s1.depth == 0 && s1.level == l as i32 && s1.done.len() == 0);
    assert(s1.text =~= Seq::<char>::empty());
    let s2 = heading_scan(e2);
    assert(s2 == heading_step(s1, MdEventView::Start));
    assert(s2.in_heading && s2.depth == 1);
    let s3 = heading_scan(e3);
    assert(s3 == heading_step(s2, MdEventView::Text(a)));
    assert(s3.text =~= a);
    let s4 = heading_scan(e4);
    assert(s4 == heading_step(s3, MdEventView::End));
    assert(s4.in_heading && s4.depth == 0 && s4.text =~= a);
    let s5 = heading_scan(e5);
    assert(s5 == heading_step(s4, MdEventView::Text(b)));
    assert(s5.text =~= a + b);
    let s6 = heading_scan(evs);
    assert(s6 == heading_step(s5, MdEventView::End));
    assert(s6.done =~= seq![(l as i32, a + b)]);
    assert(Seq::<(i32, Seq<char>)>::empty().push((l as i32, a + b)) =~= seq![(l as i32, a + b)]);
}

/// Extract all headings from markdown content.
/// Returns (level, text) pairs where level is 1-6.
pub fn extract_headings(content: &str) -> (headings: Vec<Heading>)
    ensures
        headings_view(headings@) == headings_of_events(markdown_events_of(content@)),
        forall|i: int| 0 <= i < headings.len() ==> 1 <= #[trigger] headings@[i].level <= 6,
{
    let events = markdown_events(content);
    headings_from_events(&events)
}

/// The headings of an event stream (see [`headings_of_events`]).
pub fn headings_from_events(events: &Vec<MdEvent>) -> (headings: Vec<Heading>)
    requires
        forall|i: int|
            0 <= i < events.len() ==> (#[trigger] events@[i] matches MdEvent::HeadingStart {
                level,
            } ==> 1 <= level <= 6),
    ensures
        headings_view(headings@) == headings_of_events(events_view(events@)),
        forall|i: int| 0 <= i < headings.len() ==> 1 <= #[trigger] headings@[i].level <= 6,
{
    let mut headings: Vec<Heading> = Vec::new();
    let mut in_heading = false;
    let mut current_level: i32 = 0;
    let mut current_text: Vec<char> = Vec::new();
    let mut depth: usize = 0;
    let mut i: usize = 0;
    while i < events.len()
        invariant
            i <= events.len(),
            forall|k: int|
                0 <= k < events.len() ==> (#[trigger] events@[k] matches MdEvent::HeadingStart {
                    level,
                } ==> 1 <= level <= 6),
            ({
                let st = heading_scan(events_view(events@.take(i as int)));
                &&& headings_view(headings@) == st.done
                &&& in_heading == st.in_heading
                &&& current_level == st.level
                &&& current_text@ == st.text
                &&& depth == st.depth
            }),
            depth <= i,
            in_heading ==> 1 <= current_level <= 6,
            forall|k: int| 0 <= k < headings.len() ==> 1 <= #[trigger] headings@[k].level <= 6,
        decreases events.len() - i,
    {
        proof {
            assert(events_view(events@.take(i + 1)).drop_last() =~= events_view(events@.take(i as int)));
            assert(events_view(events@.take(i + 1)).last() == events@[i as int]@);
        }
        match &events[i] {
            MdEvent::HeadingStart { level } => {
                in_heading = true;
                current_level = *level as i32;
                current_text = Vec::new();
                depth = 0;
            },
            MdEvent::Start | MdEvent::Link { .. } | MdEvent::Image { .. } => {
                if in_heading {
                    depth = depth + 1;
                }
            },
            MdEvent::Text { text } | MdEvent::Code { text } => {
                if in_heading {
                    let mut t = chars_of(text.as_str());
                    current_text.append(&mut t);
                }
            },
            MdEvent::End => {
                if in_heading {
                    if depth == 0 {
                        let h = Heading { level: current_level, text: string_from_chars(&current_text) };
                        headings.push(h);
                        in_heading = false;
                    } else {
                        depth = depth - 1;
                    }
                }
            },
            _ => {},
        }
        i += 1;
        proof {
            let st = heading_scan(events_view(events@.take(i as int)));
            assert(headings_view(headings@) =~= st.done);
            assert(current_text@ =~= st.text);
        }
    }
    proof {
        assert(events@.take(events.len() as int) =~= events@);
    }
    headings
}

} // verus!
