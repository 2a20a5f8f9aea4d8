//! The decisions of an index refresh: which files changed since the last
//! one, which were deleted, and what is recorded for each changed document
//! (tags, resolved links, citations, broken links, headings and anchors).
//!
//! Walking the tree, reading files and writing the database happen around
//! this module; it sees their results as plain values.
use vstd::prelude::*;
use crate::text::chars_of;
use crate::markdown::{markdown_events, links_from_events, headings_from_events, markdown_events_of,
    links_of_events, headings_of_events, links_view, events_view, opt_text, MdLink};
use crate::order::{sort_dedup_links, sort_dedup};
use crate::paths::{resolve_in_set, resolve_in_paths};
use crate::frontmatter::{parse_frontmatter, extract_tags, frontmatter_text, yaml_string_map, tags_of, FrontMatterView};
use crate::slug::{slugify, slug_of};

verus! {

// ------------------------------------------------------------------
// Walk diff
// ------------------------------------------------------------------

/// A document row already in the index: path, modification time, content hash.
pub struct KnownDoc {
    pub path: String,
    pub mtime: i64,
    pub hash: Vec<u8>,
}

pub type KnownView = (Seq<char>, i64, Seq<u8>);

impl View for KnownDoc {
    type V = KnownView;

    open spec fn view(&self) -> KnownView {
        (self.path@, self.mtime, self.hash@)
    }
}

pub open spec fn known_view(v: Seq<KnownDoc>) -> Seq<KnownView> {
    v.map_values(|k: KnownDoc| k@)
}

/// The version a document has after it is written with content hash
/// `hash`: 1 for a new document, the stored version when the content is
/// unchanged, and one more when it changed.
pub open spec fn version_after(stored: Option<(i64, Seq<u8>)>, hash: Seq<u8>) -> int {
    match stored {
        None => 1,
        Some((v, h)) => if h == hash {
            v as int
        } else {
            v + 1
        },
    }
}

/// The version to record for a document written with content hash `hash`,
/// given its stored version and hash, if it has a row.
pub fn document_version(stored: Option<(i64, Vec<u8>)>, hash: &Vec<u8>) -> (r: i64)
    requires
        stored matches Some((v, _)) ==> v < i64::MAX,
    ensures
        r == version_after(
            match stored {
                Some((v, h)) => Some((v, h@)),
                None => None,
            },
            hash@,
        ),
{
    match stored {
        None => 1,
        Some((v, h)) => if bytes_equal(&h, hash) {
            v
        } else {
            v + 1
        },
    }
}

/// A Markdown file found by the walk: its path and modification time.
pub struct WalkEntry {
    pub path: String,
    pub mtime: i64,
}

pub type EntryView = (Seq<char>, i64);

impl View for WalkEntry {
    type V = EntryView;

    open spec fn view(&self) -> EntryView {
        (self.path@, self.mtime)
    }
}

pub open spec fn entries_view(v: Seq<WalkEntry>) -> Seq<EntryView> {
    v.map_values(|e: WalkEntry| e@)
}

pub open spec fn pairs_view(v: Seq<(String, i64)>) -> Seq<EntryView> {
    v.map_values(|e: (String, i64)| (e.0@, e.1))
}

/// What the index knows of a path: the mtime and hash of its row (a later
/// row of the same path replaces an earlier one, as a map insert does).
pub open spec fn lookup_known(known: Seq<KnownView>, path: Seq<char>) -> Option<(i64, Seq<u8>)>
    decreases known.len(),
{
    if known.len() == 0 {
        None
    } else if known.last().0 == path {
        Some((known.last().1, known.last().2))
    } else {
        lookup_known(known.drop_last(), path)
    }
}

/// A walked file needs a look when the index has no row for it, or a row
/// with another mtime.
pub open spec fn needs_look(known: Seq<KnownView>, e: EntryView) -> bool {
    !(lookup_known(known, e.0) matches Some(k) && k.0 == e.1)
}

/// The walked files that need a look, in walk order.
pub open spec fn changed_entries(known: Seq<KnownView>, walked: Seq<EntryView>) -> Seq<EntryView>
    decreases walked.len(),
{
    if walked.len() == 0 {
        Seq::empty()
    } else if needs_look(known, walked.last()) {
        changed_entries(known, walked.drop_last()).push(walked.last())
    } else {
        changed_entries(known, walked.drop_last())
    }
}

/// The paths of the walked files.
pub open spec fn walked_paths(walked: Seq<EntryView>) -> Seq<Seq<char>> {
    walked.map_values(|e: EntryView| e.0)
}

/// The indexed paths that the walk no longer finds, each once, in index order.
pub open spec fn deleted_paths(known: Seq<KnownView>, walked: Seq<EntryView>) -> Seq<Seq<char>>
    decreases known.len(),
{
    if known.len() == 0 {
        Seq::empty()
    } else {
        let prev = deleted_paths(known.drop_last(), walked);
        let p = known.last().0;
        if walked_paths(walked).contains(p) || prev.contains(p) {
            prev
        } else {
            prev.push(p)
        }
    }
}

/// The outcome of comparing the walk with the index.
pub struct WalkDiff {
    /// Files whose mtime differs from the index, or that it does not hold.
    pub changed: Vec<(String, i64)>,
    /// Every path the walk found.
    pub current_paths: Vec<String>,
    /// Indexed paths that are gone from disk.
    pub deleted: Vec<String>,
}

fn find_known(known: &Vec<KnownDoc>, path: &String) -> (r: Option<usize>)
    ensures
        match r {
            Some(i) => i < known.len() && lookup_known(known_view(known@), path@) == Some(
                (known@[i as int].mtime, known@[i as int].hash@),
            ),
            None => lookup_known(known_view(known@), path@) is None,
        },
{
    let mut i: usize = known.len();
    proof {
        lemma_take_full(known@);
    }
    while i > 0
        invariant
            i <= known.len(),
            lookup_known(known_view(known@), path@) == lookup_known(known_view(known@.take(i as int)), path@),
        decreases i,
    {
        proof {
            assert(known_view(known@.take(i as int)).drop_last() =~= known_view(known@.take(i - 1)));
            assert(known_view(known@.take(i as int)).last() == known@[i - 1]@);
        }
        if known[i - 1].path == *path {
            return Some(i - 1);
        }
        i -= 1;
    }
    proof {
        assert(known_view(known@.take(0)) =~= Seq::<KnownView>::empty());
    }
    None
}

pub proof fn lemma_take_full<T>(s: Seq<T>)
    ensures
        s.take(s.len() as int) == s,
{
    assert(s.take(s.len() as int) =~= s);
}

/// Compare the walked files with the index.
pub fn diff_walk(known: &Vec<KnownDoc>, walked: &Vec<WalkEntry>) -> (d: WalkDiff)
    ensures
        pairs_view(d.changed@) == changed_entries(known_view(known@), entries_view(walked@)),
        d.current_paths.deep_view() == walked_paths(entries_view(walked@)),
        d.deleted.deep_view() == deleted_paths(known_view(known@), entries_view(walked@)),
{
    let ghost kv = known_view(known@);
    let mut changed: Vec<(String, i64)> = Vec::new();
    let mut current_paths: Vec<String> = Vec::new();
    let mut i: usize = 0;
    while i < walked.len()
        invariant
            i <= walked.len(),
            kv == known_view(known@),
            pairs_view(changed@) == changed_entries(kv, entries_view(walked@.take(i as int))),
            current_paths.deep_view() == walked_paths(entries_view(walked@.take(i as int))),
        decreases walked.len() - i,
    {
        proof {
            assert(entries_view(walked@.take(i + 1)).drop_last() =~= entries_view(walked@.take(i as int)));
            assert(entries_view(walked@.take(i + 1)).last() == walked@[i as int]@);
        }
        let e = &walked[i];
        let ghost before = current_paths.deep_view();
        current_paths.push(e.path.clone());
        proof {
            assert(current_paths.deep_view() =~= before.push(e.path@));
        }
        let unchanged = match find_known(known, &e.path) {
            Some(k) => known[k].mtime == e.mtime,
            None => false,
        };
        if !unchanged {
            changed.push((e.path.clone(), e.mtime));
        }
        i += 1;
        proof {
            assert(pairs_view(changed@) =~= changed_entries(kv, entries_view(walked@.take(i as int))));
            assert(current_paths.deep_view() =~= walked_paths(entries_view(walked@.take(i as int))));
        }
    }
    proof {
        lemma_take_full(walked@);
    }
    let mut deleted: Vec<String> = Vec::new();
    let mut k: usize = 0;
    while k < known.len()
        invariant
            k <= known.len(),
            kv == known_view(known@),
            current_paths.deep_view() == walked_paths(entries_view(walked@)),
            deleted.deep_view() == deleted_paths(known_view(known@.take(k as int)), entries_view(walked@)),
        decreases known.len() - k,
    {
        proof {
            assert(known_view(known@.take(k + 1)).drop_last() =~= known_view(known@.take(k as int)));
            assert(known_view(known@.take(k + 1)).last() == known@[k as int]@);
        }
        let p = &known[k].path;
        if !crate::paths::contains_path(&current_paths, p) && !crate::paths::contains_path(&deleted, p) {
            let ghost before = deleted.deep_view();
            deleted.push(p.clone());
            proof {
                assert(deleted.deep_view() =~= before.push(p@));
            }
            proof {
                assert(deleted.deep_view() =~= deleted_paths(known_view(known@.take(k + 1)), entries_view(walked@)));
            }
        }
        k += 1;
    }
    proof {
        lemma_take_full(known@);
    }
    WalkDiff { changed, current_paths, deleted }
}

proof fn lemma_lookup_none(known: Seq<KnownView>, path: Seq<char>)
    requires
        forall|j: int| 0 <= j < known.len() ==> (#[trigger] known[j]).0 != path,
    ensures
        lookup_known(known, path) is None,
    decreases known.len(),
{
    if known.len() > 0 {
        assert(known[known.len() - 1].0 != path);
        lemma_lookup_none(known.drop_last(), path);
    }
}

proof fn lemma_changed_needs_look(known: Seq<KnownView>, walked: Seq<EntryView>)
    ensures
        forall|k: int| 0 <= k < changed_entries(known, walked).len() ==>
            needs_look(known, #[trigger] changed_entries(known, walked)[k])
            && walked.contains(changed_entries(known, walked)[k]),
    decreases walked.len(),
{
    if walked.len() > 0 {
        let d = walked.drop_last();
        lemma_changed_needs_look(known, d);
        let c = changed_entries(known, walked);
        let p = changed_entries(known, d);
        assert forall|k: int| 0 <= k < c.len() implies needs_look(known, #[trigger] c[k]) && walked.contains(c[k]) by {
            if k < p.len() {
                assert(c[k] == p[k]);
                let m = choose|m: int| 0 <= m < d.len() && d[m] == p[k];
                assert(walked[m] == p[k]);
            } else {
                assert(c[k] == walked.last());
                assert(walked[walked.len() - 1] == c[k]);
            }
        }
    }
}

proof fn lemma_needs_look_kept(known: Seq<KnownView>, walked: Seq<EntryView>, i: int)
    requires
        0 <= i < walked.len(),
        needs_look(known, walked[i]),
    ensures
        changed_entries(known, walked).contains(walked[i]),
    decreases walked.len(),
{
    let c = changed_entries(known, walked);
    if i == walked.len() - 1 {
        assert(c[c.len() - 1] == walked[i]);
    } else {
        let d = walked.drop_last();
        assert(d[i] == walked[i]);
        lemma_needs_look_kept(known, d, i);
        let p = changed_entries(known, d);
        let k = choose|k: int| 0 <= k < p.len() && p[k] == walked[i];
        assert(c[k] == p[k]);
    }
}

/// A refresh looks at every file the index does not hold yet: a walked
/// file whose path has no index row is reported changed.
pub proof fn lemma_new_file_is_changed(known: Seq<KnownView>, walked: Seq<EntryView>, i: int)
    requires
        0 <= i < walked.len(),
        forall|j: int| 0 <= j < known.len() ==> (#[trigger] known[j]).0 != walked[i].0,
    ensures
        changed_entries(known, walked).contains(walked[i]),
{
    lemma_lookup_none(known, walked[i].0);
    lemma_needs_look_kept(known, walked, i);
}

/// A refresh reports a walked file changed exactly when its mtime differs
/// from that of the file's (last) index row, or it has none; and it reports
/// only walked files.
pub proof fn lemma_changed_iff_mtime_differs(known: Seq<KnownView>, walked: Seq<EntryView>, i: int, j: int)
    requires
        0 <= i < walked.len(),
        0 <= j < known.len(),
        known[j].0 == walked[i].0,
        forall|k: int| j < k < known.len() ==> (#[trigger] known[k]).0 != known[j].0,
    ensures
        changed_entries(known, walked).contains(walked[i]) <==> known[j].1 != walked[i].1,
        forall|k: int| 0 <= k < changed_entries(known, walked).len()
            ==> walked.contains(#[trigger] changed_entries(known, walked)[k]),
{
    lemma_lookup_last(known, j);
    lemma_changed_needs_look(known, walked);
    if known[j].1 != walked[i].1 {
        lemma_needs_look_kept(known, walked, i);
    } else {
        let c = changed_entries(known, walked);
        if c.contains(walked[i]) {
            let k = choose|k: int| 0 <= k < c.len() && c[k] == walked[i];
            assert(needs_look(known, c[k]));
        }
    }
}

/// A refresh deletes exactly the indexed paths that the walk no longer
/// finds.
pub proof fn lemma_deleted_are_the_missing(known: Seq<KnownView>, walked: Seq<EntryView>, p: Seq<char>)
    ensures
        deleted_paths(known, walked).contains(p) <==> (exists|j: int| 0 <= j < known.len() && (#[trigger] known[j]).0 == p)
            && !(exists|i: int| 0 <= i < walked.len() && (#[trigger] walked[i]).0 == p),
    decreases known.len(),
{
    let wp = walked_paths(walked);
    assert(wp.contains(p) <==> exists|i: int| 0 <= i < walked.len() && (#[trigger] walked[i]).0 == p) by {
        if wp.contains(p) {
            let k = choose|k: int| 0 <= k < wp.len() && wp[k] == p;
            assert(walked[k].0 == p);
        }
        if exists|i: int| 0 <= i < walked.len() && (#[trigger] walked[i]).0 == p {
            let i = choose|i: int| 0 <= i < walked.len() && (#[trigger] walked[i]).0 == p;
            assert(wp[i] == p);
        }
    }
    if known.len() > 0 {
        let d = known.drop_last();
        lemma_deleted_are_the_missing(d, walked, p);
        let prev = deleted_paths(d, walked);
        let q = known.last().0;
        let cur = deleted_paths(known, walked);
        assert((exists|j: int| 0 <= j < known.len() && (#[trigger] known[j]).0 == p)
            <==> ((exists|j: int| 0 <= j < d.len() && (#[trigger] d[j]).0 == p) || q == p)) by {
            if exists|j: int| 0 <= j < known.len() && (#[trigger] known[j]).0 == p {
                let j = choose|j: int| 0 <= j < known.len() && (#[trigger] known[j]).0 == p;
                if j < d.len() {
                    assert(d[j].0 == p);
                }
            }
            if exists|j: int| 0 <= j < d.len() && (#[trigger] d[j]).0 == p {
                let j = choose|j: int| 0 <= j < d.len() && (#[trigger] d[j]).0 == p;
                assert(known[j].0 == p);
            }
            if q == p {
                assert(known[known.len() - 1].0 == p);
            }
        }
        if !(wp.contains(q) || prev.contains(q)) {
            assert(cur == prev.push(q));
            assert(cur.contains(p) <==> (prev.contains(p) || q == p)) by {
                if cur.contains(p) {
                    let k = choose|k: int| 0 <= k < cur.len() && cur[k] == p;
                    if k < prev.len() {
                        assert(prev[k] == p);
                    }
                }
                if prev.contains(p) {
                    let k = choose|k: int| 0 <= k < prev.len() && prev[k] == p;
                    assert(cur[k] == p);
                }
                if q == p {
                    assert(cur[cur.len() - 1] == p);
                }
            }
        } else {
            assert(cur == prev);
            if q == p && !wp.contains(p) {
                assert(prev.contains(p));
            }
        }
    }
}

/// The index rows that a refresh leaves for a walk: one per walked file,
/// with its walked mtime (a changed file is re-indexed, an unchanged one
/// has its mtime written back), whatever its hash.
pub open spec fn rows_after_refresh(walked: Seq<EntryView>, hashes: Seq<Seq<u8>>) -> Seq<KnownView> {
    Seq::new(walked.len(), |i: int| (walked[i].0, walked[i].1, hashes[i]))
}

proof fn lemma_lookup_last(known: Seq<KnownView>, i: int)
    requires
        0 <= i < known.len(),
        forall|j: int| i < j < known.len() ==> known[j].0 != known[i].0,
    ensures
        lookup_known(known, known[i].0) == Some((known[i].1, known[i].2)),
    decreases known.len(),
{
    if i < known.len() - 1 {
        lemma_lookup_last(known.drop_last(), i);
    }
}

/// A refresh settles the index: walking the same files again, with the same
/// mtimes, finds nothing that needs a look (a walk lists each file once).
pub proof fn lemma_refresh_settles(walked: Seq<EntryView>, hashes: Seq<Seq<u8>>)
    requires
        walked_paths(walked).no_duplicates(),
        hashes.len() == walked.len(),
    ensures
        changed_entries(rows_after_refresh(walked, hashes), walked) == Seq::<EntryView>::empty(),
{
    let rows = rows_after_refresh(walked, hashes);
    assert forall|i: int| 0 <= i < walked.len() implies !needs_look(rows, #[trigger] walked[i]) by {
        assert forall|j: int| i < j < rows.len() implies rows[j].0 != rows[i].0 by {
            assert(walked_paths(walked)[i] == walked[i].0);
            assert(walked_paths(walked)[j] == walked[j].0);
        }
        lemma_lookup_last(rows, i);
    }
    lemma_changed_none(rows, walked);
}

proof fn lemma_changed_none(known: Seq<KnownView>, walked: Seq<EntryView>)
    requires
        forall|i: int| 0 <= i < walked.len() ==> !needs_look(known, #[trigger] walked[i]),
    ensures
        changed_entries(known, walked) == Seq::<EntryView>::empty(),
    decreases walked.len(),
{
    if walked.len() > 0 {
        let d = walked.drop_last();
        assert forall|i: int| 0 <= i < d.len() implies !needs_look(known, #[trigger] d[i]) by {
            assert(d[i] == walked[i]);
        }
        lemma_changed_none(known, d);
        assert(!needs_look(known, walked[walked.len() - 1]));
    }
}


// ------------------------------------------------------------------
// Indexing one document
// ------------------------------------------------------------------

/// The BLAKE3 digest of some bytes (`blake3::hash`).
pub uninterp spec fn blake3_digest(data: Seq<u8>) -> Seq<u8>;

/// `blake3::hash` of the UTF-8 bytes of `content`, as a byte vector. The
/// digest itself is named, not stated; that it is 32 bytes long
/// (`blake3::OUT_LEN`) is stated.
#[verifier::external_body]
pub fn content_hash(content: &str) -> (h: Vec<u8>)
    ensures
        h@ == blake3_digest(vstd::utf8::encode_utf8(content@)),
        h@.len() == 32,
{
    blake3::hash(content.as_bytes()).as_bytes().to_vec()
}

/// Are two byte strings equal?
pub fn bytes_equal(a: &Vec<u8>, b: &Vec<u8>) -> (r: bool)
    ensures
        r == (a@ == b@),
{
    if a.len() != b.len() {
        return false;
    }
    let mut i: usize = 0;
    while i < a.len()
        invariant
            a.len() == b.len(),
            i <= a.len(),
            forall|j: int| 0 <= j < i ==> a@[j] == b@[j],
        decreases a.len() - i,
    {
        if a[i] != b[i] {
            return false;
        }
        i += 1;
    }
    proof {
        assert(a@ =~= b@);
    }
    true
}

/// A link to a document of the knowledge base: the resolved path, the target
/// as written, and its anchor.
pub struct ResolvedLink {
    pub resolved: String,
    pub raw: String,
    pub anchor: Option<String>,
}

pub type ResolvedView = (Seq<char>, Seq<char>, Option<Seq<char>>);

impl View for ResolvedLink {
    type V = ResolvedView;

    open spec fn view(&self) -> ResolvedView {
        (self.resolved@, self.raw@, opt_text(self.anchor))
    }
}

pub open spec fn resolved_view(v: Seq<ResolvedLink>) -> Seq<ResolvedView> {
    v.map_values(|l: ResolvedLink| l@)
}

/// A heading with its anchor.
pub struct IndexedHeading {
    pub level: i32,
    pub text: String,
    pub anchor: String,
}

impl View for IndexedHeading {
    type V = (i32, Seq<char>, Seq<char>);

    open spec fn view(&self) -> (i32, Seq<char>, Seq<char>) {
        (self.level, self.text@, self.anchor@)
    }
}

pub open spec fn indexed_headings_view(v: Seq<IndexedHeading>) -> Seq<(i32, Seq<char>, Seq<char>)> {
    v.map_values(|h: IndexedHeading| h@)
}

/// Where the links of a document go: resolved links (one per resolved path,
/// the last link to it winning), external URLs (each once), and targets
/// that resolve nowhere.
pub struct LinkPlan {
    pub resolved: Seq<ResolvedView>,
    pub citations: Seq<Seq<char>>,
    pub broken: Seq<Seq<char>>,
}

/// `entries` with the entry of key `e.0` replaced by `e`, or `e` added.
pub open spec fn map_insert(entries: Seq<ResolvedView>, e: ResolvedView) -> Seq<ResolvedView> {
    if exists|i: int| 0 <= i < entries.len() && entries[i].0 == e.0 {
        entries.update(choose|i: int| 0 <= i < entries.len() && entries[i].0 == e.0, e)
    } else {
        entries.push(e)
    }
}

/// `s` with `x` added unless it holds it.
pub open spec fn set_insert(s: Seq<Seq<char>>, x: Seq<char>) -> Seq<Seq<char>> {
    if s.contains(x) {
        s
    } else {
        s.push(x)
    }
}

pub open spec fn plan_step(paths: Seq<Seq<char>>, doc: Seq<char>, plan: LinkPlan, l: crate::markdown::LinkView) -> LinkPlan {
    if l.1 {
        LinkPlan { citations: set_insert(plan.citations, l.0), ..plan }
    } else {
        match resolve_in_paths(paths, doc, l.0) {
            Some(r) => LinkPlan { resolved: map_insert(plan.resolved, (r, l.0, l.2)), ..plan },
            None => LinkPlan { broken: plan.broken.push(l.0), ..plan },
        }
    }
}

/// The plan for a document's links, taken in order.
pub open spec fn link_plan(paths: Seq<Seq<char>>, doc: Seq<char>, links: Seq<crate::markdown::LinkView>) -> LinkPlan
    decreases links.len(),
{
    if links.len() == 0 {
        LinkPlan { resolved: Seq::empty(), citations: Seq::empty(), broken: Seq::empty() }
    } else {
        plan_step(paths, doc, link_plan(paths, doc, links.drop_last()), links.last())
    }
}

pub open spec fn distinct_keys(entries: Seq<ResolvedView>) -> bool {
    forall|i: int, j: int| 0 <= i < j < entries.len() ==> #[trigger] entries[i].0 != #[trigger] entries[j].0
}

/// A link plan never holds two resolved links to one path, nor a URL twice.
pub proof fn lemma_link_plan_distinct(paths: Seq<Seq<char>>, doc: Seq<char>, links: Seq<crate::markdown::LinkView>)
    ensures
        distinct_keys(link_plan(paths, doc, links).resolved),
        link_plan(paths, doc, links).citations.no_duplicates(),
    decreases links.len(),
{
    if links.len() > 0 {
        lemma_link_plan_distinct(paths, doc, links.drop_last());
        let prev = link_plan(paths, doc, links.drop_last());
        let l = links.last();
        if !l.1 {
            if let Some(r) = resolve_in_paths(paths, doc, l.0) {
                let e = (r, l.0, l.2);
                let next = map_insert(prev.resolved, e);
                if exists|i: int| 0 <= i < prev.resolved.len() && prev.resolved[i].0 == e.0 {
                    let k = choose|i: int| 0 <= i < prev.resolved.len() && prev.resolved[i].0 == e.0;
                    assert forall|i: int, j: int| 0 <= i < j < next.len() implies #[trigger] next[i].0
                        != #[trigger] next[j].0 by {
                        if i == k {
                            assert(prev.resolved[j].0 != prev.resolved[k].0);
                        } else if j == k {
                            assert(prev.resolved[i].0 != prev.resolved[k].0);
                        } else {
                            assert(next[i] == prev.resolved[i]);
                            assert(next[j] == prev.resolved[j]);
                        }
                    }
                } else {
                    assert forall|i: int, j: int| 0 <= i < j < next.len() implies #[trigger] next[i].0
                        != #[trigger] next[j].0 by {
                        if j == prev.resolved.len() {
                            assert(next[i] == prev.resolved[i]);
                        } else {
                            assert(next[i] == prev.resolved[i]);
                            assert(next[j] == prev.resolved[j]);
                        }
                    }
                }
            }
        }
    }
}

/// The tags joined by single spaces.
pub open spec fn join_words(s: Seq<Seq<char>>) -> Seq<char>
    decreases s.len(),
{
    if s.len() == 0 {
        Seq::empty()
    } else if s.len() == 1 {
        s[0]
    } else {
        join_words(s.drop_last()) + seq![' '] + s.last()
    }
}

/// The parsed front matter of a document, when it has one that parses.
pub open spec fn doc_frontmatter(content: Seq<char>) -> Option<FrontMatterView> {
    match frontmatter_text(content) {
        Some(t) => yaml_string_map(t),
        None => None,
    }
}

/// The tags of a document (none without a front matter).
pub open spec fn doc_tags(content: Seq<char>) -> Seq<Seq<char>> {
    match doc_frontmatter(content) {
        Some(fm) => tags_of(fm),
        None => Seq::empty(),
    }
}

/// Headings with the slug of their text as anchor.
pub open spec fn anchored(hs: Seq<(i32, Seq<char>)>) -> Seq<(i32, Seq<char>, Seq<char>)> {
    hs.map_values(|h: (i32, Seq<char>)| (h.0, h.1, slug_of(h.1)))
}

/// What is recorded of a changed document.
pub struct IndexedDocView {
    pub path: Seq<char>,
    pub mtime: i64,
    pub content: Seq<char>,
    pub hash: Seq<u8>,
    pub tags: Seq<char>,
    pub resolved_links: Seq<ResolvedView>,
    pub citations: Seq<Seq<char>>,
    pub broken_raw: Seq<Seq<char>>,
    pub headings: Seq<(i32, Seq<char>, Seq<char>)>,
}

/// Result of indexing a single document: everything the write transaction
/// needs, with the links already resolved.
pub struct IndexedDoc {
    pub path: String,
    pub mtime: i64,
    pub content: String,
    pub hash: Vec<u8>,
    /// Front-matter tags joined by spaces.
    pub tags: String,
    /// (resolved_target, raw_target, anchor), one per resolved target.
    pub resolved_links: Vec<ResolvedLink>,
    /// External URLs, each once.
    pub citations: Vec<String>,
    /// Raw targets that couldn't be resolved.
    pub broken_raw: Vec<String>,
    /// (level, text, anchor)
    pub headings: Vec<IndexedHeading>,
}

impl View for IndexedDoc {
    type V = IndexedDocView;

    open spec fn view(&self) -> IndexedDocView {
        IndexedDocView {
            path: self.path@,
            mtime: self.mtime,
            content: self.content@,
            hash: self.hash@,
            tags: self.tags@,
            resolved_links: resolved_view(self.resolved_links@),
            citations: self.citations.deep_view(),
            broken_raw: self.broken_raw.deep_view(),
            headings: indexed_headings_view(self.headings@),
        }
    }
}

/// What indexing records for a changed document.
pub open spec fn indexed_doc(paths: Seq<Seq<char>>, path: Seq<char>, mtime: i64, content: Seq<char>, hash: Seq<u8>) -> IndexedDocView {
    let evs = markdown_events_of(content);
    let plan = link_plan(paths, path, sort_dedup(links_of_events(evs)));
    IndexedDocView {
        path,
        mtime,
        content,
        hash,
        tags: join_words(doc_tags(content)),
        resolved_links: plan.resolved,
        citations: plan.citations,
        broken_raw: plan.broken,
        headings: anchored(headings_of_events(evs)),
    }
}

/// The outcome for a file whose mtime changed.
pub enum ParseResultView {
    Changed(IndexedDocView),
    Unchanged(Seq<char>, i64, Seq<u8>),
}

/// Result of processing a file whose mtime changed.
/// `Changed` = content differs: full re-index.
/// `Unchanged` = content matches: only the mtime needs writing back.
pub enum ParseResult {
    Changed(IndexedDoc),
    Unchanged { path: String, mtime: i64, hash: Vec<u8> },
}

impl View for ParseResult {
    type V = ParseResultView;

    open spec fn view(&self) -> ParseResultView {
        match self {
            ParseResult::Changed(d) => ParseResultView::Changed(d@),
            ParseResult::Unchanged { path, mtime, hash } => ParseResultView::Unchanged(path@, *mtime, hash@),
        }
    }
}

/// A file whose content hashes as the index has it is unchanged; any other
/// is indexed anew.
pub open spec fn parse_result(known: Seq<KnownView>, paths: Seq<Seq<char>>, path: Seq<char>, mtime: i64, content: Seq<char>) -> ParseResultView {
    let hash = blake3_digest(vstd::utf8::encode_utf8(content));
    if lookup_known(known, path) matches Some(k) && k.1 == hash {
        ParseResultView::Unchanged(path, mtime, hash)
    } else {
        ParseResultView::Changed(indexed_doc(paths, path, mtime, content, hash))
    }
}

fn clone_opt_string(o: &Option<String>) -> (r: Option<String>)
    ensures
        opt_text(r) == opt_text(*o),
{
    match o {
        Some(s) => Some(s.clone()),
        None => None,
    }
}

/// The plan for a document's links (see [`link_plan`]).
pub fn plan_links(paths: &Vec<String>, doc_path: &str, links: &Vec<MdLink>) -> (r: (Vec<ResolvedLink>, Vec<String>, Vec<String>))
    ensures
        resolved_view(r.0@) == link_plan(paths.deep_view(), doc_path@, links_view(links@)).resolved,
        r.1.deep_view() == link_plan(paths.deep_view(), doc_path@, links_view(links@)).citations,
        r.2.deep_view() == link_plan(paths.deep_view(), doc_path@, links_view(links@)).broken,
{
    let ghost pv = paths.deep_view();
    let mut resolved: Vec<ResolvedLink> = Vec::new();
    let mut citations: Vec<String> = Vec::new();
    let mut broken: Vec<String> = Vec::new();
    let mut i: usize = 0;
    while i < links.len()
        invariant
            i <= links.len(),
            pv == paths.deep_view(),
            ({
                let plan = link_plan(pv, doc_path@, links_view(links@.take(i as int)));
                &&& resolved_view(resolved@) == plan.resolved
                &&& citations.deep_view() == plan.citations
                &&& broken.deep_view() == plan.broken
            }),
        decreases links.len() - i,
    {
        proof {
            assert(links_view(links@.take(i + 1)).drop_last() =~= links_view(links@.take(i as int)));
            assert(links_view(links@.take(i + 1)).last() == links@[i as int]@);
            lemma_link_plan_distinct(pv, doc_path@, links_view(links@.take(i as int)));
        }
        let l = &links[i];
        if l.is_external {
            if !crate::paths::contains_path(&citations, &l.target) {
                let ghost before = citations.deep_view();
                citations.push(l.target.clone());
                proof {
                    assert(citations.deep_view() =~= before.push(l.target@));
                }
            }
        } else {
            match resolve_in_set(paths, doc_path, l.target.as_str()) {
                Some(r) => {
                    let e = ResolvedLink { resolved: r, raw: l.target.clone(), anchor: clone_opt_string(&l.anchor) };
                    let mut k: usize = 0;
                    while k < resolved.len() && resolved[k].resolved != e.resolved
                        invariant
                            k <= resolved.len(),
                            forall|j: int| 0 <= j < k ==> resolved@[j].resolved@ != e.resolved@,
                        decreases resolved.len() - k,
                    {
                        k += 1;
                    }
                    let ghost before = resolved_view(resolved@);
                    let ghost ev = e@;
                    if k < resolved.len() {
                        resolved[k] = e;
                        proof {
                            let c = choose|j: int| 0 <= j < before.len() && before[j].0 == ev.0;
                            assert(before[k as int].0 == ev.0);
                            assert(c == k);
                            assert(resolved_view(resolved@) =~= before.update(k as int, ev));
                        }
                    } else {
                        resolved.push(e);
                        proof {
                            assert(!exists|j: int| 0 <= j < before.len() && before[j].0 == ev.0) by {
                                assert forall|j: int| 0 <= j < before.len() implies before[j].0 != ev.0 by {
                                    assert(before[j] == resolved@[j]@);
                                }
                            }
                            assert(resolved_view(resolved@) =~= before.push(ev));
                        }
                    }
                },
                None => {
                    let ghost before = broken.deep_view();
                    broken.push(l.target.clone());
                    proof {
                        assert(broken.deep_view() =~= before.push(l.target@));
                    }
                },
            }
        }
        i += 1;
    }
    proof {
        lemma_take_full(links@);
    }
    (resolved, citations, broken)
}

/// The row of the tag index for a document: its joined tags, when there
/// are any.
pub fn tag_row(tags: &String) -> (r: Option<String>)
    ensures
        match r {
            Some(t) => t@ == tags@ && tags@.len() > 0,
            None => tags@.len() == 0,
        },
{
    if tags.as_str().is_empty() {
        None
    } else {
        Some(tags.clone())
    }
}

/// The texts of indexed headings, in order.
pub open spec fn heading_texts(v: Seq<IndexedHeading>) -> Seq<Seq<char>> {
    v.map_values(|h: IndexedHeading| h.text@)
}

/// The line of the heading index for a document: its heading texts joined
/// by single spaces, when it has headings.
pub fn heading_line(headings: &Vec<IndexedHeading>) -> (r: Option<String>)
    ensures
        match r {
            Some(l) => headings.len() > 0 && l@ == join_words(heading_texts(headings@)),
            None => headings.len() == 0,
        },
{
    if headings.len() == 0 {
        return None;
    }
    let mut texts: Vec<String> = Vec::new();
    let mut i: usize = 0;
    while i < headings.len()
        invariant
            i <= headings.len(),
            texts.deep_view() == heading_texts(headings@.take(i as int)),
        decreases headings.len() - i,
    {
        let t = headings[i].text.clone();
        let ghost before = texts.deep_view();
        texts.push(t);
        i += 1;
        proof {
            assert(texts.deep_view() =~= before.push(t@));
            assert(heading_texts(headings@.take(i as int)) =~= heading_texts(headings@.take(i - 1)).push(headings@[i - 1].text@));
        }
    }
    proof {
        assert(headings@.take(headings.len() as int) =~= headings@);
    }
    Some(join_tags(&texts))
}

/// The tags joined by single spaces (`tags.join(" ")`).
pub fn join_tags(tags: &Vec<String>) -> (r: String)
    ensures
        r@ == join_words(tags.deep_view()),
{
    let mut out: Vec<char> = Vec::new();
    let mut i: usize = 0;
    while i < tags.len()
        invariant
            i <= tags.len(),
            out@ == join_words(tags.deep_view().take(i as int)),
        decreases tags.len() - i,
    {
        proof {
            assert(tags.deep_view().take(i + 1).drop_last() =~= tags.deep_view().take(i as int));
        }
        if i > 0 {
            out.push(' ');
        }
        let mut t = chars_of(tags[i].as_str());
        out.append(&mut t);
        i += 1;
        proof {
            assert(out@ =~= join_words(tags.deep_view().take(i as int)));
        }
    }
    proof {
        assert(tags.deep_view().take(tags.len() as int) =~= tags.deep_view());
    }
    crate::text::string_from_chars(&out)
}

/// Index one file whose mtime changed: hash its content, and unless the
/// index holds that hash already, gather its tags, links and headings.
pub fn index_document(known: &Vec<KnownDoc>, current_paths: &Vec<String>, path: &String, mtime: i64, content: String) -> (r: ParseResult)
    ensures
        r@ == parse_result(known_view(known@), current_paths.deep_view(), path@, mtime, content@),
{
    let hash = content_hash(content.as_str());
    match find_known(known, path) {
        Some(k) => {
            if bytes_equal(&known[k].hash, &hash) {
                return ParseResult::Unchanged { path: path.clone(), mtime, hash };
            }
        },
        None => {},
    }
    let tags = match parse_frontmatter(content.as_str()) {
        Some(fm) => extract_tags(&fm),
        None => Vec::new(),
    };
    let tags_str = join_tags(&tags);
    let links = crate::markdown::extract_links(content.as_str());
    let links = sort_dedup_links(links);
    let (resolved_links, citations, broken_raw) = plan_links(current_paths, path.as_str(), &links);
    let raw_headings = crate::markdown::extract_headings(content.as_str());
    let mut headings: Vec<IndexedHeading> = Vec::new();
    let mut i: usize = 0;
    while i < raw_headings.len()
        invariant
            i <= raw_headings.len(),
            indexed_headings_view(headings@) == anchored(crate::markdown::headings_view(raw_headings@).take(i as int)),
        decreases raw_headings.len() - i,
    {
        let h = &raw_headings[i];
        let anchor = slugify(h.text.as_str());
        let ghost before = indexed_headings_view(headings@);
        let item = IndexedHeading { level: h.level, text: h.text.clone(), anchor };
        assert(item@ == (h.level, h.text@, slug_of(h.text@)));
        headings.push(item);
        proof {
            let hv = crate::markdown::headings_view(raw_headings@);
            assert(hv[i as int] == h@);
            assert(anchored(hv.take(i + 1)) =~= anchored(hv.take(i as int)).push(item@));
            assert(indexed_headings_view(headings@) =~= before.push(item@));
        }
        i += 1;
    }
    proof {
        assert(crate::markdown::headings_view(raw_headings@).take(raw_headings.len() as int) =~= crate::markdown::headings_view(raw_headings@));
    }
    ParseResult::Changed(IndexedDoc {
        path: path.clone(),
        mtime,
        content,
        hash,
        tags: tags_str,
        resolved_links,
        citations,
        broken_raw,
        headings,
    })
}


// ------------------------------------------------------------------
// The write plan
// ------------------------------------------------------------------

/// The documents to index anew, in order.
pub open spec fn changed_docs_of(results: Seq<ParseResultView>) -> Seq<IndexedDocView>
    decreases results.len(),
{
    if results.len() == 0 {
        Seq::empty()
    } else {
        match results.last() {
            ParseResultView::Changed(d) => changed_docs_of(results.drop_last()).push(d),
            _ => changed_docs_of(results.drop_last()),
        }
    }
}

/// The files whose content is unchanged: only their mtime is written back.
pub open spec fn touched_of(results: Seq<ParseResultView>) -> Seq<KnownView>
    decreases results.len(),
{
    if results.len() == 0 {
        Seq::empty()
    } else {
        match results.last() {
            ParseResultView::Unchanged(p, m, h) => touched_of(results.drop_last()).push((p, m, h)),
            _ => touched_of(results.drop_last()),
        }
    }
}

pub open spec fn results_view(v: Seq<ParseResult>) -> Seq<ParseResultView> {
    v.map_values(|r: ParseResult| r@)
}

pub open spec fn indexed_docs_view(v: Seq<IndexedDoc>) -> Seq<IndexedDocView> {
    v.map_values(|d: IndexedDoc| d@)
}

/// What a refresh writes: documents to re-index, mtimes to write back, and
/// the (path, mtime) of each re-indexed document, which the refresh returns.
pub struct RefreshPlan {
    pub changed_docs: Vec<IndexedDoc>,
    pub touch: Vec<KnownDoc>,
    pub changed: Vec<(String, i64)>,
}

/// Split the results into changed documents (full re-index) and
/// touch-only files (mtime write-back).
pub fn split_results(results: Vec<ParseResult>) -> (plan: RefreshPlan)
    ensures
        indexed_docs_view(plan.changed_docs@) == changed_docs_of(results_view(results@)),
        known_view(plan.touch@) == touched_of(results_view(results@)),
        pairs_view(plan.changed@) == changed_docs_of(results_view(results@)).map_values(
            |d: IndexedDocView| (d.path, d.mtime),
        ),
{
    let ghost all = results_view(results@);
    let mut rest = results;
    let mut changed_docs: Vec<IndexedDoc> = Vec::new();
    let mut touch: Vec<KnownDoc> = Vec::new();
    let mut changed: Vec<(String, i64)> = Vec::new();
    let ghost mut done: nat = 0;
    while rest.len() > 0
        invariant
            done + rest.len() == all.len(),
            results_view(rest@) == all.skip(done as int),
            indexed_docs_view(changed_docs@) == changed_docs_of(all.take(done as int)),
            known_view(touch@) == touched_of(all.take(done as int)),
            pairs_view(changed@) == changed_docs_of(all.take(done as int)).map_values(
                |d: IndexedDocView| (d.path, d.mtime),
            ),
        decreases rest.len(),
    {
        let ghost before = results_view(rest@);
        let r = rest.remove(0);
        proof {
            let d1: int = done as int + 1;
            assert(all.take(d1).drop_last() =~= all.take(done as int));
            assert(before[0] == all.skip(done as int)[0]);
            assert(all[done as int] == r@);
            assert(all.skip(done as int).drop_first() =~= all.skip(d1));
            assert(results_view(rest@) =~= all.skip(d1));
        }
        let ghost prev_docs = changed_docs_of(all.take(done as int));
        match r {
            ParseResult::Changed(doc) => {
                let ghost bp = pairs_view(changed@);
                let ghost dv = doc@;
                changed.push((doc.path.clone(), doc.mtime));
                changed_docs.push(doc);
                proof {
                    assert(pairs_view(changed@) =~= bp.push((dv.path, dv.mtime)));
                    assert(prev_docs.push(dv).map_values(|d: IndexedDocView| (d.path, d.mtime)) =~= prev_docs.map_values(
                        |d: IndexedDocView| (d.path, d.mtime),
                    ).push((dv.path, dv.mtime)));
                }
            },
            ParseResult::Unchanged { path, mtime, hash } => {
                touch.push(KnownDoc { path, mtime, hash });
            },
        }
        proof {
            done = done + 1;
            assert(indexed_docs_view(changed_docs@) =~= changed_docs_of(all.take(done as int)));
            assert(known_view(touch@) =~= touched_of(all.take(done as int)));
            assert(pairs_view(changed@) =~= changed_docs_of(all.take(done as int)).map_values(
                |d: IndexedDocView| (d.path, d.mtime),
            ));
        }
    }
    proof {
        assert(all.take(done as int) =~= all);
    }
    RefreshPlan { changed_docs, touch, changed }
}

} // verus!
