//! Knowledge-base lints over the link graph: a link is stale when the
//! document it points to has changed since the link's version was pinned,
//! a document is orphaned when no other document links to it, and a link
//! is broken when its target names no document; approving edits pins the
//! current versions again.
use vstd::prelude::*;

verus! {

/// A row of the link table: the linking document, the linked one, and the
/// version of the linked one that the link was checked against (`None` for
/// a link that has none).
pub struct LinkRow {
    pub rowid: i64,
    pub from_id: String,
    pub to_id: String,
    pub pinned_version: Option<i64>,
}

pub type LinkRowView = (i64, Seq<char>, Seq<char>, Option<i64>);

impl View for LinkRow {
    type V = LinkRowView;

    open spec fn view(&self) -> LinkRowView {
        (self.rowid, self.from_id@, self.to_id@, self.pinned_version)
    }
}

pub open spec fn link_rows_view(v: Seq<LinkRow>) -> Seq<LinkRowView> {
    v.map_values(|l: LinkRow| l@)
}

/// A document and its current version (documents are keyed by path).
pub struct DocVersion {
    pub path: String,
    pub version: i64,
}

pub open spec fn doc_versions_view(v: Seq<DocVersion>) -> Seq<(Seq<char>, i64)> {
    v.map_values(|d: DocVersion| (d.path@, d.version))
}

/// The current version of the document at `path` (its first row).
pub open spec fn current_version(docs: Seq<(Seq<char>, i64)>, path: Seq<char>) -> Option<i64>
    decreases docs.len(),
{
    if docs.len() == 0 {
        None
    } else if docs[0].0 == path {
        Some(docs[0].1)
    } else {
        current_version(docs.drop_first(), path)
    }
}

/// A link is stale when its pinned version is behind the current version
/// of the document it points to.
pub open spec fn is_stale(l: LinkRowView, docs: Seq<(Seq<char>, i64)>) -> bool {
    l.3 matches Some(p) && current_version(docs, l.2) matches Some(c) && p < c
}

pub enum Severity {
    Error,
    Warning,
}

/// What a diagnostic reports, by lint.
pub enum LintData {
    /// A link pinned to an older version of its target than the current one.
    StaleRef { pinned_version: i64, current_version: i64 },
    /// A document that no other document links to.
    Orphan,
    /// A link whose target is no document of the knowledge base.
    BrokenLink,
}

/// A finding of a lint.
pub struct Diagnostic {
    pub lint_id: &'static str,
    pub severity: Severity,
    pub from_path: String,
    pub to_path: String,
    pub data: LintData,
}

/// The mathematical form of a diagnostic: lint id, severity, from, to, data.
pub type DiagView = (Seq<char>, Severity, Seq<char>, Seq<char>, LintData);

pub open spec fn diag_view(d: Diagnostic) -> DiagView {
    (d.lint_id@, d.severity, d.from_path@, d.to_path@, d.data)
}

pub open spec fn diags_view(v: Seq<Diagnostic>) -> Seq<DiagView> {
    v.map_values(|d: Diagnostic| diag_view(d))
}

/// The stale references of the link table, in its order: warnings of the
/// `stale-ref` lint from the linking to the linked document.
pub open spec fn stale_refs(links: Seq<LinkRowView>, docs: Seq<(Seq<char>, i64)>) -> Seq<DiagView>
    decreases links.len(),
{
    if links.len() == 0 {
        Seq::empty()
    } else {
        let prev = stale_refs(links.drop_last(), docs);
        let l = links.last();
        if is_stale(l, docs) {
            prev.push(
                (
                    "stale-ref"@,
                    Severity::Warning,
                    l.1,
                    l.2,
                    LintData::StaleRef { pinned_version: l.3->0, current_version: current_version(docs, l.2)->0 },
                ),
            )
        } else {
            prev
        }
    }
}

/// Does another document link to `path`?
pub open spec fn has_incoming(links: Seq<LinkRowView>, path: Seq<char>) -> bool {
    exists|i: int| 0 <= i < links.len() && (#[trigger] links[i]).2 == path && links[i].1 != path
}

/// The orphaned documents, in document order: warnings of the `orphan`
/// lint for each document that no other document links to.
pub open spec fn orphans(links: Seq<LinkRowView>, docs: Seq<(Seq<char>, i64)>) -> Seq<DiagView>
    decreases docs.len(),
{
    if docs.len() == 0 {
        Seq::empty()
    } else {
        let prev = orphans(links, docs.drop_last());
        let p = docs.last().0;
        if has_incoming(links, p) {
            prev
        } else {
            prev.push(("orphan"@, Severity::Warning, p, Seq::empty(), LintData::Orphan))
        }
    }
}

/// A document is reported orphaned exactly when it is a document of the
/// index and no link comes to it from another document (a link of a
/// document to itself does not count).
pub proof fn lemma_orphan_iff_unlinked(links: Seq<LinkRowView>, docs: Seq<(Seq<char>, i64)>, p: Seq<char>)
    ensures
        orphans(links, docs).contains(("orphan"@, Severity::Warning, p, Seq::<char>::empty(), LintData::Orphan))
            <==> (exists|j: int| 0 <= j < docs.len() && (#[trigger] docs[j]).0 == p)
            && !(exists|i: int| 0 <= i < links.len() && (#[trigger] links[i]).2 == p && links[i].1 != p),
    decreases docs.len(),
{
    let e = ("orphan"@, Severity::Warning, p, Seq::<char>::empty(), LintData::Orphan);
    if docs.len() > 0 {
        let d = docs.drop_last();
        lemma_orphan_iff_unlinked(links, d, p);
        let prev = orphans(links, d);
        let cur = orphans(links, docs);
        let q = docs.last().0;
        assert((exists|j: int| 0 <= j < docs.len() && (#[trigger] docs[j]).0 == p)
            <==> ((exists|j: int| 0 <= j < d.len() && (#[trigger] d[j]).0 == p) || q == p)) by {
            if exists|j: int| 0 <= j < docs.len() && (#[trigger] docs[j]).0 == p {
                let j = choose|j: int| 0 <= j < docs.len() && (#[trigger] docs[j]).0 == p;
                if j < d.len() {
                    assert(d[j].0 == p);
                }
            }
            if exists|j: int| 0 <= j < d.len() && (#[trigger] d[j]).0 == p {
                let j = choose|j: int| 0 <= j < d.len() && (#[trigger] d[j]).0 == p;
                assert(docs[j].0 == p);
            }
            if q == p {
                assert(docs[docs.len() - 1].0 == p);
            }
        }
        if has_incoming(links, q) {
            assert(cur == prev);
        } else {
            let x = ("orphan"@, Severity::Warning, q, Seq::<char>::empty(), LintData::Orphan);
            assert(cur == prev.push(x));
            assert(cur.contains(e) <==> (prev.contains(e) || x == e)) by {
                if cur.contains(e) {
                    let k = choose|k: int| 0 <= k < cur.len() && cur[k] == e;
                    if k < prev.len() {
                        assert(prev[k] == e);
                    }
                }
                if prev.contains(e) {
                    let k = choose|k: int| 0 <= k < prev.len() && prev[k] == e;
                    assert(cur[k] == e);
                }
                if x == e {
                    assert(cur[cur.len() - 1] == e);
                }
            }
        }
    }
}

/// A row of the broken-link table: the linking document and the link
/// target that names no document.
pub struct BrokenRow {
    pub from_id: String,
    pub raw_target: String,
}

pub open spec fn broken_rows_view(v: Seq<BrokenRow>) -> Seq<(Seq<char>, Seq<char>)> {
    v.map_values(|b: BrokenRow| (b.from_id@, b.raw_target@))
}

/// The broken links, in table order: errors of the `broken-link` lint
/// from the linking document to the target it names.
pub open spec fn broken_refs(rows: Seq<(Seq<char>, Seq<char>)>) -> Seq<DiagView> {
    rows.map_values(|b: (Seq<char>, Seq<char>)| ("broken-link"@, Severity::Error, b.0, b.1, LintData::BrokenLink))
}

/// A lint over the link graph.
pub trait Lint {
    fn id(&self) -> &'static str;

    fn title(&self) -> &'static str;

    fn suggestions(&self) -> &'static str;

    fn check(&self, links: &Vec<LinkRow>, docs: &Vec<DocVersion>) -> Vec<Diagnostic>;
}

/// Finds links whose target changed after the link was pinned.
pub struct StaleRef;

/// Finds documents that no other document links to.
pub struct Orphan;

/// Reports the links whose target names no document; the rows are those
/// of the broken-link table, which indexing fills.
pub struct BrokenLink {
    pub rows: Vec<BrokenRow>,
}

/// Looks up the current version of a document.
pub fn find_version(docs: &Vec<DocVersion>, path: &String) -> (r: Option<i64>)
    ensures
        r == current_version(doc_versions_view(docs@), path@),
{
    let ghost dv = doc_versions_view(docs@);
    let mut i: usize = 0;
    proof {
        assert(dv.skip(0) =~= dv);
    }
    while i < docs.len()
        invariant
            i <= docs.len(),
            dv == doc_versions_view(docs@),
            current_version(dv, path@) == current_version(dv.skip(i as int), path@),
        decreases docs.len() - i,
    {
        proof {
            assert(dv.skip(i as int).drop_first() =~= dv.skip(i + 1));
            assert(dv.skip(i as int)[0] == dv[i as int]);
        }
        if docs[i].path == *path {
            return Some(docs[i].version);
        }
        i += 1;
    }
    None
}

impl Lint for StaleRef {
    fn id(&self) -> (r: &'static str)
        ensures
            r@ == "stale-ref"@,
    {
        "stale-ref"
    }

    fn title(&self) -> (r: &'static str)
        ensures
            r@ == "STALE REFERENCES DETECTED"@,
    {
        "STALE REFERENCES DETECTED"
    }

    fn suggestions(&self) -> (r: &'static str)
        ensures
            r@ == "💡 Suggested actions:\n    1. Update them if needed\n    2. Run `grepdown approve-edits <filenames>` to mark them as reviewed"@,
    {
        "💡 Suggested actions:\n    1. Update them if needed\n    2. Run `grepdown approve-edits <filenames>` to mark them as reviewed"
    }

    /// One warning per stale link, in link-table order.
    fn check(&self, links: &Vec<LinkRow>, docs: &Vec<DocVersion>) -> (diags: Vec<Diagnostic>)
        ensures
            diags_view(diags@) == stale_refs(link_rows_view(links@), doc_versions_view(docs@)),
    {
        let ghost lv = link_rows_view(links@);
        let ghost dv = doc_versions_view(docs@);
        let mut diags: Vec<Diagnostic> = Vec::new();
        let mut i: usize = 0;
        while i < links.len()
            invariant
                i <= links.len(),
                lv == link_rows_view(links@),
                dv == doc_versions_view(docs@),
                diags_view(diags@) == stale_refs(lv.take(i as int), dv),
            decreases links.len() - i,
        {
            proof {
                assert(lv.take(i + 1).drop_last() =~= lv.take(i as int));
                assert(lv.take(i + 1).last() == links@[i as int]@);
            }
            let l = &links[i];
            match l.pinned_version {
                Some(pinned) => match find_version(docs, &l.to_id) {
                    Some(current) => {
                        if pinned < current {
                            let d = Diagnostic {
                                lint_id: self.id(),
                                severity: Severity::Warning,
                                from_path: l.from_id.clone(),
                                to_path: l.to_id.clone(),
                                data: LintData::StaleRef { pinned_version: pinned, current_version: current },
                            };
                            let ghost before = diags_view(diags@);
                            diags.push(d);
                            proof {
                                assert(diags_view(diags@) =~= before.push(diag_view(d)));
                            }
                        }
                    },
                    None => {},
                },
                None => {},
            }
            i += 1;
        }
        proof {
            assert(lv.take(links.len() as int) =~= lv);
        }
        diags
    }
}

/// Does another document link to `path`?
pub fn linked_from_elsewhere(links: &Vec<LinkRow>, path: &String) -> (r: bool)
    ensures
        r == has_incoming(link_rows_view(links@), path@),
{
    let ghost lv = link_rows_view(links@);
    let mut i: usize = 0;
    while i < links.len()
        invariant
            i <= links.len(),
            lv == link_rows_view(links@),
            forall|j: int| 0 <= j < i ==> !((#[trigger] lv[j]).2 == path@ && lv[j].1 != path@),
        decreases links.len() - i,
    {
        if links[i].to_id == *path && links[i].from_id != *path {
            proof {
                assert(lv[i as int].2 == path@ && lv[i as int].1 != path@);
            }
            return true;
        }
        proof {
            assert(lv[i as int] == links@[i as int]@);
        }
        i += 1;
    }
    false
}

impl Lint for Orphan {
    fn id(&self) -> (r: &'static str)
        ensures
            r@ == "orphan"@,
    {
        "orphan"
    }

    fn title(&self) -> (r: &'static str)
        ensures
            r@ == "ORPHANED DOCUMENTS DETECTED"@,
    {
        "ORPHANED DOCUMENTS DETECTED"
    }

    fn suggestions(&self) -> (r: &'static str)
        ensures
            r@ == "💡 Suggested actions:\n    1. Link to them from a related document\n    2. Remove them if they are no longer needed"@,
    {
        "💡 Suggested actions:\n    1. Link to them from a related document\n    2. Remove them if they are no longer needed"
    }

    /// One warning per document that no other document links to, in
    /// document order.
    fn check(&self, links: &Vec<LinkRow>, docs: &Vec<DocVersion>) -> (diags: Vec<Diagnostic>)
        ensures
            diags_view(diags@) == orphans(link_rows_view(links@), doc_versions_view(docs@)),
    {
        let ghost lv = link_rows_view(links@);
        let ghost dv = doc_versions_view(docs@);
        let mut diags: Vec<Diagnostic> = Vec::new();
        let mut i: usize = 0;
        while i < docs.len()
            invariant
                i <= docs.len(),
                lv == link_rows_view(links@),
                dv == doc_versions_view(docs@),
                diags_view(diags@) == orphans(lv, dv.take(i as int)),
            decreases docs.len() - i,
        {
            proof {
                assert(dv.take(i + 1).drop_last() =~= dv.take(i as int));
                assert(dv.take(i + 1).last().0 == docs@[i as int].path@);
            }
            if !linked_from_elsewhere(links, &docs[i].path) {
                let d = Diagnostic {
                    lint_id: self.id(),
                    severity: Severity::Warning,
                    from_path: docs[i].path.clone(),
                    to_path: String::new(),
                    data: LintData::Orphan,
                };
                let ghost before = diags_view(diags@);
                diags.push(d);
                proof {
                    assert(diags_view(diags@) =~= before.push(diag_view(d)));
                }
            }
            i += 1;
        }
        proof {
            assert(dv.take(docs.len() as int) =~= dv);
        }
        diags
    }
}

impl Lint for BrokenLink {
    fn id(&self) -> (r: &'static str)
        ensures
            r@ == "broken-link"@,
    {
        "broken-link"
    }

    fn title(&self) -> (r: &'static str)
        ensures
            r@ == "BROKEN LINKS DETECTED"@,
    {
        "BROKEN LINKS DETECTED"
    }

    fn suggestions(&self) -> (r: &'static str)
        ensures
            r@ == "💡 Suggested actions:\n    1. Fix the link target\n    2. Create the missing document"@,
    {
        "💡 Suggested actions:\n    1. Fix the link target\n    2. Create the missing document"
    }

    /// One error per row of the broken-link table, in its order.
    fn check(&self, links: &Vec<LinkRow>, docs: &Vec<DocVersion>) -> (diags: Vec<Diagnostic>)
        ensures
            diags_view(diags@) == broken_refs(broken_rows_view(self.rows@)),
    {
        let ghost bv = broken_rows_view(self.rows@);
        let mut diags: Vec<Diagnostic> = Vec::new();
        let mut i: usize = 0;
        while i < self.rows.len()
            invariant
                i <= self.rows.len(),
                bv == broken_rows_view(self.rows@),
                diags_view(diags@) == broken_refs(bv.take(i as int)),
            decreases self.rows.len() - i,
        {
            let d = Diagnostic {
                lint_id: self.id(),
                severity: Severity::Error,
                from_path: self.rows[i].from_id.clone(),
                to_path: self.rows[i].raw_target.clone(),
                data: LintData::BrokenLink,
            };
            let ghost before = diags_view(diags@);
            diags.push(d);
            proof {
                assert(diags_view(diags@) =~= before.push(diag_view(d)));
                assert(broken_refs(bv.take(i + 1)) =~= broken_refs(bv.take(i as int)).push(diag_view(d)));
            }
            i += 1;
        }
        proof {
            assert(bv.take(self.rows.len() as int) =~= bv);
        }
        diags
    }
}

/// Run every lint, in turn: stale references, orphaned documents, broken
/// links (`broken` is the broken-link table).
pub fn run_lints(links: &Vec<LinkRow>, docs: &Vec<DocVersion>, broken: Vec<BrokenRow>) -> (diags: Vec<Diagnostic>)
    ensures
        diags_view(diags@) == stale_refs(link_rows_view(links@), doc_versions_view(docs@)) + orphans(
            link_rows_view(links@),
            doc_versions_view(docs@),
        ) + broken_refs(broken_rows_view(broken@)),
{
    let ghost bv = broken_rows_view(broken@);
    let mut all: Vec<Diagnostic> = Vec::new();
    let mut found = StaleRef.check(links, docs);
    let ghost v1 = diags_view(found@);
    all.append(&mut found);
    proof {
        assert(diags_view(all@) =~= v1);
    }
    let mut found = Orphan.check(links, docs);
    let ghost before = diags_view(all@);
    let ghost v2 = diags_view(found@);
    all.append(&mut found);
    proof {
        assert(diags_view(all@) =~= before + v2);
    }
    let lint = BrokenLink { rows: broken };
    let mut found = lint.check(links, docs);
    let ghost before = diags_view(all@);
    let ghost v3 = diags_view(found@);
    all.append(&mut found);
    proof {
        assert(diags_view(all@) =~= before + v3);
    }
    all
}

/// Is `t` the path `p` or a path under the folder `p`?
pub open spec fn under_path(t: Seq<char>, p: Seq<char>) -> bool {
    t == p || (0 < p.len() < t.len() && t.take(p.len() as int) == p && (t[p.len() as int] == '/' || p.last() == '/'))
}

/// A listed folder covers every path inside it and the listed path itself,
/// and no other path that merely starts with the same letters (`notes`
/// covers `notes/x.md`, not `notesy.md`).
pub proof fn lemma_folder_covers_its_files(p: Seq<char>, rest: Seq<char>, t: Seq<char>)
    requires
        p.len() > 0,
    ensures
        under_path(p, p),
        under_path(p + seq!['/'] + rest, p),
        (t != p && p.last() != '/' && !(t.len() > p.len() && t.take(p.len() as int) == p && t[p.len() as int] == '/'))
            ==> !under_path(t, p),
{
    let t2 = p + seq!['/'] + rest;
    assert(t2.take(p.len() as int) =~= p);
    assert(t2[p.len() as int] == '/');
}

/// Does a request for `paths` name `t` or a folder above it?
pub open spec fn named_by(paths: Seq<Seq<char>>, t: Seq<char>) -> bool {
    exists|i: int| 0 <= i < paths.len() && under_path(t, #[trigger] paths[i])
}

/// Is `t` the path `p` or under the folder `p`?
pub fn is_under(t: &str, p: &str) -> (r: bool)
    ensures
        r == under_path(t@, p@),
{
    let tc = crate::text::chars_of(t);
    let pc = crate::text::chars_of(p);
    if crate::text::same_chars(&tc, &pc) {
        return true;
    }
    if pc.len() == 0 || pc.len() >= tc.len() {
        return false;
    }
    let prefix = crate::text::matches_at(&tc, &pc, 0);
    proof {
        assert(prefix == (tc@.take(pc@.len() as int) == pc@)) by {
            if prefix {
                assert(tc@.subrange(0, pc@.len() as int) =~= tc@.take(pc@.len() as int));
            } else {
                if tc@.take(pc@.len() as int) == pc@ {
                    assert(tc@.subrange(0, pc@.len() as int) =~= tc@.take(pc@.len() as int));
                }
            }
        }
    }
    prefix && (tc[pc.len()] == '/' || pc[pc.len() - 1] == '/')
}

/// Does a request for `paths` name `t` or a folder above it?
pub fn names_path(paths: &Vec<String>, t: &String) -> (r: bool)
    ensures
        r == named_by(paths.deep_view(), t@),
{
    let ghost pv = paths.deep_view();
    let mut i: usize = 0;
    while i < paths.len()
        invariant
            i <= paths.len(),
            pv == paths.deep_view(),
            forall|j: int| 0 <= j < i ==> !under_path(t@, #[trigger] pv[j]),
        decreases paths.len() - i,
    {
        if is_under(t.as_str(), paths[i].as_str()) {
            proof {
                assert(under_path(t@, pv[i as int]));
            }
            return true;
        }
        proof {
            assert(pv[i as int] == paths@[i as int]@);
        }
        i += 1;
    }
    false
}

/// Is a link approved by a request for `paths` (every link when empty;
/// else the links to a listed file or into a listed folder)?
pub open spec fn approves(l: LinkRowView, docs: Seq<(Seq<char>, i64)>, paths: Seq<Seq<char>>) -> bool {
    is_stale(l, docs) && (paths.len() == 0 || named_by(paths, l.2))
}

/// A link after approval: an approved link is pinned to its target's
/// current version; any other is left as it is.
pub open spec fn approved_link(l: LinkRowView, docs: Seq<(Seq<char>, i64)>, paths: Seq<Seq<char>>) -> LinkRowView {
    if approves(l, docs, paths) {
        (l.0, l.1, l.2, current_version(docs, l.2))
    } else {
        l
    }
}

/// How many links a request approves.
pub open spec fn approved_count(links: Seq<LinkRowView>, docs: Seq<(Seq<char>, i64)>, paths: Seq<Seq<char>>) -> nat
    decreases links.len(),
{
    if links.len() == 0 {
        0
    } else {
        approved_count(links.drop_last(), docs, paths) + if approves(links.last(), docs, paths) {
            1nat
        } else {
            0nat
        }
    }
}

proof fn lemma_count_bound(links: Seq<LinkRowView>, docs: Seq<(Seq<char>, i64)>, paths: Seq<Seq<char>>)
    ensures
        approved_count(links, docs, paths) <= links.len(),
    decreases links.len(),
{
    if links.len() > 0 {
        lemma_count_bound(links.drop_last(), docs, paths);
    }
}

/// Approve stale references: every stale link (only those to the files and
/// into the folders of `paths`, when it is not empty) is pinned to its target's current version. Returns the
/// number of links updated.
pub fn approve_edits(links: &mut Vec<LinkRow>, docs: &Vec<DocVersion>, paths: &Vec<String>) -> (n: usize)
    ensures
        link_rows_view(final(links)@) == link_rows_view(old(links)@).map_values(
            |l: LinkRowView| approved_link(l, doc_versions_view(docs@), paths.deep_view()),
        ),
        n == approved_count(link_rows_view(old(links)@), doc_versions_view(docs@), paths.deep_view()),
{
    let ghost orig = link_rows_view(links@);
    let ghost dv = doc_versions_view(docs@);
    let ghost pv = paths.deep_view();
    let mut n: usize = 0;
    let mut i: usize = 0;
    while i < links.len()
        invariant
            i <= links.len(),
            links.len() == orig.len(),
            dv == doc_versions_view(docs@),
            pv == paths.deep_view(),
            forall|k: int| 0 <= k < i ==> #[trigger] link_rows_view(links@)[k] == approved_link(orig[k], dv, pv),
            forall|k: int| i <= k < links.len() ==> #[trigger] link_rows_view(links@)[k] == orig[k],
            n == approved_count(orig.take(i as int), dv, pv),
        decreases links.len() - i,
    {
        proof {
            assert(orig.take(i + 1).drop_last() =~= orig.take(i as int));
            assert(orig.take(i + 1).last() == orig[i as int]);
            lemma_count_bound(orig.take(i as int), dv, pv);
            assert(link_rows_view(links@)[i as int] == orig[i as int]);
        }
        let wanted = paths.len() == 0 || names_path(paths, &links[i].to_id);
        let stale_to = match links[i].pinned_version {
            Some(pinned) => match find_version(docs, &links[i].to_id) {
                Some(current) => if pinned < current { Some(current) } else { None },
                None => None,
            },
            None => None,
        };
        match stale_to {
            Some(current) => {
                if wanted {
                    let l = LinkRow {
                        rowid: links[i].rowid,
                        from_id: links[i].from_id.clone(),
                        to_id: links[i].to_id.clone(),
                        pinned_version: Some(current),
                    };
                    let ghost before = link_rows_view(links@);
                    let ghost lv = l@;
                    links[i] = l;
                    proof {
                        assert(link_rows_view(links@) =~= before.update(i as int, lv));
                    }
                    n = n + 1;
                }
            },
            None => {},
        }
        proof {
            assert(link_rows_view(links@)[i as int] == approved_link(orig[i as int], dv, pv));
        }
        i += 1;
    }
    proof {
        assert(orig.take(orig.len() as int) =~= orig);
        assert(link_rows_view(links@) =~= orig.map_values(|l: LinkRowView| approved_link(l, dv, pv)));
    }
    n
}

/// After approving every stale reference, none is left: a lint run right
/// after `approve-edits --all` finds no stale reference.
pub proof fn lemma_approve_all_clears(links: Seq<LinkRowView>, docs: Seq<(Seq<char>, i64)>)
    ensures
        stale_refs(links.map_values(|l: LinkRowView| approved_link(l, docs, Seq::empty())), docs)
            == Seq::<DiagView>::empty(),
    decreases links.len(),
{
    if links.len() > 0 {
        let f = |l: LinkRowView| approved_link(l, docs, Seq::<Seq<char>>::empty());
        assert(links.map_values(f).drop_last() =~= links.drop_last().map_values(f));
        lemma_approve_all_clears(links.drop_last(), docs);
    }
}

/// Approval is idempotent: a second request for the same paths approves nothing.
pub proof fn lemma_approve_idempotent(links: Seq<LinkRowView>, docs: Seq<(Seq<char>, i64)>, paths: Seq<Seq<char>>)
    ensures
        approved_count(links.map_values(|l: LinkRowView| approved_link(l, docs, paths)), docs, paths) == 0,
    decreases links.len(),
{
    if links.len() > 0 {
        let f = |l: LinkRowView| approved_link(l, docs, paths);
        assert(links.map_values(f).drop_last() =~= links.drop_last().map_values(f));
        lemma_approve_idempotent(links.drop_last(), docs, paths);
    }
}

/// Approving everything updates exactly as many links as the lint reports
/// stale references.
pub proof fn lemma_approve_all_counts_stale(links: Seq<LinkRowView>, docs: Seq<(Seq<char>, i64)>)
    ensures
        approved_count(links, docs, Seq::empty()) == stale_refs(links, docs).len(),
    decreases links.len(),
{
    if links.len() > 0 {
        lemma_approve_all_counts_stale(links.drop_last(), docs);
    }
}

/// Approving some paths leaves every link to documents outside them as it was.
pub proof fn lemma_approve_scoped(links: Seq<LinkRowView>, docs: Seq<(Seq<char>, i64)>, paths: Seq<Seq<char>>, k: int)
    requires
        paths.len() > 0,
        0 <= k < links.len(),
        !named_by(paths, links[k].2),
    ensures
        links.map_values(|l: LinkRowView| approved_link(l, docs, paths))[k] == links[k],
{
}

} // verus!
