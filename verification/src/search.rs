//! Query-side logic: literal FTS5 queries, the parameters of a search, the
//! merging of body and tag hits, and the records that queries return.
use vstd::prelude::*;
use crate::text::{chars_of, string_from_chars};
use crate::frontmatter::{parse_frontmatter, extract_tags};
use crate::index::doc_tags;

verus! {

/// The characters of a query with every `"` doubled.
pub open spec fn double_quotes(s: Seq<char>) -> Seq<char>
    decreases s.len(),
{
    if s.len() == 0 {
        Seq::empty()
    } else {
        double_quotes(s.drop_last()) + (if s.last() == '"' {
            seq!['"', '"']
        } else {
            seq![s.last()]
        })
    }
}

/// The FTS5 phrase that matches `query` literally: the query in double quotes,
/// each inner `"` written as `""`.
pub open spec fn fts5_literal(query: Seq<char>) -> Seq<char> {
    seq!['"'] + double_quotes(query) + seq!['"']
}

/// How many `"` the text holds.
pub open spec fn count_quotes(s: Seq<char>) -> nat
    decreases s.len(),
{
    if s.len() == 0 {
        0
    } else {
        count_quotes(s.drop_last()) + if s.last() == '"' {
            1nat
        } else {
            0nat
        }
    }
}

/// The text with each `""` pair (read from the end) collapsed to one `"`.
pub open spec fn collapse_quotes(s: Seq<char>) -> Seq<char>
    decreases s.len(),
{
    if s.len() == 0 {
        Seq::empty()
    } else if s.len() >= 2 && s.last() == '"' && s[s.len() - 2] == '"' {
        collapse_quotes(s.take(s.len() - 2)).push('"')
    } else {
        collapse_quotes(s.drop_last()).push(s.last())
    }
}

proof fn lemma_double_quotes(q: Seq<char>)
    ensures
        double_quotes(q).len() == q.len() + count_quotes(q),
        collapse_quotes(double_quotes(q)) == q,
    decreases q.len(),
{
    if q.len() > 0 {
        let p = q.drop_last();
        lemma_double_quotes(p);
        let d = double_quotes(q);
        if q.last() == '"' {
            assert(d.take(d.len() - 2) =~= double_quotes(p));
        } else {
            assert(d.drop_last() =~= double_quotes(p));
        }
        assert(p.push(q.last()) =~= q);
    }
}

/// The literal form of a query is the query between two `"`, each inner
/// `"` doubled: it is two characters plus one per quote longer than the
/// query, and collapsing the doubled quotes between its ends gives the
/// query back.
pub proof fn lemma_fts5_literal_round_trip(q: Seq<char>)
    ensures
        fts5_literal(q).len() == q.len() + 2 + count_quotes(q),
        fts5_literal(q)[0] == '"',
        fts5_literal(q).last() == '"',
        collapse_quotes(fts5_literal(q).subrange(1, fts5_literal(q).len() - 1)) == q,
{
    lemma_double_quotes(q);
    let r = fts5_literal(q);
    assert(r.subrange(1, r.len() - 1) =~= double_quotes(q));
}

/// Escape a query string so FTS5 treats it as a literal phrase.
/// Wraps the input in double quotes and escapes any inner `"` as `""`.
pub fn escape_fts5_query(query: &str) -> (r: String)
    ensures
        r@ == fts5_literal(query@),
{
    let q = chars_of(query);
    let mut out: Vec<char> = Vec::new();
    out.push('"');
    let mut i: usize = 0;
    while i < q.len()
        invariant
            i <= q.len(),
            out@ == seq!['"'] + double_quotes(q@.take(i as int)),
        decreases q.len() - i,
    {
        proof {
            assert(q@.take(i + 1).drop_last() =~= q@.take(i as int));
        }
        if q[i] == '"' {
            out.push('"');
            out.push('"');
        } else {
            out.push(q[i]);
        }
        i += 1;
        proof {
            assert(out@ =~= seq!['"'] + double_quotes(q@.take(i as int)));
        }
    }
    out.push('"');
    proof {
        assert(q@.take(q.len() as int) =~= q@);
    }
    string_from_chars(&out)
}


/// Text with the `LIKE` wildcards `%` and `_`, and the escape character
/// `\`, each preceded by `\` (the statement declares `ESCAPE '\'`).
pub open spec fn like_escaped(s: Seq<char>) -> Seq<char>
    decreases s.len(),
{
    if s.len() == 0 {
        Seq::empty()
    } else {
        like_escaped(s.drop_last()) + (if s.last() == '%' || s.last() == '_' || s.last() == '\\' {
            seq!['\\', s.last()]
        } else {
            seq![s.last()]
        })
    }
}

/// The characters that a `LIKE` pattern escapes: `%`, `_` and `\`.
pub open spec fn like_special(c: char) -> bool {
    c == '%' || c == '_' || c == '\\'
}

/// How many characters of the text a `LIKE` pattern escapes.
pub open spec fn count_like_special(s: Seq<char>) -> nat
    decreases s.len(),
{
    if s.len() == 0 {
        0
    } else {
        count_like_special(s.drop_last()) + if like_special(s.last()) {
            1nat
        } else {
            0nat
        }
    }
}

/// A pattern with each `\` that precedes a `%`, `_` or `\` removed (read
/// from the end): what `LIKE ... ESCAPE '\'` matches literally.
pub open spec fn drop_like_escapes(t: Seq<char>) -> Seq<char>
    decreases t.len(),
{
    if t.len() == 0 {
        Seq::empty()
    } else if t.len() >= 2 && like_special(t.last()) && t[t.len() - 2] == '\\' {
        drop_like_escapes(t.take(t.len() - 2)).push(t.last())
    } else {
        drop_like_escapes(t.drop_last()).push(t.last())
    }
}

/// Escaping for `LIKE` loses and adds nothing: it is one backslash longer
/// per escaped character, and removing the escapes gives the text back.
pub proof fn lemma_like_escape_round_trip(s: Seq<char>)
    ensures
        like_escaped(s).len() == s.len() + count_like_special(s),
        drop_like_escapes(like_escaped(s)) == s,
    decreases s.len(),
{
    if s.len() > 0 {
        let d = s.drop_last();
        let c = s.last();
        lemma_like_escape_round_trip(d);
        let t = like_escaped(s);
        if like_special(c) {
            assert(t.take(t.len() - 2) =~= like_escaped(d));
            assert(t.last() == c);
            assert(t[t.len() - 2] == '\\');
        } else {
            assert(t.drop_last() =~= like_escaped(d));
            assert(t.last() == c);
        }
        assert(d.push(c) =~= s);
    }
}

/// Escapes the `LIKE` wildcards of a text (see [`like_escaped`]).
pub fn escape_like(s: &str) -> (r: String)
    ensures
        r@ == like_escaped(s@),
{
    let q = chars_of(s);
    let mut out: Vec<char> = Vec::new();
    let mut i: usize = 0;
    while i < q.len()
        invariant
            i <= q.len(),
            out@ == like_escaped(q@.take(i as int)),
        decreases q.len() - i,
    {
        proof {
            assert(q@.take(i + 1).drop_last() =~= q@.take(i as int));
        }
        let c = q[i];
        if c == '%' || c == '_' || c == '\\' {
            out.push('\\');
        }
        out.push(c);
        i += 1;
        proof {
            assert(out@ =~= like_escaped(q@.take(i as int)));
        }
    }
    proof {
        assert(q@.take(q.len() as int) =~= q@);
    }
    string_from_chars(&out)
}

/// The values bound into the search statement.
pub struct SearchQuery {
    /// `LIKE` pattern on the path (with `ESCAPE '\'`): the filter, its
    /// wildcards escaped, between two `%`, so that it matches anywhere in
    /// the path.
    pub path_like: String,
    /// Number of tokens in a snippet.
    pub snippet_len: i64,
    /// Number of raw hits fetched: twice the limit, to leave room for merging.
    pub fetch_limit: i64,
}

/// The parameters of a search: `path_filter` becomes the `LIKE` pattern
/// `%filter%`, its wildcards escaped (every path when absent), the snippet length defaults to 32
/// tokens, and twice `limit` hits are fetched.
pub fn search_query(limit: usize, path_filter: Option<&str>, snippet_length: Option<i64>) -> (q: SearchQuery)
    requires
        limit <= usize::MAX / 2,
    ensures
        q.path_like@ == match path_filter {
            Some(p) => "%"@ + like_escaped(p@) + "%"@,
            None => "%"@,
        },
        q.snippet_len == match snippet_length {
            Some(n) => n,
            None => 32,
        },
        q.fetch_limit == (limit * 2) as i64,
        limit * 2 <= i64::MAX ==> q.fetch_limit == limit * 2,
{
    let path_like = match path_filter {
        Some(filter) => {
            let mut s = "%".to_owned();
            let e = escape_like(filter);
            s.append(e.as_str());
            s.append("%");
            s
        },
        None => "%".to_owned(),
    };
    let snippet_len = match snippet_length {
        Some(n) => n,
        None => 32,
    };
    let doubled: usize = limit * 2;
    let fetch_limit = doubled as i64;
    SearchQuery { path_like, snippet_len, fetch_limit }
}

/// The parameters of a search restricted to the files under a folder (the
/// command line's `--path`): `folder` becomes the `LIKE` pattern `folder%`,
/// its wildcards escaped, so that only paths that start with it match
/// (every path when absent); the snippet length and the number of hits
/// fetched are those of [`search_query`].
pub fn search_query_under(limit: usize, folder: Option<&str>, snippet_length: Option<i64>) -> (q: SearchQuery)
    requires
        limit <= usize::MAX / 2,
    ensures
        q.path_like@ == match folder {
            Some(p) => like_escaped(p@) + "%"@,
            None => "%"@,
        },
        q.snippet_len == match snippet_length {
            Some(n) => n,
            None => 32,
        },
        q.fetch_limit == (limit * 2) as i64,
        limit * 2 <= i64::MAX ==> q.fetch_limit == limit * 2,
{
    let base = search_query(limit, None, snippet_length);
    let path_like = match folder {
        Some(p) => {
            let mut s = escape_like(p);
            s.append("%");
            s
        },
        None => "%".to_owned(),
    };
    SearchQuery { path_like, snippet_len: base.snippet_len, fetch_limit: base.fetch_limit }
}

/// One merged search result: the raw hit that comes first for a path, and
/// how many later hits for the same path were merged into it (each one
/// scales its score by 0.9).
pub struct HitGroup {
    pub first: usize,
    pub repeats: usize,
}

pub open spec fn groups_view(v: Seq<HitGroup>) -> Seq<(int, int)> {
    v.map_values(|g: HitGroup| (g.first as int, g.repeats as int))
}

/// Does some group stand for path `p`?
pub open spec fn has_group(groups: Seq<(int, int)>, paths: Seq<Seq<char>>, p: Seq<char>) -> bool {
    exists|k: int| 0 <= k < groups.len() && paths[groups[k].0] == p
}

/// The merged hits for raw hits with these paths, best first: the first hit
/// of each path, with the number of later hits for it.
pub open spec fn merge_hits(paths: Seq<Seq<char>>) -> Seq<(int, int)>
    decreases paths.len(),
{
    if paths.len() == 0 {
        Seq::empty()
    } else {
        let prev = merge_hits(paths.drop_last());
        let p = paths.last();
        if has_group(prev, paths, p) {
            let k = choose|k: int| 0 <= k < prev.len() && paths[prev[k].0] == p;
            prev.update(k, (prev[k].0, prev[k].1 + 1))
        } else {
            prev.push((paths.len() - 1, 0))
        }
    }
}

/// The groups point at distinct paths, in the order of their first hits.
pub open spec fn well_grouped(groups: Seq<(int, int)>, paths: Seq<Seq<char>>) -> bool {
    &&& forall|k: int| 0 <= k < groups.len() ==> 0 <= #[trigger] groups[k].0 < paths.len()
    &&& forall|k: int| 0 <= k < groups.len() ==> 0 <= #[trigger] groups[k].1
    &&& forall|k: int, m: int| 0 <= k < m < groups.len() ==> #[trigger] groups[k].0 < #[trigger] groups[m].0
    &&& forall|k: int, m: int| 0 <= k < m < groups.len() ==> paths[#[trigger] groups[k].0] != paths[#[trigger] groups[m].0]
}

/// How many of the hits have path `p`.
pub open spec fn hits_of(paths: Seq<Seq<char>>, p: Seq<char>) -> nat
    decreases paths.len(),
{
    if paths.len() == 0 {
        0
    } else {
        hits_of(paths.drop_last(), p) + if paths.last() == p {
            1nat
        } else {
            0nat
        }
    }
}

proof fn lemma_hits_of_zero(paths: Seq<Seq<char>>, p: Seq<char>)
    requires
        forall|j: int| 0 <= j < paths.len() ==> #[trigger] paths[j] != p,
    ensures
        hits_of(paths, p) == 0,
    decreases paths.len(),
{
    if paths.len() > 0 {
        assert(paths[paths.len() - 1] != p);
        lemma_hits_of_zero(paths.drop_last(), p);
    }
}

/// Merging loses no hit and invents none: each merged result stands for
/// the first hit of its path and counts every later hit of that path, the
/// results stand for distinct paths, and every path that was hit has one.
pub proof fn lemma_merge_hits_counts_every_hit(paths: Seq<Seq<char>>)
    ensures
        forall|k: int| 0 <= k < merge_hits(paths).len() ==> {
            let g = #[trigger] merge_hits(paths)[k];
            &&& 0 <= g.0 < paths.len()
            &&& forall|j: int| 0 <= j < g.0 ==> #[trigger] paths[j] != paths[g.0]
            &&& g.1 + 1 == hits_of(paths, paths[g.0])
        },
        forall|k: int, m: int| 0 <= k < m < merge_hits(paths).len()
            ==> paths[#[trigger] merge_hits(paths)[k].0] != paths[#[trigger] merge_hits(paths)[m].0],
        forall|i: int| 0 <= i < paths.len() ==> has_group(merge_hits(paths), paths, #[trigger] paths[i]),
    decreases paths.len(),
{
    if paths.len() > 0 {
        let d = paths.drop_last();
        let p = paths.last();
        lemma_merge_hits_counts_every_hit(d);
        let prev = merge_hits(d);
        let cur = merge_hits(paths);
        assert forall|j: int| 0 <= j < d.len() implies d[j] == paths[j] by {}
        // facts about prev in terms of `paths`
        assert forall|k: int| 0 <= k < prev.len() implies 0 <= #[trigger] prev[k].0 < d.len()
            && paths[prev[k].0] == d[prev[k].0] by {}
        assert forall|q: Seq<char>| q != p implies hits_of(paths, q) == hits_of(d, q) by {}
        assert(hits_of(paths, p) == hits_of(d, p) + 1);
        if has_group(prev, paths, p) {
            let k = choose|k: int| 0 <= k < prev.len() && paths[prev[k].0] == p;
            assert(cur == prev.update(k, (prev[k].0, prev[k].1 + 1)));
            assert forall|m: int| 0 <= m < cur.len() implies {
                let g = #[trigger] cur[m];
                &&& 0 <= g.0 < paths.len()
                &&& forall|j: int| 0 <= j < g.0 ==> #[trigger] paths[j] != paths[g.0]
                &&& g.1 + 1 == hits_of(paths, paths[g.0])
            } by {
                let g0 = prev[m];
                assert(forall|j: int| 0 <= j < g0.0 ==> #[trigger] d[j] != d[g0.0]);
                if m != k {
                    assert(cur[m] == g0);
                    if m < k {
                        assert(d[prev[m].0] != d[prev[k].0]);
                    } else {
                        assert(d[prev[k].0] != d[prev[m].0]);
                    }
                    assert(paths[g0.0] != p);
                }
            }
            assert forall|a: int, b: int| 0 <= a < b < cur.len()
                implies paths[#[trigger] cur[a].0] != paths[#[trigger] cur[b].0] by {
                assert(cur[a].0 == prev[a].0 && cur[b].0 == prev[b].0);
                assert(d[prev[a].0] != d[prev[b].0]);
            }
            assert forall|i: int| 0 <= i < paths.len() implies has_group(cur, paths, #[trigger] paths[i]) by {
                if i < d.len() {
                    assert(has_group(prev, d, d[i]));
                    let m = choose|m: int| 0 <= m < prev.len() && d[prev[m].0] == d[i];
                    assert(cur[m].0 == prev[m].0);
                    assert(paths[cur[m].0] == paths[i]);
                } else {
                    assert(cur[k].0 == prev[k].0);
                    assert(paths[cur[k].0] == paths[i]);
                }
            }
        } else {
            assert(cur == prev.push((paths.len() - 1, 0int)));
            assert forall|j: int| 0 <= j < d.len() implies #[trigger] d[j] != p by {
                if d[j] == p {
                    assert(has_group(prev, d, d[j]));
                    let m = choose|m: int| 0 <= m < prev.len() && d[prev[m].0] == d[j];
                    assert(paths[prev[m].0] == p);
                }
            }
            lemma_hits_of_zero(d, p);
            assert forall|m: int| 0 <= m < cur.len() implies {
                let g = #[trigger] cur[m];
                &&& 0 <= g.0 < paths.len()
                &&& forall|j: int| 0 <= j < g.0 ==> #[trigger] paths[j] != paths[g.0]
                &&& g.1 + 1 == hits_of(paths, paths[g.0])
            } by {
                if m < prev.len() {
                    let g0 = prev[m];
                    assert(cur[m] == g0);
                    assert(forall|j: int| 0 <= j < g0.0 ==> #[trigger] d[j] != d[g0.0]);
                    assert(paths[g0.0] != p);
                } else {
                    assert(cur[m] == (paths.len() - 1, 0int));
                    assert(paths[paths.len() - 1] == p);
                }
            }
            assert forall|a: int, b: int| 0 <= a < b < cur.len()
                implies paths[#[trigger] cur[a].0] != paths[#[trigger] cur[b].0] by {
                if b < prev.len() {
                    assert(cur[a] == prev[a] && cur[b] == prev[b]);
                    assert(d[prev[a].0] != d[prev[b].0]);
                } else {
                    assert(cur[a] == prev[a]);
                    assert(paths[cur[b].0] == p);
                    assert(d[prev[a].0] != p);
                }
            }
            assert forall|i: int| 0 <= i < paths.len() implies has_group(cur, paths, #[trigger] paths[i]) by {
                if i < d.len() {
                    assert(has_group(prev, d, d[i]));
                    let m = choose|m: int| 0 <= m < prev.len() && d[prev[m].0] == d[i];
                    assert(cur[m] == prev[m]);
                    assert(paths[cur[m].0] == paths[i]);
                } else {
                    let last = prev.len() as int;
                    assert(cur[last].0 == paths.len() - 1);
                }
            }
        }
    }
}

/// Deduplicate raw hits (ordered best first): keep the first hit of each
/// path, count the later ones, and keep at most `limit` results.
pub fn merge_search_hits(paths: &Vec<String>, limit: usize) -> (groups: Vec<HitGroup>)
    ensures
        groups_view(groups@) == merge_hits(paths.deep_view()).take(
            if limit < merge_hits(paths.deep_view()).len() { limit as int } else { merge_hits(paths.deep_view()).len() as int },
        ),
        well_grouped(groups_view(groups@), paths.deep_view()),
        groups.len() <= limit,
{
    let ghost pv = paths.deep_view();
    let mut groups: Vec<HitGroup> = Vec::new();
    let mut i: usize = 0;
    while i < paths.len()
        invariant
            i <= paths.len(),
            pv == paths.deep_view(),
            groups_view(groups@) == merge_hits(pv.take(i as int)),
            well_grouped(groups_view(groups@), pv.take(i as int)),
            forall|k: int| 0 <= k < groups.len() ==> #[trigger] groups@[k].repeats < i,
        decreases paths.len() - i,
    {
        let ghost pre = pv.take(i as int);
        let ghost cur = pv.take(i + 1);
        let ghost gv = groups_view(groups@);
        proof {
            assert(cur.drop_last() =~= pre);
            assert(cur.last() == pv[i as int]);
            assert forall|j: int| 0 <= j < i implies #[trigger] pre[j] == cur[j] by {}
        }
        let mut k: usize = 0;
        proof {
            assert forall|m: int| 0 <= m < groups.len() implies #[trigger] groups@[m].first < i by {
                assert(gv[m].0 == groups@[m].first);
            }
        }
        while k < groups.len() && paths[groups[k].first] != paths[i]
            invariant
                k <= groups.len(),
                gv == groups_view(groups@),
                well_grouped(gv, pre),
                pre == pv.take(i as int),
                i < paths.len(),
                pv == paths.deep_view(),
                forall|m: int| 0 <= m < k ==> pv[gv[m].0] != pv[i as int],
                forall|m: int| 0 <= m < groups.len() ==> #[trigger] groups@[m].first < i,
            decreases groups.len() - k,
        {
            k += 1;
        }
        if k < groups.len() {
            let g = HitGroup { first: groups[k].first, repeats: groups[k].repeats + 1 };
            groups[k] = g;
            proof {
                assert(has_group(gv, cur, cur.last())) by {
                    assert(cur[gv[k as int].0] == pv[gv[k as int].0]);
                }
                let c = choose|c: int| 0 <= c < gv.len() && cur[gv[c].0] == cur.last();
                if c != k {
                    assert(pre[gv[c].0] == cur[gv[c].0]);
                    assert(pre[gv[k as int].0] == cur[gv[k as int].0]);
                }
                assert(groups_view(groups@) =~= gv.update(k as int, (gv[k as int].0, gv[k as int].1 + 1)));
            }
        } else {
            groups.push(HitGroup { first: i, repeats: 0 });
            proof {
                assert(!has_group(gv, cur, cur.last())) by {
                    assert forall|m: int| 0 <= m < gv.len() implies cur[gv[m].0] != cur.last() by {
                        assert(cur[gv[m].0] == pv[gv[m].0]);
                    }
                }
                assert(groups_view(groups@) =~= gv.push((i as int, 0)));
            }
        }
        i += 1;
        proof {
            let g2 = groups_view(groups@);
            assert forall|a: int, b: int| 0 <= a < b < g2.len() implies cur[#[trigger] g2[a].0] != cur[#[trigger] g2[b].0] by {
                if b < gv.len() {
                    assert(cur[g2[a].0] == pre[gv[a].0]);
                    assert(cur[g2[b].0] == pre[gv[b].0]);
                }
            }
        }
    }
    proof {
        assert(pv.take(paths.len() as int) =~= pv);
    }
    let ghost full = groups_view(groups@);
    groups.truncate(limit);
    proof {
        let n = if limit < full.len() { limit as int } else { full.len() as int };
        assert(groups_view(groups@) =~= full.take(n));
    }
    groups
}

/// A link between two documents, as the link queries return it: the
/// document at the other end and the target as written.
pub struct Link {
    pub target: String,
    pub raw_target: Option<String>,
}

/// A document reachable through the link graph, with its smallest hop count.
pub struct ReachableNode {
    pub path: String,
    pub depth: i64,
}

/// A document's text and the tags of its front matter.
pub struct DocumentContent {
    pub path: String,
    pub content: String,
    pub tags: Vec<String>,
}

/// The record returned for a document that was read: its path as asked,
/// its content, and its front-matter tags.
pub fn document_content(path: &str, content: String) -> (d: DocumentContent)
    ensures
        d.path@ == path@,
        d.content@ == content@,
        d.tags.deep_view() == doc_tags(content@),
{
    let tags = match parse_frontmatter(content.as_str()) {
        Some(fm) => extract_tags(&fm),
        None => Vec::new(),
    };
    DocumentContent { path: path.to_owned(), content, tags }
}

} // verus!
