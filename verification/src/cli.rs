//! The decisions of the command-line front end: its argument records, the
//! literal-query fallback of `search`, its error messages, and the tag
//! statistics of `tags`.
use vstd::prelude::*;
use crate::text::{chars_of, string_from_chars, contains_chars, matches_at, same_chars, contains_seq, starts_with_seq, occurs_at};
use crate::search::{escape_fts5_query, fts5_literal};
use crate::frontmatter::{char_is_whitespace, is_white_space};
use crate::order::{text_lt, text_less, lemma_text_lt_irreflexive, lemma_text_lt_asymmetric,
    lemma_text_lt_transitive, lemma_text_lt_total};

verus! {

/// Arguments of `list`.
pub struct ListArgs {
    /// Output results as compact JSON
    pub json: bool,
}

/// Arguments of `stats`.
pub struct StatsArgs {
    /// Output results as compact JSON
    pub json: bool,
}

/// Arguments of `tags`.
pub struct TagsArgs {
    /// Output results as compact JSON
    pub json: bool,
}

// ------------------------------------------------------------------
// search
// ------------------------------------------------------------------

/// The query that `search` runs: escaped as a literal phrase when asked to.
pub fn effective_query(query: &str, literal: bool) -> (q: String)
    ensures
        q@ == if literal { fts5_literal(query@) } else { query@ },
{
    if literal {
        escape_fts5_query(query)
    } else {
        query.to_owned()
    }
}

/// An error message from the FTS5 engine that reports bad query syntax.
pub open spec fn fts5_syntax_message(s: Seq<char>) -> bool {
    contains_seq(s, "fts5: syntax error"@) || s == "unterminated string"@ || (starts_with_seq(s, "fts5:"@)
        && contains_seq(s, "syntax"@))
}

/// Messages that report bad FTS5 syntax: any that holds
/// `fts5: syntax error`, the message `unterminated string`, and any that
/// starts with `fts5:` and holds `syntax`; a message that holds no `fts5:`
/// and is not `unterminated string` is some other failure.
pub proof fn lemma_fts5_syntax_messages(s: Seq<char>, i: int)
    ensures
        0 <= i && i + 18 <= s.len() && s.subrange(i, i + 18) == "fts5: syntax error"@ ==> fts5_syntax_message(s),
        s == "unterminated string"@ ==> fts5_syntax_message(s),
        (s.len() >= 5 && s.take(5) == "fts5:"@ && 0 <= i && i + 6 <= s.len() && s.subrange(i, i + 6) == "syntax"@)
            ==> fts5_syntax_message(s),
        (!contains_seq(s, "fts5:"@) && s != "unterminated string"@) ==> !fts5_syntax_message(s),
{
    reveal_strlit("fts5: syntax error");
    reveal_strlit("fts5:");
    reveal_strlit("syntax");
    if 0 <= i && i + 18 <= s.len() && s.subrange(i, i + 18) == "fts5: syntax error"@ {
        assert(occurs_at(s, "fts5: syntax error"@, i));
    }
    if s.len() >= 5 && s.take(5) == "fts5:"@ {
        assert(s.subrange(0, 5) =~= s.take(5));
        assert(occurs_at(s, "fts5:"@, 0));
        if 0 <= i && i + 6 <= s.len() && s.subrange(i, i + 6) == "syntax"@ {
            assert(occurs_at(s, "syntax"@, i));
        }
    }
    if !contains_seq(s, "fts5:"@) {
        assert(!occurs_at(s, "fts5:"@, 0));
        assert forall|k: int| !occurs_at(s, "fts5: syntax error"@, k) by {
            if occurs_at(s, "fts5: syntax error"@, k) {
                assert(s.subrange(k, k + 5) =~= s.subrange(k, k + 18).subrange(0, 5));
                assert("fts5: syntax error"@.subrange(0, 5) =~= "fts5:"@);
                assert(occurs_at(s, "fts5:"@, k));
            }
        }
    }
}

/// Does any message of an error's chain (outermost first) report bad FTS5 syntax?
pub fn is_fts5_syntax_error(chain: &Vec<String>) -> (r: bool)
    ensures
        r == exists|i: int| 0 <= i < chain.len() && fts5_syntax_message(#[trigger] chain.deep_view()[i]),
{
    let p1 = chars_of("fts5: syntax error");
    let p2 = chars_of("unterminated string");
    let p3 = chars_of("fts5:");
    let p4 = chars_of("syntax");
    let mut i: usize = 0;
    while i < chain.len()
        invariant
            i <= chain.len(),
            p1@ == "fts5: syntax error"@,
            p2@ == "unterminated string"@,
            p3@ == "fts5:"@,
            p4@ == "syntax"@,
            forall|j: int| 0 <= j < i ==> !fts5_syntax_message(#[trigger] chain.deep_view()[j]),
        decreases chain.len() - i,
    {
        let s = chars_of(chain[i].as_str());
        proof {
            assert(chain.deep_view()[i as int] == s@);
        }
        if contains_chars(&s, &p1) || same_chars(&s, &p2) || (matches_at(&s, &p3, 0) && contains_chars(&s, &p4)) {
            return true;
        }
        i += 1;
    }
    false
}

/// Rust's `Debug` rendering of a string (`format!("{:?}", s)`): quoted,
/// with escapes.
pub uninterp spec fn debug_str(s: Seq<char>) -> Seq<char>;

/// `format!("{:?}", s)` for a string; the rendering is named, not stated.
#[verifier::external_body]
pub fn debug_quoted(s: &str) -> (r: String)
    ensures
        r@ == debug_str(s@),
{
    format!("{:?}", s)
}

/// The help text between an invalid query's cause and its quoted form.
pub open spec fn fts5_help() -> Seq<char> {
    "\n\nFTS5 reserved syntax:\n  - `-term` = NOT, `+term` = required, `\"phrase\"` = exact phrase, `prefix*` = suffix wildcard\n  - Keywords: AND, OR, NOT, NEAR (case-insensitive)\n\nTo search for this exact string, rerun with `--literal` or use the quoted form: "@
}

/// The message for a query that FTS5 rejects: the query, the cause, a
/// summary of the reserved syntax and the literal form of the query.
pub fn friendly_fts5_error(query: &str, cause: &str) -> (msg: String)
    ensures
        msg@ == "Invalid FTS5 search query: "@ + debug_str(query@) + "\n  Cause: "@ + cause@ + fts5_help()
            + fts5_literal(query@) + "."@,
{
    let escaped = escape_fts5_query(query);
    let mut msg = "Invalid FTS5 search query: ".to_owned();
    let d = debug_quoted(query);
    msg.append(d.as_str());
    msg.append("\n  Cause: ");
    msg.append(cause);
    msg.append("\n\nFTS5 reserved syntax:\n  - `-term` = NOT, `+term` = required, `\"phrase\"` = exact phrase, `prefix*` = suffix wildcard\n  - Keywords: AND, OR, NOT, NEAR (case-insensitive)\n\nTo search for this exact string, rerun with `--literal` or use the quoted form: ");
    msg.append(escaped.as_str());
    msg.append(".");
    msg
}

/// What `search` does after its first query failed.
pub enum SearchFallback {
    /// Run the query again as a literal phrase (and note that it did).
    RetryLiteral,
    /// Report the invalid query with [`friendly_fts5_error`].
    ReportSyntax,
    /// Report the failure as it is.
    ReportFailure,
}

/// A query with bad FTS5 syntax is retried as a literal phrase, unless it
/// already was one; then the syntax is reported. Other failures are
/// reported as they are.
pub fn fallback_after_error(literal: bool, syntax_error: bool) -> (f: SearchFallback)
    ensures
        f is RetryLiteral <==> (!literal && syntax_error),
        f is ReportSyntax <==> (literal && syntax_error),
        f is ReportFailure <==> !syntax_error,
{
    if !literal && syntax_error {
        SearchFallback::RetryLiteral
    } else if syntax_error {
        SearchFallback::ReportSyntax
    } else {
        SearchFallback::ReportFailure
    }
}

// ------------------------------------------------------------------
// approve-edits
// ------------------------------------------------------------------

/// The paths an approval is scoped to: none (everything) with `--all`.
pub fn approval_scope(all: bool, paths: &Vec<String>) -> (r: Vec<String>)
    ensures
        r.deep_view() == if all { Seq::<Seq<char>>::empty() } else { paths.deep_view() },
{
    if all {
        Vec::new()
    } else {
        let r = paths.clone();
        proof {
            assert(r.deep_view() =~= paths.deep_view()) by {
                assert forall|i: int| 0 <= i < r.len() implies r.deep_view()[i] == paths.deep_view()[i] by {
                    assert(vstd::pervasive::cloned(paths@[i], r@[i]));
                }
            }
        }
        r
    }
}


// ------------------------------------------------------------------
// tags
// ------------------------------------------------------------------

/// The scan behind `str::split_whitespace`: words finished so far and the
/// word being read.
pub open spec fn word_scan(s: Seq<char>) -> (Seq<Seq<char>>, Seq<char>)
    decreases s.len(),
{
    if s.len() == 0 {
        (Seq::empty(), Seq::empty())
    } else {
        let prev = word_scan(s.drop_last());
        let c = s.last();
        if is_white_space(c) {
            if prev.1.len() > 0 {
                (prev.0.push(prev.1), Seq::empty())
            } else {
                prev
            }
        } else {
            (prev.0, prev.1.push(c))
        }
    }
}

/// The words of a text: its maximal runs of non-white-space characters.
pub open spec fn words_of(s: Seq<char>) -> Seq<Seq<char>> {
    let st = word_scan(s);
    if st.1.len() > 0 {
        st.0.push(st.1)
    } else {
        st.0
    }
}

proof fn lemma_scan_no_space(s: Seq<char>)
    requires
        forall|i: int| 0 <= i < s.len() ==> !is_white_space(#[trigger] s[i]),
    ensures
        word_scan(s) == (Seq::<Seq<char>>::empty(), s),
    decreases s.len(),
{
    if s.len() > 0 {
        let d = s.drop_last();
        assert forall|i: int| 0 <= i < d.len() implies !is_white_space(#[trigger] d[i]) by {
            assert(d[i] == s[i]);
        }
        lemma_scan_no_space(d);
        assert(!is_white_space(s[s.len() - 1]));
        assert(d.push(s.last()) =~= s);
    }
}

/// Words are split only at white space: a non-empty text without white
/// space is one word, the whole text (so a tag such as `machine-learning`
/// is counted whole).
pub proof fn lemma_text_without_space_is_one_word(s: Seq<char>)
    requires
        s.len() > 0,
        forall|i: int| 0 <= i < s.len() ==> !is_white_space(#[trigger] s[i]),
    ensures
        words_of(s) == seq![s],
{
    lemma_scan_no_space(s);
    assert(Seq::<Seq<char>>::empty().push(s) =~= seq![s]);
}

/// Two words with white space between them are two words.
pub proof fn lemma_space_separates_words(a: Seq<char>, w: char, b: Seq<char>)
    requires
        a.len() > 0,
        b.len() > 0,
        is_white_space(w),
        forall|i: int| 0 <= i < a.len() ==> !is_white_space(#[trigger] a[i]),
        forall|i: int| 0 <= i < b.len() ==> !is_white_space(#[trigger] b[i]),
    ensures
        words_of(a + seq![w] + b) == seq![a, b],
    decreases b.len(),
{
    lemma_scan_after_space(a, w, b);
    assert(seq![a].push(b) =~= seq![a, b]);
}

proof fn lemma_scan_after_space(a: Seq<char>, w: char, b: Seq<char>)
    requires
        a.len() > 0,
        is_white_space(w),
        forall|i: int| 0 <= i < a.len() ==> !is_white_space(#[trigger] a[i]),
        forall|i: int| 0 <= i < b.len() ==> !is_white_space(#[trigger] b[i]),
    ensures
        word_scan(a + seq![w] + b) == (seq![a], b),
    decreases b.len(),
{
    if b.len() == 0 {
        lemma_scan_no_space(a);
        let t = a + seq![w] + b;
        assert(t.drop_last() =~= a);
        assert(t.last() == w);
        assert(Seq::<Seq<char>>::empty().push(a) =~= seq![a]);
    } else {
        let d = b.drop_last();
        assert forall|i: int| 0 <= i < d.len() implies !is_white_space(#[trigger] d[i]) by {
            assert(d[i] == b[i]);
        }
        lemma_scan_after_space(a, w, d);
        let t = a + seq![w] + b;
        assert(t.drop_last() =~= a + seq![w] + d);
        assert(t.last() == b[b.len() - 1]);
        assert(d.push(b.last()) =~= b);
    }
}

/// The words of all rows, in order.
pub open spec fn all_words(rows: Seq<Seq<char>>) -> Seq<Seq<char>>
    decreases rows.len(),
{
    if rows.len() == 0 {
        Seq::empty()
    } else {
        all_words(rows.drop_last()) + words_of(rows.last())
    }
}

/// How many times `t` occurs in `ws`.
pub open spec fn count_of(ws: Seq<Seq<char>>, t: Seq<char>) -> nat
    decreases ws.len(),
{
    if ws.len() == 0 {
        0
    } else {
        count_of(ws.drop_last(), t) + if ws.last() == t {
            1nat
        } else {
            0nat
        }
    }
}

/// The words of `ws`, each kept at its first occurrence only.
pub open spec fn uniq(ws: Seq<Seq<char>>) -> Seq<Seq<char>>
    decreases ws.len(),
{
    if ws.len() == 0 {
        Seq::empty()
    } else {
        let p = uniq(ws.drop_last());
        if p.contains(ws.last()) {
            p
        } else {
            p.push(ws.last())
        }
    }
}

/// The tags of every row, each row's tags counted once, in order.
pub open spec fn row_tags(rows: Seq<Seq<char>>) -> Seq<Seq<char>>
    decreases rows.len(),
{
    if rows.len() == 0 {
        Seq::empty()
    } else {
        row_tags(rows.drop_last()) + uniq(words_of(rows.last()))
    }
}

/// How many rows (documents) carry the tag `t`.
pub open spec fn docs_with(rows: Seq<Seq<char>>, t: Seq<char>) -> nat
    decreases rows.len(),
{
    if rows.len() == 0 {
        0
    } else {
        docs_with(rows.drop_last(), t) + if words_of(rows.last()).contains(t) {
            1nat
        } else {
            0nat
        }
    }
}

/// The order of the tag table: more documents first, then by name.
pub open spec fn tag_before(a: (Seq<char>, i64), b: (Seq<char>, i64)) -> bool {
    a.1 > b.1 || (a.1 == b.1 && text_lt(a.0, b.0))
}

/// The tag table's order: a tag carried by more documents comes first, and
/// of two carried by as many, the one whose name comes first.
pub proof fn lemma_tag_table_order(a: (Seq<char>, i64), b: (Seq<char>, i64))
    requires
        tag_before(a, b),
    ensures
        a.1 >= b.1,
        a.1 == b.1 ==> text_lt(a.0, b.0),
{
}

pub open spec fn char_seqs(v: Seq<Vec<char>>) -> Seq<Seq<char>> {
    v.map_values(|w: Vec<char>| w@)
}

pub open spec fn counted_view(v: Seq<(Vec<char>, i64)>) -> Seq<(Seq<char>, i64)> {
    v.map_values(|e: (Vec<char>, i64)| (e.0@, e.1))
}

pub open spec fn tag_table_view(v: Seq<(String, i64)>) -> Seq<(Seq<char>, i64)> {
    v.map_values(|e: (String, i64)| (e.0@, e.1))
}

proof fn lemma_count_le(ws: Seq<Seq<char>>, t: Seq<char>)
    ensures
        count_of(ws, t) <= ws.len(),
        count_of(ws, t) > 0 <==> ws.contains(t),
    decreases ws.len(),
{
    if ws.len() > 0 {
        lemma_count_le(ws.drop_last(), t);
        if ws.drop_last().contains(t) {
            let k = choose|k: int| 0 <= k < ws.drop_last().len() && ws.drop_last()[k] == t;
            assert(ws[k] == t);
        }
        if ws.contains(t) && ws.last() != t {
            let k = choose|k: int| 0 <= k < ws.len() && ws[k] == t;
            assert(ws.drop_last()[k] == t);
        }
    }
}

proof fn lemma_uniq(ws: Seq<Seq<char>>, t: Seq<char>)
    ensures
        uniq(ws).contains(t) <==> ws.contains(t),
        count_of(uniq(ws), t) == (if ws.contains(t) { 1nat } else { 0nat }),
        uniq(ws).len() <= ws.len(),
    decreases ws.len(),
{
    if ws.len() > 0 {
        let d = ws.drop_last();
        let w = ws.last();
        let p = uniq(d);
        lemma_uniq(d, t);
        lemma_uniq(d, w);
        assert(ws.contains(t) <==> (d.contains(t) || t == w)) by {
            if ws.contains(t) && t != w {
                let k = choose|k: int| 0 <= k < ws.len() && ws[k] == t;
                assert(d[k] == t);
            }
            if d.contains(t) {
                let k = choose|k: int| 0 <= k < d.len() && d[k] == t;
                assert(ws[k] == t);
            }
            if t == w {
                assert(ws[ws.len() - 1] == t);
            }
        }
        if !p.contains(w) {
            let q = p.push(w);
            assert(q.drop_last() =~= p);
            assert(q.contains(t) <==> (p.contains(t) || t == w)) by {
                if q.contains(t) && t != w {
                    let k = choose|k: int| 0 <= k < q.len() && q[k] == t;
                    assert(p[k] == t);
                }
                if p.contains(t) {
                    let k = choose|k: int| 0 <= k < p.len() && p[k] == t;
                    assert(q[k] == t);
                }
                if t == w {
                    assert(q[q.len() - 1] == t);
                }
            }
            lemma_count_le(p, t);
        }
    }
}

proof fn lemma_count_concat(a: Seq<Seq<char>>, b: Seq<Seq<char>>, t: Seq<char>)
    ensures
        count_of(a + b, t) == count_of(a, t) + count_of(b, t),
    decreases b.len(),
{
    if b.len() > 0 {
        assert((a + b).drop_last() =~= a + b.drop_last());
        lemma_count_concat(a, b.drop_last(), t);
    } else {
        assert(a + b =~= a);
    }
}

/// Counting the per-row tags counts the documents that carry each tag.
proof fn lemma_row_tags(rows: Seq<Seq<char>>, t: Seq<char>)
    ensures
        count_of(row_tags(rows), t) == docs_with(rows, t),
        row_tags(rows).len() <= all_words(rows).len(),
    decreases rows.len(),
{
    if rows.len() > 0 {
        lemma_row_tags(rows.drop_last(), t);
        lemma_uniq(words_of(rows.last()), t);
        lemma_count_concat(row_tags(rows.drop_last()), uniq(words_of(rows.last())), t);
    }
}

/// The words of `ws`, each kept at its first occurrence only.
fn unique_words(ws: Vec<Vec<char>>) -> (r: Vec<Vec<char>>)
    ensures
        char_seqs(r@) == uniq(char_seqs(ws@)),
{
    let ghost wv = char_seqs(ws@);
    let mut r: Vec<Vec<char>> = Vec::new();
    let mut i: usize = 0;
    while i < ws.len()
        invariant
            i <= ws.len(),
            wv == char_seqs(ws@),
            char_seqs(r@) == uniq(wv.take(i as int)),
        decreases ws.len() - i,
    {
        proof {
            assert(wv.take(i + 1).drop_last() =~= wv.take(i as int));
            assert(wv.take(i + 1).last() == ws@[i as int]@);
        }
        let ghost rv = char_seqs(r@);
        let mut k: usize = 0;
        while k < r.len() && !same_chars(&r[k], &ws[i])
            invariant
                k <= r.len(),
                rv == char_seqs(r@),
                i < ws.len(),
                forall|m: int| 0 <= m < k ==> rv[m] != ws@[i as int]@,
            decreases r.len() - k,
        {
            k += 1;
        }
        if k == r.len() {
            proof {
                assert(!rv.contains(ws@[i as int]@));
            }
            let w = ws[i].clone();
            r.push(w);
            proof {
                assert(char_seqs(r@) =~= rv.push(ws@[i as int]@));
            }
        } else {
            proof {
                assert(rv[k as int] == ws@[i as int]@);
                assert(rv.contains(ws@[i as int]@));
            }
        }
        i += 1;
    }
    proof {
        assert(wv.take(ws.len() as int) =~= wv);
    }
    r
}

/// Split a text into words at white space (`str::split_whitespace`).
fn split_words(s: &str) -> (ws: Vec<Vec<char>>)
    ensures
        char_seqs(ws@) == words_of(s@),
{
    let c = chars_of(s);
    let mut done: Vec<Vec<char>> = Vec::new();
    let mut cur: Vec<char> = Vec::new();
    let mut j: usize = 0;
    while j < c.len()
        invariant
            j <= c.len(),
            (char_seqs(done@), cur@) == word_scan(c@.take(j as int)),
        decreases c.len() - j,
    {
        proof {
            assert(c@.take(j + 1).drop_last() =~= c@.take(j as int));
        }
        let ch = c[j];
        if char_is_whitespace(ch) {
            if cur.len() > 0 {
                let ghost before = char_seqs(done@);
                let ghost cv = cur@;
                done.push(cur);
                cur = Vec::new();
                proof {
                    assert(char_seqs(done@) =~= before.push(cv));
                }
            }
        } else {
            cur.push(ch);
        }
        j += 1;
    }
    proof {
        assert(c@.take(c.len() as int) =~= c@);
    }
    if cur.len() > 0 {
        let ghost before = char_seqs(done@);
        let ghost cv = cur@;
        done.push(cur);
        proof {
            assert(char_seqs(done@) =~= before.push(cv));
        }
    }
    done
}

proof fn lemma_tag_before_props(a: (Seq<char>, i64), b: (Seq<char>, i64), c: (Seq<char>, i64))
    ensures
        !tag_before(a, a),
        !(tag_before(a, b) && tag_before(b, a)),
        tag_before(a, b) && tag_before(b, c) ==> tag_before(a, c),
        a.0 != b.0 ==> tag_before(a, b) || tag_before(b, a),
{
    lemma_text_lt_irreflexive(a.0);
    lemma_text_lt_asymmetric(a.0, b.0);
    lemma_text_lt_total(a.0, b.0);
    if text_lt(a.0, b.0) && text_lt(b.0, c.0) {
        lemma_text_lt_transitive(a.0, b.0, c.0);
    }
}

/// Count the tags of the tag index (one space-separated row per document):
/// for each tag the number of documents that carry it, ordered by that
/// number, most first, then by name.
pub fn tag_counts(rows: &Vec<String>) -> (table: Vec<(String, i64)>)
    requires
        all_words(rows.deep_view()).len() <= i64::MAX,
    ensures
        forall|i: int|
            0 <= i < table.len() ==> (#[trigger] tag_table_view(table@)[i]).1 == docs_with(
                rows.deep_view(),
                tag_table_view(table@)[i].0,
            ) && docs_with(rows.deep_view(), tag_table_view(table@)[i].0) > 0,
        forall|t: Seq<char>|
            #[trigger] docs_with(rows.deep_view(), t) > 0 ==> exists|i: int|
                0 <= i < table.len() && tag_table_view(table@)[i].0 == t,
        forall|i: int, j: int|
            0 <= i < j < table.len() ==> tag_before(
                #[trigger] tag_table_view(table@)[i],
                #[trigger] tag_table_view(table@)[j],
            ),
{
    let ghost rv = rows.deep_view();
    // All words, row by row.
    let mut ws: Vec<Vec<char>> = Vec::new();
    let mut r: usize = 0;
    while r < rows.len()
        invariant
            r <= rows.len(),
            rv == rows.deep_view(),
            char_seqs(ws@) == row_tags(rv.take(r as int)),
        decreases rows.len() - r,
    {
        proof {
            assert(rv.take(r + 1).drop_last() =~= rv.take(r as int));
            assert(rv.take(r + 1).last() == rows@[r as int]@);
        }
        let mut row_words = unique_words(split_words(rows[r].as_str()));
        let ghost before = char_seqs(ws@);
        let ghost added = char_seqs(row_words@);
        ws.append(&mut row_words);
        proof {
            assert(char_seqs(ws@) =~= before + added);
        }
        r += 1;
    }
    proof {
        assert(rv.take(rows.len() as int) =~= rv);
        lemma_row_tags(rv, Seq::empty());
    }
    let ghost wv = char_seqs(ws@);
    // Counts, in first-occurrence order.
    let mut counts: Vec<(Vec<char>, i64)> = Vec::new();
    let mut i: usize = 0;
    while i < ws.len()
        invariant
            i <= ws.len(),
            wv == char_seqs(ws@),
            wv.len() <= i64::MAX,
            forall|k: int| 0 <= k < counts.len() ==> (#[trigger] counted_view(counts@)[k]).1 == count_of(
                wv.take(i as int),
                counted_view(counts@)[k].0,
            ) && wv.take(i as int).contains(counted_view(counts@)[k].0),
            forall|t: Seq<char>| #[trigger] wv.take(i as int).contains(t) ==> exists|k: int|
                0 <= k < counts.len() && counted_view(counts@)[k].0 == t,
            forall|a: int, b: int| 0 <= a < b < counts.len() ==> #[trigger] counted_view(counts@)[a].0 != #[trigger] counted_view(counts@)[b].0,
        decreases ws.len() - i,
    {
        let ghost pre = wv.take(i as int);
        let ghost post = wv.take(i + 1);
        let ghost cv0 = counted_view(counts@);
        proof {
            assert(post.drop_last() =~= pre);
            assert(post.last() == ws@[i as int]@);
            assert forall|t: Seq<char>| t != ws@[i as int]@ implies count_of(post, t) == count_of(pre, t) by {}
            assert forall|t: Seq<char>| #[trigger] post.contains(t) <==> (pre.contains(t) || t == ws@[i as int]@) by {
                if post.contains(t) && t != ws@[i as int]@ {
                    let k = choose|k: int| 0 <= k < post.len() && post[k] == t;
                    assert(pre[k] == t);
                }
                if pre.contains(t) {
                    let k = choose|k: int| 0 <= k < pre.len() && pre[k] == t;
                    assert(post[k] == t);
                }
                if t == ws@[i as int]@ {
                    assert(post[i as int] == t);
                }
            }
        }
        let mut k: usize = 0;
        while k < counts.len() && !same_chars(&counts[k].0, &ws[i])
            invariant
                k <= counts.len(),
                cv0 == counted_view(counts@),
                i < ws.len(),
                forall|m: int| 0 <= m < k ==> cv0[m].0 != ws@[i as int]@,
            decreases counts.len() - k,
        {
            k += 1;
        }
        if k < counts.len() {
            proof {
                assert(cv0[k as int].0 == ws@[i as int]@);
                lemma_count_le(pre, cv0[k as int].0);
                lemma_count_le(post, cv0[k as int].0);
            }
            let c = counts[k].1 + 1;
            let w = counts[k].0.clone();
            counts[k] = (w, c);
            proof {
                assert(counted_view(counts@) =~= cv0.update(k as int, (cv0[k as int].0, c)));
            }
        } else {
            let w = ws[i].clone();
            counts.push((w, 1));
            proof {
                assert(counted_view(counts@) =~= cv0.push((ws@[i as int]@, 1)));
                assert(!pre.contains(ws@[i as int]@)) by {
                    if pre.contains(ws@[i as int]@) {
                        let m = choose|m: int| 0 <= m < cv0.len() && cv0[m].0 == ws@[i as int]@;
                    }
                }
                lemma_count_le(pre, ws@[i as int]@);
            }
        }
        i += 1;
        proof {
            let cv = counted_view(counts@);
            assert forall|t: Seq<char>| #[trigger] post.contains(t) implies exists|m: int|
                0 <= m < counts.len() && cv[m].0 == t by {
                if t == ws@[(i - 1) as int]@ {
                    if k < cv0.len() {
                        assert(cv[k as int].0 == t);
                    } else {
                        assert(cv[cv0.len() as int].0 == t);
                    }
                } else {
                    assert(pre.contains(t));
                    let m = choose|m: int| 0 <= m < cv0.len() && cv0[m].0 == t;
                    assert(cv[m].0 == t);
                }
            }
        }
    }
    proof {
        assert(wv.take(ws.len() as int) =~= wv);
    }
    let ghost cv = counted_view(counts@);
    // Order by count, then by name.
    let mut sorted: Vec<(Vec<char>, i64)> = Vec::new();
    let mut n: usize = 0;
    while n < counts.len()
        invariant
            n <= counts.len(),
            cv == counted_view(counts@),
            forall|a: int, b: int| 0 <= a < b < cv.len() ==> #[trigger] cv[a].0 != #[trigger] cv[b].0,
            forall|a: int, b: int|
                0 <= a < b < sorted.len() ==> tag_before(#[trigger] counted_view(sorted@)[a], #[trigger] counted_view(sorted@)[b]),
            forall|x: (Seq<char>, i64)| #[trigger] counted_view(sorted@).contains(x) <==> cv.take(n as int).contains(x),
        decreases counts.len() - n,
    {
        let ghost sv = counted_view(sorted@);
        let e = (counts[n].0.clone(), counts[n].1);
        let ghost ev = (e.0@, e.1);
        proof {
            assert(ev == cv[n as int]);
        }
        let mut p: usize = 0;
        while p < sorted.len() && (sorted[p].1 > e.1 || (sorted[p].1 == e.1 && text_less(&sorted[p].0, &e.0)))
            invariant
                p <= sorted.len(),
                sv == counted_view(sorted@),
                ev == (e.0@, e.1),
                forall|m: int| 0 <= m < p ==> tag_before(sv[m], ev),
            decreases sorted.len() - p,
        {
            p += 1;
        }
        sorted.insert(p, e);
        proof {
            let nv = counted_view(sorted@);
            assert(nv =~= sv.insert(p as int, ev));
            // the new entry's tag is not among the sorted ones
            assert forall|m: int| 0 <= m < sv.len() implies sv[m].0 != ev.0 by {
                assert(cv.take(n as int).contains(sv[m])) by {
                    assert(sv.contains(sv[m]));
                }
                let c0 = cv.take(n as int);
                let q = choose|q: int| 0 <= q < c0.len() && c0[q] == sv[m];
                assert(cv[q] == sv[m]);
            }
            if p < sv.len() {
                lemma_tag_before_props(sv[p as int], ev, ev);
            }
            assert forall|a: int, b: int| 0 <= a < b < nv.len() implies tag_before(#[trigger] nv[a], #[trigger] nv[b]) by {
                if b < p {
                    assert(nv[a] == sv[a] && nv[b] == sv[b]);
                } else if b == p {
                    assert(nv[a] == sv[a]);
                } else if a == p {
                    assert(nv[b] == sv[b - 1]);
                    if b - 1 > p {
                        lemma_tag_before_props(ev, sv[p as int], sv[b - 1]);
                    }
                } else if a < p {
                    assert(nv[a] == sv[a] && nv[b] == sv[b - 1]);
                } else {
                    assert(nv[a] == sv[a - 1] && nv[b] == sv[b - 1]);
                }
            }
            let ghost c1 = cv.take(n + 1);
            let ghost c0 = cv.take(n as int);
            assert forall|x: (Seq<char>, i64)| #[trigger] nv.contains(x) <==> c1.contains(x) by {
                if nv.contains(x) {
                    let q = choose|q: int| 0 <= q < nv.len() && nv[q] == x;
                    if q == p {
                        assert(c1[n as int] == x);
                    } else {
                        let q2 = if q < p { q } else { q - 1 };
                        assert(sv[q2] == x);
                        assert(sv.contains(x));
                        let r2 = choose|r2: int| 0 <= r2 < c0.len() && c0[r2] == x;
                        assert(c1[r2] == x);
                    }
                }
                if c1.contains(x) {
                    let q = choose|q: int| 0 <= q < c1.len() && c1[q] == x;
                    if q == n {
                        assert(nv[p as int] == x);
                    } else {
                        assert(c0[q] == x);
                        assert(sv.contains(x));
                        let r2 = choose|r2: int| 0 <= r2 < sv.len() && sv[r2] == x;
                        if r2 < p {
                            assert(nv[r2] == x);
                        } else {
                            assert(nv[r2 + 1] == x);
                        }
                    }
                }
            }
        }
        n += 1;
    }
    proof {
        assert(cv.take(counts.len() as int) =~= cv);
    }
    let ghost sv = counted_view(sorted@);
    let mut table: Vec<(String, i64)> = Vec::new();
    let mut m: usize = 0;
    while m < sorted.len()
        invariant
            m <= sorted.len(),
            sv == counted_view(sorted@),
            tag_table_view(table@) == sv.take(m as int),
        decreases sorted.len() - m,
    {
        let name = string_from_chars(&sorted[m].0);
        let ghost before = tag_table_view(table@);
        let ghost item = (name@, sorted@[m as int].1);
        assert(item == sv[m as int]);
        table.push((name, sorted[m].1));
        proof {
            assert(tag_table_view(table@) =~= before.push(item));
            assert(sv.take(m + 1) =~= sv.take(m as int).push(item));
        }
        m += 1;
    }
    proof {
        assert(sv.take(sorted.len() as int) =~= sv);
        let tv = tag_table_view(table@);
        let aw = row_tags(rv);
        assert forall|x: int| 0 <= x < table.len() implies (#[trigger] tv[x]).1 == docs_with(rv, tv[x].0) && docs_with(rv, tv[x].0) > 0 by {
            assert(sv.contains(tv[x]));
            assert(cv.contains(tv[x]));
            let q = choose|q: int| 0 <= q < cv.len() && cv[q] == tv[x];
            lemma_row_tags(rv, tv[x].0);
            lemma_count_le(aw, tv[x].0);
        }
        assert forall|t: Seq<char>| #[trigger] docs_with(rv, t) > 0 implies exists|x: int| 0 <= x < table.len() && tv[x].0 == t by {
            lemma_row_tags(rv, t);
            lemma_count_le(aw, t);
            let q = choose|q: int| 0 <= q < cv.len() && cv[q].0 == t;
            assert(cv.contains(cv[q]));
            assert(sv.contains(cv[q]));
            let x = choose|x: int| 0 <= x < sv.len() && sv[x] == cv[q];
            assert(tv[x].0 == t);
        }
    }
    table
}

} // verus!
