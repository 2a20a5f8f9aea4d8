//! The order in which the indexer sorts links: text compared character by
//! character (the order of `String`), then the external flag, then the anchor.
use vstd::prelude::*;
use crate::text::chars_of;
use crate::markdown::{MdLink, LinkView, links_view};

verus! {

/// Strict lexicographic order on texts, by character (code point). On UTF-8 strings this
/// is the order of their bytes, the order of `String`.
pub open spec fn text_lt(a: Seq<char>, b: Seq<char>) -> bool
    decreases a.len(),
{
    if a.len() == 0 {
        b.len() > 0
    } else if b.len() == 0 {
        false
    } else if a[0] != b[0] {
        a[0] < b[0]
    } else {
        text_lt(a.drop_first(), b.drop_first())
    }
}

pub proof fn lemma_text_lt_irreflexive(a: Seq<char>)
    ensures
        !text_lt(a, a),
    decreases a.len(),
{
    if a.len() > 0 {
        lemma_text_lt_irreflexive(a.drop_first());
    }
}

pub proof fn lemma_text_lt_asymmetric(a: Seq<char>, b: Seq<char>)
    ensures
        !(text_lt(a, b) && text_lt(b, a)),
    decreases a.len(),
{
    if a.len() > 0 && b.len() > 0 && a[0] == b[0] {
        lemma_text_lt_asymmetric(a.drop_first(), b.drop_first());
    }
}

pub proof fn lemma_text_lt_transitive(a: Seq<char>, b: Seq<char>, c: Seq<char>)
    requires
        text_lt(a, b),
        text_lt(b, c),
    ensures
        text_lt(a, c),
    decreases a.len(),
{
    if a.len() > 0 && b.len() > 0 && c.len() > 0 && a[0] == b[0] && b[0] == c[0] {
        lemma_text_lt_transitive(a.drop_first(), b.drop_first(), c.drop_first());
    }
}

pub proof fn lemma_text_lt_total(a: Seq<char>, b: Seq<char>)
    ensures
        a == b || text_lt(a, b) || text_lt(b, a),
    decreases a.len(),
{
    if a.len() > 0 && b.len() > 0 && a[0] == b[0] {
        lemma_text_lt_total(a.drop_first(), b.drop_first());
        if a.drop_first() == b.drop_first() {
            assert(a =~= b) by {
                assert forall|i: int| 0 <= i < a.len() implies a[i] == b[i] by {
                    if i > 0 {
                        assert(a[i] == a.drop_first()[i - 1]);
                        assert(b[i] == b.drop_first()[i - 1]);
                    }
                }
            }
        }
    } else if a.len() == 0 && b.len() == 0 {
        assert(a =~= b);
    } else if a.len() > 0 && b.len() > 0 {
        assert(a[0] != b[0]);
    }
}

proof fn lemma_text_lt_skip(a: Seq<char>, b: Seq<char>, k: int)
    requires
        0 <= k <= a.len(),
        k <= b.len(),
        forall|j: int| 0 <= j < k ==> a[j] == b[j],
    ensures
        text_lt(a, b) == text_lt(a.skip(k), b.skip(k)),
    decreases k,
{
    if k > 0 {
        lemma_text_lt_skip(a.drop_first(), b.drop_first(), k - 1);
        assert(a.drop_first().skip(k - 1) =~= a.skip(k));
        assert(b.drop_first().skip(k - 1) =~= b.skip(k));
    } else {
        assert(a.skip(0) =~= a);
        assert(b.skip(0) =~= b);
    }
}

/// Is `a` before `b` in the order of texts?
pub fn text_less(a: &[char], b: &[char]) -> (r: bool)
    ensures
        r == text_lt(a@, b@),
{
    let mut i: usize = 0;
    while i < a.len() && i < b.len() && a[i] == b[i]
        invariant
            i <= a.len(),
            i <= b.len(),
            forall|j: int| 0 <= j < i ==> a@[j] == b@[j],
        decreases a.len() - i,
    {
        i += 1;
    }
    proof {
        lemma_text_lt_skip(a@, b@, i as int);
    }
    if i == a.len() {
        i < b.len()
    } else if i == b.len() {
        false
    } else {
        proof {
            assert(a@.skip(i as int)[0] == a@[i as int]);
            assert(b@.skip(i as int)[0] == b@[i as int]);
        }
        a[i] < b[i]
    }
}

/// Strict order on optional anchors: no anchor first.
pub open spec fn opt_text_lt(a: Option<Seq<char>>, b: Option<Seq<char>>) -> bool {
    match (a, b) {
        (None, Some(_)) => true,
        (Some(x), Some(y)) => text_lt(x, y),
        _ => false,
    }
}

/// The order of `(String, bool, Option<String>)` tuples: by target, then
/// internal before external, then by anchor.
pub open spec fn link_lt(x: LinkView, y: LinkView) -> bool {
    text_lt(x.0, y.0) || (x.0 == y.0 && ((!x.1 && y.1) || (x.1 == y.1 && opt_text_lt(x.2, y.2))))
}

pub proof fn lemma_link_lt_irreflexive(x: LinkView)
    ensures
        !link_lt(x, x),
{
    lemma_text_lt_irreflexive(x.0);
    if let Some(a) = x.2 {
        lemma_text_lt_irreflexive(a);
    }
}

pub proof fn lemma_link_lt_asymmetric(x: LinkView, y: LinkView)
    ensures
        !(link_lt(x, y) && link_lt(y, x)),
{
    lemma_text_lt_asymmetric(x.0, y.0);
    lemma_text_lt_irreflexive(x.0);
    if let (Some(a), Some(b)) = (x.2, y.2) {
        lemma_text_lt_asymmetric(a, b);
    }
}

pub proof fn lemma_link_lt_transitive(x: LinkView, y: LinkView, z: LinkView)
    requires
        link_lt(x, y),
        link_lt(y, z),
    ensures
        link_lt(x, z),
{
    if text_lt(x.0, y.0) && text_lt(y.0, z.0) {
        lemma_text_lt_transitive(x.0, y.0, z.0);
    }
    if let (Some(a), Some(b), Some(c)) = (x.2, y.2, z.2) {
        if text_lt(a, b) && text_lt(b, c) {
            lemma_text_lt_transitive(a, b, c);
        }
    }
}

pub proof fn lemma_link_lt_total(x: LinkView, y: LinkView)
    ensures
        x == y || link_lt(x, y) || link_lt(y, x),
{
    lemma_text_lt_total(x.0, y.0);
    if let (Some(a), Some(b)) = (x.2, y.2) {
        lemma_text_lt_total(a, b);
    }
}

/// `text_less` on two optional strings.
fn opt_less(a: &Option<String>, b: &Option<String>) -> (r: bool)
    ensures
        r == opt_text_lt(crate::markdown::opt_text(*a), crate::markdown::opt_text(*b)),
{
    match (a, b) {
        (None, Some(_)) => true,
        (Some(x), Some(y)) => {
            let xc = chars_of(x.as_str());
            let yc = chars_of(y.as_str());
            text_less(&xc, &yc)
        },
        _ => false,
    }
}

/// Is link `a` before link `b`?
pub fn link_less(a: &MdLink, b: &MdLink) -> (r: bool)
    ensures
        r == link_lt(a@, b@),
{
    let at = chars_of(a.target.as_str());
    let bt = chars_of(b.target.as_str());
    if text_less(&at, &bt) {
        return true;
    }
    if a.target != b.target {
        return false;
    }
    if !a.is_external && b.is_external {
        return true;
    }
    a.is_external == b.is_external && opt_less(&a.anchor, &b.anchor)
}

/// Are two links the same (target, flag, anchor)?
pub fn link_same(a: &MdLink, b: &MdLink) -> (r: bool)
    ensures
        r == (a@ == b@),
{
    let anchors_same = match (&a.anchor, &b.anchor) {
        (None, None) => true,
        (Some(x), Some(y)) => *x == *y,
        _ => false,
    };
    assert(anchors_same == (crate::markdown::opt_text(a.anchor) == crate::markdown::opt_text(b.anchor)));
    let targets_same = a.target == b.target;
    let flags_same = a.is_external == b.is_external;
    targets_same && flags_same && anchors_same
}

/// `t` with `x` put in its place, unless `t` already holds it there.
pub open spec fn insert_sorted(t: Seq<LinkView>, x: LinkView) -> Seq<LinkView>
    decreases t.len(),
{
    if t.len() == 0 {
        seq![x]
    } else if t[0] == x {
        t
    } else if link_lt(x, t[0]) {
        seq![x] + t
    } else {
        seq![t[0]] + insert_sorted(t.drop_first(), x)
    }
}

/// The links of `s`, sorted and with duplicates removed (`sort` then `dedup`).
pub open spec fn sort_dedup(s: Seq<LinkView>) -> Seq<LinkView>
    decreases s.len(),
{
    if s.len() == 0 {
        Seq::empty()
    } else {
        insert_sorted(sort_dedup(s.drop_last()), s.last())
    }
}

pub open spec fn strictly_sorted(t: Seq<LinkView>) -> bool {
    forall|i: int, j: int| 0 <= i < j < t.len() ==> link_lt(#[trigger] t[i], #[trigger] t[j])
}

proof fn lemma_insert_at(t: Seq<LinkView>, x: LinkView, p: int)
    requires
        0 <= p <= t.len(),
        forall|j: int| 0 <= j < p ==> link_lt(#[trigger] t[j], x),
        p < t.len() ==> (t[p] == x || link_lt(x, t[p])),
    ensures
        insert_sorted(t, x) == (if p < t.len() && t[p] == x {
            t
        } else {
            t.insert(p, x)
        }),
    decreases p,
{
    if p == 0 {
        if t.len() > 0 && t[0] != x {
            assert(seq![x] + t =~= t.insert(0, x));
        } else if t.len() == 0 {
            assert(seq![x] =~= t.insert(0, x));
        }
    } else {
        lemma_link_lt_irreflexive(x);
        lemma_link_lt_asymmetric(t[0], x);
        assert(link_lt(t[0], x));
        let d = t.drop_first();
        assert forall|j: int| 0 <= j < p - 1 implies link_lt(#[trigger] d[j], x) by {
            assert(d[j] == t[j + 1]);
        }
        lemma_insert_at(d, x, p - 1);
        if p < t.len() && t[p] == x {
            assert(seq![t[0]] + d =~= t);
        } else {
            assert(seq![t[0]] + d.insert(p - 1, x) =~= t.insert(p, x));
        }
    }
}

proof fn lemma_insert_sorted_props(t: Seq<LinkView>, x: LinkView)
    requires
        strictly_sorted(t),
    ensures
        strictly_sorted(insert_sorted(t, x)),
        insert_sorted(t, x).to_set() == t.to_set().insert(x),
    decreases t.len(),
{
    if t.len() == 0 {
        assert(seq![x].to_set() =~= Set::<LinkView>::empty().insert(x)) by {
            assert(seq![x][0] == x);
        }
        assert(t.to_set() =~= Set::<LinkView>::empty());
    } else if t[0] == x {
        assert(t.to_set().insert(x) =~= t.to_set()) by {
            assert(t.to_set().contains(t[0]));
        }
    } else if link_lt(x, t[0]) {
        let r = seq![x] + t;
        assert forall|i: int, j: int| 0 <= i < j < r.len() implies link_lt(
            #[trigger] r[i],
            #[trigger] r[j],
        ) by {
            if i == 0 {
                if j > 1 {
                    lemma_link_lt_transitive(x, t[0], t[j - 1]);
                }
            } else {
                assert(r[i] == t[i - 1]);
                assert(r[j] == t[j - 1]);
            }
        }
        assert(r.to_set() =~= t.to_set().insert(x)) by {
            assert forall|y: LinkView| r.to_set().contains(y) implies t.to_set().insert(x).contains(y) by {
                let k = choose|k: int| 0 <= k < r.len() && r[k] == y;
                if k > 0 {
                    assert(t[k - 1] == y);
                }
            }
            assert forall|y: LinkView| t.to_set().insert(x).contains(y) implies r.to_set().contains(y) by {
                if y == x {
                    assert(r[0] == x);
                } else {
                    let k = choose|k: int| 0 <= k < t.len() && t[k] == y;
                    assert(r[k + 1] == y);
                }
            }
        }
    } else {
        let d = t.drop_first();
        assert(strictly_sorted(d)) by {
            assert forall|i: int, j: int| 0 <= i < j < d.len() implies link_lt(
                #[trigger] d[i],
                #[trigger] d[j],
            ) by {
                assert(d[i] == t[i + 1]);
                assert(d[j] == t[j + 1]);
            }
        }
        lemma_insert_sorted_props(d, x);
        let rest = insert_sorted(d, x);
        let r = seq![t[0]] + rest;
        lemma_link_lt_total(x, t[0]);
        assert forall|i: int, j: int| 0 <= i < j < r.len() implies link_lt(
            #[trigger] r[i],
            #[trigger] r[j],
        ) by {
            if i == 0 {
                let y = r[j];
                assert(rest[j - 1] == y);
                assert(rest.to_set().contains(y));
                if y == x {
                } else {
                    let k = choose|k: int| 0 <= k < d.len() && d[k] == y;
                    assert(t[k + 1] == y);
                }
            } else {
                assert(r[i] == rest[i - 1]);
                assert(r[j] == rest[j - 1]);
            }
        }
        assert(r.to_set() =~= t.to_set().insert(x)) by {
            assert forall|y: LinkView| r.to_set().contains(y) implies t.to_set().insert(x).contains(y) by {
                let k = choose|k: int| 0 <= k < r.len() && r[k] == y;
                if k == 0 {
                    assert(t[0] == y);
                } else {
                    assert(rest[k - 1] == y);
                    assert(rest.to_set().contains(y));
                    if y != x {
                        let m = choose|m: int| 0 <= m < d.len() && d[m] == y;
                        assert(t[m + 1] == y);
                    }
                }
            }
            assert forall|y: LinkView| t.to_set().insert(x).contains(y) implies r.to_set().contains(y) by {
                if y == t[0] {
                    assert(r[0] == y);
                } else {
                    if y != x {
                        let k = choose|k: int| 0 <= k < t.len() && t[k] == y;
                        assert(k > 0);
                        assert(d[k - 1] == y);
                        assert(d.to_set().contains(y));
                    }
                    assert(rest.to_set().contains(y));
                    let m = choose|m: int| 0 <= m < rest.len() && rest[m] == y;
                    assert(r[m + 1] == y);
                }
            }
        }
    }
}

/// Sorting and deduplicating gives a strictly increasing sequence holding
/// exactly the links of the input.
pub proof fn lemma_sort_dedup_props(s: Seq<LinkView>)
    ensures
        strictly_sorted(sort_dedup(s)),
        sort_dedup(s).to_set() == s.to_set(),
    decreases s.len(),
{
    if s.len() == 0 {
        assert(s.to_set() =~= Set::<LinkView>::empty());
        assert(sort_dedup(s).to_set() =~= Set::<LinkView>::empty());
    } else {
        lemma_sort_dedup_props(s.drop_last());
        lemma_insert_sorted_props(sort_dedup(s.drop_last()), s.last());
        assert(s.to_set() =~= s.drop_last().to_set().insert(s.last())) by {
            assert(s =~= s.drop_last().push(s.last()));
            s.drop_last().lemma_push_to_set_commute(s.last());
        }
    }
}

/// Sort the links and remove duplicates, as `links.sort(); links.dedup();`.
pub fn sort_dedup_links(links: Vec<MdLink>) -> (r: Vec<MdLink>)
    ensures
        links_view(r@) == sort_dedup(links_view(links@)),
        strictly_sorted(links_view(r@)),
        links_view(r@).to_set() == links_view(links@).to_set(),
{
    let mut r: Vec<MdLink> = Vec::new();
    let mut i: usize = 0;
    while i < links.len()
        invariant
            i <= links.len(),
            links_view(r@) == sort_dedup(links_view(links@.take(i as int))),
        decreases links.len() - i,
    {
        proof {
            assert(links_view(links@.take(i + 1)).drop_last() =~= links_view(links@.take(i as int)));
            assert(links_view(links@.take(i + 1)).last() == links@[i as int]@);
        }
        let x = &links[i];
        let mut p: usize = 0;
        while p < r.len() && link_less(&r[p], x)
            invariant
                p <= r.len(),
                forall|j: int| 0 <= j < p ==> link_lt(#[trigger] links_view(r@)[j], x@),
            decreases r.len() - p,
        {
            p += 1;
        }
        proof {
            if p < r.len() {
                lemma_link_lt_total(r@[p as int]@, x@);
            }
            lemma_insert_at(links_view(r@), x@, p as int);
        }
        if p < r.len() && link_same(&r[p], x) {
        } else {
            let c = x.clone_link();
            let ghost before = links_view(r@);
            r.insert(p, c);
            proof {
                assert(links_view(r@) =~= before.insert(p as int, x@)) by {
                    let a = links_view(r@);
                    let b = before.insert(p as int, x@);
                    assert forall|k: int| 0 <= k < a.len() implies a[k] == b[k] by {
                        if k < p {
                        } else if k == p {
                        } else {
                        }
                    }
                }
            }
        }
        i += 1;
    }
    proof {
        assert(links@.take(links.len() as int) =~= links@);
        lemma_sort_dedup_props(links_view(links@));
    }
    r
}

} // verus!
