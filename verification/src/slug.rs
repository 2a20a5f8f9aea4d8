//! Heading anchors: the URL-friendly slug of a heading's text.
use vstd::prelude::*;
use crate::text::{chars_of, string_from_chars};

verus! {

/// `char::is_alphanumeric` on characters outside ASCII (Unicode's
/// Alphabetic or Numeric property).
pub uninterp spec fn unicode_alphanumeric(c: char) -> bool;

pub open spec fn ascii_alphanumeric(c: char) -> bool {
    ('a' <= c && c <= 'z') || ('A' <= c && c <= 'Z') || ('0' <= c && c <= '9')
}

/// What `char::is_alphanumeric` answers: on ASCII, letters and digits.
pub open spec fn is_alphanumeric(c: char) -> bool {
    if (c as u32) < 128 {
        ascii_alphanumeric(c)
    } else {
        unicode_alphanumeric(c)
    }
}

/// `char::is_alphanumeric`. Its documentation defines it as the Alphabetic or
/// Numeric property, which on ASCII holds of exactly the letters and digits;
/// what it answers on other characters is named, not stated.
#[verifier::external_body]
pub fn char_is_alphanumeric(c: char) -> (b: bool)
    ensures
        b == (if (c as u32) < 128 {
            ascii_alphanumeric(c)
        } else {
            unicode_alphanumeric(c)
        }),
{
    c.is_alphanumeric()
}

/// On ASCII, lowercasing turns capitals into small letters and keeps every
/// other character.
pub open spec fn ascii_lower(c: char) -> char {
    if 'A' <= c && c <= 'Z' {
        ((c as u32) + 32) as char
    } else {
        c
    }
}

/// `char::to_lowercase` on characters outside ASCII: Unicode's lowercase
/// mapping, one or more characters.
pub uninterp spec fn unicode_lowercase(c: char) -> Seq<char>;

/// What `char::to_lowercase` yields: on ASCII the small letter of a capital
/// and the character itself otherwise; elsewhere Unicode's mapping.
pub open spec fn lower_chars(c: char) -> Seq<char> {
    if (c as u32) < 128 {
        seq![ascii_lower(c)]
    } else {
        unicode_lowercase(c)
    }
}

/// `char::to_lowercase`, collected. On ASCII its documentation's Unicode
/// mapping is the A-to-a mapping of capitals; what it yields for other
/// characters is named, not stated.
#[verifier::external_body]
pub fn char_to_lowercase(c: char) -> (r: Vec<char>)
    ensures
        r@ == (if (c as u32) < 128 {
            seq![ascii_lower(c)]
        } else {
            unicode_lowercase(c)
        }),
{
    c.to_lowercase().collect()
}

/// Is every character of the text ASCII?
pub open spec fn ascii_text(s: Seq<char>) -> bool {
    forall|i: int| 0 <= i < s.len() ==> (#[trigger] s[i] as u32) < 128
}

/// The alphanumeric characters of `s`, in order.
pub open spec fn alnum_only(s: Seq<char>) -> Seq<char>
    decreases s.len(),
{
    if s.len() == 0 {
        Seq::empty()
    } else {
        alnum_only(s.drop_last()) + if is_alphanumeric(s.last()) {
            seq![s.last()]
        } else {
            Seq::empty()
        }
    }
}

/// One character of the slug scan: an alphanumeric adds the alphanumerics
/// of its lowercase form; a space or hyphen adds one hyphen after a kept
/// character that is not already a hyphen; anything else is dropped.
pub open spec fn slug_step(r: Seq<char>, c: char) -> Seq<char> {
    if is_alphanumeric(c) {
        r + alnum_only(lower_chars(c))
    } else if c == ' ' || c == '-' {
        if r.len() > 0 && r.last() != '-' {
            r.push('-')
        } else {
            r
        }
    } else {
        r
    }
}

pub open spec fn slug_scan(s: Seq<char>) -> Seq<char>
    decreases s.len(),
{
    if s.len() == 0 {
        Seq::empty()
    } else {
        slug_step(slug_scan(s.drop_last()), s.last())
    }
}

/// The slug of a text: alphanumerics lowercased (`char::to_lowercase`,
/// keeping the alphanumerics of the result), each run of spaces and hyphens
/// after the first kept character made one hyphen, everything else
/// dropped, and a trailing hyphen removed.
pub open spec fn slug_of(s: Seq<char>) -> Seq<char> {
    let r = slug_scan(s);
    if r.len() > 0 && r.last() == '-' {
        r.drop_last()
    } else {
        r
    }
}

/// Convert heading text to a URL-friendly anchor slug.
/// - Lowercase
/// - Replace spaces with hyphens
/// - Remove non-alphanumeric characters (except hyphens)
/// - Collapse consecutive hyphens
pub fn slugify(text: &str) -> (r: String)
    ensures
        r@ == slug_of(text@),
        slug_well_formed(r@),
        ascii_text(text@) ==> ascii_slug(r@),
{
    let t = chars_of(text);
    let mut result: Vec<char> = Vec::new();
    let mut i: usize = 0;
    while i < t.len()
        invariant
            i <= t.len(),
            slug_scan(t@.take(i as int)) == result@,
        decreases t.len() - i,
    {
        proof {
            assert(t@.take(i + 1).drop_last() =~= t@.take(i as int));
        }
        let c = t[i];
        if char_is_alphanumeric(c) {
            let lower = char_to_lowercase(c);
            let ghost before = result@;
            let mut j: usize = 0;
            while j < lower.len()
                invariant
                    j <= lower.len(),
                    result@ == before + alnum_only(lower@.take(j as int)),
                decreases lower.len() - j,
            {
                proof {
                    assert(lower@.take(j + 1).drop_last() =~= lower@.take(j as int));
                }
                let x = lower[j];
                if char_is_alphanumeric(x) {
                    result.push(x);
                }
                j += 1;
                proof {
                    assert(result@ =~= before + alnum_only(lower@.take(j as int)));
                }
            }
            proof {
                assert(lower@.take(lower.len() as int) =~= lower@);
            }
        } else if c == ' ' || c == '-' {
            if result.len() > 0 && result[result.len() - 1] != '-' {
                result.push('-');
            }
        }
        i += 1;
    }
    proof {
        assert(t@.take(t.len() as int) =~= t@);
        lemma_slug_well_formed(text@);
        if ascii_text(text@) {
            lemma_slug_ascii(text@);
        }
    }
    if result.len() > 0 && result[result.len() - 1] == '-' {
        result.pop();
    }
    string_from_chars(&result)
}

/// What the slug scan keeps: no leading hyphen, no two hyphens in a row,
/// every other character alphanumeric.
pub open spec fn slug_body(t: Seq<char>) -> bool {
    &&& forall|i: int| 0 <= i < t.len() ==> (t[i] == '-' || is_alphanumeric(#[trigger] t[i]))
    &&& t.len() > 0 ==> t[0] != '-'
    &&& forall|i: int| 0 <= i < t.len() - 1 ==> !(#[trigger] t[i] == '-' && t[i + 1] == '-')
}

/// A finished slug: a slug body that does not end in a hyphen.
pub open spec fn slug_well_formed(t: Seq<char>) -> bool {
    slug_body(t) && (t.len() > 0 ==> t.last() != '-')
}

/// A character of the slug of an ASCII text: a small letter or a digit.
pub open spec fn ascii_slug_char(c: char) -> bool {
    ('a' <= c && c <= 'z') || ('0' <= c && c <= '9')
}

/// Every character is a small ASCII letter, a digit or a hyphen.
pub open spec fn ascii_slug(t: Seq<char>) -> bool {
    forall|i: int| 0 <= i < t.len() ==> (t[i] == '-' || ascii_slug_char(#[trigger] t[i]))
}

proof fn lemma_alnum_only(s: Seq<char>)
    ensures
        forall|i: int| 0 <= i < alnum_only(s).len() ==> is_alphanumeric(#[trigger] alnum_only(s)[i]),
    decreases s.len(),
{
    if s.len() > 0 {
        lemma_alnum_only(s.drop_last());
        let p = alnum_only(s.drop_last());
        let a = alnum_only(s);
        assert forall|i: int| 0 <= i < a.len() implies is_alphanumeric(#[trigger] a[i]) by {
            if i < p.len() {
                assert(a[i] == p[i]);
            }
        }
    }
}

proof fn lemma_scan_body(s: Seq<char>)
    ensures
        slug_body(slug_scan(s)),
    decreases s.len(),
{
    if s.len() > 0 {
        lemma_scan_body(s.drop_last());
        let prev = slug_scan(s.drop_last());
        let c = s.last();
        let next = slug_scan(s);
        if is_alphanumeric(c) {
            let a = alnum_only(lower_chars(c));
            lemma_alnum_only(lower_chars(c));
            assert(next == prev + a);
            assert forall|i: int| 0 <= i < next.len() implies (next[i] == '-' || is_alphanumeric(
                #[trigger] next[i],
            )) by {
                if i < prev.len() {
                    assert(next[i] == prev[i]);
                } else {
                    assert(next[i] == a[i - prev.len()]);
                }
            }
            if next.len() > 0 {
                if prev.len() > 0 {
                    assert(next[0] == prev[0]);
                } else {
                    assert(next[0] == a[0]);
                }
            }
            assert forall|i: int| 0 <= i < next.len() - 1 implies !(#[trigger] next[i] == '-'
                && next[i + 1] == '-') by {
                if i + 1 < prev.len() {
                    assert(next[i] == prev[i]);
                    assert(next[i + 1] == prev[i + 1]);
                } else {
                    assert(next[i + 1] == a[i + 1 - prev.len()]);
                }
            }
        } else if c == ' ' || c == '-' {
            if prev.len() > 0 && prev.last() != '-' {
                assert forall|i: int| 0 <= i < next.len() implies (next[i] == '-' || is_alphanumeric(
                    #[trigger] next[i],
                )) by {
                    if i < prev.len() {
                        assert(next[i] == prev[i]);
                    }
                }
                assert(next[0] == prev[0]);
                assert forall|i: int| 0 <= i < next.len() - 1 implies !(#[trigger] next[i] == '-'
                    && next[i + 1] == '-') by {
                    assert(next[i] == prev[i]);
                    if i + 1 < prev.len() {
                        assert(next[i + 1] == prev[i + 1]);
                    }
                }
            }
        }
    }
}

/// The slug of any text is well formed: only alphanumerics and single
/// inner hyphens, no hyphen at either end.
pub proof fn lemma_slug_well_formed(s: Seq<char>)
    ensures
        slug_well_formed(slug_of(s)),
{
    lemma_scan_body(s);
    let r = slug_scan(s);
    if r.len() > 0 && r.last() == '-' {
        let t = r.drop_last();
        assert forall|i: int| 0 <= i < t.len() implies (t[i] == '-' || is_alphanumeric(#[trigger] t[i])) by {
            assert(t[i] == r[i]);
        }
        assert forall|i: int| 0 <= i < t.len() - 1 implies !(#[trigger] t[i] == '-' && t[i + 1]
            == '-') by {
            assert(t[i] == r[i]);
            assert(t[i + 1] == r[i + 1]);
        }
        if t.len() > 0 {
            assert(r[r.len() - 2] != '-');
            assert(t.last() == r[r.len() - 2]);
            assert(t[0] == r[0]);
        }
    }
}

proof fn lemma_scan_ascii(s: Seq<char>)
    requires
        ascii_text(s),
    ensures
        ascii_slug(slug_scan(s)),
    decreases s.len(),
{
    if s.len() > 0 {
        assert(ascii_text(s.drop_last())) by {
            assert forall|i: int| 0 <= i < s.drop_last().len() implies (#[trigger] s.drop_last()[i] as u32) < 128 by {
                assert(s.drop_last()[i] == s[i]);
            }
        }
        lemma_scan_ascii(s.drop_last());
        let prev = slug_scan(s.drop_last());
        let c = s.last();
        assert((s[s.len() - 1] as u32) < 128);
        let next = slug_scan(s);
        if is_alphanumeric(c) {
            let d = ascii_lower(c);
            if 'A' <= c && c <= 'Z' {
                assert((d as u32) == (c as u32) + 32);
            }
            assert(ascii_slug_char(d));
            assert(alnum_only(seq![d]) =~= seq![d]) by {
                let sd = seq![d];
                assert((d as u32) < 128);
                assert(is_alphanumeric(d));
                assert(sd.drop_last() =~= Seq::<char>::empty());
                assert(sd.last() == d);
                assert(alnum_only(sd) == alnum_only(sd.drop_last()) + seq![d]);
                assert(Seq::<char>::empty() + seq![d] =~= seq![d]);
            }
            assert(next =~= prev.push(d));
        }
        assert forall|i: int| 0 <= i < next.len() implies (next[i] == '-' || ascii_slug_char(#[trigger] next[i])) by {
            if i < prev.len() {
                assert(next[i] == prev[i]);
            }
        }
    }
}

proof fn lemma_slug_ascii(s: Seq<char>)
    requires
        ascii_text(s),
    ensures
        ascii_slug(slug_of(s)),
{
    lemma_scan_ascii(s);
    let r = slug_scan(s);
    if r.len() > 0 && r.last() == '-' {
        assert forall|i: int| 0 <= i < r.drop_last().len() implies (r.drop_last()[i] == '-' || ascii_slug_char(
            #[trigger] r.drop_last()[i],
        )) by {
            assert(r.drop_last()[i] == r[i]);
        }
    }
}

proof fn lemma_scan_of_body(t: Seq<char>)
    requires
        slug_body(t),
        ascii_slug(t),
    ensures
        slug_scan(t) == t,
    decreases t.len(),
{
    if t.len() > 0 {
        let d = t.drop_last();
        assert forall|i: int| 0 <= i < d.len() implies (d[i] == '-' || is_alphanumeric(#[trigger] d[i])) by {
            assert(d[i] == t[i]);
        }
        assert forall|i: int| 0 <= i < d.len() implies (d[i] == '-' || ascii_slug_char(#[trigger] d[i])) by {
            assert(d[i] == t[i]);
        }
        assert forall|i: int| 0 <= i < d.len() - 1 implies !(#[trigger] d[i] == '-' && d[i + 1]
            == '-') by {
            assert(d[i] == t[i]);
            assert(d[i + 1] == t[i + 1]);
        }
        if d.len() > 0 {
            assert(d[0] == t[0]);
        }
        lemma_scan_of_body(d);
        let c = t.last();
        assert(t[t.len() - 1] == c);
        if c == '-' {
            assert(d.len() > 0);
            assert(d.last() == t[t.len() - 2]);
            assert(d.push('-') =~= t);
        } else {
            assert(ascii_slug_char(c));
            assert(lower_chars(c) =~= seq![c]);
            assert(alnum_only(seq![c]) =~= seq![c]) by {
                let sd = seq![c];
                assert((c as u32) < 128);
                assert(is_alphanumeric(c));
                assert(sd.drop_last() =~= Seq::<char>::empty());
                assert(sd.last() == c);
                assert(alnum_only(sd) == alnum_only(sd.drop_last()) + seq![c]);
                assert(Seq::<char>::empty() + seq![c] =~= seq![c]);
            }
            assert(d + seq![c] =~= t);
        }
    }
}

/// The slug of an ASCII text is its own slug: slugifying twice gives what
/// slugifying once gives. (Outside ASCII the lowercase mapping is named,
/// not stated.)
pub proof fn lemma_slug_idempotent(s: Seq<char>)
    requires
        ascii_text(s),
    ensures
        slug_of(slug_of(s)) == slug_of(s),
{
    lemma_slug_well_formed(s);
    lemma_slug_ascii(s);
    lemma_scan_of_body(slug_of(s));
}

proof fn lemma_alnum_concat(a: Seq<char>, b: Seq<char>)
    ensures
        alnum_only(a + b) == alnum_only(a) + alnum_only(b),
    decreases b.len(),
{
    if b.len() == 0 {
        assert(a + b =~= a);
        assert(alnum_only(a) + alnum_only(b) =~= alnum_only(a));
    } else {
        assert((a + b).drop_last() =~= a + b.drop_last());
        assert((a + b).last() == b.last());
        lemma_alnum_concat(a, b.drop_last());
        let x = if is_alphanumeric(b.last()) {
            seq![b.last()]
        } else {
            Seq::<char>::empty()
        };
        assert(alnum_only(a + b) == alnum_only(a + b.drop_last()) + x);
        assert(alnum_only(b) == alnum_only(b.drop_last()) + x);
        assert(alnum_only(a) + alnum_only(b.drop_last()) + x =~= alnum_only(a) + (alnum_only(b.drop_last()) + x));
    }
}

proof fn lemma_alnum_single(c: char)
    ensures
        alnum_only(seq![c]) == (if is_alphanumeric(c) { seq![c] } else { Seq::<char>::empty() }),
{
    let sc = seq![c];
    let e = Seq::<char>::empty();
    assert(sc.drop_last() =~= e);
    assert(sc.last() == c);
    assert(alnum_only(e) == e);
    let x = if is_alphanumeric(c) { seq![c] } else { e };
    assert(alnum_only(sc) == alnum_only(sc.drop_last()) + x);
    assert(e + x =~= x);
}

proof fn lemma_scan_count(s: Seq<char>)
    requires
        ascii_text(s),
    ensures
        alnum_only(slug_scan(s)).len() == alnum_only(s).len(),
    decreases s.len(),
{
    if s.len() > 0 {
        assert(ascii_text(s.drop_last())) by {
            assert forall|i: int| 0 <= i < s.drop_last().len() implies (#[trigger] s.drop_last()[i] as u32) < 128 by {
                assert(s.drop_last()[i] == s[i]);
            }
        }
        lemma_scan_count(s.drop_last());
        let prev = slug_scan(s.drop_last());
        let c = s.last();
        assert((s[s.len() - 1] as u32) < 128);
        lemma_alnum_single(c);
        if is_alphanumeric(c) {
            let d = ascii_lower(c);
            if 'A' <= c && c <= 'Z' {
                assert((d as u32) == (c as u32) + 32);
            }
            assert((d as u32) < 128);
            lemma_alnum_single(d);
            lemma_alnum_concat(prev, seq![d]);
        } else if c == ' ' || c == '-' {
            if prev.len() > 0 && prev.last() != '-' {
                lemma_alnum_single('-');
                lemma_alnum_concat(prev, seq!['-']);
                assert(prev.push('-') =~= prev + seq!['-']);
            }
        }
    }
}

/// The slug of an ASCII text keeps every letter and digit: it holds as
/// many of them as the text. (Outside ASCII the lowercase mapping is named,
/// not stated.)
pub proof fn lemma_slug_keeps_alphanumerics(s: Seq<char>)
    requires
        ascii_text(s),
    ensures
        alnum_only(slug_of(s)).len() == alnum_only(s).len(),
{
    lemma_scan_count(s);
    let r = slug_scan(s);
    if r.len() > 0 && r.last() == '-' {
        assert(r.drop_last() + seq!['-'] =~= r);
        lemma_alnum_concat(r.drop_last(), seq!['-']);
        lemma_alnum_single('-');
    }
}

/// The letters and digits of an ASCII text, lowercased, in order.
pub open spec fn lowered_alphanumerics(s: Seq<char>) -> Seq<char> {
    s.filter(|c: char| ascii_alphanumeric(c)).map_values(|c: char| ascii_lower(c))
}

proof fn lemma_scan_plain(s: Seq<char>)
    requires
        ascii_text(s),
        forall|i: int| 0 <= i < s.len() ==> #[trigger] s[i] != ' ' && s[i] != '-',
    ensures
        slug_scan(s) == lowered_alphanumerics(s),
        forall|i: int| 0 <= i < slug_scan(s).len() ==> #[trigger] slug_scan(s)[i] != '-',
    decreases s.len(),
{
    reveal(Seq::filter);
    if s.len() == 0 {
        assert(lowered_alphanumerics(s) =~= Seq::<char>::empty());
    } else {
        let d = s.drop_last();
        let c = s.last();
        assert(ascii_text(d)) by {
            assert forall|i: int| 0 <= i < d.len() implies (#[trigger] d[i] as u32) < 128 by {
                assert(d[i] == s[i]);
            }
        }
        assert forall|i: int| 0 <= i < d.len() implies #[trigger] d[i] != ' ' && d[i] != '-' by {
            assert(d[i] == s[i]);
        }
        lemma_scan_plain(d);
        assert(s[s.len() - 1] == c);
        assert((c as u32) < 128);
        let pred = |x: char| ascii_alphanumeric(x);
        let low = |x: char| ascii_lower(x);
        let prev = slug_scan(d);
        if ascii_alphanumeric(c) {
            let e = ascii_lower(c);
            if 'A' <= c && c <= 'Z' {
                assert((e as u32) == (c as u32) + 32);
            }
            assert((e as u32) < 128 && ascii_alphanumeric(e) && e != '-');
            lemma_alnum_single(e);
            assert(s.filter(pred) == d.filter(pred).push(c));
            assert(d.filter(pred).push(c).map_values(low) =~= d.filter(pred).map_values(low).push(e));
            assert(slug_scan(s) =~= prev.push(e));
            assert forall|i: int| 0 <= i < slug_scan(s).len() implies #[trigger] slug_scan(s)[i] != '-' by {
                if i < prev.len() {
                    assert(slug_scan(s)[i] == prev[i]);
                }
            }
        } else {
            assert(s.filter(pred) == d.filter(pred));
            assert(slug_scan(s) == prev);
        }
    }
}

/// A hyphen of a slug comes only from a space or a hyphen of the text: the
/// slug of an ASCII text with neither is the text's letters and digits,
/// lowercased, in order, and holds no hyphen.
pub proof fn lemma_slug_of_one_word(s: Seq<char>)
    requires
        ascii_text(s),
        forall|i: int| 0 <= i < s.len() ==> #[trigger] s[i] != ' ' && s[i] != '-',
    ensures
        slug_of(s) == lowered_alphanumerics(s),
        !slug_of(s).contains('-'),
{
    lemma_scan_plain(s);
    let r = slug_scan(s);
    if r.len() > 0 {
        assert(r[r.len() - 1] != '-');
    }
    if slug_of(s).contains('-') {
        let k = choose|k: int| 0 <= k < slug_of(s).len() && slug_of(s)[k] == '-';
        assert(r[k] != '-');
    }
}

proof fn lemma_scan_append_plain(x: Seq<char>, y: Seq<char>)
    requires
        ascii_text(y),
        forall|i: int| 0 <= i < y.len() ==> #[trigger] y[i] != ' ' && y[i] != '-',
    ensures
        slug_scan(x + y) == slug_scan(x) + lowered_alphanumerics(y),
    decreases y.len(),
{
    reveal(Seq::filter);
    if y.len() == 0 {
        assert(x + y =~= x);
        assert(lowered_alphanumerics(y) =~= Seq::<char>::empty());
        assert(slug_scan(x) + Seq::<char>::empty() =~= slug_scan(x));
    } else {
        let d = y.drop_last();
        let c = y.last();
        assert(ascii_text(d)) by {
            assert forall|i: int| 0 <= i < d.len() implies (#[trigger] d[i] as u32) < 128 by {
                assert(d[i] == y[i]);
            }
        }
        assert forall|i: int| 0 <= i < d.len() implies #[trigger] d[i] != ' ' && d[i] != '-' by {
            assert(d[i] == y[i]);
        }
        lemma_scan_append_plain(x, d);
        assert(y[y.len() - 1] == c);
        assert((c as u32) < 128);
        assert((x + y).drop_last() =~= x + d);
        assert((x + y).last() == c);
        let pred = |z: char| ascii_alphanumeric(z);
        let low = |z: char| ascii_lower(z);
        let prev = slug_scan(x + d);
        if ascii_alphanumeric(c) {
            let e = ascii_lower(c);
            if 'A' <= c && c <= 'Z' {
                assert((e as u32) == (c as u32) + 32);
            }
            assert((e as u32) < 128 && ascii_alphanumeric(e));
            lemma_alnum_single(e);
            assert(y.filter(pred) == d.filter(pred).push(c));
            assert(d.filter(pred).push(c).map_values(low) =~= d.filter(pred).map_values(low).push(e));
            assert(slug_scan(x + y) =~= prev.push(e));
            assert(slug_scan(x) + lowered_alphanumerics(d).push(e) =~= (slug_scan(x) + lowered_alphanumerics(d)).push(e));
        } else {
            assert(y.filter(pred) == d.filter(pred));
        }
    }
}

/// A space between two words of an ASCII text becomes one hyphen of the
/// slug: the slug of `a b` is the slug of `a`, a hyphen and the slug of `b`
/// (when neither word's slug is empty).
pub proof fn lemma_slug_of_two_words(a: Seq<char>, b: Seq<char>)
    requires
        ascii_text(a),
        ascii_text(b),
        forall|i: int| 0 <= i < a.len() ==> #[trigger] a[i] != ' ' && a[i] != '-',
        forall|i: int| 0 <= i < b.len() ==> #[trigger] b[i] != ' ' && b[i] != '-',
        slug_of(a).len() > 0,
        slug_of(b).len() > 0,
    ensures
        slug_of(a + seq![' '] + b) == slug_of(a) + seq!['-'] + slug_of(b),
{
    lemma_slug_of_one_word(a);
    lemma_slug_of_one_word(b);
    lemma_scan_plain(a);
    lemma_scan_plain(b);
    let la = lowered_alphanumerics(a);
    let lb = lowered_alphanumerics(b);
    let sp = a + seq![' '];
    assert(sp.drop_last() =~= a);
    assert(sp.last() == ' ');
    assert(la[la.len() - 1] != '-');
    assert(slug_scan(sp) == la.push('-'));
    lemma_scan_append_plain(sp, b);
    let r = slug_scan(sp + b);
    assert(r == la.push('-') + lb);
    assert(lb[lb.len() - 1] != '-');
    assert(r.last() == lb.last());
    assert(la.push('-') + lb =~= la + seq!['-'] + lb);
}

} // verus!
