//! YAML front matter: the block between the first two `---` of a document,
//! and the tags it lists.
use vstd::prelude::*;
use crate::text::{chars_of, string_from_chars, matches_at, occurs_at, same_chars, slice_take};
use std::collections::BTreeMap;

verus! {

/// What the indexer reads of a YAML value: the string items of a sequence
/// (`None` for an item that is not a string), or nothing.
pub enum YamlValue {
    Sequence(Vec<Option<String>>),
    Other,
}

pub enum YamlValueView {
    Sequence(Seq<Option<Seq<char>>>),
    Other,
}

pub open spec fn opt_strings_view(v: Seq<Option<String>>) -> Seq<Option<Seq<char>>> {
    v.map_values(|o: Option<String>| crate::markdown::opt_text(o))
}

impl View for YamlValue {
    type V = YamlValueView;

    open spec fn view(&self) -> YamlValueView {
        match self {
            YamlValue::Sequence(items) => YamlValueView::Sequence(opt_strings_view(items@)),
            YamlValue::Other => YamlValueView::Other,
        }
    }
}

/// A parsed front matter: its top-level entries, key and value.
pub struct FrontMatter {
    pub entries: Vec<(String, YamlValue)>,
}

pub type FrontMatterView = Seq<(Seq<char>, YamlValueView)>;

impl View for FrontMatter {
    type V = FrontMatterView;

    open spec fn view(&self) -> FrontMatterView {
        self.entries@.map_values(|e: (String, YamlValue)| (e.0@, e.1@))
    }
}

/// `serde_yaml::from_str` of a text as a map from strings to YAML values:
/// `None` when it does not parse as one, else its entries in key order.
pub uninterp spec fn yaml_string_map(text: Seq<char>) -> Option<FrontMatterView>;

/// Runs `serde_yaml::from_str::<BTreeMap<String, serde_yaml::Value>>` and
/// converts each value with `Value::as_sequence` and `Value::as_str`. What
/// the parser accepts and yields is named, not stated.
#[verifier::external_body]
pub fn parse_yaml_map(text: &str) -> (r: Option<FrontMatter>)
    ensures
        match r {
            Some(fm) => yaml_string_map(text@) == Some(fm@),
            None => yaml_string_map(text@) is None,
        },
{
    serde_yaml::from_str::<BTreeMap<String, serde_yaml::Value>>(text).ok().map(|m| FrontMatter {
        entries: m.into_iter().map(|(k, v)| {
            let value = match v.as_sequence() {
                Some(items) => YamlValue::Sequence(items.iter().map(|x| x.as_str().map(String::from)).collect()),
                None => YamlValue::Other,
            };
            (k, value)
        }).collect(),
    })
}

/// `char::is_whitespace` on characters outside ASCII (Unicode's White_Space property).
pub uninterp spec fn unicode_white_space(c: char) -> bool;

/// `char::is_whitespace`: the White_Space property, which on ASCII holds of
/// space, tab, line feed, vertical tab, form feed and carriage return;
/// what it answers on other characters is named, not stated.
#[verifier::external_body]
pub fn char_is_whitespace(c: char) -> (b: bool)
    ensures
        b == (if (c as u32) < 128 {
            c == ' ' || ('\t' <= c && c <= '\r')
        } else {
            unicode_white_space(c)
        }),
{
    c.is_whitespace()
}

pub open spec fn is_white_space(c: char) -> bool {
    if (c as u32) < 128 {
        c == ' ' || ('\t' <= c && c <= '\r')
    } else {
        unicode_white_space(c)
    }
}

/// A text that `str::trim` leaves empty: only white space.
pub open spec fn all_white_space(s: Seq<char>) -> bool {
    forall|i: int| 0 <= i < s.len() ==> is_white_space(#[trigger] s[i])
}

/// The first occurrence of `pat` in `s` at or after `from`.
pub open spec fn find_from(s: Seq<char>, pat: Seq<char>, from: int) -> Option<int>
    decreases s.len() - from,
{
    if from < 0 || from + pat.len() > s.len() {
        None
    } else if pat.len() == 0 || occurs_at(s, pat, from) {
        Some(from)
    } else {
        find_from(s, pat, from + 1)
    }
}

/// The YAML text of a document's front matter: what lies between the first
/// and the second `---` (as `splitn(3, "---")` cuts it), provided there are
/// two and only white space precedes the first.
pub open spec fn frontmatter_text(s: Seq<char>) -> Option<Seq<char>> {
    let d = "---"@;
    match find_from(s, d, 0) {
        None => None,
        Some(i) => match find_from(s, d, i + d.len()) {
            None => None,
            Some(j) => if all_white_space(s.take(i)) {
                Some(s.subrange(i + d.len(), j))
            } else {
                None
            },
        },
    }
}

pub open spec fn opt_frontmatter_view(r: Option<FrontMatter>) -> Option<FrontMatterView> {
    match r {
        Some(fm) => Some(fm@),
        None => None,
    }
}

/// Finds [`find_from`].
pub fn find_chars_from(s: &[char], pat: &[char], from: usize) -> (r: Option<usize>)
    ensures
        match r {
            Some(i) => find_from(s@, pat@, from as int) == Some(i as int),
            None => find_from(s@, pat@, from as int) is None,
        },
    decreases s.len() - from,
{
    if from > s.len() || pat.len() > s.len() - from {
        return None;
    }
    if pat.len() == 0 || matches_at(s, pat, from) {
        return Some(from);
    }
    find_chars_from(s, pat, from + 1)
}

/// Is every character of `s` white space?
pub fn only_white_space(s: &[char]) -> (r: bool)
    ensures
        r == all_white_space(s@),
{
    let mut i: usize = 0;
    while i < s.len()
        invariant
            i <= s.len(),
            forall|j: int| 0 <= j < i ==> is_white_space(#[trigger] s@[j]),
        decreases s.len() - i,
    {
        if !char_is_whitespace(s[i]) {
            return false;
        }
        i += 1;
    }
    true
}

/// Parse the YAML front matter of a document, if it has one that parses.
pub fn parse_frontmatter(content: &str) -> (r: Option<FrontMatter>)
    ensures
        opt_frontmatter_view(r) == match frontmatter_text(content@) {
            Some(t) => yaml_string_map(t),
            None => None,
        },
{
    let s = chars_of(content);
    let d = chars_of("---");
    let i = match find_chars_from(&s, &d, 0) {
        Some(i) => i,
        None => return None,
    };
    proof {
        lemma_find_from_bounds(s@, d@, 0);
        assert(i + d@.len() <= s@.len());
        assert(s@.len() == s.len());
    }
    let j = match find_chars_from(&s, &d, i + d.len()) {
        Some(j) => j,
        None => return None,
    };
    proof {
        lemma_find_from_bounds(s@, d@, i + d@.len());
    }
    if !only_white_space(slice_take(&s, i)) {
        return None;
    }
    let mut body: Vec<char> = Vec::new();
    let mut k: usize = i + d.len();
    while k < j
        invariant
            i + d@.len() <= k <= j <= s@.len(),
            body@ == s@.subrange(i + d@.len(), k as int),
        decreases j - k,
    {
        body.push(s[k]);
        k += 1;
        proof {
            assert(body@ =~= s@.subrange(i + d@.len(), k as int));
        }
    }
    let yaml = string_from_chars(&body);
    parse_yaml_map(yaml.as_str())
}

pub proof fn lemma_find_from_bounds(s: Seq<char>, pat: Seq<char>, from: int)
    ensures
        find_from(s, pat, from) matches Some(i) ==> from <= i && i + pat.len() <= s.len(),
    decreases s.len() - from,
{
    if !(from < 0 || from + pat.len() > s.len()) && !(pat.len() == 0 || occurs_at(s, pat, from)) {
        lemma_find_from_bounds(s, pat, from + 1);
    }
}

/// The value of the first entry with the given key.
pub open spec fn yaml_lookup(entries: FrontMatterView, key: Seq<char>) -> Option<YamlValueView>
    decreases entries.len(),
{
    if entries.len() == 0 {
        None
    } else if entries[0].0 == key {
        Some(entries[0].1)
    } else {
        yaml_lookup(entries.drop_first(), key)
    }
}

/// The string items of a sequence, in order.
pub open spec fn string_items(items: Seq<Option<Seq<char>>>) -> Seq<Seq<char>>
    decreases items.len(),
{
    if items.len() == 0 {
        Seq::empty()
    } else {
        match items.last() {
            Some(s) => string_items(items.drop_last()).push(s),
            None => string_items(items.drop_last()),
        }
    }
}

/// Every string item of a sequence is kept, in order, and nothing else:
/// the string items are the items that are strings, unwrapped.
pub proof fn lemma_string_items_keep_every_string(items: Seq<Option<Seq<char>>>)
    ensures
        string_items(items) == items.filter(|o: Option<Seq<char>>| o is Some).map_values(
            |o: Option<Seq<char>>| o->0,
        ),
    decreases items.len(),
{
    reveal(Seq::filter);
    let pred = |o: Option<Seq<char>>| o is Some;
    let un = |o: Option<Seq<char>>| o->0;
    if items.len() == 0 {
        assert(items.filter(pred).map_values(un) =~= Seq::<Seq<char>>::empty());
    } else {
        let d = items.drop_last();
        lemma_string_items_keep_every_string(d);
        match items.last() {
            Some(x) => {
                assert(items.filter(pred) == d.filter(pred).push(items.last()));
                assert(d.filter(pred).push(items.last()).map_values(un) =~= d.filter(pred).map_values(un).push(x));
            },
            None => {
                assert(items.filter(pred) == d.filter(pred));
            },
        }
    }
}

/// The tags of a front matter: the string items of its `tags` entry, when
/// that is a sequence; none otherwise.
pub open spec fn tags_of(fm: FrontMatterView) -> Seq<Seq<char>> {
    match yaml_lookup(fm, "tags"@) {
        Some(YamlValueView::Sequence(items)) => string_items(items),
        _ => Seq::empty(),
    }
}

/// The tags listed in a front matter.
pub fn extract_tags(frontmatter: &FrontMatter) -> (tags: Vec<String>)
    ensures
        tags.deep_view() == tags_of(frontmatter@),
{
    let key = chars_of("tags");
    let mut i: usize = 0;
    proof {
        assert(frontmatter@.skip(0) =~= frontmatter@);
    }
    while i < frontmatter.entries.len()
        invariant
            i <= frontmatter.entries.len(),
            key@ == "tags"@,
            yaml_lookup(frontmatter@, key@) == yaml_lookup(frontmatter@.skip(i as int), key@),
        decreases frontmatter.entries.len() - i,
    {
        let k = chars_of(frontmatter.entries[i].0.as_str());
        proof {
            assert(frontmatter@.skip(i as int).drop_first() =~= frontmatter@.skip(i + 1));
            assert(frontmatter@.skip(i as int)[0] == frontmatter@[i as int]);
        }
        if same_chars(&k, &key) {
            let mut tags: Vec<String> = Vec::new();
            match &frontmatter.entries[i].1 {
                YamlValue::Sequence(items) => {
                    let mut m: usize = 0;
                    while m < items.len()
                        invariant
                            m <= items.len(),
                            tags.deep_view() == string_items(opt_strings_view(items@.take(m as int))),
                        decreases items.len() - m,
                    {
                        proof {
                            assert(opt_strings_view(items@.take(m + 1)).drop_last() =~= opt_strings_view(items@.take(m as int)));
                        }
                        match &items[m] {
                            Some(s) => {
                                tags.push(s.clone());
                                proof {
                                    assert(tags.deep_view() =~= string_items(opt_strings_view(items@.take(m + 1))));
                                }
                            },
                            None => {},
                        }
                        m += 1;
                    }
                    proof {
                        assert(items@.take(items.len() as int) =~= items@);
                    }
                },
                YamlValue::Other => {},
            }
            return tags;
        }
        i += 1;
    }
    Vec::new()
}

} // verus!
