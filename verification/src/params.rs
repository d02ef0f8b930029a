//! The router's query map (`leptos_router::params::ParamsMap`), seen through
//! what it holds.
//!
//! A `ParamsMap` keeps each key once, in the order it was first inserted,
//! together with the list of values inserted under it. Values are URL-unescaped
//! when inserted; keys are kept as given.

use vstd::prelude::*;
use leptos_router::params::ParamsMap;

verus! {

#[verifier::external_type_specification]
#[verifier::external_body]
pub struct ExParamsMap(ParamsMap);

/// What a `ParamsMap` holds: its keys in first-insertion order, each with the
/// values inserted under it, oldest first.
pub uninterp spec fn params_contents(p: ParamsMap) -> Seq<(Seq<char>, Seq<Seq<char>>)>;

/// The router's URL unescaping of a value (`Url::unescape`).
pub uninterp spec fn url_unescape(s: Seq<char>) -> Seq<char>;

/// The router's URL escaping of a key or value (`Url::escape`).
pub uninterp spec fn url_escape(s: Seq<char>) -> Seq<char>;

/// The position of the entry whose key is `k`, if any.
pub open spec fn contents_index(c: Seq<(Seq<char>, Seq<Seq<char>>)>, k: Seq<char>) -> Option<int>
    decreases c.len(),
{
    if c.len() == 0 {
        None
    } else if c[0].0 == k {
        Some(0)
    } else {
        match contents_index(c.drop_first(), k) {
            Some(i) => Some(i + 1),
            None => None,
        }
    }
}

/// The contents after inserting value `v` under key `k`: appended to the
/// values of an existing key, or a new key with that one value at the end.
pub open spec fn contents_insert(c: Seq<(Seq<char>, Seq<Seq<char>>)>, k: Seq<char>, v: Seq<char>) -> Seq<(Seq<char>, Seq<Seq<char>>)> {
    match contents_index(c, k) {
        Some(i) => c.update(i, (k, c[i].1.push(v))),
        None => c.push((k, seq![v])),
    }
}

/// Where the position of a key lies, and that a key no entry holds has none.
pub proof fn lemma_contents_index(c: Seq<(Seq<char>, Seq<Seq<char>>)>, k: Seq<char>)
    ensures
        contents_index(c, k) matches Some(i) ==> 0 <= i < c.len() && c[i].0 == k,
        (forall|j: int| 0 <= j < c.len() ==> #[trigger] c[j].0 != k) ==> contents_index(c, k) is None,
    decreases c.len(),
{
    if c.len() > 0 {
        let t = c.drop_first();
        lemma_contents_index(t, k);
        assert forall|j: int| 0 < j < c.len() implies #[trigger] c[j] == t[j - 1] by {}
        if forall|j: int| 0 <= j < c.len() ==> #[trigger] c[j].0 != k {
            assert forall|j: int| 0 <= j < t.len() implies #[trigger] t[j].0 != k by {
                assert(t[j] == c[j + 1]);
            }
        }
    }
}

/// Inserting two values under one key gives the same contents only when the
/// values are the same.
pub proof fn lemma_contents_insert_injective(
    c: Seq<(Seq<char>, Seq<Seq<char>>)>,
    k: Seq<char>,
    a: Seq<char>,
    b: Seq<char>,
)
    requires
        contents_insert(c, k, a) == contents_insert(c, k, b),
    ensures
        a == b,
{
    match contents_index(c, k) {
        Some(i) => {
            lemma_contents_index(c, k);
            assert(contents_insert(c, k, a)[i].1.last() == a);
            assert(contents_insert(c, k, b)[i].1.last() == b);
        },
        None => {
            assert(contents_insert(c, k, a).last().1[0] == a);
            assert(contents_insert(c, k, b).last().1[0] == b);
        },
    }
}

/// Every value among the pairs that holds no `%` reads back unchanged
/// through the router's unescaping.
pub open spec fn plain_values_kept(ps: Seq<(Seq<char>, Seq<char>)>) -> bool {
    forall|i: int|
        0 <= i < ps.len() && !(#[trigger] ps[i]).1.contains('%') ==> url_unescape(ps[i].1) == ps[i].1
}

pub proof fn lemma_plain_values_kept_append(a: Seq<(Seq<char>, Seq<char>)>, b: Seq<(Seq<char>, Seq<char>)>)
    requires
        plain_values_kept(a),
        plain_values_kept(b),
    ensures
        plain_values_kept(a + b),
{
    let ab = a + b;
    assert forall|i: int| 0 <= i < ab.len() && !(#[trigger] ab[i]).1.contains('%') implies url_unescape(ab[i].1)
        == ab[i].1 by {
        if i < a.len() {
            assert(ab[i] == a[i]);
        } else {
            assert(ab[i] == b[i - a.len()]);
        }
    }
}

/// The (key, value) pairs of one entry, in order.
pub open spec fn entry_pairs(k: Seq<char>, vs: Seq<Seq<char>>) -> Seq<(Seq<char>, Seq<char>)> {
    vs.map_values(|v: Seq<char>| (k, v))
}

/// Every (key, value) pair, entry by entry, as iterating the map yields them.
pub open spec fn contents_pairs(c: Seq<(Seq<char>, Seq<Seq<char>>)>) -> Seq<(Seq<char>, Seq<char>)>
    decreases c.len(),
{
    if c.len() == 0 {
        Seq::empty()
    } else {
        contents_pairs(c.drop_last()) + entry_pairs(c.last().0, c.last().1)
    }
}

/// `key=value` with both escaped.
pub open spec fn query_segment(p: (Seq<char>, Seq<char>), esc: spec_fn(Seq<char>) -> Seq<char>) -> Seq<char> {
    esc(p.0) + seq!['='] + esc(p.1)
}

/// The segments of the pairs joined by `&`.
pub open spec fn joined_segments(ps: Seq<(Seq<char>, Seq<char>)>, esc: spec_fn(Seq<char>) -> Seq<char>) -> Seq<char>
    decreases ps.len(),
{
    if ps.len() == 0 {
        Seq::empty()
    } else if ps.len() == 1 {
        query_segment(ps[0], esc)
    } else {
        joined_segments(ps.drop_last(), esc) + seq!['&'] + query_segment(ps.last(), esc)
    }
}

/// The query string of the contents, keys and values escaped by `esc`:
/// empty for an empty map, else `?` followed by the joined segments.
pub open spec fn query_string(c: Seq<(Seq<char>, Seq<Seq<char>>)>, esc: spec_fn(Seq<char>) -> Seq<char>) -> Seq<char> {
    if c.len() == 0 {
        Seq::empty()
    } else {
        seq!['?'] + joined_segments(contents_pairs(c), esc)
    }
}

/// The views of a sequence of string pairs.
pub open spec fn string_pairs_view(s: Seq<(String, String)>) -> Seq<(Seq<char>, Seq<char>)> {
    s.map_values(|p: (String, String)| (p.0@, p.1@))
}

pub proof fn lemma_string_pairs_push(s: Seq<(String, String)>, p: (String, String))
    ensures
        string_pairs_view(s.push(p)) == string_pairs_view(s).push((p.0@, p.1@)),
        string_pairs_view(s).len() == s.len(),
{
    assert(string_pairs_view(s.push(p)) =~= string_pairs_view(s).push((p.0@, p.1@)));
}

pub proof fn lemma_string_pairs_update(s: Seq<(String, String)>, i: int, p: (String, String))
    requires
        0 <= i < s.len(),
    ensures
        string_pairs_view(s.update(i, p)) == string_pairs_view(s).update(i, (p.0@, p.1@)),
{
    assert(string_pairs_view(s.update(i, p)) =~= string_pairs_view(s).update(i, (p.0@, p.1@)));
}

/// `ParamsMap::new`: an empty map.
#[verifier::external_body]
pub(crate) fn params_new() -> (p: ParamsMap)
    ensures
        params_contents(p) == Seq::<(Seq<char>, Seq<Seq<char>>)>::empty(),
{
    ParamsMap::new()
}

/// `ParamsMap::insert`: the value, URL-unescaped, is added under the key
/// (after the values already there, or as a new last key). Unescaping
/// (percent-decoding) changes only `%` escapes, so a value without `%` is
/// added as given.
#[verifier::external_body]
pub(crate) fn params_insert(p: &mut ParamsMap, key: String, value: String)
    ensures
        params_contents(*final(p)) == contents_insert(params_contents(*old(p)), key@, url_unescape(value@)),
        !value@.contains('%') ==> params_contents(*final(p)) == contents_insert(
            params_contents(*old(p)),
            key@,
            value@,
        ),
{
    p.insert(key, value);
}

/// Iterating `&ParamsMap`: every (key, value) pair, entry by entry, each
/// entry's values oldest first; the pairs are copied into owned strings.
#[verifier::external_body]
pub(crate) fn params_pairs(p: &ParamsMap) -> (r: Vec<(String, String)>)
    ensures
        string_pairs_view(r@) == contents_pairs(params_contents(*p)),
{
    p.into_iter().map(|(k, v)| (k.to_string(), v.to_string())).collect()
}

/// `ParamsMap::to_query_string`: `?k=v&k=v...` with keys and values escaped,
/// or the empty string for an empty map.
#[verifier::external_body]
pub(crate) fn params_query_string(p: &ParamsMap) -> (r: String)
    ensures
        r@ == query_string(params_contents(*p), |s: Seq<char>| url_escape(s)),
{
    p.to_query_string()
}

} // verus!
