//! The dotted query format: a query is a list of `key=value` pairs; a key
//! `field.sub` puts `sub=value` into the one-level map `field`, any other key
//! is a scalar field. Deeper structure has no encoding.

use vstd::prelude::*;
use leptos_router::params::ParamsMap;
use crate::params::{lemma_string_pairs_push, params_contents, params_insert, contents_insert, string_pairs_view, url_unescape, lemma_contents_insert_injective, plain_values_kept};
use crate::text::{chars_of, string_of_range, concat_str, str_eq};

verus! {

/// The position of the first `.` in `k`, if any.
pub open spec fn first_dot(k: Seq<char>) -> Option<int>
    decreases k.len(),
{
    if k.len() == 0 {
        None
    } else if k[0] == '.' {
        Some(0)
    } else {
        match first_dot(k.drop_first()) {
            Some(i) => Some(i + 1),
            None => None,
        }
    }
}

/// `k` cut at its first `.`: (head, rest).
pub open spec fn split_dot(k: Seq<char>) -> Option<(Seq<char>, Seq<char>)> {
    match first_dot(k) {
        Some(i) => Some((k.subrange(0, i), k.subrange(i + 1, k.len() as int))),
        None => None,
    }
}

pub open spec fn has_dot(k: Seq<char>) -> bool {
    exists|i: int| 0 <= i < k.len() && k[i] == '.'
}

pub proof fn lemma_first_dot(k: Seq<char>)
    ensures
        first_dot(k) matches Some(i) ==> 0 <= i < k.len() && k[i] == '.'
            && forall|j: int| 0 <= j < i ==> #[trigger] k[j] != '.',
        first_dot(k) is None ==> forall|j: int| 0 <= j < k.len() ==> #[trigger] k[j] != '.',
        first_dot(k) is None <==> !has_dot(k),
    decreases k.len(),
{
    if k.len() > 0 {
        let t = k.drop_first();
        lemma_first_dot(t);
        assert forall|j: int| 0 < j < k.len() implies #[trigger] k[j] == t[j - 1] by {}
        if k[0] != '.' {
            match first_dot(t) {
                Some(i) => {
                    assert forall|j: int| 0 <= j < i + 1 implies #[trigger] k[j] != '.' by {
                        if j > 0 {
                            assert(k[j] == t[j - 1]);
                        }
                    }
                },
                None => {
                    assert forall|j: int| 0 <= j < k.len() implies #[trigger] k[j] != '.' by {
                        if j > 0 {
                            assert(k[j] == t[j - 1]);
                        }
                    }
                },
            }
        }
    }
}

/// The value of one grouped field: a scalar, or the (sub-key, value) pairs
/// of a one-level map.
pub enum ValueView {
    Scalar(Seq<char>),
    Nest(Seq<(Seq<char>, Seq<char>)>),
}

/// A grouped field value.
#[derive(Debug)]
pub enum Value {
    Scalar(String),
    Nest(Vec<(String, String)>),
}

impl View for Value {
    type V = ValueView;

    open spec fn view(&self) -> ValueView {
        match self {
            Value::Scalar(s) => ValueView::Scalar(s@),
            Value::Nest(es) => ValueView::Nest(string_pairs_view(es@)),
        }
    }
}

pub open spec fn groups_view(s: Seq<(String, Value)>) -> Seq<(Seq<char>, ValueView)> {
    s.map_values(|g: (String, Value)| (g.0@, g.1@))
}

/// The position of the first group named `h`, if any.
pub open spec fn group_index(out: Seq<(Seq<char>, ValueView)>, h: Seq<char>) -> Option<int>
    decreases out.len(),
{
    if out.len() == 0 {
        None
    } else if out[0].0 == h {
        Some(0)
    } else {
        match group_index(out.drop_first(), h) {
            Some(i) => Some(i + 1),
            None => None,
        }
    }
}

pub proof fn lemma_group_index(out: Seq<(Seq<char>, ValueView)>, h: Seq<char>)
    ensures
        group_index(out, h) matches Some(i) ==> 0 <= i < out.len() && out[i].0 == h
            && forall|j: int| 0 <= j < i ==> #[trigger] out[j].0 != h,
        group_index(out, h) is None ==> forall|j: int| 0 <= j < out.len() ==> #[trigger] out[j].0 != h,
    decreases out.len(),
{
    if out.len() > 0 {
        let t = out.drop_first();
        lemma_group_index(t, h);
        assert forall|j: int| 0 < j < out.len() implies #[trigger] out[j] == t[j - 1] by {}
        if out[0].0 != h {
            match group_index(t, h) {
                Some(i) => {
                    assert forall|j: int| 0 <= j < i + 1 implies #[trigger] out[j].0 != h by {
                        if j > 0 {
                            assert(out[j] == t[j - 1]);
                        }
                    }
                },
                None => {
                    assert forall|j: int| 0 <= j < out.len() implies #[trigger] out[j].0 != h by {
                        if j > 0 {
                            assert(out[j] == t[j - 1]);
                        }
                    }
                },
            }
        }
    }
}

/// One pair added to the groups: a dotted key joins the map of the first
/// group with its head when that group is a map, else starts a new map group;
/// a key without a dot is a new scalar group.
pub open spec fn group_step(out: Seq<(Seq<char>, ValueView)>, k: Seq<char>, v: Seq<char>) -> Seq<(Seq<char>, ValueView)> {
    match split_dot(k) {
        Some((head, sub)) => match group_index(out, head) {
            Some(i) => match out[i].1 {
                ValueView::Nest(es) => out.update(i, (head, ValueView::Nest(es.push((sub, v))))),
                ValueView::Scalar(_) => out.push((head, ValueView::Nest(seq![(sub, v)]))),
            },
            None => out.push((head, ValueView::Nest(seq![(sub, v)]))),
        },
        None => out.push((k, ValueView::Scalar(v))),
    }
}

/// The pairs grouped into fields, in order.
pub open spec fn group_pairs(ps: Seq<(Seq<char>, Seq<char>)>) -> Seq<(Seq<char>, ValueView)>
    decreases ps.len(),
{
    if ps.len() == 0 {
        Seq::empty()
    } else {
        group_step(group_pairs(ps.drop_last()), ps.last().0, ps.last().1)
    }
}

fn clone_string_pairs(v: &Vec<(String, String)>) -> (r: Vec<(String, String)>)
    ensures
        string_pairs_view(r@) == string_pairs_view(v@),
{
    let mut out: Vec<(String, String)> = Vec::new();
    let mut i: usize = 0;
    while i < v.len()
        invariant
            i <= v@.len(),
            string_pairs_view(out@) == string_pairs_view(v@).subrange(0, i as int),
        decreases v.len() - i,
    {
        let p = (v[i].0.clone(), v[i].1.clone());
        proof {
            lemma_string_pairs_push(out@, p);
        }
        out.push(p);
        i = i + 1;
        assert(string_pairs_view(out@) =~= string_pairs_view(v@).subrange(0, i as int));
    }
    assert(string_pairs_view(v@).subrange(0, i as int) =~= string_pairs_view(v@));
    out
}

/// The position of the first `.` in `cs`.
fn first_dot_exec(cs: &Vec<char>) -> (r: Option<usize>)
    ensures
        r matches Some(i) ==> first_dot(cs@) == Some(i as int),
        r is None ==> first_dot(cs@) is None,
{
    let mut i: usize = 0;
    while i < cs.len()
        invariant
            i <= cs@.len(),
            forall|j: int| 0 <= j < i ==> cs@[j] != '.',
        decreases cs.len() - i,
    {
        if cs[i] == '.' {
            proof {
                lemma_first_dot(cs@);
                match first_dot(cs@) {
                    Some(k) => {
                        if k < i {
                            assert(cs@[k] != '.');
                        } else if k > i {
                            assert(cs@[i as int] != '.');
                        }
                    },
                    None => {
                        assert(cs@[i as int] != '.');
                    },
                }
            }
            return Some(i);
        }
        i = i + 1;
    }
    proof {
        lemma_first_dot(cs@);
        if let Some(k) = first_dot(cs@) {
            assert(cs@[k] != '.');
        }
    }
    None
}

/// `key` cut at its first `.`.
pub fn split_once_dot(key: &str) -> (r: Option<(String, String)>)
    ensures
        r matches Some(p) ==> split_dot(key@) == Some((p.0@, p.1@)),
        r is None ==> split_dot(key@) is None,
{
    let cs = chars_of(key);
    match first_dot_exec(&cs) {
        Some(i) => {
            proof {
                lemma_first_dot(cs@);
            }
            assert(i < cs.len());
            Some((string_of_range(&cs, 0, i), string_of_range(&cs, i + 1, cs.len())))
        },
        None => None,
    }
}

fn find_group(out: &Vec<(String, Value)>, head: &str) -> (r: Option<usize>)
    ensures
        r matches Some(i) ==> group_index(groups_view(out@), head@) == Some(i as int) && i < out@.len(),
        r is None ==> group_index(groups_view(out@), head@) is None,
{
    let ghost g = groups_view(out@);
    let mut i: usize = 0;
    while i < out.len()
        invariant
            i <= out@.len(),
            g == groups_view(out@),
            g.len() == out@.len(),
            forall|j: int| 0 <= j < i ==> g[j].0 != head@,
        decreases out.len() - i,
    {
        if str_eq(out[i].0.as_str(), head) {
            assert(g[i as int].0 == head@);
            proof {
                lemma_group_index(g, head@);
                match group_index(g, head@) {
                    Some(k) => {
                        if k < i {
                            assert(g[k].0 != head@);
                        } else if k > i {
                            assert(g[i as int].0 != head@);
                        }
                    },
                    None => {
                        assert(g[i as int].0 != head@);
                    },
                }
            }
            return Some(i);
        }
        i = i + 1;
    }
    proof {
        lemma_group_index(g, head@);
        if let Some(k) = group_index(g, head@) {
            assert(g[k].0 != head@);
        }
    }
    None
}

/// Groups query pairs into fields: `field.sub=v` pairs gather into the map
/// of `field`, other pairs are scalar fields.
pub fn group(pairs: &Vec<(String, String)>) -> (r: Vec<(String, Value)>)
    ensures
        groups_view(r@) == group_pairs(string_pairs_view(pairs@)),
{
    let ghost ps = string_pairs_view(pairs@);
    let mut out: Vec<(String, Value)> = Vec::new();
    let mut n: usize = 0;
    assert(groups_view(out@) =~= group_pairs(ps.subrange(0, 0)));
    while n < pairs.len()
        invariant
            n <= pairs@.len(),
            ps == string_pairs_view(pairs@),
            groups_view(out@) == group_pairs(ps.subrange(0, n as int)),
        decreases pairs.len() - n,
    {
        let ghost before = groups_view(out@);
        let key = &pairs[n].0;
        let value = &pairs[n].1;
        assert(ps.subrange(0, n + 1).drop_last() =~= ps.subrange(0, n as int));
        assert(ps.subrange(0, n + 1).last() == ps[n as int]);
        match split_once_dot(key.as_str()) {
            Some((head, sub)) => {
                match find_group(&out, head.as_str()) {
                    Some(i) => {
                        let is_map = match &out[i].1 {
                            Value::Nest(_) => true,
                            Value::Scalar(_) => false,
                        };
                        if is_map {
                            let mut es = match &out[i].1 {
                                Value::Nest(es) => clone_string_pairs(es),
                                Value::Scalar(_) => Vec::new(),
                            };
                            let ghost old_es = string_pairs_view(es@);
                            es.push((sub, value.clone()));
                            assert(string_pairs_view(es@) =~= old_es.push((split_dot(key@).unwrap().1, value@)));
                            out.set(i, (head, Value::Nest(es)));
                            assert(groups_view(out@) =~= group_step(before, key@, value@));
                        } else {
                            let mut es: Vec<(String, String)> = Vec::new();
                            es.push((sub, value.clone()));
                            assert(string_pairs_view(es@) =~= seq![(split_dot(key@).unwrap().1, value@)]);
                            out.push((head, Value::Nest(es)));
                            assert(groups_view(out@) =~= group_step(before, key@, value@));
                        }
                    },
                    None => {
                        let mut es: Vec<(String, String)> = Vec::new();
                        es.push((sub, value.clone()));
                        assert(string_pairs_view(es@) =~= seq![(split_dot(key@).unwrap().1, value@)]);
                        out.push((head, Value::Nest(es)));
                        assert(groups_view(out@) =~= group_step(before, key@, value@));
                    },
                }
            },
            None => {
                out.push((key.clone(), Value::Scalar(value.clone())));
                assert(groups_view(out@) =~= group_step(before, key@, value@));
            },
        }
        n = n + 1;
    }
    assert(ps.subrange(0, n as int) =~= ps);
    out
}

/// The contents after inserting each pair in turn (values are unescaped on
/// the way in).
pub open spec fn insert_all(c: Seq<(Seq<char>, Seq<Seq<char>>)>, ps: Seq<(Seq<char>, Seq<char>)>) -> Seq<(Seq<char>, Seq<Seq<char>>)>
    decreases ps.len(),
{
    if ps.len() == 0 {
        c
    } else {
        contents_insert(insert_all(c, ps.drop_last()), ps.last().0, url_unescape(ps.last().1))
    }
}

pub proof fn lemma_insert_all_append(c: Seq<(Seq<char>, Seq<Seq<char>>)>, a: Seq<(Seq<char>, Seq<char>)>, b: Seq<(Seq<char>, Seq<char>)>)
    ensures
        insert_all(c, a + b) == insert_all(insert_all(c, a), b),
    decreases b.len(),
{
    if b.len() == 0 {
        assert(a + b =~= a);
    } else {
        lemma_insert_all_append(c, a, b.drop_last());
        assert((a + b).drop_last() =~= a + b.drop_last());
        assert((a + b).last() == b.last());
    }
}

/// The serialized value of one field: a scalar, (sub-key, value) pairs, or
/// nothing (an absent optional value).
#[derive(Debug)]
pub enum Field {
    Scalar(String),
    Pairs(Vec<(String, String)>),
    Skip,
}

/// The query pairs that a field `key` writes: `key=v` for a scalar,
/// `key.sub=v` for each pair, none for `Skip`.
pub open spec fn field_pairs(key: Seq<char>, field: &Field) -> Seq<(Seq<char>, Seq<char>)> {
    match field {
        Field::Scalar(s) => seq![(key, s@)],
        Field::Pairs(ps) => string_pairs_view(ps@).map_values(
            |p: (Seq<char>, Seq<char>)| (key + seq!['.'] + p.0, p.1),
        ),
        Field::Skip => Seq::empty(),
    }
}

/// Writes one field into the query map (the top-level step of serializing).
pub fn push_field(out: &mut ParamsMap, key: &str, field: Field)
    ensures
        params_contents(*final(out)) == insert_all(params_contents(*old(out)), field_pairs(key@, &field)),
        plain_values_kept(field_pairs(key@, &field)),
{
    let ghost written = field_pairs(key@, &field);
    match field {
        Field::Scalar(s) => {
            let ghost c0 = params_contents(*out);
            assert(written =~= seq![(key@, s@)]);
            assert(written.drop_last() =~= Seq::<(Seq<char>, Seq<char>)>::empty());
            assert(insert_all(c0, written.drop_last()) == c0);
            let k = String::from_str(key);
            assert(k@ == key@);
            let ghost sv = s@;
            params_insert(out, k, s);
            proof {
                if !sv.contains('%') {
                    lemma_contents_insert_injective(c0, key@, url_unescape(sv), sv);
                }
                assert(written[0] == (key@, sv));
            }
        },
        Field::Pairs(ps) => {
            let ghost c0 = params_contents(*out);
            let prefix = concat_str(key, ".");
            proof {
                reveal_strlit(".");
            }
            let mut i: usize = 0;
            assert(written.subrange(0, 0) =~= Seq::<(Seq<char>, Seq<char>)>::empty());
            while i < ps.len()
                invariant
                    i <= ps@.len(),
                    written == string_pairs_view(ps@).map_values(
                        |p: (Seq<char>, Seq<char>)| (key@ + seq!['.'] + p.0, p.1),
                    ),
                    prefix@ == key@ + seq!['.'],
                    params_contents(*out) == insert_all(c0, written.subrange(0, i as int)),
                    plain_values_kept(written.subrange(0, i as int)),
                decreases ps.len() - i,
            {
                let k = concat_str(prefix.as_str(), ps[i].0.as_str());
                let ghost before = params_contents(*out);
                let v = ps[i].1.clone();
                let ghost vv = v@;
                params_insert(out, k, v);
                proof {
                    assert(written[i as int].1 == vv);
                    if !vv.contains('%') {
                        lemma_contents_insert_injective(before, k@, url_unescape(vv), vv);
                    }
                    let w = written.subrange(0, i + 1);
                    assert forall|j: int|
                        0 <= j < w.len() && !(#[trigger] w[j]).1.contains('%') implies url_unescape(w[j].1)
                        == w[j].1 by {
                        if j < i {
                            assert(w[j] == written.subrange(0, i as int)[j]);
                        }
                    }
                }
                assert(written.subrange(0, i + 1).drop_last() =~= written.subrange(0, i as int));
                i = i + 1;
            }
            assert(written.subrange(0, i as int) =~= written);
        },
        Field::Skip => {
        },
    }
}

} // verus!
