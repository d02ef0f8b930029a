//! The laws of the query format: writing a state and reading it back gives
//! the state.

use vstd::prelude::*;
use vstd::view::View as _;
use crate::filters::{filters_wf, distinct_keys, key_index, spec_set, lemma_key_index};
use crate::params::{contents_index, contents_insert, lemma_contents_index, contents_pairs, entry_pairs, url_unescape};
use crate::query::format::{
    first_dot, split_dot, has_dot, lemma_first_dot, ValueView, group_index, lemma_group_index,
    group_step, group_pairs, insert_all,
};
use crate::query::state::{
    QueryModel, QueryState, View, DecodeAcc, key_view, key_filters, key_zoom_axis, key_lang, view_code,
    view_of_code, filter_pairs, optional_pair, to_pairs, spec_to_params, spec_from_params,
    spec_from_pairs, query_wf, decode_step, decode_groups, empty_acc, finish, filters_of,
    map_insert, insert_pos, sorted_keys,
};
use crate::text::{seq_lt, lemma_seq_lt_irreflexive};

verus! {

// ---------------------------------------------------------------------------
// Inserting pairs with distinct keys into an empty map.

/// No key occurs twice among the pairs.
pub open spec fn distinct_pair_keys(ps: Seq<(Seq<char>, Seq<char>)>) -> bool {
    forall|i: int, j: int| 0 <= i < j < ps.len() ==> #[trigger] ps[i].0 != #[trigger] ps[j].0
}

pub open spec fn singleton_entries(ps: Seq<(Seq<char>, Seq<char>)>) -> Seq<(Seq<char>, Seq<Seq<char>>)> {
    ps.map_values(|p: (Seq<char>, Seq<char>)| (p.0, seq![url_unescape(p.1)]))
}

pub open spec fn unescaped_pairs(ps: Seq<(Seq<char>, Seq<char>)>) -> Seq<(Seq<char>, Seq<char>)> {
    ps.map_values(|p: (Seq<char>, Seq<char>)| (p.0, url_unescape(p.1)))
}


proof fn lemma_insert_all_distinct(ps: Seq<(Seq<char>, Seq<char>)>)
    requires
        distinct_pair_keys(ps),
    ensures
        insert_all(Seq::empty(), ps) == singleton_entries(ps),
    decreases ps.len(),
{
    if ps.len() == 0 {
        assert(singleton_entries(ps) =~= Seq::<(Seq<char>, Seq<Seq<char>>)>::empty());
    } else {
        let pre = ps.drop_last();
        assert(distinct_pair_keys(pre)) by {
            assert forall|i: int, j: int| 0 <= i < j < pre.len() implies #[trigger] pre[i].0 != #[trigger] pre[j].0 by {
                assert(pre[i] == ps[i] && pre[j] == ps[j]);
            }
        }
        lemma_insert_all_distinct(pre);
        let c = singleton_entries(pre);
        let k = ps.last().0;
        assert forall|j: int| 0 <= j < c.len() implies #[trigger] c[j].0 != k by {
            assert(c[j].0 == ps[j].0);
            assert(ps[j].0 != ps[ps.len() - 1].0);
        }
        lemma_contents_index(c, k);
        assert(singleton_entries(ps) =~= c.push((k, seq![url_unescape(ps.last().1)])));
    }
}

proof fn lemma_contents_pairs_singletons(ps: Seq<(Seq<char>, Seq<char>)>)
    ensures
        contents_pairs(singleton_entries(ps)) == unescaped_pairs(ps),
    decreases ps.len(),
{
    if ps.len() == 0 {
        assert(unescaped_pairs(ps) =~= Seq::<(Seq<char>, Seq<char>)>::empty());
    } else {
        let pre = ps.drop_last();
        lemma_contents_pairs_singletons(pre);
        let c = singleton_entries(ps);
        assert(c.drop_last() =~= singleton_entries(pre));
        let last = c.last();
        assert(entry_pairs(last.0, last.1) =~= seq![(ps.last().0, url_unescape(ps.last().1))]);
        assert(unescaped_pairs(ps) =~= unescaped_pairs(pre) + seq![(ps.last().0, url_unescape(ps.last().1))]);
    }
}

/// Pairs with distinct keys, inserted into an empty router map, iterate back
/// as the same pairs with their values unescaped.
pub proof fn lemma_pairs_through_params(ps: Seq<(Seq<char>, Seq<char>)>)
    requires
        distinct_pair_keys(ps),
    ensures
        contents_pairs(insert_all(Seq::empty(), ps)) == unescaped_pairs(ps),
{
    lemma_insert_all_distinct(ps);
    lemma_contents_pairs_singletons(ps);
}

// ---------------------------------------------------------------------------
// The named keys.

proof fn lemma_named_keys()
    ensures
        !has_dot(key_view()),
        !has_dot(key_filters()),
        !has_dot(key_zoom_axis()),
        !has_dot(key_lang()),
        key_view() != key_filters(),
        key_view() != key_zoom_axis(),
        key_view() != key_lang(),
        key_filters() != key_zoom_axis(),
        key_filters() != key_lang(),
        key_zoom_axis() != key_lang(),
        key_filters().len() == 7,
{
    let v = key_view();
    let f = key_filters();
    let z = key_zoom_axis();
    let l = key_lang();
    assert forall|i: int| 0 <= i < v.len() implies v[i] != '.' by {}
    assert forall|i: int| 0 <= i < f.len() implies f[i] != '.' by {}
    assert forall|i: int| 0 <= i < z.len() implies z[i] != '.' by {}
    assert forall|i: int| 0 <= i < l.len() implies l[i] != '.' by {}
    assert(v[0] != l[0]);
}

proof fn lemma_first_dot_after(a: Seq<char>, b: Seq<char>)
    requires
        !has_dot(a),
    ensures
        split_dot(a + seq!['.'] + b) == Some((a, b)),
{
    let k = a + seq!['.'] + b;
    lemma_first_dot(k);
    lemma_first_dot(a);
    assert(k[a.len() as int] == '.');
    match first_dot(k) {
        Some(i) => {
            if i < a.len() {
                assert(k[i] == a[i]);
            } else if i > a.len() {
                assert(k[a.len() as int] != '.');
            }
            assert(k.subrange(0, a.len() as int) =~= a);
            assert(k.subrange(a.len() as int + 1, k.len() as int) =~= b);
        },
        None => {
            assert(k[a.len() as int] != '.');
        },
    }
}

proof fn lemma_has_dot_after(a: Seq<char>, b: Seq<char>)
    ensures
        has_dot(a + seq!['.'] + b),
{
    let k = a + seq!['.'] + b;
    assert(k[a.len() as int] == '.');
}

// ---------------------------------------------------------------------------
// Grouping the written pairs.

pub open spec fn group_from(out: Seq<(Seq<char>, ValueView)>, ps: Seq<(Seq<char>, Seq<char>)>) -> Seq<(Seq<char>, ValueView)>
    decreases ps.len(),
{
    if ps.len() == 0 {
        out
    } else {
        group_step(group_from(out, ps.drop_last()), ps.last().0, ps.last().1)
    }
}

proof fn lemma_group_pairs_from(ps: Seq<(Seq<char>, Seq<char>)>)
    ensures
        group_pairs(ps) == group_from(Seq::empty(), ps),
    decreases ps.len(),
{
    if ps.len() > 0 {
        lemma_group_pairs_from(ps.drop_last());
    }
}

proof fn lemma_group_from_append(out: Seq<(Seq<char>, ValueView)>, a: Seq<(Seq<char>, Seq<char>)>, b: Seq<(Seq<char>, Seq<char>)>)
    ensures
        group_from(out, a + b) == group_from(group_from(out, a), b),
    decreases b.len(),
{
    if b.len() == 0 {
        assert(a + b =~= a);
    } else {
        lemma_group_from_append(out, a, b.drop_last());
        assert((a + b).drop_last() =~= a + b.drop_last());
        assert((a + b).last() == b.last());
    }
}

pub open spec fn scalar_groups(ps: Seq<(Seq<char>, Seq<char>)>) -> Seq<(Seq<char>, ValueView)> {
    ps.map_values(|p: (Seq<char>, Seq<char>)| (p.0, ValueView::Scalar(p.1)))
}

proof fn lemma_group_dotless(out: Seq<(Seq<char>, ValueView)>, ps: Seq<(Seq<char>, Seq<char>)>)
    requires
        forall|i: int| 0 <= i < ps.len() ==> !has_dot(#[trigger] ps[i].0),
    ensures
        group_from(out, ps) == out + scalar_groups(ps),
    decreases ps.len(),
{
    if ps.len() == 0 {
        assert(out + scalar_groups(ps) =~= out);
    } else {
        let pre = ps.drop_last();
        assert forall|i: int| 0 <= i < pre.len() implies !has_dot(#[trigger] pre[i].0) by {
            assert(pre[i] == ps[i]);
        }
        lemma_group_dotless(out, pre);
        assert(!has_dot(ps[ps.len() - 1].0));
        lemma_first_dot(ps.last().0);
        assert(out + scalar_groups(ps) =~= (out + scalar_groups(pre)).push((ps.last().0, ValueView::Scalar(ps.last().1))));
    }
}

proof fn lemma_group_filters(out: Seq<(Seq<char>, ValueView)>, f: Seq<(Seq<char>, Seq<char>)>)
    requires
        forall|i: int| 0 <= i < out.len() ==> (#[trigger] out[i]).0 != key_filters(),
    ensures
        group_from(out, filter_pairs(f)) == (if f.len() == 0 {
            out
        } else {
            out.push((key_filters(), ValueView::Nest(f)))
        }),
    decreases f.len(),
{
    lemma_named_keys();
    if f.len() == 0 {
        assert(filter_pairs(f) =~= Seq::<(Seq<char>, Seq<char>)>::empty());
    } else {
        let pre = f.drop_last();
        let ps = filter_pairs(f);
        assert(ps.drop_last() =~= filter_pairs(pre));
        lemma_group_filters(out, pre);
        let k = ps.last().0;
        assert(k == key_filters() + seq!['.'] + f.last().0);
        lemma_first_dot_after(key_filters(), f.last().0);
        let cur = group_from(out, filter_pairs(pre));
        lemma_group_index(cur, key_filters());
        if pre.len() == 0 {
            assert(group_index(cur, key_filters()) is None);
            assert(seq![(f.last().0, f.last().1)] =~= f);
        } else {
            let n = out.len() as int;
            assert(cur[n].0 == key_filters());
            if group_index(cur, key_filters()) != Some(n) {
                let j = group_index(cur, key_filters())->0;
                assert(j < n);
                assert(cur[j] == out[j]);
            }
            assert(pre.push((f.last().0, f.last().1)) =~= f);
            assert(cur.update(n, (key_filters(), ValueView::Nest(f))) =~= out.push((key_filters(), ValueView::Nest(f))));
        }
    }
}

// ---------------------------------------------------------------------------
// Reading the grouped fields.

pub open spec fn decode_from(acc: Option<DecodeAcc>, gs: Seq<(Seq<char>, ValueView)>) -> Option<DecodeAcc>
    decreases gs.len(),
{
    if gs.len() == 0 {
        acc
    } else {
        match decode_from(acc, gs.drop_last()) {
            Some(a) => decode_step(a, gs.last()),
            None => None,
        }
    }
}

proof fn lemma_decode_groups_from(gs: Seq<(Seq<char>, ValueView)>)
    ensures
        decode_groups(gs) == decode_from(Some(empty_acc()), gs),
    decreases gs.len(),
{
    if gs.len() > 0 {
        lemma_decode_groups_from(gs.drop_last());
    }
}

proof fn lemma_decode_from_append(acc: Option<DecodeAcc>, a: Seq<(Seq<char>, ValueView)>, b: Seq<(Seq<char>, ValueView)>)
    ensures
        decode_from(acc, a + b) == decode_from(decode_from(acc, a), b),
    decreases b.len(),
{
    if b.len() == 0 {
        assert(a + b =~= a);
    } else {
        lemma_decode_from_append(acc, a, b.drop_last());
        assert((a + b).drop_last() =~= a + b.drop_last());
        assert((a + b).last() == b.last());
    }
    if decode_from(acc, a) is None {
        lemma_decode_from_none(b);
    }
}

proof fn lemma_decode_from_none(b: Seq<(Seq<char>, ValueView)>)
    ensures
        decode_from(None, b) is None,
    decreases b.len(),
{
    if b.len() > 0 {
        lemma_decode_from_none(b.drop_last());
    }
}

proof fn lemma_filters_of_wf(f: Seq<(Seq<char>, Seq<char>)>)
    requires
        filters_wf(f),
    ensures
        filters_of(f) == Some(f),
    decreases f.len(),
{
    if f.len() > 0 {
        let pre = f.drop_last();
        assert(filters_wf(pre)) by {
            assert forall|i: int, j: int| 0 <= i < j < pre.len() implies #[trigger] pre[i].0 != #[trigger] pre[j].0 by {
                assert(pre[i] == f[i] && pre[j] == f[j]);
            }
            assert forall|i: int| 0 <= i < pre.len() implies (#[trigger] pre[i]).0.len() > 0 && pre[i].1.len() > 0 by {
                assert(pre[i] == f[i]);
            }
        }
        lemma_filters_of_wf(pre);
        let n = f.len() - 1;
        assert(f[n].0.len() > 0 && f[n].1.len() > 0);
        lemma_key_index(pre, f.last().0);
        if let Some(i) = key_index(pre, f.last().0) {
            assert(pre[i] == f[i]);
            assert(f[i].0 != f[n].0);
        }
        assert(pre.push(f.last()) =~= f);
    }
}

proof fn lemma_sorted_insert_last(m: Seq<(Seq<char>, Seq<char>)>, k: Seq<char>, v: Seq<char>)
    requires
        forall|j: int| 0 <= j < m.len() ==> seq_lt(#[trigger] m[j].0, k),
    ensures
        map_insert(m, k, v) == m.push((k, v)),
    decreases m.len(),
{
    lemma_key_index(m, k);
    if let Some(i) = key_index(m, k) {
        assert(seq_lt(m[i].0, k));
        lemma_seq_lt_irreflexive(k);
    }
    lemma_insert_pos_all(m, k);
    assert(m.subrange(0, m.len() as int) =~= m);
    assert(m.subrange(m.len() as int, m.len() as int) =~= Seq::<(Seq<char>, Seq<char>)>::empty());
    assert(m + seq![(k, v)] + Seq::<(Seq<char>, Seq<char>)>::empty() =~= m.push((k, v)));
}

proof fn lemma_insert_pos_all(m: Seq<(Seq<char>, Seq<char>)>, k: Seq<char>)
    requires
        forall|j: int| 0 <= j < m.len() ==> seq_lt(#[trigger] m[j].0, k),
    ensures
        insert_pos(m, k) == m.len(),
    decreases m.len(),
{
    if m.len() > 0 {
        let t = m.drop_first();
        assert forall|j: int| 0 <= j < t.len() implies seq_lt(#[trigger] t[j].0, k) by {
            assert(t[j] == m[j + 1]);
        }
        lemma_insert_pos_all(t, k);
        assert(seq_lt(m[0].0, k));
    }
}

proof fn lemma_decode_rest(acc: DecodeAcc, rest: Seq<(Seq<char>, Seq<char>)>, n: int)
    requires
        0 <= n <= rest.len(),
        acc.rest == Seq::<(Seq<char>, Seq<char>)>::empty(),
        sorted_keys(rest),
        forall|i: int| 0 <= i < rest.len() ==> {
            let k = #[trigger] rest[i].0;
            &&& k != key_view()
            &&& k != key_filters()
            &&& k != key_zoom_axis()
            &&& k != key_lang()
        },
    ensures
        decode_from(Some(acc), scalar_groups(rest.subrange(0, n))) == Some(
            DecodeAcc { rest: rest.subrange(0, n), ..acc },
        ),
    decreases n,
{
    if n == 0 {
        assert(scalar_groups(rest.subrange(0, 0)) =~= Seq::<(Seq<char>, ValueView)>::empty());
        assert(rest.subrange(0, 0) =~= Seq::<(Seq<char>, Seq<char>)>::empty());
    } else {
        lemma_decode_rest(acc, rest, n - 1);
        let gs = scalar_groups(rest.subrange(0, n));
        assert(gs.drop_last() =~= scalar_groups(rest.subrange(0, n - 1)));
        let e = rest[n - 1];
        assert(gs.last() == (e.0, ValueView::Scalar(e.1)));
        let m = rest.subrange(0, n - 1);
        assert forall|j: int| 0 <= j < m.len() implies seq_lt(#[trigger] m[j].0, e.0) by {
            assert(m[j] == rest[j]);
        }
        lemma_sorted_insert_last(m, e.0, e.1);
        assert(m.push(e) =~= rest.subrange(0, n));
    }
}

// ---------------------------------------------------------------------------
// The law.

pub open spec fn named_groups(q: QueryModel) -> Seq<(Seq<char>, ValueView)> {
    seq![(key_view(), ValueView::Scalar(view_code(q.view)))] + (if q.filters.len() == 0 {
        Seq::empty()
    } else {
        seq![(key_filters(), ValueView::Nest(q.filters))]
    }) + scalar_groups(optional_pair(key_zoom_axis(), q.zoom_axis)) + scalar_groups(
        optional_pair(key_lang(), q.lang),
    )
}

proof fn lemma_to_pairs_distinct(q: QueryModel)
    requires
        query_wf(q),
    ensures
        distinct_pair_keys(to_pairs(q)),
{
    lemma_named_keys();
    let p1 = seq![(key_view(), view_code(q.view))];
    let p2 = filter_pairs(q.filters);
    let p3 = optional_pair(key_zoom_axis(), q.zoom_axis);
    let p4 = optional_pair(key_lang(), q.lang);
    let p5 = q.rest;
    let ps = to_pairs(q);
    let n1 = p1.len() as int;
    let n2 = n1 + p2.len();
    let n3 = n2 + p3.len();
    let n4 = n3 + p4.len();
    assert(ps =~= p1 + p2 + p3 + p4 + p5);
    assert forall|i: int| 0 <= i < ps.len() implies (#[trigger] ps[i]).0 == (if i < n1 {
        key_view()
    } else if i < n2 {
        key_filters() + seq!['.'] + q.filters[i - n1].0
    } else if i < n3 {
        key_zoom_axis()
    } else if i < n4 {
        key_lang()
    } else {
        q.rest[i - n4].0
    }) by {}
    assert forall|i: int, j: int| 0 <= i < j < ps.len() implies #[trigger] ps[i].0 != #[trigger] ps[j].0 by {
        if n1 <= i < n2 {
            lemma_has_dot_after(key_filters(), q.filters[i - n1].0);
        }
        if n1 <= j < n2 {
            lemma_has_dot_after(key_filters(), q.filters[j - n1].0);
        }
        if n1 <= i < n2 && n1 <= j < n2 {
            let a = q.filters[i - n1].0;
            let b = q.filters[j - n1].0;
            assert(a != b);
            let ka = key_filters() + seq!['.'] + a;
            let kb = key_filters() + seq!['.'] + b;
            if ka == kb {
                assert(ka.subrange(8, ka.len() as int) =~= a);
                assert(kb.subrange(8, kb.len() as int) =~= b);
            }
        }
        if i >= n4 {
            assert(seq_lt(q.rest[i - n4].0, q.rest[j - n4].0));
            lemma_seq_lt_irreflexive(q.rest[i - n4].0);
        }
        if j >= n4 {
            let k = q.rest[j - n4].0;
            assert(!has_dot(k));
        }
    }
}

proof fn lemma_group_to_pairs(q: QueryModel)
    requires
        query_wf(q),
    ensures
        group_pairs(to_pairs(q)) == named_groups(q) + scalar_groups(q.rest),
{
    lemma_named_keys();
    let p1 = seq![(key_view(), view_code(q.view))];
    let p2 = filter_pairs(q.filters);
    let p3 = optional_pair(key_zoom_axis(), q.zoom_axis);
    let p4 = optional_pair(key_lang(), q.lang);
    let p5 = q.rest;
    let e = Seq::<(Seq<char>, ValueView)>::empty();
    lemma_group_pairs_from(to_pairs(q));
    lemma_group_from_append(e, p1 + p2 + p3 + p4, p5);
    lemma_group_from_append(e, p1 + p2 + p3, p4);
    lemma_group_from_append(e, p1 + p2, p3);
    lemma_group_from_append(e, p1, p2);
    assert forall|i: int| 0 <= i < p1.len() implies !has_dot(#[trigger] p1[i].0) by {}
    lemma_group_dotless(e, p1);
    let g1 = e + scalar_groups(p1);
    assert forall|i: int| 0 <= i < g1.len() implies (#[trigger] g1[i]).0 != key_filters() by {}
    lemma_group_filters(g1, q.filters);
    let g2 = group_from(g1, p2);
    assert forall|i: int| 0 <= i < p3.len() implies !has_dot(#[trigger] p3[i].0) by {}
    lemma_group_dotless(g2, p3);
    let g3 = g2 + scalar_groups(p3);
    assert forall|i: int| 0 <= i < p4.len() implies !has_dot(#[trigger] p4[i].0) by {}
    lemma_group_dotless(g3, p4);
    let g4 = g3 + scalar_groups(p4);
    assert forall|i: int| 0 <= i < p5.len() implies !has_dot(#[trigger] p5[i].0) by {}
    lemma_group_dotless(g4, p5);
    assert(e + scalar_groups(p1) =~= seq![(key_view(), ValueView::Scalar(view_code(q.view)))]);
    assert(g4 =~= named_groups(q));
}

proof fn lemma_decode_named(q: QueryModel)
    requires
        query_wf(q),
    ensures
        decode_from(Some(empty_acc()), named_groups(q)) == Some(
            DecodeAcc {
                view: Some(q.view),
                filters: if q.filters.len() == 0 {
                    None
                } else {
                    Some(q.filters)
                },
                zoom_axis: if q.zoom_axis is Some {
                    Some(q.zoom_axis)
                } else {
                    None
                },
                lang: if q.lang is Some {
                    Some(q.lang)
                } else {
                    None
                },
                rest: Seq::empty(),
            },
        ),
{
    lemma_named_keys();
    let g1 = seq![(key_view(), ValueView::Scalar(view_code(q.view)))];
    let g2: Seq<(Seq<char>, ValueView)> = if q.filters.len() == 0 {
        Seq::empty()
    } else {
        seq![(key_filters(), ValueView::Nest(q.filters))]
    };
    let g3 = scalar_groups(optional_pair(key_zoom_axis(), q.zoom_axis));
    let g4 = scalar_groups(optional_pair(key_lang(), q.lang));
    let a0 = Some(empty_acc());
    lemma_decode_from_append(a0, g1 + g2 + g3, g4);
    lemma_decode_from_append(a0, g1 + g2, g3);
    lemma_decode_from_append(a0, g1, g2);
    assert(view_code(View::Facet) != view_code(View::MapPage)) by {
        assert(view_code(View::Facet).len() != view_code(View::MapPage).len());
    }
    assert(view_of_code(view_code(q.view)) == Some(q.view));
    let a1 = decode_from(a0, g1);
    assert(g1.drop_last() =~= Seq::<(Seq<char>, ValueView)>::empty());
    assert(decode_from(a0, g1.drop_last()) == a0);
    assert(g1.last() == (key_view(), ValueView::Scalar(view_code(q.view))));
    assert(decode_step(empty_acc(), g1.last()) == Some(DecodeAcc { view: Some(q.view), ..empty_acc() }));
    assert(a1 == Some(DecodeAcc { view: Some(q.view), ..empty_acc() }));
    let a2 = decode_from(a1, g2);
    if q.filters.len() > 0 {
        lemma_filters_of_wf(q.filters);
        assert(g2.drop_last() =~= Seq::<(Seq<char>, ValueView)>::empty());
        assert(decode_from(a1, g2.drop_last()) == a1);
    } else {
        assert(g2 =~= Seq::<(Seq<char>, ValueView)>::empty());
    }
    let a3 = decode_from(a2, g3);
    if q.zoom_axis is Some {
        assert(g3.drop_last() =~= Seq::<(Seq<char>, ValueView)>::empty());
        assert(decode_from(a2, g3.drop_last()) == a2);
    } else {
        assert(g3 =~= Seq::<(Seq<char>, ValueView)>::empty());
    }
    if q.lang is Some {
        assert(g4.drop_last() =~= Seq::<(Seq<char>, ValueView)>::empty());
        assert(decode_from(a3, g4.drop_last()) == a3);
    } else {
        assert(g4 =~= Seq::<(Seq<char>, ValueView)>::empty());
    }
    assert(g1 + g2 + g3 + g4 =~= named_groups(q));
}

/// Writing a well-formed state to the router's query map and reading it back
/// gives the state, provided the router's unescaping leaves every written
/// value unchanged (it does for values without `%` escapes).
pub proof fn lemma_params_round_trip(q: QueryModel)
    requires
        query_wf(q),
        forall|i: int| 0 <= i < to_pairs(q).len() ==> url_unescape(#[trigger] to_pairs(q)[i].1) == to_pairs(q)[i].1,
    ensures
        spec_from_params(spec_to_params(q)) == q,
{
    let ps = to_pairs(q);
    lemma_to_pairs_distinct(q);
    lemma_pairs_through_params(ps);
    assert(unescaped_pairs(ps) =~= ps);
    lemma_group_to_pairs(q);
    let gs = named_groups(q) + scalar_groups(q.rest);
    lemma_decode_groups_from(gs);
    lemma_decode_from_append(Some(empty_acc()), named_groups(q), scalar_groups(q.rest));
    lemma_decode_named(q);
    let acc = decode_from(Some(empty_acc()), named_groups(q))->0;
    lemma_decode_rest(acc, q.rest, q.rest.len() as int);
    assert(q.rest.subrange(0, q.rest.len() as int) =~= q.rest);
    assert(spec_from_pairs(ps) == finish(DecodeAcc { rest: q.rest, ..acc }));
    assert(finish(DecodeAcc { rest: q.rest, ..acc }) =~= q) by {
        if q.filters.len() == 0 {
            assert(q.filters =~= Seq::<(Seq<char>, Seq<char>)>::empty());
        }
    }
}

/// No value among the pairs holds a `%`.
pub open spec fn no_percent_values(ps: Seq<(Seq<char>, Seq<char>)>) -> bool {
    forall|i: int| 0 <= i < ps.len() ==> !(#[trigger] ps[i]).1.contains('%')
}

impl QueryState {
    /// Whether writing this state to a query and reading the query back
    /// gives this state again. It does whenever the state is well formed and
    /// no value it writes changes under the router's percent-decoding, in
    /// particular when no value it writes holds a `%`.
    pub fn round_trips(&self) -> (r: bool)
        ensures
            r == (spec_from_params(spec_to_params(self.model())) == self.model()),
            (query_wf(self.model()) && forall|i: int|
                0 <= i < to_pairs(self.model()).len() ==> url_unescape(
                    #[trigger] to_pairs(self.model())[i].1,
                ) == to_pairs(self.model())[i].1) ==> r,
            (query_wf(self.model()) && no_percent_values(to_pairs(self.model()))) ==> r,
    {
        let written = self.to_params();
        let back = QueryState::from_params(&written);
        proof {
            let q = self.model();
            let ps = to_pairs(q);
            if query_wf(q) && no_percent_values(ps) {
                assert forall|i: int| 0 <= i < ps.len() implies url_unescape(#[trigger] ps[i].1) == ps[i].1 by {
                    assert(!ps[i].1.contains('%'));
                }
            }
            if query_wf(q) && forall|i: int|
                0 <= i < ps.len() ==> url_unescape(#[trigger] ps[i].1) == ps[i].1 {
                lemma_params_round_trip(q);
            }
        }
        back.same(self)
    }
}

} // verus!
