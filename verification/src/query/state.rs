//! The typed query state and its conversion to and from the router's map.

use vstd::prelude::*;
use vstd::view::View as _;
use leptos_router::params::ParamsMap;
use crate::filters::{Filters, key_index, spec_set, filters_wf, lemma_key_index};
use crate::ids::{CategoryId, Id};
use crate::params::{params_contents, params_new, params_pairs, params_query_string, contents_pairs, query_string, url_escape, string_pairs_view, plain_values_kept, lemma_plain_values_kept_append};
use crate::query::format::{Field, Value, ValueView, group, group_pairs, groups_view, push_field, insert_all, field_pairs, lemma_insert_all_append, has_dot};
use crate::text::{str_eq, str_lt, seq_lt, concat_str};

verus! {

/// Which screen is shown. In the query: `view=facet` or `view=map`.
#[derive(Clone, Copy, Debug, PartialEq, Eq, Structural)]
pub enum View {
    Facet,
    MapPage,
}

pub open spec fn key_view() -> Seq<char> {
    seq!['v', 'i', 'e', 'w']
}

pub open spec fn key_filters() -> Seq<char> {
    seq!['f', 'i', 'l', 't', 'e', 'r', 's']
}

pub open spec fn key_zoom_axis() -> Seq<char> {
    seq!['z', 'o', 'o', 'm', '_', 'a', 'x', 'i', 's']
}

pub open spec fn key_lang() -> Seq<char> {
    seq!['l', 'a', 'n', 'g']
}

/// The query text of a view.
pub open spec fn view_code(v: View) -> Seq<char> {
    match v {
        View::Facet => seq!['f', 'a', 'c', 'e', 't'],
        View::MapPage => seq!['m', 'a', 'p'],
    }
}

/// The view whose query text is `s`, if any.
pub open spec fn view_of_code(s: Seq<char>) -> Option<View> {
    if s == view_code(View::Facet) {
        Some(View::Facet)
    } else if s == view_code(View::MapPage) {
        Some(View::MapPage)
    } else {
        None
    }
}

impl View {
    /// The view shown when the query names none.
    pub fn default_view() -> (r: View)
        ensures
            r == View::Facet,
    {
        View::Facet
    }

    /// The query text of the view.
    pub fn code(self) -> (r: &'static str)
        ensures
            r@ == view_code(self),
    {
        match self {
            View::Facet => {
                let s = "facet";
                proof {
                    reveal_strlit("facet");
                }
                assert(s@ =~= view_code(self));
                s
            },
            View::MapPage => {
                let s = "map";
                proof {
                    reveal_strlit("map");
                }
                assert(s@ =~= view_code(self));
                s
            },
        }
    }

    /// The view named by a query text, if any.
    pub fn from_code(s: &str) -> (r: Option<View>)
        ensures
            r == view_of_code(s@),
    {
        if str_eq(s, View::Facet.code()) {
            Some(View::Facet)
        } else if str_eq(s, View::MapPage.code()) {
            Some(View::MapPage)
        } else {
            None
        }
    }
}

fn key_view_str() -> (r: &'static str)
    ensures
        r@ == key_view(),
{
    let s = "view";
    proof {
        reveal_strlit("view");
    }
    assert(s@ =~= key_view());
    s
}

fn key_filters_str() -> (r: &'static str)
    ensures
        r@ == key_filters(),
{
    let s = "filters";
    proof {
        reveal_strlit("filters");
    }
    assert(s@ =~= key_filters());
    s
}

fn key_zoom_axis_str() -> (r: &'static str)
    ensures
        r@ == key_zoom_axis(),
{
    let s = "zoom_axis";
    proof {
        reveal_strlit("zoom_axis");
    }
    assert(s@ =~= key_zoom_axis());
    s
}

fn key_lang_str() -> (r: &'static str)
    ensures
        r@ == key_lang(),
{
    let s = "lang";
    proof {
        reveal_strlit("lang");
    }
    assert(s@ =~= key_lang());
    s
}

/// The abstract query state.
pub struct QueryModel {
    pub view: View,
    pub filters: Seq<(Seq<char>, Seq<char>)>,
    pub zoom_axis: Option<Seq<char>>,
    pub lang: Option<Seq<char>>,
    pub rest: Seq<(Seq<char>, Seq<char>)>,
}

/// The state of an empty query.
pub open spec fn default_model() -> QueryModel {
    QueryModel {
        view: View::Facet,
        filters: Seq::empty(),
        zoom_axis: None,
        lang: None,
        rest: Seq::empty(),
    }
}

// ---------------------------------------------------------------------------
// The map of keys no field models: sorted by key, each key once.

/// The position at which a new key `k` goes in a sorted map.
pub open spec fn insert_pos(m: Seq<(Seq<char>, Seq<char>)>, k: Seq<char>) -> int
    decreases m.len(),
{
    if m.len() == 0 {
        0
    } else if seq_lt(m[0].0, k) {
        1 + insert_pos(m.drop_first(), k)
    } else {
        0
    }
}

/// The sorted map after `insert(k, v)`: an existing key gets the new value, a
/// new key goes to its place in key order.
pub open spec fn map_insert(m: Seq<(Seq<char>, Seq<char>)>, k: Seq<char>, v: Seq<char>) -> Seq<(Seq<char>, Seq<char>)> {
    match key_index(m, k) {
        Some(i) => m.update(i, (k, v)),
        None => m.subrange(0, insert_pos(m, k)) + seq![(k, v)] + m.subrange(insert_pos(m, k), m.len() as int),
    }
}

/// Keys strictly increasing.
pub open spec fn sorted_keys(m: Seq<(Seq<char>, Seq<char>)>) -> bool {
    forall|i: int, j: int| 0 <= i < j < m.len() ==> seq_lt(#[trigger] m[i].0, #[trigger] m[j].0)
}

// ---------------------------------------------------------------------------
// Reading a query.

/// The filters of a `filters.*` map: each entry sets its root in turn; an
/// empty root or value is an error.
pub open spec fn filters_of(es: Seq<(Seq<char>, Seq<char>)>) -> Option<Seq<(Seq<char>, Seq<char>)>>
    decreases es.len(),
{
    if es.len() == 0 {
        Some(Seq::empty())
    } else {
        match filters_of(es.drop_last()) {
            Some(f) => if es.last().0.len() > 0 && es.last().1.len() > 0 {
                Some(spec_set(f, es.last().0, es.last().1))
            } else {
                None
            },
            None => None,
        }
    }
}

/// What reading has gathered so far: each named field at most once, the
/// other scalar fields in a sorted map.
pub struct DecodeAcc {
    pub view: Option<View>,
    pub filters: Option<Seq<(Seq<char>, Seq<char>)>>,
    pub zoom_axis: Option<Option<Seq<char>>>,
    pub lang: Option<Option<Seq<char>>>,
    pub rest: Seq<(Seq<char>, Seq<char>)>,
}

pub open spec fn empty_acc() -> DecodeAcc {
    DecodeAcc { view: None, filters: None, zoom_axis: None, lang: None, rest: Seq::empty() }
}

/// One grouped field read. A named field given twice, a value of the wrong
/// shape (a map for a scalar or the other way round), an unknown view, an
/// empty identifier, or a map under an unmodelled key is an error.
pub open spec fn decode_step(acc: DecodeAcc, g: (Seq<char>, ValueView)) -> Option<DecodeAcc> {
    if g.0 == key_view() {
        if acc.view is Some {
            None
        } else {
            match g.1 {
                ValueView::Scalar(s) => match view_of_code(s) {
                    Some(v) => Some(DecodeAcc { view: Some(v), ..acc }),
                    None => None,
                },
                ValueView::Nest(_) => None,
            }
        }
    } else if g.0 == key_filters() {
        if acc.filters is Some {
            None
        } else {
            match g.1 {
                ValueView::Nest(es) => match filters_of(es) {
                    Some(f) => Some(DecodeAcc { filters: Some(f), ..acc }),
                    None => None,
                },
                ValueView::Scalar(_) => None,
            }
        }
    } else if g.0 == key_zoom_axis() {
        if acc.zoom_axis is Some {
            None
        } else {
            match g.1 {
                ValueView::Scalar(s) => if s.len() > 0 {
                    Some(DecodeAcc { zoom_axis: Some(Some(s)), ..acc })
                } else {
                    None
                },
                ValueView::Nest(_) => None,
            }
        }
    } else if g.0 == key_lang() {
        if acc.lang is Some {
            None
        } else {
            match g.1 {
                ValueView::Scalar(s) => Some(DecodeAcc { lang: Some(Some(s)), ..acc }),
                ValueView::Nest(_) => None,
            }
        }
    } else {
        match g.1 {
            ValueView::Scalar(s) => Some(DecodeAcc { rest: map_insert(acc.rest, g.0, s), ..acc }),
            ValueView::Nest(_) => None,
        }
    }
}

/// The grouped fields read in order; `None` on the first error.
pub open spec fn decode_groups(gs: Seq<(Seq<char>, ValueView)>) -> Option<DecodeAcc>
    decreases gs.len(),
{
    if gs.len() == 0 {
        Some(empty_acc())
    } else {
        match decode_groups(gs.drop_last()) {
            Some(acc) => decode_step(acc, gs.last()),
            None => None,
        }
    }
}

/// The state once every field is read: missing fields take their defaults.
pub open spec fn finish(acc: DecodeAcc) -> QueryModel {
    QueryModel {
        view: match acc.view {
            Some(v) => v,
            None => View::Facet,
        },
        filters: match acc.filters {
            Some(f) => f,
            None => Seq::empty(),
        },
        zoom_axis: match acc.zoom_axis {
            Some(z) => z,
            None => None,
        },
        lang: match acc.lang {
            Some(l) => l,
            None => None,
        },
        rest: acc.rest,
    }
}

/// The state that the query pairs describe; the default state when they do
/// not form a valid query.
pub open spec fn spec_from_pairs(ps: Seq<(Seq<char>, Seq<char>)>) -> QueryModel {
    match decode_groups(group_pairs(ps)) {
        Some(acc) => finish(acc),
        None => default_model(),
    }
}

/// The state that a router query map describes.
pub open spec fn spec_from_params(c: Seq<(Seq<char>, Seq<Seq<char>>)>) -> QueryModel {
    spec_from_pairs(contents_pairs(c))
}

// ---------------------------------------------------------------------------
// Writing a query.

pub open spec fn filter_pairs(f: Seq<(Seq<char>, Seq<char>)>) -> Seq<(Seq<char>, Seq<char>)> {
    f.map_values(|e: (Seq<char>, Seq<char>)| (key_filters() + seq!['.'] + e.0, e.1))
}

pub open spec fn optional_pair(k: Seq<char>, v: Option<Seq<char>>) -> Seq<(Seq<char>, Seq<char>)> {
    match v {
        Some(s) => seq![(k, s)],
        None => Seq::empty(),
    }
}

/// The query pairs of a state, in order: the view (always), the filters,
/// the zoom axis and the language when set, then the unmodelled keys.
pub open spec fn to_pairs(q: QueryModel) -> Seq<(Seq<char>, Seq<char>)> {
    seq![(key_view(), view_code(q.view))] + filter_pairs(q.filters) + optional_pair(key_zoom_axis(), q.zoom_axis)
        + optional_pair(key_lang(), q.lang) + q.rest
}

/// The router map that the state is written to.
pub open spec fn spec_to_params(q: QueryModel) -> Seq<(Seq<char>, Seq<Seq<char>>)> {
    insert_all(Seq::empty(), to_pairs(q))
}

/// A state as reading can produce it: filters well formed, a non-empty zoom
/// axis, and unmodelled keys sorted, dot-free and distinct from the named
/// fields.
pub open spec fn query_wf(q: QueryModel) -> bool {
    &&& filters_wf(q.filters)
    &&& (q.zoom_axis matches Some(z) ==> z.len() > 0)
    &&& sorted_keys(q.rest)
    &&& forall|i: int| 0 <= i < q.rest.len() ==> {
        let k = #[trigger] q.rest[i].0;
        &&& !has_dot(k)
        &&& k != key_view()
        &&& k != key_filters()
        &&& k != key_zoom_axis()
        &&& k != key_lang()
    }
}

// ---------------------------------------------------------------------------
// The executable state.

/// All state that the URL query carries.
#[derive(Debug)]
pub struct QueryState {
    pub view: View,
    pub filters: Filters,
    pub zoom_axis: Option<CategoryId>,
    pub lang: Option<String>,
    pub rest: ForeignKeys,
}

/// The keys of a query that no field models, with their values, sorted by
/// key, each key once. Only reading a query fills it.
#[derive(Debug)]
pub struct ForeignKeys {
    pairs: Vec<(String, String)>,
}

impl vstd::view::View for ForeignKeys {
    type V = Seq<(Seq<char>, Seq<char>)>;

    closed spec fn view(&self) -> Seq<(Seq<char>, Seq<char>)> {
        string_pairs_view(self.pairs@)
    }
}

pub open spec fn opt_id_view(o: Option<CategoryId>) -> Option<Seq<char>> {
    match o {
        Some(z) => Some(z@),
        None => None,
    }
}

pub open spec fn opt_string_view(o: Option<String>) -> Option<Seq<char>> {
    match o {
        Some(s) => Some(s@),
        None => None,
    }
}

impl QueryState {
    /// The abstract state: the fields' views, and the keys no field models
    /// (sorted) with their values.
    pub open spec fn model(&self) -> QueryModel {
        QueryModel {
            view: self.view,
            filters: self.filters@,
            zoom_axis: opt_id_view(self.zoom_axis),
            lang: opt_string_view(self.lang),
            rest: self.rest@,
        }
    }
}

// ---------------------------------------------------------------------------
// Lemmas about the specifications above.

proof fn lemma_decode_none(gs: Seq<(Seq<char>, ValueView)>, n: int)
    requires
        0 <= n <= gs.len(),
        decode_groups(gs.subrange(0, n)) is None,
    ensures
        decode_groups(gs) is None,
    decreases gs.len() - n,
{
    if n < gs.len() {
        assert(gs.subrange(0, n + 1).drop_last() =~= gs.subrange(0, n));
        lemma_decode_none(gs, n + 1);
    } else {
        assert(gs.subrange(0, n) =~= gs);
    }
}

proof fn lemma_filters_of_none(es: Seq<(Seq<char>, Seq<char>)>, n: int)
    requires
        0 <= n <= es.len(),
        filters_of(es.subrange(0, n)) is None,
    ensures
        filters_of(es) is None,
    decreases es.len() - n,
{
    if n < es.len() {
        assert(es.subrange(0, n + 1).drop_last() =~= es.subrange(0, n));
        lemma_filters_of_none(es, n + 1);
    } else {
        assert(es.subrange(0, n) =~= es);
    }
}

proof fn lemma_insert_pos(m: Seq<(Seq<char>, Seq<char>)>, k: Seq<char>, i: int)
    requires
        0 <= i <= m.len(),
        forall|j: int| 0 <= j < i ==> seq_lt(#[trigger] m[j].0, k),
    ensures
        insert_pos(m, k) == i + insert_pos(m.subrange(i, m.len() as int), k),
    decreases i,
{
    if i > 0 {
        let t = m.drop_first();
        assert forall|j: int| 0 <= j < i - 1 implies seq_lt(#[trigger] t[j].0, k) by {
            assert(t[j] == m[j + 1]);
        }
        lemma_insert_pos(t, k, i - 1);
        assert(t.subrange(i - 1, t.len() as int) =~= m.subrange(i, m.len() as int));
        assert(seq_lt(m[0].0, k));
    } else {
        assert(m.subrange(0, m.len() as int) =~= m);
    }
}

// ---------------------------------------------------------------------------
// Executable helpers.

fn clone_opt_id(o: &Option<CategoryId>) -> (r: Option<CategoryId>)
    ensures
        opt_id_view(r) == opt_id_view(*o),
{
    match o {
        Some(z) => Some(z.clone()),
        None => None,
    }
}

fn clone_opt_string(o: &Option<String>) -> (r: Option<String>)
    ensures
        opt_string_view(r) == opt_string_view(*o),
{
    match o {
        Some(z) => Some(z.clone()),
        None => None,
    }
}

fn clone_rest(v: &Vec<(String, String)>) -> (r: Vec<(String, String)>)
    ensures
        string_pairs_view(r@) == string_pairs_view(v@),
{
    let mut out: Vec<(String, String)> = Vec::new();
    let mut i: usize = 0;
    while i < v.len()
        invariant
            i <= v@.len(),
            string_pairs_view(out@) == string_pairs_view(v@).subrange(0, i as int),
        decreases v.len() - i,
    {
        let p = (v[i].0.clone(), v[i].1.clone());
        proof {
            crate::params::lemma_string_pairs_push(out@, p);
        }
        out.push(p);
        i = i + 1;
        assert(string_pairs_view(out@) =~= string_pairs_view(v@).subrange(0, i as int));
    }
    assert(string_pairs_view(v@).subrange(0, i as int) =~= string_pairs_view(v@));
    out
}

fn opt_id_same(a: &Option<CategoryId>, b: &Option<CategoryId>) -> (r: bool)
    ensures
        r == (opt_id_view(*a) == opt_id_view(*b)),
{
    match (a, b) {
        (Some(x), Some(y)) => x.same(y),
        (None, None) => true,
        _ => false,
    }
}

fn opt_string_same(a: &Option<String>, b: &Option<String>) -> (r: bool)
    ensures
        r == (opt_string_view(*a) == opt_string_view(*b)),
{
    match (a, b) {
        (Some(x), Some(y)) => str_eq(x.as_str(), y.as_str()),
        (None, None) => true,
        _ => false,
    }
}

fn pairs_same(a: &Vec<(String, String)>, b: &Vec<(String, String)>) -> (r: bool)
    ensures
        r == (string_pairs_view(a@) == string_pairs_view(b@)),
{
    let ghost va = string_pairs_view(a@);
    let ghost vb = string_pairs_view(b@);
    if a.len() != b.len() {
        assert(va.len() != vb.len());
        return false;
    }
    let mut i: usize = 0;
    while i < a.len()
        invariant
            i <= a@.len(),
            a@.len() == b@.len(),
            va == string_pairs_view(a@),
            vb == string_pairs_view(b@),
            forall|j: int| 0 <= j < i ==> va[j] == vb[j],
        decreases a.len() - i,
    {
        if !str_eq(a[i].0.as_str(), b[i].0.as_str()) || !str_eq(a[i].1.as_str(), b[i].1.as_str()) {
            assert(va[i as int] != vb[i as int]);
            return false;
        }
        i = i + 1;
    }
    assert(va =~= vb);
    true
}

/// Inserts into the sorted map of unmodelled keys.
fn rest_insert(m: &mut Vec<(String, String)>, k: String, v: String)
    ensures
        string_pairs_view(final(m)@) == map_insert(string_pairs_view(old(m)@), k@, v@),
{
    let ghost mv = string_pairs_view(m@);
    let ghost kv = k@;
    let ghost vv = v@;
    let mut i: usize = 0;
    while i < m.len()
        invariant
            i <= m@.len(),
            mv == string_pairs_view(m@),
            mv == string_pairs_view(old(m)@),
            mv.len() == m@.len(),
            kv == k@,
            vv == v@,
            forall|j: int| 0 <= j < i ==> mv[j].0 != kv,
        decreases m.len() - i,
    {
        if str_eq(m[i].0.as_str(), k.as_str()) {
            proof {
                lemma_key_index(mv, kv);
                match key_index(mv, kv) {
                    Some(a) => {
                        if a < i {
                            assert(mv[a].0 != kv);
                        } else if a > i {
                            assert(mv[i as int].0 != kv);
                        }
                    },
                    None => {
                        assert(mv[i as int].0 != kv);
                    },
                }
                assert(key_index(mv, kv) == Some(i as int));
            }
            let ghost before = m@;
            let pair = (k, v);
            proof {
                crate::params::lemma_string_pairs_update(before, i as int, pair);
            }
            m.set(i, pair);
            assert(m@ == before.update(i as int, pair));
            assert(string_pairs_view(m@) == mv.update(i as int, (kv, vv)));
            assert(string_pairs_view(m@) =~= map_insert(mv, kv, vv));
            return;
        }
        i = i + 1;
    }
    proof {
        lemma_key_index(mv, kv);
        if let Some(a) = key_index(mv, kv) {
            assert(mv[a].0 != kv);
        }
    }
    let mut p: usize = 0;
    while p < m.len() && str_lt(m[p].0.as_str(), k.as_str())
        invariant
            p <= m@.len(),
            mv == string_pairs_view(m@),
            mv.len() == m@.len(),
            kv == k@,
            vv == v@,
            forall|j: int| 0 <= j < p ==> seq_lt(#[trigger] mv[j].0, kv),
        decreases m.len() - p,
    {
        p = p + 1;
    }
    proof {
        lemma_insert_pos(mv, kv, p as int);
        let t = mv.subrange(p as int, mv.len() as int);
        if p < m.len() {
            assert(t[0] == mv[p as int]);
        }
        assert(insert_pos(t, kv) == 0);
    }
    m.insert(p, (k, v));
    assert(string_pairs_view(m@) =~= map_insert(mv, kv, vv));
}

/// The filters of a `filters.*` map; `None` when a root or value is empty.
fn filters_from_entries(es: &Vec<(String, String)>) -> (r: Option<Filters>)
    ensures
        r matches Some(f) ==> filters_of(string_pairs_view(es@)) == Some(f@),
        r is None ==> filters_of(string_pairs_view(es@)) is None,
{
    let ghost ev = string_pairs_view(es@);
    let mut f = Filters::new();
    let mut i: usize = 0;
    assert(ev.subrange(0, 0) =~= Seq::<(Seq<char>, Seq<char>)>::empty());
    while i < es.len()
        invariant
            i <= es@.len(),
            ev == string_pairs_view(es@),
            filters_of(ev.subrange(0, i as int)) == Some(f@),
        decreases es.len() - i,
    {
        assert(ev.subrange(0, i + 1).drop_last() =~= ev.subrange(0, i as int));
        assert(ev.subrange(0, i + 1).last() == ev[i as int]);
        match (Id::from_string(es[i].0.clone()), Id::from_string(es[i].1.clone())) {
            (Some(a), Some(b)) => {
                f.set(a, b);
            },
            _ => {
                proof {
                    lemma_filters_of_none(ev, i + 1);
                }
                return None;
            },
        }
        i = i + 1;
    }
    assert(ev.subrange(0, i as int) =~= ev);
    Some(f)
}

pub open spec fn acc_of(
    view: Option<View>,
    filters: Option<Filters>,
    zoom: Option<Option<CategoryId>>,
    lang: Option<Option<String>>,
    rest: Seq<(String, String)>,
) -> DecodeAcc {
    DecodeAcc {
        view,
        filters: match filters {
            Some(f) => Some(f@),
            None => None,
        },
        zoom_axis: match zoom {
            Some(z) => Some(opt_id_view(z)),
            None => None,
        },
        lang: match lang {
            Some(l) => Some(opt_string_view(l)),
            None => None,
        },
        rest: string_pairs_view(rest),
    }
}

impl QueryState {
    /// The state of an empty query: the facet view, no filter, no zoom axis,
    /// no language, no other key.
    pub fn new() -> (r: QueryState)
        ensures
            r.model() == default_model(),
    {
        let r = QueryState {
            view: View::Facet,
            filters: Filters::new(),
            zoom_axis: None,
            lang: None,
            rest: ForeignKeys { pairs: Vec::new() },
        };
        assert(string_pairs_view(r.rest.pairs@) =~= Seq::<(Seq<char>, Seq<char>)>::empty());
        r
    }

    /// A copy of the state.
    pub fn duplicate(&self) -> (r: QueryState)
        ensures
            r.model() == self.model(),
    {
        QueryState {
            view: self.view,
            filters: self.filters.clone(),
            zoom_axis: clone_opt_id(&self.zoom_axis),
            lang: clone_opt_string(&self.lang),
            rest: ForeignKeys { pairs: clone_rest(&self.rest.pairs) },
        }
    }

    /// Whether two states are equal.
    pub fn same(&self, other: &QueryState) -> (r: bool)
        ensures
            r == (self.model() == other.model()),
    {
        let r = self.view == other.view && self.filters.same(&other.filters) && opt_id_same(
            &self.zoom_axis,
            &other.zoom_axis,
        ) && opt_string_same(&self.lang, &other.lang) && pairs_same(&self.rest.pairs, &other.rest.pairs);
        proof {
            if !r {
                assert(self.model() != other.model() || self.model() == other.model());
            }
        }
        r
    }

    /// Reads grouped query fields; `None` when they do not form a valid query.
    pub fn decode(groups: &Vec<(String, Value)>) -> (r: Option<QueryState>)
        ensures
            r is None <==> decode_groups(groups_view(groups@)) is None,
            r matches Some(q) ==> decode_groups(groups_view(groups@)) matches Some(acc) && q.model()
                == finish(acc),
    {
        let ghost gv = groups_view(groups@);
        let mut view: Option<View> = None;
        let mut filters: Option<Filters> = None;
        let mut zoom: Option<Option<CategoryId>> = None;
        let mut lang: Option<Option<String>> = None;
        let mut rest: Vec<(String, String)> = Vec::new();
        let mut n: usize = 0;
        assert(string_pairs_view(rest@) =~= Seq::<(Seq<char>, Seq<char>)>::empty());
        assert(acc_of(view, filters, zoom, lang, rest@) == empty_acc());
        assert(gv.subrange(0, 0) =~= Seq::<(Seq<char>, ValueView)>::empty());
        while n < groups.len()
            invariant
                n <= groups@.len(),
                gv == groups_view(groups@),
                decode_groups(gv.subrange(0, n as int)) == Some(acc_of(view, filters, zoom, lang, rest@)),
            decreases groups.len() - n,
        {
            let ghost acc = acc_of(view, filters, zoom, lang, rest@);
            assert(gv.subrange(0, n + 1).drop_last() =~= gv.subrange(0, n as int));
            assert(gv.subrange(0, n + 1).last() == gv[n as int]);
            let ghost g = gv[n as int];
            let head = groups[n].0.as_str();
            let value = &groups[n].1;
            let mut ok = true;
            if str_eq(head, key_view_str()) {
                if view.is_some() {
                    ok = false;
                } else {
                    match value {
                        Value::Scalar(s) => match View::from_code(s.as_str()) {
                            Some(v) => {
                                view = Some(v);
                            },
                            None => {
                                ok = false;
                            },
                        },
                        Value::Nest(_) => {
                            ok = false;
                        },
                    }
                }
            } else if str_eq(head, key_filters_str()) {
                if filters.is_some() {
                    ok = false;
                } else {
                    match value {
                        Value::Nest(es) => match filters_from_entries(es) {
                            Some(f) => {
                                filters = Some(f);
                            },
                            None => {
                                ok = false;
                            },
                        },
                        Value::Scalar(_) => {
                            ok = false;
                        },
                    }
                }
            } else if str_eq(head, key_zoom_axis_str()) {
                if zoom.is_some() {
                    ok = false;
                } else {
                    match value {
                        Value::Scalar(s) => match Id::from_string(s.clone()) {
                            Some(z) => {
                                zoom = Some(Some(z));
                            },
                            None => {
                                ok = false;
                            },
                        },
                        Value::Nest(_) => {
                            ok = false;
                        },
                    }
                }
            } else if str_eq(head, key_lang_str()) {
                if lang.is_some() {
                    ok = false;
                } else {
                    match value {
                        Value::Scalar(s) => {
                            lang = Some(Some(s.clone()));
                        },
                        Value::Nest(_) => {
                            ok = false;
                        },
                    }
                }
            } else {
                match value {
                    Value::Scalar(s) => {
                        rest_insert(&mut rest, groups[n].0.clone(), s.clone());
                    },
                    Value::Nest(_) => {
                        ok = false;
                    },
                }
            }
            if !ok {
                assert(decode_step(acc, g) is None);
                proof {
                    lemma_decode_none(gv, n + 1);
                }
                return None;
            }
            assert(decode_step(acc, g) == Some(acc_of(view, filters, zoom, lang, rest@)));
            n = n + 1;
        }
        assert(gv.subrange(0, n as int) =~= gv);
        let q = QueryState {
            view: match view {
                Some(v) => v,
                None => View::Facet,
            },
            filters: match filters {
                Some(f) => f,
                None => Filters::new(),
            },
            zoom_axis: match zoom {
                Some(z) => z,
                None => None,
            },
            lang: match lang {
                Some(l) => l,
                None => None,
            },
            rest: ForeignKeys { pairs: rest },
        };
        Some(q)
    }
}

/// The state with its zoom axis resolved: the query's axis, or `default_axis`
/// when the query names none.
pub open spec fn resolved_model(q: QueryModel, default_axis: Seq<char>) -> QueryModel {
    QueryModel {
        zoom_axis: Some(
            match q.zoom_axis {
                Some(z) => z,
                None => default_axis,
            },
        ),
        ..q
    }
}

impl QueryState {
    /// Reads the whole query into the typed state. A query that does not form
    /// a valid state (a named field twice, an unknown view, an empty
    /// identifier, a map where a scalar belongs or the other way round) reads
    /// as the default state.
    pub fn from_params(params: &ParamsMap) -> (r: QueryState)
        ensures
            r.model() == spec_from_params(params_contents(*params)),
    {
        let pairs = params_pairs(params);
        let groups = group(&pairs);
        match QueryState::decode(&groups) {
            Some(q) => q,
            None => QueryState::new(),
        }
    }

    fn filter_string_pairs(&self) -> (r: Vec<(String, String)>)
        ensures
            string_pairs_view(r@) == self.filters@,
    {
        let mut out: Vec<(String, String)> = Vec::new();
        let mut i: usize = 0;
        while i < self.filters.len()
            invariant
                i <= self.filters@.len(),
                string_pairs_view(out@) == self.filters@.subrange(0, i as int),
            decreases self.filters@.len() - i,
        {
            let (a, b) = self.filters.entry(i);
            let p = (a.to_string(), b.to_string());
            proof {
                crate::params::lemma_string_pairs_push(out@, p);
            }
            out.push(p);
            i = i + 1;
            assert(string_pairs_view(out@) =~= self.filters@.subrange(0, i as int));
        }
        assert(self.filters@.subrange(0, i as int) =~= self.filters@);
        out
    }

    /// Writes the whole state as a query: `view` always, then
    /// `filters.<root>=<value>` per filter, `zoom_axis` and `lang` when set,
    /// then the unmodelled keys. The map is built afresh each time.
    pub fn to_params(&self) -> (r: ParamsMap)
        ensures
            params_contents(r) == spec_to_params(self.model()),
            plain_values_kept(to_pairs(self.model())),
    {
        let ghost q = self.model();
        let ghost e = Seq::<(Seq<char>, Seq<Seq<char>>)>::empty();
        let ghost p1 = seq![(key_view(), view_code(q.view))];
        let ghost p2 = filter_pairs(q.filters);
        let ghost p3 = optional_pair(key_zoom_axis(), q.zoom_axis);
        let ghost p4 = optional_pair(key_lang(), q.lang);
        let mut out = params_new();
        let code = String::from_str(self.view.code());
        let f1 = Field::Scalar(code);
        assert(field_pairs(key_view(), &f1) =~= p1);
        push_field(&mut out, key_view_str(), f1);
        assert(plain_values_kept(p1));
        assert(insert_all(e, Seq::empty()) == e);
        proof {
            lemma_insert_all_append(e, Seq::empty(), p1);
            assert(Seq::<(Seq<char>, Seq<char>)>::empty() + p1 =~= p1);
        }
        let f2 = Field::Pairs(self.filter_string_pairs());
        assert(field_pairs(key_filters(), &f2) =~= p2);
        push_field(&mut out, key_filters_str(), f2);
        proof {
            lemma_insert_all_append(e, p1, p2);
            lemma_plain_values_kept_append(p1, p2);
        }
        let f3 = match &self.zoom_axis {
            Some(z) => Field::Scalar(z.to_string()),
            None => Field::Skip,
        };
        assert(field_pairs(key_zoom_axis(), &f3) =~= p3);
        push_field(&mut out, key_zoom_axis_str(), f3);
        proof {
            lemma_insert_all_append(e, p1 + p2, p3);
            lemma_plain_values_kept_append(p1 + p2, p3);
        }
        let f4 = match &self.lang {
            Some(l) => Field::Scalar(l.clone()),
            None => Field::Skip,
        };
        assert(field_pairs(key_lang(), &f4) =~= p4);
        push_field(&mut out, key_lang_str(), f4);
        proof {
            lemma_insert_all_append(e, p1 + p2 + p3, p4);
            lemma_plain_values_kept_append(p1 + p2 + p3, p4);
        }
        let ghost head = p1 + p2 + p3 + p4;
        let ghost rv = string_pairs_view(self.rest.pairs@);
        let mut i: usize = 0;
        assert(head + rv.subrange(0, 0) =~= head);
        while i < self.rest.pairs.len()
            invariant
                i <= self.rest.pairs@.len(),
                rv == string_pairs_view(self.rest.pairs@),
                rv.len() == self.rest.pairs@.len(),
                params_contents(out) == insert_all(e, head + rv.subrange(0, i as int)),
                plain_values_kept(head + rv.subrange(0, i as int)),
            decreases self.rest.pairs.len() - i,
        {
            let f = Field::Scalar(self.rest.pairs[i].1.clone());
            let ghost one = field_pairs(self.rest.pairs[i as int].0@, &f);
            assert(one =~= seq![rv[i as int]]);
            push_field(&mut out, self.rest.pairs[i].0.as_str(), f);
            proof {
                lemma_insert_all_append(e, head + rv.subrange(0, i as int), one);
                lemma_plain_values_kept_append(head + rv.subrange(0, i as int), one);
                assert(head + rv.subrange(0, i as int) + one =~= head + rv.subrange(0, i + 1));
            }
            i = i + 1;
        }
        assert(rv.subrange(0, i as int) =~= rv);
        assert(head + rv =~= to_pairs(q));
        out
    }

    /// The URL to navigate to so that the address bar shows this state, and
    /// whether to push a history entry (the view changed) rather than replace
    /// the current one; `None` when `current_url` already reads as this
    /// state.
    pub fn url_update(&self, current_url: &ParamsMap, pathname: &str) -> (r: Option<(String, bool)>)
        ensures
            r is None <==> spec_from_params(params_contents(*current_url)) == self.model(),
            r matches Some(u) ==> {
                &&& u.0@ == pathname@ + query_string(
                    spec_to_params(self.model()),
                    |s: Seq<char>| url_escape(s),
                )
                &&& u.1 == (spec_from_params(params_contents(*current_url)).view != self.model().view)
            },
    {
        let current = QueryState::from_params(current_url);
        if current.same(self) {
            return None;
        }
        let push = current.view != self.view;
        let params = self.to_params();
        let qs = params_query_string(&params);
        let url = concat_str(pathname, qs.as_str());
        Some((url, push))
    }

    /// The state that the query reads as, with the zoom axis resolved to
    /// `default_axis` when the query names none.
    pub fn resolved_from(params: &ParamsMap, default_axis: &CategoryId) -> (r: QueryState)
        ensures
            r.model() == resolved_model(spec_from_params(params_contents(*params)), default_axis@),
    {
        let mut qs = QueryState::from_params(params);
        let z = match &qs.zoom_axis {
            Some(z) => z.clone(),
            None => default_axis.clone(),
        };
        qs.zoom_axis = Some(z);
        qs
    }

    /// The state to adopt when the URL changes: the resolved state of the
    /// query, or `None` when it equals the current state.
    pub fn adopt_url(&self, params: &ParamsMap, default_axis: &CategoryId) -> (r: Option<QueryState>)
        ensures
            r is None <==> self.model() == resolved_model(
                spec_from_params(params_contents(*params)),
                default_axis@,
            ),
            r matches Some(q) ==> q.model() == resolved_model(
                spec_from_params(params_contents(*params)),
                default_axis@,
            ),
    {
        let incoming = QueryState::resolved_from(params, default_axis);
        if self.same(&incoming) {
            None
        } else {
            Some(incoming)
        }
    }
}

impl Clone for QueryState {
    fn clone(&self) -> (r: Self)
        ensures
            r.model() == self.model(),
    {
        self.duplicate()
    }
}

impl PartialEq for QueryState {
    fn eq(&self, other: &QueryState) -> (r: bool) {
        self.same(other)
    }
}

impl vstd::std_specs::cmp::PartialEqSpecImpl for QueryState {
    open spec fn obeys_eq_spec() -> bool {
        true
    }

    open spec fn eq_spec(&self, other: &QueryState) -> bool {
        self.model() == other.model()
    }
}

impl Default for QueryState {
    fn default() -> (r: QueryState)
        ensures
            r.model() == default_model(),
    {
        QueryState::new()
    }
}

} // verus!
