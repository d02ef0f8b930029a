//! The active filter set: for some facet roots (axes), the chosen value.

use vstd::prelude::*;
use crate::ids::{CategoryId, Id, valid_id};

verus! {

/// The position of the entry whose key is `k`, if any.
pub open spec fn key_index(f: Seq<(Seq<char>, Seq<char>)>, k: Seq<char>) -> Option<int>
    decreases f.len(),
{
    if f.len() == 0 {
        None
    } else if f[0].0 == k {
        Some(0)
    } else {
        match key_index(f.drop_first(), k) {
            Some(i) => Some(i + 1),
            None => None,
        }
    }
}

/// The entries after `set(k, v)`: the value of an existing key is replaced in
/// place, a new key goes last.
pub open spec fn spec_set(f: Seq<(Seq<char>, Seq<char>)>, k: Seq<char>, v: Seq<char>) -> Seq<(Seq<char>, Seq<char>)> {
    match key_index(f, k) {
        Some(i) => f.update(i, (k, v)),
        None => f.push((k, v)),
    }
}

/// The entries after `remove_root(k)`: every entry with key `k` is dropped,
/// the others keep their order.
pub open spec fn spec_remove(f: Seq<(Seq<char>, Seq<char>)>, k: Seq<char>) -> Seq<(Seq<char>, Seq<char>)> {
    f.filter(key_is_not(k))
}

/// The entries whose key is not `k`.
pub open spec fn key_is_not(k: Seq<char>) -> spec_fn((Seq<char>, Seq<char>)) -> bool {
    |e: (Seq<char>, Seq<char>)| e.0 != k
}

/// The value of `k`, if any.
pub open spec fn spec_get(f: Seq<(Seq<char>, Seq<char>)>, k: Seq<char>) -> Option<Seq<char>> {
    match key_index(f, k) {
        Some(i) => Some(f[i].1),
        None => None,
    }
}

/// No key occurs twice.
pub open spec fn distinct_keys(f: Seq<(Seq<char>, Seq<char>)>) -> bool {
    forall|i: int, j: int| 0 <= i < j < f.len() ==> #[trigger] f[i].0 != #[trigger] f[j].0
}

/// Keys distinct, and no key or value empty.
pub open spec fn filters_wf(f: Seq<(Seq<char>, Seq<char>)>) -> bool {
    &&& distinct_keys(f)
    &&& forall|i: int| 0 <= i < f.len() ==> (#[trigger] f[i]).0.len() > 0 && f[i].1.len() > 0
}

pub open spec fn id_pairs_view(s: Seq<(Id, Id)>) -> Seq<(Seq<char>, Seq<char>)> {
    s.map_values(|p: (Id, Id)| (p.0@, p.1@))
}

pub proof fn lemma_key_index(f: Seq<(Seq<char>, Seq<char>)>, k: Seq<char>)
    ensures
        key_index(f, k) matches Some(i) ==> 0 <= i < f.len() && f[i].0 == k
            && forall|j: int| 0 <= j < i ==> #[trigger] f[j].0 != k,
        key_index(f, k) is None ==> forall|j: int| 0 <= j < f.len() ==> #[trigger] f[j].0 != k,
    decreases f.len(),
{
    if f.len() > 0 {
        let t = f.drop_first();
        lemma_key_index(t, k);
        assert forall|j: int| 0 < j < f.len() implies #[trigger] f[j] == t[j - 1] by {}
        if f[0].0 != k {
            match key_index(t, k) {
                Some(i) => {
                    assert forall|j: int| 0 <= j < i + 1 implies #[trigger] f[j].0 != k by {
                        if j > 0 {
                            assert(f[j] == t[j - 1]);
                        }
                    }
                },
                None => {
                    assert forall|j: int| 0 <= j < f.len() implies #[trigger] f[j].0 != k by {
                        if j > 0 {
                            assert(f[j] == t[j - 1]);
                        }
                    }
                },
            }
        }
    }
}

proof fn lemma_view_push(s: Seq<(Id, Id)>, p: (Id, Id))
    ensures
        id_pairs_view(s.push(p)) == id_pairs_view(s).push((p.0@, p.1@)),
        id_pairs_view(s).len() == s.len(),
{
    assert(id_pairs_view(s.push(p)) =~= id_pairs_view(s).push((p.0@, p.1@)));
}

proof fn lemma_view_update(s: Seq<(Id, Id)>, i: int, p: (Id, Id))
    requires
        0 <= i < s.len(),
    ensures
        id_pairs_view(s.update(i, p)) == id_pairs_view(s).update(i, (p.0@, p.1@)),
{
    assert(id_pairs_view(s.update(i, p)) =~= id_pairs_view(s).update(i, (p.0@, p.1@)));
}

/// An ordered map from facet root to chosen value. Roots are distinct and
/// keep the order in which they were first set.
#[derive(Debug)]
pub struct Filters {
    entries: Vec<(CategoryId, CategoryId)>,
}

impl View for Filters {
    type V = Seq<(Seq<char>, Seq<char>)>;

    closed spec fn view(&self) -> Seq<(Seq<char>, Seq<char>)> {
        id_pairs_view(self.entries@)
    }
}

spec fn clone_pair_spec(s: Seq<(Id, Id)>, i: int) -> (Id, Id) {
    s[i]
}

fn clone_pair(p: &(CategoryId, CategoryId)) -> (r: (CategoryId, CategoryId))
    ensures
        r.0@ == p.0@,
        r.1@ == p.1@,
{
    (p.0.clone(), p.1.clone())
}

impl PartialEq for Filters {
    fn eq(&self, other: &Filters) -> (r: bool) {
        self.same(other)
    }
}

impl Eq for Filters {
}

impl vstd::std_specs::cmp::PartialEqSpecImpl for Filters {
    open spec fn obeys_eq_spec() -> bool {
        true
    }

    open spec fn eq_spec(&self, other: &Filters) -> bool {
        self@ == other@
    }
}

impl Clone for Filters {
    fn clone(&self) -> (r: Self)
        ensures
            r@ == self@,
    {
        let mut out: Vec<(CategoryId, CategoryId)> = Vec::new();
        let mut i: usize = 0;
        while i < self.entries.len()
            invariant
                i <= self.entries@.len(),
                id_pairs_view(out@) == id_pairs_view(self.entries@).subrange(0, i as int),
            decreases self.entries.len() - i,
        {
            let c = clone_pair(&self.entries[i]);
            proof {
                lemma_view_push(out@, c);
                lemma_view_push(self.entries@, c);
            }
            out.push(c);
            i = i + 1;
            assert(id_pairs_view(out@) =~= id_pairs_view(self.entries@).subrange(0, i as int));
        }
        proof {
            lemma_view_push(self.entries@, clone_pair_spec(self.entries@, 0));
        }
        assert(id_pairs_view(self.entries@).subrange(0, i as int) =~= id_pairs_view(self.entries@));
        Filters { entries: out }
    }
}

impl Filters {
    /// No filter.
    pub fn new() -> (r: Filters)
        ensures
            r@ == Seq::<(Seq<char>, Seq<char>)>::empty(),
    {
        let r = Filters { entries: Vec::new() };
        assert(r@ =~= Seq::<(Seq<char>, Seq<char>)>::empty());
        r
    }

    /// The number of roots with a value.
    pub fn len(&self) -> (r: usize)
        ensures
            r == self@.len(),
    {
        self.entries.len()
    }

    pub fn is_empty(&self) -> (r: bool)
        ensures
            r == (self@.len() == 0),
    {
        self.entries.len() == 0
    }

    /// The `i`-th (root, value) entry.
    pub fn entry(&self, i: usize) -> (r: (&CategoryId, &CategoryId))
        requires
            i < self@.len(),
        ensures
            r.0@ == self@[i as int].0,
            r.1@ == self@[i as int].1,
    {
        let e = &self.entries[i];
        (&e.0, &e.1)
    }

    fn find(&self, root: &CategoryId) -> (r: Option<usize>)
        ensures
            r matches Some(i) ==> key_index(self@, root@) == Some(i as int) && i < self.entries@.len(),
            r is None ==> key_index(self@, root@) is None,
            self@.len() == self.entries@.len(),
    {
        proof {
            lemma_view_push(self.entries@, clone_pair_spec(self.entries@, 0));
        }
        proof {
            lemma_key_index(self@, root@);
        }
        let mut i: usize = 0;
        while i < self.entries.len()
            invariant
                i <= self@.len(),
                self@.len() == self.entries@.len(),
                forall|j: int| 0 <= j < i ==> self@[j].0 != root@,
            decreases self.entries.len() - i,
        {
            if self.entries[i].0.same(root) {
                assert(self@[i as int].0 == root@);
                proof {
                    lemma_key_index(self@, root@);
                    match key_index(self@, root@) {
                        Some(k) => {
                            if k < i {
                                assert(self@[k].0 != root@);
                            } else if k > i {
                                assert(self@[i as int].0 != root@);
                            }
                        },
                        None => {
                            assert(self@[i as int].0 != root@);
                        },
                    }
                }
                return Some(i);
            }
            i = i + 1;
        }
        None
    }

    /// The value chosen for `root`, if any.
    pub fn get(&self, root: &CategoryId) -> (r: Option<&CategoryId>)
        ensures
            r matches Some(v) ==> spec_get(self@, root@) == Some(v@),
            r is None ==> spec_get(self@, root@) is None,
    {
        match self.find(root) {
            Some(i) => Some(&self.entries[i].1),
            None => None,
        }
    }

    /// Chooses `value` for `root`: an existing root keeps its position and
    /// gets the new value; a new root goes last.
    pub fn set(&mut self, root: CategoryId, value: CategoryId)
        ensures
            final(self)@ == spec_set(old(self)@, root@, value@),
    {
        let ghost rv = root@;
        let ghost vv = value@;
        match self.find(&root) {
            Some(i) => {
                proof {
                    lemma_view_update(self.entries@, i as int, (root, value));
                }
                self.entries.set(i, (root, value));
                assert(self@ =~= spec_set(old(self)@, rv, vv));
            },
            None => {
                proof {
                    lemma_view_push(self.entries@, (root, value));
                }
                self.entries.push((root, value));
                assert(self@ =~= spec_set(old(self)@, rv, vv));
            },
        }
    }

    /// Drops the value chosen for `root`, if any.
    pub fn remove_root(&mut self, root: &CategoryId)
        ensures
            final(self)@ == spec_remove(old(self)@, root@),
    {
        let mut kept: Vec<(CategoryId, CategoryId)> = Vec::new();
        let mut i: usize = 0;
        let ghost f = self@;
        while i < self.entries.len()
            invariant
                i <= self.entries@.len(),
                f == id_pairs_view(self.entries@),
                id_pairs_view(kept@) == spec_remove(f.subrange(0, i as int), root@),
            decreases self.entries.len() - i,
        {
            let ghost pre = f.subrange(0, i as int);
            assert(f.subrange(0, i + 1) =~= pre.push(f[i as int]));
            proof {
                pre.lemma_filter_push(f[i as int], key_is_not(root@));
                lemma_view_push(self.entries@, clone_pair_spec(self.entries@, 0));
            }
            if !self.entries[i].0.same(root) {
                let c = clone_pair(&self.entries[i]);
                proof {
                    lemma_view_push(kept@, c);
                }
                kept.push(c);
                assert(id_pairs_view(kept@) =~= spec_remove(f.subrange(0, i + 1), root@));
            } else {
                assert(id_pairs_view(kept@) =~= spec_remove(f.subrange(0, i + 1), root@));
            }
            i = i + 1;
        }
        assert(f.subrange(0, i as int) =~= f);
        self.entries = kept;
    }

    /// Toggles `value` for `root`: when `value` is already the root's value
    /// the root is dropped, otherwise `value` is chosen for it.
    pub fn toggle(&mut self, root: CategoryId, value: CategoryId)
        ensures
            spec_get(old(self)@, root@) == Some(value@) ==> final(self)@ == spec_remove(old(self)@, root@),
            spec_get(old(self)@, root@) != Some(value@) ==> final(self)@ == spec_set(old(self)@, root@, value@),
    {
        let already = match self.get(&root) {
            Some(v) => v.same(&value),
            None => false,
        };
        if already {
            self.remove_root(&root);
        } else {
            self.set(root, value);
        }
    }

    /// A copy of the filters without `root`.
    pub fn without_root(&self, root: &CategoryId) -> (r: Filters)
        ensures
            r@ == spec_remove(self@, root@),
    {
        let mut r = self.clone();
        r.remove_root(root);
        r
    }

    /// Drops every filter.
    pub fn clear(&mut self)
        ensures
            final(self)@ == Seq::<(Seq<char>, Seq<char>)>::empty(),
    {
        self.entries = Vec::new();
        assert(self@ =~= Seq::<(Seq<char>, Seq<char>)>::empty());
    }

    /// Whether two filter sets hold the same entries in the same order.
    pub fn same(&self, other: &Filters) -> (r: bool)
        ensures
            r == (self@ == other@),
    {
        if self.entries.len() != other.entries.len() {
            assert(self@.len() != other@.len());
            return false;
        }
        let mut i: usize = 0;
        while i < self.entries.len()
            invariant
                i <= self@.len(),
                self@.len() == other@.len(),
                self@.len() == self.entries@.len(),
                other@.len() == other.entries@.len(),
                forall|j: int| 0 <= j < i ==> self@[j] == other@[j],
            decreases self.entries.len() - i,
        {
            if !self.entries[i].0.same(&other.entries[i].0) || !self.entries[i].1.same(
                &other.entries[i].1,
            ) {
                assert(self@[i as int] != other@[i as int]);
                return false;
            }
            i = i + 1;
        }
        assert(self@ =~= other@);
        true
    }
}

/// After `set(k, v)`, `k` maps to `v` and every other root keeps its value.
pub proof fn lemma_get_after_set(f: Seq<(Seq<char>, Seq<char>)>, k: Seq<char>, v: Seq<char>, other: Seq<char>)
    ensures
        spec_get(spec_set(f, k, v), k) == Some(v),
        other != k ==> spec_get(spec_set(f, k, v), other) == spec_get(f, other),
{
    lemma_key_index(f, k);
    lemma_key_index(f, other);
    let g = spec_set(f, k, v);
    lemma_key_index(g, k);
    lemma_key_index(g, other);
    match key_index(f, k) {
        Some(i) => {
            assert(g[i].0 == k);
            if key_index(g, k) != Some(i) {
                let j = key_index(g, k)->0;
                assert(j < i || j > i);
            }
            if other != k {
                if key_index(g, other) != key_index(f, other) {
                    match key_index(f, other) {
                        Some(a) => {
                            assert(g[a].0 == other);
                        },
                        None => {},
                    }
                }
            }
        },
        None => {
            let n = f.len() as int;
            assert(g[n].0 == k);
            if key_index(g, k) != Some(n) {
                let j = key_index(g, k)->0;
                assert(g[j] == f[j]);
            }
            if other != k {
                if key_index(g, other) != key_index(f, other) {
                    match key_index(f, other) {
                        Some(a) => {
                            assert(g[a].0 == other);
                        },
                        None => {
                            let j = key_index(g, other)->0;
                            assert(g[j] == f[j]);
                        },
                    }
                }
            }
        },
    }
}

/// After `remove_root(k)`, `k` has no value and every other root keeps its
/// value.
pub proof fn lemma_get_after_remove(f: Seq<(Seq<char>, Seq<char>)>, k: Seq<char>, other: Seq<char>)
    requires
        distinct_keys(f),
    ensures
        spec_get(spec_remove(f, k), k) is None,
        other != k ==> spec_get(spec_remove(f, k), other) == spec_get(f, other),
{
    let p = key_is_not(k);
    let g = spec_remove(f, k);
    lemma_key_index(g, k);
    lemma_key_index(g, other);
    lemma_key_index(f, other);
    f.filter_lemma(p);
    if let Some(i) = key_index(g, k) {
        assert(p(g[i]));
    }
    if other != k {
        if let Some(j) = key_index(g, other) {
            assert(g.contains(g[j]));
            f.lemma_filter_contains_rev(p, g[j]);
            let b = choose|b: int| 0 <= b < f.len() && f[b] == g[j];
            assert(f[b].0 == other);
            let a = key_index(f, other)->0;
            assert(a == b);
        } else {
            if let Some(a) = key_index(f, other) {
                assert(p(f[a]));
                assert(g.contains(f[a]));
                let j = choose|j: int| 0 <= j < g.len() && g[j] == f[a];
                assert(g[j].0 == other);
            }
        }
    }
}

/// Toggling a value on for a root without one, then toggling it again,
/// gives back the filters as they were.
pub proof fn lemma_toggle_twice(f: Seq<(Seq<char>, Seq<char>)>, k: Seq<char>, v: Seq<char>)
    requires
        spec_get(f, k) is None,
    ensures
        spec_get(f, k) != Some(v),
        spec_get(spec_set(f, k, v), k) == Some(v),
        spec_remove(spec_set(f, k, v), k) == f,
{
    lemma_key_index(f, k);
    lemma_get_after_set(f, k, v, k);
    let g = spec_set(f, k, v);
    assert(g == f.push((k, v)));
    f.lemma_filter_push((k, v), key_is_not(k));
    assert forall|j: int| 0 <= j < f.len() implies #[trigger] key_is_not(k)(f[j]) by {}
    lemma_filter_all(f, key_is_not(k));
}

proof fn lemma_filter_all(f: Seq<(Seq<char>, Seq<char>)>, p: spec_fn((Seq<char>, Seq<char>)) -> bool)
    requires
        forall|j: int| 0 <= j < f.len() ==> #[trigger] p(f[j]),
    ensures
        f.filter(p) == f,
    decreases f.len(),
{
    if f.len() > 0 {
        lemma_filter_all(f.drop_last(), p);
        assert(p(f.last()));
        assert(f.drop_last().push(f.last()) =~= f);
        f.drop_last().lemma_filter_push(f.last(), p);
    } else {
        assert(f.filter(p) =~= f);
    }
}

} // verus!
