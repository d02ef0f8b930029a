//! The counts of the facet sidebar: for an axis, how many resources sit at
//! or under each of its categories.

use vstd::prelude::*;
use crate::ids::Id;
use crate::layout::{chain_view, ids_view};
use vstd::multiset::Multiset;

verus! {

broadcast use vstd::seq_lib::group_to_multiset_ensures, vstd::multiset::group_multiset_axioms;

/// Whether a category differs from `x`.
pub open spec fn differs(x: Seq<char>) -> spec_fn(Seq<char>) -> bool {
    |a: Seq<char>| a != x
}

/// The categories a resource adds one to, given its ancestry chain on the
/// axis (its own category first): its category, then each ancestor other
/// than it.
pub open spec fn chain_bumps(ch: Seq<Seq<char>>) -> Seq<Seq<char>> {
    if ch.len() == 0 {
        Seq::empty()
    } else {
        seq![ch[0]] + ch.drop_first().filter(differs(ch[0]))
    }
}

/// The chains as values.
pub open spec fn chains_view(s: Seq<Option<Vec<Id>>>) -> Seq<Option<Seq<Seq<char>>>> {
    s.map_values(|c: Option<Vec<Id>>| chain_view(c))
}

/// The categories the resources add one to, resource after resource;
/// a resource without a category on the axis adds nothing.
pub open spec fn all_bumps(cs: Seq<Option<Seq<Seq<char>>>>) -> Seq<Seq<char>>
    decreases cs.len(),
{
    if cs.len() == 0 {
        Seq::empty()
    } else {
        all_bumps(cs.drop_last()) + match cs.last() {
            Some(ch) => chain_bumps(ch),
            None => Seq::empty(),
        }
    }
}

/// The number of identifiers in all the chains.
pub open spec fn total_ids(cs: Seq<Option<Seq<Seq<char>>>>) -> nat
    decreases cs.len(),
{
    if cs.len() == 0 {
        0
    } else {
        total_ids(cs.drop_last()) + match cs.last() {
            Some(ch) => ch.len(),
            None => 0,
        }
    }
}

/// The count of category `id`: the number of resources at or under it (a
/// resource whose chain names it several times counts that often above its
/// own category).
pub open spec fn facet_count(cs: Seq<Option<Seq<Seq<char>>>>, id: Seq<char>) -> nat {
    all_bumps(cs).to_multiset().count(id)
}

/// The counts as values.
pub open spec fn counts_view(v: Seq<(Id, usize)>) -> Seq<(Seq<char>, nat)> {
    v.map_values(|e: (Id, usize)| (e.0@, e.1 as nat))
}

/// What the counts of `P` (a sequence of categories, each counted once per
/// occurrence) are: one entry per category that occurs, with its number of
/// occurrences, no category twice.
pub open spec fn counts_of(c: Seq<(Seq<char>, nat)>, p: Seq<Seq<char>>) -> bool {
    &&& forall|i: int, j: int| 0 <= i < j < c.len() ==> (#[trigger] c[i]).0 != (#[trigger] c[j]).0
    &&& forall|i: int| 0 <= i < c.len() ==> (#[trigger] c[i]).1 == p.to_multiset().count(c[i].0) && c[i].1 > 0
    &&& forall|x: Seq<char>| p.to_multiset().count(x) > 0 ==> exists|i: int| 0 <= i < c.len() && (#[trigger] c[i]).0 == x
}

proof fn lemma_bumps_len(cs: Seq<Option<Seq<Seq<char>>>>)
    ensures
        all_bumps(cs).len() <= total_ids(cs),
    decreases cs.len(),
{
    if cs.len() > 0 {
        lemma_bumps_len(cs.drop_last());
        if let Some(ch) = cs.last() {
            if ch.len() > 0 {
                ch.drop_first().lemma_filter_len(differs(ch[0]));
            }
        }
    }
}

/// Adds one to the count of `id`.
fn bump(counts: &mut Vec<(Id, usize)>, id: &Id, Ghost(p): Ghost<Seq<Seq<char>>>)
    requires
        counts_of(counts_view(old(counts)@), p),
        forall|i: int| 0 <= i < old(counts)@.len() ==> (#[trigger] old(counts)@[i]).1 <= p.len(),
        p.len() < usize::MAX,
    ensures
        counts_of(counts_view(final(counts)@), p.push(id@)),
        forall|i: int| 0 <= i < final(counts)@.len() ==> (#[trigger] final(counts)@[i]).1 <= p.len() + 1,
{
    let ghost q = p.push(id@);
    assert(q.to_multiset() =~= p.to_multiset().insert(id@));
    let ghost before = counts_view(counts@);
    let mut i: usize = 0;
    while i < counts.len() && !counts[i].0.same(id)
        invariant
            i <= counts@.len(),
            before == counts_view(counts@),
            forall|j: int| 0 <= j < i ==> counts@[j].0@ != id@,
        decreases counts.len() - i,
    {
        i = i + 1;
    }
    if i < counts.len() {
        let n = counts[i].1;
        let key = counts[i].0.clone();
        assert(before[i as int].1 == n);
        counts.set(i, (key, n + 1));
        assert(counts_view(counts@) =~= before.update(i as int, (id@, (n + 1) as nat)));
        assert forall|x: Seq<char>| q.to_multiset().count(x) > 0 implies exists|k: int|
            0 <= k < counts_view(counts@).len() && (#[trigger] counts_view(counts@)[k]).0 == x by {
            if x != id@ {
                assert(p.to_multiset().count(x) > 0);
                let k = choose|k: int| 0 <= k < before.len() && (#[trigger] before[k]).0 == x;
                assert(counts_view(counts@)[k].0 == x);
            } else {
                assert(counts_view(counts@)[i as int].0 == x);
            }
        }
    } else {
        assert(p.to_multiset().count(id@) == 0) by {
            if p.to_multiset().count(id@) > 0 {
                let k = choose|k: int| 0 <= k < before.len() && (#[trigger] before[k]).0 == id@;
                assert(before[k].0 == counts@[k].0@);
            }
        }
        counts.push((id.clone(), 1));
        assert(counts_view(counts@) =~= before.push((id@, 1nat)));
        assert forall|x: Seq<char>| q.to_multiset().count(x) > 0 implies exists|k: int|
            0 <= k < counts_view(counts@).len() && (#[trigger] counts_view(counts@)[k]).0 == x by {
            if x != id@ {
                assert(p.to_multiset().count(x) > 0);
                let k = choose|k: int| 0 <= k < before.len() && (#[trigger] before[k]).0 == x;
                assert(counts_view(counts@)[k].0 == x);
            } else {
                assert(counts_view(counts@)[before.len() as int].0 == x);
            }
        }
    }
}

/// The counts of the facet sidebar for one axis. `chains` holds, for each
/// resource of the base set, its ancestry chain on the axis (its category
/// first), or `None` when it has no category there. The result has one entry
/// per category with a non-zero count (see `facet_count`), no category twice.
pub fn facet_counts(chains: &Vec<Option<Vec<Id>>>) -> (r: Vec<(Id, usize)>)
    requires
        total_ids(chains_view(chains@)) <= usize::MAX,
    ensures
        counts_of(counts_view(r@), all_bumps(chains_view(chains@))),
{
    let ghost cs = chains_view(chains@);
    let mut counts: Vec<(Id, usize)> = Vec::new();
    let ghost mut p: Seq<Seq<char>> = Seq::empty();
    assert(counts_of(counts_view(counts@), p)) by {
        assert(p.to_multiset() =~= Multiset::empty());
    }
    proof {
        lemma_bumps_len(cs);
    }
    let mut ci: usize = 0;
    while ci < chains.len()
        invariant
            ci <= chains@.len(),
            cs == chains_view(chains@),
            all_bumps(cs).len() <= total_ids(cs) <= usize::MAX,
            p == all_bumps(cs.take(ci as int)),
            counts_of(counts_view(counts@), p),
            forall|i: int| 0 <= i < counts@.len() ==> (#[trigger] counts@[i]).1 <= p.len(),
        decreases chains.len() - ci,
    {
        assert(cs.take(ci + 1).drop_last() =~= cs.take(ci as int));
        proof {
            lemma_bumps_prefix(cs, ci as int + 1);
        }
        match &chains[ci] {
            None => {
                assert(cs[ci as int] is None);
                assert(all_bumps(cs.take(ci + 1)) =~= p);
            },
            Some(ch) => {
                let ghost chv = ids_view(ch@);
                assert(cs[ci as int] == Some(chv));
                if ch.len() > 0 {
                    let ghost start = p;
                    let leaf = &ch[0];
                    assert(leaf@ == chv[0]);
                    bump(&mut counts, leaf, Ghost(p));
                    proof {
                        p = p.push(leaf@);
                    }
                    let mut j: usize = 1;
                    while j < ch.len()
                        invariant
                            1 <= j <= ch@.len(),
                            chv == ids_view(ch@),
                            chv[0] == leaf@,
                            start + chain_bumps(chv) == all_bumps(cs.take(ci + 1)),
                            all_bumps(cs.take(ci + 1)).len() <= all_bumps(cs).len() <= usize::MAX,
                            p == start + seq![chv[0]] + chv.drop_first().take(j - 1).filter(differs(chv[0])),
                            counts_of(counts_view(counts@), p),
                            forall|i: int| 0 <= i < counts@.len() ==> (#[trigger] counts@[i]).1 <= p.len(),
                        decreases ch.len() - j,
                    {
                        let ghost pre = chv.drop_first().take(j - 1);
                        assert(chv.drop_first().take(j as int) =~= pre.push(chv[j as int]));
                        proof {
                            pre.lemma_filter_push(chv[j as int], differs(chv[0]));
                            chv.drop_first().lemma_filter_len(differs(chv[0]));
                            chv.drop_first().take(j as int).lemma_filter_len(differs(chv[0]));
                            lemma_filter_prefix_len(chv.drop_first(), j as int, differs(chv[0]));
                        }
                        if !ch[j].same(leaf) {
                            assert(ch@[j as int]@ == chv[j as int]);
                            bump(&mut counts, &ch[j], Ghost(p));
                            proof {
                                p = p.push(chv[j as int]);
                            }
                        }
                        j = j + 1;
                    }
                    assert(chv.drop_first().take(chv.len() - 1) =~= chv.drop_first());
                } else {
                    assert(chain_bumps(chv) =~= Seq::empty());
                    assert(all_bumps(cs.take(ci + 1)) =~= p);
                }
            },
        }
        ci = ci + 1;
    }
    assert(cs.take(cs.len() as int) =~= cs);
    counts
}

proof fn lemma_bumps_prefix(cs: Seq<Option<Seq<Seq<char>>>>, k: int)
    requires
        0 <= k <= cs.len(),
    ensures
        all_bumps(cs.take(k)).len() <= all_bumps(cs).len(),
    decreases cs.len() - k,
{
    if k < cs.len() {
        lemma_bumps_prefix(cs, k + 1);
        assert(cs.take(k + 1).drop_last() =~= cs.take(k));
    } else {
        assert(cs.take(k) =~= cs);
    }
}

proof fn lemma_filter_prefix_len(s: Seq<Seq<char>>, k: int, p: spec_fn(Seq<char>) -> bool)
    requires
        0 <= k <= s.len(),
    ensures
        s.take(k).filter(p).len() <= s.filter(p).len(),
    decreases s.len() - k,
{
    if k < s.len() {
        lemma_filter_prefix_len(s, k + 1, p);
        assert(s.take(k + 1) =~= s.take(k).push(s[k]));
        s.take(k).lemma_filter_push(s[k], p);
    } else {
        assert(s.take(k) =~= s);
    }
}

/// The count of `id` among `counts`: the value of its entry, 0 when it has
/// none.
pub fn count_of(counts: &Vec<(Id, usize)>, id: &Id) -> (r: usize)
    ensures
        (exists|i: int| 0 <= i < counts@.len() && counts@[i].0@ == id@) ==> exists|i: int|
            0 <= i < counts@.len() && counts@[i].0@ == id@ && counts@[i].1 == r,
        (forall|i: int| 0 <= i < counts@.len() ==> counts@[i].0@ != id@) ==> r == 0,
{
    let mut i: usize = 0;
    while i < counts.len()
        invariant
            i <= counts@.len(),
            forall|j: int| 0 <= j < i ==> counts@[j].0@ != id@,
        decreases counts.len() - i,
    {
        if counts[i].0.same(id) {
            return counts[i].1;
        }
        i = i + 1;
    }
    0
}

/// The number of resources with a category on the axis.
pub open spec fn with_value(cs: Seq<Option<Seq<Seq<char>>>>) -> nat
    decreases cs.len(),
{
    if cs.len() == 0 {
        0
    } else {
        with_value(cs.drop_last()) + if cs.last() is Some {
            1nat
        } else {
            0nat
        }
    }
}

/// A chain as the taxonomy gives it: not empty, no category twice, the axis
/// root `root` last.
pub open spec fn chain_to_root(ch: Seq<Seq<char>>, root: Seq<char>) -> bool {
    &&& ch.len() > 0
    &&& ch.last() == root
    &&& ch.no_duplicates()
}

proof fn lemma_filter_keeps_count(s: Seq<Seq<char>>, p: spec_fn(Seq<char>) -> bool, x: Seq<char>)
    requires
        p(x),
    ensures
        s.filter(p).to_multiset().count(x) == s.to_multiset().count(x),
    decreases s.len(),
{
    if s.len() > 0 {
        lemma_filter_keeps_count(s.drop_last(), p, x);
        assert(s =~= s.drop_last().push(s.last()));
        s.drop_last().lemma_filter_push(s.last(), p);
    } else {
        assert(s.filter(p) =~= s);
    }
}

proof fn lemma_chain_counts_root_once(ch: Seq<Seq<char>>, root: Seq<char>)
    requires
        chain_to_root(ch, root),
    ensures
        chain_bumps(ch).to_multiset().count(root) == 1,
{
    let b = chain_bumps(ch);
    if ch[0] == root {
        if ch.len() > 1 {
            assert(ch[0] == ch[ch.len() - 1]);
        }
        assert(ch.drop_first() =~= Seq::<Seq<char>>::empty());
        assert(ch.drop_first().filter(differs(ch[0])) =~= Seq::<Seq<char>>::empty());
        assert(b =~= seq![root]);
        assert(seq![root] =~= Seq::<Seq<char>>::empty().push(root));
        assert(Seq::<Seq<char>>::empty().to_multiset() =~= Multiset::empty());
        assert(b.to_multiset() =~= Multiset::<Seq<char>>::empty().insert(root));
    } else {
        let t = ch.drop_first();
        assert(t.last() == root);
        assert(t.no_duplicates());
        t.lemma_multiset_has_no_duplicates();
        assert(t.contains(root)) by {
            assert(t[t.len() - 1] == root);
        }
        assert(t.to_multiset().count(root) > 0);
        lemma_filter_keeps_count(t, differs(ch[0]), root);
        assert(seq![ch[0]] =~= Seq::<Seq<char>>::empty().push(ch[0]));
        assert(Seq::<Seq<char>>::empty().to_multiset() =~= Multiset::empty());
        assert(seq![ch[0]].to_multiset() =~= Multiset::<Seq<char>>::empty().insert(ch[0]));
        assert(seq![ch[0]].to_multiset().count(root) == 0);
        vstd::seq_lib::lemma_multiset_commutative(seq![ch[0]], t.filter(differs(ch[0])));
        assert(b == seq![ch[0]] + t.filter(differs(ch[0])));
    }
}

/// When each resource's chain runs from its category up to the axis root
/// with no category twice, the axis root counts every resource that has a
/// category on the axis, once.
pub proof fn lemma_root_counts_every_resource(cs: Seq<Option<Seq<Seq<char>>>>, root: Seq<char>)
    requires
        forall|i: int| 0 <= i < cs.len() ==> (#[trigger] cs[i] matches Some(ch) ==> chain_to_root(ch, root)),
    ensures
        facet_count(cs, root) == with_value(cs),
    decreases cs.len(),
{
    if cs.len() > 0 {
        let prev = cs.drop_last();
        assert forall|i: int| 0 <= i < prev.len() implies (#[trigger] prev[i] matches Some(ch) ==> chain_to_root(ch, root)) by {
            assert(prev[i] == cs[i]);
        }
        lemma_root_counts_every_resource(prev, root);
        assert(cs[cs.len() - 1] == cs.last());
        let tail = match cs.last() {
            Some(ch) => chain_bumps(ch),
            None => Seq::empty(),
        };
        assert(all_bumps(cs) == all_bumps(prev) + tail);
        vstd::seq_lib::lemma_multiset_commutative(all_bumps(prev), tail);
        match cs.last() {
            Some(ch) => {
                lemma_chain_counts_root_once(ch, root);
            },
            None => {
                assert(Seq::<Seq<char>>::empty().to_multiset() =~= Multiset::empty());
            },
        }
    } else {
        assert(all_bumps(cs).to_multiset() =~= Multiset::empty());
    }
}

} // verus!
