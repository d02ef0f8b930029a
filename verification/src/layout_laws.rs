//! What the cluster tree keeps of the items it is built from: every item is
//! a resource of the tree exactly once, shown as given and placed under the
//! clusters of its path; every cluster counts and weighs exactly the
//! resources beneath it and is named after its step; clusters come before
//! resources at every level.

use vstd::prelude::*;
use crate::layout::{
    lemma_info_index_first, lemma_info_index_none, spec_key_label, spec_key_color, default_color_hex,
    build_spec, clusters_spec, deeper_than, ends_by, goes_past, group_items, leaves_at,
    lemma_group_items_bounded, lemma_seg_group_index_some, max_path_len, resource_ids,
    resource_ids_all, resource_node, seg_group_index, spec_build, total_freq, InfoView, ItemView,
    NodeView, SegView,
};

use crate::color::spec_to_hex;

verus! {

broadcast use vstd::seq_lib::group_to_multiset_ensures, vstd::seq_lib::lemma_multiset_commutative;

/// The identifiers of the items, in order.
pub open spec fn item_ids(s: Seq<ItemView>) -> Seq<Seq<char>> {
    s.map_values(|it: ItemView| it.id)
}

/// The summed weight of the resources under a node.
pub open spec fn resource_freq(n: NodeView) -> nat
    decreases n,
{
    match n {
        NodeView::Resource { freq, .. } => freq,
        NodeView::Cluster { subs, .. } => resource_freq_all(subs),
    }
}

/// The summed weight of the resources under a list of nodes.
pub open spec fn resource_freq_all(s: Seq<NodeView>) -> nat
    decreases s,
{
    if s.len() == 0 {
        0
    } else {
        resource_freq_all(s.drop_last()) + resource_freq(s.last())
    }
}

/// Every cluster at or under `n` has as its count the number of resources
/// beneath it, and as its total frequency their summed weight.
pub open spec fn counts_hold(n: NodeView) -> bool
    decreases n,
{
    match n {
        NodeView::Resource { .. } => true,
        NodeView::Cluster { leaf_count, total_freq, subs, .. } => {
            &&& leaf_count == resource_ids_all(subs).len()
            &&& total_freq == resource_freq_all(subs)
            &&& counts_hold_all(subs)
        },
    }
}

/// `counts_hold` for every node of a list.
pub open spec fn counts_hold_all(s: Seq<NodeView>) -> bool
    decreases s,
{
    if s.len() == 0 {
        true
    } else {
        counts_hold_all(s.drop_last()) && counts_hold(s.last())
    }
}

/// The identifiers of the groups' items, group after group.
pub open spec fn group_ids(gs: Seq<(SegView, Seq<ItemView>)>) -> Seq<Seq<char>>
    decreases gs.len(),
{
    if gs.len() == 0 {
        Seq::empty()
    } else {
        group_ids(gs.drop_last()) + item_ids(gs.last().1)
    }
}

/// The summed weight of the groups' items.
pub open spec fn group_total(gs: Seq<(SegView, Seq<ItemView>)>) -> nat
    decreases gs.len(),
{
    if gs.len() == 0 {
        0
    } else {
        group_total(gs.drop_last()) + total_freq(gs.last().1)
    }
}

proof fn lemma_concat(a: Seq<NodeView>, b: Seq<NodeView>)
    ensures
        resource_ids_all(a + b) == resource_ids_all(a) + resource_ids_all(b),
        resource_freq_all(a + b) == resource_freq_all(a) + resource_freq_all(b),
        counts_hold_all(a + b) == (counts_hold_all(a) && counts_hold_all(b)),
    decreases b.len(),
{
    if b.len() == 0 {
        assert(a + b =~= a);
        assert(resource_ids_all(a) + resource_ids_all(b) =~= resource_ids_all(a));
    } else {
        lemma_concat(a, b.drop_last());
        assert((a + b).drop_last() =~= a + b.drop_last());
        assert((a + b).last() == b.last());
        assert(resource_ids_all(a) + resource_ids_all(b) =~= resource_ids_all(a) + resource_ids_all(
            b.drop_last(),
        ) + resource_ids(b.last()));
    }
}

proof fn lemma_resource_nodes(s: Seq<ItemView>)
    ensures
        resource_ids_all(s.map_values(|x: ItemView| resource_node(x))) == item_ids(s),
        resource_freq_all(s.map_values(|x: ItemView| resource_node(x))) == total_freq(s),
        counts_hold_all(s.map_values(|x: ItemView| resource_node(x))),
    decreases s.len(),
{
    let m = s.map_values(|x: ItemView| resource_node(x));
    if s.len() == 0 {
        assert(item_ids(s) =~= Seq::empty());
    } else {
        lemma_resource_nodes(s.drop_last());
        assert(m.drop_last() =~= s.drop_last().map_values(|x: ItemView| resource_node(x)));
        assert(item_ids(s) =~= item_ids(s.drop_last()).push(s.last().id));
        assert(m.last() == resource_node(s.last()));
        assert(resource_ids(m.last()) =~= seq![s.last().id]);
        assert(resource_freq(m.last()) == s.last().freq);
        assert(counts_hold(m.last()));
    }
}

proof fn lemma_filter_split(s: Seq<ItemView>, level: nat)
    ensures
        item_ids(s.filter(ends_by(level))).to_multiset().add(item_ids(s.filter(goes_past(level))).to_multiset())
            == item_ids(s).to_multiset(),
        total_freq(s.filter(ends_by(level))) + total_freq(s.filter(goes_past(level))) == total_freq(s),
    decreases s.len(),
{
    let a = s.filter(ends_by(level));
    let b = s.filter(goes_past(level));
    if s.len() == 0 {
        assert(item_ids(a) =~= Seq::empty());
        assert(item_ids(b) =~= Seq::empty());
        assert(item_ids(s) =~= Seq::empty());
        assert(item_ids(a).to_multiset().add(item_ids(b).to_multiset()) =~= item_ids(s).to_multiset());
    } else {
        let p = s.drop_last();
        let x = s.last();
        lemma_filter_split(p, level);
        assert(s =~= p.push(x));
        p.lemma_filter_push(x, ends_by(level));
        p.lemma_filter_push(x, goes_past(level));
        assert(item_ids(s) =~= item_ids(p).push(x.id));
        if x.path.len() <= level {
            assert(item_ids(a) =~= item_ids(p.filter(ends_by(level))).push(x.id));
            assert(a.drop_last() =~= p.filter(ends_by(level)));
        } else {
            assert(item_ids(b) =~= item_ids(p.filter(goes_past(level))).push(x.id));
            assert(b.drop_last() =~= p.filter(goes_past(level)));
        }
        assert(item_ids(a).to_multiset().add(item_ids(b).to_multiset()) =~= item_ids(s).to_multiset());
    }
}

proof fn lemma_filter_none(s: Seq<ItemView>, level: nat)
    requires
        forall|i: int| 0 <= i < s.len() ==> s[i].path.len() <= level,
    ensures
        s.filter(goes_past(level)) == Seq::<ItemView>::empty(),
    decreases s.len(),
{
    if s.len() > 0 {
        lemma_filter_none(s.drop_last(), level);
        assert(!goes_past(level)(s.last()));
        assert(s =~= s.drop_last().push(s.last()));
        s.drop_last().lemma_filter_push(s.last(), goes_past(level));
    }
}

proof fn lemma_group_update(gs: Seq<(SegView, Seq<ItemView>)>, i: int, k: SegView, y: ItemView)
    requires
        0 <= i < gs.len(),
    ensures
        group_ids(gs.update(i, (k, gs[i].1.push(y)))).to_multiset() == group_ids(gs).to_multiset().insert(y.id),
        group_total(gs.update(i, (k, gs[i].1.push(y)))) == group_total(gs) + y.freq,
    decreases gs.len(),
{
    let u = gs.update(i, (k, gs[i].1.push(y)));
    let g = gs[i].1;
    assert(item_ids(g.push(y)) =~= item_ids(g).push(y.id));
    assert(g.push(y).drop_last() =~= g);
    if i == gs.len() - 1 {
        assert(u.drop_last() =~= gs.drop_last());
        assert(group_ids(u) =~= group_ids(gs.drop_last()) + item_ids(g).push(y.id));
        assert(group_ids(gs) =~= group_ids(gs.drop_last()) + item_ids(g));
        assert((group_ids(gs.drop_last()) + item_ids(g)).push(y.id) =~= group_ids(gs.drop_last()) + item_ids(g).push(y.id));
    } else {
        lemma_group_update(gs.drop_last(), i, k, y);
        assert(u.drop_last() =~= gs.drop_last().update(i, (k, g.push(y))));
        assert(u.last() == gs.last());
    }
}

proof fn lemma_group_items_ids(s: Seq<ItemView>, level: nat)
    ensures
        group_ids(group_items(s, level)).to_multiset() == item_ids(s).to_multiset(),
        group_total(group_items(s, level)) == total_freq(s),
    decreases s.len(),
{
    if s.len() == 0 {
        assert(item_ids(s) =~= Seq::empty());
        assert(group_ids(group_items(s, level)) =~= Seq::empty());
    } else {
        let p = s.drop_last();
        let x = s.last();
        lemma_group_items_ids(p, level);
        let gs = group_items(p, level);
        let key = x.path[level as int];
        assert(item_ids(s) =~= item_ids(p).push(x.id));
        lemma_seg_group_index_some(gs, key);
        match seg_group_index(gs, key) {
            Some(i) => {
                lemma_group_update(gs, i, key, x);
                assert(group_items(s, level) == gs.update(i, (key, gs[i].1.push(x))));
                assert(total_freq(s) == total_freq(p) + x.freq);
            },
            None => {
                let r = gs.push((key, seq![x]));
                assert(r.drop_last() =~= gs);
                assert(item_ids(seq![x]) =~= seq![x.id]);
                assert(seq![x].drop_last() =~= Seq::<ItemView>::empty());
                assert(seq![x].last() == x);
                assert(total_freq(Seq::<ItemView>::empty()) == 0);
                assert(total_freq(seq![x]) == x.freq);
                assert(group_items(s, level) == r);
                assert(group_total(r) == group_total(gs) + x.freq);
            },
        }
    }
}

proof fn lemma_paths_bounded(s: Seq<ItemView>)
    ensures
        forall|i: int| 0 <= i < s.len() ==> s[i].path.len() <= max_path_len(s),
    decreases s.len(),
{
    if s.len() > 0 {
        lemma_paths_bounded(s.drop_last());
        assert forall|i: int| 0 <= i < s.len() implies s[i].path.len() <= max_path_len(s) by {
            if i < s.len() - 1 {
                assert(s[i] == s.drop_last()[i]);
            }
        }
    }
}

proof fn lemma_build_counts(t: Seq<InfoView>, axis: Seq<char>, items: Seq<ItemView>, level: nat, bound: nat)
    requires
        level <= bound,
        forall|i: int| 0 <= i < items.len() ==> items[i].path.len() <= bound,
    ensures
        resource_ids_all(build_spec(t, axis, items, level, bound)).to_multiset() == item_ids(items).to_multiset(),
        resource_freq_all(build_spec(t, axis, items, level, bound)) == total_freq(items),
        counts_hold_all(build_spec(t, axis, items, level, bound)),
    decreases bound - level, 2nat, 0nat,
{
    let leaves = leaves_at(items, level);
    let deeper = deeper_than(items, level);
    let lnodes = leaves.map_values(|x: ItemView| resource_node(x));
    lemma_resource_nodes(leaves);
    lemma_filter_split(items, level);
    if level >= bound {
        lemma_filter_none(items, level);
        assert(item_ids(deeper) =~= Seq::empty());
        assert(item_ids(leaves).to_multiset().add(Seq::<Seq<char>>::empty().to_multiset()) =~= item_ids(leaves).to_multiset());
    } else {
        let gs = group_items(deeper, level);
        assert forall|i: int| 0 <= i < deeper.len() implies deeper[i].path.len() <= bound by {
            items.lemma_filter_contains_rev(goes_past(level), deeper[i]);
        }
        lemma_group_items_bounded(deeper, level, bound);
        lemma_clusters_counts(t, axis, gs, level, bound);
        lemma_group_items_ids(deeper, level);
        let cnodes = clusters_spec(t, axis, gs, level, bound);
        lemma_concat(cnodes, lnodes);
        assert(item_ids(leaves).to_multiset().add(item_ids(deeper).to_multiset()) =~= item_ids(deeper).to_multiset().add(
            item_ids(leaves).to_multiset(),
        ));
    }
}

proof fn lemma_clusters_counts(
    t: Seq<InfoView>,
    axis: Seq<char>,
    gs: Seq<(SegView, Seq<ItemView>)>,
    level: nat,
    bound: nat,
)
    requires
        level < bound,
        forall|g: int, j: int| 0 <= g < gs.len() && 0 <= j < gs[g].1.len() ==> gs[g].1[j].path.len() <= bound,
    ensures
        resource_ids_all(clusters_spec(t, axis, gs, level, bound)).to_multiset() == group_ids(gs).to_multiset(),
        resource_freq_all(clusters_spec(t, axis, gs, level, bound)) == group_total(gs),
        counts_hold_all(clusters_spec(t, axis, gs, level, bound)),
    decreases bound - level, 1nat, gs.len(),
{
    let c = clusters_spec(t, axis, gs, level, bound);
    if gs.len() == 0 {
        assert(group_ids(gs) =~= Seq::empty());
        assert(c =~= Seq::empty());
    } else {
        let g = gs.last();
        let prev = gs.drop_last();
        assert forall|x: int, j: int| 0 <= x < prev.len() && 0 <= j < prev[x].1.len() implies prev[x].1[j].path.len() <= bound by {
            assert(prev[x] == gs[x]);
        }
        assert forall|j: int| 0 <= j < g.1.len() implies g.1[j].path.len() <= bound by {
            assert(g == gs[gs.len() - 1]);
        }
        lemma_clusters_counts(t, axis, prev, level, bound);
        lemma_build_counts(t, axis, g.1, level + 1, bound);
        let subs = build_spec(t, axis, g.1, level + 1, bound);
        let pc = clusters_spec(t, axis, prev, level, bound);
        assert(c.drop_last() =~= pc);
        assert(c.last() == NodeView::Cluster {
            key: g.0,
            label: crate::layout::spec_key_label(t, g.0),
            color: crate::layout::spec_key_color(t, g.0),
            axis,
            depth: level,
            total_freq: total_freq(g.1),
            leaf_count: g.1.len(),
            subs,
        });
        assert(resource_ids(c.last()) == resource_ids_all(subs));
        assert(resource_freq(c.last()) == resource_freq_all(subs));
        assert(resource_ids_all(c) == resource_ids_all(pc) + resource_ids_all(subs));
        assert(group_ids(gs) == group_ids(prev) + item_ids(g.1));
        assert(resource_ids_all(subs).to_multiset() == item_ids(g.1).to_multiset());
        assert(resource_ids_all(subs).to_multiset().len() == item_ids(g.1).to_multiset().len());
        assert(resource_ids_all(subs).len() == g.1.len());
        assert(counts_hold(c.last()));
        assert(item_ids(g.1).len() == g.1.len());
        assert(resource_ids_all(subs).len() == resource_ids_all(subs).to_multiset().len());
        assert(item_ids(g.1).len() == item_ids(g.1).to_multiset().len());
    }
}

/// Every item given to the tree is a resource of the tree, exactly once:
/// the identifiers of the tree's resources are those of the items, counted
/// with their repetitions.
pub proof fn lemma_tree_holds_each_item_once(t: Seq<InfoView>, axis: Seq<char>, items: Seq<ItemView>)
    ensures
        resource_ids_all(spec_build(t, axis, items)).to_multiset() == item_ids(items).to_multiset(),
{
    lemma_paths_bounded(items);
    lemma_build_counts(t, axis, items, 0, max_path_len(items));
}

/// Every cluster of the tree counts exactly the resources beneath it, and
/// its total frequency is their summed weight; the whole tree weighs what the
/// items weigh.
pub proof fn lemma_clusters_count_their_resources(t: Seq<InfoView>, axis: Seq<char>, items: Seq<ItemView>)
    ensures
        counts_hold_all(spec_build(t, axis, items)),
        resource_freq_all(spec_build(t, axis, items)) == total_freq(items),
{
    lemma_paths_bounded(items);
    lemma_build_counts(t, axis, items, 0, max_path_len(items));
}

/// The key of a node, for clusters.
pub open spec fn cluster_key(n: NodeView) -> Option<SegView> {
    match n {
        NodeView::Cluster { key, .. } => Some(key),
        NodeView::Resource { .. } => None,
    }
}

/// No two clusters of the list share a key.
pub open spec fn sibling_keys_distinct(s: Seq<NodeView>) -> bool {
    forall|i: int, j: int|
        0 <= i < j < s.len() && (#[trigger] s[i]) is Cluster && (#[trigger] s[j]) is Cluster ==> cluster_key(s[i])
            != cluster_key(s[j])
}

/// No two sibling clusters share a key, anywhere at or under the node.
pub open spec fn keys_distinct(n: NodeView) -> bool
    decreases n,
{
    match n {
        NodeView::Resource { .. } => true,
        NodeView::Cluster { subs, .. } => sibling_keys_distinct(subs) && keys_distinct_all(subs),
    }
}

/// `keys_distinct` for every node of a list.
pub open spec fn keys_distinct_all(s: Seq<NodeView>) -> bool
    decreases s,
{
    if s.len() == 0 {
        true
    } else {
        keys_distinct_all(s.drop_last()) && keys_distinct(s.last())
    }
}

proof fn lemma_group_keys_distinct(s: Seq<ItemView>, level: nat)
    ensures
        forall|i: int, j: int|
            0 <= i < j < group_items(s, level).len() ==> (#[trigger] group_items(s, level)[i]).0
                != (#[trigger] group_items(s, level)[j]).0,
    decreases s.len(),
{
    if s.len() > 0 {
        let p = s.drop_last();
        lemma_group_keys_distinct(p, level);
        let gs = group_items(p, level);
        let key = s.last().path[level as int];
        lemma_seg_group_index_some(gs, key);
        crate::layout::lemma_seg_group_index_none_rev(gs, key);
        let r = group_items(s, level);
        assert forall|i: int, j: int| 0 <= i < j < r.len() implies (#[trigger] r[i]).0 != (#[trigger] r[j]).0 by {
            match seg_group_index(gs, key) {
                Some(x) => {
                    assert(r[i].0 == gs[i].0);
                    assert(r[j].0 == gs[j].0);
                },
                None => {
                    if j == gs.len() {
                        assert(r[i] == gs[i]);
                    } else {
                        assert(r[i] == gs[i]);
                        assert(r[j] == gs[j]);
                    }
                },
            }
        }
    }
}

/// The resource nodes of the items.
spec fn resource_nodes(s: Seq<ItemView>) -> Seq<NodeView> {
    s.map_values(|x: ItemView| resource_node(x))
}

proof fn lemma_resource_nodes_keys(s: Seq<ItemView>)
    ensures
        keys_distinct_all(resource_nodes(s)),
        forall|i: int| 0 <= i < s.len() ==> (#[trigger] resource_nodes(s)[i]) is Resource,
    decreases s.len(),
{
    if s.len() > 0 {
        lemma_resource_nodes_keys(s.drop_last());
        let m = resource_nodes(s);
        assert(m.drop_last() =~= resource_nodes(s.drop_last()));
        assert(m.last() == resource_node(s.last()));
        assert(keys_distinct(m.last()));
    } else {
        assert(resource_nodes(s).len() == 0);
    }
}

proof fn lemma_keys_concat(a: Seq<NodeView>, b: Seq<NodeView>)
    ensures
        keys_distinct_all(a + b) == (keys_distinct_all(a) && keys_distinct_all(b)),
    decreases b.len(),
{
    if b.len() == 0 {
        assert(a + b =~= a);
    } else {
        lemma_keys_concat(a, b.drop_last());
        assert((a + b).drop_last() =~= a + b.drop_last());
        assert((a + b).last() == b.last());
    }
}

proof fn lemma_build_keys(t: Seq<InfoView>, axis: Seq<char>, items: Seq<ItemView>, level: nat, bound: nat)
    ensures
        sibling_keys_distinct(build_spec(t, axis, items, level, bound)),
        keys_distinct_all(build_spec(t, axis, items, level, bound)),
    decreases bound - level, 2nat, 0nat,
{
    let leaves = leaves_at(items, level);
    let lnodes = resource_nodes(leaves);
    lemma_resource_nodes_keys(leaves);
    assert(lnodes.len() == leaves.len());
    if level < bound {
        let deeper = deeper_than(items, level);
        let gs = group_items(deeper, level);
        lemma_group_keys_distinct(deeper, level);
        lemma_clusters_keys(t, axis, gs, level, bound);
        let c = clusters_spec(t, axis, gs, level, bound);
        lemma_keys_concat(c, lnodes);
        let b = c + lnodes;
        assert forall|i: int, j: int|
            0 <= i < j < b.len() && (#[trigger] b[i]) is Cluster && (#[trigger] b[j]) is Cluster implies cluster_key(b[i])
                != cluster_key(b[j]) by {
            if j >= c.len() {
                assert(b[j] == lnodes[j - c.len()]);
            } else {
                assert(b[i] == c[i]);
                assert(b[j] == c[j]);
            }
        }
    } else {
        assert forall|i: int, j: int|
            0 <= i < j < lnodes.len() && (#[trigger] lnodes[i]) is Cluster && (#[trigger] lnodes[j]) is Cluster implies cluster_key(lnodes[i])
                != cluster_key(lnodes[j]) by {}
    }
}

proof fn lemma_clusters_keys(
    t: Seq<InfoView>,
    axis: Seq<char>,
    gs: Seq<(SegView, Seq<ItemView>)>,
    level: nat,
    bound: nat,
)
    requires
        forall|i: int, j: int| 0 <= i < j < gs.len() ==> (#[trigger] gs[i]).0 != (#[trigger] gs[j]).0,
    ensures
        clusters_spec(t, axis, gs, level, bound).len() == (if level < bound { gs.len() } else { 0 }),
        forall|i: int|
            0 <= i < clusters_spec(t, axis, gs, level, bound).len() ==> (#[trigger] clusters_spec(t, axis, gs, level, bound)[i])
                is Cluster && cluster_key(clusters_spec(t, axis, gs, level, bound)[i]) == Some(gs[i].0),
        sibling_keys_distinct(clusters_spec(t, axis, gs, level, bound)),
        keys_distinct_all(clusters_spec(t, axis, gs, level, bound)),
    decreases bound - level, 1nat, gs.len(),
{
    let c = clusters_spec(t, axis, gs, level, bound);
    if gs.len() > 0 && level < bound {
        let prev = gs.drop_last();
        lemma_clusters_keys(t, axis, prev, level, bound);
        lemma_build_keys(t, axis, gs.last().1, level + 1, bound);
        let pc = clusters_spec(t, axis, prev, level, bound);
        assert(c.drop_last() =~= pc);
        let g = gs.last();
        assert(c.last() == NodeView::Cluster {
            key: g.0,
            label: crate::layout::spec_key_label(t, g.0),
            color: crate::layout::spec_key_color(t, g.0),
            axis,
            depth: level,
            total_freq: total_freq(g.1),
            leaf_count: g.1.len(),
            subs: build_spec(t, axis, g.1, level + 1, bound),
        });
        assert(keys_distinct(c.last()));
        assert forall|i: int| 0 <= i < c.len() implies (#[trigger] c[i]) is Cluster && cluster_key(c[i]) == Some(gs[i].0) by {
            if i < pc.len() {
                assert(c[i] == pc[i]);
                assert(prev[i] == gs[i]);
            }
        }
        assert forall|i: int, j: int|
            0 <= i < j < c.len() && (#[trigger] c[i]) is Cluster && (#[trigger] c[j]) is Cluster implies cluster_key(c[i])
                != cluster_key(c[j]) by {
            assert(gs[i].0 != gs[j].0);
        }
    } else {
        assert(c =~= Seq::empty());
    }
}

/// In the tree, no two sibling clusters share a path step: each level has
/// one cluster per category (and at most one `Other`).
pub proof fn lemma_one_cluster_per_step(t: Seq<InfoView>, axis: Seq<char>, items: Seq<ItemView>)
    ensures
        sibling_keys_distinct(spec_build(t, axis, items)),
        keys_distinct_all(spec_build(t, axis, items)),
{
    lemma_build_keys(t, axis, items, 0, max_path_len(items));
}

// ---------------------------------------------------------------------------
// Each resource leaf shows its item as given.

/// What a resource leaf shows: identifier, label, colour and weight.
pub open spec fn item_entry(it: ItemView) -> (Seq<char>, Seq<char>, Seq<char>, nat) {
    (it.id, it.label, it.color, it.freq)
}

/// What the items would show as leaves, in order.
pub open spec fn item_entries(s: Seq<ItemView>) -> Seq<(Seq<char>, Seq<char>, Seq<char>, nat)> {
    s.map_values(|it: ItemView| item_entry(it))
}

/// What the resource leaves under a node show, in tree order.
pub open spec fn resource_entries(n: NodeView) -> Seq<(Seq<char>, Seq<char>, Seq<char>, nat)>
    decreases n,
{
    match n {
        NodeView::Resource { id, label, color, freq } => seq![(id, label, color, freq)],
        NodeView::Cluster { subs, .. } => resource_entries_all(subs),
    }
}

/// What the resource leaves under a list of nodes show, in tree order.
pub open spec fn resource_entries_all(s: Seq<NodeView>) -> Seq<(Seq<char>, Seq<char>, Seq<char>, nat)>
    decreases s,
{
    if s.len() == 0 {
        Seq::empty()
    } else {
        resource_entries_all(s.drop_last()) + resource_entries(s.last())
    }
}

pub open spec fn group_entries(gs: Seq<(SegView, Seq<ItemView>)>) -> Seq<(Seq<char>, Seq<char>, Seq<char>, nat)>
    decreases gs.len(),
{
    if gs.len() == 0 {
        Seq::empty()
    } else {
        group_entries(gs.drop_last()) + item_entries(gs.last().1)
    }
}

proof fn lemma_entries_concat(a: Seq<NodeView>, b: Seq<NodeView>)
    ensures
        resource_entries_all(a + b) == resource_entries_all(a) + resource_entries_all(b),
    decreases b.len(),
{
    if b.len() == 0 {
        assert(a + b =~= a);
        assert(resource_entries_all(a) + resource_entries_all(b) =~= resource_entries_all(a));
    } else {
        lemma_entries_concat(a, b.drop_last());
        assert((a + b).drop_last() =~= a + b.drop_last());
        assert((a + b).last() == b.last());
        assert(resource_entries_all(a) + resource_entries_all(b) =~= resource_entries_all(a) + resource_entries_all(
            b.drop_last(),
        ) + resource_entries(b.last()));
    }
}

proof fn lemma_resource_node_entries(s: Seq<ItemView>)
    ensures
        resource_entries_all(s.map_values(|x: ItemView| resource_node(x))) == item_entries(s),
    decreases s.len(),
{
    let m = s.map_values(|x: ItemView| resource_node(x));
    if s.len() == 0 {
        assert(item_entries(s) =~= Seq::empty());
    } else {
        lemma_resource_node_entries(s.drop_last());
        assert(m.drop_last() =~= s.drop_last().map_values(|x: ItemView| resource_node(x)));
        assert(item_entries(s) =~= item_entries(s.drop_last()).push(item_entry(s.last())));
        assert(m.last() == resource_node(s.last()));
        assert(resource_entries(m.last()) =~= seq![item_entry(s.last())]);
    }
}

proof fn lemma_filter_split_entries(s: Seq<ItemView>, level: nat)
    ensures
        item_entries(s.filter(ends_by(level))).to_multiset().add(item_entries(s.filter(goes_past(level))).to_multiset())
            == item_entries(s).to_multiset(),
    decreases s.len(),
{
    let a = s.filter(ends_by(level));
    let b = s.filter(goes_past(level));
    if s.len() == 0 {
        assert(item_entries(a) =~= Seq::empty());
        assert(item_entries(b) =~= Seq::empty());
        assert(item_entries(s) =~= Seq::empty());
        assert(item_entries(a).to_multiset().add(item_entries(b).to_multiset()) =~= item_entries(s).to_multiset());
    } else {
        let p = s.drop_last();
        let x = s.last();
        lemma_filter_split_entries(p, level);
        assert(s =~= p.push(x));
        p.lemma_filter_push(x, ends_by(level));
        p.lemma_filter_push(x, goes_past(level));
        assert(item_entries(s) =~= item_entries(p).push(item_entry(x)));
        if x.path.len() <= level {
            assert(item_entries(a) =~= item_entries(p.filter(ends_by(level))).push(item_entry(x)));
        } else {
            assert(item_entries(b) =~= item_entries(p.filter(goes_past(level))).push(item_entry(x)));
        }
        assert(item_entries(a).to_multiset().add(item_entries(b).to_multiset()) =~= item_entries(s).to_multiset());
    }
}

proof fn lemma_group_update_entries(gs: Seq<(SegView, Seq<ItemView>)>, i: int, k: SegView, y: ItemView)
    requires
        0 <= i < gs.len(),
    ensures
        group_entries(gs.update(i, (k, gs[i].1.push(y)))).to_multiset() == group_entries(gs).to_multiset().insert(
            item_entry(y),
        ),
    decreases gs.len(),
{
    let u = gs.update(i, (k, gs[i].1.push(y)));
    let g = gs[i].1;
    assert(item_entries(g.push(y)) =~= item_entries(g).push(item_entry(y)));
    if i == gs.len() - 1 {
        assert(u.drop_last() =~= gs.drop_last());
        assert(group_entries(u) =~= group_entries(gs.drop_last()) + item_entries(g).push(item_entry(y)));
        assert(group_entries(gs) =~= group_entries(gs.drop_last()) + item_entries(g));
        assert((group_entries(gs.drop_last()) + item_entries(g)).push(item_entry(y)) =~= group_entries(gs.drop_last())
            + item_entries(g).push(item_entry(y)));
    } else {
        lemma_group_update_entries(gs.drop_last(), i, k, y);
        assert(u.drop_last() =~= gs.drop_last().update(i, (k, g.push(y))));
        assert(u.last() == gs.last());
    }
}

proof fn lemma_group_items_entries(s: Seq<ItemView>, level: nat)
    ensures
        group_entries(group_items(s, level)).to_multiset() == item_entries(s).to_multiset(),
    decreases s.len(),
{
    if s.len() == 0 {
        assert(item_entries(s) =~= Seq::empty());
        assert(group_entries(group_items(s, level)) =~= Seq::empty());
    } else {
        let p = s.drop_last();
        let x = s.last();
        lemma_group_items_entries(p, level);
        let gs = group_items(p, level);
        let key = x.path[level as int];
        assert(item_entries(s) =~= item_entries(p).push(item_entry(x)));
        lemma_seg_group_index_some(gs, key);
        match seg_group_index(gs, key) {
            Some(i) => {
                lemma_group_update_entries(gs, i, key, x);
                assert(group_items(s, level) == gs.update(i, (key, gs[i].1.push(x))));
            },
            None => {
                let r = gs.push((key, seq![x]));
                assert(r.drop_last() =~= gs);
                assert(item_entries(seq![x]) =~= seq![item_entry(x)]);
                assert(group_items(s, level) == r);
                assert(group_entries(r) =~= group_entries(gs) + seq![item_entry(x)]);
            },
        }
    }
}

proof fn lemma_build_entries(t: Seq<InfoView>, axis: Seq<char>, items: Seq<ItemView>, level: nat, bound: nat)
    requires
        level <= bound,
        forall|i: int| 0 <= i < items.len() ==> items[i].path.len() <= bound,
    ensures
        resource_entries_all(build_spec(t, axis, items, level, bound)).to_multiset() == item_entries(
            items,
        ).to_multiset(),
    decreases bound - level, 2nat, 0nat,
{
    let leaves = leaves_at(items, level);
    let deeper = deeper_than(items, level);
    let lnodes = leaves.map_values(|x: ItemView| resource_node(x));
    lemma_resource_node_entries(leaves);
    lemma_filter_split_entries(items, level);
    if level >= bound {
        lemma_filter_none(items, level);
        assert(item_entries(deeper) =~= Seq::empty());
        assert(item_entries(leaves).to_multiset().add(
            Seq::<(Seq<char>, Seq<char>, Seq<char>, nat)>::empty().to_multiset(),
        ) =~= item_entries(leaves).to_multiset());
    } else {
        let gs = group_items(deeper, level);
        assert forall|i: int| 0 <= i < deeper.len() implies deeper[i].path.len() <= bound by {
            items.lemma_filter_contains_rev(goes_past(level), deeper[i]);
        }
        lemma_group_items_bounded(deeper, level, bound);
        lemma_clusters_entries(t, axis, gs, level, bound);
        lemma_group_items_entries(deeper, level);
        let cnodes = clusters_spec(t, axis, gs, level, bound);
        lemma_entries_concat(cnodes, lnodes);
        assert(item_entries(leaves).to_multiset().add(item_entries(deeper).to_multiset()) =~= item_entries(
            deeper,
        ).to_multiset().add(item_entries(leaves).to_multiset()));
    }
}

proof fn lemma_clusters_entries(
    t: Seq<InfoView>,
    axis: Seq<char>,
    gs: Seq<(SegView, Seq<ItemView>)>,
    level: nat,
    bound: nat,
)
    requires
        level < bound,
        forall|g: int, j: int| 0 <= g < gs.len() && 0 <= j < gs[g].1.len() ==> gs[g].1[j].path.len() <= bound,
    ensures
        resource_entries_all(clusters_spec(t, axis, gs, level, bound)).to_multiset() == group_entries(
            gs,
        ).to_multiset(),
    decreases bound - level, 1nat, gs.len(),
{
    let c = clusters_spec(t, axis, gs, level, bound);
    if gs.len() == 0 {
        assert(group_entries(gs) =~= Seq::empty());
        assert(c =~= Seq::empty());
    } else {
        let g = gs.last();
        let prev = gs.drop_last();
        assert forall|x: int, j: int| 0 <= x < prev.len() && 0 <= j < prev[x].1.len() implies prev[x].1[j].path.len()
            <= bound by {
            assert(prev[x] == gs[x]);
        }
        assert forall|j: int| 0 <= j < g.1.len() implies g.1[j].path.len() <= bound by {
            assert(g == gs[gs.len() - 1]);
        }
        lemma_clusters_entries(t, axis, prev, level, bound);
        lemma_build_entries(t, axis, g.1, level + 1, bound);
        let subs = build_spec(t, axis, g.1, level + 1, bound);
        let pc = clusters_spec(t, axis, prev, level, bound);
        assert(c.drop_last() =~= pc);
        assert(resource_entries(c.last()) == resource_entries_all(subs));
        assert(resource_entries_all(c) == resource_entries_all(pc) + resource_entries_all(subs));
        assert(group_entries(gs) == group_entries(prev) + item_entries(g.1));
    }
}

/// Every resource leaf of the tree shows the item it stands for as given:
/// the (identifier, label, colour, weight) of the tree's leaves are those of
/// the items, counted with their repetitions.
pub proof fn lemma_leaves_show_their_items(t: Seq<InfoView>, axis: Seq<char>, items: Seq<ItemView>)
    ensures
        resource_entries_all(spec_build(t, axis, items)).to_multiset() == item_entries(items).to_multiset(),
{
    lemma_paths_bounded(items);
    lemma_build_entries(t, axis, items, 0, max_path_len(items));
}

// ---------------------------------------------------------------------------
// Each cluster is labelled and coloured after its category.

/// The first node of the taxonomy with identifier `id` is at `i`.
pub open spec fn first_info_at(t: Seq<InfoView>, id: Seq<char>, i: int) -> bool {
    &&& 0 <= i < t.len()
    &&& t[i].id == id
    &&& forall|j: int| 0 <= j < i ==> t[j].id != id
}

/// No node of the taxonomy has identifier `id`.
pub open spec fn info_absent(t: Seq<InfoView>, id: Seq<char>) -> bool {
    forall|j: int| 0 <= j < t.len() ==> t[j].id != id
}

/// A cluster of step `key` may carry `label`: none for `Other`; for a
/// category, the label of its first taxonomy node, or its identifier when
/// that label is empty or the category is not in the taxonomy.
pub open spec fn label_fits(t: Seq<InfoView>, key: SegView, label: Seq<char>) -> bool {
    match key {
        SegView::Other => label.len() == 0,
        SegView::Category(id) => {
            &&& forall|i: int| #[trigger] first_info_at(t, id, i) ==> label == (if t[i].label.len() > 0 {
                t[i].label
            } else {
                id
            })
            &&& info_absent(t, id) ==> label == id
        },
    }
}

/// A cluster of step `key` may carry `color`: the default for `Other`; for a
/// category, the colour of its first taxonomy node in hex, or the default
/// when that node has none or the category is not in the taxonomy.
pub open spec fn color_fits(t: Seq<InfoView>, key: SegView, color: Seq<char>) -> bool {
    match key {
        SegView::Other => color == default_color_hex(),
        SegView::Category(id) => {
            &&& forall|i: int| #[trigger] first_info_at(t, id, i) ==> color == (match t[i].color {
                Some(c) => spec_to_hex(c),
                None => default_color_hex(),
            })
            &&& info_absent(t, id) ==> color == default_color_hex()
        },
    }
}

/// Every cluster at or under `n` sits at depth `level` (its children one
/// deeper), names the zoom axis, and is labelled and coloured after its
/// step.
pub open spec fn clusters_fit(n: NodeView, t: Seq<InfoView>, axis: Seq<char>, level: nat) -> bool
    decreases n,
{
    match n {
        NodeView::Resource { .. } => true,
        NodeView::Cluster { key, label, color, axis: ax, depth, subs, .. } => {
            &&& depth == level
            &&& ax == axis
            &&& label_fits(t, key, label)
            &&& color_fits(t, key, color)
            &&& clusters_fit_all(subs, t, axis, level + 1)
        },
    }
}

/// `clusters_fit` for every node of a list.
pub open spec fn clusters_fit_all(s: Seq<NodeView>, t: Seq<InfoView>, axis: Seq<char>, level: nat) -> bool
    decreases s,
{
    if s.len() == 0 {
        true
    } else {
        clusters_fit_all(s.drop_last(), t, axis, level) && clusters_fit(s.last(), t, axis, level)
    }
}

proof fn lemma_key_label_color_fit(t: Seq<InfoView>, key: SegView)
    ensures
        label_fits(t, key, spec_key_label(t, key)),
        color_fits(t, key, spec_key_color(t, key)),
{
    if let SegView::Category(id) = key {
        assert forall|i: int| #[trigger] first_info_at(t, id, i) implies spec_key_label(t, key) == (if t[i].label.len()
            > 0 {
            t[i].label
        } else {
            id
        }) && spec_key_color(t, key) == (match t[i].color {
            Some(c) => spec_to_hex(c),
            None => default_color_hex(),
        }) by {
            lemma_info_index_first(t, id, i);
        }
        if info_absent(t, id) {
            lemma_info_index_none(t, id);
        }
    }
}

proof fn lemma_fit_concat(a: Seq<NodeView>, b: Seq<NodeView>, t: Seq<InfoView>, axis: Seq<char>, level: nat)
    ensures
        clusters_fit_all(a + b, t, axis, level) == (clusters_fit_all(a, t, axis, level) && clusters_fit_all(
            b,
            t,
            axis,
            level,
        )),
    decreases b.len(),
{
    if b.len() == 0 {
        assert(a + b =~= a);
    } else {
        lemma_fit_concat(a, b.drop_last(), t, axis, level);
        assert((a + b).drop_last() =~= a + b.drop_last());
        assert((a + b).last() == b.last());
    }
}

proof fn lemma_resource_nodes_fit(s: Seq<ItemView>, t: Seq<InfoView>, axis: Seq<char>, level: nat)
    ensures
        clusters_fit_all(s.map_values(|x: ItemView| resource_node(x)), t, axis, level),
    decreases s.len(),
{
    let m = s.map_values(|x: ItemView| resource_node(x));
    if s.len() > 0 {
        lemma_resource_nodes_fit(s.drop_last(), t, axis, level);
        assert(m.drop_last() =~= s.drop_last().map_values(|x: ItemView| resource_node(x)));
        assert(m.last() == resource_node(s.last()));
        assert(clusters_fit(m.last(), t, axis, level));
    }
}

proof fn lemma_build_fits(t: Seq<InfoView>, axis: Seq<char>, items: Seq<ItemView>, level: nat, bound: nat)
    ensures
        clusters_fit_all(build_spec(t, axis, items, level, bound), t, axis, level),
    decreases bound - level, 2nat, 0nat,
{
    let leaves = leaves_at(items, level);
    let lnodes = leaves.map_values(|x: ItemView| resource_node(x));
    lemma_resource_nodes_fit(leaves, t, axis, level);
    if level < bound {
        let gs = group_items(deeper_than(items, level), level);
        lemma_clusters_fit(t, axis, gs, level, bound);
        lemma_fit_concat(clusters_spec(t, axis, gs, level, bound), lnodes, t, axis, level);
    }
}

proof fn lemma_clusters_fit(
    t: Seq<InfoView>,
    axis: Seq<char>,
    gs: Seq<(SegView, Seq<ItemView>)>,
    level: nat,
    bound: nat,
)
    ensures
        clusters_fit_all(clusters_spec(t, axis, gs, level, bound), t, axis, level),
    decreases bound - level, 1nat, gs.len(),
{
    let c = clusters_spec(t, axis, gs, level, bound);
    if gs.len() == 0 || level >= bound {
        assert(c =~= Seq::empty());
    } else {
        let g = gs.last();
        lemma_clusters_fit(t, axis, gs.drop_last(), level, bound);
        lemma_build_fits(t, axis, g.1, level + 1, bound);
        lemma_key_label_color_fit(t, g.0);
        assert(c.drop_last() =~= clusters_spec(t, axis, gs.drop_last(), level, bound));
        assert(c.last() == NodeView::Cluster {
            key: g.0,
            label: spec_key_label(t, g.0),
            color: spec_key_color(t, g.0),
            axis,
            depth: level,
            total_freq: total_freq(g.1),
            leaf_count: g.1.len(),
            subs: build_spec(t, axis, g.1, level + 1, bound),
        });
        assert(clusters_fit(c.last(), t, axis, level));
    }
}

/// Every cluster of the tree sits at its depth (the top clusters at 0, each
/// cluster's children one deeper), names the zoom axis, and carries the
/// label and colour of its category as the taxonomy gives them (its first
/// node with that identifier), falling back to the identifier and the
/// default colour; an `Other` step has no label and the default colour.
pub proof fn lemma_clusters_named_after_their_step(t: Seq<InfoView>, axis: Seq<char>, items: Seq<ItemView>)
    ensures
        clusters_fit_all(spec_build(t, axis, items), t, axis, 0),
{
    lemma_build_fits(t, axis, items, 0, max_path_len(items));
}

// ---------------------------------------------------------------------------
// Each resource sits under the clusters of its path.

/// Every resource leaf at or under `n`, reached through clusters whose steps
/// (from the top) are `prefix`, stands for one of `items` (same identifier,
/// label, colour and weight) whose path on the zoom axis is exactly that
/// chain of steps.
pub open spec fn placed(n: NodeView, items: Seq<ItemView>, prefix: Seq<SegView>) -> bool
    decreases n,
{
    match n {
        NodeView::Resource { id, label, color, freq } => exists|i: int|
            0 <= i < items.len() && item_entry(#[trigger] items[i]) == (id, label, color, freq) && items[i].path
                == prefix,
        NodeView::Cluster { key, subs, .. } => placed_all(subs, items, prefix.push(key)),
    }
}

/// `placed` for every node of a list.
pub open spec fn placed_all(s: Seq<NodeView>, items: Seq<ItemView>, prefix: Seq<SegView>) -> bool
    decreases s,
{
    if s.len() == 0 {
        true
    } else {
        placed_all(s.drop_last(), items, prefix) && placed(s.last(), items, prefix)
    }
}

/// The item lies on the chain `prefix` (its path starts with it) and is one
/// of `all`.
pub open spec fn on_chain(x: ItemView, all: Seq<ItemView>, prefix: Seq<SegView>) -> bool {
    &&& x.path.len() >= prefix.len()
    &&& x.path.subrange(0, prefix.len() as int) == prefix
    &&& all.contains(x)
}

proof fn lemma_placed_concat(a: Seq<NodeView>, b: Seq<NodeView>, items: Seq<ItemView>, prefix: Seq<SegView>)
    ensures
        placed_all(a + b, items, prefix) == (placed_all(a, items, prefix) && placed_all(b, items, prefix)),
    decreases b.len(),
{
    if b.len() == 0 {
        assert(a + b =~= a);
    } else {
        lemma_placed_concat(a, b.drop_last(), items, prefix);
        assert((a + b).drop_last() =~= a + b.drop_last());
        assert((a + b).last() == b.last());
    }
}

proof fn lemma_leaves_placed(s: Seq<ItemView>, all: Seq<ItemView>, prefix: Seq<SegView>)
    requires
        forall|j: int| 0 <= j < s.len() ==> on_chain(#[trigger] s[j], all, prefix) && s[j].path.len() <= prefix.len(),
    ensures
        placed_all(s.map_values(|x: ItemView| resource_node(x)), all, prefix),
    decreases s.len(),
{
    let m = s.map_values(|x: ItemView| resource_node(x));
    if s.len() > 0 {
        let p = s.drop_last();
        assert forall|j: int| 0 <= j < p.len() implies on_chain(#[trigger] p[j], all, prefix) && p[j].path.len()
            <= prefix.len() by {
            assert(p[j] == s[j]);
        }
        lemma_leaves_placed(p, all, prefix);
        assert(m.drop_last() =~= p.map_values(|x: ItemView| resource_node(x)));
        let x = s.last();
        assert(on_chain(s[s.len() - 1], all, prefix));
        assert(x.path =~= x.path.subrange(0, prefix.len() as int));
        let i = choose|i: int| 0 <= i < all.len() && all[i] == x;
        assert(item_entry(all[i]) == (x.id, x.label, x.color, x.freq));
        assert(placed(m.last(), all, prefix));
    }
}

proof fn lemma_group_items_on_key(s: Seq<ItemView>, level: nat)
    ensures
        forall|g: int, j: int|
            0 <= g < group_items(s, level).len() && 0 <= j < group_items(s, level)[g].1.len() ==> s.contains(
                #[trigger] group_items(s, level)[g].1[j],
            ) && group_items(s, level)[g].1[j].path[level as int] == group_items(s, level)[g].0,
    decreases s.len(),
{
    if s.len() > 0 {
        let p = s.drop_last();
        let x = s.last();
        lemma_group_items_on_key(p, level);
        let gs = group_items(p, level);
        let key = x.path[level as int];
        let r = group_items(s, level);
        lemma_seg_group_index_some(gs, key);
        assert forall|g: int, j: int| 0 <= g < r.len() && 0 <= j < r[g].1.len() implies s.contains(#[trigger] r[g].1[j])
            && r[g].1[j].path[level as int] == r[g].0 by {
            assert(s[s.len() - 1] == x);
            match seg_group_index(gs, key) {
                Some(i) => {
                    if g == i && j == gs[i].1.len() {
                        assert(r[g].1[j] == x);
                    } else {
                        assert(r[g].1[j] == gs[g].1[j]);
                        assert(p.contains(gs[g].1[j]));
                        let a = choose|a: int| 0 <= a < p.len() && p[a] == gs[g].1[j];
                        assert(s[a] == p[a]);
                    }
                },
                None => {
                    if g == gs.len() {
                        assert(r[g].1 == seq![x]);
                        assert(r[g].1[j] == x);
                    } else {
                        assert(r[g] == gs[g]);
                        assert(p.contains(gs[g].1[j]));
                        let a = choose|a: int| 0 <= a < p.len() && p[a] == gs[g].1[j];
                        assert(s[a] == p[a]);
                    }
                },
            }
        }
    }
}

proof fn lemma_build_placed(
    t: Seq<InfoView>,
    axis: Seq<char>,
    its: Seq<ItemView>,
    level: nat,
    bound: nat,
    all: Seq<ItemView>,
    prefix: Seq<SegView>,
)
    requires
        prefix.len() == level,
        forall|j: int| 0 <= j < its.len() ==> on_chain(#[trigger] its[j], all, prefix),
    ensures
        placed_all(build_spec(t, axis, its, level, bound), all, prefix),
    decreases bound - level, 2nat, 0nat,
{
    let leaves = leaves_at(its, level);
    let lnodes = leaves.map_values(|x: ItemView| resource_node(x));
    its.filter_lemma(ends_by(level));
    assert forall|j: int| 0 <= j < leaves.len() implies on_chain(#[trigger] leaves[j], all, prefix)
        && leaves[j].path.len() <= prefix.len() by {
        its.lemma_filter_contains_rev(ends_by(level), leaves[j]);
        let a = choose|a: int| 0 <= a < its.len() && its[a] == leaves[j];
        assert(on_chain(its[a], all, prefix));
    }
    lemma_leaves_placed(leaves, all, prefix);
    if level < bound {
        let deeper = deeper_than(its, level);
        let gs = group_items(deeper, level);
        lemma_group_items_on_key(deeper, level);
        assert forall|g: int, j: int| 0 <= g < gs.len() && 0 <= j < gs[g].1.len() implies on_chain(
            #[trigger] gs[g].1[j],
            all,
            prefix,
        ) && gs[g].1[j].path.len() > level && gs[g].1[j].path[level as int] == gs[g].0 by {
            let x = gs[g].1[j];
            let b = choose|b: int| 0 <= b < deeper.len() && deeper[b] == x;
            its.lemma_filter_contains_rev(goes_past(level), x);
            let a = choose|a: int| 0 <= a < its.len() && its[a] == x;
            assert(on_chain(its[a], all, prefix));
            deeper.filter_lemma(goes_past(level));
        }
        lemma_clusters_placed(t, axis, gs, level, bound, all, prefix);
        lemma_placed_concat(clusters_spec(t, axis, gs, level, bound), lnodes, all, prefix);
    }
}

proof fn lemma_clusters_placed(
    t: Seq<InfoView>,
    axis: Seq<char>,
    gs: Seq<(SegView, Seq<ItemView>)>,
    level: nat,
    bound: nat,
    all: Seq<ItemView>,
    prefix: Seq<SegView>,
)
    requires
        prefix.len() == level,
        forall|g: int, j: int|
            0 <= g < gs.len() && 0 <= j < gs[g].1.len() ==> on_chain(#[trigger] gs[g].1[j], all, prefix)
                && gs[g].1[j].path.len() > level && gs[g].1[j].path[level as int] == gs[g].0,
    ensures
        placed_all(clusters_spec(t, axis, gs, level, bound), all, prefix),
    decreases bound - level, 1nat, gs.len(),
{
    let c = clusters_spec(t, axis, gs, level, bound);
    if gs.len() == 0 || level >= bound {
        assert(c =~= Seq::empty());
    } else {
        let g = gs.last();
        let prev = gs.drop_last();
        assert forall|x: int, j: int| 0 <= x < prev.len() && 0 <= j < prev[x].1.len() implies on_chain(
            #[trigger] prev[x].1[j],
            all,
            prefix,
        ) && prev[x].1[j].path.len() > level && prev[x].1[j].path[level as int] == prev[x].0 by {
            assert(prev[x] == gs[x]);
        }
        lemma_clusters_placed(t, axis, prev, level, bound, all, prefix);
        let np = prefix.push(g.0);
        assert forall|j: int| 0 <= j < g.1.len() implies on_chain(#[trigger] g.1[j], all, np) by {
            assert(g == gs[gs.len() - 1]);
            let x = g.1[j];
            assert(on_chain(gs[gs.len() - 1].1[j], all, prefix));
            assert(x.path.subrange(0, np.len() as int) =~= x.path.subrange(0, prefix.len() as int).push(
                x.path[level as int],
            ));
        }
        lemma_build_placed(t, axis, g.1, level + 1, bound, all, np);
        assert(c.drop_last() =~= clusters_spec(t, axis, prev, level, bound));
        assert(c.last() == NodeView::Cluster {
            key: g.0,
            label: spec_key_label(t, g.0),
            color: spec_key_color(t, g.0),
            axis,
            depth: level,
            total_freq: total_freq(g.1),
            leaf_count: g.1.len(),
            subs: build_spec(t, axis, g.1, level + 1, bound),
        });
        assert(placed(c.last(), all, prefix));
    }
}

/// Every resource leaf of the tree sits exactly under the clusters of its
/// path: reading the steps of the clusters above a leaf from the top gives
/// the zoom-axis path of an item with that leaf's identifier, label, colour
/// and weight.
pub proof fn lemma_resources_sit_under_their_path(t: Seq<InfoView>, axis: Seq<char>, items: Seq<ItemView>)
    ensures
        placed_all(spec_build(t, axis, items), items, Seq::empty()),
{
    assert forall|j: int| 0 <= j < items.len() implies on_chain(#[trigger] items[j], items, Seq::<SegView>::empty()) by {
        assert(items[j].path.subrange(0, 0) =~= Seq::<SegView>::empty());
    }
    lemma_build_placed(t, axis, items, 0, max_path_len(items), items, Seq::empty());
}

// ---------------------------------------------------------------------------
// Clusters come before resources.

/// In every list of nodes at or under `n`, the clusters come first and the
/// resources after them.
pub open spec fn clusters_lead(n: NodeView) -> bool
    decreases n,
{
    match n {
        NodeView::Resource { .. } => true,
        NodeView::Cluster { subs, .. } => clusters_lead_all(subs),
    }
}

/// The clusters of `s` come before its resources, and `clusters_lead` holds
/// under each node.
pub open spec fn clusters_lead_all(s: Seq<NodeView>) -> bool
    decreases s,
{
    &&& forall|i: int, j: int| 0 <= i < j < s.len() && (#[trigger] s[j]) is Cluster ==> (#[trigger] s[i]) is Cluster
    &&& (s.len() == 0 || (clusters_lead_all(s.drop_last()) && clusters_lead(s.last())))
}

proof fn lemma_lead_concat(a: Seq<NodeView>, b: Seq<NodeView>)
    requires
        clusters_lead_all(a),
        clusters_lead_all(b),
        forall|i: int| 0 <= i < a.len() ==> (#[trigger] a[i]) is Cluster,
        forall|j: int| 0 <= j < b.len() ==> (#[trigger] b[j]) is Resource,
    ensures
        clusters_lead_all(a + b),
    decreases b.len(),
{
    let ab = a + b;
    if b.len() == 0 {
        assert(ab =~= a);
    } else {
        let bp = b.drop_last();
        assert forall|j: int| 0 <= j < bp.len() implies (#[trigger] bp[j]) is Resource by {
            assert(bp[j] == b[j]);
        }
        assert(clusters_lead_all(bp));
        lemma_lead_concat(a, bp);
        assert(ab.drop_last() =~= a + bp);
        assert(ab.last() == b.last());
        assert forall|i: int, j: int| 0 <= i < j < ab.len() && (#[trigger] ab[j]) is Cluster implies (#[trigger] ab[i])
            is Cluster by {
            if j >= a.len() {
                assert(ab[j] == b[j - a.len()]);
            } else {
                assert(ab[i] == a[i]);
            }
        }
    }
}

proof fn lemma_resource_nodes_lead(s: Seq<ItemView>)
    ensures
        clusters_lead_all(resource_nodes(s)),
        forall|j: int| 0 <= j < s.len() ==> (#[trigger] resource_nodes(s)[j]) is Resource,
    decreases s.len(),
{
    let m = resource_nodes(s);
    if s.len() > 0 {
        lemma_resource_nodes_lead(s.drop_last());
        assert(m.drop_last() =~= resource_nodes(s.drop_last()));
        assert(clusters_lead(m.last()));
    }
}

proof fn lemma_build_lead(t: Seq<InfoView>, axis: Seq<char>, items: Seq<ItemView>, level: nat, bound: nat)
    ensures
        clusters_lead_all(build_spec(t, axis, items, level, bound)),
    decreases bound - level, 2nat, 0nat,
{
    let leaves = leaves_at(items, level);
    let lnodes = resource_nodes(leaves);
    lemma_resource_nodes_lead(leaves);
    assert(lnodes == leaves.map_values(|x: ItemView| resource_node(x)));
    if level < bound {
        let gs = group_items(deeper_than(items, level), level);
        lemma_clusters_lead(t, axis, gs, level, bound);
        lemma_lead_concat(clusters_spec(t, axis, gs, level, bound), lnodes);
    }
}

proof fn lemma_clusters_lead(
    t: Seq<InfoView>,
    axis: Seq<char>,
    gs: Seq<(SegView, Seq<ItemView>)>,
    level: nat,
    bound: nat,
)
    ensures
        clusters_lead_all(clusters_spec(t, axis, gs, level, bound)),
        forall|i: int| 0 <= i < clusters_spec(t, axis, gs, level, bound).len() ==> (#[trigger] clusters_spec(
            t,
            axis,
            gs,
            level,
            bound,
        )[i]) is Cluster,
    decreases bound - level, 1nat, gs.len(),
{
    let c = clusters_spec(t, axis, gs, level, bound);
    if gs.len() == 0 || level >= bound {
        assert(c =~= Seq::empty());
    } else {
        let g = gs.last();
        let pc = clusters_spec(t, axis, gs.drop_last(), level, bound);
        lemma_clusters_lead(t, axis, gs.drop_last(), level, bound);
        lemma_build_lead(t, axis, g.1, level + 1, bound);
        assert(c.drop_last() =~= pc);
        assert(c.last() == NodeView::Cluster {
            key: g.0,
            label: spec_key_label(t, g.0),
            color: spec_key_color(t, g.0),
            axis,
            depth: level,
            total_freq: total_freq(g.1),
            leaf_count: g.1.len(),
            subs: build_spec(t, axis, g.1, level + 1, bound),
        });
        assert forall|i: int| 0 <= i < c.len() implies (#[trigger] c[i]) is Cluster by {
            if i < c.len() - 1 {
                assert(c[i] == pc[i]);
            }
        }
        assert(clusters_lead(c.last()));
    }
}

/// At every level of the tree the clusters come first and the resources
/// that end there follow them.
pub proof fn lemma_clusters_come_first(t: Seq<InfoView>, axis: Seq<char>, items: Seq<ItemView>)
    ensures
        clusters_lead_all(spec_build(t, axis, items)),
{
    lemma_build_lead(t, axis, items, 0, max_path_len(items));
}

} // verus!
