//! The map's cluster tree: resources grouped level by level under their
//! shared ancestors on the zoom axis. Positions and radii are computed by the
//! app around this tree; the tree itself (which clusters exist, what they
//! hold, their labels, colours and counts) is decided here.

use vstd::prelude::*;
use crate::color::{Color, spec_to_hex};
use crate::ids::Id;
use crate::text::{chars_of, string_of_range, push_char};
use crate::filters::{Filters, spec_set};
use vstd::string::*;

verus! {

/// One step of a resource's path on the zoom axis: a category, or `Other`
/// for a resource with no value on that axis.
#[derive(Debug, PartialEq, Eq)]
pub enum PathSeg {
    Category(Id),
    Other,
}

/// A path step as a value.
pub enum SegView {
    Category(Seq<char>),
    Other,
}

impl View for PathSeg {
    type V = SegView;

    open spec fn view(&self) -> SegView {
        match self {
            PathSeg::Category(id) => SegView::Category(id@),
            PathSeg::Other => SegView::Other,
        }
    }
}

impl PathSeg {
    /// A copy of the step.
    pub fn duplicate(&self) -> (r: PathSeg)
        ensures
            r@ == self@,
    {
        match self {
            PathSeg::Category(id) => PathSeg::Category(id.clone()),
            PathSeg::Other => PathSeg::Other,
        }
    }

    /// Whether two steps are equal.
    pub fn same(&self, other: &PathSeg) -> (r: bool)
        ensures
            r == (self@ == other@),
    {
        match (self, other) {
            (PathSeg::Category(a), PathSeg::Category(b)) => a.same(b),
            (PathSeg::Other, PathSeg::Other) => true,
            _ => false,
        }
    }
}

/// What the layout needs to know of a taxonomy node: its label and colour.
#[derive(Debug)]
pub struct CategoryInfo {
    pub id: Id,
    pub label: String,
    pub color: Option<Color>,
}

pub struct InfoView {
    pub id: Seq<char>,
    pub label: Seq<char>,
    pub color: Option<Color>,
}

pub open spec fn infos_view(s: Seq<CategoryInfo>) -> Seq<InfoView> {
    s.map_values(|c: CategoryInfo| InfoView { id: c.id@, label: c.label@, color: c.color })
}

/// A resource placed on the map: identifier, display label and colour,
/// weight (its frequency, at least 1) and path on the zoom axis.
#[derive(Debug)]
pub struct Item {
    pub id: Id,
    pub label: String,
    pub color: String,
    pub freq: u32,
    pub path: Vec<PathSeg>,
}

pub struct ItemView {
    pub id: Seq<char>,
    pub label: Seq<char>,
    pub color: Seq<char>,
    pub freq: nat,
    pub path: Seq<SegView>,
}

pub open spec fn segs_view(s: Seq<PathSeg>) -> Seq<SegView> {
    s.map_values(|p: PathSeg| p@)
}

pub open spec fn item_view(it: Item) -> ItemView {
    ItemView { id: it.id@, label: it.label@, color: it.color@, freq: it.freq as nat, path: segs_view(it.path@) }
}

pub open spec fn items_view(s: Seq<Item>) -> Seq<ItemView> {
    s.map_values(|it: Item| item_view(it))
}

/// A node of the cluster tree.
#[derive(Debug)]
pub enum MapNode {
    Cluster(Cluster),
    Resource(ResourceNode),
}

/// The resources sharing one path step at one depth.
#[derive(Debug)]
pub struct Cluster {
    pub key: PathSeg,
    pub label: String,
    pub color: String,
    pub axis: Id,
    pub depth: usize,
    pub total_freq: u128,
    pub leaf_count: usize,
    pub sub_nodes: Vec<MapNode>,
}

/// A resource as a leaf of the tree.
#[derive(Debug)]
pub struct ResourceNode {
    pub id: Id,
    pub label: String,
    pub color: String,
    pub freq: u32,
}

/// A node of the tree as a value.
pub enum NodeView {
    Cluster {
        key: SegView,
        label: Seq<char>,
        color: Seq<char>,
        axis: Seq<char>,
        depth: nat,
        total_freq: nat,
        leaf_count: nat,
        subs: Seq<NodeView>,
    },
    Resource { id: Seq<char>, label: Seq<char>, color: Seq<char>, freq: nat },
}

pub open spec fn node_view(n: MapNode) -> NodeView
    decreases n,
{
    match n {
        MapNode::Cluster(c) => NodeView::Cluster {
            key: c.key@,
            label: c.label@,
            color: c.color@,
            axis: c.axis@,
            depth: c.depth as nat,
            total_freq: c.total_freq as nat,
            leaf_count: c.leaf_count as nat,
            subs: nodes_view_rec(c.sub_nodes@),
        },
        MapNode::Resource(r) => NodeView::Resource { id: r.id@, label: r.label@, color: r.color@, freq: r.freq as nat },
    }
}

pub open spec fn nodes_view_rec(s: Seq<MapNode>) -> Seq<NodeView>
    decreases s,
{
    if s.len() == 0 {
        Seq::empty()
    } else {
        nodes_view_rec(s.drop_last()).push(node_view(s.last()))
    }
}

// ---------------------------------------------------------------------------
// Labels and colours.

/// The colour of anything without a category colour.
pub open spec fn default_color_hex() -> Seq<char> {
    "#6b8099"@
}

/// The first node with identifier `id`, if any.
pub open spec fn info_index(t: Seq<InfoView>, id: Seq<char>) -> Option<int>
    decreases t.len(),
{
    if t.len() == 0 {
        None
    } else if t[0].id == id {
        Some(0)
    } else {
        match info_index(t.drop_first(), id) {
            Some(i) => Some(i + 1),
            None => None,
        }
    }
}

/// The colour of a category: its own colour in hex, else the default.
pub open spec fn spec_category_color(t: Seq<InfoView>, id: Seq<char>) -> Seq<char> {
    match info_index(t, id) {
        Some(i) => match t[i].color {
            Some(c) => spec_to_hex(c),
            None => default_color_hex(),
        },
        None => default_color_hex(),
    }
}

/// The label of a cluster: empty for `Other`; the category's label, or its
/// identifier when the label is empty or the category unknown.
pub open spec fn spec_key_label(t: Seq<InfoView>, key: SegView) -> Seq<char> {
    match key {
        SegView::Other => Seq::empty(),
        SegView::Category(id) => match info_index(t, id) {
            Some(i) => if t[i].label.len() > 0 {
                t[i].label
            } else {
                id
            },
            None => id,
        },
    }
}

/// The colour of a cluster: the default for `Other`, else the category's.
pub open spec fn spec_key_color(t: Seq<InfoView>, key: SegView) -> Seq<char> {
    match key {
        SegView::Other => default_color_hex(),
        SegView::Category(id) => spec_category_color(t, id),
    }
}

// ---------------------------------------------------------------------------
// The tree.

/// The items grouped by their step at `level`, groups in order of first
/// appearance, items of a group in their order.
pub open spec fn group_items(items: Seq<ItemView>, level: nat) -> Seq<(SegView, Seq<ItemView>)>
    decreases items.len(),
{
    if items.len() == 0 {
        Seq::empty()
    } else {
        let gs = group_items(items.drop_last(), level);
        let it = items.last();
        let key = it.path[level as int];
        match seg_group_index(gs, key) {
            Some(i) => gs.update(i, (key, gs[i].1.push(it))),
            None => gs.push((key, seq![it])),
        }
    }
}

pub open spec fn seg_group_index(gs: Seq<(SegView, Seq<ItemView>)>, key: SegView) -> Option<int>
    decreases gs.len(),
{
    if gs.len() == 0 {
        None
    } else if gs[0].0 == key {
        Some(0)
    } else {
        match seg_group_index(gs.drop_first(), key) {
            Some(i) => Some(i + 1),
            None => None,
        }
    }
}

/// Whether an item's path ends at or before `level`.
pub open spec fn ends_by(level: nat) -> spec_fn(ItemView) -> bool {
    |it: ItemView| it.path.len() <= level
}

/// Whether an item's path goes deeper than `level`.
pub open spec fn goes_past(level: nat) -> spec_fn(ItemView) -> bool {
    |it: ItemView| it.path.len() > level
}

/// The items whose path ends at or before `level`.
pub open spec fn leaves_at(items: Seq<ItemView>, level: nat) -> Seq<ItemView> {
    items.filter(ends_by(level))
}

/// The items whose path goes deeper than `level`.
pub open spec fn deeper_than(items: Seq<ItemView>, level: nat) -> Seq<ItemView> {
    items.filter(goes_past(level))
}

/// The sum of the items' weights.
pub open spec fn total_freq(items: Seq<ItemView>) -> nat
    decreases items.len(),
{
    if items.len() == 0 {
        0
    } else {
        total_freq(items.drop_last()) + items.last().freq
    }
}

pub open spec fn resource_node(it: ItemView) -> NodeView {
    NodeView::Resource { id: it.id, label: it.label, color: it.color, freq: it.freq }
}

/// The nodes at `level`: one cluster per group of the items that go deeper
/// (in order of first appearance), then one resource node per item that ends
/// here (in order). `bound` is at least every path's length.
pub open spec fn build_spec(t: Seq<InfoView>, axis: Seq<char>, items: Seq<ItemView>, level: nat, bound: nat) -> Seq<NodeView>
    decreases bound - level, 2nat, 0nat,
{
    if level >= bound {
        leaves_at(items, level).map_values(|it: ItemView| resource_node(it))
    } else {
        clusters_spec(t, axis, group_items(deeper_than(items, level), level), level, bound)
            + leaves_at(items, level).map_values(|it: ItemView| resource_node(it))
    }
}

/// The clusters of the groups at `level`.
pub open spec fn clusters_spec(
    t: Seq<InfoView>,
    axis: Seq<char>,
    gs: Seq<(SegView, Seq<ItemView>)>,
    level: nat,
    bound: nat,
) -> Seq<NodeView>
    decreases bound - level, 1nat, gs.len(),
{
    if gs.len() == 0 || level >= bound {
        Seq::empty()
    } else {
        let g = gs.last();
        clusters_spec(t, axis, gs.drop_last(), level, bound).push(
            NodeView::Cluster {
                key: g.0,
                label: spec_key_label(t, g.0),
                color: spec_key_color(t, g.0),
                axis,
                depth: level,
                total_freq: total_freq(g.1),
                leaf_count: g.1.len(),
                subs: build_spec(t, axis, g.1, level + 1, bound),
            },
        )
    }
}

// ---------------------------------------------------------------------------
// Labels and colours, executable.

pub(crate) proof fn lemma_info_index_first(t: Seq<InfoView>, id: Seq<char>, i: int)
    requires
        0 <= i < t.len(),
        t[i].id == id,
        forall|j: int| 0 <= j < i ==> t[j].id != id,
    ensures
        info_index(t, id) == Some(i),
    decreases t.len(),
{
    if i > 0 {
        lemma_info_index_first(t.drop_first(), id, i - 1);
    }
}

pub(crate) proof fn lemma_info_index_none(t: Seq<InfoView>, id: Seq<char>)
    requires
        forall|j: int| 0 <= j < t.len() ==> t[j].id != id,
    ensures
        info_index(t, id) is None,
    decreases t.len(),
{
    if t.len() > 0 {
        lemma_info_index_none(t.drop_first(), id);
    }
}

/// Where the taxonomy holds `id`: the position of its first node.
pub fn find_info(infos: &Vec<CategoryInfo>, id: &Id) -> (r: Option<usize>)
    ensures
        r matches Some(i) ==> i < infos@.len() && info_index(infos_view(infos@), id@) == Some(i as int),
        r is None ==> info_index(infos_view(infos@), id@) is None,
{
    let ghost t = infos_view(infos@);
    let mut i: usize = 0;
    while i < infos.len()
        invariant
            i <= infos@.len(),
            t == infos_view(infos@),
            forall|j: int| 0 <= j < i ==> t[j].id != id@,
        decreases infos.len() - i,
    {
        if infos[i].id.same(id) {
            proof {
                lemma_info_index_first(t, id@, i as int);
            }
            return Some(i);
        }
        i = i + 1;
    }
    proof {
        lemma_info_index_none(t, id@);
    }
    None
}

/// The default colour as text.
pub fn default_color() -> (r: String)
    ensures
        r@ == default_color_hex(),
{
    String::from_str("#6b8099")
}

/// The colour of category `id`: its own colour in hex, else the default.
pub fn category_color(infos: &Vec<CategoryInfo>, id: &Id) -> (r: String)
    ensures
        r@ == spec_category_color(infos_view(infos@), id@),
{
    match find_info(infos, id) {
        Some(i) => match infos[i].color {
            Some(c) => c.to_hex(),
            None => default_color(),
        },
        None => default_color(),
    }
}

/// The label of a cluster keyed by `key`.
pub fn key_label(infos: &Vec<CategoryInfo>, key: &PathSeg) -> (r: String)
    ensures
        r@ == spec_key_label(infos_view(infos@), key@),
{
    match key {
        PathSeg::Other => String::new(),
        PathSeg::Category(id) => match find_info(infos, id) {
            Some(i) => {
                if infos[i].label.as_str().unicode_len() > 0 {
                    infos[i].label.clone()
                } else {
                    id.to_string()
                }
            },
            None => id.to_string(),
        },
    }
}

/// The colour of a cluster keyed by `key`.
pub fn key_color(infos: &Vec<CategoryInfo>, key: &PathSeg) -> (r: String)
    ensures
        r@ == spec_key_color(infos_view(infos@), key@),
{
    match key {
        PathSeg::Other => default_color(),
        PathSeg::Category(id) => category_color(infos, id),
    }
}

// ---------------------------------------------------------------------------
// Paths on the zoom axis and items.

/// The texts of a list of identifiers.
pub open spec fn ids_view(s: Seq<Id>) -> Seq<Seq<char>> {
    s.map_values(|id: Id| id@)
}

/// An ancestry chain as values: the resource's category on the zoom axis,
/// then its ancestors up to the axis root; `None` when the resource has no
/// category on that axis.
pub open spec fn chain_view(chain: Option<Vec<Id>>) -> Option<Seq<Seq<char>>> {
    match chain {
        Some(c) => Some(ids_view(c@)),
        None => None,
    }
}

/// The path of a resource on the zoom axis: its ancestry without the axis
/// root, from the top down; `[Other]` when it has no category there.
pub open spec fn spec_zoom_path(chain: Option<Seq<Seq<char>>>) -> Seq<SegView> {
    match chain {
        None => seq![SegView::Other],
        Some(c) => if c.len() == 0 {
            Seq::empty()
        } else {
            Seq::new((c.len() - 1) as nat, |i: int| SegView::Category(c[c.len() - 2 - i]))
        },
    }
}

/// The colour of a resource: that of its category on the zoom axis, else the
/// default.
pub open spec fn spec_resource_color(t: Seq<InfoView>, chain: Option<Seq<Seq<char>>>) -> Seq<char> {
    match chain {
        Some(c) => if c.len() > 0 {
            spec_category_color(t, c[0])
        } else {
            default_color_hex()
        },
        None => default_color_hex(),
    }
}

/// The path of a resource on the zoom axis, given its ancestry chain there
/// (its category first, the axis root last).
pub fn zoom_path(chain: &Option<Vec<Id>>) -> (r: Vec<PathSeg>)
    ensures
        segs_view(r@) == spec_zoom_path(chain_view(*chain)),
{
    match chain {
        None => {
            let r = vec![PathSeg::Other];
            assert(segs_view(r@) =~= spec_zoom_path(chain_view(*chain)));
            r
        },
        Some(c) => {
            let ghost cv = ids_view(c@);
            let mut r: Vec<PathSeg> = Vec::new();
            if c.len() == 0 {
                assert(segs_view(r@) =~= spec_zoom_path(chain_view(*chain)));
                return r;
            }
            let n = c.len() - 1;
            let mut k: usize = 0;
            while k < n
                invariant
                    n + 1 == c@.len(),
                    k <= n,
                    cv == ids_view(c@),
                    segs_view(r@) =~= Seq::new(k as nat, |i: int| SegView::Category(cv[cv.len() - 2 - i])),
                decreases n - k,
            {
                let ghost before = r@;
                let id = c[n - 1 - k].clone();
                r.push(PathSeg::Category(id));
                assert(segs_view(r@) =~= segs_view(before).push(SegView::Category(cv[cv.len() - 2 - k])));
                k = k + 1;
            }
            r
        },
    }
}

/// The colour of a resource, given its ancestry chain on the zoom axis.
pub fn resource_color(infos: &Vec<CategoryInfo>, chain: &Option<Vec<Id>>) -> (r: String)
    ensures
        r@ == spec_resource_color(infos_view(infos@), chain_view(*chain)),
{
    match chain {
        Some(c) => if c.len() > 0 {
            category_color(infos, &c[0])
        } else {
            default_color()
        },
        None => default_color(),
    }
}

impl Item {
    /// The map item of a resource: `label` is the resource's resolved label,
    /// if it has one (else the identifier stands for it); `chain` is its
    /// ancestry on the zoom axis; `freq` its frequency, counted as at least 1.
    pub fn new(infos: &Vec<CategoryInfo>, id: Id, label: Option<String>, chain: &Option<Vec<Id>>, freq: u32) -> (r: Item)
        ensures
            r.id@ == id@,
            r.label@ == (match label { Some(l) => l@, None => id@ }),
            r.color@ == spec_resource_color(infos_view(infos@), chain_view(*chain)),
            r.freq == (if freq == 0 { 1 } else { freq }),
            segs_view(r.path@) == spec_zoom_path(chain_view(*chain)),
    {
        let label = match label {
            Some(l) => l,
            None => id.to_string(),
        };
        let color = resource_color(infos, chain);
        let path = zoom_path(chain);
        Item { id, label, color, freq: if freq == 0 { 1 } else { freq }, path }
    }
}

// ---------------------------------------------------------------------------
// Building the tree.

/// The items split into those that end at `level` and those that go deeper,
/// each part in the items' order.
fn split_at_level(items: Vec<Item>, level: usize) -> (r: (Vec<Item>, Vec<Item>))
    ensures
        items_view(r.0@) == leaves_at(items_view(items@), level as nat),
        items_view(r.1@) == deeper_than(items_view(items@), level as nat),
{
    let ghost iv = items_view(items@);
    let mut leaves: Vec<Item> = Vec::new();
    let mut deeper: Vec<Item> = Vec::new();
    for it in iter: items
        invariant
            iv == items_view(iter.seq()),
            items_view(leaves@) == leaves_at(iv.take(iter.index() as int), level as nat),
            items_view(deeper@) == deeper_than(iv.take(iter.index() as int), level as nat),
    {
        let ghost k = iter.index() as int;
        assert(it == iter.seq()[k]);
        assert(iv[k] == item_view(it));
        assert(iv.take(k + 1) =~= iv.take(k).push(iv[k]));
        proof {
            iv.take(k).lemma_filter_push(iv[k], ends_by(level as nat));
            iv.take(k).lemma_filter_push(iv[k], goes_past(level as nat));
        }
        let ghost lb = leaves@;
        let ghost db = deeper@;
        if it.path.len() <= level {
            leaves.push(it);
            assert(items_view(leaves@) =~= items_view(lb).push(iv[k]));
        } else {
            deeper.push(it);
            assert(items_view(deeper@) =~= items_view(db).push(iv[k]));
        }
    }
    assert(iv.take(iv.len() as int) =~= iv);
    (leaves, deeper)
}

/// Groups as values: each key with the items of its group.
pub open spec fn groups_view(keys: Seq<PathSeg>, members: Seq<Vec<Item>>) -> Seq<(SegView, Seq<ItemView>)> {
    Seq::new(keys.len(), |i: int| (keys[i]@, items_view(members[i]@)))
}

proof fn lemma_seg_group_index_first(gs: Seq<(SegView, Seq<ItemView>)>, key: SegView, i: int)
    requires
        0 <= i < gs.len(),
        gs[i].0 == key,
        forall|j: int| 0 <= j < i ==> gs[j].0 != key,
    ensures
        seg_group_index(gs, key) == Some(i),
    decreases gs.len(),
{
    if i > 0 {
        lemma_seg_group_index_first(gs.drop_first(), key, i - 1);
    }
}

proof fn lemma_seg_group_index_none(gs: Seq<(SegView, Seq<ItemView>)>, key: SegView)
    requires
        forall|j: int| 0 <= j < gs.len() ==> gs[j].0 != key,
    ensures
        seg_group_index(gs, key) is None,
    decreases gs.len(),
{
    if gs.len() > 0 {
        lemma_seg_group_index_none(gs.drop_first(), key);
    }
}

/// The items grouped by their step at `level`.
fn group_by_step(items: Vec<Item>, level: usize) -> (r: (Vec<PathSeg>, Vec<Vec<Item>>))
    requires
        forall|i: int| 0 <= i < items@.len() ==> items@[i].path@.len() > level,
    ensures
        r.0@.len() == r.1@.len(),
        groups_view(r.0@, r.1@) == group_items(items_view(items@), level as nat),
{
    let ghost iv = items_view(items@);
    let ghost all = items@;
    let mut keys: Vec<PathSeg> = Vec::new();
    let mut members: Vec<Vec<Item>> = Vec::new();
    for it in iter: items
        invariant
            all == iter.seq(),
            iv == items_view(all),
            forall|i: int| 0 <= i < all.len() ==> all[i].path@.len() > level,
            keys@.len() == members@.len(),
            groups_view(keys@, members@) == group_items(iv.take(iter.index() as int), level as nat),
    {
        let ghost k = iter.index() as int;
        assert(it == all[k]);
        assert(iv[k] == item_view(it));
        assert(iv.take(k + 1).drop_last() =~= iv.take(k));
        let ghost gs = groups_view(keys@, members@);
        let key = &it.path[level];
        assert(key@ == iv[k].path[level as int]);
        let mut j: usize = 0;
        while j < keys.len() && !keys[j].same(key)
            invariant
                j <= keys@.len(),
                gs == groups_view(keys@, members@),
                forall|x: int| 0 <= x < j ==> gs[x].0 != key@,
            decreases keys.len() - j,
        {
            j = j + 1;
        }
        if j < keys.len() {
            proof {
                lemma_seg_group_index_first(gs, key@, j as int);
            }
            let ghost mb = members@;
            members[j].push(it);
            assert(groups_view(keys@, members@) =~= gs.update(j as int, (key@, gs[j as int].1.push(iv[k])))) by {
                assert(items_view(members@[j as int]@) =~= items_view(mb[j as int]@).push(iv[k]));
            }
        } else {
            proof {
                lemma_seg_group_index_none(gs, key@);
            }
            let step = key.duplicate();
            keys.push(step);
            members.push(vec![it]);
            assert(items_view(members@.last()@) =~= seq![iv[k]]);
            assert(groups_view(keys@, members@) =~= gs.push((iv[k].path[level as int], seq![iv[k]])));
        }
    }
    assert(iv.take(iv.len() as int) =~= iv);
    (keys, members)
}

/// The sum of the items' weights.
fn sum_freq(items: &Vec<Item>) -> (r: u128)
    ensures
        r == total_freq(items_view(items@)),
{
    let ghost iv = items_view(items@);
    let mut sum: u128 = 0;
    let mut i: usize = 0;
    while i < items.len()
        invariant
            i <= items@.len(),
            iv == items_view(items@),
            sum == total_freq(iv.take(i as int)),
            sum <= i * 0xffff_ffffu128,
        decreases items.len() - i,
    {
        assert(iv.take(i + 1).drop_last() =~= iv.take(i as int));
        assert(iv[i as int].freq == items@[i as int].freq);
        sum = sum + items[i].freq as u128;
        i = i + 1;
    }
    assert(iv.take(iv.len() as int) =~= iv);
    sum
}

pub(crate) proof fn lemma_seg_group_index_none_rev(gs: Seq<(SegView, Seq<ItemView>)>, key: SegView)
    ensures
        seg_group_index(gs, key) is None ==> forall|j: int| 0 <= j < gs.len() ==> gs[j].0 != key,
    decreases gs.len(),
{
    if gs.len() > 0 {
        lemma_seg_group_index_none_rev(gs.drop_first(), key);
        assert forall|j: int| 0 < j < gs.len() implies gs[j] == gs.drop_first()[j - 1] by {}
    }
}

pub(crate) proof fn lemma_seg_group_index_some(gs: Seq<(SegView, Seq<ItemView>)>, key: SegView)
    ensures
        seg_group_index(gs, key) matches Some(i) ==> 0 <= i < gs.len() && gs[i].0 == key,
    decreases gs.len(),
{
    if gs.len() > 0 {
        lemma_seg_group_index_some(gs.drop_first(), key);
    }
}

pub(crate) proof fn lemma_group_items_bounded(s: Seq<ItemView>, level: nat, bound: nat)
    requires
        forall|i: int| 0 <= i < s.len() ==> s[i].path.len() <= bound,
    ensures
        forall|g: int, j: int|
            0 <= g < group_items(s, level).len() && 0 <= j < group_items(s, level)[g].1.len()
                ==> group_items(s, level)[g].1[j].path.len() <= bound,
    decreases s.len(),
{
    if s.len() > 0 {
        let pre = s.drop_last();
        lemma_group_items_bounded(pre, level, bound);
        let gs = group_items(pre, level);
        let it = s.last();
        let key = it.path[level as int];
        lemma_seg_group_index_some(gs, key);
        let r = group_items(s, level);
        assert forall|g: int, j: int| 0 <= g < r.len() && 0 <= j < r[g].1.len() implies r[g].1[j].path.len() <= bound by {
            match seg_group_index(gs, key) {
                Some(i) => {
                    if g == i {
                        if j < gs[i].1.len() {
                            assert(r[g].1[j] == gs[i].1[j]);
                        } else {
                            assert(r[g].1[j] == it);
                        }
                    } else {
                        assert(r[g] == gs[g]);
                    }
                },
                None => {
                    if g < gs.len() {
                        assert(r[g] == gs[g]);
                    } else {
                        assert(r[g].1[j] == it);
                    }
                },
            }
        }
    }
}

proof fn lemma_filter_bounded(s: Seq<ItemView>, p: spec_fn(ItemView) -> bool, bound: nat)
    requires
        forall|i: int| 0 <= i < s.len() ==> s[i].path.len() <= bound,
    ensures
        forall|i: int| 0 <= i < s.filter(p).len() ==> s.filter(p)[i].path.len() <= bound,
{
    assert forall|i: int| 0 <= i < s.filter(p).len() implies s.filter(p)[i].path.len() <= bound by {
        s.lemma_filter_contains_rev(p, s.filter(p)[i]);
    }
}

/// The nodes at `level` for the given items (see `build_spec`).
fn build_level(infos: &Vec<CategoryInfo>, axis: &Id, items: Vec<Item>, level: usize, bound: usize) -> (r: Vec<MapNode>)
    requires
        level <= bound,
        forall|i: int| 0 <= i < items@.len() ==> items@[i].path@.len() <= bound,
    ensures
        nodes_view_rec(r@) == build_spec(infos_view(infos@), axis@, items_view(items@), level as nat, bound as nat),
    decreases bound - level,
{
    let ghost t = infos_view(infos@);
    let ghost iv = items_view(items@);
    assert forall|i: int| 0 <= i < iv.len() implies iv[i].path.len() <= bound by {
        assert(iv[i].path.len() == items@[i].path@.len());
    }
    let (leaves, deeper) = split_at_level(items, level);
    let ghost lv = items_view(leaves@);
    let ghost dv = items_view(deeper@);
    let mut nodes: Vec<MapNode> = Vec::new();
    let ghost front = Seq::<NodeView>::empty();
    if level < bound {
        proof {
            assert forall|i: int| 0 <= i < deeper@.len() implies deeper@[i].path@.len() > level by {
                iv.lemma_filter_pred(goes_past(level as nat), i);
                assert(dv[i].path.len() == deeper@[i].path@.len());
            }
            lemma_filter_bounded(iv, goes_past(level as nat), bound as nat);
        }
        let (keys, members) = group_by_step(deeper, level);
        let ghost gs = groups_view(keys@, members@);
        proof {
            lemma_group_items_bounded(dv, level as nat, bound as nat);
        }
        let ghost all = members@;
        let n_groups = members.len();
        let mut gi: usize = 0;
        for m in iter: members
            invariant
                all == iter.seq(),
                all.len() == n_groups,
                gi == iter.index(),
                keys@.len() == all.len(),
                gs == groups_view(keys@, all),
                gs == group_items(dv, level as nat),
                level < bound,
                t == infos_view(infos@),
                forall|g: int, j: int|
                    0 <= g < gs.len() && 0 <= j < gs[g].1.len() ==> gs[g].1[j].path.len() <= bound,
                nodes_view_rec(nodes@) == clusters_spec(t, axis@, gs.take(iter.index() as int), level as nat, bound as nat),
        {
            let ghost g = iter.index() as int;
            assert(g < all.len());
            assert(m == all[g]);
            assert(gs.take(g + 1).drop_last() =~= gs.take(g));
            assert(gs.take(g + 1).last() == gs[g]);
            assert(gs[g].1 == items_view(m@));
            let key = keys[gi].duplicate();
            let label = key_label(infos, &key);
            let color = key_color(infos, &key);
            let total = sum_freq(&m);
            let count = m.len();
            assert forall|j: int| 0 <= j < m@.len() implies m@[j].path@.len() <= bound by {
                assert(gs[g].1[j] == item_view(m@[j]));
            }
            let subs = build_level(infos, axis, m, level + 1, bound);
            let node = MapNode::Cluster(Cluster {
                key,
                label,
                color,
                axis: axis.clone(),
                depth: level,
                total_freq: total,
                leaf_count: count,
                sub_nodes: subs,
            });
            let ghost before = nodes@;
            nodes.push(node);
            assert(nodes@.drop_last() =~= before);
            assert(nodes_view_rec(nodes@) == nodes_view_rec(before).push(node_view(nodes@.last())));
            assert(node_view(nodes@.last()) == NodeView::Cluster {
                key: gs[g].0,
                label: spec_key_label(t, gs[g].0),
                color: spec_key_color(t, gs[g].0),
                axis: axis@,
                depth: level as nat,
                total_freq: total_freq(gs[g].1),
                leaf_count: gs[g].1.len(),
                subs: build_spec(t, axis@, gs[g].1, level as nat + 1, bound as nat),
            });
            gi = gi + 1;
        }
        assert(gs.take(gs.len() as int) =~= gs);
        proof {
            front = nodes_view_rec(nodes@);
        }
    }
    let ghost nv = nodes@;
    for it in iter: leaves
        invariant
            lv == items_view(iter.seq()),
            nodes_view_rec(nodes@) == front + lv.take(iter.index() as int).map_values(|x: ItemView| resource_node(x)),
    {
        let ghost k = iter.index() as int;
        assert(it == iter.seq()[k]);
        let ghost before = nodes@;
        assert(lv[k] == item_view(it));
        nodes.push(MapNode::Resource(ResourceNode { id: it.id, label: it.label, color: it.color, freq: it.freq }));
        assert(nodes@.drop_last() =~= before);
        assert(nodes_view_rec(nodes@) == nodes_view_rec(before).push(node_view(nodes@.last())));
        assert(node_view(nodes@.last()) == resource_node(lv[k]));
        assert(lv.take(k + 1).map_values(|x: ItemView| resource_node(x)) =~= lv.take(k).map_values(|x: ItemView| resource_node(x)).push(resource_node(lv[k])));
        assert(front + lv.take(k + 1).map_values(|x: ItemView| resource_node(x)) =~= (front + lv.take(k).map_values(|x: ItemView| resource_node(x))).push(resource_node(lv[k])));
    }
    assert(lv.take(lv.len() as int) =~= lv);
    proof {
        if level >= bound {
            assert(front + lv.map_values(|x: ItemView| resource_node(x)) =~= lv.map_values(|x: ItemView| resource_node(x)));
        }
    }
    nodes
}

/// The length of the longest path among the items (0 for none).
pub open spec fn max_path_len(items: Seq<ItemView>) -> nat
    decreases items.len(),
{
    if items.len() == 0 {
        0
    } else {
        let m = max_path_len(items.drop_last());
        if items.last().path.len() > m {
            items.last().path.len()
        } else {
            m
        }
    }
}

/// The cluster tree of the items: the nodes at the top level, built down to
/// the deepest path.
pub open spec fn spec_build(t: Seq<InfoView>, axis: Seq<char>, items: Seq<ItemView>) -> Seq<NodeView> {
    build_spec(t, axis, items, 0, max_path_len(items))
}

/// The longest path among the items, and every path at most that long.
fn longest_path(items: &Vec<Item>) -> (r: usize)
    ensures
        r == max_path_len(items_view(items@)),
        forall|i: int| 0 <= i < items@.len() ==> items@[i].path@.len() <= r,
{
    let ghost iv = items_view(items@);
    let mut m: usize = 0;
    let mut i: usize = 0;
    while i < items.len()
        invariant
            i <= items@.len(),
            iv == items_view(items@),
            m == max_path_len(iv.take(i as int)),
            forall|j: int| 0 <= j < i ==> items@[j].path@.len() <= m,
        decreases items.len() - i,
    {
        assert(iv.take(i + 1).drop_last() =~= iv.take(i as int));
        assert(iv[i as int].path.len() == items@[i as int].path@.len());
        let n = items[i].path.len();
        if n > m {
            m = n;
        }
        i = i + 1;
    }
    assert(iv.take(iv.len() as int) =~= iv);
    m
}

/// The map's cluster tree for `items`, grouped on the zoom axis `axis`;
/// labels and colours come from the taxonomy's `infos`.
pub fn build_tree(infos: &Vec<CategoryInfo>, axis: &Id, items: Vec<Item>) -> (r: Vec<MapNode>)
    ensures
        nodes_view_rec(r@) == spec_build(infos_view(infos@), axis@, items_view(items@)),
{
    let bound = longest_path(&items);
    build_level(infos, axis, items, 0, bound)
}

/// The depth of the deepest path, at least 1.
pub fn max_depth(items: &Vec<Item>) -> (r: usize)
    ensures
        r == (if max_path_len(items_view(items@)) == 0 { 1 } else { max_path_len(items_view(items@)) }),
{
    let m = longest_path(items);
    if m == 0 {
        1
    } else {
        m
    }
}

// ---------------------------------------------------------------------------
// Reading the tree.

/// The identifiers of the resources under a node, in tree order.
pub open spec fn resource_ids(n: NodeView) -> Seq<Seq<char>>
    decreases n,
{
    match n {
        NodeView::Resource { id, .. } => seq![id],
        NodeView::Cluster { subs, .. } => resource_ids_all(subs),
    }
}

/// The identifiers of the resources under a list of nodes, in tree order.
pub open spec fn resource_ids_all(s: Seq<NodeView>) -> Seq<Seq<char>>
    decreases s,
{
    if s.len() == 0 {
        Seq::empty()
    } else {
        resource_ids_all(s.drop_last()) + resource_ids(s.last())
    }
}

/// The largest number of resources directly under one cluster, among a
/// node and those beneath it (the subtrees are searched while their first
/// node is a cluster).
pub open spec fn max_resource_children(n: NodeView) -> nat
    decreases n,
{
    match n {
        NodeView::Resource { .. } => 0,
        NodeView::Cluster { subs, .. } => if subs.len() == 0 {
            0
        } else if subs[0] is Resource {
            subs.len()
        } else {
            max_resource_children_all(subs)
        },
    }
}

/// The largest `max_resource_children` over a list of nodes (0 for none).
pub open spec fn max_resource_children_all(s: Seq<NodeView>) -> nat
    decreases s,
{
    if s.len() == 0 {
        0
    } else {
        let m = max_resource_children_all(s.drop_last());
        let x = max_resource_children(s.last());
        if x > m {
            x
        } else {
            m
        }
    }
}

proof fn lemma_nodes_view_len(s: Seq<MapNode>)
    ensures
        nodes_view_rec(s).len() == s.len(),
    decreases s.len(),
{
    if s.len() > 0 {
        lemma_nodes_view_len(s.drop_last());
    }
}

proof fn lemma_nodes_view_index(s: Seq<MapNode>, i: int)
    requires
        0 <= i < s.len(),
    ensures
        nodes_view_rec(s)[i] == node_view(s[i]),
    decreases s.len(),
{
    lemma_nodes_view_len(s.drop_last());
    if i < s.len() - 1 {
        lemma_nodes_view_index(s.drop_last(), i);
    }
}

proof fn lemma_nodes_view_take(s: Seq<MapNode>, i: int)
    requires
        0 <= i < s.len(),
    ensures
        nodes_view_rec(s.take(i + 1)) == nodes_view_rec(s.take(i)).push(node_view(s[i])),
{
    assert(s.take(i + 1).drop_last() =~= s.take(i));
}

impl Cluster {
    /// Where drilling into the cluster leads: its axis and its category;
    /// `None` for the `Other` cluster.
    pub fn drill_target(&self) -> (r: Option<(Id, Id)>)
        ensures
            match self.key@ {
                SegView::Category(v) => r matches Some(p) && p.0@ == self.axis@ && p.1@ == v,
                SegView::Other => r is None,
            },
    {
        match &self.key {
            PathSeg::Category(value) => Some((self.axis.clone(), value.clone())),
            PathSeg::Other => None,
        }
    }

    /// Whether the cluster can be drilled into.
    pub fn is_drillable(&self) -> (r: bool)
        ensures
            r == (self.key@ is Category),
    {
        self.drill_target().is_some()
    }
}

impl MapNode {
    /// The weight of a node: a cluster's total frequency, 1 for a resource.
    pub fn total_freq(&self) -> (r: u128)
        ensures
            r == (match node_view(*self) {
                NodeView::Cluster { total_freq, .. } => total_freq,
                NodeView::Resource { .. } => 1,
            }),
    {
        match self {
            MapNode::Cluster(c) => c.total_freq,
            MapNode::Resource(_) => 1,
        }
    }

    /// Whether the node is a resource.
    pub fn is_resource(&self) -> (r: bool)
        ensures
            r == (node_view(*self) is Resource),
    {
        match self {
            MapNode::Resource(_) => true,
            MapNode::Cluster(_) => false,
        }
    }

    /// Appends the identifiers of the resources under the node to `out`.
    pub fn collect_resource_ids(&self, out: &mut Vec<Id>)
        ensures
            ids_view(final(out)@) == ids_view(old(out)@) + resource_ids(node_view(*self)),
        decreases self,
    {
        match self {
            MapNode::Resource(n) => {
                let ghost before = out@;
                out.push(n.id.clone());
                assert(ids_view(out@) =~= ids_view(before) + seq![n.id@]);
            },
            MapNode::Cluster(c) => {
                let ghost start = ids_view(out@);
                let ghost subs = c.sub_nodes@;
                let mut i: usize = 0;
                while i < c.sub_nodes.len()
                    invariant
                        i <= subs.len(),
                        subs == c.sub_nodes@,
                        *self == MapNode::Cluster(*c),
                        ids_view(out@) == start + resource_ids_all(nodes_view_rec(subs.take(i as int))),
                    decreases c.sub_nodes.len() - i,
                {
                    proof {
                        lemma_nodes_view_take(subs, i as int);
                    }
                    let ghost mid = ids_view(out@);
                    let ghost pre = nodes_view_rec(subs.take(i as int));
                    assert(pre.push(node_view(subs[i as int])).drop_last() =~= pre);
                    assert(decreases_to!(*self => (*self)->Cluster_0));
                    assert(decreases_to!(*c => c.sub_nodes));
                    assert(decreases_to!(c.sub_nodes => c.sub_nodes@));
                    assert(decreases_to!(c.sub_nodes@ => c.sub_nodes@[i as int]));
                    c.sub_nodes[i].collect_resource_ids(out);
                    assert(start + resource_ids_all(nodes_view_rec(subs.take(i + 1))) =~= mid + resource_ids(node_view(subs[i as int])));
                    i = i + 1;
                }
                assert(subs.take(subs.len() as int) =~= subs);
            },
        }
    }

    /// The largest number of resources directly under one cluster in this
    /// subtree (see `max_resource_children`).
    pub fn max_resource_child_count(&self) -> (r: usize)
        ensures
            r == max_resource_children(node_view(*self)),
        decreases self,
    {
        match self {
            MapNode::Resource(_) => 0,
            MapNode::Cluster(c) => {
                let ghost subs = c.sub_nodes@;
                proof {
                    lemma_nodes_view_len(subs);
                }
                if c.sub_nodes.len() == 0 {
                    return 0;
                }
                proof {
                    lemma_nodes_view_index(subs, 0);
                }
                if c.sub_nodes[0].is_resource() {
                    return c.sub_nodes.len();
                }
                let mut m: usize = 0;
                let mut i: usize = 0;
                while i < c.sub_nodes.len()
                    invariant
                        i <= subs.len(),
                        subs == c.sub_nodes@,
                        *self == MapNode::Cluster(*c),
                        m == max_resource_children_all(nodes_view_rec(subs.take(i as int))),
                    decreases c.sub_nodes.len() - i,
                {
                    proof {
                        lemma_nodes_view_take(subs, i as int);
                    }
                    let ghost pre = nodes_view_rec(subs.take(i as int));
                    assert(pre.push(node_view(subs[i as int])).drop_last() =~= pre);
                    assert(decreases_to!(*self => (*self)->Cluster_0));
                    assert(decreases_to!(*c => c.sub_nodes));
                    assert(decreases_to!(c.sub_nodes => c.sub_nodes@));
                    assert(decreases_to!(c.sub_nodes@ => c.sub_nodes@[i as int]));
                    let x = c.sub_nodes[i].max_resource_child_count();
                    if x > m {
                        m = x;
                    }
                    i = i + 1;
                }
                assert(subs.take(subs.len() as int) =~= subs);
                m
            },
        }
    }
}

/// The longest resource label shown on the map, in chars.
pub const MAX_LABEL_CHARS: usize = 12;

/// A resource label as the map shows it: as it is up to `MAX_LABEL_CHARS`
/// chars; longer, its first `MAX_LABEL_CHARS - 1` chars and an ellipsis.
pub open spec fn spec_truncate_label(full: Seq<char>) -> Seq<char> {
    if full.len() > MAX_LABEL_CHARS {
        full.subrange(0, (MAX_LABEL_CHARS - 1) as int).push('\u{2026}')
    } else {
        full
    }
}

/// The label the map shows for a resource (see `spec_truncate_label`).
pub fn truncate_label(full: &str) -> (r: String)
    ensures
        r@ == spec_truncate_label(full@),
{
    let cs = chars_of(full);
    if cs.len() > MAX_LABEL_CHARS {
        let mut head = string_of_range(&cs, 0, MAX_LABEL_CHARS - 1);
        push_char(&mut head, '\u{2026}');
        head
    } else {
        String::from_str(full)
    }
}

impl Cluster {
    /// Clicking the cluster narrows the filters to it: its category is
    /// chosen on its axis. The `Other` cluster leaves the filters as they are.
    pub fn drill_into(&self, filters: &mut Filters)
        ensures
            match self.key@ {
                SegView::Category(v) => final(filters)@ == spec_set(old(filters)@, self.axis@, v),
                SegView::Other => final(filters)@ == old(filters)@,
            },
    {
        match self.drill_target() {
            Some((axis, value)) => filters.set(axis, value),
            None => {},
        }
    }
}

} // verus!
