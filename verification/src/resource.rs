//! Resources: their attribute, and the logic of the resource form (the
//! category checklist's rows, the label and frequency fields).

use vstd::prelude::*;
use crate::ids::Id;
use crate::text::{blank, is_blank};

verus! {

/// What the app stores on each resource.
#[derive(Debug, Clone)]
pub struct ResourceAttribute {
    /// Where the resource is managed.
    pub console_url: String,
    /// When it was created, as ISO 8601 text, if known.
    pub created_at: Option<String>,
    /// How often it is used; the map weighs it by this.
    pub freq: u32,
}

impl Default for ResourceAttribute {
    fn default() -> (r: Self)
        ensures
            r.console_url@.len() == 0,
            r.created_at is None,
            r.freq == 0,
    {
        ResourceAttribute { console_url: String::new(), created_at: None, freq: 0 }
    }
}

/// The messages the app raises as toasts.
#[derive(Debug, Clone, Copy, PartialEq, Eq, Structural)]
pub enum Toast {
    SaveFailedInvalid,
    SaveFailedStorage,
    CategoryIdTaken,
    RenameFailed,
}

// ---------------------------------------------------------------------------
// The category checklist.

/// A node of an axis in depth-first order, as the checklist reads it.
#[derive(Debug)]
pub struct FlatNode {
    pub id: Id,
    pub label: String,
    pub color: String,
    pub depth: usize,
    pub has_children: bool,
    /// The node's parent (the axis root for a top-level value).
    pub parent: Id,
}

/// A row of the checklist: a node with children on a row of its own, or a
/// run of sibling leaves sharing one row.
#[derive(Debug)]
pub enum DimTreeItem {
    Branch { id: Id, label: String, color: String, depth: usize },
    Leaves { depth: usize, nodes: Vec<(Id, String, String)> },
}

pub struct FlatView {
    pub id: Seq<char>,
    pub label: Seq<char>,
    pub color: Seq<char>,
    pub depth: nat,
    pub has_children: bool,
    pub parent: Seq<char>,
}

pub enum RowView {
    Branch { id: Seq<char>, label: Seq<char>, color: Seq<char>, depth: nat },
    Leaves { depth: nat, nodes: Seq<(Seq<char>, Seq<char>, Seq<char>)> },
}

pub open spec fn flat_view(n: FlatNode) -> FlatView {
    FlatView {
        id: n.id@,
        label: n.label@,
        color: n.color@,
        depth: n.depth as nat,
        has_children: n.has_children,
        parent: n.parent@,
    }
}

pub open spec fn flats_view(s: Seq<FlatNode>) -> Seq<FlatView> {
    s.map_values(|n: FlatNode| flat_view(n))
}

pub open spec fn leaf_view(n: FlatView) -> (Seq<char>, Seq<char>, Seq<char>) {
    (n.id, n.label, n.color)
}

pub open spec fn row_view(r: DimTreeItem) -> RowView {
    match r {
        DimTreeItem::Branch { id, label, color, depth } => RowView::Branch {
            id: id@,
            label: label@,
            color: color@,
            depth: depth as nat,
        },
        DimTreeItem::Leaves { depth, nodes } => RowView::Leaves {
            depth: depth as nat,
            nodes: nodes@.map_values(|t: (Id, String, String)| (t.0@, t.1@, t.2@)),
        },
    }
}

pub open spec fn rows_view(s: Seq<DimTreeItem>) -> Seq<RowView> {
    s.map_values(|r: DimTreeItem| row_view(r))
}

/// How many nodes at the front of `s` are leaves with parent `p`.
pub open spec fn leaf_run(s: Seq<FlatView>, p: Seq<char>) -> nat
    decreases s.len(),
{
    if s.len() > 0 && !s[0].has_children && s[0].parent == p {
        1 + leaf_run(s.drop_first(), p)
    } else {
        0
    }
}

pub proof fn lemma_leaf_run_bound(s: Seq<FlatView>, p: Seq<char>)
    ensures
        leaf_run(s, p) <= s.len(),
    decreases s.len(),
{
    if s.len() > 0 {
        lemma_leaf_run_bound(s.drop_first(), p);
    }
}

/// The checklist rows of the nodes: each node with children on its own
/// row; each leaf starts a row that also takes the leaves right after it
/// with the same parent.
pub open spec fn spec_rows(s: Seq<FlatView>) -> Seq<RowView>
    decreases s.len(),
{
    if s.len() == 0 {
        Seq::empty()
    } else if s[0].has_children {
        seq![RowView::Branch { id: s[0].id, label: s[0].label, color: s[0].color, depth: s[0].depth }]
            + spec_rows(s.drop_first())
    } else {
        let k = 1 + leaf_run(s.drop_first(), s[0].parent);
        proof {
            lemma_leaf_run_bound(s.drop_first(), s[0].parent);
        }
        seq![RowView::Leaves { depth: s[0].depth, nodes: s.subrange(0, k as int).map_values(|n: FlatView| leaf_view(n)) }]
            + spec_rows(s.subrange(k as int, s.len() as int))
    }
}

proof fn lemma_leaf_run_exact(t: Seq<FlatView>, p: Seq<char>, k: int)
    requires
        0 <= k <= t.len(),
        forall|m: int| 0 <= m < k ==> !(#[trigger] t[m]).has_children && t[m].parent == p,
        k == t.len() || t[k].has_children || t[k].parent != p,
    ensures
        leaf_run(t, p) == k,
    decreases k,
{
    if k > 0 {
        lemma_leaf_run_exact(t.drop_first(), p, k - 1);
    }
}

fn leaf_entry(n: &FlatNode) -> (r: (Id, String, String))
    ensures
        (r.0@, r.1@, r.2@) == leaf_view(flat_view(*n)),
{
    (n.id.clone(), n.label.clone(), n.color.clone())
}

/// The checklist rows of the nodes `flat` (see `spec_rows`).
pub fn rows(flat: &Vec<FlatNode>) -> (r: Vec<DimTreeItem>)
    ensures
        rows_view(r@) == spec_rows(flats_view(flat@)),
{
    let ghost s = flats_view(flat@);
    let n = flat.len();
    let mut out: Vec<DimTreeItem> = Vec::new();
    let mut i: usize = 0;
    assert(s.subrange(0, n as int) =~= s);
    assert(rows_view(out@) + spec_rows(s) =~= spec_rows(s));
    while i < n
        invariant
            n == flat@.len(),
            s == flats_view(flat@),
            i <= n,
            rows_view(out@) + spec_rows(s.subrange(i as int, n as int)) == spec_rows(s),
        decreases n - i,
    {
        let ghost rest = s.subrange(i as int, n as int);
        assert(rest[0] == flat_view(flat@[i as int]));
        if flat[i].has_children {
            assert(rest.drop_first() =~= s.subrange(i + 1, n as int));
            let ghost before = out@;
            out.push(
                DimTreeItem::Branch {
                    id: flat[i].id.clone(),
                    label: flat[i].label.clone(),
                    color: flat[i].color.clone(),
                    depth: flat[i].depth,
                },
            );
            assert(rows_view(out@) =~= rows_view(before).push(row_view(out@.last())));
            assert(rows_view(out@) + spec_rows(s.subrange(i + 1, n as int)) =~= rows_view(before) + spec_rows(rest));
            i = i + 1;
        } else {
            let mut nodes: Vec<(Id, String, String)> = Vec::new();
            nodes.push(leaf_entry(&flat[i]));
            let mut j: usize = i + 1;
            while j < n && !flat[j].has_children && flat[j].parent.same(&flat[i].parent)
                invariant
                    n == flat@.len(),
                    s == flats_view(flat@),
                    i < j <= n,
                    !s[i as int].has_children,
                    forall|m: int| i < m < j ==> !(#[trigger] s[m]).has_children && s[m].parent == s[i as int].parent,
                    nodes@.map_values(|t: (Id, String, String)| (t.0@, t.1@, t.2@))
                        == s.subrange(i as int, j as int).map_values(|x: FlatView| leaf_view(x)),
                decreases n - j,
            {
                let ghost nb = nodes@;
                nodes.push(leaf_entry(&flat[j]));
                assert(nodes@.map_values(|t: (Id, String, String)| (t.0@, t.1@, t.2@)) =~= nb.map_values(
                    |t: (Id, String, String)| (t.0@, t.1@, t.2@),
                ).push(leaf_view(s[j as int])));
                assert(s.subrange(i as int, j + 1).map_values(|x: FlatView| leaf_view(x)) =~= s.subrange(
                    i as int,
                    j as int,
                ).map_values(|x: FlatView| leaf_view(x)).push(leaf_view(s[j as int])));
                j = j + 1;
            }
            proof {
                let t = rest.drop_first();
                let p = rest[0].parent;
                assert forall|m: int| 0 <= m < j - i - 1 implies !(#[trigger] t[m]).has_children && t[m].parent == p by {
                    assert(t[m] == s[i + 1 + m]);
                }
                if j < n {
                    assert(t[j - i - 1] == s[j as int]);
                }
                lemma_leaf_run_exact(t, p, j - i - 1);
                assert(rest.subrange(0, j - i) =~= s.subrange(i as int, j as int));
                assert(rest.subrange(j - i, rest.len() as int) =~= s.subrange(j as int, n as int));
            }
            let ghost before = out@;
            out.push(DimTreeItem::Leaves { depth: flat[i].depth, nodes });
            assert(rows_view(out@) =~= rows_view(before).push(row_view(out@.last())));
            assert(rows_view(out@) + spec_rows(s.subrange(j as int, n as int)) =~= rows_view(before) + spec_rows(rest));
            i = j;
        }
    }
    assert(s.subrange(n as int, n as int) =~= Seq::<FlatView>::empty());
    assert(rows_view(out@) + Seq::<RowView>::empty() =~= rows_view(out@));
    out
}

/// The identifiers on a row, in order.
pub open spec fn row_ids(r: RowView) -> Seq<Seq<char>> {
    match r {
        RowView::Branch { id, .. } => seq![id],
        RowView::Leaves { nodes, .. } => nodes.map_values(|t: (Seq<char>, Seq<char>, Seq<char>)| t.0),
    }
}

/// The identifiers of all rows, row after row.
pub open spec fn rows_ids(s: Seq<RowView>) -> Seq<Seq<char>>
    decreases s.len(),
{
    if s.len() == 0 {
        Seq::empty()
    } else {
        row_ids(s[0]) + rows_ids(s.drop_first())
    }
}

/// The identifiers of the nodes, in order.
pub open spec fn rows_from(s: Seq<FlatView>) -> Seq<Seq<char>> {
    s.map_values(|n: FlatView| n.id)
}

/// The checklist shows every node exactly once, in the order given: reading
/// the rows' identifiers one after the other gives the nodes' identifiers.
pub proof fn lemma_rows_keep_every_node_in_order(s: Seq<FlatView>)
    ensures
        rows_ids(spec_rows(s)) == rows_from(s),
    decreases s.len(),
{
    if s.len() == 0 {
        assert(rows_from(s) =~= Seq::empty());
    } else if s[0].has_children {
        lemma_rows_keep_every_node_in_order(s.drop_first());
        let r = spec_rows(s);
        assert(r.drop_first() =~= spec_rows(s.drop_first()));
        assert(rows_from(s) =~= seq![s[0].id] + rows_from(s.drop_first()));
    } else {
        lemma_leaf_run_bound(s.drop_first(), s[0].parent);
        let k = 1 + leaf_run(s.drop_first(), s[0].parent);
        let tail = s.subrange(k as int, s.len() as int);
        lemma_rows_keep_every_node_in_order(tail);
        let r = spec_rows(s);
        assert(r.drop_first() =~= spec_rows(tail));
        let nodes = s.subrange(0, k as int).map_values(|n: FlatView| leaf_view(n));
        assert(nodes.map_values(|t: (Seq<char>, Seq<char>, Seq<char>)| t.0) =~= rows_from(s.subrange(0, k as int)));
        assert(rows_from(s) =~= rows_from(s.subrange(0, k as int)) + rows_from(tail));
    }
}

/// What a row shows of each of its nodes, in order: identifier, label and
/// colour, and for a branch row its depth (a row of leaves shows no depth of
/// its own per node).
pub open spec fn row_entries(r: RowView) -> Seq<(Seq<char>, Seq<char>, Seq<char>, Option<nat>)> {
    match r {
        RowView::Branch { id, label, color, depth } => seq![(id, label, color, Some(depth))],
        RowView::Leaves { nodes, .. } => nodes.map_values(
            |t: (Seq<char>, Seq<char>, Seq<char>)| (t.0, t.1, t.2, None::<nat>),
        ),
    }
}

/// What all rows show, row after row.
pub open spec fn rows_entries(s: Seq<RowView>) -> Seq<(Seq<char>, Seq<char>, Seq<char>, Option<nat>)>
    decreases s.len(),
{
    if s.len() == 0 {
        Seq::empty()
    } else {
        row_entries(s[0]) + rows_entries(s.drop_first())
    }
}

/// A node's own identifier, label and colour, and its depth when it has
/// children.
pub open spec fn node_entry(n: FlatView) -> (Seq<char>, Seq<char>, Seq<char>, Option<nat>) {
    (n.id, n.label, n.color, if n.has_children { Some(n.depth) } else { None })
}

proof fn lemma_leaf_run_members(t: Seq<FlatView>, p: Seq<char>)
    ensures
        forall|m: int| 0 <= m < leaf_run(t, p) ==> !(#[trigger] t[m]).has_children && t[m].parent == p,
    decreases t.len(),
{
    if t.len() > 0 && !t[0].has_children && t[0].parent == p {
        lemma_leaf_run_members(t.drop_first(), p);
        lemma_leaf_run_bound(t.drop_first(), p);
        assert forall|m: int| 0 <= m < leaf_run(t, p) implies !(#[trigger] t[m]).has_children && t[m].parent == p by {
            if m > 0 {
                assert(t[m] == t.drop_first()[m - 1]);
            }
        }
    }
}

/// Every node is shown with its own fields, in the order given: a node with
/// children on a branch row carrying its identifier, label, colour and
/// depth; a leaf on a row of leaves carrying its identifier, label and
/// colour.
pub proof fn lemma_rows_show_each_node_as_it_is(s: Seq<FlatView>)
    ensures
        rows_entries(spec_rows(s)) == s.map_values(|n: FlatView| node_entry(n)),
    decreases s.len(),
{
    let m = s.map_values(|n: FlatView| node_entry(n));
    if s.len() == 0 {
        assert(m =~= Seq::empty());
    } else if s[0].has_children {
        lemma_rows_show_each_node_as_it_is(s.drop_first());
        let r = spec_rows(s);
        assert(r.drop_first() =~= spec_rows(s.drop_first()));
        assert(m =~= seq![node_entry(s[0])] + s.drop_first().map_values(|n: FlatView| node_entry(n)));
    } else {
        lemma_leaf_run_bound(s.drop_first(), s[0].parent);
        lemma_leaf_run_members(s.drop_first(), s[0].parent);
        let k = 1 + leaf_run(s.drop_first(), s[0].parent);
        let tail = s.subrange(k as int, s.len() as int);
        lemma_rows_show_each_node_as_it_is(tail);
        let r = spec_rows(s);
        assert(r.drop_first() =~= spec_rows(tail));
        let head = s.subrange(0, k as int);
        let nodes = head.map_values(|n: FlatView| leaf_view(n));
        assert forall|j: int| 0 <= j < head.len() implies !(#[trigger] head[j]).has_children by {
            if j > 0 {
                assert(head[j] == s.drop_first()[j - 1]);
            }
        }
        assert(nodes.map_values(|t: (Seq<char>, Seq<char>, Seq<char>)| (t.0, t.1, t.2, None::<nat>)) =~= head.map_values(
            |n: FlatView| node_entry(n),
        ));
        assert(m =~= head.map_values(|n: FlatView| node_entry(n)) + tail.map_values(|n: FlatView| node_entry(n)));
    }
}

/// Whether node `i` begins a new row: the first node, a node with children,
/// a node right after a node with children, or a leaf whose parent differs
/// from the previous node's.
pub open spec fn starts_row(s: Seq<FlatView>, i: int) -> bool {
    i == 0 || s[i].has_children || s[i - 1].has_children || s[i - 1].parent != s[i].parent
}

/// For each node a row shows, in order: whether it is the row's first node,
/// and the row's depth.
pub open spec fn row_marks(r: RowView) -> Seq<(bool, nat)> {
    match r {
        RowView::Branch { depth, .. } => seq![(true, depth)],
        RowView::Leaves { depth, nodes } => Seq::new(nodes.len(), |j: int| (j == 0, depth)),
    }
}

/// `row_marks` of all rows, row after row.
pub open spec fn rows_marks(s: Seq<RowView>) -> Seq<(bool, nat)>
    decreases s.len(),
{
    if s.len() == 0 {
        Seq::empty()
    } else {
        row_marks(s[0]) + rows_marks(s.drop_first())
    }
}

proof fn lemma_leaf_run_stops(t: Seq<FlatView>, p: Seq<char>)
    ensures
        leaf_run(t, p) < t.len() ==> t[leaf_run(t, p) as int].has_children || t[leaf_run(t, p) as int].parent != p,
    decreases t.len(),
{
    if t.len() > 0 && !t[0].has_children && t[0].parent == p {
        lemma_leaf_run_stops(t.drop_first(), p);
        lemma_leaf_run_bound(t.drop_first(), p);
        if leaf_run(t, p) < t.len() {
            assert(t[leaf_run(t, p) as int] == t.drop_first()[leaf_run(t.drop_first(), p) as int]);
        }
    }
}

/// The rows break exactly where the nodes' runs break: a new row begins at
/// every node with children, right after one, and wherever the parent
/// changes between two leaves; everywhere else a leaf joins the row of the
/// leaf before it. Each row's depth is that of its first node, and no row is
/// empty.
pub proof fn lemma_rows_break_where_runs_break(s: Seq<FlatView>)
    ensures
        rows_marks(spec_rows(s)).len() == s.len(),
        forall|i: int| 0 <= i < s.len() ==> (#[trigger] rows_marks(spec_rows(s))[i]).0 == starts_row(s, i),
        forall|i: int| 0 <= i < s.len() && starts_row(s, i) ==> (#[trigger] rows_marks(spec_rows(s))[i]).1
            == s[i].depth,
        forall|i: int| 0 < i < s.len() && !starts_row(s, i) ==> (#[trigger] rows_marks(spec_rows(s))[i]).1
            == rows_marks(spec_rows(s))[i - 1].1,
        forall|j: int| 0 <= j < spec_rows(s).len() ==> row_marks(#[trigger] spec_rows(s)[j]).len() > 0,
    decreases s.len(),
{
    let rows = spec_rows(s);
    let m = rows_marks(rows);
    if s.len() == 0 {
    } else if s[0].has_children {
        let t = s.drop_first();
        lemma_rows_break_where_runs_break(t);
        let rt = spec_rows(t);
        let mt = rows_marks(rt);
        assert(rows.drop_first() =~= rt);
        assert(m == row_marks(rows[0]) + mt);
        assert forall|i: int| 1 <= i < s.len() implies m[i] == mt[i - 1] && s[i] == t[i - 1] && (i >= 2 ==> s[i - 1]
            == t[i - 2]) by {}
        assert forall|i: int| 0 <= i < s.len() implies (#[trigger] m[i]).0 == starts_row(s, i) by {
            if i >= 1 {
                assert(mt[i - 1].0 == starts_row(t, i - 1));
            }
        }
        assert forall|i: int| 0 <= i < s.len() && starts_row(s, i) implies (#[trigger] m[i]).1 == s[i].depth by {
            if i >= 1 {
                assert(starts_row(t, i - 1));
            }
        }
        assert forall|i: int| 0 < i < s.len() && !starts_row(s, i) implies (#[trigger] m[i]).1 == m[i - 1].1 by {
            assert(i >= 2);
            assert(!starts_row(t, i - 1));
        }
        assert forall|j: int| 0 <= j < rows.len() implies row_marks(#[trigger] rows[j]).len() > 0 by {
            if j > 0 {
                assert(rows[j] == rt[j - 1]);
            }
        }
    } else {
        let p = s[0].parent;
        lemma_leaf_run_bound(s.drop_first(), p);
        lemma_leaf_run_members(s.drop_first(), p);
        lemma_leaf_run_stops(s.drop_first(), p);
        let k = 1 + leaf_run(s.drop_first(), p);
        let t = s.subrange(k as int, s.len() as int);
        lemma_rows_break_where_runs_break(t);
        let rt = spec_rows(t);
        let mt = rows_marks(rt);
        assert(rows.drop_first() =~= rt);
        let h = row_marks(rows[0]);
        assert(h.len() == k);
        assert(m == h + mt);
        assert forall|i: int| 0 < i < k implies !s[i].has_children && s[i].parent == p by {
            assert(s[i] == s.drop_first()[i - 1]);
        }
        assert forall|i: int| k <= i < s.len() implies m[i] == mt[i - k] && s[i] == t[i - k] by {}
        if k < s.len() {
            assert(s[k as int] == s.drop_first()[k - 1]);
            assert(starts_row(s, k as int));
        }
        assert forall|i: int| 0 <= i < s.len() implies (#[trigger] m[i]).0 == starts_row(s, i) by {
            if i >= k {
                assert(mt[i - k].0 == starts_row(t, i - k));
                if i > k {
                    assert(s[i - 1] == t[i - k - 1]);
                }
            } else if i > 0 {
                assert(m[i] == h[i]);
            }
        }
        assert forall|i: int| 0 <= i < s.len() && starts_row(s, i) implies (#[trigger] m[i]).1 == s[i].depth by {
            if i >= k {
                if i > k {
                    assert(s[i - 1] == t[i - k - 1]);
                }
                assert(starts_row(t, i - k));
            } else {
                assert(m[i] == h[i]);
            }
        }
        assert forall|i: int| 0 < i < s.len() && !starts_row(s, i) implies (#[trigger] m[i]).1 == m[i - 1].1 by {
            if i > k {
                assert(s[i - 1] == t[i - k - 1]);
                assert(!starts_row(t, i - k));
                assert(m[i - 1] == mt[i - k - 1]);
            } else if i < k {
                assert(m[i] == h[i]);
                assert(m[i - 1] == h[i - 1]);
            }
        }
        assert forall|j: int| 0 <= j < rows.len() implies row_marks(#[trigger] rows[j]).len() > 0 by {
            if j > 0 {
                assert(rows[j] == rt[j - 1]);
            }
        }
    }
}

// ---------------------------------------------------------------------------
// The form's fields.

/// The label saved for a resource: none when the field is blank, else the
/// field as typed.
pub fn resource_label(text: String) -> (r: Option<String>)
    ensures
        blank(text@) ==> r is None,
        !blank(text@) ==> (r matches Some(l) && l@ == text@),
{
    if is_blank(text.as_str()) {
        None
    } else {
        Some(text)
    }
}

/// Whether `c` is an ASCII digit.
pub open spec fn is_digit(c: char) -> bool {
    '0' <= c <= '9'
}

/// The value of a string of decimal digits.
pub open spec fn digits_value(s: Seq<char>) -> nat
    decreases s.len(),
{
    if s.len() == 0 {
        0
    } else {
        digits_value(s.drop_last()) * 10 + ((s.last() as nat) - ('0' as nat)) as nat
    }
}

/// The digits of a number as `u32`'s `FromStr` reads them: an optional `+`,
/// then the digits.
pub open spec fn unsigned_digits(s: Seq<char>) -> Seq<char> {
    if s.len() > 0 && s[0] == '+' {
        s.drop_first()
    } else {
        s
    }
}

/// A frequency as typed in the form, read as `u32`'s `FromStr` reads it: an
/// optional `+` and at least one decimal digit, at most `u32::MAX`.
pub open spec fn spec_parse_freq(s: Seq<char>) -> Option<u32> {
    let d = unsigned_digits(s);
    if d.len() > 0 && (forall|i: int| 0 <= i < d.len() ==> is_digit(#[trigger] d[i])) && digits_value(d)
        <= u32::MAX {
        Some(digits_value(d) as u32)
    } else {
        None
    }
}

proof fn lemma_digits_value_grows(d: Seq<char>, k: int)
    requires
        0 <= k <= d.len(),
        forall|i: int| 0 <= i < d.len() ==> is_digit(#[trigger] d[i]),
    ensures
        digits_value(d.subrange(0, k)) <= digits_value(d),
    decreases d.len() - k,
{
    if k < d.len() {
        lemma_digits_value_grows(d, k + 1);
        assert(d.subrange(0, k + 1).drop_last() =~= d.subrange(0, k));
    } else {
        assert(d.subrange(0, k) =~= d);
    }
}

/// Reads a frequency typed in the form (see `spec_parse_freq`); `None` when
/// the text is not a `u32`.
pub fn parse_freq(s: &str) -> (r: Option<u32>)
    ensures
        r == spec_parse_freq(s@),
{
    let n = s.unicode_len();
    let start: usize = if n > 0 && s.get_char(0) == '+' { 1 } else { 0 };
    let ghost d = unsigned_digits(s@);
    assert(d =~= s@.subrange(start as int, n as int));
    if start == n {
        return None;
    }
    let mut acc: u64 = 0;
    let mut i: usize = start;
    let mut digits_ok = true;
    let mut too_big = false;
    while i < n
        invariant
            n == s@.len(),
            start <= i <= n,
            start < n,
            d == s@.subrange(start as int, n as int),
            digits_ok == (forall|m: int| 0 <= m < i - start ==> is_digit(#[trigger] d[m])),
            digits_ok && !too_big ==> acc == digits_value(d.subrange(0, i - start)) && acc <= u32::MAX,
            digits_ok && too_big ==> digits_value(d.subrange(0, i - start)) > u32::MAX,
        decreases n - i,
    {
        let c = s.get_char(i);
        assert(c == d[i - start]);
        let ghost k = i - start;
        assert(d.subrange(0, k + 1).drop_last() =~= d.subrange(0, k));
        if !('0' <= c && c <= '9') {
            digits_ok = false;
        } else if digits_ok && !too_big {
            let v = acc * 10 + ((c as u32) - ('0' as u32)) as u64;
            if v > 0xffff_ffff {
                too_big = true;
            }
            acc = v;
        } else if digits_ok && too_big {
            assert(digits_value(d.subrange(0, k + 1)) >= digits_value(d.subrange(0, k)) * 10);
        }
        i = i + 1;
    }
    assert(d.subrange(0, n - start) =~= d);
    if !digits_ok {
        assert(!(forall|m: int| 0 <= m < d.len() ==> is_digit(#[trigger] d[m])));
        None
    } else if too_big {
        None
    } else {
        Some(acc as u32)
    }
}

// ---------------------------------------------------------------------------
// Saving into the catalog.

/// Where a saved resource goes in a catalog listed by identifier: the first
/// position holding the same identifier (it is replaced there), or none when
/// the identifier is new (the resource is appended).
pub fn upsert_position(ids: &Vec<Id>, id: &Id) -> (r: Option<usize>)
    ensures
        r matches Some(p) ==> p < ids.len() && ids@[p as int]@ == id@ && forall|j: int|
            0 <= j < p ==> (#[trigger] ids@[j])@ != id@,
        r is None ==> forall|j: int| 0 <= j < ids.len() ==> (#[trigger] ids@[j])@ != id@,
{
    let mut i: usize = 0;
    while i < ids.len()
        invariant
            i <= ids.len(),
            forall|j: int| 0 <= j < i ==> (#[trigger] ids@[j])@ != id@,
        decreases ids.len() - i,
    {
        if ids[i].same(id) {
            return Some(i);
        }
        i = i + 1;
    }
    None
}

} // verus!
