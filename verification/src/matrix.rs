//! The matrix view's selection: a cell, a row, a column or the grand total,
//! and the filters it stands for.

use vstd::prelude::*;
use crate::filters::{Filters, spec_set, spec_remove, spec_get, distinct_keys, lemma_get_after_set, lemma_get_after_remove, key_index, lemma_key_index};
use crate::ids::Id;

verus! {

/// A selected (axis, value) pair.
pub type AxisValue = (Id, Id);

/// The selection in the matrix: a row value, a column value, both (a cell)
/// or neither (the grand total).
#[derive(Debug)]
pub struct CellSel {
    pub row: Option<AxisValue>,
    pub col: Option<AxisValue>,
}

pub open spec fn axis_value_view(p: Option<AxisValue>) -> Option<(Seq<char>, Seq<char>)> {
    match p {
        Some(p) => Some((p.0@, p.1@)),
        None => None,
    }
}

/// The filters after setting the selection's row, then its column.
pub open spec fn set_selection(
    f: Seq<(Seq<char>, Seq<char>)>,
    row: Option<(Seq<char>, Seq<char>)>,
    col: Option<(Seq<char>, Seq<char>)>,
) -> Seq<(Seq<char>, Seq<char>)> {
    let f1 = match row {
        Some(p) => spec_set(f, p.0, p.1),
        None => f,
    };
    match col {
        Some(p) => spec_set(f1, p.0, p.1),
        None => f1,
    }
}

/// The filters that a selection stands for: the base filters without the two
/// matrix axes, then the selected row and column values set.
pub open spec fn spec_compose(
    base: Seq<(Seq<char>, Seq<char>)>,
    axes: Option<(Seq<char>, Seq<char>)>,
    row: Option<(Seq<char>, Seq<char>)>,
    col: Option<(Seq<char>, Seq<char>)>,
) -> Seq<(Seq<char>, Seq<char>)> {
    let cleared = match axes {
        Some(a) => spec_remove(spec_remove(base, a.0), a.1),
        None => base,
    };
    set_selection(cleared, row, col)
}

/// Both a row and a column are selected, with values `row_val` and `col_val`.
pub open spec fn selection_is_cell(
    row: Option<(Seq<char>, Seq<char>)>,
    col: Option<(Seq<char>, Seq<char>)>,
    row_val: Seq<char>,
    col_val: Seq<char>,
) -> bool {
    &&& row matches Some(rp) && rp.1 == row_val
    &&& col matches Some(cp) && cp.1 == col_val
}

fn clone_axis_value(p: &Option<AxisValue>) -> (r: Option<AxisValue>)
    ensures
        axis_value_view(r) == axis_value_view(*p),
{
    match p {
        Some(p) => Some((p.0.clone(), p.1.clone())),
        None => None,
    }
}

impl CellSel {
    pub open spec fn row_view(&self) -> Option<(Seq<char>, Seq<char>)> {
        axis_value_view(self.row)
    }

    pub open spec fn col_view(&self) -> Option<(Seq<char>, Seq<char>)> {
        axis_value_view(self.col)
    }

    /// Whether the selection is exactly the cell of `row_val` and `col_val`:
    /// both a row and a column are selected and their values match.
    pub fn is_cell(&self, row_val: &Id, col_val: &Id) -> (r: bool)
        ensures
            r == selection_is_cell(self.row_view(), self.col_view(), row_val@, col_val@),
    {
        let row_ok = match &self.row {
            Some((_, v)) => v.same(row_val),
            None => false,
        };
        let col_ok = match &self.col {
            Some((_, v)) => v.same(col_val),
            None => false,
        };
        row_ok && col_ok
    }

    /// The filters for this selection: `base` with both matrix axes cleared,
    /// then the selected row value and column value set.
    pub fn compose(&self, base: &Filters, axes: Option<&AxisValue>) -> (r: Filters)
        ensures
            r@ == spec_compose(
                base@,
                match axes {
                    Some(a) => Some((a.0@, a.1@)),
                    None => None,
                },
                self.row_view(),
                self.col_view(),
            ),
    {
        let mut filters = base.clone();
        match axes {
            Some((row_axis, col_axis)) => {
                filters.remove_root(row_axis);
                filters.remove_root(col_axis);
            },
            None => {},
        }
        match clone_axis_value(&self.row) {
            Some((axis, value)) => filters.set(axis, value),
            None => {},
        }
        match clone_axis_value(&self.col) {
            Some((axis, value)) => filters.set(axis, value),
            None => {},
        }
        filters
    }
}

/// A tree chevron toggled: the open node closes, any other node opens.
pub open spec fn spec_toggle_expanded(open: Option<Seq<char>>, id: Seq<char>) -> Option<Seq<char>> {
    if open == Some(id) {
        None
    } else {
        Some(id)
    }
}

/// Toggles which top-level node of a matrix axis is expanded.
pub fn toggle_expanded(open: &Option<Id>, id: &Id) -> (r: Option<Id>)
    ensures
        axis_id_view(r) == spec_toggle_expanded(axis_id_view(*open), id@),
{
    match open {
        Some(o) => if o.same(id) {
            None
        } else {
            Some(id.clone())
        },
        None => Some(id.clone()),
    }
}

pub open spec fn axis_id_view(o: Option<Id>) -> Option<Seq<char>> {
    match o {
        Some(i) => Some(i@),
        None => None,
    }
}

/// The (row, column) axes the matrix shows, given the roots that have
/// children in taxonomy order and the axes chosen in the query (each with
/// whether it is a valid axis): a chosen valid axis, else the first root for
/// the rows and the second (or the first) root for the columns; none when no
/// root has children.
pub open spec fn spec_choose_axes(
    roots: Seq<Seq<char>>,
    chosen_row: Option<(Seq<char>, bool)>,
    chosen_col: Option<(Seq<char>, bool)>,
) -> Option<(Seq<char>, Seq<char>)> {
    if roots.len() == 0 {
        None
    } else {
        let first = roots[0];
        let row = match chosen_row {
            Some((id, true)) => id,
            _ => first,
        };
        let col = match chosen_col {
            Some((id, true)) => id,
            _ => if roots.len() > 1 {
                roots[1]
            } else {
                first
            },
        };
        Some((row, col))
    }
}

pub open spec fn ids_view(s: Seq<Id>) -> Seq<Seq<char>> {
    s.map_values(|i: Id| i@)
}

pub open spec fn chosen_view(c: Option<(Id, bool)>) -> Option<(Seq<char>, bool)> {
    match c {
        Some((i, b)) => Some((i@, b)),
        None => None,
    }
}

/// Picks the matrix axes (see `spec_choose_axes`).
pub fn choose_axes(
    roots: &Vec<Id>,
    chosen_row: &Option<(Id, bool)>,
    chosen_col: &Option<(Id, bool)>,
) -> (r: Option<(Id, Id)>)
    ensures
        axis_value_view(r) == spec_choose_axes(ids_view(roots@), chosen_view(*chosen_row), chosen_view(*chosen_col)),
{
    if roots.len() == 0 {
        return None;
    }
    let row = match chosen_row {
        Some((id, true)) => id.clone(),
        _ => roots[0].clone(),
    };
    let col = match chosen_col {
        Some((id, true)) => id.clone(),
        _ => if roots.len() > 1 {
            roots[1].clone()
        } else {
            roots[0].clone()
        },
    };
    Some((row, col))
}

/// A selection is the cell of at most one (row value, column value) pair:
/// with both a row and a column selected it is the cell of their values and
/// of no other pair; with either missing it is no cell.
pub proof fn lemma_selection_is_one_cell(
    row: Option<(Seq<char>, Seq<char>)>,
    col: Option<(Seq<char>, Seq<char>)>,
    row_val: Seq<char>,
    col_val: Seq<char>,
)
    ensures
        (row is None || col is None) ==> !selection_is_cell(row, col, row_val, col_val),
        row matches Some(r) ==> col matches Some(c) ==> (selection_is_cell(row, col, row_val, col_val) <==> (r.1
            == row_val && c.1 == col_val)),
{
}

/// Toggling an axis node closes it when it is the open one, and otherwise
/// opens it (closing any other).
pub proof fn lemma_toggle_opens_or_closes(open: Option<Seq<char>>, id: Seq<char>)
    ensures
        open == Some(id) ==> spec_toggle_expanded(open, id) is None,
        open != Some(id) ==> spec_toggle_expanded(open, id) == Some(id),
{
}

/// The chosen axes: none exactly when no root has children; otherwise a
/// valid chosen row axis is the row axis and a valid chosen column axis the
/// column axis, each whatever the other choice is; without a valid choice
/// the rows take the first root and the columns the second root (the first
/// when there is only one).
pub proof fn lemma_choose_axes_uses_valid_choices(
    roots: Seq<Seq<char>>,
    chosen_row: Option<(Seq<char>, bool)>,
    chosen_col: Option<(Seq<char>, bool)>,
)
    ensures
        spec_choose_axes(roots, chosen_row, chosen_col) is None <==> roots.len() == 0,
        chosen_row matches Some((c, v)) ==> v && roots.len() > 0 ==> (spec_choose_axes(
            roots,
            chosen_row,
            chosen_col,
        ) matches Some(a) && a.0 == c),
        chosen_col matches Some((c, v)) ==> v && roots.len() > 0 ==> (spec_choose_axes(
            roots,
            chosen_row,
            chosen_col,
        ) matches Some(a) && a.1 == c),
        roots.len() > 0 && !(chosen_row matches Some((c, v)) && v) ==> (spec_choose_axes(
            roots,
            chosen_row,
            chosen_col,
        ) matches Some(a) && a.0 == roots[0]),
        roots.len() > 1 && !(chosen_col matches Some((c, v)) && v) ==> (spec_choose_axes(
            roots,
            chosen_row,
            chosen_col,
        ) matches Some(a) && a.1 == roots[1]),
        roots.len() == 1 && !(chosen_col matches Some((c, v)) && v) ==> (spec_choose_axes(
            roots,
            chosen_row,
            chosen_col,
        ) matches Some(a) && a.1 == roots[0]),
{
}

/// The selection's row and column values end up set, and a root that is
/// neither matrix axis nor selected keeps its base value.
pub proof fn lemma_compose_sets_selection(
    base: Seq<(Seq<char>, Seq<char>)>,
    axes: (Seq<char>, Seq<char>),
    row: Option<(Seq<char>, Seq<char>)>,
    col: Option<(Seq<char>, Seq<char>)>,
    other: Seq<char>,
)
    requires
        distinct_keys(base),
    ensures
        col matches Some(c) ==> spec_get(spec_compose(base, Some(axes), row, col), c.0) == Some(c.1),
        row matches Some(r) ==> (col matches Some(c) ==> c.0 != r.0) ==> spec_get(
            spec_compose(base, Some(axes), row, col),
            r.0,
        ) == Some(r.1),
        other != axes.0 && other != axes.1 && (row matches Some(r) ==> r.0 != other) && (col matches Some(
            c,
        ) ==> c.0 != other) ==> spec_get(spec_compose(base, Some(axes), row, col), other) == spec_get(
            base,
            other,
        ),
        row is None && col is None ==> spec_get(spec_compose(base, Some(axes), row, col), axes.0) is None
            && spec_get(spec_compose(base, Some(axes), row, col), axes.1) is None,
{
    let c1 = spec_remove(base, axes.0);
    let c2 = spec_remove(c1, axes.1);
    lemma_get_after_remove(base, axes.0, other);
    lemma_get_after_remove(base, axes.0, axes.1);
    lemma_remove_keeps_distinct(base, axes.0);
    lemma_get_after_remove(c1, axes.1, other);
    lemma_get_after_remove(c1, axes.1, axes.0);
    let f1 = match row {
        Some(p) => spec_set(c2, p.0, p.1),
        None => c2,
    };
    if let Some(p) = row {
        lemma_get_after_set(c2, p.0, p.1, other);
    }
    if let Some(c) = col {
        lemma_get_after_set(f1, c.0, c.1, other);
        if let Some(r) = row {
            lemma_get_after_set(f1, c.0, c.1, r.0);
        }
    }
}

/// What the composed filters hold for any root `k`: the selected column
/// value when the column selection is on `k`, else the selected row value
/// when the row selection is on `k`, else nothing when `k` is one of the two
/// matrix axes (both are cleared, whatever is selected), else the base
/// value.
pub proof fn lemma_compose_reads(
    base: Seq<(Seq<char>, Seq<char>)>,
    axes: Option<(Seq<char>, Seq<char>)>,
    row: Option<(Seq<char>, Seq<char>)>,
    col: Option<(Seq<char>, Seq<char>)>,
    k: Seq<char>,
)
    requires
        distinct_keys(base),
    ensures
        col matches Some(c) ==> c.0 == k ==> spec_get(spec_compose(base, axes, row, col), k) == Some(c.1),
        row matches Some(r) ==> r.0 == k && !(col matches Some(c) && c.0 == k) ==> spec_get(
            spec_compose(base, axes, row, col),
            k,
        ) == Some(r.1),
        !(row matches Some(r) && r.0 == k) && !(col matches Some(c) && c.0 == k) && (axes matches Some(a) && (k
            == a.0 || k == a.1)) ==> spec_get(spec_compose(base, axes, row, col), k) is None,
        !(row matches Some(r) && r.0 == k) && !(col matches Some(c) && c.0 == k) && !(axes matches Some(a) && (k
            == a.0 || k == a.1)) ==> spec_get(spec_compose(base, axes, row, col), k) == spec_get(base, k),
{
    let cleared = match axes {
        Some(a) => spec_remove(spec_remove(base, a.0), a.1),
        None => base,
    };
    if let Some(a) = axes {
        let c1 = spec_remove(base, a.0);
        lemma_get_after_remove(base, a.0, k);
        lemma_remove_keeps_distinct(base, a.0);
        lemma_get_after_remove(c1, a.1, k);
    }
    let f1 = match row {
        Some(p) => spec_set(cleared, p.0, p.1),
        None => cleared,
    };
    if let Some(p) = row {
        lemma_get_after_set(cleared, p.0, p.1, k);
    }
    if let Some(c) = col {
        lemma_get_after_set(f1, c.0, c.1, k);
    }
}

proof fn lemma_remove_keeps_distinct(f: Seq<(Seq<char>, Seq<char>)>, k: Seq<char>)
    requires
        distinct_keys(f),
    ensures
        distinct_keys(spec_remove(f, k)),
    decreases f.len(),
{
    let p = crate::filters::key_is_not(k);
    if f.len() > 0 {
        let pre = f.drop_last();
        assert(distinct_keys(pre)) by {
            assert forall|i: int, j: int| 0 <= i < j < pre.len() implies #[trigger] pre[i].0 != #[trigger] pre[j].0 by {
                assert(pre[i] == f[i] && pre[j] == f[j]);
            }
        }
        lemma_remove_keeps_distinct(pre, k);
        assert(f =~= pre.push(f.last()));
        pre.lemma_filter_push(f.last(), p);
        let g = spec_remove(pre, k);
        if p(f.last()) {
            let h = g.push(f.last());
            assert forall|i: int, j: int| 0 <= i < j < h.len() implies #[trigger] h[i].0 != #[trigger] h[j].0 by {
                if j == h.len() - 1 {
                    pre.filter_lemma(p);
                    assert(g.contains(g[i]));
                    pre.lemma_filter_contains_rev(p, g[i]);
                    let b = choose|b: int| 0 <= b < pre.len() && pre[b] == g[i];
                    assert(f[b] == pre[b]);
                    assert(f[b].0 != f[f.len() - 1].0);
                }
            }
        }
    }
}

/// The largest count of a row (0 for none).
pub open spec fn row_max(r: Seq<usize>) -> nat
    decreases r.len(),
{
    if r.len() == 0 {
        0
    } else {
        let m = row_max(r.drop_last());
        if r.last() > m {
            r.last() as nat
        } else {
            m
        }
    }
}

/// The largest count of the grid (0 for an empty grid): the count that the
/// cell shading is scaled to.
pub open spec fn grid_max(g: Seq<Seq<usize>>) -> nat
    decreases g.len(),
{
    if g.len() == 0 {
        0
    } else {
        let m = grid_max(g.drop_last());
        let x = row_max(g.last());
        if x > m {
            x
        } else {
            m
        }
    }
}

proof fn lemma_row_max_is_largest(r: Seq<usize>)
    ensures
        forall|c: int| 0 <= c < r.len() ==> r[c] <= row_max(r),
        row_max(r) == 0 || exists|c: int| 0 <= c < r.len() && r[c] == row_max(r),
    decreases r.len(),
{
    if r.len() > 0 {
        let p = r.drop_last();
        lemma_row_max_is_largest(p);
        assert forall|c: int| 0 <= c < r.len() implies r[c] <= row_max(r) by {
            if c < r.len() - 1 {
                assert(r[c] == p[c]);
            }
        }
        if row_max(r) != 0 && row_max(r) == row_max(p) {
            let c = choose|c: int| 0 <= c < p.len() && p[c] == row_max(p);
            assert(r[c] == p[c]);
        }
        if row_max(r) != row_max(p) {
            assert(r[r.len() - 1] == row_max(r));
        }
    }
}

/// The count the shading is scaled to is the largest cell count: no cell
/// exceeds it, and unless it is 0 some cell holds it.
pub proof fn lemma_grid_max_is_the_largest_count(g: Seq<Seq<usize>>)
    ensures
        forall|r: int, c: int| 0 <= r < g.len() && 0 <= c < g[r].len() ==> g[r][c] <= grid_max(g),
        grid_max(g) == 0 || exists|r: int, c: int| 0 <= r < g.len() && 0 <= c < g[r].len() && g[r][c] == grid_max(g),
    decreases g.len(),
{
    if g.len() > 0 {
        let p = g.drop_last();
        let last = g[g.len() - 1];
        lemma_grid_max_is_the_largest_count(p);
        lemma_row_max_is_largest(last);
        assert(g.last() == last);
        assert forall|r: int, c: int| 0 <= r < g.len() && 0 <= c < g[r].len() implies g[r][c] <= grid_max(g) by {
            if r < g.len() - 1 {
                assert(g[r] == p[r]);
            }
        }
        if grid_max(g) != 0 {
            if grid_max(g) == grid_max(p) {
                let (r, c) = choose|r: int, c: int| 0 <= r < p.len() && 0 <= c < p[r].len() && p[r][c] == grid_max(p);
                assert(g[r] == p[r]);
            } else {
                assert(grid_max(g) == row_max(last));
                let c = choose|c: int| 0 <= c < last.len() && last[c] == row_max(last);
                assert(g[g.len() - 1][c] == grid_max(g));
            }
        }
    }
}

/// The largest cell count of the pivot grid (see `grid_max`); `counts[r][c]`
/// is the count of row `r` and column `c`.
pub fn max_count(counts: &Vec<Vec<usize>>) -> (r: usize)
    ensures
        r == grid_max(counts@.map_values(|row: Vec<usize>| row@)),
{
    let ghost g = counts@.map_values(|row: Vec<usize>| row@);
    let mut m: usize = 0;
    let mut i: usize = 0;
    while i < counts.len()
        invariant
            i <= counts@.len(),
            g == counts@.map_values(|row: Vec<usize>| row@),
            m == grid_max(g.take(i as int)),
        decreases counts.len() - i,
    {
        let row = &counts[i];
        assert(g[i as int] == row@);
        let mut rm: usize = 0;
        let mut j: usize = 0;
        while j < row.len()
            invariant
                j <= row@.len(),
                rm == row_max(row@.take(j as int)),
            decreases row.len() - j,
        {
            assert(row@.take(j + 1).drop_last() =~= row@.take(j as int));
            if row[j] > rm {
                rm = row[j];
            }
            j = j + 1;
        }
        assert(row@.take(row@.len() as int) =~= row@);
        assert(g.take(i + 1).drop_last() =~= g.take(i as int));
        if rm > m {
            m = rm;
        }
        i = i + 1;
    }
    assert(g.take(g.len() as int) =~= g);
    m
}

} // verus!
