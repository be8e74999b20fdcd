//! Connected-component labelling of the non-empty grid cells.

use crate::geometry::close;
use crate::geometry::close_at;
use crate::geometry::point_ok;
use crate::geometry::Point;
use crate::geometry::RADIUS_MAX;
use crate::geometry::SCALE;
use crate::grid::cell_seq;
use crate::grid::sum_by;
use crate::grid::total_points;
use crate::grid::Grid;
use vstd::prelude::*;

verus! {

/// Label of a cell that owns no points and can never join a cluster.
pub const SENTINEL: u64 = 0xffff_ffff_ffff_ffff;

/// The colour of cell `(i, j)` in a colour matrix (row `j`, column `i`):
/// `0` means not yet coloured, `SENTINEL` means permanently empty, and
/// any other value is a cluster label.
pub open spec fn color_at(colors: Seq<Vec<u64>>, i: int, j: int) -> u64 {
    colors[j]@[i]
}

/// A square colour matrix of side `n`.
pub open spec fn wf_colors(colors: Seq<Vec<u64>>, n: int) -> bool {
    colors.len() == n && forall|j: int| 0 <= j < n ==> (#[trigger] colors[j])@.len() == n
}

/// Some point of `a` is within radius `r` of some point of `b`.
pub open spec fn cells_close(a: Seq<Point>, b: Seq<Point>, r: u64) -> bool {
    exists|u: int, v: int| 0 <= u < a.len() && 0 <= v < b.len() && close(a[u], b[v], r)
}

/// Pairwise adjacency test between two cells: scans every pair of
/// points and reports whether any pair lies within the radius.
pub fn cells_connected(a: &Vec<Point>, b: &Vec<Point>, r: u64) -> (res: bool)
    requires
        forall|t: int| 0 <= t < a@.len() ==> point_ok(#[trigger] a@[t]),
        forall|t: int| 0 <= t < b@.len() ==> point_ok(#[trigger] b@[t]),
        r <= RADIUS_MAX,
    ensures
        res == cells_close(a@, b@, r),
{
    let mut u: usize = 0;
    while u < a.len()
        invariant
            u <= a@.len(),
            r <= RADIUS_MAX,
            forall|t: int| 0 <= t < a@.len() ==> point_ok(#[trigger] a@[t]),
            forall|t: int| 0 <= t < b@.len() ==> point_ok(#[trigger] b@[t]),
            forall|uu: int, vv: int|
                0 <= uu < u && 0 <= vv < b@.len() ==> !close(a@[uu], b@[vv], r),
        decreases a@.len() - u,
    {
        let mut v: usize = 0;
        while v < b.len()
            invariant
                u < a@.len(),
                v <= b@.len(),
                r <= RADIUS_MAX,
                forall|t: int| 0 <= t < a@.len() ==> point_ok(#[trigger] a@[t]),
                forall|t: int| 0 <= t < b@.len() ==> point_ok(#[trigger] b@[t]),
                forall|vv: int| 0 <= vv < v ==> !close(a@[u as int], b@[vv], r),
            decreases b@.len() - v,
        {
            if close_at(a[u], b[v], r) {
                return true;
            }
            v += 1;
        }
        u += 1;
    }
    false
}

/// The neighbour offsets the labeler scans: every offset of the 5 by 5
/// block around a cell except the origin and the four exact corners.
pub open spec fn valid_offset(dx: int, dy: int) -> bool {
    &&& -2 <= dx <= 2
    &&& -2 <= dy <= 2
    &&& !(dx == 0 && dy == 0)
    &&& !((dx == 2 || dx == -2) && (dy == 2 || dy == -2))
}

/// Two cells are linked when each lies in the scanned neighbourhood of
/// the other and some pair of their points lies within the radius.
pub open spec fn linked(g: Grid, r: u64, i1: int, j1: int, i2: int, j2: int) -> bool {
    &&& 0 <= i1 < g.n && 0 <= j1 < g.n
    &&& 0 <= i2 < g.n && 0 <= j2 < g.n
    &&& valid_offset(i2 - i1, j2 - j1)
    &&& cells_close(g.at(i1, j1), g.at(i2, j2), r)
}

/// The link relation between cells is symmetric.
pub proof fn lemma_linked_sym(g: Grid, r: u64, i1: int, j1: int, i2: int, j2: int)
    requires
        linked(g, r, i1, j1, i2, j2),
    ensures
        linked(g, r, i2, j2, i1, j1),
{
    let (u, v) = choose|u: int, v: int|
        0 <= u < g.at(i1, j1).len() && 0 <= v < g.at(i2, j2).len()
            && close(g.at(i1, j1)[u], g.at(i2, j2)[v], r);
    crate::geometry::lemma_close_sym(g.at(i1, j1)[u], g.at(i2, j2)[v], r);
    assert(close(g.at(i2, j2)[v], g.at(i1, j1)[u], r));
}

/// Number of cells of one colour row that are still uncoloured.
pub open spec fn row_uncolored(row: Vec<u64>) -> int {
    sum_by(row@, |c: u64| if c == 0 { 1int } else { 0int })
}

/// Number of cells of the colour matrix that are still uncoloured.
pub open spec fn uncolored(colors: Seq<Vec<u64>>) -> int {
    sum_by(colors, |row: Vec<u64>| row_uncolored(row))
}

/// Colouring one uncoloured cell lowers the uncoloured count by one.
pub proof fn lemma_uncolored_update(
    colors: Seq<Vec<u64>>,
    i: int,
    j: int,
    c: u64,
    newrow: Vec<u64>,
)
    requires
        0 <= j < colors.len(),
        0 <= i < colors[j]@.len(),
        colors[j]@[i] == 0,
        c != 0,
        newrow@ == colors[j]@.update(i, c),
    ensures
        uncolored(colors.update(j, newrow)) == uncolored(colors) - 1,
{
    let f = |cc: u64| if cc == 0 { 1int } else { 0int };
    let g = |row: Vec<u64>| row_uncolored(row);
    crate::grid::lemma_sum_by_update(colors[j]@, i, c, f);
    crate::grid::lemma_sum_by_update(colors, j, newrow, g);
}

/// The uncoloured count of a square matrix lies between 0 and `n * n`.
pub proof fn lemma_uncolored_bounds(colors: Seq<Vec<u64>>, n: int)
    requires
        wf_colors(colors, n),
    ensures
        0 <= uncolored(colors) <= n * n,
{
    let f = |cc: u64| if cc == 0 { 1int } else { 0int };
    let g = |row: Vec<u64>| row_uncolored(row);
    assert forall|j: int| 0 <= j < colors.len() implies
        0 <= #[trigger] g(colors[j]) <= n by {
        crate::grid::lemma_sum_by_nonneg(colors[j]@, f);
        crate::grid::lemma_sum_by_le(colors[j]@, f, 1);
        assert(colors[j]@.len() * 1 == n);
    }
    crate::grid::lemma_sum_by_nonneg(colors, g);
    crate::grid::lemma_sum_by_le(colors, g, n);
}

/// Points owned by the first `upto` cells of one row whose colour the
/// selector accepts.
pub open spec fn row_points_if(
    crow: Seq<u64>,
    prow: Seq<Vec<Point>>,
    sel: spec_fn(u64) -> bool,
    upto: int,
) -> int
    decreases upto,
{
    if upto <= 0 {
        0
    } else {
        row_points_if(crow, prow, sel, upto - 1)
            + if sel(crow[upto - 1]) { prow[upto - 1]@.len() as int } else { 0 }
    }
}

/// Points owned by the cells of the first `upto` rows whose colour the
/// selector accepts.
pub open spec fn grid_points_if(
    colors: Seq<Vec<u64>>,
    cells: Seq<Vec<Vec<Point>>>,
    sel: spec_fn(u64) -> bool,
    upto: int,
) -> int
    decreases upto,
{
    if upto <= 0 {
        0
    } else {
        grid_points_if(colors, cells, sel, upto - 1)
            + row_points_if(colors[upto - 1]@, cells[upto - 1]@, sel, colors[upto - 1]@.len() as int)
    }
}

/// Points owned by the cells whose colour the selector accepts.
pub open spec fn points_with(
    colors: Seq<Vec<u64>>,
    cells: Seq<Vec<Vec<Point>>>,
    sel: spec_fn(u64) -> bool,
) -> int {
    grid_points_if(colors, cells, sel, colors.len() as int)
}

proof fn lemma_row_points_if_update(
    crow: Seq<u64>,
    prow: Seq<Vec<Point>>,
    sel: spec_fn(u64) -> bool,
    i: int,
    c: u64,
    upto: int,
)
    requires
        0 <= i < crow.len(),
        upto <= crow.len(),
    ensures
        row_points_if(crow.update(i, c), prow, sel, upto) == row_points_if(crow, prow, sel, upto)
            + if i < upto {
                (if sel(c) { prow[i]@.len() as int } else { 0 })
                    - (if sel(crow[i]) { prow[i]@.len() as int } else { 0 })
            } else { 0 },
    decreases upto,
{
    if upto > 0 {
        lemma_row_points_if_update(crow, prow, sel, i, c, upto - 1);
    }
}

proof fn lemma_grid_points_if_update(
    colors: Seq<Vec<u64>>,
    cells: Seq<Vec<Vec<Point>>>,
    sel: spec_fn(u64) -> bool,
    i: int,
    j: int,
    c: u64,
    newrow: Vec<u64>,
    upto: int,
)
    requires
        0 <= j < colors.len(),
        0 <= i < colors[j]@.len(),
        newrow@ == colors[j]@.update(i, c),
        upto <= colors.len(),
    ensures
        grid_points_if(colors.update(j, newrow), cells, sel, upto)
            == grid_points_if(colors, cells, sel, upto)
            + if j < upto {
                (if sel(c) { cells[j]@[i]@.len() as int } else { 0 })
                    - (if sel(colors[j]@[i]) { cells[j]@[i]@.len() as int } else { 0 })
            } else { 0 },
    decreases upto,
{
    if upto > 0 {
        lemma_grid_points_if_update(colors, cells, sel, i, j, c, newrow, upto - 1);
        if j == upto - 1 {
            lemma_row_points_if_update(colors[j]@, cells[j]@, sel, i, c, colors[j]@.len() as int);
        }
    }
}

/// Recolouring one cell moves each selective point count by the
/// difference of the cell's own contribution; the cells are untouched.
pub proof fn lemma_points_with_update(
    colors: Seq<Vec<u64>>,
    cells: Seq<Vec<Vec<Point>>>,
    sel: spec_fn(u64) -> bool,
    i: int,
    j: int,
    c: u64,
    newrow: Vec<u64>,
)
    requires
        0 <= j < colors.len(),
        0 <= i < colors[j]@.len(),
        newrow@ == colors[j]@.update(i, c),
    ensures
        points_with(colors.update(j, newrow), cells, sel) == points_with(colors, cells, sel)
            + (if sel(c) { cells[j]@[i]@.len() as int } else { 0 })
            - (if sel(colors[j]@[i]) { cells[j]@[i]@.len() as int } else { 0 }),
{
    lemma_grid_points_if_update(colors, cells, sel, i, j, c, newrow, colors.len() as int);
}

proof fn lemma_row_points_if_zero(
    crow: Seq<u64>,
    prow: Seq<Vec<Point>>,
    sel: spec_fn(u64) -> bool,
    upto: int,
)
    requires
        upto <= crow.len(),
        forall|a: int| 0 <= a < crow.len() ==> !sel(#[trigger] crow[a]),
    ensures
        row_points_if(crow, prow, sel, upto) == 0,
    decreases upto,
{
    if upto > 0 {
        lemma_row_points_if_zero(crow, prow, sel, upto - 1);
    }
}

/// A selector no cell's colour satisfies counts no points.
pub proof fn lemma_points_with_zero(
    colors: Seq<Vec<u64>>,
    cells: Seq<Vec<Vec<Point>>>,
    sel: spec_fn(u64) -> bool,
)
    requires
        forall|a: int, b: int|
            0 <= b < colors.len() && 0 <= a < colors[b]@.len()
                ==> !sel(#[trigger] color_at(colors, a, b)),
    ensures
        points_with(colors, cells, sel) == 0,
{
    lemma_grid_points_if_zero(colors, cells, sel, colors.len() as int);
}

proof fn lemma_grid_points_if_zero(
    colors: Seq<Vec<u64>>,
    cells: Seq<Vec<Vec<Point>>>,
    sel: spec_fn(u64) -> bool,
    upto: int,
)
    requires
        upto <= colors.len(),
        forall|a: int, b: int|
            0 <= b < colors.len() && 0 <= a < colors[b]@.len()
                ==> !sel(#[trigger] color_at(colors, a, b)),
    ensures
        grid_points_if(colors, cells, sel, upto) == 0,
    decreases upto,
{
    if upto > 0 {
        lemma_grid_points_if_zero(colors, cells, sel, upto - 1);
        assert forall|a: int| 0 <= a < colors[upto - 1]@.len() implies
            !sel(#[trigger] colors[upto - 1]@[a]) by {
            assert(!sel(color_at(colors, a, upto - 1)));
        }
        lemma_row_points_if_zero(colors[upto - 1]@, cells[upto - 1]@, sel, colors[upto - 1]@.len() as int);
    }
}

proof fn lemma_row_points_if_total(
    crow: Seq<u64>,
    prow: Seq<Vec<Point>>,
    sel: spec_fn(u64) -> bool,
    upto: int,
)
    requires
        0 <= upto <= crow.len(),
        crow.len() == prow.len(),
        forall|a: int|
            0 <= a < crow.len() && !sel(#[trigger] crow[a]) ==> prow[a]@.len() == 0,
    ensures
        row_points_if(crow, prow, sel, upto)
            == sum_by(prow.take(upto), |c: Vec<Point>| c@.len() as int),
    decreases upto,
{
    let f = |c: Vec<Point>| c@.len() as int;
    if upto <= 0 {
        assert(prow.take(upto).len() == 0);
    } else {
        lemma_row_points_if_total(crow, prow, sel, upto - 1);
        assert(prow.take(upto).drop_last() =~= prow.take(upto - 1));
        assert(prow.take(upto).last() == prow[upto - 1]);
    }
}

proof fn lemma_grid_points_if_total(
    colors: Seq<Vec<u64>>,
    cells: Seq<Vec<Vec<Point>>>,
    sel: spec_fn(u64) -> bool,
    upto: int,
)
    requires
        0 <= upto <= colors.len(),
        colors.len() == cells.len(),
        forall|b: int| 0 <= b < colors.len() ==> (#[trigger] colors[b])@.len() == cells[b]@.len(),
        forall|a: int, b: int|
            0 <= b < colors.len() && 0 <= a < colors[b]@.len()
                && !sel(#[trigger] color_at(colors, a, b)) ==> cell_seq(cells, a, b).len() == 0,
    ensures
        grid_points_if(colors, cells, sel, upto)
            == sum_by(cells.take(upto), |row: Vec<Vec<Point>>| crate::grid::row_points(row)),
    decreases upto,
{
    let g = |row: Vec<Vec<Point>>| crate::grid::row_points(row);
    if upto <= 0 {
        assert(cells.take(upto).len() == 0);
    } else {
        lemma_grid_points_if_total(colors, cells, sel, upto - 1);
        assert forall|a: int| 0 <= a < colors[upto - 1]@.len()
            && !sel(#[trigger] colors[upto - 1]@[a]) implies cells[upto - 1]@[a]@.len() == 0 by {
            assert(!sel(color_at(colors, a, upto - 1)));
            assert(cell_seq(cells, a, upto - 1).len() == 0);
        }
        lemma_row_points_if_total(
            colors[upto - 1]@,
            cells[upto - 1]@,
            sel,
            colors[upto - 1]@.len() as int,
        );
        assert(cells[upto - 1]@.take(cells[upto - 1]@.len() as int) =~= cells[upto - 1]@);
        assert(cells.take(upto).drop_last() =~= cells.take(upto - 1));
        assert(cells.take(upto).last() == cells[upto - 1]);
    }
}

/// When every cell the selector rejects is empty, the selective count
/// is the whole grid's point count.
pub proof fn lemma_points_with_total(
    colors: Seq<Vec<u64>>,
    cells: Seq<Vec<Vec<Point>>>,
    sel: spec_fn(u64) -> bool,
)
    requires
        colors.len() == cells.len(),
        forall|b: int| 0 <= b < colors.len() ==> (#[trigger] colors[b])@.len() == cells[b]@.len(),
        forall|a: int, b: int|
            0 <= b < colors.len() && 0 <= a < colors[b]@.len()
                && !sel(#[trigger] color_at(colors, a, b)) ==> cell_seq(cells, a, b).len() == 0,
    ensures
        points_with(colors, cells, sel) == total_points(cells),
{
    lemma_grid_points_if_total(colors, cells, sel, colors.len() as int);
    assert(cells.take(cells.len() as int) =~= cells);
}

proof fn lemma_row_points_if_le(
    crow: Seq<u64>,
    prow: Seq<Vec<Point>>,
    sel: spec_fn(u64) -> bool,
    upto: int,
)
    requires
        0 <= upto <= crow.len(),
        crow.len() == prow.len(),
    ensures
        0 <= row_points_if(crow, prow, sel, upto),
        row_points_if(crow, prow, sel, upto)
            <= sum_by(prow.take(upto), |c: Vec<Point>| c@.len() as int),
    decreases upto,
{
    if upto <= 0 {
        assert(prow.take(upto).len() == 0);
    } else {
        lemma_row_points_if_le(crow, prow, sel, upto - 1);
        assert(prow.take(upto).drop_last() =~= prow.take(upto - 1));
        assert(prow.take(upto).last() == prow[upto - 1]);
    }
}

proof fn lemma_grid_points_if_le(
    colors: Seq<Vec<u64>>,
    cells: Seq<Vec<Vec<Point>>>,
    sel: spec_fn(u64) -> bool,
    upto: int,
)
    requires
        0 <= upto <= colors.len(),
        colors.len() == cells.len(),
        forall|b: int| 0 <= b < colors.len() ==> (#[trigger] colors[b])@.len() == cells[b]@.len(),
    ensures
        0 <= grid_points_if(colors, cells, sel, upto),
        grid_points_if(colors, cells, sel, upto)
            <= sum_by(cells.take(upto), |row: Vec<Vec<Point>>| crate::grid::row_points(row)),
    decreases upto,
{
    if upto <= 0 {
        assert(cells.take(upto).len() == 0);
    } else {
        lemma_grid_points_if_le(colors, cells, sel, upto - 1);
        lemma_row_points_if_le(
            colors[upto - 1]@,
            cells[upto - 1]@,
            sel,
            colors[upto - 1]@.len() as int,
        );
        assert(cells[upto - 1]@.take(cells[upto - 1]@.len() as int) =~= cells[upto - 1]@);
        assert(cells.take(upto).drop_last() =~= cells.take(upto - 1));
        assert(cells.take(upto).last() == cells[upto - 1]);
    }
}

/// A selective point count never exceeds the whole grid's point count.
pub proof fn lemma_points_with_le_total(
    colors: Seq<Vec<u64>>,
    cells: Seq<Vec<Vec<Point>>>,
    sel: spec_fn(u64) -> bool,
)
    requires
        colors.len() == cells.len(),
        forall|b: int| 0 <= b < colors.len() ==> (#[trigger] colors[b])@.len() == cells[b]@.len(),
    ensures
        0 <= points_with(colors, cells, sel),
        points_with(colors, cells, sel) <= total_points(cells),
{
    lemma_grid_points_if_le(colors, cells, sel, colors.len() as int);
    assert(cells.take(cells.len() as int) =~= cells);
}

proof fn lemma_row_points_if_ge(
    crow: Seq<u64>,
    prow: Seq<Vec<Point>>,
    sel: spec_fn(u64) -> bool,
    upto: int,
    i: int,
)
    requires
        0 <= i < upto <= crow.len(),
        crow.len() == prow.len(),
        sel(crow[i]),
    ensures
        row_points_if(crow, prow, sel, upto) >= prow[i]@.len(),
    decreases upto,
{
    if i == upto - 1 {
        lemma_row_points_if_le(crow, prow, sel, upto - 1);
    } else {
        lemma_row_points_if_ge(crow, prow, sel, upto - 1, i);
    }
}

proof fn lemma_grid_points_if_ge(
    colors: Seq<Vec<u64>>,
    cells: Seq<Vec<Vec<Point>>>,
    sel: spec_fn(u64) -> bool,
    upto: int,
    i: int,
    j: int,
)
    requires
        0 <= j < upto <= colors.len(),
        colors.len() == cells.len(),
        forall|b: int| 0 <= b < colors.len() ==> (#[trigger] colors[b])@.len() == cells[b]@.len(),
        0 <= i < colors[j]@.len(),
        sel(color_at(colors, i, j)),
    ensures
        grid_points_if(colors, cells, sel, upto) >= cells[j]@[i]@.len(),
    decreases upto,
{
    if j == upto - 1 {
        lemma_grid_points_if_le(colors, cells, sel, upto - 1);
        lemma_row_points_if_ge(colors[j]@, cells[j]@, sel, colors[j]@.len() as int, i);
    } else {
        lemma_grid_points_if_ge(colors, cells, sel, upto - 1, i, j);
        lemma_row_points_if_le(
            colors[upto - 1]@, cells[upto - 1]@, sel, colors[upto - 1]@.len() as int,
        );
    }
}

/// A selective point count covers at least any one selected cell.
pub proof fn lemma_points_with_ge_cell(
    colors: Seq<Vec<u64>>,
    cells: Seq<Vec<Vec<Point>>>,
    sel: spec_fn(u64) -> bool,
    i: int,
    j: int,
)
    requires
        colors.len() == cells.len(),
        forall|b: int| 0 <= b < colors.len() ==> (#[trigger] colors[b])@.len() == cells[b]@.len(),
        0 <= j < colors.len(),
        0 <= i < colors[j]@.len(),
        sel(color_at(colors, i, j)),
    ensures
        points_with(colors, cells, sel) >= cells[j]@[i]@.len(),
{
    lemma_grid_points_if_ge(colors, cells, sel, colors.len() as int, i, j);
}

/// The selector of one cluster label.
pub open spec fn sel_label(l: u64) -> spec_fn(u64) -> bool {
    |c: u64| c == l
}

/// The selector of all cells that carry a cluster label.
pub open spec fn sel_colored() -> spec_fn(u64) -> bool {
    |c: u64| c != 0 && c != SENTINEL
}

/// The labeler's bookkeeping over grid `g`, the colour matrix, the size
/// table and the number `k` of labels minted so far: every colour is
/// `0`, the sentinel or a label up to `k`; the sentinel marks exactly
/// the empty cells; entry `l - 1` of the size table counts the points
/// of the cells labelled `l`; and the whole table sums to the points of
/// all labelled cells.
pub open spec fn label_tables(g: Grid, colors: Seq<Vec<u64>>, sizes: Seq<u64>, k: u64) -> bool {
    &&& wf_colors(colors, g.n as int)
    &&& forall|i: int, j: int| 0 <= i < g.n && 0 <= j < g.n ==>
            (#[trigger] color_at(colors, i, j) == 0
                || color_at(colors, i, j) == SENTINEL
                || 1 <= color_at(colors, i, j) <= k)
    &&& forall|i: int, j: int| 0 <= i < g.n && 0 <= j < g.n ==>
            ((#[trigger] color_at(colors, i, j) == SENTINEL) <==> g.at(i, j).len() == 0)
    &&& sizes.len() == k
    &&& forall|l: u64| 1 <= l <= k ==> sizes[l - 1] as int
            == points_with(colors, g.cells@, #[trigger] sel_label(l))
    &&& sum_by(sizes, |x: u64| x as int) == points_with(colors, g.cells@, sel_colored())
}

/// Some cell carries the label `l`.
pub open spec fn has_label(g: Grid, colors: Seq<Vec<u64>>, l: u64) -> bool {
    exists|i: int, j: int|
        0 <= i < g.n && 0 <= j < g.n && #[trigger] color_at(colors, i, j) == l
}

/// Every label minted so far sits on at least one cell.
pub open spec fn labels_inhabited(g: Grid, colors: Seq<Vec<u64>>, k: u64) -> bool {
    forall|l: u64| 1 <= l <= k ==> #[trigger] has_label(g, colors, l)
}

/// The labeler's full state invariant: the bookkeeping above, together
/// with the bound that at least `k` cells are already coloured, and no
/// label left without a cell.
pub open spec fn label_state(g: Grid, colors: Seq<Vec<u64>>, sizes: Seq<u64>, k: u64) -> bool {
    &&& label_tables(g, colors, sizes, k)
    &&& k as int <= (g.n as int) * (g.n as int) - uncolored(colors)
    &&& labels_inhabited(g, colors, k)
}

/// Colours the uncoloured, non-empty cell `(i, j)` with the existing
/// label `lab` and adds the cell's point count to that label's size.
fn color_cell(g: &Grid, colors: &mut Vec<Vec<u64>>, sizes: &mut Vec<u64>, lab: u64, i: usize, j: usize)
    requires
        g.wf(),
        total_points(g.cells@) <= u64::MAX,
        label_tables(*g, old(colors)@, old(sizes)@, old(sizes)@.len() as u64),
        old(sizes)@.len() as int
            <= (g.n as int) * (g.n as int) - uncolored(old(colors)@) + 1,
        1 <= lab <= old(sizes)@.len(),
        forall|l: u64| 1 <= l <= old(sizes)@.len() && l != lab
            ==> #[trigger] has_label(*g, old(colors)@, l),
        i < g.n,
        j < g.n,
        color_at(old(colors)@, i as int, j as int) == 0,
    ensures
        label_state(*g, final(colors)@, final(sizes)@, old(sizes)@.len() as u64),
        final(sizes)@.len() == old(sizes)@.len(),
        color_at(final(colors)@, i as int, j as int) == lab,
        forall|a: int, b: int|
            0 <= a < g.n && 0 <= b < g.n && !(a == i as int && b == j as int) ==>
            #[trigger] color_at(final(colors)@, a, b) == color_at(old(colors)@, a, b),
        uncolored(final(colors)@) == uncolored(old(colors)@) - 1,
{
    let ghost k = old(sizes)@.len() as u64;
    let ghost old_colors = colors@;
    proof {
        lemma_uncolored_bounds(old_colors, g.n as int);
        assert((g.n as int) * (g.n as int) + 1 < SENTINEL) by (nonlinear_arith)
            requires 1 <= g.n as int <= SCALE as int,
        ;
        assert(lab < SENTINEL);
    }
    colors[j][i] = lab;
    let ghost new_colors = colors@;
    proof {
        let ii = i as int;
        let jj = j as int;
        assert(new_colors == old_colors.update(jj, new_colors[jj]));
        assert(new_colors[jj]@ == old_colors[jj]@.update(ii, lab));
        lemma_uncolored_update(old_colors, ii, jj, lab, new_colors[jj]);
    }
    let cnt: u64 = g.cells[j][i].len() as u64;
    let n_labels: usize = sizes.len();
    proof {
        assert(lab - 1 < n_labels as u64);
    }
    let idx: usize = (lab - 1) as usize;
    let cur: u64 = sizes[idx];
    proof {
        let ii = i as int;
        let jj = j as int;
        let cells = g.cells@;
        assert(cnt as int == g.at(ii, jj).len());
        assert forall|l: u64| 1 <= l <= k implies
            points_with(new_colors, cells, #[trigger] sel_label(l))
                == points_with(old_colors, cells, sel_label(l))
                + if l == lab { cnt as int } else { 0 } by {
            lemma_points_with_update(old_colors, cells, sel_label(l), ii, jj, lab, new_colors[jj]);
            assert(!sel_label(l)(0u64));
            assert(sel_label(l)(lab) == (l == lab));
        }
        lemma_points_with_update(old_colors, cells, sel_colored(), ii, jj, lab, new_colors[jj]);
        assert(sel_colored()(lab));
        assert(!sel_colored()(0u64));
        lemma_points_with_le_total(new_colors, cells, sel_label(lab));
        assert(idx == lab - 1);
        assert(cur as int == points_with(old_colors, cells, sel_label(lab)));
        assert(cur as int + cnt as int == points_with(new_colors, cells, sel_label(lab)));
    }
    sizes[idx] = cur + cnt;
    proof {
        let ii = i as int;
        let jj = j as int;
        let cells = g.cells@;
        assert(sizes@ == old(sizes)@.update(idx as int, (cur + cnt) as u64));
        crate::grid::lemma_sum_by_update(old(sizes)@, idx as int, (cur + cnt) as u64, |x: u64| x as int);
        assert forall|l: u64| 1 <= l <= k implies sizes@[l - 1] as int
            == points_with(new_colors, cells, #[trigger] sel_label(l)) by {
            if l != lab {
                assert(sizes@[l - 1] == old(sizes)@[l - 1]);
            }
        }
        assert forall|a: int, b: int| 0 <= a < g.n && 0 <= b < g.n implies
            (#[trigger] color_at(new_colors, a, b) == 0
                || color_at(new_colors, a, b) == SENTINEL
                || 1 <= color_at(new_colors, a, b) <= k) by {
            if !(a == ii && b == jj) {
                assert(color_at(new_colors, a, b) == color_at(old_colors, a, b));
            }
        }
        assert forall|a: int, b: int| 0 <= a < g.n && 0 <= b < g.n implies
            ((#[trigger] color_at(new_colors, a, b) == SENTINEL) <==> g.at(a, b).len() == 0) by {
            if a == ii && b == jj {
                assert(color_at(old_colors, a, b) == 0);
                assert(g.at(a, b).len() != 0);
                assert(lab != SENTINEL);
            } else {
                assert(color_at(new_colors, a, b) == color_at(old_colors, a, b));
            }
        }
        assert forall|l: u64| 1 <= l <= k implies #[trigger] has_label(*g, new_colors, l) by {
            if l == lab {
                assert(color_at(new_colors, ii, jj) == l);
            } else {
                assert(has_label(*g, old_colors, l));
                let (a0, b0) = choose|a0: int, b0: int|
                    0 <= a0 < g.n && 0 <= b0 < g.n && color_at(old_colors, a0, b0) == l;
                assert(!(a0 == ii && b0 == jj));
                assert(color_at(new_colors, a0, b0) == l);
            }
        }
    }
}

/// Opens a new cluster at the uncoloured cell `(i, j)`: mints the next
/// label, starts its size at the cell's point count, and colours the
/// cell.  Afterwards one more label exists and the cell carries it.
fn start_cluster(g: &Grid, colors: &mut Vec<Vec<u64>>, sizes: &mut Vec<u64>, i: usize, j: usize) -> (lab: u64)
    requires
        g.wf(),
        total_points(g.cells@) <= u64::MAX,
        label_state(*g, old(colors)@, old(sizes)@, old(sizes)@.len() as u64),
        i < g.n,
        j < g.n,
        color_at(old(colors)@, i as int, j as int) == 0,
    ensures
        lab as int == old(sizes)@.len() + 1,
        final(sizes)@.len() == old(sizes)@.len() + 1,
        label_state(*g, final(colors)@, final(sizes)@, final(sizes)@.len() as u64),
        color_at(final(colors)@, i as int, j as int) == lab,
        forall|a: int, b: int|
            0 <= a < g.n && 0 <= b < g.n && !(a == i as int && b == j as int) ==>
            #[trigger] color_at(final(colors)@, a, b) == color_at(old(colors)@, a, b),
{
    let ghost k = old(sizes)@.len() as u64;
    proof {
        lemma_uncolored_bounds(colors@, g.n as int);
        assert((g.n as int) * (g.n as int) <= (SCALE as int) * (SCALE as int)) by (nonlinear_arith)
            requires 1 <= g.n as int <= SCALE as int,
        ;
    }
    let lab: u64 = sizes.len() as u64 + 1;
    sizes.push(0);
    proof {
        let cells = g.cells@;
        assert(sizes@.drop_last() =~= old(sizes)@);
        assert(sum_by(sizes@, |x: u64| x as int) == sum_by(old(sizes)@, |x: u64| x as int));
        assert forall|a: int, b: int|
            0 <= b < colors@.len() && 0 <= a < colors@[b]@.len() implies
            !(sel_label(lab)(#[trigger] color_at(colors@, a, b))) by {
            assert(color_at(colors@, a, b) == 0
                || color_at(colors@, a, b) == SENTINEL
                || 1 <= color_at(colors@, a, b) <= k);
        }
        lemma_points_with_zero(colors@, cells, sel_label(lab));
        assert forall|l: u64| 1 <= l <= lab implies sizes@[l - 1] as int
            == points_with(colors@, cells, #[trigger] sel_label(l)) by {
            if l <= k {
                assert(sizes@[l - 1] == old(sizes)@[l - 1]);
            } else {
                assert(l == lab);
                assert(sizes@[l - 1] == 0);
            }
        }
        assert(label_tables(*g, colors@, sizes@, lab));
    }
    color_cell(g, colors, sizes, lab, i, j);
    lab
}

/// The cell `(i, j)` is on the work list.
pub open spec fn on_stack(st: Seq<(usize, usize)>, i: int, j: int) -> bool {
    exists|t: int| 0 <= t < st.len() && st[t].0 == i && st[t].1 == j
}

/// Every coloured cell off the work list already agrees with all its
/// linked neighbours: the flood fill's central invariant.
pub open spec fn settled_except(
    g: Grid,
    r: u64,
    colors: Seq<Vec<u64>>,
    st: Seq<(usize, usize)>,
) -> bool {
    forall|i1: int, j1: int, i2: int, j2: int|
        #[trigger] linked(g, r, i1, j1, i2, j2) && color_at(colors, i1, j1) != 0
            && !on_stack(st, i1, j1) ==> color_at(colors, i2, j2) == color_at(colors, i1, j1)
}

/// Every pair of linked cells carries one colour: once the labeler is
/// done, cells joined by the link relation lie in one cluster.
pub open spec fn settled(g: Grid, r: u64, colors: Seq<Vec<u64>>) -> bool {
    settled_except(g, r, colors, Seq::empty())
}

/// The offsets the neighbour scan has already covered, at scan
/// position `(dx, dy)` of the 5 by 5 block.
pub open spec fn scanned_before(ox: int, oy: int, dx: int, dy: int) -> bool {
    ox + 2 < dx || (ox + 2 == dx && oy + 2 < dy)
}

/// Flood-fills outward from the already coloured cell `(i0, j0)`:
/// walks the scanned neighbourhood of each work-list cell and gives the
/// same label to every uncoloured neighbour holding a point within the
/// radius of the current cell.  An explicit work list replaces
/// unbounded recursion, so a large grid cannot exhaust the call stack.
/// On return every pair of linked cells agrees on its colour.
#[verifier::rlimit(60)]
fn flood(
    g: &Grid,
    r: u64,
    colors: &mut Vec<Vec<u64>>,
    sizes: &mut Vec<u64>,
    lab: u64,
    i0: usize,
    j0: usize,
)
    requires
        g.wf(),
        g.all_ok(),
        r <= RADIUS_MAX,
        total_points(g.cells@) <= u64::MAX,
        label_state(*g, old(colors)@, old(sizes)@, old(sizes)@.len() as u64),
        1 <= lab <= old(sizes)@.len(),
        i0 < g.n,
        j0 < g.n,
        color_at(old(colors)@, i0 as int, j0 as int) == lab,
        settled_except(*g, r, old(colors)@, seq![(i0, j0)]),
        forall|a: int, b: int| 0 <= a < g.n && 0 <= b < g.n
            && #[trigger] color_at(old(colors)@, a, b) == lab ==> a == i0 && b == j0,
    ensures
        label_state(*g, final(colors)@, final(sizes)@, old(sizes)@.len() as u64),
        final(sizes)@.len() == old(sizes)@.len(),
        forall|a: int, b: int|
            0 <= a < g.n && 0 <= b < g.n && color_at(old(colors)@, a, b) != 0 ==>
            #[trigger] color_at(final(colors)@, a, b) == color_at(old(colors)@, a, b),
        settled(*g, r, final(colors)@),
        forall|a: int, b: int| 0 <= a < g.n && 0 <= b < g.n ==>
            #[trigger] color_at(final(colors)@, a, b) == color_at(old(colors)@, a, b)
                || color_at(final(colors)@, a, b) == lab,
        forall|a: int, b: int| 0 <= a < g.n && 0 <= b < g.n
            && #[trigger] color_at(final(colors)@, a, b) == lab
            ==> path_connected(*g, r, i0 as int, j0 as int, a, b),
{
    let mut stack: Vec<(usize, usize)> = Vec::new();
    stack.push((i0, j0));
    proof {
        assert(stack@ =~= seq![(i0, j0)]);
        lemma_path_refl(*g, r, i0 as int, j0 as int);
    }
    while stack.len() > 0
        invariant
            g.wf(),
            g.all_ok(),
            r <= RADIUS_MAX,
            total_points(g.cells@) <= u64::MAX,
            1 <= lab <= sizes@.len(),
            sizes@.len() == old(sizes)@.len(),
            label_state(*g, colors@, sizes@, sizes@.len() as u64),
            forall|t: int| 0 <= t < stack@.len() ==>
                (#[trigger] stack@[t]).0 < g.n && stack@[t].1 < g.n
                    && color_at(colors@, stack@[t].0 as int, stack@[t].1 as int) == lab,
            forall|a: int, b: int|
                0 <= a < g.n && 0 <= b < g.n && color_at(old(colors)@, a, b) != 0 ==>
                #[trigger] color_at(colors@, a, b) == color_at(old(colors)@, a, b),
            forall|a: int, b: int| 0 <= a < g.n && 0 <= b < g.n ==>
                #[trigger] color_at(colors@, a, b) == color_at(old(colors)@, a, b)
                    || color_at(colors@, a, b) == lab,
            forall|a: int, b: int| 0 <= a < g.n && 0 <= b < g.n
                && #[trigger] color_at(colors@, a, b) == lab
                ==> path_connected(*g, r, i0 as int, j0 as int, a, b),
            settled_except(*g, r, colors@, stack@),
        decreases uncolored(colors@), stack@.len(),
    {
        let ghost pre_pop = stack@;
        let top: (usize, usize) = stack.pop().unwrap();
        let ci: usize = top.0;
        let cj: usize = top.1;
        proof {
            assert(pre_pop == stack@.push(top));
        }
        let ghost u_pop = uncolored(colors@);
        let ghost s_pop = stack@.len();
        let mut dx: usize = 0;
        while dx < 5
            invariant
                g.wf(),
                g.all_ok(),
                r <= RADIUS_MAX,
                total_points(g.cells@) <= u64::MAX,
                1 <= lab <= sizes@.len(),
                sizes@.len() == old(sizes)@.len(),
                label_state(*g, colors@, sizes@, sizes@.len() as u64),
                ci < g.n,
                cj < g.n,
                dx <= 5,
                color_at(colors@, ci as int, cj as int) == lab,
                forall|t: int| 0 <= t < stack@.len() ==>
                    (#[trigger] stack@[t]).0 < g.n && stack@[t].1 < g.n
                        && color_at(colors@, stack@[t].0 as int, stack@[t].1 as int) == lab,
                forall|a: int, b: int|
                    0 <= a < g.n && 0 <= b < g.n && color_at(old(colors)@, a, b) != 0 ==>
                    #[trigger] color_at(colors@, a, b) == color_at(old(colors)@, a, b),
                forall|a: int, b: int| 0 <= a < g.n && 0 <= b < g.n ==>
                    #[trigger] color_at(colors@, a, b) == color_at(old(colors)@, a, b)
                        || color_at(colors@, a, b) == lab,
                forall|a: int, b: int| 0 <= a < g.n && 0 <= b < g.n
                    && #[trigger] color_at(colors@, a, b) == lab
                    ==> path_connected(*g, r, i0 as int, j0 as int, a, b),
                settled_except(*g, r, colors@, stack@.push((ci, cj))),
                forall|a2: int, b2: int|
                    #[trigger] linked(*g, r, ci as int, cj as int, a2, b2)
                        && scanned_before(a2 - ci, b2 - cj, dx as int, 0)
                        ==> color_at(colors@, a2, b2) == lab,
                uncolored(colors@) <= u_pop,
                uncolored(colors@) + stack@.len() <= u_pop + s_pop,
            decreases 5 - dx,
        {
            let mut dy: usize = 0;
            while dy < 5
                invariant
                    g.wf(),
                    g.all_ok(),
                    r <= RADIUS_MAX,
                    total_points(g.cells@) <= u64::MAX,
                    1 <= lab <= sizes@.len(),
                    sizes@.len() == old(sizes)@.len(),
                    label_state(*g, colors@, sizes@, sizes@.len() as u64),
                    ci < g.n,
                    cj < g.n,
                    dx < 5,
                    dy <= 5,
                    color_at(colors@, ci as int, cj as int) == lab,
                    forall|t: int| 0 <= t < stack@.len() ==>
                        (#[trigger] stack@[t]).0 < g.n && stack@[t].1 < g.n
                            && color_at(colors@, stack@[t].0 as int, stack@[t].1 as int) == lab,
                    forall|a: int, b: int|
                        0 <= a < g.n && 0 <= b < g.n && color_at(old(colors)@, a, b) != 0 ==>
                        #[trigger] color_at(colors@, a, b) == color_at(old(colors)@, a, b),
                    forall|a: int, b: int| 0 <= a < g.n && 0 <= b < g.n ==>
                        #[trigger] color_at(colors@, a, b) == color_at(old(colors)@, a, b)
                            || color_at(colors@, a, b) == lab,
                    forall|a: int, b: int| 0 <= a < g.n && 0 <= b < g.n
                        && #[trigger] color_at(colors@, a, b) == lab
                        ==> path_connected(*g, r, i0 as int, j0 as int, a, b),
                    settled_except(*g, r, colors@, stack@.push((ci, cj))),
                    forall|a2: int, b2: int|
                        #[trigger] linked(*g, r, ci as int, cj as int, a2, b2)
                            && scanned_before(a2 - ci, b2 - cj, dx as int, dy as int)
                            ==> color_at(colors@, a2, b2) == lab,
                    uncolored(colors@) <= u_pop,
                    uncolored(colors@) + stack@.len() <= u_pop + s_pop,
                decreases 5 - dy,
            {
                let offx: i64 = dx as i64 - 2;
                let offy: i64 = dy as i64 - 2;
                let ax: i64 = if offx < 0 { -offx } else { offx };
                let ay: i64 = if offy < 0 { -offy } else { offy };
                if !(ax + ay == 4 || (ax == 0 && ay == 0)) {
                    let ni64: i64 = ci as i64 + offx;
                    let nj64: i64 = cj as i64 + offy;
                    let n64: i64 = g.n as i64;
                    if 0 <= ni64 && ni64 < n64 && 0 <= nj64 && nj64 < n64 {
                        let ni: usize = ni64 as usize;
                        let nj: usize = nj64 as usize;
                        let c: u64 = colors[nj][ni];
                        if c == 0 {
                            proof {
                                assert forall|t: int|
                                    0 <= t < g.cells@[cj as int]@[ci as int]@.len() implies
                                    point_ok(#[trigger] g.cells@[cj as int]@[ci as int]@[t]) by {
                                    assert(g.at(ci as int, cj as int)[t]
                                        == g.cells@[cj as int]@[ci as int]@[t]);
                                }
                                assert forall|t: int|
                                    0 <= t < g.cells@[nj as int]@[ni as int]@.len() implies
                                    point_ok(#[trigger] g.cells@[nj as int]@[ni as int]@[t]) by {
                                    assert(g.at(ni as int, nj as int)[t]
                                        == g.cells@[nj as int]@[ni as int]@[t]);
                                }
                            }
                            if cells_connected(&g.cells[cj][ci], &g.cells[nj][ni], r) {
                                let ghost prev_colors = colors@;
                                let ghost prev_stack = stack@;
                                color_cell(g, colors, sizes, lab, ni, nj);
                                stack.push((ni, nj));
                                proof {
                                    assert(stack@ == prev_stack.push((ni, nj)));
                                    // the fresh cell is reached through the popped cell
                                    assert(valid_offset(ni as int - ci, nj as int - cj));
                                    assert(cells_close(
                                        g.at(ci as int, cj as int),
                                        g.at(ni as int, nj as int),
                                        r,
                                    ));
                                    assert(linked(*g, r, ci as int, cj as int, ni as int, nj as int));
                                    let hop = seq![(ci as int, cj as int), (ni as int, nj as int)];
                                    assert(is_cell_path(*g, r, hop));
                                    assert(hop.last() == (ni as int, nj as int));
                                    assert(path_connected(*g, r, ci as int, cj as int, ni as int, nj as int));
                                    assert(path_connected(*g, r, i0 as int, j0 as int, ci as int, cj as int));
                                    lemma_path_trans(*g, r, i0 as int, j0 as int, ci as int, cj as int, ni as int, nj as int);
                                    assert forall|a: int, b: int| 0 <= a < g.n && 0 <= b < g.n
                                        && #[trigger] color_at(colors@, a, b) == lab implies
                                        path_connected(*g, r, i0 as int, j0 as int, a, b) by {
                                        if !(a == ni as int && b == nj as int) {
                                            assert(color_at(colors@, a, b) == color_at(prev_colors, a, b));
                                        }
                                    }
                                    assert forall|a: int, b: int| 0 <= a < g.n && 0 <= b < g.n implies
                                        #[trigger] color_at(colors@, a, b) == color_at(old(colors)@, a, b)
                                            || color_at(colors@, a, b) == lab by {
                                        if !(a == ni as int && b == nj as int) {
                                            assert(color_at(colors@, a, b) == color_at(prev_colors, a, b));
                                        }
                                    }
                                    assert forall|a: int, b: int|
                                        0 <= a < g.n && 0 <= b < g.n
                                            && color_at(old(colors)@, a, b) != 0 implies
                                        #[trigger] color_at(colors@, a, b)
                                            == color_at(old(colors)@, a, b) by {
                                        if a == ni as int && b == nj as int {
                                            assert(color_at(prev_colors, a, b) == 0);
                                        } else {
                                            assert(color_at(colors@, a, b)
                                                == color_at(prev_colors, a, b));
                                        }
                                    }
                                    // the freshly coloured cell joins the work list, so the
                                    // settling invariant survives the recolouring
                                    assert forall|i1: int, j1: int, i2: int, j2: int|
                                        #[trigger] linked(*g, r, i1, j1, i2, j2)
                                            && color_at(colors@, i1, j1) != 0
                                            && !on_stack(stack@.push((ci, cj)), i1, j1) implies
                                        color_at(colors@, i2, j2) == color_at(colors@, i1, j1) by {
                                        if i1 == ni as int && j1 == nj as int {
                                            assert(stack@.push((ci, cj))[prev_stack.len() as int]
                                                == (ni, nj));
                                            assert(on_stack(stack@.push((ci, cj)), i1, j1));
                                        } else {
                                            assert(color_at(colors@, i1, j1)
                                                == color_at(prev_colors, i1, j1));
                                            assert(!on_stack(prev_stack.push((ci, cj)), i1, j1))
                                                by {
                                                if on_stack(prev_stack.push((ci, cj)), i1, j1) {
                                                    let t = choose|t: int|
                                                        0 <= t < prev_stack.push((ci, cj)).len()
                                                            && prev_stack.push((ci, cj))[t].0 == i1
                                                            && prev_stack.push((ci, cj))[t].1 == j1;
                                                    if t < prev_stack.len() {
                                                        assert(stack@.push((ci, cj))[t].0 == i1);
                                                        assert(on_stack(stack@.push((ci, cj)), i1, j1));
                                                    } else {
                                                        assert(stack@.push((ci, cj))[
                                                            prev_stack.len() as int + 1] == (ci, cj));
                                                        assert(on_stack(stack@.push((ci, cj)), i1, j1));
                                                    }
                                                }
                                            }
                                            if i2 == ni as int && j2 == nj as int {
                                                assert(color_at(prev_colors, i2, j2) == 0);
                                                assert(color_at(prev_colors, i2, j2)
                                                    == color_at(prev_colors, i1, j1));
                                                assert(false);
                                            } else {
                                                assert(color_at(colors@, i2, j2)
                                                    == color_at(prev_colors, i2, j2));
                                            }
                                        }
                                    }
                                    // facts about already scanned offsets survive too
                                    assert forall|a2: int, b2: int|
                                        #[trigger] linked(*g, r, ci as int, cj as int, a2, b2)
                                            && scanned_before(a2 - ci, b2 - cj, dx as int, dy + 1)
                                            ==> color_at(colors@, a2, b2) == lab by {
                                        if linked(*g, r, ci as int, cj as int, a2, b2)
                                            && scanned_before(a2 - ci, b2 - cj, dx as int, dy + 1) {
                                            if a2 == ni as int && b2 == nj as int {
                                                assert(color_at(colors@, a2, b2) == lab);
                                            } else {
                                                assert(color_at(colors@, a2, b2)
                                                    == color_at(prev_colors, a2, b2));
                                                assert(scanned_before(a2 - ci, b2 - cj,
                                                    dx as int, dy as int));
                                            }
                                        }
                                    }
                                }
                            } else {
                                proof {
                                    // no pair of points joins the two cells: they are not linked
                                    assert(!cells_close(
                                        g.at(ci as int, cj as int),
                                        g.at(ni as int, nj as int),
                                        r,
                                    ));
                                    assert forall|a2: int, b2: int|
                                        #[trigger] linked(*g, r, ci as int, cj as int, a2, b2)
                                            && scanned_before(a2 - ci, b2 - cj, dx as int, dy + 1)
                                            ==> color_at(colors@, a2, b2) == lab by {
                                        if linked(*g, r, ci as int, cj as int, a2, b2)
                                            && !scanned_before(a2 - ci, b2 - cj, dx as int, dy as int) {
                                            assert(!(a2 == ni as int && b2 == nj as int));
                                        }
                                    }
                                }
                            }
                        } else {
                            proof {
                                // an already coloured neighbour carries this very label
                                assert forall|a2: int, b2: int|
                                    #[trigger] linked(*g, r, ci as int, cj as int, a2, b2)
                                        && scanned_before(a2 - ci, b2 - cj, dx as int, dy + 1)
                                        ==> color_at(colors@, a2, b2) == lab by {
                                    if linked(*g, r, ci as int, cj as int, a2, b2)
                                        && !scanned_before(a2 - ci, b2 - cj, dx as int, dy as int)
                                        && a2 == ni as int && b2 == nj as int {
                                        lemma_linked_sym(*g, r, ci as int, cj as int, a2, b2);
                                        if on_stack(stack@.push((ci, cj)), a2, b2) {
                                            let t = choose|t: int|
                                                0 <= t < stack@.push((ci, cj)).len()
                                                    && stack@.push((ci, cj))[t].0 == a2
                                                    && stack@.push((ci, cj))[t].1 == b2;
                                            if t < stack@.len() {
                                                assert(color_at(colors@, a2, b2) == lab);
                                            } else {
                                                assert(a2 == ci as int && b2 == cj as int);
                                            }
                                        } else {
                                            assert(color_at(colors@, ci as int, cj as int)
                                                == color_at(colors@, a2, b2));
                                        }
                                    }
                                }
                            }
                        }
                    } else {
                        proof {
                            assert forall|a2: int, b2: int|
                                #[trigger] linked(*g, r, ci as int, cj as int, a2, b2)
                                    && scanned_before(a2 - ci, b2 - cj, dx as int, dy + 1)
                                    ==> color_at(colors@, a2, b2) == lab by {
                                if linked(*g, r, ci as int, cj as int, a2, b2)
                                    && !scanned_before(a2 - ci, b2 - cj, dx as int, dy as int) {
                                    assert(0 <= a2 < g.n && 0 <= b2 < g.n);
                                    assert(!(a2 - ci == offx && b2 - cj == offy));
                                }
                            }
                        }
                    }
                } else {
                    proof {
                        assert forall|a2: int, b2: int|
                            #[trigger] linked(*g, r, ci as int, cj as int, a2, b2)
                                && scanned_before(a2 - ci, b2 - cj, dx as int, dy + 1)
                                ==> color_at(colors@, a2, b2) == lab by {
                            if linked(*g, r, ci as int, cj as int, a2, b2)
                                && scanned_before(a2 - ci, b2 - cj, dx as int, dy + 1)
                                && !scanned_before(a2 - ci, b2 - cj, dx as int, dy as int) {
                                assert(a2 - ci == offx && b2 - cj == offy);
                                assert(valid_offset(a2 - ci, b2 - cj));
                                assert(false);
                            }
                        }
                    }
                }
                dy += 1;
            }
            proof {
                assert forall|a2: int, b2: int|
                    #[trigger] linked(*g, r, ci as int, cj as int, a2, b2)
                        && scanned_before(a2 - ci, b2 - cj, dx + 1, 0)
                        ==> color_at(colors@, a2, b2) == lab by {
                    if linked(*g, r, ci as int, cj as int, a2, b2)
                        && scanned_before(a2 - ci, b2 - cj, dx + 1, 0) {
                        assert(valid_offset(a2 - ci, b2 - cj));
                        assert(scanned_before(a2 - ci, b2 - cj, dx as int, 5));
                    }
                }
            }
            dx += 1;
        }
        proof {
            lemma_uncolored_bounds(colors@, g.n as int);
            // the popped cell has had its whole neighbourhood scanned
            assert forall|i1: int, j1: int, i2: int, j2: int|
                #[trigger] linked(*g, r, i1, j1, i2, j2) && color_at(colors@, i1, j1) != 0
                    && !on_stack(stack@, i1, j1) implies
                color_at(colors@, i2, j2) == color_at(colors@, i1, j1) by {
                if i1 == ci as int && j1 == cj as int {
                    assert(valid_offset(i2 - i1, j2 - j1));
                    assert(scanned_before(i2 - ci, j2 - cj, 5, 0));
                } else {
                    assert(!on_stack(stack@.push((ci, cj)), i1, j1)) by {
                        if on_stack(stack@.push((ci, cj)), i1, j1) {
                            let t = choose|t: int|
                                0 <= t < stack@.push((ci, cj)).len()
                                    && stack@.push((ci, cj))[t].0 == i1
                                    && stack@.push((ci, cj))[t].1 == j1;
                            if t < stack@.len() {
                                assert(on_stack(stack@, i1, j1));
                            }
                        }
                    }
                }
            }
        }
    }
    proof {
        assert(settled_except(*g, r, colors@, Seq::empty()));
    }
}

/// A path of cells, each linked to the next.
pub open spec fn is_cell_path(g: Grid, r: u64, path: Seq<(int, int)>) -> bool {
    &&& path.len() >= 1
    &&& forall|k: int| 0 <= k < path.len() - 1 ==> linked(
            g, r, (#[trigger] path[k]).0, path[k].1, path[k + 1].0, path[k + 1].1,
        )
}

/// In a settled colouring, cells joined by a path of links all carry
/// one colour: a cluster label covers a whole linked component.
pub proof fn lemma_path_one_color(g: Grid, r: u64, colors: Seq<Vec<u64>>, path: Seq<(int, int)>)
    requires
        wf_colors(colors, g.n as int),
        settled(g, r, colors),
        is_cell_path(g, r, path),
        forall|i: int, j: int| 0 <= i < g.n && 0 <= j < g.n ==>
            #[trigger] color_at(colors, i, j) != 0,
        0 <= path[0].0 < g.n,
        0 <= path[0].1 < g.n,
    ensures
        color_at(colors, path.last().0, path.last().1) == color_at(colors, path[0].0, path[0].1),
    decreases path.len(),
{
    if path.len() > 1 {
        assert(linked(g, r, path[0].0, path[0].1, path[1].0, path[1].1));
        assert(!on_stack(Seq::empty(), path[0].0, path[0].1));
        assert(color_at(colors, path[1].0, path[1].1) == color_at(colors, path[0].0, path[0].1));
        let rest = path.drop_first();
        assert forall|k: int| 0 <= k < rest.len() - 1 implies linked(
            g, r, (#[trigger] rest[k]).0, rest[k].1, rest[k + 1].0, rest[k + 1].1,
        ) by {
            assert(rest[k] == path[k + 1]);
            assert(rest[k + 1] == path[k + 2]);
        }
        lemma_path_one_color(g, r, colors, rest);
        assert(rest.last() == path.last());
    }
}

/// Two cells are joined by some path of links.
pub open spec fn path_connected(g: Grid, r: u64, i1: int, j1: int, i2: int, j2: int) -> bool {
    exists|path: Seq<(int, int)>|
        is_cell_path(g, r, path) && path[0] == (i1, j1) && path.last() == (i2, j2)
}

/// A cell is joined to itself by the one-cell path.
pub proof fn lemma_path_refl(g: Grid, r: u64, i: int, j: int)
    ensures
        path_connected(g, r, i, j, i, j),
{
    let path = seq![(i, j)];
    assert(is_cell_path(g, r, path));
    assert(path.last() == (i, j));
}

/// Paths of links run both ways, since the link relation is symmetric.
pub proof fn lemma_path_sym(g: Grid, r: u64, i1: int, j1: int, i2: int, j2: int)
    requires
        path_connected(g, r, i1, j1, i2, j2),
    ensures
        path_connected(g, r, i2, j2, i1, j1),
{
    let path = choose|path: Seq<(int, int)>|
        is_cell_path(g, r, path) && path[0] == (i1, j1) && path.last() == (i2, j2);
    let rev = path.reverse();
    assert(rev.len() == path.len());
    assert forall|k: int| 0 <= k < rev.len() - 1 implies linked(
        g, r, (#[trigger] rev[k]).0, rev[k].1, rev[k + 1].0, rev[k + 1].1,
    ) by {
        let m = path.len() - 1 - k;
        assert(rev[k] == path[m]);
        assert(rev[k + 1] == path[m - 1]);
        assert(linked(g, r, path[m - 1].0, path[m - 1].1, path[m].0, path[m].1));
        lemma_linked_sym(g, r, path[m - 1].0, path[m - 1].1, path[m].0, path[m].1);
    }
    assert(is_cell_path(g, r, rev));
    assert(rev[0] == path.last());
    assert(rev.last() == path[0]);
}

/// Paths of links chain end to end.
pub proof fn lemma_path_trans(
    g: Grid,
    r: u64,
    i1: int,
    j1: int,
    i2: int,
    j2: int,
    i3: int,
    j3: int,
)
    requires
        path_connected(g, r, i1, j1, i2, j2),
        path_connected(g, r, i2, j2, i3, j3),
    ensures
        path_connected(g, r, i1, j1, i3, j3),
{
    let p1 = choose|path: Seq<(int, int)>|
        is_cell_path(g, r, path) && path[0] == (i1, j1) && path.last() == (i2, j2);
    let p2 = choose|path: Seq<(int, int)>|
        is_cell_path(g, r, path) && path[0] == (i2, j2) && path.last() == (i3, j3);
    if p2.len() == 1 {
        assert(p1.last() == p2[0]);
        assert(p1.last() == (i3, j3));
    } else {
        let joined = p1 + p2.drop_first();
        assert(joined.len() == p1.len() + p2.len() - 1);
        assert forall|k: int| 0 <= k < joined.len() - 1 implies linked(
            g, r, (#[trigger] joined[k]).0, joined[k].1, joined[k + 1].0, joined[k + 1].1,
        ) by {
            if k < p1.len() - 1 {
                assert(joined[k] == p1[k]);
                assert(joined[k + 1] == p1[k + 1]);
            } else if k == p1.len() - 1 {
                assert(joined[k] == p1[k]);
                assert(p1[k] == p2[0]);
                assert(joined[k + 1] == p2.drop_first()[0]);
                assert(p2.drop_first()[0] == p2[1]);
                assert(linked(g, r, p2[0].0, p2[0].1, p2[1].0, p2[1].1));
            } else {
                let m = k - p1.len();
                assert(joined[k] == p2.drop_first()[m]);
                assert(joined[k + 1] == p2.drop_first()[m + 1]);
                assert(p2.drop_first()[m] == p2[m + 1]);
                assert(p2.drop_first()[m + 1] == p2[m + 2]);
                assert(linked(g, r, p2[m + 1].0, p2[m + 1].1, p2[m + 2].0, p2[m + 2].1));
            }
        }
        assert(is_cell_path(g, r, joined));
        assert(joined[0] == p1[0]);
        assert(joined.last() == p2.drop_first().last());
        assert(p2.drop_first().last() == p2.last());
    }
}

/// The cell a point falls into.
pub open spec fn cell_ix(p: Point, s: u64) -> (int, int) {
    (crate::geometry::cell_of(p.x, s), crate::geometry::cell_of(p.y, s))
}

/// Threshold correctness, the separating half: in a settled, fully
/// coloured grid that holds the binning of `pts`, two chained points
/// always lie in cells of one colour — so points whose cells carry
/// different labels are joined by no chain of radius hops.
pub proof fn lemma_chained_points_one_color(
    g: Grid,
    r: u64,
    colors: Seq<Vec<u64>>,
    pts: Seq<Point>,
    a: int,
    b: int,
)
    requires
        g.wf(),
        g.holds(pts),
        1 <= r,
        crate::geometry::is_cell_size(r as int, g.side as int),
        forall|t: int| 0 <= t < pts.len() ==> point_ok(#[trigger] pts[t]),
        wf_colors(colors, g.n as int),
        settled(g, r, colors),
        forall|i: int, j: int| 0 <= i < g.n && 0 <= j < g.n ==>
            #[trigger] color_at(colors, i, j) != 0,
        0 <= a < pts.len(),
        0 <= b < pts.len(),
        crate::geometry::chained(pts, a, b, r),
    ensures
        color_at(colors, cell_ix(pts[a], g.side).0, cell_ix(pts[a], g.side).1)
            == color_at(colors, cell_ix(pts[b], g.side).0, cell_ix(pts[b], g.side).1),
{
    let ch = choose|ch: Seq<int>|
        crate::geometry::is_chain(pts, ch, r) && ch.first() == a && ch.last() == b;
    lemma_chain_cells_one_color(g, r, colors, pts, ch);
}

proof fn lemma_chain_cells_one_color(
    g: Grid,
    r: u64,
    colors: Seq<Vec<u64>>,
    pts: Seq<Point>,
    ch: Seq<int>,
)
    requires
        g.wf(),
        g.holds(pts),
        1 <= r,
        crate::geometry::is_cell_size(r as int, g.side as int),
        forall|t: int| 0 <= t < pts.len() ==> point_ok(#[trigger] pts[t]),
        wf_colors(colors, g.n as int),
        settled(g, r, colors),
        forall|i: int, j: int| 0 <= i < g.n && 0 <= j < g.n ==>
            #[trigger] color_at(colors, i, j) != 0,
        crate::geometry::is_chain(pts, ch, r),
    ensures
        color_at(colors, cell_ix(pts[ch.first()], g.side).0, cell_ix(pts[ch.first()], g.side).1)
            == color_at(colors, cell_ix(pts[ch.last()], g.side).0, cell_ix(pts[ch.last()], g.side).1),
    decreases ch.len(),
{
    let s = g.side;
    if ch.len() > 1 {
        let p = pts[ch[0]];
        let q = pts[ch[1]];
        assert(crate::geometry::close(p, q, r));
        let (i1, j1) = cell_ix(p, s);
        let (i2, j2) = cell_ix(q, s);
        crate::geometry::lemma_cell_in_grid(p.x, s);
        crate::geometry::lemma_cell_in_grid(p.y, s);
        crate::geometry::lemma_cell_in_grid(q.x, s);
        crate::geometry::lemma_cell_in_grid(q.y, s);
        if !(i1 == i2 && j1 == j2) {
            crate::geometry::lemma_close_cells_near(p, q, r, s);
            assert(valid_offset(i2 - i1, j2 - j1));
            pts.lemma_filter_contains(|pp: Point| crate::grid::in_cell(pp, s, i1, j1), ch[0]);
            pts.lemma_filter_contains(|pp: Point| crate::grid::in_cell(pp, s, i2, j2), ch[1]);
            assert(g.at(i1, j1).contains(p));
            assert(g.at(i2, j2).contains(q));
            let u = choose|u: int| 0 <= u < g.at(i1, j1).len() && g.at(i1, j1)[u] == p;
            let v = choose|v: int| 0 <= v < g.at(i2, j2).len() && g.at(i2, j2)[v] == q;
            assert(cells_close(g.at(i1, j1), g.at(i2, j2), r));
            assert(linked(g, r, i1, j1, i2, j2));
            assert(!on_stack(Seq::empty(), i1, j1));
            assert(color_at(colors, i2, j2) == color_at(colors, i1, j1));
        }
        let rest = ch.drop_first();
        assert forall|k: int| 0 <= k < rest.len() implies 0 <= #[trigger] rest[k] < pts.len() by {
            assert(rest[k] == ch[k + 1]);
        }
        assert forall|k: int| 0 <= k < rest.len() - 1 implies crate::geometry::close(
            pts[#[trigger] rest[k]], pts[rest[k + 1]], r,
        ) by {
            assert(rest[k] == ch[k + 1]);
            assert(rest[k + 1] == ch[k + 2]);
        }
        lemma_chain_cells_one_color(g, r, colors, pts, rest);
        assert(rest.first() == ch[1]);
        assert(rest.last() == ch.last());
    }
}

/// Every two cells of one cluster label are joined by a path of
/// links: a label covers one linked component, never two.
pub open spec fn clusters_connected(g: Grid, r: u64, colors: Seq<Vec<u64>>) -> bool {
    forall|a1: int, b1: int, a2: int, b2: int|
        0 <= a1 < g.n && 0 <= b1 < g.n && 0 <= a2 < g.n && 0 <= b2 < g.n
            && #[trigger] color_at(colors, a1, b1) == #[trigger] color_at(colors, a2, b2)
            && color_at(colors, a1, b1) != 0 && color_at(colors, a1, b1) != SENTINEL
            ==> path_connected(g, r, a1, b1, a2, b2)
}

/// Any point of a path's first cell is chained to any point of its
/// last cell: each link holds a close pair, and points sharing a cell
/// are within the radius of each other.
pub proof fn lemma_path_point_chain(
    g: Grid,
    r: u64,
    pts: Seq<Point>,
    path: Seq<(int, int)>,
    a: int,
    b: int,
)
    requires
        g.wf(),
        g.holds(pts),
        1 <= r,
        crate::geometry::is_cell_size(r as int, g.side as int),
        forall|t: int| 0 <= t < pts.len() ==> point_ok(#[trigger] pts[t]),
        is_cell_path(g, r, path),
        0 <= a < pts.len(),
        0 <= b < pts.len(),
        cell_ix(pts[a], g.side) == path[0],
        cell_ix(pts[b], g.side) == path.last(),
    ensures
        crate::geometry::chained(pts, a, b, r),
    decreases path.len(),
{
    let s = g.side;
    if path.len() == 1 {
        crate::geometry::lemma_same_cell_close(pts[a], pts[b], r, s);
        crate::geometry::lemma_chained_step(pts, a, b, r);
    } else {
        let i1 = path[0].0;
        let j1 = path[0].1;
        let i2 = path[1].0;
        let j2 = path[1].1;
        assert(linked(g, r, i1, j1, i2, j2));
        let (u, v) = choose|u: int, v: int|
            0 <= u < g.at(i1, j1).len() && 0 <= v < g.at(i2, j2).len()
                && close(g.at(i1, j1)[u], g.at(i2, j2)[v], r);
        let p = g.at(i1, j1)[u];
        let q = g.at(i2, j2)[v];
        let pred1 = |pp: Point| crate::grid::in_cell(pp, s, i1, j1);
        let pred2 = |pp: Point| crate::grid::in_cell(pp, s, i2, j2);
        assert(g.at(i1, j1) == pts.filter(pred1));
        assert(g.at(i2, j2) == pts.filter(pred2));
        assert(pts.filter(pred1).contains(p));
        assert(pts.filter(pred2).contains(q));
        pts.lemma_filter_pred(pred1, u);
        pts.lemma_filter_pred(pred2, v);
        pts.lemma_filter_contains_rev(pred1, p);
        pts.lemma_filter_contains_rev(pred2, q);
        let a2 = choose|t: int| 0 <= t < pts.len() && pts[t] == p;
        let b2 = choose|t: int| 0 <= t < pts.len() && pts[t] == q;
        assert(cell_ix(pts[a2], s) == path[0]);
        assert(cell_ix(pts[b2], s) == path[1]);
        crate::geometry::lemma_same_cell_close(pts[a], pts[a2], r, s);
        crate::geometry::lemma_chained_step(pts, a, a2, r);
        crate::geometry::lemma_chained_step(pts, a2, b2, r);
        let rest = path.drop_first();
        assert forall|k: int| 0 <= k < rest.len() - 1 implies linked(
            g, r, (#[trigger] rest[k]).0, rest[k].1, rest[k + 1].0, rest[k + 1].1,
        ) by {
            assert(rest[k] == path[k + 1]);
            assert(rest[k + 1] == path[k + 2]);
        }
        assert(rest[0] == path[1]);
        assert(rest.last() == path.last());
        lemma_path_point_chain(g, r, pts, rest, b2, b);
        crate::geometry::lemma_chained_trans(pts, a, a2, b2, r);
        crate::geometry::lemma_chained_trans(pts, a, b2, b, r);
    }
}

/// Threshold correctness, the merging half: when every label covers
/// one linked component, two points whose cells carry one label are
/// always joined by a chain of radius hops.
pub proof fn lemma_same_color_points_chained(
    g: Grid,
    r: u64,
    colors: Seq<Vec<u64>>,
    pts: Seq<Point>,
    a: int,
    b: int,
)
    requires
        g.wf(),
        g.holds(pts),
        1 <= r,
        crate::geometry::is_cell_size(r as int, g.side as int),
        forall|t: int| 0 <= t < pts.len() ==> point_ok(#[trigger] pts[t]),
        wf_colors(colors, g.n as int),
        clusters_connected(g, r, colors),
        forall|i: int, j: int| 0 <= i < g.n && 0 <= j < g.n ==>
            #[trigger] color_at(colors, i, j) != 0,
        forall|i: int, j: int| 0 <= i < g.n && 0 <= j < g.n
            && #[trigger] color_at(colors, i, j) == SENTINEL ==> g.at(i, j).len() == 0,
        0 <= a < pts.len(),
        0 <= b < pts.len(),
        color_at(colors, cell_ix(pts[a], g.side).0, cell_ix(pts[a], g.side).1)
            == color_at(colors, cell_ix(pts[b], g.side).0, cell_ix(pts[b], g.side).1),
    ensures
        crate::geometry::chained(pts, a, b, r),
{
    let s = g.side;
    let (i1, j1) = cell_ix(pts[a], s);
    let (i2, j2) = cell_ix(pts[b], s);
    crate::geometry::lemma_cell_in_grid(pts[a].x, s);
    crate::geometry::lemma_cell_in_grid(pts[a].y, s);
    crate::geometry::lemma_cell_in_grid(pts[b].x, s);
    crate::geometry::lemma_cell_in_grid(pts[b].y, s);
    pts.lemma_filter_contains(|pp: Point| crate::grid::in_cell(pp, s, i1, j1), a);
    pts.lemma_filter_contains(|pp: Point| crate::grid::in_cell(pp, s, i2, j2), b);
    assert(g.at(i1, j1).contains(pts[a]));
    assert(g.at(i2, j2).contains(pts[b]));
    assert(g.at(i1, j1).len() > 0);
    assert(g.at(i2, j2).len() > 0);
    assert(color_at(colors, i1, j1) != SENTINEL);
    assert(path_connected(g, r, i1, j1, i2, j2));
    let path = choose|path: Seq<(int, int)>|
        is_cell_path(g, r, path) && path[0] == (i1, j1) && path.last() == (i2, j2);
    lemma_path_point_chain(g, r, pts, path, a, b);
}

/// Cells holding the same point multisets agree on closeness.
proof fn lemma_cells_close_permutation(a1: Seq<Point>, a2: Seq<Point>, b1: Seq<Point>, b2: Seq<Point>, r: u64)
    requires
        a1.to_multiset() == a2.to_multiset(),
        b1.to_multiset() == b2.to_multiset(),
        cells_close(a1, b1, r),
    ensures
        cells_close(a2, b2, r),
{
    broadcast use vstd::multiset::group_multiset_axioms;

    let (u, v) = choose|u: int, v: int|
        0 <= u < a1.len() && 0 <= v < b1.len() && close(a1[u], b1[v], r);
    let p = a1[u];
    let q = b1[v];
    vstd::seq_lib::to_multiset_contains(a1, p);
    vstd::seq_lib::to_multiset_contains(a2, p);
    vstd::seq_lib::to_multiset_contains(b1, q);
    vstd::seq_lib::to_multiset_contains(b2, q);
    assert(a1.contains(p));
    assert(b1.contains(q));
    let u2 = choose|u2: int| 0 <= u2 < a2.len() && a2[u2] == p;
    let v2 = choose|v2: int| 0 <= v2 < b2.len() && b2[v2] == q;
    assert(close(a2[u2], b2[v2], r));
}

/// Order invariance of the grid stage: two grids built from the same
/// points, in any order, have the same cell occupancies and the same
/// link relation — the labeler is then driven by identical inputs.
pub proof fn lemma_link_order_invariant(g1: Grid, g2: Grid, r: u64, pts1: Seq<Point>, pts2: Seq<Point>)
    requires
        g1.wf(),
        g2.wf(),
        g1.holds(pts1),
        g2.holds(pts2),
        g1.side == g2.side,
        g1.n == g2.n,
        pts1.to_multiset() == pts2.to_multiset(),
    ensures
        forall|i: int, j: int| 0 <= i < g1.n && 0 <= j < g1.n ==>
            #[trigger] g1.at(i, j).len() == g2.at(i, j).len(),
        forall|i1: int, j1: int, i2: int, j2: int|
            #[trigger] linked(g1, r, i1, j1, i2, j2) == #[trigger] linked(g2, r, i1, j1, i2, j2),
{
    broadcast use vstd::multiset::group_multiset_axioms;

    assert forall|i: int, j: int| 0 <= i < g1.n && 0 <= j < g1.n implies
        #[trigger] g1.at(i, j).to_multiset() == g2.at(i, j).to_multiset() by {
        crate::grid::lemma_bins_permutation(pts1, pts2, g1.side, i, j);
    }
    assert forall|i: int, j: int| 0 <= i < g1.n && 0 <= j < g1.n implies
        #[trigger] g1.at(i, j).len() == g2.at(i, j).len() by {
        vstd::seq_lib::to_multiset_len(g1.at(i, j));
        vstd::seq_lib::to_multiset_len(g2.at(i, j));
    }
    assert forall|i1: int, j1: int, i2: int, j2: int|
        #[trigger] linked(g1, r, i1, j1, i2, j2) == #[trigger] linked(g2, r, i1, j1, i2, j2) by {
        if linked(g1, r, i1, j1, i2, j2) {
            lemma_cells_close_permutation(
                g1.at(i1, j1), g2.at(i1, j1), g1.at(i2, j2), g2.at(i2, j2), r,
            );
        }
        if linked(g2, r, i1, j1, i2, j2) {
            lemma_cells_close_permutation(
                g2.at(i1, j1), g1.at(i1, j1), g2.at(i2, j2), g1.at(i2, j2), r,
            );
        }
    }
}

/// The labeler's result: the per-cell colour matrix and the per-label
/// point counts, in label order.
pub struct Labeling {
    /// The colour of every cell: the sentinel for empty cells, else a
    /// cluster label starting at 1.
    pub colors: Vec<Vec<u64>>,
    /// Entry `l - 1` holds the number of points of the cells labelled `l`.
    pub sizes: Vec<u64>,
}

/// Row-major order: `(a, b)` comes before `(i, j)`.
pub open spec fn before_rm(a: int, b: int, i: int, j: int) -> bool {
    b < j || (b == j && a < i)
}

/// Visits every cell in row-major order: empty cells get the sentinel,
/// and each still-uncoloured cell opens a new cluster that is flooded
/// through the link relation.  Afterwards every cell is decided, each
/// label's size counts its cells' points, and the sizes sum to the
/// whole grid's point count.
pub fn label_cells(g: &Grid, r: u64) -> (out: Labeling)
    requires
        g.wf(),
        g.all_ok(),
        r <= RADIUS_MAX,
        total_points(g.cells@) <= u64::MAX,
    ensures
        label_tables(*g, out.colors@, out.sizes@, out.sizes@.len() as u64),
        forall|i: int, j: int| 0 <= i < g.n && 0 <= j < g.n ==>
            #[trigger] color_at(out.colors@, i, j) != 0,
        sum_by(out.sizes@, |x: u64| x as int) == total_points(g.cells@),
        forall|t: int| 0 <= t < out.sizes@.len() ==> 1 <= #[trigger] out.sizes@[t],
        settled(*g, r, out.colors@),
        clusters_connected(*g, r, out.colors@),
{
    let n: usize = g.n;
    let mut colors: Vec<Vec<u64>> = Vec::new();
    while colors.len() < n
        invariant
            colors@.len() <= n,
            forall|j: int| 0 <= j < colors@.len() ==> (#[trigger] colors@[j])@.len() == n,
            forall|a: int, b: int| 0 <= a < n && 0 <= b < colors@.len() ==>
                #[trigger] color_at(colors@, a, b) == 0,
        decreases n - colors@.len(),
    {
        let mut row: Vec<u64> = Vec::new();
        while row.len() < n
            invariant
                row@.len() <= n,
                forall|a: int| 0 <= a < row@.len() ==> #[trigger] row@[a] == 0,
            decreases n - row@.len(),
        {
            row.push(0);
        }
        let ghost before_push = colors@;
        colors.push(row);
        proof {
            assert forall|a: int, b: int| 0 <= a < n && 0 <= b < colors@.len() implies
                #[trigger] color_at(colors@, a, b) == 0 by {
                if b < before_push.len() {
                    assert(colors@[b] == before_push[b]);
                    assert(color_at(before_push, a, b) == 0);
                } else {
                    assert(colors@[b]@[a] == 0);
                }
            }
        }
    }
    // first pass: mark every empty cell with the sentinel
    let mut j: usize = 0;
    while j < n
        invariant
            n == g.n,
            g.wf(),
            wf_colors(colors@, n as int),
            j <= n,
            forall|a: int, b: int| 0 <= a < n && 0 <= b < n ==>
                (#[trigger] color_at(colors@, a, b) == 0
                    || color_at(colors@, a, b) == SENTINEL),
            forall|a: int, b: int| 0 <= a < n && 0 <= b < n
                && #[trigger] color_at(colors@, a, b) == SENTINEL ==> g.at(a, b).len() == 0,
            forall|a: int, b: int| 0 <= a < n && 0 <= b < n && before_rm(a, b, 0, j as int)
                && g.at(a, b).len() == 0 ==> #[trigger] color_at(colors@, a, b) == SENTINEL,
        decreases n - j,
    {
        let mut i: usize = 0;
        while i < n
            invariant
                n == g.n,
                g.wf(),
                wf_colors(colors@, n as int),
                j < n,
                i <= n,
                forall|a: int, b: int| 0 <= a < n && 0 <= b < n ==>
                    (#[trigger] color_at(colors@, a, b) == 0
                        || color_at(colors@, a, b) == SENTINEL),
                forall|a: int, b: int| 0 <= a < n && 0 <= b < n
                    && #[trigger] color_at(colors@, a, b) == SENTINEL ==> g.at(a, b).len() == 0,
                forall|a: int, b: int| 0 <= a < n && 0 <= b < n
                    && before_rm(a, b, i as int, j as int)
                    && g.at(a, b).len() == 0 ==> #[trigger] color_at(colors@, a, b) == SENTINEL,
            decreases n - i,
        {
            if g.cells[j][i].len() == 0 {
                let ghost prev = colors@;
                colors[j][i] = SENTINEL;
                proof {
                    assert(colors@ == prev.update(j as int, colors@[j as int]));
                    assert(colors@[j as int]@ == prev[j as int]@.update(i as int, SENTINEL));
                    assert forall|a: int, b: int|
                        0 <= a < n && 0 <= b < n && !(a == i as int && b == j as int) implies
                        #[trigger] color_at(colors@, a, b) == color_at(prev, a, b) by {}
                }
            }
            i += 1;
        }
        j += 1;
    }
    // the labeler's state holds with no labels yet
    let mut sizes: Vec<u64> = Vec::new();
    proof {
        lemma_uncolored_bounds(colors@, n as int);
        assert forall|a: int, b: int|
            0 <= b < colors@.len() && 0 <= a < colors@[b]@.len() implies
            !(sel_colored()(#[trigger] color_at(colors@, a, b))) by {}
        lemma_points_with_zero(colors@, g.cells@, sel_colored());
        assert(label_state(*g, colors@, sizes@, 0));
        // only sentinel cells are coloured, and they are empty, so no
        // coloured cell is linked to anything yet
        assert forall|i1: int, j1: int, i2: int, j2: int|
            #[trigger] linked(*g, r, i1, j1, i2, j2) && color_at(colors@, i1, j1) != 0
                && !on_stack(Seq::empty(), i1, j1) implies
            color_at(colors@, i2, j2) == color_at(colors@, i1, j1) by {
            assert(color_at(colors@, i1, j1) == SENTINEL);
            assert(g.at(i1, j1).len() == 0);
            assert(!cells_close(g.at(i1, j1), g.at(i2, j2), r));
        }
        assert(settled(*g, r, colors@));
        assert forall|a1: int, b1: int, a2: int, b2: int|
            0 <= a1 < g.n && 0 <= b1 < g.n && 0 <= a2 < g.n && 0 <= b2 < g.n
                && #[trigger] color_at(colors@, a1, b1) == #[trigger] color_at(colors@, a2, b2)
                && color_at(colors@, a1, b1) != 0 && color_at(colors@, a1, b1) != SENTINEL implies
            path_connected(*g, r, a1, b1, a2, b2) by {}
        assert(clusters_connected(*g, r, colors@));
    }
    // second pass: open and flood a cluster at every uncoloured cell
    let mut j: usize = 0;
    while j < n
        invariant
            n == g.n,
            g.wf(),
            g.all_ok(),
            r <= RADIUS_MAX,
            total_points(g.cells@) <= u64::MAX,
            j <= n,
            label_state(*g, colors@, sizes@, sizes@.len() as u64),
            settled(*g, r, colors@),
            clusters_connected(*g, r, colors@),
            forall|a: int, b: int| 0 <= a < n && 0 <= b < n
                && before_rm(a, b, 0, j as int) ==> #[trigger] color_at(colors@, a, b) != 0,
        decreases n - j,
    {
        let mut i: usize = 0;
        while i < n
            invariant
                n == g.n,
                g.wf(),
                g.all_ok(),
                r <= RADIUS_MAX,
                total_points(g.cells@) <= u64::MAX,
                j < n,
                i <= n,
                label_state(*g, colors@, sizes@, sizes@.len() as u64),
                settled(*g, r, colors@),
                clusters_connected(*g, r, colors@),
                forall|a: int, b: int| 0 <= a < n && 0 <= b < n
                    && before_rm(a, b, i as int, j as int) ==>
                    #[trigger] color_at(colors@, a, b) != 0,
            decreases n - i,
        {
            let c: u64 = colors[j][i];
            if c == 0 {
                let ghost prev = colors@;
                let lab: u64 = start_cluster(g, &mut colors, &mut sizes, i, j);
                let ghost mid = colors@;
                proof {
                    // the fresh seed is the one exempt cell: nothing settled
                    // was linked to it while it was uncoloured
                    assert forall|i1: int, j1: int, i2: int, j2: int|
                        #[trigger] linked(*g, r, i1, j1, i2, j2)
                            && color_at(mid, i1, j1) != 0
                            && !on_stack(seq![(i, j)], i1, j1) implies
                        color_at(mid, i2, j2) == color_at(mid, i1, j1) by {
                        if i1 == i as int && j1 == j as int {
                            assert(seq![(i, j)][0] == (i, j));
                            assert(on_stack(seq![(i, j)], i1, j1));
                        } else {
                            assert(color_at(mid, i1, j1) == color_at(prev, i1, j1));
                            if i2 == i as int && j2 == j as int {
                                assert(color_at(prev, i2, j2) == 0);
                                assert(color_at(prev, i2, j2) == color_at(prev, i1, j1));
                                assert(false);
                            } else {
                                assert(color_at(mid, i2, j2) == color_at(prev, i2, j2));
                            }
                        }
                    }
                    assert(settled_except(*g, r, mid, seq![(i, j)]));
                    // the fresh label sits on the seed alone
                    lemma_uncolored_bounds(mid, g.n as int);
                    assert((g.n as int) * (g.n as int) + 1 < SENTINEL) by (nonlinear_arith)
                        requires 1 <= g.n as int <= SCALE as int,
                    ;
                    assert forall|a: int, b: int| 0 <= a < g.n && 0 <= b < g.n
                        && #[trigger] color_at(mid, a, b) == lab implies
                        a == i as int && b == j as int by {
                        if !(a == i as int && b == j as int) {
                            assert(color_at(mid, a, b) == color_at(prev, a, b));
                            assert(color_at(prev, a, b) == 0
                                || color_at(prev, a, b) == SENTINEL
                                || 1 <= color_at(prev, a, b) <= sizes@.len() - 1);
                            assert(lab != SENTINEL);
                        }
                    }
                }
                flood(g, r, &mut colors, &mut sizes, lab, i, j);
                proof {
                    assert forall|a: int, b: int| 0 <= a < n && 0 <= b < n
                        && before_rm(a, b, i as int + 1, j as int) implies
                        #[trigger] color_at(colors@, a, b) != 0 by {
                        if a == i as int && b == j as int {
                            assert(color_at(mid, a, b) == lab);
                        } else {
                            assert(color_at(mid, a, b) == color_at(prev, a, b));
                        }
                    }
                    // cells of the fresh label are all reached from the seed;
                    // older labels were pairwise joined already
                    assert forall|a1: int, b1: int, a2: int, b2: int|
                        0 <= a1 < g.n && 0 <= b1 < g.n && 0 <= a2 < g.n && 0 <= b2 < g.n
                            && #[trigger] color_at(colors@, a1, b1)
                                == #[trigger] color_at(colors@, a2, b2)
                            && color_at(colors@, a1, b1) != 0
                            && color_at(colors@, a1, b1) != SENTINEL implies
                        path_connected(*g, r, a1, b1, a2, b2) by {
                        if color_at(colors@, a1, b1) == lab {
                            assert(path_connected(*g, r, i as int, j as int, a1, b1));
                            assert(path_connected(*g, r, i as int, j as int, a2, b2));
                            lemma_path_sym(*g, r, i as int, j as int, a1, b1);
                            lemma_path_trans(*g, r, a1, b1, i as int, j as int, a2, b2);
                        } else {
                            assert(color_at(colors@, a1, b1) == color_at(mid, a1, b1));
                            assert(color_at(colors@, a2, b2) == color_at(mid, a2, b2));
                            assert(!(a1 == i as int && b1 == j as int));
                            assert(!(a2 == i as int && b2 == j as int));
                            assert(color_at(mid, a1, b1) == color_at(prev, a1, b1));
                            assert(color_at(mid, a2, b2) == color_at(prev, a2, b2));
                        }
                    }
                    assert(clusters_connected(*g, r, colors@));
                }
            }
            i += 1;
        }
        j += 1;
    }
    // every cell is decided, so the sizes account for every point
    proof {
        assert forall|a: int, b: int|
            0 <= b < colors@.len() && 0 <= a < colors@[b]@.len()
                && !(sel_colored()(#[trigger] color_at(colors@, a, b))) implies
            cell_seq(g.cells@, a, b).len() == 0 by {
            assert(color_at(colors@, a, b) != 0);
            assert(color_at(colors@, a, b) == SENTINEL);
            assert(g.at(a, b).len() == 0);
        }
        lemma_points_with_total(colors@, g.cells@, sel_colored());
        // every label sits on a non-empty cell, so no size is zero
        let k = sizes@.len() as u64;
        assert((g.n as int) * (g.n as int) < SENTINEL) by (nonlinear_arith)
            requires 1 <= g.n as int <= SCALE as int,
        ;
        lemma_uncolored_bounds(colors@, g.n as int);
        assert forall|t: int| 0 <= t < sizes@.len() implies 1 <= #[trigger] sizes@[t] by {
            let l: u64 = (t + 1) as u64;
            assert(1 <= l <= k);
            assert(has_label(*g, colors@, l));
            let (a, b) = choose|a: int, b: int|
                0 <= a < g.n && 0 <= b < g.n && color_at(colors@, a, b) == l;
            assert(l != SENTINEL);
            assert(g.at(a, b).len() != 0);
            lemma_points_with_ge_cell(colors@, g.cells@, sel_label(l), a, b);
            assert(sizes@[l - 1] as int == points_with(colors@, g.cells@, sel_label(l)));
        }
    }
    Labeling { colors, sizes }
}

} // verus!
