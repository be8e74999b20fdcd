//! Binning of the point set into a uniform grid of square cells.

use crate::geometry::cell_of;
use crate::geometry::cell_size_for;
use crate::geometry::grid_side;
use crate::geometry::grid_side_for;
use crate::geometry::is_cell_size;
use crate::geometry::lemma_cell_in_grid;
use crate::geometry::point_ok;
use crate::geometry::Point;
use crate::geometry::RADIUS_MAX;
use crate::geometry::SCALE;
use vstd::prelude::*;

verus! {

/// A point falls into cell `(i, j)` when its coordinates floor-divide
/// into that cell's indices.
pub open spec fn in_cell(p: Point, s: u64, i: int, j: int) -> bool {
    cell_of(p.x, s) == i && cell_of(p.y, s) == j
}

/// The contents of cell `(i, j)` of a cell matrix (row `j`, column `i`).
pub open spec fn cell_seq(cells: Seq<Vec<Vec<Point>>>, i: int, j: int) -> Seq<Point> {
    cells[j]@[i]@
}

/// The points of `pts` that bin into cell `(i, j)`, in input order.
pub open spec fn bin_of(pts: Seq<Point>, s: u64, i: int, j: int) -> Seq<Point> {
    pts.filter(|p: Point| in_cell(p, s, i, j))
}

/// Sum of a per-element measure over a sequence.
pub open spec fn sum_by<T>(s: Seq<T>, f: spec_fn(T) -> int) -> int
    decreases s.len(),
{
    if s.len() == 0 {
        0
    } else {
        sum_by(s.drop_last(), f) + f(s.last())
    }
}

/// Replacing one element moves the sum by the difference of measures.
pub proof fn lemma_sum_by_update<T>(s: Seq<T>, i: int, v: T, f: spec_fn(T) -> int)
    requires
        0 <= i < s.len(),
    ensures
        sum_by(s.update(i, v), f) == sum_by(s, f) - f(s[i]) + f(v),
    decreases s.len(),
{
    let su = s.update(i, v);
    assert(su.len() == s.len());
    if i == s.len() - 1 {
        assert(su.drop_last() =~= s.drop_last());
        assert(su.last() == v);
    } else {
        assert(su.drop_last() =~= s.drop_last().update(i, v));
        assert(su.last() == s.last());
        lemma_sum_by_update(s.drop_last(), i, v, f);
        assert(s.drop_last()[i] == s[i]);
    }
}

/// A sum of a pointwise nonnegative measure is nonnegative.
pub proof fn lemma_sum_by_nonneg<T>(s: Seq<T>, f: spec_fn(T) -> int)
    requires
        forall|t: int| 0 <= t < s.len() ==> 0 <= #[trigger] f(s[t]),
    ensures
        0 <= sum_by(s, f),
    decreases s.len(),
{
    if s.len() > 0 {
        lemma_sum_by_nonneg(s.drop_last(), f);
    }
}

/// A sum of a pointwise bounded measure is bounded by length times bound.
pub proof fn lemma_sum_by_le<T>(s: Seq<T>, f: spec_fn(T) -> int, m: int)
    requires
        forall|t: int| 0 <= t < s.len() ==> #[trigger] f(s[t]) <= m,
    ensures
        sum_by(s, f) <= s.len() * m,
    decreases s.len(),
{
    if s.len() > 0 {
        lemma_sum_by_le(s.drop_last(), f, m);
        assert((s.len() - 1) * m + m == s.len() * m) by (nonlinear_arith);
    } else {
        assert(s.len() * m == 0) by (nonlinear_arith)
            requires s.len() == 0,
        ;
    }
}

/// Removing one element removes exactly its measure from the sum.
pub proof fn lemma_sum_by_remove<T>(s: Seq<T>, i: int, f: spec_fn(T) -> int)
    requires
        0 <= i < s.len(),
    ensures
        sum_by(s, f) == sum_by(s.remove(i), f) + f(s[i]),
    decreases s.len(),
{
    if i == s.len() - 1 {
        assert(s.remove(i) =~= s.drop_last());
    } else {
        assert(s.remove(i).drop_last() =~= s.drop_last().remove(i));
        assert(s.remove(i).last() == s.last());
        lemma_sum_by_remove(s.drop_last(), i, f);
        assert(s.drop_last()[i] == s[i]);
    }
}

/// Sequences holding the same multiset of values have the same sum.
pub proof fn lemma_sum_by_permutation<T>(s1: Seq<T>, s2: Seq<T>, f: spec_fn(T) -> int)
    requires
        s1.to_multiset() == s2.to_multiset(),
    ensures
        sum_by(s1, f) == sum_by(s2, f),
    decreases s1.len(),
{
    broadcast use vstd::multiset::group_multiset_axioms;

    vstd::seq_lib::to_multiset_len(s1);
    vstd::seq_lib::to_multiset_len(s2);
    if s1.len() > 0 {
        let last = s1.last();
        vstd::seq_lib::to_multiset_contains(s1, last);
        vstd::seq_lib::to_multiset_contains(s2, last);
        assert(s1.contains(last));
        let i = choose|i: int| 0 <= i < s2.len() && s2[i] == last;
        lemma_sum_by_remove(s2, i, f);
        vstd::seq_lib::to_multiset_remove(s2, i);
        vstd::seq_lib::to_multiset_build(s1.drop_last(), last);
        assert(s1.drop_last().push(last) =~= s1);
        assert(s1.drop_last().to_multiset() =~= s2.remove(i).to_multiset());
        lemma_sum_by_permutation(s1.drop_last(), s2.remove(i), f);
    }
}

/// Number of points a row of cells owns.
pub open spec fn row_points(row: Vec<Vec<Point>>) -> int {
    sum_by(row@, |c: Vec<Point>| c@.len() as int)
}

/// Number of points the whole cell matrix owns.
pub open spec fn total_points(cells: Seq<Vec<Vec<Point>>>) -> int {
    sum_by(cells, |row: Vec<Vec<Point>>| row_points(row))
}

/// The binned point set: a square matrix of cells, each owning the
/// points that fall into it.
pub struct Grid {
    /// The cell side, in fixed-point units.
    pub side: u64,
    /// The number of cells along each axis.
    pub n: usize,
    /// The cells; `cells[j][i]` owns the points of cell `(i, j)`.
    pub cells: Vec<Vec<Vec<Point>>>,
}

impl Grid {
    /// Shape of a well-formed grid: a positive cell side and a square
    /// matrix covering the unit square.
    pub open spec fn wf(self) -> bool {
        &&& 1 <= self.side <= RADIUS_MAX
        &&& self.n == grid_side(self.side as int)
        &&& 1 <= self.n <= SCALE
        &&& self.cells@.len() == self.n
        &&& forall|j: int| 0 <= j < self.n ==> (#[trigger] self.cells@[j])@.len() == self.n
    }

    /// The points of cell `(i, j)`.
    pub open spec fn at(self, i: int, j: int) -> Seq<Point> {
        cell_seq(self.cells@, i, j)
    }

    /// The grid holds exactly the binning of `pts`: each cell owns the
    /// points whose coordinates floor-divide into it, in input order.
    pub open spec fn holds(self, pts: Seq<Point>) -> bool {
        forall|i: int, j: int| 0 <= i < self.n && 0 <= j < self.n ==>
            #[trigger] self.at(i, j) == bin_of(pts, self.side, i, j)
    }

    /// Every point owned by a cell is a valid point of the unit square.
    pub open spec fn all_ok(self) -> bool {
        forall|i: int, j: int, t: int|
            0 <= i < self.n && 0 <= j < self.n && 0 <= t < self.at(i, j).len()
                ==> point_ok(#[trigger] self.at(i, j)[t])
    }
}

/// Bins every point of `pts` into the grid cell its coordinates
/// floor-divide into.  No point lands in more than one cell, so the
/// grid owns exactly the input points.
pub fn build_grid(radius: u64, pts: &Vec<Point>) -> (g: Grid)
    requires
        1 <= radius,
        radius <= RADIUS_MAX,
        forall|t: int| 0 <= t < pts@.len() ==> point_ok(#[trigger] pts@[t]),
    ensures
        g.wf(),
        is_cell_size(radius as int, g.side as int),
        g.holds(pts@),
        g.all_ok(),
        total_points(g.cells@) == pts@.len(),
{
    let side: u64 = cell_size_for(radius);
    let n: usize = grid_side_for(side);
    let mut cells: Vec<Vec<Vec<Point>>> = Vec::new();
    while cells.len() < n
        invariant
            cells@.len() <= n,
            forall|j: int| 0 <= j < cells@.len() ==> (#[trigger] cells@[j])@.len() == n,
            forall|i: int, j: int| 0 <= i < n && 0 <= j < cells@.len() ==>
                #[trigger] cell_seq(cells@, i, j) == Seq::<Point>::empty(),
            total_points(cells@) == 0,
        decreases n - cells@.len(),
    {
        let mut row: Vec<Vec<Point>> = Vec::new();
        while row.len() < n
            invariant
                row@.len() <= n,
                forall|i: int| 0 <= i < row@.len() ==> (#[trigger] row@[i])@ == Seq::<Point>::empty(),
                row_points(row) == 0,
            decreases n - row@.len(),
        {
            let empty_cell: Vec<Point> = Vec::new();
            proof {
                assert(row@.push(empty_cell).drop_last() =~= row@);
            }
            row.push(empty_cell);
        }
        proof {
            lemma_total_push_row(cells@, row);
        }
        let ghost before_push = cells@;
        cells.push(row);
        proof {
            assert forall|a: int, b: int| 0 <= a < n && 0 <= b < cells@.len() implies
                #[trigger] cell_seq(cells@, a, b) == Seq::<Point>::empty() by {
                if b < before_push.len() {
                    assert(cells@[b] == before_push[b]);
                    assert(cell_seq(before_push, a, b) == Seq::<Point>::empty());
                } else {
                    assert(cells@[b] == row);
                }
            }
        }
    }
    proof {
        assert(pts@.take(0) =~= Seq::<Point>::empty());
        assert forall|a: int, b: int| 0 <= a < n && 0 <= b < n implies
            #[trigger] cell_seq(cells@, a, b) == bin_of(pts@.take(0), side, a, b) by {
            lemma_bin_of_empty(side, a, b);
        }
    }
    let mut t: usize = 0;
    while t < pts.len()
        invariant
            t <= pts@.len(),
            1 <= side <= RADIUS_MAX,
            n == grid_side(side as int),
            1 <= n <= SCALE,
            cells@.len() == n,
            forall|j: int| 0 <= j < n ==> (#[trigger] cells@[j])@.len() == n,
            forall|tt: int| 0 <= tt < pts@.len() ==> point_ok(#[trigger] pts@[tt]),
            forall|i: int, j: int| 0 <= i < n && 0 <= j < n ==>
                #[trigger] cell_seq(cells@, i, j) == bin_of(pts@.take(t as int), side, i, j),
            forall|i: int, j: int, tt: int|
                0 <= i < n && 0 <= j < n && 0 <= tt < cell_seq(cells@, i, j).len()
                    ==> point_ok(#[trigger] cell_seq(cells@, i, j)[tt]),
            total_points(cells@) == t,
        decreases pts@.len() - t,
    {
        let p: Point = pts[t];
        let i: usize = (p.x / side) as usize;
        let j: usize = (p.y / side) as usize;
        proof {
            lemma_cell_in_grid(p.x, side);
            lemma_cell_in_grid(p.y, side);
        }
        let ghost old_cells = cells@;
        cells[j][i].push(p);
        proof {
            let ti = t as int;
            let ii = i as int;
            let jj = j as int;
            assert(cells@ == old_cells.update(jj, cells@[jj]));
            assert(cells@[jj]@ == old_cells[jj]@.update(ii, cells@[jj]@[ii]));
            assert(cells@[jj]@[ii]@ == old_cells[jj]@[ii]@.push(p));
            assert(pts@.take(ti + 1) =~= pts@.take(ti).push(pts@[ti]));
            assert forall|a: int, b: int| 0 <= a < n && 0 <= b < n implies
                #[trigger] cell_seq(cells@, a, b) == bin_of(pts@.take(ti + 1), side, a, b) by {
                lemma_bin_of_push(pts@.take(ti), p, side, a, b);
                assert(cell_seq(old_cells, a, b) == bin_of(pts@.take(ti), side, a, b));
                if a == ii && b == jj {
                    assert(in_cell(p, side, a, b));
                    assert(cell_seq(cells@, a, b) =~= cell_seq(old_cells, a, b).push(p));
                } else {
                    assert(!in_cell(p, side, a, b));
                    assert(cell_seq(cells@, a, b) =~= cell_seq(old_cells, a, b));
                }
            }
            lemma_total_update_cell(old_cells, ii, jj, cells@[jj]@[ii], cells@[jj]);
            assert forall|a: int, b: int, tt: int|
                0 <= a < n && 0 <= b < n && 0 <= tt < cell_seq(cells@, a, b).len() implies
                point_ok(#[trigger] cell_seq(cells@, a, b)[tt]) by {
                if a == ii && b == jj {
                    assert(cell_seq(cells@, a, b) == cell_seq(old_cells, a, b).push(p));
                    if tt < cell_seq(old_cells, a, b).len() {
                        assert(point_ok(cell_seq(old_cells, a, b)[tt]));
                    }
                } else {
                    assert(cell_seq(cells@, a, b) == cell_seq(old_cells, a, b));
                    assert(point_ok(cell_seq(old_cells, a, b)[tt]));
                }
            }
        }
        t += 1;
    }
    proof {
        assert(pts@.take(pts@.len() as int) =~= pts@);
    }
    Grid { side, n, cells }
}

/// Filtering keeps exactly the multiset of matching values.
proof fn lemma_filter_count<T>(s: Seq<T>, pred: spec_fn(T) -> bool, x: T)
    ensures
        s.filter(pred).to_multiset().count(x) == if pred(x) {
            s.to_multiset().count(x)
        } else {
            0
        },
    decreases s.len(),
{
    broadcast use vstd::multiset::group_multiset_axioms;

    if s.len() == 0 {
        reveal(Seq::filter);
        vstd::seq_lib::to_multiset_contains(s, x);
        vstd::seq_lib::to_multiset_contains(s.filter(pred), x);
        assert(s.filter(pred).len() == 0);
        assert(!s.contains(x));
        assert(!s.filter(pred).contains(x));
    } else {
        let d = s.drop_last();
        lemma_filter_count(d, pred, x);
        assert(d.push(s.last()) =~= s);
        d.lemma_filter_push(s.last(), pred);
        vstd::seq_lib::to_multiset_build(d, s.last());
        if pred(s.last()) {
            vstd::seq_lib::to_multiset_build(d.filter(pred), s.last());
        }
    }
}

/// Inputs holding the same points bin into the same cell multisets,
/// whatever their order: the grid is order-invariant.
pub proof fn lemma_bins_permutation(pts1: Seq<Point>, pts2: Seq<Point>, s: u64, i: int, j: int)
    requires
        pts1.to_multiset() == pts2.to_multiset(),
    ensures
        bin_of(pts1, s, i, j).to_multiset() == bin_of(pts2, s, i, j).to_multiset(),
{
    broadcast use vstd::multiset::group_multiset_axioms;

    let pred = |p: Point| in_cell(p, s, i, j);
    assert forall|x: Point|
        pts1.filter(pred).to_multiset().count(x)
            == pts2.filter(pred).to_multiset().count(x) by {
        lemma_filter_count(pts1, pred, x);
        lemma_filter_count(pts2, pred, x);
    }
    assert(pts1.filter(pred).to_multiset() =~= pts2.filter(pred).to_multiset());
}

/// Pushing a row of empty cells leaves the total point count unchanged.
proof fn lemma_total_push_row(cells: Seq<Vec<Vec<Point>>>, row: Vec<Vec<Point>>)
    requires
        row_points(row) == 0,
    ensures
        total_points(cells.push(row)) == total_points(cells),
{
    assert(cells.push(row).drop_last() =~= cells);
}

/// No point bins into the empty point sequence's cells.
proof fn lemma_bin_of_empty(s: u64, i: int, j: int)
    ensures
        bin_of(Seq::<Point>::empty(), s, i, j) == Seq::<Point>::empty(),
{
    reveal(Seq::filter);
}

/// Appending a point extends exactly the bin the point falls into.
proof fn lemma_bin_of_push(pts: Seq<Point>, p: Point, s: u64, i: int, j: int)
    ensures
        bin_of(pts.push(p), s, i, j) == if in_cell(p, s, i, j) {
            bin_of(pts, s, i, j).push(p)
        } else {
            bin_of(pts, s, i, j)
        },
{
    pts.lemma_filter_push(p, |q: Point| in_cell(q, s, i, j));
}

/// Growing one cell by one point grows the grid's total by one.
proof fn lemma_total_update_cell(
    cells: Seq<Vec<Vec<Point>>>,
    i: int,
    j: int,
    newc: Vec<Point>,
    newrow: Vec<Vec<Point>>,
)
    requires
        0 <= j < cells.len(),
        0 <= i < cells[j]@.len(),
        newc@.len() == cells[j]@[i]@.len() + 1,
        newrow@ == cells[j]@.update(i, newc),
    ensures
        total_points(cells.update(j, newrow)) == total_points(cells) + 1,
{
    let f = |c: Vec<Point>| c@.len() as int;
    let g = |row: Vec<Vec<Point>>| row_points(row);
    lemma_sum_by_update(cells[j]@, i, newc, f);
    lemma_sum_by_update(cells, j, newrow, g);
}

} // verus!
