//! The whole clustering pass: validate the input, bin the points,
//! label the connected components, and rank the cluster sizes.

use crate::geometry::chained;
use crate::geometry::is_cell_size;
use crate::geometry::point_ok;
use crate::geometry::Point;
use crate::geometry::RADIUS_MAX;
use crate::geometry::SCALE;
use crate::grid::build_grid;
use crate::grid::sum_by;
use crate::grid::total_points;
use crate::grid::Grid;
use crate::labeling::cell_ix;
use crate::labeling::clusters_connected;
use crate::labeling::color_at;
use crate::labeling::label_cells;
use crate::labeling::label_tables;
use crate::labeling::lemma_chained_points_one_color;
use crate::labeling::settled;
use crate::labeling::SENTINEL;
use crate::sorting::sort_desc;
use crate::sorting::sorted_desc;
use vstd::prelude::*;

verus! {

/// The domain errors of a clustering run: inputs the algorithm must
/// reject rather than index out of bounds on.
#[derive(Clone, Copy, Debug, PartialEq, Eq, Structural)]
pub enum ClusterError {
    /// The radius is zero, or beyond the machine cap on radii.
    InvalidRadius,
    /// Some point lies outside the half-open unit square.
    PointOutOfRange,
}

/// Every point of the sequence lies inside the half-open unit square.
pub open spec fn points_ok(pts: Seq<Point>) -> bool {
    forall|t: int| 0 <= t < pts.len() ==> point_ok(#[trigger] pts[t])
}

/// The result of one clustering run.
pub struct Clustering {
    /// The binned grid: cell side, side length and per-cell points.
    pub grid: Grid,
    /// The colour of every cell: the sentinel for an empty cell, else
    /// the cell's cluster label, starting at 1.
    pub colors: Vec<Vec<u64>>,
    /// The cluster sizes in descending order, labels stripped.
    pub sizes: Vec<u64>,
    /// The cluster sizes in label order, kept for reasoning: entry
    /// `l - 1` counts the points of the cells labelled `l`.
    pub by_label: Ghost<Seq<u64>>,
}

/// What a successful run guarantees: the grid is the exact binning of
/// the input; every cell is decided; the label-order sizes are the
/// per-label point counts and sum to the number of input points; and
/// the reported sizes are the same counts, sorted descending.
pub open spec fn valid_clustering(c: Clustering, radius: u64, pts: Seq<Point>) -> bool {
    &&& c.grid.wf()
    &&& c.grid.all_ok()
    &&& is_cell_size(radius as int, c.grid.side as int)
    &&& c.grid.holds(pts)
    &&& total_points(c.grid.cells@) == pts.len()
    &&& label_tables(c.grid, c.colors@, c.by_label@, c.by_label@.len() as u64)
    &&& forall|i: int, j: int| 0 <= i < c.grid.n && 0 <= j < c.grid.n ==>
            #[trigger] color_at(c.colors@, i, j) != 0
    &&& settled(c.grid, radius, c.colors@)
    &&& clusters_connected(c.grid, radius, c.colors@)
    &&& sum_by(c.by_label@, |x: u64| x as int) == pts.len()
    &&& c.sizes@.to_multiset() == c.by_label@.to_multiset()
    &&& sorted_desc(c.sizes@)
    &&& sum_by(c.sizes@, |x: u64| x as int) == pts.len()
    &&& forall|t: int| 0 <= t < c.sizes@.len() ==> 1 <= #[trigger] c.sizes@[t]
}

impl Clustering {
    /// The grid's side length in cells.
    pub fn side_cells(&self) -> (n: usize)
        ensures
            n == self.grid.n,
    {
        self.grid.n
    }

    /// The colour of cell `(i, j)`.
    pub fn color(&self, i: usize, j: usize) -> (c: u64)
        requires
            self.grid.wf(),
            crate::labeling::wf_colors(self.colors@, self.grid.n as int),
            i < self.grid.n,
            j < self.grid.n,
        ensures
            c == color_at(self.colors@, i as int, j as int),
    {
        self.colors[j][i]
    }

    /// The number of points cell `(i, j)` owns.
    pub fn occupancy(&self, i: usize, j: usize) -> (c: usize)
        requires
            self.grid.wf(),
            i < self.grid.n,
            j < self.grid.n,
        ensures
            c == self.grid.at(i as int, j as int).len(),
    {
        self.grid.cells[j][i].len()
    }
}

/// Threshold correctness, the separating half, at the interface: in a
/// successful clustering two chained points always lie in cells of one
/// label, so points whose cells carry different labels are joined by
/// no chain of radius hops.
pub proof fn lemma_clustering_separates(
    c: Clustering,
    radius: u64,
    pts: Seq<Point>,
    a: int,
    b: int,
)
    requires
        valid_clustering(c, radius, pts),
        points_ok(pts),
        1 <= radius,
        0 <= a < pts.len(),
        0 <= b < pts.len(),
        chained(pts, a, b, radius),
    ensures
        color_at(c.colors@, cell_ix(pts[a], c.grid.side).0, cell_ix(pts[a], c.grid.side).1)
            == color_at(c.colors@, cell_ix(pts[b], c.grid.side).0, cell_ix(pts[b], c.grid.side).1),
{
    lemma_chained_points_one_color(c.grid, radius, c.colors@, pts, a, b);
}

/// Threshold correctness, the merging half, at the interface: in a
/// successful clustering two points whose cells carry one label are
/// always joined by a chain of radius hops through the input points.
pub proof fn lemma_clustering_merges(
    c: Clustering,
    radius: u64,
    pts: Seq<Point>,
    a: int,
    b: int,
)
    requires
        valid_clustering(c, radius, pts),
        points_ok(pts),
        1 <= radius,
        0 <= a < pts.len(),
        0 <= b < pts.len(),
        color_at(c.colors@, cell_ix(pts[a], c.grid.side).0, cell_ix(pts[a], c.grid.side).1)
            == color_at(c.colors@, cell_ix(pts[b], c.grid.side).0, cell_ix(pts[b], c.grid.side).1),
    ensures
        chained(pts, a, b, radius),
{
    crate::labeling::lemma_same_color_points_chained(c.grid, radius, c.colors@, pts, a, b);
}

/// Order invariance at the interface: two successful runs at one
/// radius over inputs holding the same points, in any order, build the
/// same grid shape with the same cell occupancies and the same link
/// relation — the labeler then sweeps identical neighbourhoods.
pub proof fn lemma_clustering_order_invariant(
    c1: Clustering,
    c2: Clustering,
    radius: u64,
    pts1: Seq<Point>,
    pts2: Seq<Point>,
)
    requires
        valid_clustering(c1, radius, pts1),
        valid_clustering(c2, radius, pts2),
        pts1.to_multiset() == pts2.to_multiset(),
    ensures
        c1.grid.side == c2.grid.side,
        c1.grid.n == c2.grid.n,
        forall|i: int, j: int| 0 <= i < c1.grid.n && 0 <= j < c1.grid.n ==>
            #[trigger] c1.grid.at(i, j).len() == c2.grid.at(i, j).len(),
        forall|i1: int, j1: int, i2: int, j2: int|
            #[trigger] crate::labeling::linked(c1.grid, radius, i1, j1, i2, j2)
                == #[trigger] crate::labeling::linked(c2.grid, radius, i1, j1, i2, j2),
{
    crate::geometry::lemma_cell_size_unique(
        radius as int, c1.grid.side as int, c2.grid.side as int,
    );
    crate::labeling::lemma_link_order_invariant(c1.grid, c2.grid, radius, pts1, pts2);
}

/// Clusters the points of the unit square under the given radius:
/// rejects a zero or oversized radius and any point outside the unit
/// square; otherwise bins the points, labels the connected components
/// of non-empty cells and ranks the cluster sizes in descending order.
pub fn cluster(radius: u64, pts: &Vec<Point>) -> (res: Result<Clustering, ClusterError>)
    ensures
        res.is_ok() <==> (1 <= radius <= RADIUS_MAX && points_ok(pts@)),
        !(1 <= radius <= RADIUS_MAX)
            ==> res == Result::<Clustering, ClusterError>::Err(ClusterError::InvalidRadius),
        (1 <= radius <= RADIUS_MAX && !points_ok(pts@))
            ==> res == Result::<Clustering, ClusterError>::Err(ClusterError::PointOutOfRange),
        res.is_ok() ==> valid_clustering(res.unwrap(), radius, pts@),
{
    if radius < 1 || radius > RADIUS_MAX {
        return Result::Err(ClusterError::InvalidRadius);
    }
    let mut t: usize = 0;
    while t < pts.len()
        invariant
            1 <= radius <= RADIUS_MAX,
            t <= pts@.len(),
            forall|u: int| 0 <= u < t ==> point_ok(#[trigger] pts@[u]),
        decreases pts@.len() - t,
    {
        let p: Point = pts[t];
        if !(p.x < SCALE && p.y < SCALE) {
            return Result::Err(ClusterError::PointOutOfRange);
        }
        t += 1;
    }
    let g: Grid = build_grid(radius, pts);
    proof {
        assert(total_points(g.cells@) <= u64::MAX);
    }
    let labeled = label_cells(&g, radius);
    let ghost by_label = labeled.sizes@;
    let mut sizes: Vec<u64> = labeled.sizes;
    sort_desc(&mut sizes);
    proof {
        crate::grid::lemma_sum_by_permutation(sizes@, by_label, |x: u64| x as int);
        // sorting keeps the multiset, so every reported size stays positive
        assert forall|t: int| 0 <= t < sizes@.len() implies 1 <= #[trigger] sizes@[t] by {
            vstd::seq_lib::to_multiset_contains(sizes@, sizes@[t]);
            vstd::seq_lib::to_multiset_contains(by_label, sizes@[t]);
            assert(sizes@.contains(sizes@[t]));
            assert(by_label.contains(sizes@[t]));
            let u = choose|u: int| 0 <= u < by_label.len() && by_label[u] == sizes@[t];
            assert(1 <= by_label[u]);
        }
    }
    Result::Ok(Clustering { grid: g, colors: labeled.colors, sizes, by_label: Ghost(by_label) })
}

} // verus!
