//! Fixed-point points of the unit square, exact squared distances, and
//! the grid cell side derived from the clustering radius.

use vstd::arithmetic::div_mod::lemma_div_is_ordered;
use vstd::arithmetic::div_mod::lemma_div_pos_is_pos;
use vstd::arithmetic::div_mod::lemma_fundamental_div_mod;
use vstd::arithmetic::div_mod::lemma_hoist_over_denominator;
use vstd::arithmetic::div_mod::lemma_mod_division_less_than_divisor;
use vstd::prelude::*;

verus! {

/// Fixed-point units per axis of the unit square: a coordinate `c`
/// stands for the real number `c / SCALE`.
pub const SCALE: u64 = 1_000_000;

/// Largest accepted radius, in the same fixed-point units.  A machine
/// limit: it keeps every squared quantity of the algorithm inside `u64`.
pub const RADIUS_MAX: u64 = 2_000_000_000;

/// A point of the unit square, in fixed-point coordinates.
#[derive(Clone, Copy, PartialEq, Eq, Structural, Debug)]
pub struct Point {
    pub x: u64,
    pub y: u64,
}

/// A point is valid when both coordinates lie in `[0, SCALE)`, that is,
/// when the real point lies in the half-open unit square.
pub open spec fn point_ok(p: Point) -> bool {
    p.x < SCALE && p.y < SCALE
}

/// Squared Euclidean distance between two points, as an unbounded integer.
pub open spec fn dist_sq(p: Point, q: Point) -> int {
    (p.x - q.x) * (p.x - q.x) + (p.y - q.y) * (p.y - q.y)
}

/// Two points are within the clustering radius of one another.
/// Adjacency uses `<=`, so a pair at exactly the radius is connected.
pub open spec fn close(p: Point, q: Point, r: u64) -> bool {
    dist_sq(p, q) <= r * r
}

/// Squared distance does not depend on the order of its arguments.
pub proof fn lemma_close_sym(p: Point, q: Point, r: u64)
    ensures
        close(p, q, r) == close(q, p, r),
{
    assert(dist_sq(p, q) == dist_sq(q, p)) by (nonlinear_arith);
}

/// Computes the exact squared distance between two valid points.
pub fn dist_sq_u64(p: Point, q: Point) -> (d: u64)
    requires
        point_ok(p),
        point_ok(q),
    ensures
        d == dist_sq(p, q),
{
    let dx: u64 = if p.x >= q.x { p.x - q.x } else { q.x - p.x };
    let dy: u64 = if p.y >= q.y { p.y - q.y } else { q.y - p.y };
    proof {
        assert(dx * dx == (p.x - q.x) * (p.x - q.x) && dx * dx <= (SCALE - 1) * (SCALE - 1))
            by (nonlinear_arith)
            requires
                dx < SCALE,
                dx == p.x - q.x || dx == q.x - p.x,
        ;
        assert(dy * dy == (p.y - q.y) * (p.y - q.y) && dy * dy <= (SCALE - 1) * (SCALE - 1))
            by (nonlinear_arith)
            requires
                dy < SCALE,
                dy == p.y - q.y || dy == q.y - p.y,
        ;
    }
    dx * dx + dy * dy
}

/// Decides whether two valid points are within radius `r` of each other.
pub fn close_at(p: Point, q: Point, r: u64) -> (b: bool)
    requires
        point_ok(p),
        point_ok(q),
        r <= RADIUS_MAX,
    ensures
        b == close(p, q, r),
{
    proof {
        assert(r * r <= RADIUS_MAX * RADIUS_MAX) by (nonlinear_arith)
            requires r <= RADIUS_MAX,
        ;
    }
    dist_sq_u64(p, q) <= r * r
}

/// The grid's cell side for radius `r`: the least positive `s` with
/// `2 * (s + 1) * (s + 1) > r * r`.  The first clause makes `s` small
/// enough that points of one cell are always within the radius; the
/// minimality clause makes it large enough that cells two steps apart
/// in both axes are always out of reach.
pub open spec fn is_cell_size(r: int, s: int) -> bool {
    &&& 1 <= s
    &&& r * r < 2 * (s + 1) * (s + 1)
    &&& (s == 1 || 2 * s * s <= r * r)
}

/// The cell side is pinned down by the radius: no two sides satisfy
/// the defining clauses at once.
pub proof fn lemma_cell_size_unique(r: int, s1: int, s2: int)
    requires
        is_cell_size(r, s1),
        is_cell_size(r, s2),
    ensures
        s1 == s2,
{
    if s1 < s2 {
        assert(2 * (s1 + 1) * (s1 + 1) <= 2 * s2 * s2) by (nonlinear_arith)
            requires 1 <= s1, s1 + 1 <= s2,
        ;
    }
    if s2 < s1 {
        assert(2 * (s2 + 1) * (s2 + 1) <= 2 * s1 * s1) by (nonlinear_arith)
            requires 1 <= s2, s2 + 1 <= s1,
        ;
    }
}

/// Derived bounds of the cell side: the diagonal of a cell stays within
/// the radius, and the radius spans at most two cell sides.
pub proof fn lemma_cell_size_bounds(r: int, s: int)
    requires
        1 <= r,
        is_cell_size(r, s),
    ensures
        2 * (s - 1) * (s - 1) <= r * r,
        r <= 2 * s,
{
    if s != 1 {
        assert(2 * (s - 1) * (s - 1) <= 2 * s * s) by (nonlinear_arith)
            requires 1 <= s,
        ;
    } else {
        assert(2 * (s - 1) * (s - 1) == 0);
        assert(0 <= r * r) by (nonlinear_arith)
            requires 1 <= r,
        ;
    }
    if r > 2 * s {
        assert((2 * s + 1) * (2 * s + 1) <= r * r) by (nonlinear_arith)
            requires 2 * s + 1 <= r, 1 <= s,
        ;
        assert(2 * (s + 1) * (s + 1) <= (2 * s + 1) * (2 * s + 1)) by (nonlinear_arith)
            requires 1 <= s,
        ;
        assert(false);
    }
}

/// Tests `2 * (s + 1) * (s + 1) > r * r` without overflowing.
fn side_large_enough(s: u64, r: u64) -> (b: bool)
    requires
        s <= RADIUS_MAX,
        r <= RADIUS_MAX,
    ensures
        b == (r * r < 2 * (s + 1) * (s + 1)),
{
    let t: u64 = s + 1;
    proof {
        assert(t * t <= (RADIUS_MAX + 1) * (RADIUS_MAX + 1) && r * r <= RADIUS_MAX * RADIUS_MAX)
            by (nonlinear_arith)
            requires t <= RADIUS_MAX + 1, r <= RADIUS_MAX,
        ;
        assert(2 * (t * t) == 2 * (s + 1) * (s + 1)) by (nonlinear_arith)
            requires t == s + 1,
        ;
    }
    r * r < 2 * (t * t)
}

/// Computes the cell side for radius `r` by binary search for the least
/// `s` whose successor's squared diagonal exceeds the squared radius.
pub fn cell_size_for(r: u64) -> (s: u64)
    requires
        1 <= r,
        r <= RADIUS_MAX,
    ensures
        is_cell_size(r as int, s as int),
        s <= r,
{
    if side_large_enough(1, r) {
        return 1;
    }
    let mut lo: u64 = 1;
    let mut hi: u64 = r;
    proof {
        assert(r * r < 2 * (r + 1) * (r + 1)) by (nonlinear_arith)
            requires 1 <= r,
        ;
        assert(1 < r) by (nonlinear_arith)
            requires 1 <= r, 2 * (1 + 1) * (1 + 1) <= r * r,
        ;
    }
    while lo + 1 < hi
        invariant
            1 <= lo < hi <= r,
            r <= RADIUS_MAX,
            r * r < 2 * (hi + 1) * (hi + 1),
            2 * (lo + 1) * (lo + 1) <= r * r,
        decreases hi - lo,
    {
        let mid: u64 = lo + (hi - lo) / 2;
        if side_large_enough(mid, r) {
            hi = mid;
        } else {
            lo = mid;
        }
    }
    hi
}

/// A chain inside the point set `pts`: a non-empty run of indices
/// whose consecutive points are each within radius `r`.
pub open spec fn is_chain(pts: Seq<Point>, ch: Seq<int>, r: u64) -> bool {
    &&& ch.len() >= 1
    &&& forall|k: int| 0 <= k < ch.len() ==> 0 <= #[trigger] ch[k] < pts.len()
    &&& forall|k: int| 0 <= k < ch.len() - 1 ==> close(pts[#[trigger] ch[k]], pts[ch[k + 1]], r)
}

/// Point `a` reaches point `b` through a chain of radius-`r` hops:
/// the relation whose classes are the clusters.
pub open spec fn chained(pts: Seq<Point>, a: int, b: int, r: u64) -> bool {
    exists|ch: Seq<int>| is_chain(pts, ch, r) && ch.first() == a && ch.last() == b
}

/// One hop within the radius is already a chain.
pub proof fn lemma_chained_step(pts: Seq<Point>, a: int, b: int, r: u64)
    requires
        0 <= a < pts.len(),
        0 <= b < pts.len(),
        close(pts[a], pts[b], r),
    ensures
        chained(pts, a, b, r),
{
    let ch = seq![a, b];
    assert(is_chain(pts, ch, r));
    assert(ch.first() == a && ch.last() == b);
}

/// Chains join end to end.
pub proof fn lemma_chained_trans(pts: Seq<Point>, a: int, b: int, c: int, r: u64)
    requires
        chained(pts, a, b, r),
        chained(pts, b, c, r),
    ensures
        chained(pts, a, c, r),
{
    let ch1 = choose|ch: Seq<int>| is_chain(pts, ch, r) && ch.first() == a && ch.last() == b;
    let ch2 = choose|ch: Seq<int>| is_chain(pts, ch, r) && ch.first() == b && ch.last() == c;
    if ch2.len() == 1 {
        assert(ch1.last() == c);
    } else {
        let joined = ch1 + ch2.drop_first();
        assert(joined.len() == ch1.len() + ch2.len() - 1);
        assert forall|k: int| 0 <= k < joined.len() implies 0 <= #[trigger] joined[k] < pts.len() by {
            if k < ch1.len() {
                assert(joined[k] == ch1[k]);
            } else {
                assert(joined[k] == ch2.drop_first()[k - ch1.len()]);
                assert(ch2.drop_first()[k - ch1.len()] == ch2[k - ch1.len() + 1]);
            }
        }
        assert forall|k: int| 0 <= k < joined.len() - 1 implies close(
            pts[#[trigger] joined[k]], pts[joined[k + 1]], r,
        ) by {
            if k < ch1.len() - 1 {
                assert(joined[k] == ch1[k]);
                assert(joined[k + 1] == ch1[k + 1]);
            } else if k == ch1.len() - 1 {
                assert(joined[k] == ch1[k]);
                assert(ch1[k] == ch2[0]);
                assert(joined[k + 1] == ch2.drop_first()[0]);
                assert(ch2.drop_first()[0] == ch2[1]);
                assert(close(pts[ch2[0]], pts[ch2[1]], r));
            } else {
                let m = k - ch1.len();
                assert(joined[k] == ch2.drop_first()[m]);
                assert(joined[k + 1] == ch2.drop_first()[m + 1]);
                assert(ch2.drop_first()[m] == ch2[m + 1]);
                assert(ch2.drop_first()[m + 1] == ch2[m + 2]);
                assert(close(pts[ch2[m + 1]], pts[ch2[m + 2]], r));
            }
        }
        assert(is_chain(pts, joined, r));
        assert(joined.first() == a);
        assert(joined.last() == ch2.drop_first().last());
        assert(ch2.drop_first().last() == ch2.last());
    }
}

/// Growing the radius keeps every chain: two points of one cluster
/// stay in one cluster at any larger radius, so raising the radius
/// never splits an existing cluster.
pub proof fn lemma_chain_monotone(pts: Seq<Point>, a: int, b: int, r1: u64, r2: u64)
    requires
        chained(pts, a, b, r1),
        r1 <= r2,
    ensures
        chained(pts, a, b, r2),
{
    let ch = choose|ch: Seq<int>| is_chain(pts, ch, r1) && ch.first() == a && ch.last() == b;
    assert forall|k: int| 0 <= k < ch.len() - 1 implies
        close(pts[#[trigger] ch[k]], pts[ch[k + 1]], r2) by {
        assert(close(pts[ch[k]], pts[ch[k + 1]], r1));
        assert(r1 * r1 <= r2 * r2) by (nonlinear_arith)
            requires r1 <= r2,
        ;
    }
    assert(is_chain(pts, ch, r2));
}

/// The grid cell index of one coordinate, for cell side `s`.
pub open spec fn cell_of(c: u64, s: u64) -> int {
    c as int / s as int
}

/// Side length of the grid in cells: enough cells of side `s` to cover
/// the unit square.
pub open spec fn grid_side(s: int) -> int {
    (SCALE as int + s - 1) / s
}

/// Computes the grid side length `ceil(SCALE / s)`.
pub fn grid_side_for(s: u64) -> (n: usize)
    requires
        1 <= s,
        s <= RADIUS_MAX,
    ensures
        n == grid_side(s as int),
        1 <= n <= SCALE,
{
    let n64: u64 = (SCALE + s - 1) / s;
    proof {
        let si = s as int;
        lemma_div_is_ordered(si, SCALE as int + si - 1, si);
        assert(si / si == 1) by (nonlinear_arith)
            requires 1 <= si,
        ;
        assert(SCALE as int + si - 1 <= SCALE as int * si) by (nonlinear_arith)
            requires 1 <= si,
        ;
        lemma_div_is_ordered(SCALE as int + si - 1, SCALE as int * si, si);
        assert(SCALE as int * si / si == SCALE as int) by (nonlinear_arith)
            requires 1 <= si,
        ;
    }
    n64 as usize
}

/// Every valid coordinate falls inside the grid.
pub proof fn lemma_cell_in_grid(c: u64, s: u64)
    requires
        1 <= s,
        c < SCALE,
    ensures
        0 <= cell_of(c, s) < grid_side(s as int),
{
    let si = s as int;
    lemma_div_pos_is_pos(c as int, si);
    lemma_div_is_ordered(c as int, SCALE as int - 1, si);
    lemma_hoist_over_denominator(SCALE as int - 1, 1, s as nat);
    assert((SCALE as int - 1) / si + 1 == (SCALE as int - 1 + 1 * si) / si);
}

/// Two valid points that fall into the same cell are within the radius
/// of each other: the diagonal of a cell never exceeds the radius.
pub proof fn lemma_same_cell_close(p: Point, q: Point, r: u64, s: u64)
    requires
        point_ok(p),
        point_ok(q),
        1 <= r,
        is_cell_size(r as int, s as int),
        cell_of(p.x, s) == cell_of(q.x, s),
        cell_of(p.y, s) == cell_of(q.y, s),
    ensures
        close(p, q, r),
{
    let si = s as int;
    lemma_cell_size_bounds(r as int, si);
    lemma_fundamental_div_mod(p.x as int, si);
    lemma_fundamental_div_mod(q.x as int, si);
    lemma_fundamental_div_mod(p.y as int, si);
    lemma_fundamental_div_mod(q.y as int, si);
    lemma_mod_division_less_than_divisor(p.x as int, si);
    lemma_mod_division_less_than_divisor(q.x as int, si);
    lemma_mod_division_less_than_divisor(p.y as int, si);
    lemma_mod_division_less_than_divisor(q.y as int, si);
    let dx = p.x as int - q.x as int;
    let dy = p.y as int - q.y as int;
    assert(-(si - 1) <= dx <= si - 1);
    assert(-(si - 1) <= dy <= si - 1);
    assert(dx * dx <= (si - 1) * (si - 1)) by (nonlinear_arith)
        requires -(si - 1) <= dx <= si - 1,
    ;
    assert(dy * dy <= (si - 1) * (si - 1)) by (nonlinear_arith)
        requires -(si - 1) <= dy <= si - 1,
    ;
    assert(2 * ((si - 1) * (si - 1)) == 2 * (si - 1) * (si - 1)) by (nonlinear_arith);
}

/// Bound on cell indices: coordinates at most `2 * s` apart lie in
/// cells at most two steps apart.
proof fn lemma_cells_within_two(a: u64, b: u64, s: u64)
    requires
        1 <= s,
        a as int - b as int <= 2 * s,
    ensures
        cell_of(a, s) - cell_of(b, s) <= 2,
{
    let si = s as int;
    lemma_div_is_ordered(a as int, b as int + 2 * si, si);
    lemma_hoist_over_denominator(b as int, 2, s as nat);
    assert(b as int / si + 2 == (b as int + 2 * si) / si);
}

/// Coordinates whose cells are two steps apart differ by more than a
/// whole cell side.
proof fn lemma_cells_two_apart(a: u64, b: u64, s: u64)
    requires
        1 <= s,
        cell_of(a, s) - cell_of(b, s) >= 2,
    ensures
        a as int - b as int >= s + 1,
{
    let si = s as int;
    let qa = a as int / si;
    let qb = b as int / si;
    lemma_fundamental_div_mod(a as int, si);
    lemma_fundamental_div_mod(b as int, si);
    lemma_mod_division_less_than_divisor(a as int, si);
    lemma_mod_division_less_than_divisor(b as int, si);
    assert(si * qa >= si * qb + 2 * si) by (nonlinear_arith)
        requires qa >= qb + 2, 1 <= si,
    ;
}

/// Two valid points within the radius of each other lie in cells at
/// most two steps apart along each axis, and never two steps apart
/// along both axes at once: exactly the neighbourhood the labeler scans.
pub proof fn lemma_close_cells_near(p: Point, q: Point, r: u64, s: u64)
    requires
        point_ok(p),
        point_ok(q),
        1 <= r,
        is_cell_size(r as int, s as int),
        close(p, q, r),
    ensures
        -2 <= cell_of(p.x, s) - cell_of(q.x, s) <= 2,
        -2 <= cell_of(p.y, s) - cell_of(q.y, s) <= 2,
        !((cell_of(p.x, s) - cell_of(q.x, s) == 2 || cell_of(q.x, s) - cell_of(p.x, s) == 2)
            && (cell_of(p.y, s) - cell_of(q.y, s) == 2 || cell_of(q.y, s) - cell_of(p.y, s) == 2)),
{
    let si = s as int;
    lemma_cell_size_bounds(r as int, si);
    let dx = p.x as int - q.x as int;
    let dy = p.y as int - q.y as int;
    assert(dx * dx >= 0 && dy * dy >= 0) by (nonlinear_arith);
    assert(-(r as int) <= dx <= r as int) by (nonlinear_arith)
        requires dx * dx <= r * r, 0 <= r,
    ;
    assert(-(r as int) <= dy <= r as int) by (nonlinear_arith)
        requires dy * dy <= r * r, 0 <= r,
    ;
    lemma_cells_within_two(p.x, q.x, s);
    lemma_cells_within_two(q.x, p.x, s);
    lemma_cells_within_two(p.y, q.y, s);
    lemma_cells_within_two(q.y, p.y, s);
    if (cell_of(p.x, s) - cell_of(q.x, s) == 2 || cell_of(q.x, s) - cell_of(p.x, s) == 2)
        && (cell_of(p.y, s) - cell_of(q.y, s) == 2 || cell_of(q.y, s) - cell_of(p.y, s) == 2) {
        if cell_of(p.x, s) - cell_of(q.x, s) == 2 {
            lemma_cells_two_apart(p.x, q.x, s);
        } else {
            lemma_cells_two_apart(q.x, p.x, s);
        }
        if cell_of(p.y, s) - cell_of(q.y, s) == 2 {
            lemma_cells_two_apart(p.y, q.y, s);
        } else {
            lemma_cells_two_apart(q.y, p.y, s);
        }
        assert(dx * dx >= (si + 1) * (si + 1)) by (nonlinear_arith)
            requires dx >= si + 1 || -dx >= si + 1, 1 <= si,
        ;
        assert(dy * dy >= (si + 1) * (si + 1)) by (nonlinear_arith)
            requires dy >= si + 1 || -dy >= si + 1, 1 <= si,
        ;
        assert(2 * ((si + 1) * (si + 1)) == 2 * (si + 1) * (si + 1)) by (nonlinear_arith);
        assert(false);
    }
}

} // verus!
