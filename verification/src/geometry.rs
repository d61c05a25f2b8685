use vstd::prelude::*;

verus! {

/// Every coordinate handled by the library stays within this bound.
/// Input endpoints must lie within `INPUT_COORD_LIMIT`; points derived by
/// subdivision can overshoot an endpoint by at most one grid unit, which
/// `COORD_LIMIT` absorbs.  The bound keeps every intermediate product of
/// the exact distance computations inside `i128`/`u128`.
pub const COORD_LIMIT: i64 = 1_000_000_001;

/// Bound for coordinates of raw input endpoints.
pub const INPUT_COORD_LIMIT: i64 = 1_000_000_000;

/// Square of a mathematical integer.
pub open spec fn sq(a: int) -> int {
    a * a
}

/// Largest integer whose square does not exceed `n` (0 for negative `n`).
pub open spec fn sqrt_floor(n: int) -> int
    decreases n,
{
    if n <= 0 {
        0
    } else {
        let s = sqrt_floor(n - 1);
        if sq(s + 1) <= n {
            s + 1
        } else {
            s
        }
    }
}

/// `sqrt_floor(n)` is indeed the floor of the square root of `n`.
pub proof fn lemma_sqrt_floor(n: int)
    requires
        n >= 0,
    ensures
        sqrt_floor(n) >= 0,
        sq(sqrt_floor(n)) <= n,
        n < sq(sqrt_floor(n) + 1),
    decreases n,
{
    if n == 0 {
        assert(sq(0) == 0) by (nonlinear_arith);
        assert(sq(1) == 1) by (nonlinear_arith);
    } else {
        lemma_sqrt_floor(n - 1);
        let s = sqrt_floor(n - 1);
        if sq(s + 1) <= n {
            assert(sq(s + 2) > n) by {
                assert(n - 1 < sq(s + 1));
                assert(sq(s + 2) == sq(s + 1) + 2 * (s + 1) + 1) by (nonlinear_arith);
            }
        } else {
        }
    }
}

/// The floor square root is unique: any `r` with `r^2 <= n < (r+1)^2`
/// equals `sqrt_floor(n)`.
pub proof fn lemma_sqrt_floor_unique(r: int, n: int)
    requires
        r >= 0,
        sq(r) <= n,
        n < sq(r + 1),
    ensures
        r == sqrt_floor(n),
{
    lemma_sqrt_floor(n);
    let f = sqrt_floor(n);
    if r < f {
        assert(sq(r + 1) <= sq(f)) by (nonlinear_arith)
            requires 0 <= r, r + 1 <= f;
        assert(false);
    }
    if f < r {
        assert(sq(f + 1) <= sq(r)) by (nonlinear_arith)
            requires 0 <= f, f + 1 <= r;
        assert(false);
    }
}

/// Floor of the square root of a 128-bit integer, by binary search.
pub fn isqrt(n: u128) -> (r: u64)
    ensures
        r == sqrt_floor(n as int),
        sq(r as int) <= n as int,
        (n as int) < sq(r as int + 1),
{
    let mut lo: u128 = 0;
    let mut hi: u128 = 0x1_0000_0000_0000_0000;
    proof {
        assert(sq(hi as int) > u128::MAX) by (nonlinear_arith)
            requires hi == 0x1_0000_0000_0000_0000u128;
    }
    while lo + 1 < hi
        invariant
            lo < hi <= 0x1_0000_0000_0000_0000u128,
            sq(lo as int) <= n as int,
            (n as int) < sq(hi as int),
        decreases hi - lo,
    {
        let mid: u128 = lo + (hi - lo) / 2;
        proof {
            assert(mid * mid <= u128::MAX) by (nonlinear_arith)
                requires mid < 0x1_0000_0000_0000_0000u128;
        }
        if mid * mid <= n {
            lo = mid;
        } else {
            hi = mid;
        }
    }
    proof {
        lemma_sqrt_floor_unique(lo as int, n as int);
    }
    lo as u64
}

/// `floor(v / sqrt(b))` for nonnegative `v` and positive `b`, characterized
/// without square roots: it is the unique `r` with
/// `r^2 * b <= v^2 < (r+1)^2 * b`.
pub fn floor_div_sqrt(v: u128, b: u128) -> (r: u64)
    requires
        1 <= b,
        v < 0x1_0000_0000_0000_0000u128,
    ensures
        r == sqrt_floor(sq(v as int) / (b as int)),
        sq(r as int) * (b as int) <= sq(v as int),
        sq(v as int) < sq(r as int + 1) * (b as int),
        r <= v,
{
    proof {
        assert(v * v <= u128::MAX) by (nonlinear_arith)
            requires v < 0x1_0000_0000_0000_0000u128;
    }
    let q: u128 = (v * v) / b;
    let r = isqrt(q);
    proof {
        let vi = v as int;
        let bi = b as int;
        let qi = q as int;
        let ri = r as int;
        vstd::arithmetic::div_mod::lemma_fundamental_div_mod(vi * vi, bi);
        vstd::arithmetic::div_mod::lemma_mod_bound(vi * vi, bi);
        assert(qi == (vi * vi) / bi);
        assert(qi * bi <= vi * vi < (qi + 1) * bi) by (nonlinear_arith)
            requires
                vi * vi == bi * qi + (vi * vi) % bi,
                0 <= (vi * vi) % bi < bi;
        assert(sq(ri) * bi <= qi * bi) by (nonlinear_arith)
            requires sq(ri) <= qi, bi >= 1;
        assert((qi + 1) * bi <= sq(ri + 1) * bi) by (nonlinear_arith)
            requires qi + 1 <= sq(ri + 1), bi >= 1;
        assert(sq(vi) == vi * vi);
        assert(ri <= vi) by (nonlinear_arith)
            requires sq(ri) * bi <= sq(vi), bi >= 1, ri >= 0, vi >= 0;
    }
    r
}

/// A planar point on the integer grid.
#[derive(Clone, Copy, Debug, PartialEq, Eq, Structural)]
pub struct Point {
    pub x: i64,
    pub y: i64,
}

impl Point {
    /// The point lies inside the coordinate bound of the library.
    pub open spec fn wf(self) -> bool {
        -COORD_LIMIT <= self.x <= COORD_LIMIT && -COORD_LIMIT <= self.y <= COORD_LIMIT
    }

    /// The point is acceptable as a raw input endpoint.
    pub open spec fn wf_input(self) -> bool {
        -INPUT_COORD_LIMIT <= self.x <= INPUT_COORD_LIMIT
            && -INPUT_COORD_LIMIT <= self.y <= INPUT_COORD_LIMIT
    }

    /// Looser bound met by points derived from well-formed ones,
    /// such as the end point of a sub-segment.
    pub open spec fn wf_ext(self) -> bool {
        -3 * COORD_LIMIT <= self.x <= 3 * COORD_LIMIT
            && -3 * COORD_LIMIT <= self.y <= 3 * COORD_LIMIT
    }

    pub fn new(x: i64, y: i64) -> (r: Point)
        ensures
            r.x == x,
            r.y == y,
    {
        Point { x, y }
    }
}

/// Exact squared Euclidean distance between two points.
pub open spec fn spec_sq_dist(p: Point, q: Point) -> int {
    sq(p.x - q.x) + sq(p.y - q.y)
}

/// Squared distances of well-formed points stay below this bound
/// (`8 * (2 * COORD_LIMIT)^2` rounded up generously).
pub proof fn lemma_sq_dist_bound(p: Point, q: Point)
    requires
        p.wf(),
        q.wf(),
    ensures
        0 <= spec_sq_dist(p, q) < 0x8000_0000_0000_0000,
{
    assert(0 <= sq(p.x - q.x) <= 0x4000_0000_0000_0000 && 0 <= sq(p.y - q.y)
        <= 0x4000_0000_0000_0000 && spec_sq_dist(p, q) < 0x8000_0000_0000_0000)
        by (nonlinear_arith)
        requires
            -COORD_LIMIT <= p.x <= COORD_LIMIT,
            -COORD_LIMIT <= q.x <= COORD_LIMIT,
            -COORD_LIMIT <= p.y <= COORD_LIMIT,
            -COORD_LIMIT <= q.y <= COORD_LIMIT;
}

/// Exact squared distance between two points within the extended bound.
pub fn sq_dist(p: &Point, q: &Point) -> (r: u128)
    requires
        p.wf_ext(),
        q.wf_ext(),
    ensures
        r as int == spec_sq_dist(*p, *q),
{
    let dx: i128 = p.x as i128 - q.x as i128;
    let dy: i128 = p.y as i128 - q.y as i128;
    proof {
        assert(dx * dx == sq(p.x - q.x) && 0 <= dx * dx <= 0x1_0000_0000_0000_0000_0000
            && dy * dy == sq(p.y - q.y) && 0 <= dy * dy <= 0x1_0000_0000_0000_0000_0000)
            by (nonlinear_arith)
            requires
                dx == p.x - q.x,
                dy == p.y - q.y,
                -6 * COORD_LIMIT <= dx <= 6 * COORD_LIMIT,
                -6 * COORD_LIMIT <= dy <= 6 * COORD_LIMIT;
    }
    (dx * dx + dy * dy) as u128
}

/// Distance between two points, rounded down to the grid.
pub open spec fn spec_dist_floor(p: Point, q: Point) -> int {
    sqrt_floor(spec_sq_dist(p, q))
}

/// Euclidean distance between two well-formed points, rounded down.
pub fn dist_floor(p: &Point, q: &Point) -> (r: u64)
    requires
        p.wf(),
        q.wf(),
    ensures
        r == spec_dist_floor(*p, *q),
        r < 0x1_0000_0000,
{
    proof {
        lemma_sq_dist_bound(*p, *q);
    }
    let d2 = sq_dist(p, q);
    let r = isqrt(d2);
    proof {
        assert(r < 0x1_0000_0000) by {
            if r >= 0x1_0000_0000 {
                assert(sq(r as int) >= 0x1_0000_0000_0000_0000) by (nonlinear_arith)
                    requires r >= 0x1_0000_0000u64;
            }
        }
    }
    r
}

/// One fixed-length sub-segment of a trajectory, stored as its start
/// and middle point; the end point is derived.
#[derive(Clone, Copy, Debug, PartialEq, Eq, Structural)]
pub struct Segment {
    pub id: usize,
    pub start: Point,
    pub middle: Point,
}

/// The derived end point of a sub-segment: `start + 2 * (middle - start)`.
pub open spec fn spec_segment_end(start: Point, middle: Point) -> Point {
    Point { x: (2 * middle.x - start.x) as i64, y: (2 * middle.y - start.y) as i64 }
}

impl Segment {
    pub open spec fn wf(self) -> bool {
        self.start.wf() && self.middle.wf()
    }

    pub fn new(id: usize, start: Point, middle: Point) -> (r: Segment)
        ensures
            r.id == id,
            r.start == start,
            r.middle == middle,
    {
        Segment { id, start, middle }
    }

    /// End point of the sub-segment, derived from start and middle.
    pub fn get_end(&self) -> (r: Point)
        requires
            self.wf(),
        ensures
            r == spec_segment_end(self.start, self.middle),
    {
        Point { x: 2 * self.middle.x - self.start.x, y: 2 * self.middle.y - self.start.y }
    }

    /// Length of the sub-segment (start to derived end), rounded down.
    pub fn get_length(&self) -> (r: u64)
        requires
            self.wf(),
        ensures
            r == sqrt_floor(spec_sq_dist(self.start, spec_segment_end(self.start, self.middle))),
    {
        let end = self.get_end();
        isqrt(sq_dist(&self.start, &end))
    }
}

} // verus!
