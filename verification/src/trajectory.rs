use vstd::prelude::*;
use crate::geometry::{
    Point, Segment, sq, sqrt_floor, spec_sq_dist, sq_dist, isqrt, floor_div_sqrt,
    lemma_sqrt_floor, lemma_sq_dist_bound,
};
use crate::input_od_line::InputODLine;
use crate::FULL_TURN_CD;

verus! {

/// Largest accepted sub-segment size, in grid units.
pub const SEGMENT_SIZE_LIMIT: u64 = 4_000_000_000;

/// Largest accepted spatial search radius, in grid units.
pub const MAX_DIST_LIMIT: u64 = 4_000_000_000;

/// Halving that rounds toward zero, matching machine integer division.
pub open spec fn trunc_half(a: int) -> int {
    if a >= 0 {
        a / 2
    } else {
        -((-a) / 2)
    }
}

/// Midpoint of two grid points, each coordinate rounded toward zero.
pub open spec fn spec_midpoint(p: Point, q: Point) -> Point {
    Point { x: trunc_half(p.x + q.x) as i64, y: trunc_half(p.y + q.y) as i64 }
}

/// Number of whole sub-segments of size `s` along a line of squared
/// length `len2`: the floor of `sqrt(len2) / s`.
pub open spec fn spec_num_segments(len2: int, s: int) -> int {
    sqrt_floor(len2 / (s * s))
}

/// `floor(|num| / sqrt(len2))`, carried back with the sign of `num`.
pub open spec fn spec_offset(num: int, len2: int) -> int {
    if num >= 0 {
        sqrt_floor(sq(num) / len2)
    } else {
        -sqrt_floor(sq(num) / len2)
    }
}

/// Boundary point `i` of the subdivision of the line `a -> b` into
/// sub-segments of size `s`: the point at distance `i * s` from `a`
/// along the line, each coordinate offset rounded toward zero.
pub open spec fn spec_boundary(a: Point, b: Point, s: int, i: int) -> Point {
    let len2 = spec_sq_dist(a, b);
    Point {
        x: (a.x + spec_offset(i * s * (b.x - a.x), len2)) as i64,
        y: (a.y + spec_offset(i * s * (b.y - a.y), len2)) as i64,
    }
}

/// Sub-segment `i` of the subdivision of `a -> b` into pieces of size `s`.
pub open spec fn spec_segment_at(a: Point, b: Point, s: int, i: int) -> Segment {
    Segment {
        id: i as usize,
        start: spec_boundary(a, b, s, i),
        middle: spec_midpoint(spec_boundary(a, b, s, i), spec_boundary(a, b, s, i + 1)),
    }
}

/// One weighted origin-destination line subdivided into fixed-length
/// sub-segments.  `angle` is the direction angle of the line in
/// centidegrees in `[0, 36000)`, supplied by the caller (it is the
/// `atan2` of the endpoint difference, rounded to hundredths of a
/// degree, which the grid cannot compute itself).
#[verifier::ext_equal]
pub struct Trajectory {
    pub id: usize,
    pub start: Point,
    pub end: Point,
    pub weight: u32,
    pub angle: u32,
    pub segment_size: u64,
    pub segments: Vec<Segment>,
}

impl Trajectory {
    /// Exact squared length of the line.
    pub open spec fn spec_len2(self) -> int {
        spec_sq_dist(self.start, self.end)
    }

    /// Number of sub-segments the line divides into.
    pub open spec fn spec_n(self) -> int {
        spec_num_segments(self.spec_len2(), self.segment_size as int)
    }

    /// The sub-segment sequence determined by the endpoints and size.
    pub open spec fn spec_segments(self) -> Seq<Segment> {
        Seq::new(
            self.spec_n() as nat,
            |i: int| spec_segment_at(self.start, self.end, self.segment_size as int, i),
        )
    }

    pub open spec fn wf(self) -> bool {
        &&& self.start.wf_input()
        &&& self.end.wf_input()
        &&& self.weight >= 1
        &&& self.angle < FULL_TURN_CD
        &&& 1 <= self.segment_size <= SEGMENT_SIZE_LIMIT
        &&& self.segments@ == self.spec_segments()
        &&& forall|i: int|
            0 <= i < self.segments@.len() ==> (#[trigger] self.segments@[i]).start.wf_input()
                && self.segments@[i].middle.wf_input()
    }

    /// Builds a trajectory from a parsed input line, its direction angle
    /// in centidegrees, and the configured sub-segment size.
    pub fn new(input: InputODLine, angle: u32, segment_size: u64) -> (r: Trajectory)
        requires
            input.wf(),
            angle < FULL_TURN_CD,
            1 <= segment_size <= SEGMENT_SIZE_LIMIT,
        ensures
            r.wf(),
            r.id == input.line_id,
            r.start == input.start,
            r.end == input.end,
            r.weight == input.weight,
            r.angle == angle,
            r.segment_size == segment_size,
    {
        let mut t = Trajectory {
            id: input.line_id,
            start: input.start,
            end: input.end,
            weight: input.weight,
            angle,
            segment_size,
            segments: Vec::new(),
        };
        t.create_segments();
        t
    }

    /// Recomputes the sub-segment list from the endpoints and size.
    pub fn create_segments(&mut self)
        requires
            old(self).start.wf_input(),
            old(self).end.wf_input(),
            1 <= old(self).segment_size <= SEGMENT_SIZE_LIMIT,
        ensures
            final(self).id == old(self).id,
            final(self).start == old(self).start,
            final(self).end == old(self).end,
            final(self).weight == old(self).weight,
            final(self).angle == old(self).angle,
            final(self).segment_size == old(self).segment_size,
            final(self).segments@ == final(self).spec_segments(),
            forall|i: int|
                0 <= i < final(self).segments@.len() ==> (
                #[trigger] final(self).segments@[i]).start.wf_input()
                    && final(self).segments@[i].middle.wf_input(),
    {
        let a = self.start;
        let b = self.end;
        let s = self.segment_size;
        let len2 = sq_dist(&a, &b);
        proof {
            assert((s as u128) * (s as u128) <= u128::MAX) by (nonlinear_arith)
                requires s <= SEGMENT_SIZE_LIMIT;
        }
        let s2: u128 = (s as u128) * (s as u128);
        proof {
            lemma_sq_dist_bound(a, b);
            assert(s2 >= 1) by (nonlinear_arith)
                requires s >= 1, s2 == s as u128 * s as u128;
        }
        let q: u128 = len2 / s2;
        let n64 = isqrt(q);
        proof {
            assert(s2 as int == sq(s as int)) by (nonlinear_arith)
                requires s2 == s as u128 * s as u128;
            assert(n64 as int == spec_num_segments(len2 as int, s as int));
            // q <= len2 < 2^63, so n64 < 2^32 and fits usize
            vstd::arithmetic::div_mod::lemma_div_is_ordered_by_denominator(len2 as int, 1, s2 as int);
            vstd::arithmetic::div_mod::lemma_div_basics(len2 as int);
            assert(q <= len2);
            assert(n64 < 0x1_0000_0000u64) by (nonlinear_arith)
                requires sq(n64 as int) <= q as int, q < 0x8000_0000_0000_0000u128;
        }
        let n: usize = n64 as usize;
        let mut segs: Vec<Segment> = Vec::new();
        let mut i: usize = 0;
        proof {
            lemma_sqrt_floor(q as int);
            vstd::arithmetic::div_mod::lemma_fundamental_div_mod(len2 as int, s2 as int);
            vstd::arithmetic::div_mod::lemma_mod_bound(len2 as int, s2 as int);
            // n^2 * s^2 <= q * s^2 <= len2
            assert(sq(n as int * s as int) <= len2 as int) by (nonlinear_arith)
                requires
                    sq(n as int) <= q as int,
                    len2 as int == s2 as int * (q as int) + (len2 as int) % (s2 as int),
                    0 <= (len2 as int) % (s2 as int),
                    s2 as int == sq(s as int),
                    s >= 1;
            assert(n >= 1 ==> 1 <= len2) by (nonlinear_arith)
                requires
                    n as int <= sqrt_floor(q as int),
                    sq(n as int * s as int) <= len2 as int,
                    s >= 1;
        }
        while i < n
            invariant
                i <= n,
                n == spec_num_segments(spec_sq_dist(a, b), s as int),
                len2 as int == spec_sq_dist(a, b),
                1 <= len2 || n == 0,
                sq(n as int * s as int) <= len2 as int,
                a.wf_input(),
                b.wf_input(),
                1 <= s <= SEGMENT_SIZE_LIMIT,
                segs@.len() == i,
                forall|j: int| 0 <= j < i ==> segs@[j] == spec_segment_at(a, b, s as int, j),
                forall|j: int|
                    0 <= j < i ==> (#[trigger] segs@[j]).start.wf_input()
                        && segs@[j].middle.wf_input(),
            decreases n - i,
        {
            proof {
                assert(sq(i as int * s as int) <= sq(n as int * s as int)
                    && sq((i + 1) as int * s as int) <= sq(n as int * s as int))
                    by (nonlinear_arith)
                    requires 0 <= i < n, s >= 1;
            }
            let b0 = boundary_point(&a, &b, s, len2, i as u64);
            let b1 = boundary_point(&a, &b, s, len2, (i + 1) as u64);
            let mid = midpoint_trunc(&b0, &b1);
            segs.push(Segment { id: i, start: b0, middle: mid });
            i = i + 1;
        }
        self.segments = segs;
        proof {
            assert(self.segments@ =~= self.spec_segments());
        }
    }
}

/// Exact boundary point `i` of the subdivision of `a -> b`, computed on
/// the grid.  The result always lies within the bounding box of `a`
/// and `b`.
fn boundary_point(a: &Point, b: &Point, s: u64, len2: u128, i: u64) -> (r: Point)
    requires
        a.wf_input(),
        b.wf_input(),
        1 <= s,
        len2 as int == spec_sq_dist(*a, *b),
        1 <= len2,
        sq(i as int * s as int) <= len2 as int,
    ensures
        r == spec_boundary(*a, *b, s as int, i as int),
        a.x <= b.x ==> a.x <= r.x <= b.x,
        b.x <= a.x ==> b.x <= r.x <= a.x,
        a.y <= b.y ==> a.y <= r.y <= b.y,
        b.y <= a.y ==> b.y <= r.y <= a.y,
        r.wf_input(),
{
    proof {
        lemma_sq_dist_bound(*a, *b);
    }
    proof {
        assert((i as u128) * (s as u128) <= u128::MAX) by (nonlinear_arith)
            requires i <= u64::MAX, s <= u64::MAX;
    }
    let q: u128 = (i as u128) * (s as u128);
    proof {
        assert(q as int == i as int * s as int) by (nonlinear_arith)
            requires q == i as u128 * s as u128;
        assert(q < 0x1_0000_0000u128) by (nonlinear_arith)
            requires sq(q as int) <= len2 as int, len2 < 0x8000_0000_0000_0000u128;
    }
    let rx = boundary_coord(a.x, b.x, q, len2, Ghost(i as int * s as int * (b.x - a.x)));
    let ry = boundary_coord(a.y, b.y, q, len2, Ghost(i as int * s as int * (b.y - a.y)));
    Point { x: rx, y: ry }
}

/// One coordinate of a boundary point: `ac + trunc((q * (bc - ac)) / sqrt(len2))`.
fn boundary_coord(ac: i64, bc: i64, q: u128, len2: u128, num: Ghost<int>) -> (r: i64)
    requires
        -1_000_000_000i64 <= ac <= 1_000_000_000i64,
        -1_000_000_000i64 <= bc <= 1_000_000_000i64,
        1 <= len2 < 0x8000_0000_0000_0000u128,
        q < 0x1_0000_0000u128,
        sq(q as int) <= len2 as int,
        num@ == q as int * (bc - ac),
    ensures
        r as int == ac + spec_offset(num@, len2 as int),
        ac <= bc ==> ac <= r <= bc,
        bc <= ac ==> bc <= r <= ac,
{
    let (delta, neg): (u64, bool) = if bc >= ac {
        ((bc - ac) as u64, false)
    } else {
        ((ac - bc) as u64, true)
    };
    proof {
        assert(q * (delta as u128) <= u128::MAX) by (nonlinear_arith)
            requires q < 0x1_0000_0000u128, delta <= 2_000_000_000u64;
    }
    let v: u128 = q * (delta as u128);
    proof {
        assert(v < 0x1_0000_0000_0000_0000u128) by (nonlinear_arith)
            requires
                v == q * (delta as u128),
                q < 0x1_0000_0000u128,
                delta <= 2_000_000_000u64;
        assert(sq(v as int) == sq(num@)) by (nonlinear_arith)
            requires
                v == q * (delta as u128),
                num@ == q as int * (bc - ac),
                delta as int == bc - ac || delta as int == ac - bc;
    }
    let off = floor_div_sqrt(v, len2);
    proof {
        // off <= delta: off^2 * len2 <= v^2 = q^2 * delta^2 <= len2 * delta^2
        assert(off <= delta) by (nonlinear_arith)
            requires
                sq(off as int) * (len2 as int) <= sq(v as int),
                v == q * (delta as u128),
                sq(q as int) <= len2 as int,
                1 <= len2;
        assert(off as int == sqrt_floor(sq(num@) / (len2 as int)));
        if neg {
            assert(num@ <= 0) by (nonlinear_arith)
                requires num@ == q as int * (bc - ac), bc <= ac, q >= 0;
            assert(num@ == 0 ==> off == 0) by {
                if num@ == 0 {
                    assert(sq(0int) == 0) by (nonlinear_arith);
                    assert(sq(off as int) * (len2 as int) <= 0);
                    assert(off != 0 ==> sq(off as int) * (len2 as int) > 0) by (nonlinear_arith)
                        requires len2 >= 1;
                }
            }
        } else {
            assert(num@ >= 0) by (nonlinear_arith)
                requires num@ == q as int * (bc - ac), ac <= bc, q >= 0;
        }
    }
    if neg {
        ac - (off as i64)
    } else {
        ac + (off as i64)
    }
}

/// Midpoint of two points, each coordinate rounded toward zero; the
/// result stays within the bounding box of the two points.
fn midpoint_trunc(p: &Point, q: &Point) -> (r: Point)
    requires
        p.wf(),
        q.wf(),
    ensures
        r == spec_midpoint(*p, *q),
        p.x <= q.x ==> p.x <= r.x <= q.x,
        q.x <= p.x ==> q.x <= r.x <= p.x,
        p.y <= q.y ==> p.y <= r.y <= q.y,
        q.y <= p.y ==> q.y <= r.y <= p.y,
{
    let rx = half_trunc(p.x + q.x, Ghost(p.x as int), Ghost(q.x as int));
    let ry = half_trunc(p.y + q.y, Ghost(p.y as int), Ghost(q.y as int));
    Point { x: rx, y: ry }
}

/// `a / 2` rounded toward zero, for `a = lo + hi`; the result lies
/// between `lo` and `hi`.
fn half_trunc(a: i64, lo: Ghost<int>, hi: Ghost<int>) -> (r: i64)
    requires
        -0x4000_0000_0000_0000i64 < a,
        a == lo@ + hi@,
    ensures
        r as int == trunc_half(a as int),
        lo@ <= hi@ ==> lo@ <= r <= hi@,
        hi@ <= lo@ ==> hi@ <= r <= lo@,
{
    let r: i64 = if a >= 0 {
        let u = a as u64;
        proof {
            vstd::arithmetic::div_mod::lemma_fundamental_div_mod(u as int, 2);
        }
        (u / 2) as i64
    } else {
        let u = (-a) as u64;
        proof {
            vstd::arithmetic::div_mod::lemma_fundamental_div_mod(u as int, 2);
        }
        -((u / 2) as i64)
    };
    r
}


impl Trajectory {
    /// Dot product of `p - start` with `end - start`: the unnormalized
    /// projection of `p` onto the carrier line of the trajectory.
    pub open spec fn spec_dot(self, p: Point) -> int {
        (p.x - self.start.x) * (self.end.x - self.start.x)
            + (p.y - self.start.y) * (self.end.y - self.start.y)
    }

    /// Exact predicate: the distance from `p` to the trajectory's
    /// carrier segment (perpendicular foot clamped to the endpoints)
    /// is at most `d`.  Stated over squared quantities only.
    pub open spec fn spec_within_dist(self, p: Point, d: int) -> bool {
        let len2 = self.spec_len2();
        let dp = self.spec_dot(p);
        if len2 == 0 || dp <= 0 {
            spec_sq_dist(p, self.start) <= d * d
        } else if dp >= len2 {
            spec_sq_dist(p, self.end) <= d * d
        } else {
            spec_sq_dist(p, self.start) * len2 - dp * dp <= d * d * len2
        }
    }

    /// Index of the sub-segment nearest to the projection of `p`:
    /// `floor(t * length / segment_size)` clamped to the valid range,
    /// where `t` is the clamped projection parameter.
    pub open spec fn spec_nearest_idx(self, p: Point) -> int {
        let dp = self.spec_dot(p);
        let n = self.spec_n();
        if dp <= 0 {
            0
        } else {
            let k = sqrt_floor(sq(dp) / (sq(self.segment_size as int) * self.spec_len2()));
            if k >= n {
                n - 1
            } else {
                k
            }
        }
    }

    /// Distance from `p` to the trajectory's carrier segment, rounded
    /// down to the grid.
    pub open spec fn spec_dist_floor_to(self, p: Point) -> int {
        let len2 = self.spec_len2();
        let dp = self.spec_dot(p);
        if len2 == 0 || dp <= 0 {
            sqrt_floor(spec_sq_dist(p, self.start))
        } else if dp >= len2 {
            sqrt_floor(spec_sq_dist(p, self.end))
        } else {
            sqrt_floor((spec_sq_dist(p, self.start) * len2 - dp * dp) / len2)
        }
    }

    /// Exact dot product of `p - start` with `end - start`.
    fn dot_exec(&self, p: &Point) -> (r: i128)
        requires
            self.start.wf_input(),
            self.end.wf_input(),
            p.wf(),
        ensures
            r == self.spec_dot(*p),
            -0x8000_0000_0000_0000i128 < r < 0x8000_0000_0000_0000i128,
    {
        let pdx: i128 = p.x as i128 - self.start.x as i128;
        let pdy: i128 = p.y as i128 - self.start.y as i128;
        let dx: i128 = self.end.x as i128 - self.start.x as i128;
        let dy: i128 = self.end.y as i128 - self.start.y as i128;
        proof {
            assert(-0x4000_0000_0000_0000i128 < pdx * dx < 0x4000_0000_0000_0000i128
                && -0x4000_0000_0000_0000i128 < pdy * dy < 0x4000_0000_0000_0000i128)
                by (nonlinear_arith)
                requires
                    -2_100_000_000 <= pdx <= 2_100_000_000,
                    -2_100_000_000 <= pdy <= 2_100_000_000,
                    -2_100_000_000 <= dx <= 2_100_000_000,
                    -2_100_000_000 <= dy <= 2_100_000_000;
        }
        pdx * dx + pdy * dy
    }

    /// Sub-segment index for a positive projection `dotv`, clamped to
    /// the valid range.
    fn clamped_index(&self, dotv: i128, len2: u128) -> (k: usize)
        requires
            self.wf(),
            self.segments@.len() >= 1,
            len2 as int == self.spec_len2(),
            1 <= len2 < 0x8000_0000_0000_0000u128,
            0 < dotv < 0x8000_0000_0000_0000i128,
        ensures
            ({
                let kk = sqrt_floor(sq(dotv as int) / (sq(self.segment_size as int) * (len2 as int)));
                ((kk >= self.spec_n()) ==> k == self.spec_n() - 1)
                    && ((kk < self.spec_n()) ==> k == kk)
            }),
            k < self.segments@.len(),
    {
        let s = self.segment_size;
        proof {
            assert((s as u128) * (s as u128) < 0x1_0000_0000_0000_0000u128)
                by (nonlinear_arith)
                requires s <= SEGMENT_SIZE_LIMIT;
            assert((s as u128) * (s as u128) * len2 < 0x8000_0000_0000_0000_0000_0000_0000_0000u128
                && (s as u128) * (s as u128) * len2 == sq(s as int) * (len2 as int)
                && (s as u128) * (s as u128) * len2 >= 1)
                by (nonlinear_arith)
                requires
                    (s as u128) * (s as u128) < 0x1_0000_0000_0000_0000u128,
                    1 <= s,
                    1 <= len2 < 0x8000_0000_0000_0000u128;
        }
        let s2l: u128 = (s as u128) * (s as u128) * len2;
        let k64 = floor_div_sqrt(dotv as u128, s2l);
        let n = self.segments.len();
        proof {
            lemma_spec_n_nonneg(*self);
            assert(self.segments@.len() == self.spec_n());
        }
        if k64 >= n as u64 {
            n - 1
        } else {
            proof {
                assert(k64 as int == sqrt_floor(sq(dotv as int) / (sq(self.segment_size as int) * (len2 as int))));
            }
            k64 as usize
        }
    }

    /// Distance from `p` to the trajectory (rounded down) and the index
    /// of the nearest sub-segment.
    pub fn distance_to_point(&self, p: &Point) -> (r: (u64, usize))
        requires
            self.wf(),
            p.wf(),
            self.segments@.len() > 0,
        ensures
            r.0 == self.spec_dist_floor_to(*p),
            r.1 == self.spec_nearest_idx(*p),
            r.1 < self.segments@.len(),
    {
        proof {
            lemma_sq_dist_bound(self.start, self.end);
            lemma_sq_dist_bound(*p, self.start);
            lemma_sq_dist_bound(*p, self.end);
            lemma_spec_n_nonneg(*self);
            lemma_trajectory_with_segments_has_length(*self);
        }
        let len2 = sq_dist(&self.start, &self.end);
        let dotv = self.dot_exec(p);
        if dotv <= 0 {
            let d = isqrt(sq_dist(p, &self.start));
            (d, 0)
        } else {
            let idx = self.clamped_index(dotv, len2);
            if dotv >= len2 as i128 {
                let d = isqrt(sq_dist(p, &self.end));
                (d, idx)
            } else {
                let papa = sq_dist(p, &self.start);
                proof {
                    lemma_dot_cauchy_schwarz(*self, *p);
                    assert(papa * len2 <= 0x4000_0000_0000_0000_0000_0000_0000_0000u128
                        && dotv * dotv <= 0x4000_0000_0000_0000_0000_0000_0000_0000i128
                        && papa * len2 == spec_sq_dist(*p, self.start) * self.spec_len2())
                        by (nonlinear_arith)
                        requires
                            papa < 0x8000_0000_0000_0000u128,
                            len2 < 0x8000_0000_0000_0000u128,
                            papa as int == spec_sq_dist(*p, self.start),
                            len2 as int == self.spec_len2(),
                            0 < dotv < 0x8000_0000_0000_0000i128;
                }
                let dd: i128 = dotv * dotv;
                let lhs: u128 = papa * len2 - (dd as u128);
                let d = isqrt(lhs / len2);
                (d, idx)
            }
        }
    }

    /// Tests whether `p` lies within `max_dist` of the trajectory's
    /// carrier segment; on success returns the nearest sub-segment
    /// index.  A trajectory without sub-segments is never reached.
    pub fn reach_segment(&self, p: &Point, max_dist: u64) -> (r: Option<usize>)
        requires
            self.wf(),
            p.wf(),
            max_dist <= MAX_DIST_LIMIT,
        ensures
            r is Some <==> (self.segments@.len() > 0 && self.spec_within_dist(
                *p,
                max_dist as int,
            )),
            r is Some ==> r->Some_0 == self.spec_nearest_idx(*p) && r->Some_0
                < self.segments@.len(),
    {
        if self.segments.len() == 0 {
            return None;
        }
        proof {
            lemma_sq_dist_bound(self.start, self.end);
            lemma_sq_dist_bound(*p, self.start);
            lemma_sq_dist_bound(*p, self.end);
            lemma_spec_n_nonneg(*self);
            lemma_trajectory_with_segments_has_length(*self);
            assert((max_dist as u128) * (max_dist as u128) == sq(max_dist as int)
                && (max_dist as u128) * (max_dist as u128) < 0x1_0000_0000_0000_0000u128)
                by (nonlinear_arith)
                requires max_dist <= MAX_DIST_LIMIT;
        }
        let d2: u128 = (max_dist as u128) * (max_dist as u128);
        let len2 = sq_dist(&self.start, &self.end);
        let dotv = self.dot_exec(p);
        if dotv <= 0 {
            if sq_dist(p, &self.start) <= d2 {
                Some(0)
            } else {
                None
            }
        } else {
            let idx = self.clamped_index(dotv, len2);
            if dotv >= len2 as i128 {
                if sq_dist(p, &self.end) <= d2 {
                    Some(idx)
                } else {
                    None
                }
            } else {
                let papa = sq_dist(p, &self.start);
                proof {
                    lemma_dot_cauchy_schwarz(*self, *p);
                    assert(papa * len2 <= 0x4000_0000_0000_0000_0000_0000_0000_0000u128
                        && dotv * dotv <= 0x4000_0000_0000_0000_0000_0000_0000_0000i128
                        && papa * len2 == spec_sq_dist(*p, self.start) * self.spec_len2()
                        && d2 * len2 < 0x8000_0000_0000_0000_0000_0000_0000_0000u128
                        && d2 * len2 == sq(max_dist as int) * self.spec_len2())
                        by (nonlinear_arith)
                        requires
                            papa < 0x8000_0000_0000_0000u128,
                            len2 < 0x8000_0000_0000_0000u128,
                            papa as int == spec_sq_dist(*p, self.start),
                            len2 as int == self.spec_len2(),
                            0 < dotv < 0x8000_0000_0000_0000i128,
                            d2 < 0x1_0000_0000_0000_0000u128,
                            d2 == sq(max_dist as int);
                }
                let dd: i128 = dotv * dotv;
                let lhs: u128 = papa * len2 - (dd as u128);
                let rhs: u128 = d2 * len2;
                if lhs <= rhs {
                    Some(idx)
                } else {
                    None
                }
            }
        }
    }
}

/// Cauchy-Schwarz on the grid: the squared projection never exceeds
/// the product of the squared lengths.
pub proof fn lemma_dot_cauchy_schwarz(t: Trajectory, p: Point)
    ensures
        t.spec_dot(p) * t.spec_dot(p) <= spec_sq_dist(p, t.start) * t.spec_len2(),
{
    let pdx = p.x - t.start.x;
    let pdy = p.y - t.start.y;
    let dx = t.end.x - t.start.x;
    let dy = t.end.y - t.start.y;
    let u = pdx * dx;
    let v = pdy * dy;
    let w = pdx * dy;
    let z = pdy * dx;
    assert(u * v == w * z) by (nonlinear_arith)
        requires u == pdx * dx, v == pdy * dy, w == pdx * dy, z == pdy * dx;
    assert(u * u == (pdx * pdx) * (dx * dx) && v * v == (pdy * pdy) * (dy * dy) && w * w == (pdx
        * pdx) * (dy * dy) && z * z == (pdy * pdy) * (dx * dx)) by (nonlinear_arith)
        requires u == pdx * dx, v == pdy * dy, w == pdx * dy, z == pdy * dx;
    assert((u + v) * (u + v) == u * u + 2 * (u * v) + v * v) by (nonlinear_arith);
    assert((w - z) * (w - z) == w * w - 2 * (w * z) + z * z) by (nonlinear_arith);
    assert((w - z) * (w - z) >= 0) by (nonlinear_arith);
    assert((pdx * pdx + pdy * pdy) * (dx * dx + dy * dy) == (pdx * pdx) * (dx * dx) + (pdx * pdx)
        * (dy * dy) + (pdy * pdy) * (dx * dx) + (pdy * pdy) * (dy * dy)) by (nonlinear_arith);
    assert(sq(pdx) == pdx * pdx && sq(pdy) == pdy * pdy && sq(dx) == dx * dx && sq(dy) == dy * dy);
    assert(2 * (w * z) <= w * w + z * z);
    assert((u + v) * (u + v) == u * u + 2 * (w * z) + v * v);
    assert(t.spec_dot(p) == u + v);
    assert(spec_sq_dist(p, t.start) == pdx * pdx + pdy * pdy);
    assert(sq(t.start.x - t.end.x) == dx * dx && sq(t.start.y - t.end.y) == dy * dy)
        by (nonlinear_arith)
        requires dx == t.end.x - t.start.x, dy == t.end.y - t.start.y;
    assert(t.spec_len2() == dx * dx + dy * dy);
    assert((u + v) * (u + v) <= (pdx * pdx + pdy * pdy) * (dx * dx + dy * dy));
    assert(t.spec_dot(p) * t.spec_dot(p) == (u + v) * (u + v)) by (nonlinear_arith)
        requires t.spec_dot(p) == u + v;
}

/// The sub-segment count of a trajectory is never negative.
pub proof fn lemma_spec_n_nonneg(t: Trajectory)
    ensures
        t.spec_n() >= 0,
{
    lemma_sqrt_floor_nonneg(
        t.spec_len2() / (t.segment_size as int * t.segment_size as int),
    );
}

/// A trajectory that has at least one sub-segment has a line at least
/// one sub-segment long; in particular its squared length is positive.
pub proof fn lemma_trajectory_with_segments_has_length(t: Trajectory)
    requires
        t.wf(),
        t.spec_n() >= 1,
    ensures
        t.spec_len2() >= sq(t.segment_size as int),
        t.spec_len2() >= 1,
{
    let len2 = t.spec_len2();
    let s = t.segment_size as int;
    let q = len2 / (s * s);
    assert(len2 >= 0) by {
        assert(sq(t.start.x - t.end.x) >= 0 && sq(t.start.y - t.end.y) >= 0)
            by (nonlinear_arith);
    }
    assert(s * s >= 1) by (nonlinear_arith)
        requires s >= 1;
    if q < 0 {
        vstd::arithmetic::div_mod::lemma_div_pos_is_pos(len2, s * s);
        assert(false);
    }
    lemma_sqrt_floor(q);
    assert(sq(1) <= q) by {
        if q < 1 {
            assert(sqrt_floor(q) == 0);
        }
        assert(sq(1) == 1) by (nonlinear_arith);
    }
    assert(s * s >= 1) by (nonlinear_arith)
        requires s >= 1;
    vstd::arithmetic::div_mod::lemma_fundamental_div_mod(len2, s * s);
    vstd::arithmetic::div_mod::lemma_mod_bound(len2, s * s);
    assert(len2 >= sq(s)) by (nonlinear_arith)
        requires
            len2 == (s * s) * q + len2 % (s * s),
            0 <= len2 % (s * s),
            q >= 1;
    assert(sq(s) >= 1) by (nonlinear_arith)
        requires s >= 1;
}

/// A line shorter than one sub-segment yields no sub-segments at all.
pub proof fn lemma_short_line_has_no_segments(t: Trajectory)
    requires
        t.wf(),
        t.spec_len2() < sq(t.segment_size as int),
    ensures
        t.spec_n() == 0,
{
    if t.spec_n() >= 1 {
        lemma_trajectory_with_segments_has_length(t);
    }
    if t.spec_n() < 0 {
        lemma_sqrt_floor_nonneg(t.spec_len2() / (sq(t.segment_size as int)));
    }
}

/// `sqrt_floor` never returns a negative value.
pub proof fn lemma_sqrt_floor_nonneg(n: int)
    ensures
        sqrt_floor(n) >= 0,
    decreases n,
{
    if n > 0 {
        lemma_sqrt_floor_nonneg(n - 1);
    }
}

} // verus!
