use vstd::prelude::*;
use crate::cluster::{Cluster, ClusterMember, weight_sum};
use crate::geometry::COORD_LIMIT;
use crate::priority_queue::queue_cluster_wf;

verus! {

/// Sum of `f` over a sequence of members.
pub open spec fn member_sum(ms: Seq<ClusterMember>, f: spec_fn(ClusterMember) -> int) -> int
    decreases ms.len(),
{
    if ms.len() == 0 {
        0
    } else {
        member_sum(ms.drop_last(), f) + f(ms.last())
    }
}

/// A term bound per unit of weight carries over to the whole sum.
pub proof fn lemma_member_sum_bound(
    ms: Seq<ClusterMember>,
    f: spec_fn(ClusterMember) -> int,
    bound: int,
)
    requires
        bound >= 0,
        forall|i: int|
            0 <= i < ms.len() ==> -((#[trigger] ms[i]).weight * bound) <= f(ms[i]) <= ms[i].weight
                * bound,
    ensures
        -(weight_sum(ms) * bound) <= member_sum(ms, f) <= weight_sum(ms) * bound,
    decreases ms.len(),
{
    if ms.len() == 0 {
    } else {
        lemma_member_sum_bound(ms.drop_last(), f, bound);
        assert((weight_sum(ms.drop_last()) + ms.last().weight) * bound == weight_sum(
            ms.drop_last(),
        ) * bound + ms.last().weight * bound) by (nonlinear_arith);
    }
}

pub proof fn lemma_member_sum_take_succ(
    ms: Seq<ClusterMember>,
    f: spec_fn(ClusterMember) -> int,
    i: int,
)
    requires
        0 <= i < ms.len(),
    ensures
        member_sum(ms.take(i + 1), f) == member_sum(ms.take(i), f) + f(ms[i]),
{
    assert(ms.take(i + 1).drop_last() =~= ms.take(i));
    assert(ms.take(i + 1).last() == ms[i]);
}

/// `weight * x` of a member's start, per axis.
pub open spec fn weighted_start_x(m: ClusterMember) -> int {
    m.weight * m.start.x
}

pub open spec fn weighted_start_y(m: ClusterMember) -> int {
    m.weight * m.start.y
}

/// `weight * x` of a member's implied end (`2 * center - start`), per
/// axis.
pub open spec fn weighted_end_x(m: ClusterMember) -> int {
    m.weight * (2 * m.center.x - m.start.x)
}

pub open spec fn weighted_end_y(m: ClusterMember) -> int {
    m.weight * (2 * m.center.y - m.start.y)
}

/// Exact numerator of the weighted mean start point of a cluster
/// (seed and members), per axis; the divisor is the cluster's total
/// weight.
pub open spec fn spec_start_sum_x(c: Cluster) -> int {
    weighted_start_x(c.seed.cm) + member_sum(c.members@, |m: ClusterMember| weighted_start_x(m))
}

pub open spec fn spec_start_sum_y(c: Cluster) -> int {
    weighted_start_y(c.seed.cm) + member_sum(c.members@, |m: ClusterMember| weighted_start_y(m))
}

pub open spec fn spec_end_sum_x(c: Cluster) -> int {
    weighted_end_x(c.seed.cm) + member_sum(c.members@, |m: ClusterMember| weighted_end_x(m))
}

pub open spec fn spec_end_sum_y(c: Cluster) -> int {
    weighted_end_y(c.seed.cm) + member_sum(c.members@, |m: ClusterMember| weighted_end_y(m))
}

/// A finalized cluster reduced to one representative weighted
/// segment.  The endpoints are kept exact, as weighted coordinate
/// sums over the common divisor `weight`; a front end divides when it
/// formats output.
pub struct Corridor {
    pub id: usize,
    pub weight: u64,
    pub start_sum_x: i128,
    pub start_sum_y: i128,
    pub end_sum_x: i128,
    pub end_sum_y: i128,
    pub cluster: Cluster,
}

impl Corridor {
    pub open spec fn wf(self) -> bool {
        &&& queue_cluster_wf(self.cluster)
        &&& self.weight == self.cluster.total_weight
        &&& self.start_sum_x == spec_start_sum_x(self.cluster)
        &&& self.start_sum_y == spec_start_sum_y(self.cluster)
        &&& self.end_sum_x == spec_end_sum_x(self.cluster)
        &&& self.end_sum_y == spec_end_sum_y(self.cluster)
    }

    /// Builds the corridor of a finalized cluster: its weight is the
    /// cluster's total weight, and its endpoints are the
    /// weight-weighted means of the participants' starts and implied
    /// ends.
    pub fn new(cluster: Cluster, id: usize) -> (r: Corridor)
        requires
            queue_cluster_wf(cluster),
        ensures
            r.wf(),
            r.id == id,
            r.weight == cluster.total_weight,
            r.cluster == cluster,
            r.weight == cluster.seed.cm.weight + weight_sum(cluster.members@),
    {
        let sums = Self::weighted_average(&cluster);
        let weight: u64 = cluster.total_weight;
        Corridor {
            id,
            weight,
            start_sum_x: sums.0,
            start_sum_y: sums.1,
            end_sum_x: sums.2,
            end_sum_y: sums.3,
            cluster,
        }
    }

    /// Exact weighted coordinate sums over seed and members:
    /// `(start_x, start_y, end_x, end_y)`.
    pub fn weighted_average(cluster: &Cluster) -> (r: (i128, i128, i128, i128))
        requires
            queue_cluster_wf(*cluster),
        ensures
            r.0 == spec_start_sum_x(*cluster),
            r.1 == spec_start_sum_y(*cluster),
            r.2 == spec_end_sum_x(*cluster),
            r.3 == spec_end_sum_y(*cluster),
    {
        let seed_end = Self::get_weighted_end(&cluster.seed.cm);
        proof {
            lemma_weighted_member_bound(cluster.seed.cm);
        }
        let mut sx: i128 = (cluster.seed.cm.weight as i128) * (cluster.seed.cm.start.x as i128);
        let mut sy: i128 = (cluster.seed.cm.weight as i128) * (cluster.seed.cm.start.y as i128);
        let mut ex: i128 = seed_end.0;
        let mut ey: i128 = seed_end.1;
        let ghost fx = |m: ClusterMember| weighted_start_x(m);
        let ghost fy = |m: ClusterMember| weighted_start_y(m);
        let ghost gx = |m: ClusterMember| weighted_end_x(m);
        let ghost gy = |m: ClusterMember| weighted_end_y(m);
        let n = cluster.members.len();
        let mut i: usize = 0;
        while i < n
            invariant
                n == cluster.members@.len(),
                0 <= i <= n,
                queue_cluster_wf(*cluster),
                fx == (|m: ClusterMember| weighted_start_x(m)),
                fy == (|m: ClusterMember| weighted_start_y(m)),
                gx == (|m: ClusterMember| weighted_end_x(m)),
                gy == (|m: ClusterMember| weighted_end_y(m)),
                sx == weighted_start_x(cluster.seed.cm) + member_sum(
                    cluster.members@.take(i as int),
                    fx,
                ),
                sy == weighted_start_y(cluster.seed.cm) + member_sum(
                    cluster.members@.take(i as int),
                    fy,
                ),
                ex == weighted_end_x(cluster.seed.cm) + member_sum(
                    cluster.members@.take(i as int),
                    gx,
                ),
                ey == weighted_end_y(cluster.seed.cm) + member_sum(
                    cluster.members@.take(i as int),
                    gy,
                ),
            decreases n - i,
        {
            let m = cluster.members[i];
            proof {
                lemma_weighted_member_bound(m);
                lemma_partial_sums_bounded(*cluster, i as int);
                lemma_partial_sums_bounded(*cluster, i as int + 1);
                lemma_member_sum_take_succ(cluster.members@, fx, i as int);
                lemma_member_sum_take_succ(cluster.members@, fy, i as int);
                lemma_member_sum_take_succ(cluster.members@, gx, i as int);
                lemma_member_sum_take_succ(cluster.members@, gy, i as int);
                assert(m.weight * (3 * COORD_LIMIT) < 0x2_0000_0000_0000_0000i128)
                    by (nonlinear_arith)
                    requires m.weight <= u32::MAX;
            }
            let w = m.weight as i128;
            let mend = Self::get_weighted_end(&m);
            sx = sx + w * (m.start.x as i128);
            sy = sy + w * (m.start.y as i128);
            ex = ex + mend.0;
            ey = ey + mend.1;
            i = i + 1;
        }
        proof {
            assert(cluster.members@.take(n as int) =~= cluster.members@);
        }
        (sx, sy, ex, ey)
    }

    /// `weight * (center + (center - start))` of one member, per axis.
    pub fn get_weighted_end(member: &ClusterMember) -> (r: (i128, i128))
        requires
            member.wf(),
        ensures
            r.0 == weighted_end_x(*member),
            r.1 == weighted_end_y(*member),
    {
        proof {
            lemma_weighted_member_bound(*member);
        }
        let w = member.weight as i128;
        (
            w * (2 * (member.center.x as i128) - (member.start.x as i128)),
            w * (2 * (member.center.y as i128) - (member.start.y as i128)),
        )
    }
}

/// Each weighted coordinate of one member is bounded by its weight
/// times three coordinate limits.
pub proof fn lemma_weighted_member_bound(m: ClusterMember)
    requires
        m.wf(),
    ensures
        -(m.weight * (3 * COORD_LIMIT)) <= weighted_start_x(m) <= m.weight * (3 * COORD_LIMIT),
        -(m.weight * (3 * COORD_LIMIT)) <= weighted_start_y(m) <= m.weight * (3 * COORD_LIMIT),
        -(m.weight * (3 * COORD_LIMIT)) <= weighted_end_x(m) <= m.weight * (3 * COORD_LIMIT),
        -(m.weight * (3 * COORD_LIMIT)) <= weighted_end_y(m) <= m.weight * (3 * COORD_LIMIT),
        weighted_end_x(m) == m.weight as int * (2 * m.center.x - m.start.x),
{
    assert(-(m.weight * (3 * COORD_LIMIT)) <= m.weight * m.start.x <= m.weight * (3 * COORD_LIMIT)
        && -(m.weight * (3 * COORD_LIMIT)) <= m.weight * m.start.y <= m.weight * (3 * COORD_LIMIT)
        && -(m.weight * (3 * COORD_LIMIT)) <= m.weight * (2 * m.center.x - m.start.x) <= m.weight
        * (3 * COORD_LIMIT) && -(m.weight * (3 * COORD_LIMIT)) <= m.weight * (2 * m.center.y
        - m.start.y) <= m.weight * (3 * COORD_LIMIT)) by (nonlinear_arith)
        requires
            -COORD_LIMIT <= m.start.x <= COORD_LIMIT,
            -COORD_LIMIT <= m.start.y <= COORD_LIMIT,
            -COORD_LIMIT <= m.center.x <= COORD_LIMIT,
            -COORD_LIMIT <= m.center.y <= COORD_LIMIT,
            m.weight >= 0;
}

/// The running weighted sums stay far inside `i128`.
pub proof fn lemma_partial_sums_bounded(c: Cluster, i: int)
    requires
        queue_cluster_wf(c),
        0 <= i <= c.members@.len(),
    ensures
        ({
            let b = (c.total_weight as int) * (3 * COORD_LIMIT);
            &&& b < 0x1000_0000_0000_0000_0000_0000_0000i128
            &&& -b + -b <= weighted_start_x(c.seed.cm) + member_sum(
                c.members@.take(i),
                |m: ClusterMember| weighted_start_x(m),
            ) <= b + b
            &&& -b + -b <= weighted_start_y(c.seed.cm) + member_sum(
                c.members@.take(i),
                |m: ClusterMember| weighted_start_y(m),
            ) <= b + b
            &&& -b + -b <= weighted_end_x(c.seed.cm) + member_sum(
                c.members@.take(i),
                |m: ClusterMember| weighted_end_x(m),
            ) <= b + b
            &&& -b + -b <= weighted_end_y(c.seed.cm) + member_sum(
                c.members@.take(i),
                |m: ClusterMember| weighted_end_y(m),
            ) <= b + b
        }),
{
    let b = (c.total_weight as int) * (3 * COORD_LIMIT);
    let ws = weight_sum(c.members@.take(i));
    crate::cluster::lemma_weight_sum_take_le(c.members@, i);
    crate::cluster::lemma_weight_sum_nonneg(c.members@.take(i));
    assert forall|k: int| 0 <= k < c.members@.take(i).len() implies {
        let m = #[trigger] c.members@.take(i)[k];
        -(m.weight * (3 * COORD_LIMIT)) <= weighted_start_x(m) <= m.weight * (3 * COORD_LIMIT)
            && -(m.weight * (3 * COORD_LIMIT)) <= weighted_start_y(m) <= m.weight * (3
            * COORD_LIMIT) && -(m.weight * (3 * COORD_LIMIT)) <= weighted_end_x(m) <= m.weight * (
        3 * COORD_LIMIT) && -(m.weight * (3 * COORD_LIMIT)) <= weighted_end_y(m) <= m.weight * (3
            * COORD_LIMIT)
    } by {
        assert(c.members@.take(i)[k] == c.members@[k]);
        lemma_weighted_member_bound(c.members@[k]);
    }
    lemma_member_sum_bound(c.members@.take(i), |m: ClusterMember| weighted_start_x(m), 3 * COORD_LIMIT);
    lemma_member_sum_bound(c.members@.take(i), |m: ClusterMember| weighted_start_y(m), 3 * COORD_LIMIT);
    lemma_member_sum_bound(c.members@.take(i), |m: ClusterMember| weighted_end_x(m), 3 * COORD_LIMIT);
    lemma_member_sum_bound(c.members@.take(i), |m: ClusterMember| weighted_end_y(m), 3 * COORD_LIMIT);
    lemma_weighted_member_bound(c.seed.cm);
    let lim = 3 * (COORD_LIMIT as int);
    assert(ws * lim + c.seed.cm.weight * lim <= b && b < 0x1000_0000_0000_0000_0000_0000_0000i128)
        by (nonlinear_arith)
        requires
            b == (c.total_weight as int) * lim,
            lim == 3_000_000_003,
            ws + c.seed.cm.weight <= c.total_weight as int,
            ws >= 0,
            c.seed.cm.weight >= 0,
            c.total_weight <= u64::MAX;
}


/// The weight of a corridor is exactly its cluster's seed weight
/// plus the weights of the surviving members.
pub proof fn lemma_corridor_weight(c: Corridor)
    requires
        c.wf(),
    ensures
        c.weight == c.cluster.seed.cm.weight + weight_sum(c.cluster.members@),
{
}

} // verus!
