use vstd::prelude::*;
use crate::geometry::{Point, Segment, sq, sqrt_floor, spec_sq_dist, spec_dist_floor, dist_floor, spec_segment_end, lemma_sq_dist_bound};
use crate::trajectory::Trajectory;
use crate::FULL_TURN_CD;

verus! {

/// Upper bound on how many members and candidates one cluster may
/// hold; it keeps every weight sum inside `u64` and every pairwise
/// distance sum inside `u128`.
pub const CLUSTER_SIZE_LIMIT: u64 = 0xFFFF_FFFE;

/// One sub-segment participating in a cluster.
#[derive(Clone, Copy, Debug)]
pub struct ClusterMember {
    pub traj_id: usize,
    pub segment_id: usize,
    pub weight: u32,
    pub center: Point,
    pub start: Point,
}

impl ClusterMember {
    pub open spec fn wf(self) -> bool {
        self.weight >= 1 && self.center.wf() && self.start.wf()
    }

    pub fn new(traj_id: usize, segment_id: usize, weight: u32, center: Point, start: Point) -> (r:
        ClusterMember)
        ensures
            r == (ClusterMember { traj_id, segment_id, weight, center, start }),
    {
        ClusterMember { traj_id, segment_id, weight, center, start }
    }

    /// Copy of a candidate member, used to seed a child cluster.
    pub fn new_from_candidate(cm: &ClusterMember) -> (r: ClusterMember)
        ensures
            r == *cm,
    {
        ClusterMember {
            traj_id: cm.traj_id,
            segment_id: cm.segment_id,
            weight: cm.weight,
            center: cm.center,
            start: cm.start,
        }
    }

    /// Member representing one sub-segment of a trajectory.
    pub fn new_from_traj(traj: &Trajectory, seg: &Segment) -> (r: ClusterMember)
        ensures
            r == (ClusterMember {
                traj_id: traj.id,
                segment_id: seg.id,
                weight: traj.weight,
                center: seg.middle,
                start: seg.start,
            }),
    {
        ClusterMember {
            traj_id: traj.id,
            segment_id: seg.id,
            weight: traj.weight,
            center: seg.middle,
            start: seg.start,
        }
    }

    /// Implied end point of the member's sub-segment:
    /// `center + (center - start)`.
    pub fn end_point(&self) -> (r: Point)
        requires
            self.wf(),
        ensures
            r == spec_segment_end(self.start, self.center),
    {
        Point {
            x: 2 * self.center.x - self.start.x,
            y: 2 * self.center.y - self.start.y,
        }
    }
}

/// The seed of a cluster: a member plus the direction angle of the
/// seed's own trajectory, in centidegrees.  Expansion always compares
/// against this original angle, never against a candidate's.
#[derive(Clone, Copy, Debug)]
pub struct ClusterSeed {
    pub cm: ClusterMember,
    pub angle: u32,
}

impl ClusterSeed {
    pub open spec fn wf(self) -> bool {
        self.cm.wf() && self.angle < FULL_TURN_CD
    }

    pub fn new(cm: ClusterMember, angle: u32) -> (r: ClusterSeed)
        ensures
            r.cm == cm,
            r.angle == angle,
    {
        ClusterSeed { cm, angle }
    }
}

/// Sum of the weights of a sequence of members.
pub open spec fn weight_sum(ms: Seq<ClusterMember>) -> int
    decreases ms.len(),
{
    if ms.len() == 0 {
        0
    } else {
        weight_sum(ms.drop_last()) + ms.last().weight
    }
}

/// Sum of grid distances from `m.start` to the start of every member
/// of `ms`.
pub open spec fn dists_to_all(ms: Seq<ClusterMember>, m: ClusterMember) -> int
    decreases ms.len(),
{
    if ms.len() == 0 {
        0
    } else {
        dists_to_all(ms.drop_last(), m) + spec_dist_floor(m.start, ms.last().start)
    }
}

/// Sum over all unordered pairs of members of the grid distance
/// between their start points.
pub open spec fn pair_dist_sum(ms: Seq<ClusterMember>) -> int
    decreases ms.len(),
{
    if ms.len() == 0 {
        0
    } else {
        pair_dist_sum(ms.drop_last()) + dists_to_all(ms.drop_last(), ms.last())
    }
}

pub proof fn lemma_weight_sum_nonneg(ms: Seq<ClusterMember>)
    ensures
        weight_sum(ms) >= 0,
    decreases ms.len(),
{
    if ms.len() > 0 {
        lemma_weight_sum_nonneg(ms.drop_last());
    }
}

/// Weight sums grow one element at a time over prefixes.
pub proof fn lemma_weight_sum_take_succ(ms: Seq<ClusterMember>, i: int)
    requires
        0 <= i < ms.len(),
    ensures
        weight_sum(ms.take(i + 1)) == weight_sum(ms.take(i)) + ms[i].weight,
{
    assert(ms.take(i + 1).drop_last() =~= ms.take(i));
    assert(ms.take(i + 1).last() == ms[i]);
}

/// Weight sums add over concatenation.
pub proof fn lemma_weight_sum_concat(a: Seq<ClusterMember>, b: Seq<ClusterMember>)
    ensures
        weight_sum(a + b) == weight_sum(a) + weight_sum(b),
    decreases b.len(),
{
    if b.len() == 0 {
        assert(a + b =~= a);
    } else {
        assert((a + b).drop_last() =~= a + b.drop_last());
        assert((a + b).last() == b.last());
        lemma_weight_sum_concat(a, b.drop_last());
    }
}

/// A prefix never weighs more than the whole sequence.
pub proof fn lemma_weight_sum_take_le(ms: Seq<ClusterMember>, i: int)
    requires
        0 <= i <= ms.len(),
    ensures
        weight_sum(ms.take(i)) <= weight_sum(ms),
    decreases ms.len() - i,
{
    if i == ms.len() {
        assert(ms.take(i) =~= ms);
    } else {
        lemma_weight_sum_take_succ(ms, i);
        lemma_weight_sum_take_le(ms, i + 1);
    }
}

/// The grid distance between two well-formed points fits in 32 bits.
pub proof fn lemma_dist_floor_bound(p: Point, q: Point)
    requires
        p.wf(),
        q.wf(),
    ensures
        0 <= spec_dist_floor(p, q) < 0x1_0000_0000,
{
    lemma_sq_dist_bound(p, q);
    crate::geometry::lemma_sqrt_floor(spec_sq_dist(p, q));
    let r = sqrt_floor(spec_sq_dist(p, q));
    if r >= 0x1_0000_0000 {
        assert(sq(r) >= 0x1_0000_0000_0000_0000) by (nonlinear_arith)
            requires r >= 0x1_0000_0000;
    }
}

pub proof fn lemma_dists_to_all_bound(ms: Seq<ClusterMember>, m: ClusterMember)
    requires
        forall|i: int| 0 <= i < ms.len() ==> (#[trigger] ms[i]).wf(),
        m.wf(),
    ensures
        0 <= dists_to_all(ms, m) <= ms.len() * 0x1_0000_0000,
    decreases ms.len(),
{
    if ms.len() == 0 {
    } else {
        lemma_dists_to_all_bound(ms.drop_last(), m);
        lemma_dist_floor_bound(m.start, ms.last().start);
        assert((ms.len() - 1) * 0x1_0000_0000 + 0x1_0000_0000 == ms.len() * 0x1_0000_0000)
            by (nonlinear_arith);
    }
}

pub proof fn lemma_pair_dist_sum_bound(ms: Seq<ClusterMember>)
    requires
        forall|i: int| 0 <= i < ms.len() ==> (#[trigger] ms[i]).wf(),
    ensures
        0 <= pair_dist_sum(ms) <= ms.len() * ms.len() * 0x1_0000_0000,
    decreases ms.len(),
{
    if ms.len() == 0 {
    } else {
        lemma_pair_dist_sum_bound(ms.drop_last());
        lemma_dists_to_all_bound(ms.drop_last(), ms.last());
        let n = ms.len() as int;
        assert((n - 1) * (n - 1) * 0x1_0000_0000 + (n - 1) * 0x1_0000_0000 <= n * n
            * 0x1_0000_0000) by (nonlinear_arith)
            requires n >= 1;
    }
}

/// Distance sums grow one element at a time over prefixes.
pub proof fn lemma_dists_to_all_take_succ(ms: Seq<ClusterMember>, m: ClusterMember, i: int)
    requires
        0 <= i < ms.len(),
    ensures
        dists_to_all(ms.take(i + 1), m) == dists_to_all(ms.take(i), m) + spec_dist_floor(
            m.start,
            ms[i].start,
        ),
{
    assert(ms.take(i + 1).drop_last() =~= ms.take(i));
    assert(ms.take(i + 1).last() == ms[i]);
}

/// Appending a member extends the pairwise sum by its distances to
/// the members already present.
pub proof fn lemma_pair_dist_sum_push(ms: Seq<ClusterMember>, m: ClusterMember)
    ensures
        pair_dist_sum(ms.push(m)) == pair_dist_sum(ms) + dists_to_all(ms, m),
{
    assert(ms.push(m).drop_last() =~= ms);
    assert(ms.push(m).last() == m);
}

/// A working cluster: a seed, promoted members, the candidate
/// frontier, the accumulated weight of all three, and the pairwise
/// distance sum of the promoted members.
pub struct Cluster {
    pub seed: ClusterSeed,
    pub total_weight: u64,
    pub candidates: Vec<ClusterMember>,
    pub members: Vec<ClusterMember>,
    pub sum_distance: u128,
}

impl Cluster {
    /// Some trajectory appears in the cluster under this id.
    pub open spec fn spec_contains_traj(self, id: usize) -> bool {
        ||| self.seed.cm.traj_id == id
        ||| exists|i: int| 0 <= i < self.members@.len() && (#[trigger] self.members@[i]).traj_id == id
        ||| exists|i: int|
            0 <= i < self.candidates@.len() && (#[trigger] self.candidates@[i]).traj_id == id
    }

    /// Some participant of the cluster carries this (trajectory,
    /// sub-segment) key.
    pub open spec fn spec_contains_segment(self, traj_id: usize, segment_id: usize) -> bool {
        ||| (self.seed.cm.traj_id == traj_id && self.seed.cm.segment_id == segment_id)
        ||| exists|i: int|
            0 <= i < self.members@.len() && (#[trigger] self.members@[i]).traj_id == traj_id
                && self.members@[i].segment_id == segment_id
        ||| exists|i: int|
            0 <= i < self.candidates@.len() && (#[trigger] self.candidates@[i]).traj_id == traj_id
                && self.candidates@[i].segment_id == segment_id
    }

    /// No trajectory id appears twice across seed, members and
    /// candidates.
    pub open spec fn distinct_ids(self) -> bool {
        &&& forall|i: int, j: int|
            0 <= i < j < self.members@.len() ==> (#[trigger] self.members@[i]).traj_id != (
            #[trigger] self.members@[j]).traj_id
        &&& forall|i: int, j: int|
            0 <= i < j < self.candidates@.len() ==> (#[trigger] self.candidates@[i]).traj_id != (
            #[trigger] self.candidates@[j]).traj_id
        &&& forall|i: int, j: int|
            0 <= i < self.members@.len() && 0 <= j < self.candidates@.len() ==> (
            #[trigger] self.members@[i]).traj_id != (#[trigger] self.candidates@[j]).traj_id
        &&& forall|i: int|
            0 <= i < self.members@.len() ==> (#[trigger] self.members@[i]).traj_id
                != self.seed.cm.traj_id
        &&& forall|i: int|
            0 <= i < self.candidates@.len() ==> (#[trigger] self.candidates@[i]).traj_id
                != self.seed.cm.traj_id
    }

    pub open spec fn wf(self) -> bool {
        &&& self.seed.wf()
        &&& forall|i: int| 0 <= i < self.members@.len() ==> (#[trigger] self.members@[i]).wf()
        &&& forall|i: int| 0 <= i < self.candidates@.len() ==> (#[trigger] self.candidates@[i]).wf()
        &&& self.distinct_ids()
        &&& self.members@.len() + self.candidates@.len() <= CLUSTER_SIZE_LIMIT
        &&& self.total_weight == self.seed.cm.weight + weight_sum(self.members@) + weight_sum(
            self.candidates@,
        )
        &&& self.sum_distance == pair_dist_sum(self.members@)
    }

    /// A fresh cluster around a seed; the candidate list must be empty
    /// (the discovery kernel fills it one candidate at a time).
    pub fn new(seed: ClusterSeed, candidates: Vec<ClusterMember>) -> (r: Cluster)
        requires
            seed.wf(),
            candidates@.len() == 0,
        ensures
            r.wf(),
            r.seed == seed,
            r.total_weight == seed.cm.weight,
            r.members@.len() == 0,
            r.candidates@.len() == 0,
            r.sum_distance == 0,
    {
        let weight: u64 = seed.cm.weight as u64;
        Cluster { seed, total_weight: weight, candidates, members: Vec::new(), sum_distance: 0 }
    }

    /// Appends a candidate whose trajectory is not yet represented,
    /// accounting for its weight.
    pub fn push_candidate(&mut self, m: ClusterMember)
        requires
            old(self).wf(),
            m.wf(),
            !old(self).spec_contains_traj(m.traj_id),
            old(self).total_weight + m.weight <= u64::MAX,
            old(self).members@.len() + old(self).candidates@.len() < CLUSTER_SIZE_LIMIT,
        ensures
            final(self).wf(),
            final(self).seed == old(self).seed,
            final(self).members == old(self).members,
            final(self).candidates@ == old(self).candidates@.push(m),
            final(self).total_weight == old(self).total_weight + m.weight,
            final(self).sum_distance == old(self).sum_distance,
    {
        proof {
            assert(self.candidates@.push(m).drop_last() =~= self.candidates@);
        }
        self.total_weight = self.total_weight + m.weight as u64;
        self.candidates.push(m);
    }

    /// Whether a trajectory id is already represented in the cluster.
    pub fn contains_traj(&self, traj_id: usize) -> (r: bool)
        ensures
            r == self.spec_contains_traj(traj_id),
    {
        let mut i: usize = 0;
        while i < self.members.len()
            invariant
                0 <= i <= self.members@.len(),
                forall|k: int| 0 <= k < i ==> (#[trigger] self.members@[k]).traj_id != traj_id,
            decreases self.members@.len() - i,
        {
            if self.members[i].traj_id == traj_id {
                return true;
            }
            i = i + 1;
        }
        let mut i: usize = 0;
        while i < self.candidates.len()
            invariant
                0 <= i <= self.candidates@.len(),
                forall|k: int| 0 <= k < i ==> (#[trigger] self.candidates@[k]).traj_id != traj_id,
            decreases self.candidates@.len() - i,
        {
            if self.candidates[i].traj_id == traj_id {
                return true;
            }
            i = i + 1;
        }
        if self.seed.cm.traj_id == traj_id {
            return true;
        }
        false
    }

    /// Whether a (trajectory, sub-segment) key is present in the
    /// cluster.
    pub fn contains_segment(&self, traj_id: usize, segment_id: usize) -> (r: bool)
        ensures
            r == self.spec_contains_segment(traj_id, segment_id),
    {
        let mut i: usize = 0;
        while i < self.members.len()
            invariant
                0 <= i <= self.members@.len(),
                forall|k: int|
                    0 <= k < i ==> !((#[trigger] self.members@[k]).traj_id == traj_id
                        && self.members@[k].segment_id == segment_id),
            decreases self.members@.len() - i,
        {
            if self.members[i].traj_id == traj_id && self.members[i].segment_id == segment_id {
                return true;
            }
            i = i + 1;
        }
        let mut i: usize = 0;
        while i < self.candidates.len()
            invariant
                0 <= i <= self.candidates@.len(),
                forall|k: int|
                    0 <= k < i ==> !((#[trigger] self.candidates@[k]).traj_id == traj_id
                        && self.candidates@[k].segment_id == segment_id),
            decreases self.candidates@.len() - i,
        {
            if self.candidates[i].traj_id == traj_id && self.candidates[i].segment_id
                == segment_id {
                return true;
            }
            i = i + 1;
        }
        if self.seed.cm.traj_id == traj_id && self.seed.cm.segment_id == segment_id {
            return true;
        }
        false
    }

    /// Promotes every candidate to a member, from the back of the
    /// candidate list, maintaining the pairwise distance sum
    /// incrementally.  Weights already counted do not change.
    pub fn move_candidates_to_members(&mut self)
        requires
            old(self).wf(),
        ensures
            final(self).wf(),
            final(self).seed == old(self).seed,
            final(self).total_weight == old(self).total_weight,
            final(self).candidates@.len() == 0,
            final(self).members@ == old(self).members@ + old(self).candidates@.reverse(),
    {
        let ghost old_members = self.members@;
        let ghost old_cands = self.candidates@;
        loop
            invariant
                self.wf(),
                self.seed == old(self).seed,
                self.total_weight == old(self).total_weight,
                old_cands == old(self).candidates@,
                old_members == old(self).members@,
                self.candidates@.len() <= old_cands.len(),
                self.candidates@ == old_cands.take(self.candidates@.len() as int),
                self.members@ == old_members + old_cands.skip(
                    self.candidates@.len() as int,
                ).reverse(),
            ensures
                self.candidates@.len() == 0,
            decreases self.candidates@.len(),
        {
            proof {
                assert(old_cands.skip(old_cands.len() as int).reverse() =~= Seq::<
                    ClusterMember,
                >::empty());
                assert(old_members + old_cands.skip(old_cands.len() as int).reverse()
                    =~= old_members);
                assert(old_cands.take(old_cands.len() as int) =~= old_cands);
            }
            let c_opt = self.candidates.pop();
            match c_opt {
                None => {
                    break;
                },
                Some(c) => {
                    let ghost k = self.candidates@.len() as int;
                    proof {
                        assert(old_cands.take(k + 1).drop_last() =~= old_cands.take(k));
                        assert(c == old_cands[k]);
                    }
                    // distance from the promoted member to every member
                    // already present
                    let mut add: u128 = 0;
                    let mut j: usize = 0;
                    while j < self.members.len()
                        invariant
                            0 <= j <= self.members@.len(),
                            self.members@.len() <= CLUSTER_SIZE_LIMIT,
                            forall|i: int|
                                0 <= i < self.members@.len() ==> (
                                #[trigger] self.members@[i]).wf(),
                            c.wf(),
                            add == dists_to_all(self.members@.take(j as int), c),
                            add <= (j as int) * 0x1_0000_0000,
                        decreases self.members@.len() - j,
                    {
                        proof {
                            lemma_dist_floor_bound(c.start, self.members@[j as int].start);
                            lemma_dists_to_all_take_succ(self.members@, c, j as int);
                        }
                        let d = dist_floor(&c.start, &self.members[j].start);
                        add = add + d as u128;
                        j = j + 1;
                        proof {
                            assert((j - 1) * 0x1_0000_0000 + 0x1_0000_0000 == (
                            j as int) * 0x1_0000_0000) by (nonlinear_arith);
                        }
                    }
                    proof {
                        assert(self.members@.take(self.members@.len() as int) =~= self.members@);
                        lemma_pair_dist_sum_push(self.members@, c);
                        lemma_pair_dist_sum_bound(self.members@);
                        assert(self.members@.len() * self.members@.len() * 0x1_0000_0000
                            <= 0x1_0000_0000_0000_0000 * 0x1_0000_0000) by (nonlinear_arith)
                            requires self.members@.len() <= 0x1_0000_0000;
                    }
                    self.sum_distance = self.sum_distance + add;
                    self.members.push(c);
                    proof {
                        // the promoted element extends the reversed tail
                        assert(self.members@ =~= old_members + old_cands.skip(k).reverse()) by {
                            assert(old_cands.skip(k).reverse() =~= old_cands.skip(
                                k + 1,
                            ).reverse().push(old_cands[k]));
                        }
                        // weights moved between groups, total unchanged
                        assert(weight_sum(self.members@) == weight_sum(
                            old_members + old_cands.skip(k + 1).reverse(),
                        ) + c.weight) by {
                            assert(self.members@.drop_last() =~= old_members + old_cands.skip(
                                k + 1,
                            ).reverse());
                        }
                        assert(weight_sum(self.candidates@) + c.weight == weight_sum(
                            old_cands.take(k + 1),
                        )) by {
                            lemma_weight_sum_take_succ(old_cands, k);
                        }
                    }
                },
            }
        }
    }

    /// Pulls every candidate of `other` whose trajectory is not yet
    /// represented here into this cluster's candidate frontier, in
    /// the child's order.
    pub fn merge_clusters(&mut self, other: Cluster)
        requires
            old(self).wf(),
            other.wf(),
            old(self).total_weight + weight_sum(other.candidates@) <= u64::MAX,
            old(self).members@.len() + old(self).candidates@.len() + other.candidates@.len()
                <= CLUSTER_SIZE_LIMIT,
        ensures
            final(self).wf(),
            final(self).seed == old(self).seed,
            final(self).members == old(self).members,
            final(self).sum_distance == old(self).sum_distance,
            final(self).total_weight >= old(self).total_weight,
            old(self).candidates@.is_prefix_of(final(self).candidates@),
            forall|i: int|
                old(self).candidates@.len() <= i < final(self).candidates@.len()
                    ==> other.candidates@.contains(#[trigger] final(self).candidates@[i]),
            forall|id: usize|
                final(self).spec_contains_traj(id) ==> old(self).spec_contains_traj(id)
                    || exists|i: int|
                    0 <= i < other.candidates@.len() && (#[trigger] other.candidates@[i]).traj_id
                        == id,
            forall|i: int|
                0 <= i < other.candidates@.len() ==> final(self).spec_contains_traj(
                    (#[trigger] other.candidates@[i]).traj_id,
                ),
            final(self).candidates@ == old(self).candidates@ + merge_appends(
                *old(self),
                other.candidates@,
            ),
            final(self).total_weight == old(self).total_weight + weight_sum(
                merge_appends(*old(self), other.candidates@),
            ),
    {
        let ghost old_self = *self;
        let n = other.candidates.len();
        let mut j: usize = 0;
        while j < n
            invariant
                n == other.candidates@.len(),
                0 <= j <= n,
                self.wf(),
                other.wf(),
                self.seed == old_self.seed,
                self.members == old_self.members,
                self.sum_distance == old_self.sum_distance,
                self.total_weight >= old_self.total_weight,
                old_self.candidates@.is_prefix_of(self.candidates@),
                self.candidates@ == old_self.candidates@ + merge_appends(
                    old_self,
                    other.candidates@.take(j as int),
                ),
                self.total_weight == old_self.total_weight + weight_sum(
                    merge_appends(old_self, other.candidates@.take(j as int)),
                ),
                self.total_weight <= old_self.total_weight + weight_sum(
                    other.candidates@.take(j as int),
                ),
                old_self.total_weight + weight_sum(other.candidates@) <= u64::MAX,
                self.members@.len() + self.candidates@.len() <= old_self.members@.len()
                    + old_self.candidates@.len() + j,
                old_self.members@.len() + old_self.candidates@.len() + n <= CLUSTER_SIZE_LIMIT,
                forall|i: int|
                    old_self.candidates@.len() <= i < self.candidates@.len()
                        ==> other.candidates@.contains(#[trigger] self.candidates@[i]),
                forall|id: usize|
                    self.spec_contains_traj(id) ==> old_self.spec_contains_traj(id) || exists|i: int|
                        0 <= i < other.candidates@.len() && (
                        #[trigger] other.candidates@[i]).traj_id == id,
                forall|i: int|
                    0 <= i < j ==> self.spec_contains_traj(
                        (#[trigger] other.candidates@[i]).traj_id,
                    ),
            decreases n - j,
        {
            let c = ClusterMember::new_from_candidate(&other.candidates[j]);
            let present = self.contains_traj(c.traj_id);
            proof {
                lemma_weight_sum_take_succ(other.candidates@, j as int);
                lemma_weight_sum_take_le(other.candidates@, j as int + 1);
                let ghost appended = merge_appends(old_self, other.candidates@.take(j as int));
                lemma_contains_split(*self, old_self, appended, c.traj_id);
                assert(other.candidates@.take(j + 1).drop_last() =~= other.candidates@.take(
                    j as int,
                ));
                assert(other.candidates@.take(j + 1).last() == other.candidates@[j as int]);
                if !present {
                    assert(merge_appends(old_self, other.candidates@.take(j + 1)) == appended.push(
                        c,
                    ));
                    assert(old_self.candidates@ + appended.push(c) =~= (old_self.candidates@
                        + appended).push(c));
                    assert(appended.push(c).drop_last() =~= appended);
                } else {
                    assert(merge_appends(old_self, other.candidates@.take(j + 1)) == appended);
                }
            }
            let ghost at_entry = *self;
            if !present {
                let ghost before = *self;
                self.push_candidate(c);
                proof {
                    assert forall|id: usize| self.spec_contains_traj(id) implies
                        before.spec_contains_traj(id) || id == c.traj_id by {
                        if id != c.traj_id && self.spec_contains_traj(id) {
                            if exists|i: int|
                                0 <= i < self.candidates@.len() && (
                                #[trigger] self.candidates@[i]).traj_id == id {
                                let i = choose|i: int|
                                    0 <= i < self.candidates@.len() && (
                                    #[trigger] self.candidates@[i]).traj_id == id;
                                if i < before.candidates@.len() {
                                    assert(before.candidates@[i].traj_id == id);
                                }
                            }
                        }
                    }
                }
            }
            proof {
                // whatever was represented at entry still is, and the
                // current candidate now certainly is
                assert forall|i: int| 0 <= i < j + 1 implies self.spec_contains_traj(
                    (#[trigger] other.candidates@[i]).traj_id,
                ) by {
                    if i < j {
                        lemma_contains_traj_monotone(at_entry, *self, other.candidates@[i].traj_id);
                    } else {
                        if present {
                            lemma_contains_traj_monotone(at_entry, *self, c.traj_id);
                        } else {
                            assert(self.candidates@.last() == c);
                        }
                    }
                }
            }
            j = j + 1;
        }
        proof {
            assert(other.candidates@.take(n as int) =~= other.candidates@);
        }
    }
}

/// The candidates a merge appends, in their child order: each
/// element of the child frontier whose trajectory is represented
/// neither in the target nor among the elements appended earlier in
/// the same merge.
pub open spec fn merge_appends(c: Cluster, cands: Seq<ClusterMember>) -> Seq<ClusterMember>
    decreases cands.len(),
{
    if cands.len() == 0 {
        Seq::empty()
    } else {
        let p = merge_appends(c, cands.drop_last());
        let m = cands.last();
        if !c.spec_contains_traj(m.traj_id) && (forall|i: int|
            0 <= i < p.len() ==> (#[trigger] p[i]).traj_id != m.traj_id) {
            p.push(m)
        } else {
            p
        }
    }
}

/// A cluster whose candidate list grew by `appended` represents a
/// trajectory exactly when the base did or an appended candidate
/// carries it.
proof fn lemma_contains_split(cur: Cluster, base: Cluster, appended: Seq<ClusterMember>, id: usize)
    requires
        cur.seed == base.seed,
        cur.members == base.members,
        cur.candidates@ == base.candidates@ + appended,
    ensures
        cur.spec_contains_traj(id) == (base.spec_contains_traj(id) || exists|i: int|
            0 <= i < appended.len() && (#[trigger] appended[i]).traj_id == id),
{
    let bl = base.candidates@.len() as int;
    if cur.spec_contains_traj(id) {
        if exists|k: int|
            0 <= k < cur.candidates@.len() && (#[trigger] cur.candidates@[k]).traj_id == id {
            let k = choose|k: int|
                0 <= k < cur.candidates@.len() && (#[trigger] cur.candidates@[k]).traj_id == id;
            if k < bl {
                assert(base.candidates@[k] == cur.candidates@[k]);
            } else {
                assert(appended[k - bl] == cur.candidates@[k]);
            }
        }
    }
    if base.spec_contains_traj(id) {
        if exists|k: int|
            0 <= k < base.candidates@.len() && (#[trigger] base.candidates@[k]).traj_id == id {
            let k = choose|k: int|
                0 <= k < base.candidates@.len() && (#[trigger] base.candidates@[k]).traj_id == id;
            assert(cur.candidates@[k] == base.candidates@[k]);
        }
    }
    if exists|i: int| 0 <= i < appended.len() && (#[trigger] appended[i]).traj_id == id {
        let i = choose|i: int|
            0 <= i < appended.len() && (#[trigger] appended[i]).traj_id == id;
        assert(cur.candidates@[bl + i] == appended[i]);
    }
}

/// Representation survives promotion: a trajectory present before
/// all candidates moved to the member list is still present after.
pub proof fn lemma_contains_traj_after_promote(before: Cluster, after: Cluster, id: usize)
    requires
        before.spec_contains_traj(id),
        after.seed == before.seed,
        after.members@ == before.members@ + before.candidates@.reverse(),
    ensures
        after.spec_contains_traj(id),
{
    let bm = before.members@.len() as int;
    let bc = before.candidates@.len() as int;
    if exists|i: int|
        0 <= i < before.members@.len() && (#[trigger] before.members@[i]).traj_id == id {
        let i = choose|i: int|
            0 <= i < before.members@.len() && (#[trigger] before.members@[i]).traj_id == id;
        assert(after.members@[i] == before.members@[i]);
    } else if exists|i: int|
        0 <= i < before.candidates@.len() && (#[trigger] before.candidates@[i]).traj_id == id {
        let i = choose|i: int|
            0 <= i < before.candidates@.len() && (#[trigger] before.candidates@[i]).traj_id == id;
        assert(before.candidates@.reverse()[bc - 1 - i] == before.candidates@[i]);
        assert(after.members@[bm + (bc - 1 - i)] == before.candidates@[i]);
    }
}

/// Representation survives appending candidates: a trajectory present
/// in a cluster is still present after the candidate list grows.
pub proof fn lemma_contains_traj_monotone(before: Cluster, after: Cluster, id: usize)
    requires
        before.spec_contains_traj(id),
        after.seed == before.seed,
        after.members == before.members,
        before.candidates@.is_prefix_of(after.candidates@),
    ensures
        after.spec_contains_traj(id),
{
    if exists|i: int|
        0 <= i < before.candidates@.len() && (#[trigger] before.candidates@[i]).traj_id == id {
        let i = choose|i: int|
            0 <= i < before.candidates@.len() && (#[trigger] before.candidates@[i]).traj_id == id;
        assert(after.candidates@[i] == before.candidates@[i]);
    }
}


/// After expansion -- indeed at every exit of the kernel -- no two
/// participants of a well-formed cluster come from the same
/// trajectory: members are pairwise distinct and none repeats the
/// seed's trajectory.
pub proof fn lemma_cluster_participants_distinct(c: Cluster)
    requires
        c.wf(),
    ensures
        forall|i: int, j: int|
            0 <= i < j < c.members@.len() ==> (#[trigger] c.members@[i]).traj_id != (
            #[trigger] c.members@[j]).traj_id,
        forall|i: int|
            0 <= i < c.members@.len() ==> (#[trigger] c.members@[i]).traj_id
                != c.seed.cm.traj_id,
{
}

} // verus!
