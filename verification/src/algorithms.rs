use vstd::prelude::*;
use crate::args::TraclusArgs;
use crate::cluster::{
    Cluster, ClusterMember, ClusterSeed, weight_sum, lemma_weight_sum_nonneg, CLUSTER_SIZE_LIMIT,
};
use crate::clustered_trajectories::ClusteredTrajectories;
use crate::corridor::Corridor;
use crate::geometry::Segment;
use crate::raw_trajectory_store::RawTrajStore;
use crate::trajectory::Trajectory;
use crate::spec_circular_diff_cd;

verus! {

/// The trajectories a sequence of references points at.
pub open spec fn derefs(ts: Seq<&Trajectory>) -> Seq<Trajectory> {
    ts.map_values(|t: &Trajectory| *t)
}

/// No two trajectories of the sequence share an id.
pub open spec fn distinct_traj_ids(ts: Seq<Trajectory>) -> bool {
    forall|i: int, j: int|
        0 <= i < j < ts.len() ==> (#[trigger] ts[i]).id != (#[trigger] ts[j]).id
}

pub open spec fn all_trajs_wf(ts: Seq<Trajectory>) -> bool {
    forall|i: int| 0 <= i < ts.len() ==> (#[trigger] ts[i]).wf()
}

/// Sum of the weights of a sequence of trajectories.
pub open spec fn trajs_weight(ts: Seq<Trajectory>) -> int
    decreases ts.len(),
{
    if ts.len() == 0 {
        0
    } else {
        trajs_weight(ts.drop_last()) + ts.last().weight
    }
}

pub proof fn lemma_trajs_weight_nonneg(ts: Seq<Trajectory>)
    ensures
        trajs_weight(ts) >= 0,
    decreases ts.len(),
{
    if ts.len() > 0 {
        lemma_trajs_weight_nonneg(ts.drop_last());
    }
}

pub proof fn lemma_trajs_weight_take_succ(ts: Seq<Trajectory>, i: int)
    requires
        0 <= i < ts.len(),
    ensures
        trajs_weight(ts.take(i + 1)) == trajs_weight(ts.take(i)) + ts[i].weight,
{
    assert(ts.take(i + 1).drop_last() =~= ts.take(i));
    assert(ts.take(i + 1).last() == ts[i]);
}

pub proof fn lemma_trajs_weight_take_le(ts: Seq<Trajectory>, i: int)
    requires
        0 <= i <= ts.len(),
    ensures
        trajs_weight(ts.take(i)) <= trajs_weight(ts),
    decreases ts.len() - i,
{
    if i == ts.len() {
        assert(ts.take(i) =~= ts);
    } else {
        lemma_trajs_weight_take_succ(ts, i);
        lemma_trajs_weight_take_le(ts, i + 1);
    }
}

/// A weight sum is bounded by the count times the largest weight.
pub proof fn lemma_trajs_weight_len_bound(ts: Seq<Trajectory>)
    ensures
        0 <= trajs_weight(ts) <= ts.len() * 0x1_0000_0000,
    decreases ts.len(),
{
    if ts.len() > 0 {
        lemma_trajs_weight_len_bound(ts.drop_last());
        assert((ts.len() - 1) * 0x1_0000_0000 + 0x1_0000_0000 == ts.len() * 0x1_0000_0000)
            by (nonlinear_arith);
    }
}

/// Removing one trajectory removes exactly its weight from the sum.
pub proof fn lemma_trajs_weight_remove(ts: Seq<Trajectory>, j: int)
    requires
        0 <= j < ts.len(),
    ensures
        trajs_weight(ts) == trajs_weight(ts.remove(j)) + ts[j].weight,
    decreases ts.len(),
{
    if j == ts.len() - 1 {
        assert(ts.remove(j) =~= ts.drop_last());
    } else {
        assert(ts.remove(j).drop_last() =~= ts.drop_last().remove(j));
        assert(ts.remove(j).last() == ts.last());
        lemma_trajs_weight_remove(ts.drop_last(), j);
    }
}

/// The member stands for some trajectory of the sequence: same id and
/// same weight.
pub open spec fn member_matches(ts: Seq<Trajectory>, m: ClusterMember) -> bool {
    exists|j: int|
        0 <= j < ts.len() && (#[trigger] ts[j]).id == m.traj_id && ts[j].weight == m.weight
}

/// Every member and candidate of the cluster stands for a trajectory
/// of `ts`.
pub open spec fn cluster_from_universe(c: Cluster, ts: Seq<Trajectory>) -> bool {
    &&& forall|i: int|
        0 <= i < c.members@.len() ==> member_matches(ts, #[trigger] c.members@[i])
    &&& forall|i: int|
        0 <= i < c.candidates@.len() ==> member_matches(ts, #[trigger] c.candidates@[i])
}

/// Members with pairwise distinct ids, each standing for a trajectory
/// of `ts` with distinct ids, cannot outweigh or outnumber `ts`.
pub proof fn lemma_matched_members_bounded(ms: Seq<ClusterMember>, ts: Seq<Trajectory>)
    requires
        forall|i: int, j: int|
            0 <= i < j < ms.len() ==> (#[trigger] ms[i]).traj_id != (#[trigger] ms[j]).traj_id,
        forall|i: int| 0 <= i < ms.len() ==> member_matches(ts, #[trigger] ms[i]),
        distinct_traj_ids(ts),
    ensures
        weight_sum(ms) <= trajs_weight(ts),
        ms.len() <= ts.len(),
    decreases ms.len(),
{
    if ms.len() == 0 {
        lemma_trajs_weight_nonneg(ts);
    } else {
        let e = ms.last();
        assert(member_matches(ts, e));
        let j = choose|j: int|
            0 <= j < ts.len() && (#[trigger] ts[j]).id == e.traj_id && ts[j].weight == e.weight;
        let ts2 = ts.remove(j);
        assert forall|i: int| 0 <= i < ms.drop_last().len() implies member_matches(
            ts2,
            #[trigger] ms.drop_last()[i],
        ) by {
            let m = ms.drop_last()[i];
            assert(m == ms[i]);
            assert(member_matches(ts, m));
            let k = choose|k: int|
                0 <= k < ts.len() && (#[trigger] ts[k]).id == m.traj_id && ts[k].weight
                    == m.weight;
            assert(m.traj_id != e.traj_id);
            assert(k != j);
            if k < j {
                assert(ts2[k] == ts[k]);
            } else {
                assert(ts2[k - 1] == ts[k]);
            }
        }
        assert(distinct_traj_ids(ts2)) by {
            assert forall|a: int, b: int| 0 <= a < b < ts2.len() implies (
            #[trigger] ts2[a]).id != (#[trigger] ts2[b]).id by {
                let a0 = if a < j { a } else { a + 1 };
                let b0 = if b < j { b } else { b + 1 };
                assert(ts2[a] == ts[a0] && ts2[b] == ts[b0]);
            }
        }
        lemma_matched_members_bounded(ms.drop_last(), ts2);
        lemma_trajs_weight_remove(ts, j);
    }
}

/// The serial TraClusDL engine: a configuration plus the discovery
/// kernel that builds and expands clusters.
pub struct SerialTraclusDL {
    pub args: TraclusArgs,
}

/// A candidate trajectory qualifies against a seed when it is another
/// trajectory, its direction angle lies within `max_angle`
/// centidegrees of the seed angle on the circle, it has at least one
/// sub-segment, and it passes within `max_dist` of the seed's center.
pub open spec fn spec_admits(seed: ClusterSeed, max_angle: u32, max_dist: u64, t: Trajectory) -> bool {
    &&& t.id != seed.cm.traj_id
    &&& spec_circular_diff_cd(seed.angle, t.angle) <= max_angle
    &&& t.segments@.len() > 0
    &&& t.spec_within_dist(seed.cm.center, max_dist as int)
}

/// The member a qualifying trajectory contributes: its sub-segment
/// nearest to the seed's center.
pub open spec fn spec_member_for(seed: ClusterSeed, t: Trajectory) -> ClusterMember {
    let i = t.spec_nearest_idx(seed.cm.center);
    ClusterMember {
        traj_id: t.id,
        segment_id: t.segments@[i].id,
        weight: t.weight,
        center: t.segments@[i].middle,
        start: t.segments@[i].start,
    }
}

/// The candidate members that one reachability pass around `seed`
/// collects from `ts`, in order.
pub open spec fn spec_candidates(
    seed: ClusterSeed,
    max_angle: u32,
    max_dist: u64,
    ts: Seq<Trajectory>,
) -> Seq<ClusterMember> {
    ts.filter(|t: Trajectory| spec_admits(seed, max_angle, max_dist, t)).map_values(
        |t: Trajectory| spec_member_for(seed, t),
    )
}

impl SerialTraclusDL {
    pub fn new(args: TraclusArgs) -> (r: SerialTraclusDL)
        ensures
            r.args == args,
    {
        SerialTraclusDL { args }
    }

    pub fn args(&self) -> (r: &TraclusArgs)
        ensures
            r == self.args,
    {
        &self.args
    }

    /// One reachability pass: collects every qualifying candidate
    /// around the seed and keeps the cluster only if the accumulated
    /// weight (seed included) meets the density threshold.
    pub fn cluster_reachable_segs(&self, seed: ClusterSeed, nearby_trajs: &Vec<&Trajectory>) -> (r:
        Option<Cluster>)
        requires
            self.args.wf(),
            seed.wf(),
            all_trajs_wf(derefs(nearby_trajs@)),
            distinct_traj_ids(derefs(nearby_trajs@)),
            nearby_trajs@.len() + 1 < CLUSTER_SIZE_LIMIT,
            seed.cm.weight + trajs_weight(derefs(nearby_trajs@)) <= u64::MAX,
        ensures
            ({
                let cands = spec_candidates(seed, self.args.max_angle, self.args.max_dist,
                    derefs(nearby_trajs@));
                &&& (r is Some <==> seed.cm.weight + weight_sum(cands) >= self.args.min_density)
                &&& (r is Some ==> {
                    let c = r->Some_0;
                    &&& c.wf()
                    &&& c.seed == seed
                    &&& c.members@.len() == 0
                    &&& c.sum_distance == 0
                    &&& c.candidates@ == cands
                    &&& c.total_weight == seed.cm.weight + weight_sum(cands)
                    &&& c.total_weight <= seed.cm.weight + trajs_weight(derefs(nearby_trajs@))
                    &&& cluster_from_universe(c, derefs(nearby_trajs@))
                })
            }),
    {
        let max_angle = self.args.max_angle;
        let max_dist = self.args.max_dist;
        let min_density = self.args.min_density;
        let ghost all = derefs(nearby_trajs@);
        let mut cluster: Cluster = Cluster::new(seed, Vec::new());
        let n = nearby_trajs.len();
        let mut i: usize = 0;
        while i < n
            invariant
                n == all.len(),
                0 <= i <= n,
                max_angle == self.args.max_angle,
                max_dist == self.args.max_dist,
                self.args.wf(),
                all == derefs(nearby_trajs@),
                all_trajs_wf(all),
                distinct_traj_ids(all),
                all.len() + 1 < CLUSTER_SIZE_LIMIT,
                seed.wf(),
                seed.cm.weight + trajs_weight(all) <= u64::MAX,
                cluster.wf(),
                cluster.seed == seed,
                cluster.members@.len() == 0,
                cluster.sum_distance == 0,
                cluster.candidates@ == spec_candidates(seed, max_angle, max_dist, all.take(
                    i as int,
                )),
                cluster.total_weight == seed.cm.weight + weight_sum(cluster.candidates@),
                cluster.total_weight <= seed.cm.weight + trajs_weight(all.take(i as int)),
                forall|k: int|
                    0 <= k < cluster.candidates@.len() ==> exists|j: int|
                        0 <= j < i && (#[trigger] cluster.candidates@[k]).traj_id == all[j].id,
                cluster_from_universe(cluster, all),
            decreases n - i,
        {
            let ghost pre = cluster;
            let ghost prefix = all.take(i as int);
            proof {
                assert(all.take(i + 1) =~= prefix.push(all[i as int]));
                assert(prefix.push(all[i as int]).drop_last() =~= prefix);
                lemma_trajs_weight_take_succ(all, i as int);
                lemma_trajs_weight_take_le(all, i as int + 1);
            }
            let t: &Trajectory = nearby_trajs[i];
            proof {
                assert(all[i as int] == *t);
            }
            let mut admitted = false;
            if t.id != seed.cm.traj_id {
                let d = crate::circular_diff_cd(seed.angle, t.angle);
                if d <= max_angle {
                    match t.reach_segment(&seed.cm.center, max_dist) {
                        Some(idx) => {
                            let seg: Segment = t.segments[idx];
                            let m = ClusterMember::new(t.id, seg.id, t.weight, seg.middle,
                                seg.start);
                            proof {
                                assert(m == spec_member_for(seed, all[i as int]));
                                assert(!pre.spec_contains_traj(m.traj_id)) by {
                                    if exists|k: int|
                                        0 <= k < pre.candidates@.len() && (
                                        #[trigger] pre.candidates@[k]).traj_id == m.traj_id {
                                        let k = choose|k: int|
                                            0 <= k < pre.candidates@.len() && (
                                            #[trigger] pre.candidates@[k]).traj_id == m.traj_id;
                                        let j = choose|j: int|
                                            0 <= j < i && (
                                            #[trigger] pre.candidates@[k]).traj_id == all[j].id;
                                        assert(all[j].id == all[i as int].id);
                                    }
                                }
                                assert(cluster.candidates@.push(m).drop_last()
                                    =~= cluster.candidates@);
                            }
                            cluster.push_candidate(m);
                            admitted = true;
                        },
                        None => {},
                    }
                }
            }
            proof {
                let pred = |tr: Trajectory| spec_admits(seed, max_angle, max_dist, tr);
                let f = |tr: Trajectory| spec_member_for(seed, tr);
                assert(admitted == pred(all[i as int]));
                prefix.lemma_filter_push(all[i as int], pred);
                if pred(all[i as int]) {
                    assert(prefix.filter(pred).push(all[i as int]).map_values(f)
                        =~= prefix.filter(pred).map_values(f).push(f(all[i as int])));
                }
                assert(cluster.candidates@ == spec_candidates(seed, max_angle, max_dist, all.take(
                    i as int + 1,
                )));
            }
            i = i + 1;
        }
        proof {
            assert(all.take(n as int) =~= all);
        }
        if cluster.total_weight < min_density as u64 {
            return None;
        }
        Some(cluster)
    }

    /// Seeds a cluster from one sub-segment of a trajectory and runs
    /// one reachability pass.
    pub fn initial_segment_cluster(
        &self,
        seed: (&Segment, &Trajectory),
        nearby_trajs: &Vec<&Trajectory>,
    ) -> (r: Option<Cluster>)
        requires
            self.args.wf(),
            seed.1.wf(),
            seed.0.wf(),
            seed.1.segments@.contains(*seed.0),
            all_trajs_wf(derefs(nearby_trajs@)),
            distinct_traj_ids(derefs(nearby_trajs@)),
            nearby_trajs@.len() + 1 < CLUSTER_SIZE_LIMIT,
            seed.1.weight + trajs_weight(derefs(nearby_trajs@)) <= u64::MAX,
        ensures
            ({
                let sd = ClusterSeed {
                    cm: ClusterMember {
                        traj_id: seed.1.id,
                        segment_id: seed.0.id,
                        weight: seed.1.weight,
                        center: seed.0.middle,
                        start: seed.0.start,
                    },
                    angle: seed.1.angle,
                };
                let cands = spec_candidates(sd, self.args.max_angle, self.args.max_dist,
                    derefs(nearby_trajs@));
                &&& (r is Some <==> seed.1.weight + weight_sum(cands) >= self.args.min_density)
                &&& (r is Some ==> {
                    let c = r->Some_0;
                    &&& c.wf()
                    &&& c.seed == sd
                    &&& c.members@.len() == 0
                    &&& c.candidates@ == cands
                    &&& c.total_weight == seed.1.weight + weight_sum(cands)
                    &&& cluster_from_universe(c, derefs(nearby_trajs@))
                })
            }),
    {
        let member = ClusterMember::new_from_traj(seed.1, seed.0);
        proof {
            let ghost k = choose|k: int|
                0 <= k < seed.1.segments@.len() && seed.1.segments@[k] == *seed.0;
            assert(seed.1.segments@[k].start.wf_input());
        }
        let seed_member = ClusterSeed::new(member, seed.1.angle);
        self.cluster_reachable_segs(seed_member, nearby_trajs)
    }
}


/// A cluster drawn from a universe of trajectories with distinct ids
/// cannot outweigh or outnumber that universe.
pub proof fn lemma_cluster_bounded(c: Cluster, ts: Seq<Trajectory>)
    requires
        c.wf(),
        cluster_from_universe(c, ts),
        distinct_traj_ids(ts),
    ensures
        weight_sum(c.members@) + weight_sum(c.candidates@) <= trajs_weight(ts),
        c.members@.len() + c.candidates@.len() <= ts.len(),
{
    let ms = c.members@ + c.candidates@;
    let m = c.members@.len() as int;
    assert forall|i: int, j: int| 0 <= i < j < ms.len() implies (#[trigger] ms[i]).traj_id != (
    #[trigger] ms[j]).traj_id by {
        if i < m {
            assert(ms[i] == c.members@[i]);
        } else {
            assert(ms[i] == c.candidates@[i - m]);
        }
        if j < m {
            assert(ms[j] == c.members@[j]);
        } else {
            assert(ms[j] == c.candidates@[j - m]);
        }
    }
    assert forall|i: int| 0 <= i < ms.len() implies member_matches(ts, #[trigger] ms[i]) by {
        if i < m {
            assert(ms[i] == c.members@[i]);
        } else {
            assert(ms[i] == c.candidates@[i - m]);
        }
    }
    lemma_matched_members_bounded(ms, ts);
    crate::cluster::lemma_weight_sum_concat(c.members@, c.candidates@);
}


/// The seed used when expansion re-runs reachability from a promoted
/// member: the member itself, always under the original seed's angle.
pub open spec fn child_seed(m: ClusterMember, angle: u32) -> ClusterSeed {
    ClusterSeed { cm: m, angle }
}

/// The expansion fixed point, per member: whenever the reachability
/// pass seeded from `m` (under the original angle) meets density,
/// every trajectory it admits is already represented in the cluster.
pub open spec fn member_frontier_closed(
    c: Cluster,
    m: ClusterMember,
    angle: u32,
    max_angle: u32,
    max_dist: u64,
    min_density: u32,
    ts: Seq<Trajectory>,
) -> bool {
    (m.weight + weight_sum(spec_candidates(child_seed(m, angle), max_angle, max_dist, ts))
        >= min_density) ==> forall|j: int|
        0 <= j < ts.len() && spec_admits(child_seed(m, angle), max_angle, max_dist, #[trigger] ts[j])
            ==> c.spec_contains_traj(ts[j].id)
}

/// Every participant of an expanded cluster is genuine: it is the
/// member a reachability pass admitted, seeded (under the original
/// angle) from the cluster's own seed or from one of its members.
pub open spec fn member_admitted_from(
    c: Cluster,
    m: ClusterMember,
    angle: u32,
    max_angle: u32,
    max_dist: u64,
    ts: Seq<Trajectory>,
) -> bool {
    exists|s: ClusterMember, j: int|
        0 <= j < ts.len() && (s == c.seed.cm || c.members@.contains(s))
            && #[trigger] spec_admits(child_seed(s, angle), max_angle, max_dist, ts[j]) && m
            == spec_member_for(child_seed(s, angle), ts[j])
}

/// Each collected candidate is the member of some admitted
/// trajectory.
pub proof fn lemma_spec_candidates_elementwise(
    seed: ClusterSeed,
    max_angle: u32,
    max_dist: u64,
    ts: Seq<Trajectory>,
    k: int,
)
    requires
        0 <= k < spec_candidates(seed, max_angle, max_dist, ts).len(),
    ensures
        exists|j: int|
            0 <= j < ts.len() && #[trigger] spec_admits(seed, max_angle, max_dist, ts[j])
                && spec_candidates(seed, max_angle, max_dist, ts)[k] == spec_member_for(
                seed,
                ts[j],
            ),
{
    let pred = |t: Trajectory| spec_admits(seed, max_angle, max_dist, t);
    let f = |t: Trajectory| spec_member_for(seed, t);
    ts.lemma_filter_pred(pred, k);
    assert(ts.filter(pred).contains(ts.filter(pred)[k]));
    ts.lemma_filter_contains_rev(pred, ts.filter(pred)[k]);
    let j = choose|j: int| 0 <= j < ts.len() && ts[j] == ts.filter(pred)[k];
    assert(spec_candidates(seed, max_angle, max_dist, ts)[k] == f(ts.filter(pred)[k]));
    assert(spec_admits(seed, max_angle, max_dist, ts[j]));
}

/// An admitted trajectory appears among the collected candidates,
/// under its own id.
pub proof fn lemma_spec_candidates_membership(
    seed: ClusterSeed,
    max_angle: u32,
    max_dist: u64,
    ts: Seq<Trajectory>,
    j: int,
)
    requires
        0 <= j < ts.len(),
        spec_admits(seed, max_angle, max_dist, ts[j]),
    ensures
        exists|k: int|
            0 <= k < spec_candidates(seed, max_angle, max_dist, ts).len() && (
            #[trigger] spec_candidates(seed, max_angle, max_dist, ts)[k]).traj_id == ts[j].id,
{
    let pred = |t: Trajectory| spec_admits(seed, max_angle, max_dist, t);
    let f = |t: Trajectory| spec_member_for(seed, t);
    ts.lemma_filter_contains(pred, j);
    let k = choose|k: int| 0 <= k < ts.filter(pred).len() && ts.filter(pred)[k] == ts[j];
    assert(spec_candidates(seed, max_angle, max_dist, ts)[k] == f(ts[j]));
}

/// The seed a discovery pass builds from sub-segment `si` of a
/// trajectory: the sub-segment as a member, under the trajectory's
/// own angle.
pub open spec fn segment_seed(t: Trajectory, si: int) -> ClusterSeed {
    ClusterSeed {
        cm: ClusterMember {
            traj_id: t.id,
            segment_id: t.segments@[si].id,
            weight: t.weight,
            center: t.segments@[si].middle,
            start: t.segments@[si].start,
        },
        angle: t.angle,
    }
}

/// Whether the pass seeded at sub-segment `si` meets density.
pub open spec fn seed_qualifies(
    t: Trajectory,
    si: int,
    max_angle: u32,
    max_dist: u64,
    min_density: u32,
    ts: Seq<Trajectory>,
) -> bool {
    t.weight + weight_sum(spec_candidates(segment_seed(t, si), max_angle, max_dist, ts))
        >= min_density
}

/// The seeds of the clusters one trajectory must yield: its first `n`
/// sub-segments in increasing order, keeping exactly those whose pass
/// meets density.
pub open spec fn qualifying_seeds(
    t: Trajectory,
    max_angle: u32,
    max_dist: u64,
    min_density: u32,
    ts: Seq<Trajectory>,
    n: int,
) -> Seq<ClusterSeed>
    decreases n,
{
    if n <= 0 {
        Seq::empty()
    } else {
        let p = qualifying_seeds(t, max_angle, max_dist, min_density, ts, n - 1);
        if seed_qualifies(t, n - 1, max_angle, max_dist, min_density, ts) {
            p.push(segment_seed(t, n - 1))
        } else {
            p
        }
    }
}

impl SerialTraclusDL {
    /// Expands a cluster until its candidate frontier is empty: each
    /// round re-seeds a reachability pass from every candidate (walked
    /// from the back of the list), promotes all current candidates to
    /// members, and pulls the fresh trajectories of the child clusters
    /// into the frontier.  Terminates because every round enlarges the
    /// set of distinct trajectories held, which the universe bounds.
    pub fn expand_segment_cluster(&self, cluster: &mut Cluster, nearby_trajs: &Vec<&Trajectory>)
        requires
            self.args.wf(),
            old(cluster).wf(),
            old(cluster).members@.len() == 0,
            all_trajs_wf(derefs(nearby_trajs@)),
            distinct_traj_ids(derefs(nearby_trajs@)),
            2 * nearby_trajs@.len() + 2 < CLUSTER_SIZE_LIMIT,
            cluster_from_universe(*old(cluster), derefs(nearby_trajs@)),
            old(cluster).seed.cm.weight + 2 * trajs_weight(derefs(nearby_trajs@)) <= u64::MAX,
            forall|k: int|
                0 <= k < old(cluster).candidates@.len() ==> exists|j: int|
                    0 <= j < derefs(nearby_trajs@).len() && #[trigger] spec_admits(
                        old(cluster).seed,
                        self.args.max_angle,
                        self.args.max_dist,
                        derefs(nearby_trajs@)[j],
                    ) && (#[trigger] old(cluster).candidates@[k]) == spec_member_for(
                        old(cluster).seed,
                        derefs(nearby_trajs@)[j],
                    ),
        ensures
            final(cluster).wf(),
            final(cluster).seed == old(cluster).seed,
            final(cluster).candidates@.len() == 0,
            final(cluster).total_weight >= old(cluster).total_weight,
            final(cluster).total_weight == final(cluster).seed.cm.weight + weight_sum(
                final(cluster).members@,
            ),
            cluster_from_universe(*final(cluster), derefs(nearby_trajs@)),
            forall|k: int|
                0 <= k < old(cluster).candidates@.len() ==> final(cluster).spec_contains_traj(
                    (#[trigger] old(cluster).candidates@[k]).traj_id,
                ),
            forall|mi: int|
                0 <= mi < final(cluster).members@.len() ==> member_frontier_closed(
                    *final(cluster),
                    #[trigger] final(cluster).members@[mi],
                    old(cluster).seed.angle,
                    self.args.max_angle,
                    self.args.max_dist,
                    self.args.min_density,
                    derefs(nearby_trajs@),
                ),
            forall|mi: int|
                0 <= mi < final(cluster).members@.len() ==> member_admitted_from(
                    *final(cluster),
                    #[trigger] final(cluster).members@[mi],
                    old(cluster).seed.angle,
                    self.args.max_angle,
                    self.args.max_dist,
                    derefs(nearby_trajs@),
                ),
    {
        let ghost all = derefs(nearby_trajs@);
        let ghost angle = old(cluster).seed.angle;
        let ghost max_angle = self.args.max_angle;
        let ghost max_dist = self.args.max_dist;
        let ghost min_density = self.args.min_density;
        proof {
            lemma_cluster_bounded(*cluster, all);
            assert(child_seed(cluster.seed.cm, angle) == cluster.seed);
            assert forall|k: int| 0 <= k < cluster.candidates@.len() implies member_admitted_from(
                *cluster,
                #[trigger] cluster.candidates@[k],
                angle,
                max_angle,
                max_dist,
                all,
            ) by {
                let j = choose|j: int|
                    0 <= j < all.len() && #[trigger] spec_admits(
                        old(cluster).seed,
                        max_angle,
                        max_dist,
                        all[j],
                    ) && cluster.candidates@[k] == spec_member_for(old(cluster).seed, all[j]);
                assert(spec_admits(child_seed(cluster.seed.cm, angle), max_angle, max_dist,
                    all[j]));
            }
        }
        loop
            invariant
                all == derefs(nearby_trajs@),
                angle == old(cluster).seed.angle,
                max_angle == self.args.max_angle,
                max_dist == self.args.max_dist,
                min_density == self.args.min_density,
                self.args.wf(),
                all_trajs_wf(all),
                distinct_traj_ids(all),
                2 * all.len() + 2 < CLUSTER_SIZE_LIMIT,
                cluster.wf(),
                cluster.seed == old(cluster).seed,
                cluster.total_weight >= old(cluster).total_weight,
                cluster_from_universe(*cluster, all),
                cluster.members@.len() + cluster.candidates@.len() <= all.len(),
                old(cluster).seed.cm.weight + 2 * trajs_weight(all) <= u64::MAX,
                forall|k: int|
                    0 <= k < old(cluster).candidates@.len() ==> cluster.spec_contains_traj(
                        (#[trigger] old(cluster).candidates@[k]).traj_id,
                    ),
                forall|mi: int|
                    0 <= mi < cluster.members@.len() ==> member_frontier_closed(
                        *cluster,
                        #[trigger] cluster.members@[mi],
                        angle,
                        max_angle,
                        max_dist,
                        min_density,
                        all,
                    ),
                forall|mi: int|
                    0 <= mi < cluster.members@.len() ==> member_admitted_from(
                        *cluster,
                        #[trigger] cluster.members@[mi],
                        angle,
                        max_angle,
                        max_dist,
                        all,
                    ),
                forall|k: int|
                    0 <= k < cluster.candidates@.len() ==> member_admitted_from(
                        *cluster,
                        #[trigger] cluster.candidates@[k],
                        angle,
                        max_angle,
                        max_dist,
                        all,
                    ),
            ensures
                cluster.candidates@.len() == 0,
            decreases all.len() + 1 - cluster.members@.len(),
        {
            if cluster.candidates.len() == 0 {
                break;
            }
            let ghost pre_round = *cluster;
            let ghost members_before = cluster.members@.len() as int;
            let ghost cands_before = cluster.candidates@.len() as int;
            // child reachability passes, seeded from each candidate in
            // reverse order, always with the original seed's angle
            let mut new_clusters: Vec<Cluster> = Vec::new();
            let mut i: usize = cluster.candidates.len();
            while i > 0
                invariant
                    all == derefs(nearby_trajs@),
                    angle == old(cluster).seed.angle,
                    max_angle == self.args.max_angle,
                    max_dist == self.args.max_dist,
                    min_density == self.args.min_density,
                    self.args.wf(),
                    all_trajs_wf(all),
                    distinct_traj_ids(all),
                    2 * all.len() + 2 < CLUSTER_SIZE_LIMIT,
                    *cluster == pre_round,
                    cluster.wf(),
                    cluster.seed.angle == angle,
                    cluster_from_universe(*cluster, all),
                    old(cluster).seed.cm.weight + 2 * trajs_weight(all) <= u64::MAX,
                    0 <= i <= cluster.candidates@.len(),
                    forall|k: int|
                        0 <= k < new_clusters@.len() ==> {
                            &&& (#[trigger] new_clusters@[k]).wf()
                            &&& cluster_from_universe(new_clusters@[k], all)
                            &&& weight_sum(new_clusters@[k].candidates@) <= trajs_weight(all)
                            &&& new_clusters@[k].candidates@ == spec_candidates(
                                new_clusters@[k].seed,
                                max_angle,
                                max_dist,
                                all,
                            )
                            &&& new_clusters@[k].seed.cm.weight + weight_sum(
                                new_clusters@[k].candidates@,
                            ) >= min_density
                            &&& exists|ii: int|
                                0 <= ii < cluster.candidates@.len() && new_clusters@[k].seed
                                    == child_seed(#[trigger] cluster.candidates@[ii], angle)
                        },
                    forall|ii: int|
                        i <= ii < cluster.candidates@.len() && (
                        #[trigger] cluster.candidates@[ii]).weight + weight_sum(
                            spec_candidates(
                                child_seed(cluster.candidates@[ii], angle),
                                max_angle,
                                max_dist,
                                all,
                            ),
                        ) >= min_density ==> exists|k: int|
                            0 <= k < new_clusters@.len() && (#[trigger] new_clusters@[k]).seed
                                == child_seed(cluster.candidates@[ii], angle),
                decreases i,
            {
                i = i - 1;
                let candidate = &cluster.candidates[i];
                let seed_member = ClusterSeed::new(
                    ClusterMember::new_from_candidate(candidate),
                    cluster.seed.angle,
                );
                proof {
                    lemma_trajs_weight_nonneg(all);
                    assert(seed_member == child_seed(cluster.candidates@[i as int], angle));
                }
                let child = self.cluster_reachable_segs(seed_member, nearby_trajs);
                match child {
                    Some(nc) => {
                        proof {
                            assert(weight_sum(nc.candidates@) <= trajs_weight(all));
                            assert(new_clusters@.push(nc).drop_last() =~= new_clusters@);
                            assert(new_clusters@.push(nc).last() == nc);
                        }
                        new_clusters.push(nc);
                    },
                    None => {},
                }
            }
            let ghost kids = new_clusters@;
            // promote every candidate to a member
            cluster.move_candidates_to_members();
            let ghost promoted = *cluster;
            proof {
                assert(cluster.members@.len() == members_before + cands_before);
                // every promoted candidate sits among the members now
                assert forall|ii: int| 0 <= ii < cands_before implies promoted.members@.contains(
                    #[trigger] pre_round.candidates@[ii],
                ) by {
                    assert(pre_round.candidates@.reverse()[cands_before - 1 - ii]
                        == pre_round.candidates@[ii]);
                    assert(promoted.members@[members_before + (cands_before - 1 - ii)]
                        == pre_round.candidates@[ii]);
                }
                // carry the admitted-from pedigree across the promotion
                assert forall|mi: int| 0 <= mi < promoted.members@.len()
                    implies member_admitted_from(
                    promoted,
                    #[trigger] promoted.members@[mi],
                    angle,
                    max_angle,
                    max_dist,
                    all,
                ) by {
                    let m = promoted.members@[mi];
                    if mi < members_before {
                        assert(m == pre_round.members@[mi]);
                        assert(member_admitted_from(pre_round, m, angle, max_angle, max_dist,
                            all));
                    } else {
                        let ii = cands_before - 1 - (mi - members_before);
                        assert(pre_round.candidates@.reverse()[mi - members_before]
                            == pre_round.candidates@[ii]);
                        assert(m == pre_round.candidates@[ii]);
                        assert(member_admitted_from(pre_round, m, angle, max_angle, max_dist,
                            all));
                    }
                    let (src, j) = choose|src: ClusterMember, j: int|
                        0 <= j < all.len() && (src == pre_round.seed.cm
                            || pre_round.members@.contains(src)) && #[trigger] spec_admits(
                            child_seed(src, angle),
                            max_angle,
                            max_dist,
                            all[j],
                        ) && m == spec_member_for(child_seed(src, angle), all[j]);
                    if pre_round.members@.contains(src) {
                        let si = choose|si: int|
                            0 <= si < pre_round.members@.len() && pre_round.members@[si] == src;
                        assert(promoted.members@[si] == src);
                    }
                }
                // each child's seed is one of the promoted members
                assert forall|k: int| 0 <= k < kids.len() implies exists|src: ClusterMember|
                    promoted.members@.contains(src) && (#[trigger] kids[k]).seed == child_seed(
                        src,
                        angle,
                    ) by {
                    let ii = choose|ii: int|
                        0 <= ii < pre_round.candidates@.len() && kids[k].seed == child_seed(
                            #[trigger] pre_round.candidates@[ii],
                            angle,
                        );
                    assert(promoted.members@.contains(pre_round.candidates@[ii]));
                }
            }
            // pull fresh trajectories from the children into the frontier
            while new_clusters.len() > 0
                invariant
                    all == derefs(nearby_trajs@),
                    angle == old(cluster).seed.angle,
                    max_angle == self.args.max_angle,
                    max_dist == self.args.max_dist,
                    min_density == self.args.min_density,
                    self.args.wf(),
                    all_trajs_wf(all),
                    distinct_traj_ids(all),
                    2 * all.len() + 2 < CLUSTER_SIZE_LIMIT,
                    cluster.wf(),
                    cluster.seed == old(cluster).seed,
                    cluster.total_weight >= old(cluster).total_weight,
                    cluster_from_universe(*cluster, all),
                    cluster.members@ == promoted.members@,
                    cluster.members@.len() == members_before + cands_before,
                    old(cluster).seed.cm.weight + 2 * trajs_weight(all) <= u64::MAX,
                    new_clusters@ == kids.skip(kids.len() - new_clusters@.len()),
                    new_clusters@.len() <= kids.len(),
                    forall|k: int|
                        0 <= k < kids.len() ==> {
                            &&& (#[trigger] kids[k]).wf()
                            &&& cluster_from_universe(kids[k], all)
                            &&& weight_sum(kids[k].candidates@) <= trajs_weight(all)
                            &&& kids[k].candidates@ == spec_candidates(
                                kids[k].seed,
                                max_angle,
                                max_dist,
                                all,
                            )
                        },
                    forall|k: int, jj: int|
                        0 <= k < kids.len() - new_clusters@.len() && 0 <= jj < all.len()
                            && #[trigger] spec_admits(kids[k].seed, max_angle, max_dist, all[jj])
                            ==> cluster.spec_contains_traj(all[jj].id),
                    forall|id: usize|
                        promoted.spec_contains_traj(id) ==> cluster.spec_contains_traj(id),
                    forall|k: int|
                        0 <= k < kids.len() ==> exists|src: ClusterMember|
                            promoted.members@.contains(src) && (#[trigger] kids[k]).seed
                                == child_seed(src, angle),
                    forall|mi: int|
                        0 <= mi < cluster.members@.len() ==> member_admitted_from(
                            *cluster,
                            #[trigger] cluster.members@[mi],
                            angle,
                            max_angle,
                            max_dist,
                            all,
                        ),
                    forall|k: int|
                        0 <= k < cluster.candidates@.len() ==> member_admitted_from(
                            *cluster,
                            #[trigger] cluster.candidates@[k],
                            angle,
                            max_angle,
                            max_dist,
                            all,
                        ),
                decreases new_clusters@.len(),
            {
                let ghost merged_so_far = kids.len() - new_clusters@.len();
                let nc = new_clusters.remove(0);
                proof {
                    assert(nc == kids[merged_so_far]);
                    assert(new_clusters@ =~= kids.skip(merged_so_far + 1));
                    lemma_cluster_bounded(*cluster, all);
                    lemma_cluster_bounded(nc, all);
                    assert(cluster.total_weight <= cluster.seed.cm.weight + trajs_weight(all));
                }
                let ghost before_merge = *cluster;
                cluster.merge_clusters(nc);
                proof {
                    assert forall|k: int|
                        0 <= k < cluster.candidates@.len() implies member_matches(
                        all,
                        #[trigger] cluster.candidates@[k],
                    ) by {
                        if k < before_merge.candidates@.len() {
                            assert(cluster.candidates@[k] == before_merge.candidates@[k]);
                        } else {
                            assert(nc.candidates@.contains(cluster.candidates@[k]));
                            let j = choose|j: int|
                                0 <= j < nc.candidates@.len() && nc.candidates@[j]
                                    == cluster.candidates@[k];
                            assert(member_matches(all, nc.candidates@[j]));
                        }
                    }
                    lemma_cluster_bounded(*cluster, all);
                    // everything this child admits is now represented
                    assert forall|k: int, jj: int|
                        0 <= k < merged_so_far + 1 && 0 <= jj < all.len()
                            && #[trigger] spec_admits(kids[k].seed, max_angle, max_dist, all[jj])
                            implies cluster.spec_contains_traj(all[jj].id) by {
                        if k < merged_so_far {
                            crate::cluster::lemma_contains_traj_monotone(
                                before_merge,
                                *cluster,
                                all[jj].id,
                            );
                        } else {
                            lemma_spec_candidates_membership(
                                kids[k].seed,
                                max_angle,
                                max_dist,
                                all,
                                jj,
                            );
                            let ci = choose|ci: int|
                                0 <= ci < kids[k].candidates@.len() && (
                                #[trigger] kids[k].candidates@[ci]).traj_id == all[jj].id;
                        }
                    }
                    assert forall|id: usize|
                        promoted.spec_contains_traj(id) implies cluster.spec_contains_traj(
                        id,
                    ) by {
                        crate::cluster::lemma_contains_traj_monotone(
                            before_merge,
                            *cluster,
                            id,
                        );
                    }
                    // the appended candidates carry their pedigree:
                    // each is a member the merged child's pass admitted
                    assert forall|k: int|
                        0 <= k < cluster.candidates@.len() implies member_admitted_from(
                        *cluster,
                        #[trigger] cluster.candidates@[k],
                        angle,
                        max_angle,
                        max_dist,
                        all,
                    ) by {
                        if k < before_merge.candidates@.len() {
                            assert(cluster.candidates@[k] == before_merge.candidates@[k]);
                            assert(member_admitted_from(before_merge, cluster.candidates@[k],
                                angle, max_angle, max_dist, all));
                        } else {
                            assert(nc.candidates@.contains(cluster.candidates@[k]));
                            let ci = choose|ci: int|
                                0 <= ci < nc.candidates@.len() && nc.candidates@[ci]
                                    == cluster.candidates@[k];
                            lemma_spec_candidates_elementwise(nc.seed, max_angle, max_dist, all,
                                ci);
                            let src = choose|src: ClusterMember|
                                promoted.members@.contains(src) && nc.seed == child_seed(
                                    src,
                                    angle,
                                );
                        }
                    }
                }
            }
            proof {
                lemma_cluster_bounded(*cluster, all);
                assert(cluster.members@.len() >= members_before + 1);
                // representation only grew over this round
                assert forall|id: usize| pre_round.spec_contains_traj(id)
                    implies cluster.spec_contains_traj(id) by {
                    crate::cluster::lemma_contains_traj_after_promote(pre_round, promoted, id);
                }
                // the previous candidates are all represented now
                assert forall|k: int| 0 <= k < old(cluster).candidates@.len()
                    implies cluster.spec_contains_traj(
                    (#[trigger] old(cluster).candidates@[k]).traj_id,
                ) by {
                }
                // every member's frontier is closed: old members keep
                // their closure, and each promoted candidate either
                // failed density or had its child merged in full
                assert forall|mi: int| 0 <= mi < cluster.members@.len()
                    implies member_frontier_closed(
                    *cluster,
                    #[trigger] cluster.members@[mi],
                    angle,
                    max_angle,
                    max_dist,
                    min_density,
                    all,
                ) by {
                    let m = cluster.members@[mi];
                    if mi < members_before {
                        assert(pre_round.members@[mi] == m);
                        assert(member_frontier_closed(
                            pre_round,
                            m,
                            angle,
                            max_angle,
                            max_dist,
                            min_density,
                            all,
                        ));
                    } else {
                        // a member promoted this round
                        let ii = cands_before - 1 - (mi - members_before);
                        assert(pre_round.candidates@.reverse()[mi - members_before]
                            == pre_round.candidates@[ii]);
                        assert(m == pre_round.candidates@[ii]);
                        if m.weight + weight_sum(
                            spec_candidates(child_seed(m, angle), max_angle, max_dist, all),
                        ) >= min_density {
                            let k = choose|k: int|
                                0 <= k < kids.len() && (#[trigger] kids[k]).seed == child_seed(
                                    m,
                                    angle,
                                );
                        }
                    }
                }
            }
        }
        proof {
            assert(weight_sum(cluster.candidates@) == 0);
        }
    }

    /// Runs discovery for every sub-segment of one trajectory: each
    /// seed that meets density is expanded to a full cluster.
    pub fn individual_trajectory_clustering(
        &self,
        traj_seed: &Trajectory,
        nearby_trajs: &Vec<&Trajectory>,
    ) -> (r: Vec<Cluster>)
        requires
            self.args.wf(),
            traj_seed.wf(),
            all_trajs_wf(derefs(nearby_trajs@)),
            distinct_traj_ids(derefs(nearby_trajs@)),
            2 * nearby_trajs@.len() + 2 < CLUSTER_SIZE_LIMIT,
            0x1_0000_0000u64 + 2 * trajs_weight(derefs(nearby_trajs@)) <= u64::MAX,
        ensures
            r@.map_values(|c: Cluster| c.seed) == qualifying_seeds(
                *traj_seed,
                self.args.max_angle,
                self.args.max_dist,
                self.args.min_density,
                derefs(nearby_trajs@),
                traj_seed.segments@.len() as int,
            ),
            forall|k: int|
                0 <= k < r@.len() ==> {
                    &&& (#[trigger] r@[k]).wf()
                    &&& r@[k].candidates@.len() == 0
                    &&& r@[k].total_weight >= self.args.min_density
                    &&& r@[k].total_weight == r@[k].seed.cm.weight + weight_sum(r@[k].members@)
                    &&& r@[k].seed.cm.traj_id == traj_seed.id
                    &&& r@[k].seed.angle == traj_seed.angle
                    &&& forall|j: int|
                        0 <= j < derefs(nearby_trajs@).len() && #[trigger] spec_admits(
                            r@[k].seed,
                            self.args.max_angle,
                            self.args.max_dist,
                            derefs(nearby_trajs@)[j],
                        ) ==> r@[k].spec_contains_traj(derefs(nearby_trajs@)[j].id)
                    &&& forall|mi: int|
                        0 <= mi < r@[k].members@.len() ==> member_frontier_closed(
                            r@[k],
                            #[trigger] r@[k].members@[mi],
                            r@[k].seed.angle,
                            self.args.max_angle,
                            self.args.max_dist,
                            self.args.min_density,
                            derefs(nearby_trajs@),
                        )
                    &&& forall|mi: int|
                        0 <= mi < r@[k].members@.len() ==> member_admitted_from(
                            r@[k],
                            #[trigger] r@[k].members@[mi],
                            r@[k].seed.angle,
                            self.args.max_angle,
                            self.args.max_dist,
                            derefs(nearby_trajs@),
                        )
                },
    {
        let mut cluster_group: Vec<Cluster> = Vec::new();
        let n = traj_seed.segments.len();
        let mut si: usize = 0;
        while si < n
            invariant
                n == traj_seed.segments@.len(),
                0 <= si <= n,
                self.args.wf(),
                traj_seed.wf(),
                all_trajs_wf(derefs(nearby_trajs@)),
                distinct_traj_ids(derefs(nearby_trajs@)),
                2 * nearby_trajs@.len() + 2 < CLUSTER_SIZE_LIMIT,
                0x1_0000_0000u64 + 2 * trajs_weight(derefs(nearby_trajs@)) <= u64::MAX,
                cluster_group@.map_values(|c: Cluster| c.seed) == qualifying_seeds(
                    *traj_seed,
                    self.args.max_angle,
                    self.args.max_dist,
                    self.args.min_density,
                    derefs(nearby_trajs@),
                    si as int,
                ),
                forall|k: int|
                    0 <= k < cluster_group@.len() ==> {
                        &&& (#[trigger] cluster_group@[k]).wf()
                        &&& cluster_group@[k].candidates@.len() == 0
                        &&& cluster_group@[k].total_weight >= self.args.min_density
                        &&& cluster_group@[k].total_weight == cluster_group@[k].seed.cm.weight
                            + weight_sum(cluster_group@[k].members@)
                        &&& cluster_group@[k].seed.cm.traj_id == traj_seed.id
                        &&& cluster_group@[k].seed.angle == traj_seed.angle
                        &&& forall|j: int|
                            0 <= j < derefs(nearby_trajs@).len() && #[trigger] spec_admits(
                                cluster_group@[k].seed,
                                self.args.max_angle,
                                self.args.max_dist,
                                derefs(nearby_trajs@)[j],
                            ) ==> cluster_group@[k].spec_contains_traj(
                            derefs(nearby_trajs@)[j].id,
                        )
                        &&& forall|mi: int|
                            0 <= mi < cluster_group@[k].members@.len() ==> member_frontier_closed(
                                cluster_group@[k],
                                #[trigger] cluster_group@[k].members@[mi],
                                cluster_group@[k].seed.angle,
                                self.args.max_angle,
                                self.args.max_dist,
                                self.args.min_density,
                                derefs(nearby_trajs@),
                            )
                        &&& forall|mi: int|
                            0 <= mi < cluster_group@[k].members@.len() ==> member_admitted_from(
                                cluster_group@[k],
                                #[trigger] cluster_group@[k].members@[mi],
                                cluster_group@[k].seed.angle,
                                self.args.max_angle,
                                self.args.max_dist,
                                derefs(nearby_trajs@),
                            )
                    },
            decreases n - si,
        {
            let seed_segment: Segment = traj_seed.segments[si];
            proof {
                assert(traj_seed.segments@.contains(seed_segment));
                lemma_trajs_weight_nonneg(derefs(nearby_trajs@));
            }
            let cluster_opt = self.initial_segment_cluster(
                (&seed_segment, traj_seed),
                nearby_trajs,
            );
            proof {
                assert((ClusterSeed {
                    cm: ClusterMember {
                        traj_id: traj_seed.id,
                        segment_id: seed_segment.id,
                        weight: traj_seed.weight,
                        center: seed_segment.middle,
                        start: seed_segment.start,
                    },
                    angle: traj_seed.angle,
                }) == segment_seed(*traj_seed, si as int));
            }
            match cluster_opt {
                Some(mut cluster) => {
                    let ghost g = cluster_group@;
                    let ghost initial = cluster;
                    proof {
                        // the fresh cluster's candidates are exactly the
                        // kernel's collection: each one is admitted
                        assert forall|k: int| 0 <= k < cluster.candidates@.len() implies exists|
                            j: int,
                        |
                            0 <= j < derefs(nearby_trajs@).len() && #[trigger] spec_admits(
                                cluster.seed,
                                self.args.max_angle,
                                self.args.max_dist,
                                derefs(nearby_trajs@)[j],
                            ) && (#[trigger] cluster.candidates@[k]) == spec_member_for(
                                cluster.seed,
                                derefs(nearby_trajs@)[j],
                            ) by {
                            lemma_spec_candidates_elementwise(
                                cluster.seed,
                                self.args.max_angle,
                                self.args.max_dist,
                                derefs(nearby_trajs@),
                                k,
                            );
                        }
                    }
                    self.expand_segment_cluster(&mut cluster, nearby_trajs);
                    proof {
                        let all = derefs(nearby_trajs@);
                        assert(cluster_group@.push(cluster).map_values(|c: Cluster| c.seed)
                            =~= cluster_group@.map_values(|c: Cluster| c.seed).push(
                            cluster.seed,
                        ));
                        assert(cluster.seed == segment_seed(*traj_seed, si as int));
                        // the seed's own frontier is closed: everything
                        // it admits was an initial candidate, and every
                        // initial candidate ended up represented
                        assert forall|j: int|
                            0 <= j < all.len() && #[trigger] spec_admits(
                                cluster.seed,
                                self.args.max_angle,
                                self.args.max_dist,
                                all[j],
                            ) implies cluster.spec_contains_traj(all[j].id) by {
                            lemma_spec_candidates_membership(
                                cluster.seed,
                                self.args.max_angle,
                                self.args.max_dist,
                                all,
                                j,
                            );
                            let k = choose|k: int|
                                0 <= k < initial.candidates@.len() && (
                                #[trigger] initial.candidates@[k]).traj_id == all[j].id;
                        }
                        assert(cluster_group@.push(cluster).drop_last() =~= cluster_group@);
                    }
                    cluster_group.push(cluster);
                },
                None => {},
            }
            si = si + 1;
        }
        proof {
            assert(cluster_group@.map_values(|c: Cluster| c.seed) == qualifying_seeds(
                *traj_seed,
                self.args.max_angle,
                self.args.max_dist,
                self.args.min_density,
                derefs(nearby_trajs@),
                traj_seed.segments@.len() as int,
            ));
        }
        cluster_group
    }
}


/// The cluster seeds a run of trajectories must contribute against a
/// fixed neighborhood, in order.
pub open spec fn trajs_cluster_seeds(
    ts: Seq<Trajectory>,
    max_angle: u32,
    max_dist: u64,
    min_density: u32,
    nearby: Seq<Trajectory>,
) -> Seq<ClusterSeed>
    decreases ts.len(),
{
    if ts.len() == 0 {
        Seq::empty()
    } else {
        trajs_cluster_seeds(ts.drop_last(), max_angle, max_dist, min_density, nearby)
            + qualifying_seeds(
            ts.last(),
            max_angle,
            max_dist,
            min_density,
            nearby,
            ts.last().segments@.len() as int,
        )
    }
}

pub proof fn lemma_trajs_cluster_seeds_take_succ(
    ts: Seq<Trajectory>,
    max_angle: u32,
    max_dist: u64,
    min_density: u32,
    nearby: Seq<Trajectory>,
    i: int,
)
    requires
        0 <= i < ts.len(),
    ensures
        trajs_cluster_seeds(ts.take(i + 1), max_angle, max_dist, min_density, nearby)
            == trajs_cluster_seeds(ts.take(i), max_angle, max_dist, min_density, nearby)
            + qualifying_seeds(
            ts[i],
            max_angle,
            max_dist,
            min_density,
            nearby,
            ts[i].segments@.len() as int,
        ),
{
    assert(ts.take(i + 1).drop_last() =~= ts.take(i));
    assert(ts.take(i + 1).last() == ts[i]);
}

/// The cluster seeds the first `n` buckets of a store must
/// contribute: every trajectory against its own bucket's angular
/// neighborhood, in store order.
pub open spec fn store_cluster_seeds_upto(
    store: RawTrajStore,
    max_angle: u32,
    max_dist: u64,
    min_density: u32,
    n: int,
) -> Seq<ClusterSeed>
    decreases n,
{
    if n <= 0 {
        Seq::empty()
    } else {
        store_cluster_seeds_upto(store, max_angle, max_dist, min_density, n - 1)
            + trajs_cluster_seeds(
            store.bucket_trajs(n - 1),
            max_angle,
            max_dist,
            min_density,
            store.spec_nearby(store.traj_buckets@[n - 1].angle_start),
        )
    }
}

impl SerialTraclusDL {
    /// The discovery pass: for every angle bucket, snapshot its
    /// angular neighborhood once, then try every sub-segment of every
    /// trajectory of the bucket as a seed; qualifying clusters go to
    /// the queue and every sub-segment is provisionally registered as
    /// non-clustered.
    pub fn complete_serial_clustering(
        &self,
        raw_trajectories: &RawTrajStore,
        clustered_trajectories: &mut ClusteredTrajectories,
    )
        requires
            self.args.wf(),
            raw_trajectories.wf(),
            raw_trajectories.distinct_store_ids(),
            raw_trajectories.traj_buckets@.len() >= 4,
            old(clustered_trajectories).wf(),
        ensures
            final(clustered_trajectories).wf(),
            final(clustered_trajectories).corridors == old(clustered_trajectories).corridors,
            final(clustered_trajectories).non_clustered_segments == old(
                clustered_trajectories,
            ).non_clustered_segments,
            old(clustered_trajectories).clusters.elements@.is_prefix_of(
                final(clustered_trajectories).clusters.elements@,
            ),
            forall|k: int|
                old(clustered_trajectories).clusters.elements@.len() <= k
                    < final(clustered_trajectories).clusters.elements@.len() ==> (
                #[trigger] final(clustered_trajectories).clusters.elements@[k]).total_weight
                    >= self.args.min_density,
            final(clustered_trajectories).clusters.non_clustered_segments@ == old(
                clustered_trajectories,
            ).clusters.non_clustered_segments@
                + crate::clustered_trajectories::store_members(raw_trajectories.traj_buckets@),
            final(clustered_trajectories).clusters.elements@.map_values(|c: Cluster| c.seed)
                == old(clustered_trajectories).clusters.elements@.map_values(
                |c: Cluster| c.seed,
            ) + store_cluster_seeds_upto(
                *raw_trajectories,
                self.args.max_angle,
                self.args.max_dist,
                self.args.min_density,
                raw_trajectories.traj_buckets@.len() as int,
            ),
    {
        let ghost old_els = old(clustered_trajectories).clusters.elements@;
        let ghost old_nc = old(clustered_trajectories).clusters.non_clustered_segments@;
        let ghost ma = self.args.max_angle;
        let ghost md = self.args.max_dist;
        let ghost mind = self.args.min_density;
        let nb = raw_trajectories.traj_buckets.len();
        let mut bi: usize = 0;
        proof {
            assert(old_nc + crate::clustered_trajectories::store_members(
                raw_trajectories.traj_buckets@.take(0),
            ) =~= old_nc);
            assert(old_els.map_values(|c: Cluster| c.seed) + store_cluster_seeds_upto(
                *raw_trajectories,
                ma,
                md,
                mind,
                0,
            ) =~= old_els.map_values(|c: Cluster| c.seed));
        }
        while bi < nb
            invariant
                nb == raw_trajectories.traj_buckets@.len(),
                0 <= bi <= nb,
                self.args.wf(),
                raw_trajectories.wf(),
                raw_trajectories.distinct_store_ids(),
                nb >= 4,
                clustered_trajectories.wf(),
                old_els == old(clustered_trajectories).clusters.elements@,
                old_nc == old(clustered_trajectories).clusters.non_clustered_segments@,
                clustered_trajectories.corridors == old(clustered_trajectories).corridors,
                clustered_trajectories.non_clustered_segments == old(
                    clustered_trajectories,
                ).non_clustered_segments,
                old_els.is_prefix_of(clustered_trajectories.clusters.elements@),
                forall|k: int|
                    old_els.len() <= k < clustered_trajectories.clusters.elements@.len() ==> (
                    #[trigger] clustered_trajectories.clusters.elements@[k]).total_weight
                        >= self.args.min_density,
                clustered_trajectories.clusters.non_clustered_segments@ == old_nc
                    + crate::clustered_trajectories::store_members(
                    raw_trajectories.traj_buckets@.take(bi as int),
                ),
                ma == self.args.max_angle,
                md == self.args.max_dist,
                mind == self.args.min_density,
                clustered_trajectories.clusters.elements@.map_values(|c: Cluster| c.seed)
                    == old_els.map_values(|c: Cluster| c.seed) + store_cluster_seeds_upto(
                    *raw_trajectories,
                    ma,
                    md,
                    mind,
                    bi as int,
                ),
            decreases nb - bi,
        {
            let bucket_start = raw_trajectories.traj_buckets[bi].angle_start;
            let nearby = raw_trajectories.iter_nearby_angle(bucket_start);
            proof {
                raw_trajectories.lemma_nearby_properties(bucket_start);
                lemma_trajs_weight_len_bound(derefs(nearby@));
                assert(derefs(nearby@).len() == nearby@.len());
                assert(trajs_weight(derefs(nearby@)) <= 0x4000_0000_0000_0000int)
                    by (nonlinear_arith)
                    requires
                        trajs_weight(derefs(nearby@)) <= derefs(nearby@).len() * 0x1_0000_0000,
                        derefs(nearby@).len() <= 0x4000_0000;
            }
            let m = raw_trajectories.traj_buckets[bi].trajectories.len();
            let ghost bucket_ts = raw_trajectories.bucket_trajs(bi as int);
            let ghost nc_at_bucket = clustered_trajectories.clusters.non_clustered_segments@;
            let mut ti: usize = 0;
            proof {
                assert(nc_at_bucket + crate::clustered_trajectories::bucket_members(
                    bucket_ts.take(0),
                ) =~= nc_at_bucket);
            }
            while ti < m
                invariant
                    nb == raw_trajectories.traj_buckets@.len(),
                    0 <= bi < nb,
                    m == raw_trajectories.bucket_trajs(bi as int).len(),
                    bucket_ts == raw_trajectories.bucket_trajs(bi as int),
                    0 <= ti <= m,
                    self.args.wf(),
                    raw_trajectories.wf(),
                    raw_trajectories.distinct_store_ids(),
                    nb >= 4,
                    all_trajs_wf(derefs(nearby@)),
                    distinct_traj_ids(derefs(nearby@)),
                    2 * nearby@.len() + 2 < CLUSTER_SIZE_LIMIT,
                    0x1_0000_0000u64 + 2 * trajs_weight(derefs(nearby@)) <= u64::MAX,
                    clustered_trajectories.wf(),
                    old_els == old(clustered_trajectories).clusters.elements@,
                    clustered_trajectories.corridors == old(clustered_trajectories).corridors,
                    clustered_trajectories.non_clustered_segments == old(
                        clustered_trajectories,
                    ).non_clustered_segments,
                    old_els.is_prefix_of(clustered_trajectories.clusters.elements@),
                    forall|k: int|
                        old_els.len() <= k < clustered_trajectories.clusters.elements@.len() ==> (
                        #[trigger] clustered_trajectories.clusters.elements@[k]).total_weight
                            >= self.args.min_density,
                    clustered_trajectories.clusters.non_clustered_segments@ == nc_at_bucket
                        + crate::clustered_trajectories::bucket_members(bucket_ts.take(ti as int)),
                    ma == self.args.max_angle,
                    md == self.args.max_dist,
                    mind == self.args.min_density,
                    derefs(nearby@) == raw_trajectories.spec_nearby(
                        raw_trajectories.traj_buckets@[bi as int].angle_start,
                    ),
                    clustered_trajectories.clusters.elements@.map_values(|c: Cluster| c.seed)
                        == old_els.map_values(|c: Cluster| c.seed) + store_cluster_seeds_upto(
                        *raw_trajectories,
                        ma,
                        md,
                        mind,
                        bi as int,
                    ) + trajs_cluster_seeds(bucket_ts.take(ti as int), ma, md, mind, derefs(
                        nearby@,
                    )),
                decreases m - ti,
            {
                let traj_seed = &raw_trajectories.traj_buckets[bi].trajectories[ti];
                proof {
                    assert(raw_trajectories.bucket_trajs(bi as int)[ti as int].wf());
                }
                let ghost els_before = clustered_trajectories.clusters.elements@;
                let group = self.individual_trajectory_clustering(traj_seed, &nearby);
                let ghost group_view = group@;
                clustered_trajectories.add_list_cluster(group);
                proof {
                    lemma_trajs_cluster_seeds_take_succ(bucket_ts, ma, md, mind, derefs(
                        nearby@,
                    ), ti as int);
                    assert((els_before + group_view).map_values(|c: Cluster| c.seed)
                        =~= els_before.map_values(|c: Cluster| c.seed) + group_view.map_values(
                        |c: Cluster| c.seed,
                    ));
                    assert forall|k: int|
                        old_els.len() <= k < clustered_trajectories.clusters.elements@.len()
                            implies (
                        #[trigger] clustered_trajectories.clusters.elements@[k]).total_weight
                            >= self.args.min_density by {
                        if k < els_before.len() {
                            assert(clustered_trajectories.clusters.elements@[k]
                                == els_before[k]);
                        } else {
                            assert(clustered_trajectories.clusters.elements@[k]
                                == group_view[k - els_before.len()]);
                        }
                    }
                }
                clustered_trajectories.fill_non_clustered_segments(traj_seed);
                proof {
                    crate::clustered_trajectories::lemma_bucket_members_take_succ(
                        bucket_ts,
                        ti as int,
                    );
                    assert(clustered_trajectories.clusters.non_clustered_segments@
                        =~= nc_at_bucket + crate::clustered_trajectories::bucket_members(
                        bucket_ts.take(ti as int + 1),
                    ));
                }
                ti = ti + 1;
            }
            proof {
                assert(bucket_ts.take(m as int) =~= bucket_ts);
                crate::clustered_trajectories::lemma_store_members_take_succ(
                    raw_trajectories.traj_buckets@,
                    bi as int,
                );
                assert(store_cluster_seeds_upto(*raw_trajectories, ma, md, mind, bi as int + 1)
                    == store_cluster_seeds_upto(*raw_trajectories, ma, md, mind, bi as int)
                    + trajs_cluster_seeds(bucket_ts, ma, md, mind, raw_trajectories.spec_nearby(
                    raw_trajectories.traj_buckets@[bi as int].angle_start,
                )));
                assert(clustered_trajectories.clusters.elements@.map_values(|c: Cluster| c.seed)
                    =~= old_els.map_values(|c: Cluster| c.seed) + store_cluster_seeds_upto(
                    *raw_trajectories,
                    ma,
                    md,
                    mind,
                    bi as int + 1,
                ));
                assert(clustered_trajectories.clusters.non_clustered_segments@ =~= old_nc
                    + crate::clustered_trajectories::store_members(
                    raw_trajectories.traj_buckets@.take(bi as int + 1),
                ));
            }
            bi = bi + 1;
        }
        proof {
            assert(raw_trajectories.traj_buckets@.take(nb as int)
                =~= raw_trajectories.traj_buckets@);
        }
    }

    /// Finalization: drains the queue into corridors, numbered in pop
    /// order, and leaves the surviving provisional sub-segments as
    /// the non-clustered output.
    pub fn create_corridors(&self, clustered_trajectories: &mut ClusteredTrajectories)
        requires
            self.args.wf(),
            old(clustered_trajectories).wf(),
            old(clustered_trajectories).corridors@.len() == 0,
        ensures
            final(clustered_trajectories).wf(),
            forall|i: int|
                0 <= i < final(clustered_trajectories).corridors@.len() ==> (
                #[trigger] final(clustered_trajectories).corridors@[i]).id == i,
            forall|a: int, b: int|
                0 <= a < b < final(clustered_trajectories).corridors@.len()
                    ==> crate::priority_queue::keys_disjoint_from(
                    (#[trigger] final(clustered_trajectories).corridors@[b]).cluster,
                    (#[trigger] final(clustered_trajectories).corridors@[a]).cluster,
                ),
            forall|k: int, j: int|
                0 <= k < final(clustered_trajectories).non_clustered_segments@.len() && 0 <= j
                    < final(clustered_trajectories).corridors@.len()
                    ==> !crate::priority_queue::key_taken(
                    (#[trigger] final(clustered_trajectories).corridors@[j]).cluster,
                    (#[trigger] final(clustered_trajectories).non_clustered_segments@[k]).traj_id,
                    final(clustered_trajectories).non_clustered_segments@[k].segment_id,
                ),
            forall|k: int|
                0 <= k < old(clustered_trajectories).clusters.non_clustered_segments@.len()
                    ==> ((exists|j: int|
                    0 <= j < final(clustered_trajectories).corridors@.len()
                        && crate::priority_queue::key_taken(
                        (#[trigger] final(clustered_trajectories).corridors@[j]).cluster,
                        (#[trigger] old(clustered_trajectories).clusters.non_clustered_segments@[k]).traj_id,
                        old(clustered_trajectories).clusters.non_clustered_segments@[k].segment_id,
                    )) || final(clustered_trajectories).non_clustered_segments@.contains(
                    old(clustered_trajectories).clusters.non_clustered_segments@[k],
                )),
            final(clustered_trajectories).corridors@.map_values(
                |c: Corridor| crate::priority_queue::model_of(c.cluster),
            ) == crate::priority_queue::spec_drain(
                crate::priority_queue::models_of(old(clustered_trajectories).clusters.elements@),
                self.args.min_density,
            ),
            forall|k: int|
                0 <= k < final(clustered_trajectories).non_clustered_segments@.len() ==> old(
                    clustered_trajectories,
                ).clusters.non_clustered_segments@.contains(
                    #[trigger] final(clustered_trajectories).non_clustered_segments@[k],
                ),
    {
        clustered_trajectories.finalize_corridors(&self.args);
    }

    /// The whole pipeline on a loaded store: serial discovery, then
    /// corridor finalization.
    pub fn db_scan_clustering(
        &self,
        raw_trajectories: &RawTrajStore,
        clustered_trajectories: &mut ClusteredTrajectories,
    )
        requires
            self.args.wf(),
            raw_trajectories.wf(),
            raw_trajectories.distinct_store_ids(),
            raw_trajectories.traj_buckets@.len() >= 4,
            old(clustered_trajectories).wf(),
            old(clustered_trajectories).corridors@.len() == 0,
            old(clustered_trajectories).clusters.elements@.len() == 0,
            old(clustered_trajectories).clusters.non_clustered_segments@.len() == 0,
        ensures
            final(clustered_trajectories).wf(),
            forall|i: int|
                0 <= i < final(clustered_trajectories).corridors@.len() ==> (
                #[trigger] final(clustered_trajectories).corridors@[i]).id == i,
            forall|a: int, b: int|
                0 <= a < b < final(clustered_trajectories).corridors@.len()
                    ==> crate::priority_queue::keys_disjoint_from(
                    (#[trigger] final(clustered_trajectories).corridors@[b]).cluster,
                    (#[trigger] final(clustered_trajectories).corridors@[a]).cluster,
                ),
            forall|k: int, j: int|
                0 <= k < final(clustered_trajectories).non_clustered_segments@.len() && 0 <= j
                    < final(clustered_trajectories).corridors@.len()
                    ==> !crate::priority_queue::key_taken(
                    (#[trigger] final(clustered_trajectories).corridors@[j]).cluster,
                    (#[trigger] final(clustered_trajectories).non_clustered_segments@[k]).traj_id,
                    final(clustered_trajectories).non_clustered_segments@[k].segment_id,
                ),
            forall|k: int|
                0 <= k < crate::clustered_trajectories::store_members(
                    raw_trajectories.traj_buckets@,
                ).len() ==> ((exists|j: int|
                    0 <= j < final(clustered_trajectories).corridors@.len()
                        && crate::priority_queue::key_taken(
                        (#[trigger] final(clustered_trajectories).corridors@[j]).cluster,
                        (#[trigger] crate::clustered_trajectories::store_members(
                            raw_trajectories.traj_buckets@,
                        )[k]).traj_id,
                        crate::clustered_trajectories::store_members(
                            raw_trajectories.traj_buckets@,
                        )[k].segment_id,
                    )) || final(clustered_trajectories).non_clustered_segments@.contains(
                    crate::clustered_trajectories::store_members(
                        raw_trajectories.traj_buckets@,
                    )[k],
                )),
            forall|k: int|
                0 <= k < final(clustered_trajectories).non_clustered_segments@.len()
                    ==> crate::clustered_trajectories::store_members(
                    raw_trajectories.traj_buckets@,
                ).contains(#[trigger] final(clustered_trajectories).non_clustered_segments@[k]),
            exists|els: Seq<Cluster>|
                {
                    &&& els.map_values(|c: Cluster| c.seed) == old(
                        clustered_trajectories,
                    ).clusters.elements@.map_values(|c: Cluster| c.seed)
                        + store_cluster_seeds_upto(
                        *raw_trajectories,
                        self.args.max_angle,
                        self.args.max_dist,
                        self.args.min_density,
                        raw_trajectories.traj_buckets@.len() as int,
                    )
                    &&& final(clustered_trajectories).corridors@.map_values(
                        |c: Corridor| crate::priority_queue::model_of(c.cluster),
                    ) == crate::priority_queue::spec_drain(
                        #[trigger] crate::priority_queue::models_of(els),
                        self.args.min_density,
                    )
                },
    {
        self.complete_serial_clustering(raw_trajectories, clustered_trajectories);
        proof {
            assert(clustered_trajectories.clusters.non_clustered_segments@
                =~= crate::clustered_trajectories::store_members(
                raw_trajectories.traj_buckets@,
            ));
        }
        let ghost discovered = clustered_trajectories.clusters.elements@;
        self.create_corridors(clustered_trajectories);
        proof {
            assert(discovered.map_values(|c: Cluster| c.seed) == Seq::<
                crate::cluster::ClusterSeed,
            >::empty() + store_cluster_seeds_upto(
                *raw_trajectories,
                self.args.max_angle,
                self.args.max_dist,
                self.args.min_density,
                raw_trajectories.traj_buckets@.len() as int,
            )) by {
                assert(old(clustered_trajectories).clusters.elements@.map_values(
                    |c: Cluster| c.seed,
                ) =~= Seq::<crate::cluster::ClusterSeed>::empty());
            }
        }
    }
}


/// One reachability pass is a pure function of seed, thresholds and
/// neighborhood: the kernel's contract pins its candidate list to
/// `spec_candidates`, so any two passes over equal inputs -- in this
/// process or another -- collect equal candidate lists.  Discovery
/// over the same store therefore yields the same clusters pass by
/// pass.
pub proof fn lemma_reachable_deterministic(
    c1: Cluster,
    c2: Cluster,
    seed: ClusterSeed,
    max_angle: u32,
    max_dist: u64,
    ts: Seq<Trajectory>,
)
    requires
        c1.candidates@ == spec_candidates(seed, max_angle, max_dist, ts),
        c2.candidates@ == spec_candidates(seed, max_angle, max_dist, ts),
    ensures
        c1.candidates@ == c2.candidates@,
{
}

/// With `max_angle = 0`, a trajectory qualifies against a seed only
/// if its rounded direction angle equals the seed's exactly.
pub proof fn lemma_zero_angle_requires_equal_angle(
    seed: ClusterSeed,
    max_dist: u64,
    t: Trajectory,
)
    requires
        seed.wf(),
        t.wf(),
        spec_admits(seed, 0, max_dist, t),
    ensures
        t.angle == seed.angle,
{
    assert(spec_circular_diff_cd(seed.angle, t.angle) <= 0);
}

/// With `max_dist = 0`, a qualifying trajectory passes exactly
/// through the seed's center: the center coincides with an endpoint
/// of the line, or satisfies the exact incidence equation of the
/// perpendicular foot.
pub proof fn lemma_zero_dist_requires_incidence(seed: ClusterSeed, max_angle: u32, t: Trajectory)
    requires
        seed.wf(),
        t.wf(),
        spec_admits(seed, max_angle, 0, t),
    ensures
        ({
            let p = seed.cm.center;
            let len2 = t.spec_len2();
            let dp = t.spec_dot(p);
            ||| p == t.start
            ||| p == t.end
            ||| crate::geometry::spec_sq_dist(p, t.start) * len2 == dp * dp
        }),
{
    let p = seed.cm.center;
    let len2 = t.spec_len2();
    let dp = t.spec_dot(p);
    assert(t.spec_within_dist(p, 0));
    assert((0int) * (0int) == 0) by (nonlinear_arith);
    if len2 == 0 || dp <= 0 {
        assert(crate::geometry::spec_sq_dist(p, t.start) <= 0);
        lemma_zero_sq_dist_means_equal(p, t.start);
    } else if dp >= len2 {
        assert(crate::geometry::spec_sq_dist(p, t.end) <= 0);
        lemma_zero_sq_dist_means_equal(p, t.end);
    } else {
        assert(crate::geometry::spec_sq_dist(p, t.start) * len2 - dp * dp <= 0 * len2)
            by {
            assert(t.spec_within_dist(p, 0));
        }
        assert(0 * len2 == 0) by (nonlinear_arith);
        crate::trajectory::lemma_dot_cauchy_schwarz(t, p);
    }
}

/// Two points at squared distance zero coincide.
proof fn lemma_zero_sq_dist_means_equal(p: crate::geometry::Point, q: crate::geometry::Point)
    requires
        crate::geometry::spec_sq_dist(p, q) <= 0,
    ensures
        p == q,
{
    assert(crate::geometry::sq(p.x - q.x) >= 0 && crate::geometry::sq(p.y - q.y) >= 0)
        by (nonlinear_arith);
    assert(crate::geometry::sq(p.x - q.x) == 0 && crate::geometry::sq(p.y - q.y) == 0);
    assert(p.x == q.x && p.y == q.y) by (nonlinear_arith)
        requires
            crate::geometry::sq(p.x - q.x) == 0,
            crate::geometry::sq(p.y - q.y) == 0;
}

/// With `min_density = 1`, density always holds: the seed's own
/// weight already reaches the threshold, so every seed forms a
/// cluster of its own (members beyond the seed optional).
pub proof fn lemma_unit_density_always_clusters(
    seed: ClusterSeed,
    max_angle: u32,
    max_dist: u64,
    ts: Seq<Trajectory>,
)
    requires
        seed.wf(),
    ensures
        seed.cm.weight + weight_sum(spec_candidates(seed, max_angle, max_dist, ts)) >= 1,
{
    lemma_weight_sum_nonneg(spec_candidates(seed, max_angle, max_dist, ts));
}

/// A trajectory without sub-segments (shorter than one sub-segment,
/// or degenerate) is swept as a neighbor but never qualifies, so it
/// contributes no candidate member to any cluster.
pub proof fn lemma_empty_trajectory_contributes_nothing(
    seed: ClusterSeed,
    max_angle: u32,
    max_dist: u64,
    t: Trajectory,
)
    requires
        t.segments@.len() == 0,
    ensures
        !spec_admits(seed, max_angle, max_dist, t),
{
}

} // verus!
