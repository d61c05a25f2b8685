use vstd::prelude::*;
use crate::args::TraclusArgs;
use crate::cluster::{Cluster, ClusterMember};
use crate::corridor::Corridor;
use crate::priority_queue::{
    PriorityQueueCluster, queue_cluster_wf, key_taken, keys_disjoint_from, is_cleaned_of,
    cleaned_from_one_of, spec_drain, models_of, model_of, ClusterModel,
};
use crate::trajectory::Trajectory;

verus! {

/// The members a trajectory contributes as provisional non-clustered
/// sub-segments: one per sub-segment.
pub open spec fn members_of_traj(t: Trajectory) -> Seq<ClusterMember> {
    t.segments@.map_values(
        |s: crate::geometry::Segment| ClusterMember {
            traj_id: t.id,
            segment_id: s.id,
            weight: t.weight,
            center: s.middle,
            start: s.start,
        },
    )
}

/// All provisional members of one bucket's trajectories, in order.
pub open spec fn bucket_members(ts: Seq<Trajectory>) -> Seq<ClusterMember>
    decreases ts.len(),
{
    if ts.len() == 0 {
        Seq::empty()
    } else {
        bucket_members(ts.drop_last()) + members_of_traj(ts.last())
    }
}

/// All provisional members of a whole store, bucket by bucket.
pub open spec fn store_members(bs: Seq<crate::raw_trajectory_store::Bucket>) -> Seq<ClusterMember>
    decreases bs.len(),
{
    if bs.len() == 0 {
        Seq::empty()
    } else {
        store_members(bs.drop_last()) + bucket_members(bs.last().trajectories@)
    }
}

pub proof fn lemma_bucket_members_take_succ(ts: Seq<Trajectory>, i: int)
    requires
        0 <= i < ts.len(),
    ensures
        bucket_members(ts.take(i + 1)) == bucket_members(ts.take(i)) + members_of_traj(ts[i]),
{
    assert(ts.take(i + 1).drop_last() =~= ts.take(i));
    assert(ts.take(i + 1).last() == ts[i]);
}

pub proof fn lemma_store_members_take_succ(bs: Seq<crate::raw_trajectory_store::Bucket>, i: int)
    requires
        0 <= i < bs.len(),
    ensures
        store_members(bs.take(i + 1)) == store_members(bs.take(i)) + bucket_members(
            bs[i].trajectories@,
        ),
{
    assert(bs.take(i + 1).drop_last() =~= bs.take(i));
    assert(bs.take(i + 1).last() == bs[i]);
}

/// Every key of `q` (seed and members) survives into `v`'s key set
/// when `q` is a cleaned form of `c` and `c`'s keys avoid `v`.
pub proof fn lemma_cleaned_keys_subset(q: Cluster, c: Cluster, w: Cluster, v: Cluster)
    requires
        is_cleaned_of(q, c, w),
        keys_disjoint_from(c, v),
    ensures
        keys_disjoint_from(q, v),
{
    let pred = |m: ClusterMember| !key_taken(w, m.traj_id, m.segment_id);
    assert forall|i: int|
        0 <= i < q.members@.len() implies !key_taken(
        v,
        (#[trigger] q.members@[i]).traj_id,
        q.members@[i].segment_id,
    ) by {
        assert(q.members@.contains(q.members@[i]));
        c.members@.lemma_filter_contains_rev(pred, q.members@[i]);
        let a = choose|a: int| 0 <= a < c.members@.len() && c.members@[a] == q.members@[i];
    }
}

/// The finalized clustering: the working queue, the corridors built
/// from it, and the sub-segments that ended up in no corridor.
pub struct ClusteredTrajectories {
    pub clusters: PriorityQueueCluster,
    pub corridors: Vec<Corridor>,
    pub non_clustered_segments: Vec<ClusterMember>,
}

impl ClusteredTrajectories {
    pub open spec fn wf(self) -> bool {
        &&& self.clusters.wf()
        &&& forall|i: int| 0 <= i < self.corridors@.len() ==> (#[trigger] self.corridors@[i]).wf()
        &&& forall|i: int| 0 <= i < self.corridors@.len() ==> (#[trigger] self.corridors@[i]).id
            == i
    }

    pub fn new() -> (r: ClusteredTrajectories)
        ensures
            r.wf(),
            r.clusters.elements@.len() == 0,
            r.clusters.non_clustered_segments@.len() == 0,
            r.corridors@.len() == 0,
            r.non_clustered_segments@.len() == 0,
    {
        ClusteredTrajectories {
            clusters: PriorityQueueCluster::new(),
            corridors: Vec::new(),
            non_clustered_segments: Vec::new(),
        }
    }

    pub fn add_cluster(&mut self, cluster: Cluster)
        requires
            old(self).wf(),
            cluster.wf(),
            cluster.candidates@.len() == 0,
        ensures
            final(self).wf(),
            final(self).clusters.elements@ == old(self).clusters.elements@.push(cluster),
            final(self).clusters.non_clustered_segments == old(
                self,
            ).clusters.non_clustered_segments,
            final(self).corridors == old(self).corridors,
            final(self).non_clustered_segments == old(self).non_clustered_segments,
    {
        self.clusters.push(cluster);
    }

    /// Queues every cluster of a discovery batch.
    pub fn add_list_cluster(&mut self, clusters: Vec<Cluster>)
        requires
            old(self).wf(),
            forall|i: int|
                0 <= i < clusters@.len() ==> (#[trigger] clusters@[i]).wf()
                    && clusters@[i].candidates@.len() == 0,
        ensures
            final(self).wf(),
            final(self).clusters.elements@ == old(self).clusters.elements@ + clusters@,
            final(self).clusters.non_clustered_segments == old(
                self,
            ).clusters.non_clustered_segments,
            final(self).corridors == old(self).corridors,
            final(self).non_clustered_segments == old(self).non_clustered_segments,
    {
        let ghost incoming = clusters@;
        let mut clusters = clusters;
        let n = clusters.len();
        let mut i: usize = 0;
        proof {
            assert(old(self).clusters.elements@ + incoming.take(0) =~= old(
                self,
            ).clusters.elements@);
            assert(clusters@ =~= incoming.skip(0));
        }
        while clusters.len() > 0
            invariant
                n == incoming.len(),
                0 <= i <= n,
                i + clusters@.len() == n,
                clusters@ == incoming.skip(i as int),
                self.wf(),
                forall|k: int|
                    0 <= k < incoming.len() ==> (#[trigger] incoming[k]).wf()
                        && incoming[k].candidates@.len() == 0,
                self.clusters.elements@ == old(self).clusters.elements@ + incoming.take(i as int),
                self.clusters.non_clustered_segments == old(self).clusters.non_clustered_segments,
                self.corridors == old(self).corridors,
                self.non_clustered_segments == old(self).non_clustered_segments,
            decreases clusters@.len(),
        {
            let c = clusters.remove(0);
            proof {
                assert(c == incoming[i as int]);
                assert(clusters@ =~= incoming.skip(i as int + 1));
                assert((old(self).clusters.elements@ + incoming.take(i as int)).push(incoming[i as int])
                    =~= old(self).clusters.elements@ + incoming.take(i as int + 1));
            }
            self.add_cluster(c);
            i = i + 1;
        }
        proof {
            assert(incoming.take(n as int) =~= incoming);
        }
    }

    /// Registers every sub-segment of a trajectory as provisionally
    /// non-clustered; finalization later strips those that a corridor
    /// consumed.
    pub fn fill_non_clustered_segments(&mut self, trajectory: &Trajectory)
        requires
            old(self).wf(),
            trajectory.wf(),
        ensures
            final(self).wf(),
            final(self).clusters.elements == old(self).clusters.elements,
            final(self).clusters.is_sorted == old(self).clusters.is_sorted,
            final(self).clusters.non_clustered_segments@ == old(
                self,
            ).clusters.non_clustered_segments@ + members_of_traj(*trajectory),
            final(self).corridors == old(self).corridors,
            final(self).non_clustered_segments == old(self).non_clustered_segments,
    {
        let ghost added = members_of_traj(*trajectory);
        let n = trajectory.segments.len();
        let mut i: usize = 0;
        proof {
            assert(old(self).clusters.non_clustered_segments@ + added.take(0) =~= old(
                self,
            ).clusters.non_clustered_segments@);
        }
        while i < n
            invariant
                n == trajectory.segments@.len(),
                added == members_of_traj(*trajectory),
                added.len() == n,
                0 <= i <= n,
                trajectory.wf(),
                self.wf(),
                self.clusters.elements == old(self).clusters.elements,
                self.clusters.is_sorted == old(self).clusters.is_sorted,
                self.clusters.non_clustered_segments@ == old(
                    self,
                ).clusters.non_clustered_segments@ + added.take(i as int),
                self.corridors == old(self).corridors,
                self.non_clustered_segments == old(self).non_clustered_segments,
            decreases n - i,
        {
            let seg = trajectory.segments[i];
            let cm = ClusterMember::new_from_traj(trajectory, &seg);
            proof {
                assert(cm == added[i as int]);
                assert((old(self).clusters.non_clustered_segments@ + added.take(i as int)).push(
                    added[i as int],
                ) =~= old(self).clusters.non_clustered_segments@ + added.take(i as int + 1));
            }
            self.clusters.non_clustered_segments.push(cm);
            i = i + 1;
        }
        proof {
            assert(added.take(n as int) =~= added);
        }
    }

    /// Drains the queue by repeated pop-and-clean: each surviving top
    /// cluster becomes a corridor, numbered in pop order; what remains
    /// of the provisional list is the final non-clustered output.
    ///
    /// On return: corridor ids are `0 .. N-1` in pop order; the
    /// corridors' sub-segment key sets are pairwise disjoint; no final
    /// non-clustered entry is claimed by any corridor; and every
    /// provisional entry either kept its place or lost its key to
    /// some corridor.
    pub fn finalize_corridors(&mut self, args: &TraclusArgs)
        requires
            old(self).wf(),
            old(self).corridors@.len() == 0,
        ensures
            final(self).wf(),
            final(self).clusters.elements@.len() == 0,
            final(self).clusters.non_clustered_segments@.len() == 0,
            forall|i: int|
                0 <= i < final(self).corridors@.len() ==> (#[trigger] final(self).corridors@[i]).id
                    == i,
            forall|i: int|
                0 <= i < final(self).corridors@.len() ==> (
                #[trigger] final(self).corridors@[i]).wf(),
            forall|a: int, b: int|
                0 <= a < b < final(self).corridors@.len() ==> keys_disjoint_from(
                    (#[trigger] final(self).corridors@[b]).cluster,
                    (#[trigger] final(self).corridors@[a]).cluster,
                ),
            forall|k: int, j: int|
                0 <= k < final(self).non_clustered_segments@.len() && 0 <= j
                    < final(self).corridors@.len() ==> !key_taken(
                    (#[trigger] final(self).corridors@[j]).cluster,
                    (#[trigger] final(self).non_clustered_segments@[k]).traj_id,
                    final(self).non_clustered_segments@[k].segment_id,
                ),
            forall|k: int|
                0 <= k < old(self).clusters.non_clustered_segments@.len() ==> ((exists|j: int|
                    0 <= j < final(self).corridors@.len() && key_taken(
                        (#[trigger] final(self).corridors@[j]).cluster,
                        (#[trigger] old(self).clusters.non_clustered_segments@[k]).traj_id,
                        old(self).clusters.non_clustered_segments@[k].segment_id,
                    )) || final(self).non_clustered_segments@.contains(
                    old(self).clusters.non_clustered_segments@[k],
                )),
            final(self).corridors@.map_values(|c: Corridor| model_of(c.cluster)) == spec_drain(
                models_of(old(self).clusters.elements@),
                args.min_density,
            ),
            forall|k: int|
                0 <= k < final(self).non_clustered_segments@.len() ==> old(
                    self,
                ).clusters.non_clustered_segments@.contains(
                    #[trigger] final(self).non_clustered_segments@[k],
                ),
    {
        let ghost init_nc = self.clusters.non_clustered_segments@;
        let ghost init_els = self.clusters.elements@;
        proof {
            assert(self.corridors@.map_values(|c: Corridor| model_of(c.cluster)) + spec_drain(
                models_of(self.clusters.elements@),
                args.min_density,
            ) =~= spec_drain(models_of(init_els), args.min_density));
        }
        loop
            invariant
                self.wf(),
                init_els == old(self).clusters.elements@,
                self.corridors@.map_values(|c: Corridor| model_of(c.cluster)) + spec_drain(
                    models_of(self.clusters.elements@),
                    args.min_density,
                ) == spec_drain(models_of(init_els), args.min_density),
                init_nc == old(self).clusters.non_clustered_segments@,
                forall|e: int, j: int|
                    0 <= e < self.clusters.elements@.len() && 0 <= j < self.corridors@.len()
                        ==> keys_disjoint_from(
                        #[trigger] self.clusters.elements@[e],
                        (#[trigger] self.corridors@[j]).cluster,
                    ),
                forall|a: int, b: int|
                    0 <= a < b < self.corridors@.len() ==> keys_disjoint_from(
                        (#[trigger] self.corridors@[b]).cluster,
                        (#[trigger] self.corridors@[a]).cluster,
                    ),
                forall|k: int, j: int|
                    0 <= k < self.clusters.non_clustered_segments@.len() && 0 <= j
                        < self.corridors@.len() ==> !key_taken(
                        (#[trigger] self.corridors@[j]).cluster,
                        (#[trigger] self.clusters.non_clustered_segments@[k]).traj_id,
                        self.clusters.non_clustered_segments@[k].segment_id,
                    ),
                forall|k: int|
                    0 <= k < init_nc.len() ==> ((exists|j: int|
                        0 <= j < self.corridors@.len() && key_taken(
                            (#[trigger] self.corridors@[j]).cluster,
                            (#[trigger] init_nc[k]).traj_id,
                            init_nc[k].segment_id,
                        )) || self.clusters.non_clustered_segments@.contains(init_nc[k])),
                forall|k: int|
                    0 <= k < self.clusters.non_clustered_segments@.len() ==> init_nc.contains(
                        #[trigger] self.clusters.non_clustered_segments@[k],
                    ),
                self.non_clustered_segments == old(self).non_clustered_segments,
            ensures
                self.clusters.elements@.len() == 0,
            decreases self.clusters.elements@.len(),
        {
            let ghost pre = *self;
            let popped = self.clusters.pop_and_clean(args.min_density);
            match popped {
                None => {
                    proof {
                        assert(models_of(self.clusters.elements@).len() == 0);
                        assert(spec_drain(models_of(self.clusters.elements@), args.min_density)
                            =~= Seq::<ClusterModel>::empty());
                        assert(self.corridors@.map_values(|c: Corridor| model_of(c.cluster))
                            =~= spec_drain(models_of(init_els), args.min_density));
                    }
                    break;
                },
                Some(w) => {
                    proof {
                        // one drain step: the popped cluster is the
                        // ranked head, the survivors its cleaned tail
                        assert(models_of(pre.clusters.elements@).len()
                            == pre.clusters.elements@.len());
                        assert(spec_drain(models_of(pre.clusters.elements@), args.min_density)
                            == seq![model_of(w)] + spec_drain(
                            models_of(self.clusters.elements@),
                            args.min_density,
                        ));
                    }
                    proof {
                        broadcast use vstd::multiset::group_multiset_axioms;
                        // the popped cluster avoids every existing corridor
                        vstd::prelude::Seq::to_multiset_ensures(pre.clusters.elements@);
                        assert(pre.clusters.elements@.to_multiset().count(w) > 0);
                        assert(pre.clusters.elements@.contains(w));
                        let e = choose|e: int|
                            0 <= e < pre.clusters.elements@.len() && pre.clusters.elements@[e]
                                == w;
                        // remaining elements avoid old corridors too
                        assert forall|e2: int, j: int|
                            0 <= e2 < self.clusters.elements@.len() && 0 <= j
                                < self.corridors@.len() implies keys_disjoint_from(
                            #[trigger] self.clusters.elements@[e2],
                            (#[trigger] self.corridors@[j]).cluster,
                        ) by {
                            assert(cleaned_from_one_of(
                                self.clusters.elements@[e2],
                                pre.clusters.elements@,
                                w,
                            ));
                            let src = choose|src: int|
                                0 <= src < pre.clusters.elements@.len() && is_cleaned_of(
                                    self.clusters.elements@[e2],
                                    #[trigger] pre.clusters.elements@[src],
                                    w,
                                );
                            lemma_cleaned_keys_subset(
                                self.clusters.elements@[e2],
                                pre.clusters.elements@[src],
                                w,
                                self.corridors@[j].cluster,
                            );
                        }
                    }
                    let id = self.corridors.len();
                    let corridor = Corridor::new(w, id);
                    proof {
                        assert(self.corridors@.push(corridor).drop_last() =~= self.corridors@);
                        assert(self.corridors@.push(corridor).map_values(
                            |c: Corridor| model_of(c.cluster),
                        ) =~= self.corridors@.map_values(|c: Corridor| model_of(c.cluster)).push(
                            model_of(w),
                        ));
                        assert(self.corridors@.map_values(|c: Corridor| model_of(c.cluster)).push(
                            model_of(w),
                        ) + spec_drain(models_of(self.clusters.elements@), args.min_density)
                            =~= self.corridors@.map_values(|c: Corridor| model_of(c.cluster)) + (
                        seq![model_of(w)] + spec_drain(
                            models_of(self.clusters.elements@),
                            args.min_density,
                        )));
                    }
                    self.corridors.push(corridor);
                    proof {
                        // surviving provisional entries stem from the
                        // pre-pop list
                        let pred = |m: ClusterMember| !key_taken(w, m.traj_id, m.segment_id);
                        assert forall|k: int|
                            0 <= k < init_nc.len() implies ((exists|j: int|
                                0 <= j < self.corridors@.len() && key_taken(
                                    (#[trigger] self.corridors@[j]).cluster,
                                    (#[trigger] init_nc[k]).traj_id,
                                    init_nc[k].segment_id,
                                )) || self.clusters.non_clustered_segments@.contains(
                                init_nc[k],
                            )) by {
                            if exists|j: int|
                                0 <= j < pre.corridors@.len() && key_taken(
                                    (#[trigger] pre.corridors@[j]).cluster,
                                    init_nc[k].traj_id,
                                    init_nc[k].segment_id,
                                ) {
                                let j = choose|j: int|
                                    0 <= j < pre.corridors@.len() && key_taken(
                                        (#[trigger] pre.corridors@[j]).cluster,
                                        init_nc[k].traj_id,
                                        init_nc[k].segment_id,
                                    );
                                assert(self.corridors@[j].cluster == pre.corridors@[j].cluster);
                            } else {
                                assert(pre.clusters.non_clustered_segments@.contains(init_nc[k]));
                                let p = choose|p: int|
                                    0 <= p < pre.clusters.non_clustered_segments@.len()
                                        && pre.clusters.non_clustered_segments@[p] == init_nc[k];
                                if pred(init_nc[k]) {
                                    pre.clusters.non_clustered_segments@.lemma_filter_contains(
                                        pred,
                                        p,
                                    );
                                } else {
                                    assert(key_taken(
                                        w,
                                        init_nc[k].traj_id,
                                        init_nc[k].segment_id,
                                    ));
                                    assert(self.corridors@[id as int].cluster == w);
                                }
                            }
                        }
                        // surviving provisional entries all stem from
                        // the initial provisional list
                        assert forall|k: int|
                            0 <= k < self.clusters.non_clustered_segments@.len()
                                implies init_nc.contains(
                            #[trigger] self.clusters.non_clustered_segments@[k],
                        ) by {
                            let m = self.clusters.non_clustered_segments@[k];
                            assert(self.clusters.non_clustered_segments@.contains(m));
                            pre.clusters.non_clustered_segments@.lemma_filter_contains_rev(
                                pred,
                                m,
                            );
                        }
                        // surviving provisional entries avoid every corridor
                        assert forall|k: int, j: int|
                            0 <= k < self.clusters.non_clustered_segments@.len() && 0 <= j
                                < self.corridors@.len() implies !key_taken(
                            (#[trigger] self.corridors@[j]).cluster,
                            (#[trigger] self.clusters.non_clustered_segments@[k]).traj_id,
                            self.clusters.non_clustered_segments@[k].segment_id,
                        ) by {
                            let m = self.clusters.non_clustered_segments@[k];
                            assert(self.clusters.non_clustered_segments@.contains(m));
                            pre.clusters.non_clustered_segments@.lemma_filter_contains_rev(
                                pred,
                                m,
                            );
                            let p = choose|p: int|
                                0 <= p < pre.clusters.non_clustered_segments@.len()
                                    && pre.clusters.non_clustered_segments@[p] == m;
                            pre.clusters.non_clustered_segments@.lemma_filter_pred(pred, k);
                            if j < pre.corridors@.len() {
                                assert(self.corridors@[j] == pre.corridors@[j]);
                            } else {
                                assert(self.corridors@[j].cluster == w);
                            }
                        }
                    }
                },
            }
        }
        proof {
            assert(models_of(self.clusters.elements@).len() == 0);
            assert(spec_drain(models_of(self.clusters.elements@), args.min_density) =~= Seq::<
                ClusterModel,
            >::empty());
            assert(self.corridors@.map_values(|c: Corridor| model_of(c.cluster)) =~= spec_drain(
                models_of(init_els),
                args.min_density,
            ));
        }
        // what is left of the provisional list is the final output
        let n = self.clusters.non_clustered_segments.len();
        let mut moved: Vec<ClusterMember> = Vec::new();
        let mut i: usize = 0;
        while i < n
            invariant
                n == self.clusters.non_clustered_segments@.len(),
                0 <= i <= n,
                moved@ == self.clusters.non_clustered_segments@.take(i as int),
                self.wf(),
            decreases n - i,
        {
            proof {
                assert(self.clusters.non_clustered_segments@.take(i as int + 1)
                    =~= self.clusters.non_clustered_segments@.take(i as int).push(
                    self.clusters.non_clustered_segments@[i as int],
                ));
            }
            let m = self.clusters.non_clustered_segments[i];
            moved.push(m);
            i = i + 1;
        }
        proof {
            assert(self.clusters.non_clustered_segments@.take(n as int)
                =~= self.clusters.non_clustered_segments@);
        }
        let ghost before_swap = *self;
        self.non_clustered_segments = moved;
        self.clusters = PriorityQueueCluster::new();
        proof {
            assert(self.non_clustered_segments@ == before_swap.clusters.non_clustered_segments@);
        }
    }
}


/// With pairwise key-disjoint corridors -- what finalization
/// guarantees -- a sub-segment key claimed by two corridors is
/// claimed by the same one: membership in a corridor is unique, so
/// together with the exclusion and coverage of the non-clustered
/// list, classification partitions the provisional sub-segments.
pub proof fn lemma_key_in_one_corridor(
    corridors: Seq<Corridor>,
    traj_id: usize,
    segment_id: usize,
    a: int,
    b: int,
)
    requires
        forall|x: int| 0 <= x < corridors.len() ==> (#[trigger] corridors[x]).wf(),
        forall|x: int, y: int|
            0 <= x < y < corridors.len() ==> keys_disjoint_from(
                (#[trigger] corridors[y]).cluster,
                (#[trigger] corridors[x]).cluster,
            ),
        0 <= a <= b < corridors.len(),
        key_taken(corridors[a].cluster, traj_id, segment_id),
        key_taken(corridors[b].cluster, traj_id, segment_id),
    ensures
        a == b,
{
    if a < b {
        let cb = corridors[b].cluster;
        let ca = corridors[a].cluster;
        assert(keys_disjoint_from(cb, ca));
        assert(cb.candidates@.len() == 0);
        if cb.seed.cm.traj_id == traj_id && cb.seed.cm.segment_id == segment_id {
            assert(!key_taken(ca, cb.seed.cm.traj_id, cb.seed.cm.segment_id));
        } else {
            let i = choose|i: int|
                0 <= i < cb.members@.len() && (#[trigger] cb.members@[i]).traj_id == traj_id
                    && cb.members@[i].segment_id == segment_id;
            assert(!key_taken(ca, cb.members@[i].traj_id, cb.members@[i].segment_id));
        }
    }
}


/// The classified rows of one corridor: its id paired with the seed
/// member, then with each surviving member, in order.
pub open spec fn rows_of_corridor(c: Corridor) -> Seq<(i32, ClusterMember)> {
    seq![(c.id as i32, c.cluster.seed.cm)] + c.cluster.members@.map_values(
        |m: ClusterMember| (c.id as i32, m),
    )
}

/// The classified rows of a corridor list, in corridor order.
pub open spec fn spec_corridor_rows(cs: Seq<Corridor>) -> Seq<(i32, ClusterMember)>
    decreases cs.len(),
{
    if cs.len() == 0 {
        Seq::empty()
    } else {
        spec_corridor_rows(cs.drop_last()) + rows_of_corridor(cs.last())
    }
}

pub proof fn lemma_corridor_rows_take_succ(cs: Seq<Corridor>, i: int)
    requires
        0 <= i < cs.len(),
    ensures
        spec_corridor_rows(cs.take(i + 1)) == spec_corridor_rows(cs.take(i)) + rows_of_corridor(
            cs[i],
        ),
{
    assert(cs.take(i + 1).drop_last() =~= cs.take(i));
    assert(cs.take(i + 1).last() == cs[i]);
}

impl ClusteredTrajectories {
    /// Every classified sub-segment with its corridor id: the
    /// participants of each corridor in pop order, then the
    /// non-clustered sub-segments under the id `-1`.
    pub fn get_all_cluster_members_iter(&self) -> (r: Vec<(i32, ClusterMember)>)
        requires
            self.wf(),
            self.corridors@.len() <= 0x7fff_ffff,
        ensures
            r@ == spec_corridor_rows(self.corridors@) + self.non_clustered_segments@.map_values(
                |m: ClusterMember| (-1i32, m),
            ),
    {
        let mut out: Vec<(i32, ClusterMember)> = Vec::new();
        let nc = self.corridors.len();
        let mut i: usize = 0;
        proof {
            assert(spec_corridor_rows(self.corridors@.take(0)) =~= Seq::<
                (i32, ClusterMember),
            >::empty());
            assert(out@ =~= spec_corridor_rows(self.corridors@.take(0)));
        }
        while i < nc
            invariant
                nc == self.corridors@.len(),
                0 <= i <= nc,
                self.wf(),
                nc <= 0x7fff_ffff,
                out@ == spec_corridor_rows(self.corridors@.take(i as int)),
            decreases nc - i,
        {
            let c = &self.corridors[i];
            let cid: i32 = c.id as i32;
            let ghost base = out@;
            out.push((cid, c.cluster.seed.cm));
            let m = c.cluster.members.len();
            let mut j: usize = 0;
            proof {
                assert(out@ =~= base + seq![(cid, c.cluster.seed.cm)]
                    + c.cluster.members@.take(0).map_values(|mm: ClusterMember| (cid, mm)));
            }
            while j < m
                invariant
                    m == c.cluster.members@.len(),
                    0 <= j <= m,
                    c == &self.corridors@[i as int],
                    0 <= i < self.corridors@.len(),
                    cid == c.id as i32,
                    out@ == base + seq![(cid, c.cluster.seed.cm)] + c.cluster.members@.take(
                        j as int,
                    ).map_values(|mm: ClusterMember| (cid, mm)),
                decreases m - j,
            {
                proof {
                    assert(c.cluster.members@.take(j + 1) =~= c.cluster.members@.take(
                        j as int,
                    ).push(c.cluster.members@[j as int]));
                    assert(c.cluster.members@.take(j + 1).map_values(
                        |mm: ClusterMember| (cid, mm),
                    ) =~= c.cluster.members@.take(j as int).map_values(
                        |mm: ClusterMember| (cid, mm),
                    ).push((cid, c.cluster.members@[j as int])));
                }
                let mm = c.cluster.members[j];
                out.push((cid, mm));
                j = j + 1;
            }
            proof {
                assert(c.cluster.members@.take(m as int) =~= c.cluster.members@);
                lemma_corridor_rows_take_succ(self.corridors@, i as int);
                assert(out@ =~= spec_corridor_rows(self.corridors@.take(i as int))
                    + rows_of_corridor(self.corridors@[i as int]));
            }
            i = i + 1;
        }
        proof {
            assert(self.corridors@.take(nc as int) =~= self.corridors@);
        }
        let ghost rows = spec_corridor_rows(self.corridors@);
        let nn = self.non_clustered_segments.len();
        let mut k: usize = 0;
        proof {
            assert(out@ =~= rows + self.non_clustered_segments@.take(0).map_values(
                |mm: ClusterMember| (-1i32, mm),
            ));
        }
        while k < nn
            invariant
                nn == self.non_clustered_segments@.len(),
                0 <= k <= nn,
                rows == spec_corridor_rows(self.corridors@),
                out@ == rows + self.non_clustered_segments@.take(k as int).map_values(
                    |mm: ClusterMember| (-1i32, mm),
                ),
            decreases nn - k,
        {
            proof {
                assert(self.non_clustered_segments@.take(k + 1)
                    =~= self.non_clustered_segments@.take(k as int).push(
                    self.non_clustered_segments@[k as int],
                ));
                assert(self.non_clustered_segments@.take(k + 1).map_values(
                    |mm: ClusterMember| (-1i32, mm),
                ) =~= self.non_clustered_segments@.take(k as int).map_values(
                    |mm: ClusterMember| (-1i32, mm),
                ).push((-1i32, self.non_clustered_segments@[k as int])));
            }
            let mm = self.non_clustered_segments[k];
            out.push((-1i32, mm));
            k = k + 1;
        }
        proof {
            assert(self.non_clustered_segments@.take(nn as int)
                =~= self.non_clustered_segments@);
        }
        out
    }
}

} // verus!
