use vstd::prelude::*;
use crate::cluster::{Cluster, ClusterMember, ClusterSeed, weight_sum, CLUSTER_SIZE_LIMIT};

verus! {

/// Queue order: heavier clusters first; ties broken by the smaller
/// pairwise member distance sum.
pub open spec fn cluster_le(a: Cluster, b: Cluster) -> bool {
    ||| a.total_weight > b.total_weight
    ||| (a.total_weight == b.total_weight && a.sum_distance <= b.sum_distance)
}

/// Strictly earlier in the queue order.
pub open spec fn cluster_lt(a: Cluster, b: Cluster) -> bool {
    ||| a.total_weight > b.total_weight
    ||| (a.total_weight == b.total_weight && a.sum_distance < b.sum_distance)
}

pub open spec fn sorted_clusters(s: Seq<Cluster>) -> bool {
    forall|i: int, j: int| 0 <= i < j < s.len() ==> cluster_le(#[trigger] s[i], #[trigger] s[j])
}

/// Stable insertion into a sorted run: the newcomer goes after every
/// element it does not strictly precede, so ties keep their order.
pub open spec fn insert_stable(s: Seq<Cluster>, c: Cluster) -> Seq<Cluster>
    decreases s.len(),
{
    if s.len() == 0 {
        seq![c]
    } else if cluster_lt(c, s.first()) {
        seq![c] + s
    } else {
        seq![s.first()] + insert_stable(s.drop_first(), c)
    }
}

/// The stable sort of a cluster sequence under the queue order:
/// elements comparing equal keep their insertion order.
pub open spec fn stable_sorted(s: Seq<Cluster>) -> Seq<Cluster>
    decreases s.len(),
{
    if s.len() == 0 {
        Seq::empty()
    } else {
        insert_stable(stable_sorted(s.drop_last()), s.last())
    }
}

/// Where a stable insertion lands: right after the last element the
/// newcomer does not strictly precede.
pub proof fn lemma_insert_stable_at(s: Seq<Cluster>, c: Cluster, j: int)
    requires
        sorted_clusters(s),
        0 <= j <= s.len(),
        forall|b: int| j <= b < s.len() ==> cluster_lt(c, #[trigger] s[b]),
        j > 0 ==> !cluster_lt(c, s[j - 1]),
    ensures
        insert_stable(s, c) == s.take(j) + seq![c] + s.skip(j),
    decreases s.len(),
{
    if s.len() == 0 {
        assert(insert_stable(s, c) =~= s.take(0) + seq![c] + s.skip(0));
    } else if cluster_lt(c, s.first()) {
        if j > 0 {
            assert(cluster_le(s[0], s[j - 1]) || j == 1);
            assert(false);
        }
        assert(seq![c] + s =~= s.take(0) + seq![c] + s.skip(0));
    } else {
        assert(j >= 1) by {
            if j == 0 {
                assert(cluster_lt(c, s[0]));
            }
        }
        let t = s.drop_first();
        assert forall|b: int| j - 1 <= b < t.len() implies cluster_lt(c, #[trigger] t[b]) by {
            assert(t[b] == s[b + 1]);
        }
        assert(sorted_clusters(t)) by {
            assert forall|a: int, b: int| 0 <= a < b < t.len() implies cluster_le(
                #[trigger] t[a],
                #[trigger] t[b],
            ) by {
                assert(t[a] == s[a + 1] && t[b] == s[b + 1]);
            }
        }
        lemma_insert_stable_at(t, c, j - 1);
        assert(seq![s.first()] + (t.take(j - 1) + seq![c] + t.skip(j - 1)) =~= s.take(j)
            + seq![c] + s.skip(j));
    }
}

/// The stable sort is a permutation: same multiset, same length.
pub proof fn lemma_stable_sorted_multiset(s: Seq<Cluster>)
    ensures
        stable_sorted(s).to_multiset() == s.to_multiset(),
        stable_sorted(s).len() == s.len(),
    decreases s.len(),
{
    broadcast use vstd::multiset::group_multiset_axioms;
    Seq::to_multiset_ensures(s);
    Seq::to_multiset_ensures(stable_sorted(s));
    if s.len() > 0 {
        lemma_stable_sorted_multiset(s.drop_last());
        lemma_insert_stable_multiset(stable_sorted(s.drop_last()), s.last());
        Seq::to_multiset_ensures(s.drop_last());
        assert(s.drop_last().push(s.last()) =~= s);
    }
}

pub proof fn lemma_insert_stable_multiset(s: Seq<Cluster>, c: Cluster)
    ensures
        insert_stable(s, c).to_multiset() == s.to_multiset().insert(c),
        insert_stable(s, c).len() == s.len() + 1,
    decreases s.len(),
{
    broadcast use vstd::multiset::group_multiset_axioms;
    Seq::to_multiset_ensures(s);
    if s.len() == 0 {
        assert(seq![c] =~= Seq::<Cluster>::empty().push(c));
        Seq::to_multiset_ensures(Seq::<Cluster>::empty());
    } else if cluster_lt(c, s.first()) {
        assert(seq![c] + s =~= s.insert(0, c));
        vstd::seq_lib::to_multiset_insert(s, 0, c);
    } else {
        lemma_insert_stable_multiset(s.drop_first(), c);
        let t = insert_stable(s.drop_first(), c);
        assert(seq![s.first()] + t =~= t.insert(0, s.first()));
        vstd::seq_lib::to_multiset_insert(t, 0, s.first());
        assert(s.drop_first().insert(0, s.first()) =~= s);
        vstd::seq_lib::to_multiset_insert(s.drop_first(), 0, s.first());
        assert(s.to_multiset() =~= s.drop_first().to_multiset().insert(s.first()));
        assert(t.to_multiset().insert(s.first()) =~= s.drop_first().to_multiset().insert(
            c,
        ).insert(s.first()));
        assert(s.drop_first().to_multiset().insert(c).insert(s.first())
            =~= s.drop_first().to_multiset().insert(s.first()).insert(c));
    }
}

/// A sequence already in queue order is its own stable sort.
pub proof fn lemma_stable_sorted_of_sorted(s: Seq<Cluster>)
    requires
        sorted_clusters(s),
    ensures
        stable_sorted(s) == s,
    decreases s.len(),
{
    if s.len() > 0 {
        let t = s.drop_last();
        assert(sorted_clusters(t)) by {
            assert forall|a: int, b: int| 0 <= a < b < t.len() implies cluster_le(
                #[trigger] t[a],
                #[trigger] t[b],
            ) by {
                assert(t[a] == s[a] && t[b] == s[b]);
            }
        }
        lemma_stable_sorted_of_sorted(t);
        lemma_insert_stable_at(t, s.last(), t.len() as int);
        assert(t.take(t.len() as int) + seq![s.last()] + t.skip(t.len() as int) =~= s);
    }
}

/// What the queue requires of a stored cluster: a well-formed,
/// fully-expanded cluster whose weight covers its seed and members.
/// (The pairwise distance sum is a snapshot from discovery; cleaning
/// removes members without recomputing it.)
pub open spec fn queue_cluster_wf(c: Cluster) -> bool {
    &&& c.seed.wf()
    &&& forall|i: int| 0 <= i < c.members@.len() ==> (#[trigger] c.members@[i]).wf()
    &&& c.candidates@.len() == 0
    &&& forall|i: int, j: int|
        0 <= i < j < c.members@.len() ==> (#[trigger] c.members@[i]).traj_id != (
        #[trigger] c.members@[j]).traj_id
    &&& forall|i: int|
        0 <= i < c.members@.len() ==> (#[trigger] c.members@[i]).traj_id != c.seed.cm.traj_id
    &&& c.members@.len() <= CLUSTER_SIZE_LIMIT
    &&& c.total_weight == c.seed.cm.weight + weight_sum(c.members@)
}

/// A fully-formed cluster satisfies the queue's weaker shape.
pub proof fn lemma_wf_implies_queue_wf(c: Cluster)
    requires
        c.wf(),
        c.candidates@.len() == 0,
    ensures
        queue_cluster_wf(c),
{
    assert(weight_sum(c.candidates@) == 0);
}

/// The member carries a sub-segment key already taken by the popped
/// cluster `w` (its seed or one of its members).
pub open spec fn key_taken(w: Cluster, traj_id: usize, segment_id: usize) -> bool {
    w.spec_contains_segment(traj_id, segment_id)
}

/// Whether a cluster survives cleaning against the popped cluster
/// `w` at `threshold`: its seed's key must be free, and either it has
/// no members, or its weight after shedding the taken members still
/// meets the threshold.
pub open spec fn spec_keeps(q: Cluster, w: Cluster, threshold: u32) -> bool {
    &&& !key_taken(w, q.seed.cm.traj_id, q.seed.cm.segment_id)
    &&& (q.members@.len() == 0 || q.seed.cm.weight + weight_sum(
        q.members@.filter(|m: ClusterMember| !key_taken(w, m.traj_id, m.segment_id)),
    ) >= threshold)
}

/// `q` is `c` with every member whose key `w` took removed, weight
/// adjusted accordingly.
pub open spec fn is_cleaned_of(q: Cluster, c: Cluster, w: Cluster) -> bool {
    &&& q.seed == c.seed
    &&& q.members@ == c.members@.filter(
        |m: ClusterMember| !key_taken(w, m.traj_id, m.segment_id),
    )
    &&& q.candidates@ == c.candidates@
    &&& q.sum_distance == c.sum_distance
    &&& q.total_weight == q.seed.cm.weight + weight_sum(q.members@)
}

/// `q` is the cleaned form of some cluster of `els`.
pub open spec fn cleaned_from_one_of(q: Cluster, els: Seq<Cluster>, w: Cluster) -> bool {
    exists|j: int| 0 <= j < els.len() && is_cleaned_of(q, #[trigger] els[j], w)
}

/// No sub-segment key of `q` (seed or member) is taken by `w`.
pub open spec fn keys_disjoint_from(q: Cluster, w: Cluster) -> bool {
    &&& !key_taken(w, q.seed.cm.traj_id, q.seed.cm.segment_id)
    &&& forall|i: int|
        0 <= i < q.members@.len() ==> !key_taken(
            w,
            (#[trigger] q.members@[i]).traj_id,
            q.members@[i].segment_id,
        )
}


/// The queue-relevant content of a cluster: everything that ranking,
/// cleaning and corridor building read.  A ghost mirror of `Cluster`,
/// constructible in specifications.
pub ghost struct ClusterModel {
    pub seed: ClusterSeed,
    pub members: Seq<ClusterMember>,
    pub total_weight: int,
    pub sum_distance: int,
}

pub open spec fn model_of(c: Cluster) -> ClusterModel {
    ClusterModel {
        seed: c.seed,
        members: c.members@,
        total_weight: c.total_weight as int,
        sum_distance: c.sum_distance as int,
    }
}

pub open spec fn models_of(s: Seq<Cluster>) -> Seq<ClusterModel> {
    s.map_values(|c: Cluster| model_of(c))
}

pub open spec fn model_lt(a: ClusterModel, b: ClusterModel) -> bool {
    ||| a.total_weight > b.total_weight
    ||| (a.total_weight == b.total_weight && a.sum_distance < b.sum_distance)
}

pub open spec fn model_key_taken(w: ClusterModel, traj_id: usize, segment_id: usize) -> bool {
    ||| (w.seed.cm.traj_id == traj_id && w.seed.cm.segment_id == segment_id)
    ||| exists|i: int|
        0 <= i < w.members.len() && (#[trigger] w.members[i]).traj_id == traj_id
            && w.members[i].segment_id == segment_id
}

pub open spec fn model_keeps(q: ClusterModel, w: ClusterModel, threshold: u32) -> bool {
    &&& !model_key_taken(w, q.seed.cm.traj_id, q.seed.cm.segment_id)
    &&& (q.members.len() == 0 || q.seed.cm.weight + weight_sum(
        q.members.filter(|m: ClusterMember| !model_key_taken(w, m.traj_id, m.segment_id)),
    ) >= threshold)
}

pub open spec fn model_clean(q: ClusterModel, w: ClusterModel) -> ClusterModel {
    let kept = q.members.filter(|m: ClusterMember| !model_key_taken(w, m.traj_id, m.segment_id));
    ClusterModel {
        seed: q.seed,
        members: kept,
        total_weight: q.seed.cm.weight + weight_sum(kept),
        sum_distance: q.sum_distance,
    }
}

pub open spec fn models_clean(els: Seq<ClusterModel>, w: ClusterModel, threshold: u32) -> Seq<
    ClusterModel,
> {
    els.filter(|q: ClusterModel| model_keeps(q, w, threshold)).map_values(
        |q: ClusterModel| model_clean(q, w),
    )
}

pub open spec fn model_insert_stable(s: Seq<ClusterModel>, c: ClusterModel) -> Seq<ClusterModel>
    decreases s.len(),
{
    if s.len() == 0 {
        seq![c]
    } else if model_lt(c, s.first()) {
        seq![c] + s
    } else {
        seq![s.first()] + model_insert_stable(s.drop_first(), c)
    }
}

pub open spec fn model_stable_sorted(s: Seq<ClusterModel>) -> Seq<ClusterModel>
    decreases s.len(),
{
    if s.len() == 0 {
        Seq::empty()
    } else {
        model_insert_stable(model_stable_sorted(s.drop_last()), s.last())
    }
}

pub proof fn lemma_model_insert_stable_len(s: Seq<ClusterModel>, c: ClusterModel)
    ensures
        model_insert_stable(s, c).len() == s.len() + 1,
    decreases s.len(),
{
    if s.len() > 0 && !model_lt(c, s.first()) {
        lemma_model_insert_stable_len(s.drop_first(), c);
    }
}

pub proof fn lemma_model_stable_sorted_len(s: Seq<ClusterModel>)
    ensures
        model_stable_sorted(s).len() == s.len(),
    decreases s.len(),
{
    if s.len() > 0 {
        lemma_model_stable_sorted_len(s.drop_last());
        lemma_model_insert_stable_len(model_stable_sorted(s.drop_last()), s.last());
    }
}

/// Sorting the models is modelling the sorted clusters: the two
/// stable sorts agree through `model_of`.
pub proof fn lemma_models_of_insert_stable(s: Seq<Cluster>, c: Cluster)
    ensures
        models_of(insert_stable(s, c)) == model_insert_stable(models_of(s), model_of(c)),
    decreases s.len(),
{
    if s.len() == 0 {
        assert(models_of(insert_stable(s, c)) =~= model_insert_stable(
            models_of(s),
            model_of(c),
        ));
    } else if cluster_lt(c, s.first()) {
        assert(models_of(s).first() == model_of(s.first()));
        assert(models_of(seq![c] + s) =~= seq![model_of(c)] + models_of(s));
    } else {
        assert(models_of(s).first() == model_of(s.first()));
        lemma_models_of_insert_stable(s.drop_first(), c);
        assert(models_of(s.drop_first()) =~= models_of(s).drop_first());
        assert(models_of(seq![s.first()] + insert_stable(s.drop_first(), c)) =~= seq![model_of(
            s.first(),
        )] + models_of(insert_stable(s.drop_first(), c)));
        assert(model_insert_stable(models_of(s), model_of(c)) =~= seq![models_of(s).first()]
            + model_insert_stable(models_of(s).drop_first(), model_of(c)));
    }
}

pub proof fn lemma_models_of_stable_sorted(s: Seq<Cluster>)
    ensures
        models_of(stable_sorted(s)) == model_stable_sorted(models_of(s)),
    decreases s.len(),
{
    if s.len() == 0 {
        assert(models_of(stable_sorted(s)) =~= model_stable_sorted(models_of(s)));
    } else {
        lemma_models_of_stable_sorted(s.drop_last());
        lemma_models_of_insert_stable(stable_sorted(s.drop_last()), s.last());
        assert(models_of(s.drop_last()) =~= models_of(s).drop_last());
        assert(models_of(s).last() == model_of(s.last()));
    }
}

/// Cleaning a queue cluster is cleaning its model.
pub proof fn lemma_model_key_taken_agrees(w: Cluster, traj_id: usize, segment_id: usize)
    requires
        w.candidates@.len() == 0,
    ensures
        key_taken(w, traj_id, segment_id) == model_key_taken(model_of(w), traj_id, segment_id),
{
    assert(!(exists|i: int|
        0 <= i < w.candidates@.len() && (#[trigger] w.candidates@[i]).traj_id == traj_id
            && w.candidates@[i].segment_id == segment_id));
    assert(forall|i: int|
        0 <= i < w.members@.len() ==> (#[trigger] w.members@[i]) == model_of(w).members[i]);
}

pub proof fn lemma_model_keeps_agrees(q: Cluster, w: Cluster, threshold: u32)
    requires
        w.candidates@.len() == 0,
    ensures
        spec_keeps(q, w, threshold) == model_keeps(model_of(q), model_of(w), threshold),
{
    lemma_model_key_taken_agrees(w, q.seed.cm.traj_id, q.seed.cm.segment_id);
    assert(q.members@.filter(|m: ClusterMember| !key_taken(w, m.traj_id, m.segment_id))
        =~= model_of(q).members.filter(
        |m: ClusterMember| !model_key_taken(model_of(w), m.traj_id, m.segment_id),
    )) by {
        lemma_filter_taken_agrees(q.members@, w);
    }
}

proof fn lemma_filter_taken_agrees(ms: Seq<ClusterMember>, w: Cluster)
    requires
        w.candidates@.len() == 0,
    ensures
        ms.filter(|m: ClusterMember| !key_taken(w, m.traj_id, m.segment_id)) == ms.filter(
            |m: ClusterMember| !model_key_taken(model_of(w), m.traj_id, m.segment_id),
        ),
    decreases ms.len(),
{
    reveal(Seq::filter);
    if ms.len() > 0 {
        lemma_filter_taken_agrees(ms.drop_last(), w);
        lemma_model_key_taken_agrees(w, ms.last().traj_id, ms.last().segment_id);
    }
}

pub proof fn lemma_model_clean_agrees(q2: Cluster, q: Cluster, w: Cluster)
    requires
        is_cleaned_of(q2, q, w),
        w.candidates@.len() == 0,
    ensures
        model_of(q2) == model_clean(model_of(q), model_of(w)),
{
    lemma_filter_taken_agrees(q.members@, w);
    assert(model_of(q2) =~= model_clean(model_of(q), model_of(w)));
}

/// Cleaning the survivors at the model level: the models of the
/// cleaned keepers are the cleaned models of the keepers.
pub proof fn lemma_models_clean_agrees(
    after: Seq<Cluster>,
    before: Seq<Cluster>,
    w: Cluster,
    threshold: u32,
)
    requires
        w.candidates@.len() == 0,
        after.len() == before.filter(|q: Cluster| spec_keeps(q, w, threshold)).len(),
        forall|i: int|
            0 <= i < after.len() ==> is_cleaned_of(
                #[trigger] after[i],
                before.filter(|q: Cluster| spec_keeps(q, w, threshold))[i],
                w,
            ),
    ensures
        models_of(after) == models_clean(models_of(before), model_of(w), threshold),
{
    lemma_filter_models_agree(before, w, threshold);
    let kept = before.filter(|q: Cluster| spec_keeps(q, w, threshold));
    assert forall|i: int| 0 <= i < after.len() implies models_of(after)[i] == models_clean(
        models_of(before),
        model_of(w),
        threshold,
    )[i] by {
        lemma_model_clean_agrees(after[i], kept[i], w);
        assert(models_of(kept)[i] == model_of(kept[i]));
    }
    assert(models_of(after) =~= models_clean(models_of(before), model_of(w), threshold));
}

proof fn lemma_filter_models_agree(s: Seq<Cluster>, w: Cluster, threshold: u32)
    requires
        w.candidates@.len() == 0,
    ensures
        models_of(s.filter(|q: Cluster| spec_keeps(q, w, threshold))) == models_of(s).filter(
            |q: ClusterModel| model_keeps(q, model_of(w), threshold),
        ),
    decreases s.len(),
{
    reveal(Seq::filter);
    if s.len() == 0 {
        assert(models_of(s.filter(|q: Cluster| spec_keeps(q, w, threshold))) =~= models_of(
            s,
        ).filter(|q: ClusterModel| model_keeps(q, model_of(w), threshold)));
    } else {
        lemma_filter_models_agree(s.drop_last(), w, threshold);
        lemma_model_keeps_agrees(s.last(), w, threshold);
        assert(models_of(s).drop_last() =~= models_of(s.drop_last()));
        assert(models_of(s).last() == model_of(s.last()));
        let fc = s.drop_last().filter(|q: Cluster| spec_keeps(q, w, threshold));
        if spec_keeps(s.last(), w, threshold) {
            assert(models_of(fc.push(s.last())) =~= models_of(fc).push(model_of(s.last())));
        }
    }
}

/// The drain of a queue: rank the clusters, pop the top, clean the
/// rest against it, and repeat until nothing is left.  The result is
/// the sequence of popped clusters, in pop order -- the clusters the
/// corridors are built from.
pub open spec fn spec_drain(els: Seq<ClusterModel>, threshold: u32) -> Seq<ClusterModel>
    decreases els.len(),
    via spec_drain_decreases
{
    if els.len() == 0 {
        Seq::empty()
    } else {
        let ranked = model_stable_sorted(els);
        let rest = models_clean(ranked.skip(1), ranked[0], threshold);
        seq![ranked[0]] + spec_drain(rest, threshold)
    }
}

#[via_fn]
proof fn spec_drain_decreases(els: Seq<ClusterModel>, threshold: u32) {
    if els.len() > 0 {
        let ranked = model_stable_sorted(els);
        lemma_model_stable_sorted_len(els);
        ranked.skip(1).lemma_filter_len(|q: ClusterModel| model_keeps(q, ranked[0], threshold));
    }
}

/// The cluster priority queue: discovered clusters ranked by weight
/// and compactness, plus the provisional non-clustered sub-segments.
/// Sorting is lazy: `is_sorted` is cleared on every push and on every
/// pop (cleaning changes weights), and re-established on demand.
pub struct PriorityQueueCluster {
    pub elements: Vec<Cluster>,
    pub non_clustered_segments: Vec<ClusterMember>,
    pub is_sorted: bool,
}

impl PriorityQueueCluster {
    pub open spec fn wf(self) -> bool {
        &&& forall|i: int| 0 <= i < self.elements@.len() ==> queue_cluster_wf(
            #[trigger] self.elements@[i],
        )
        &&& self.is_sorted ==> sorted_clusters(self.elements@)
    }

    pub fn new() -> (r: PriorityQueueCluster)
        ensures
            r.wf(),
            r.elements@.len() == 0,
            r.non_clustered_segments@.len() == 0,
            !r.is_sorted,
    {
        PriorityQueueCluster {
            elements: Vec::new(),
            non_clustered_segments: Vec::new(),
            is_sorted: false,
        }
    }

    pub fn push(&mut self, cluster: Cluster)
        requires
            old(self).wf(),
            cluster.wf(),
            cluster.candidates@.len() == 0,
        ensures
            final(self).wf(),
            final(self).elements@ == old(self).elements@.push(cluster),
            final(self).non_clustered_segments == old(self).non_clustered_segments,
            !final(self).is_sorted,
    {
        proof {
            lemma_wf_implies_queue_wf(cluster);
        }
        self.is_sorted = false;
        self.elements.push(cluster);
    }

    /// Reorders the clusters by weight descending, distance sum
    /// ascending.  An insertion sort that only ever moves a strictly
    /// out-of-order element: the result is a sorted permutation, and
    /// re-sorting an already sorted queue changes nothing.
    pub fn sort_by_weight(&mut self)
        requires
            old(self).wf(),
        ensures
            final(self).wf(),
            final(self).is_sorted,
            sorted_clusters(final(self).elements@),
            final(self).elements@.to_multiset() == old(self).elements@.to_multiset(),
            final(self).elements@.len() == old(self).elements@.len(),
            final(self).non_clustered_segments == old(self).non_clustered_segments,
            sorted_clusters(old(self).elements@) ==> final(self).elements@ == old(
                self,
            ).elements@,
            final(self).elements@ == stable_sorted(old(self).elements@),
    {
        let ghost orig = self.elements@;
        let n = self.elements.len();
        let mut i: usize = 1;
        proof {
            if n > 0 {
                assert(orig.take(1).len() == 1);
                assert(orig.take(1).drop_last() =~= Seq::<Cluster>::empty());
                assert(orig.take(1).last() == orig[0]);
                assert(stable_sorted(Seq::<Cluster>::empty()) == Seq::<Cluster>::empty());
                assert(insert_stable(Seq::<Cluster>::empty(), orig[0]) == seq![orig[0]]);
                assert(stable_sorted(orig.take(1)) == seq![orig[0]]);
                assert(self.elements@ =~= stable_sorted(orig.take(1)) + orig.skip(1));
            }
        }
        while i < n
            invariant
                n == self.elements@.len(),
                orig.len() == n,
                1 <= i <= n || (n == 0 && i == 1),
                n > 0 ==> self.elements@ == stable_sorted(orig.take(i as int)) + orig.skip(
                    i as int,
                ),
                self.elements@.to_multiset() == orig.to_multiset(),
                forall|a: int, b: int|
                    0 <= a < b < i ==> cluster_le(
                        #[trigger] self.elements@[a],
                        #[trigger] self.elements@[b],
                    ),
                forall|k: int| 0 <= k < n ==> queue_cluster_wf(#[trigger] self.elements@[k]),
                self.non_clustered_segments == old(self).non_clustered_segments,
                sorted_clusters(orig) ==> self.elements@ == orig,
            decreases n - i,
        {
            let ghost sp = stable_sorted(orig.take(i as int));
            let ghost x = orig[i as int];
            proof {
                assert(sp.len() == i) by {
                    lemma_stable_sorted_multiset(orig.take(i as int));
                    assert(orig.take(i as int).len() == i);
                }
                assert(orig.skip(i as int)[0] == orig[i as int]);
                assert(self.elements@[i as int] == x);
                assert(self.elements@ =~= sp.take(i as int) + seq![x] + sp.skip(i as int)
                    + orig.skip(i + 1)) by {
                    assert(sp.take(i as int) =~= sp);
                    assert(sp.skip(i as int) =~= Seq::<Cluster>::empty());
                    assert forall|p: int| 0 <= p < self.elements@.len() implies
                        self.elements@[p] == (sp.take(i as int) + seq![x] + sp.skip(i as int)
                            + orig.skip(i + 1))[p] by {
                        if p < i {
                            assert(self.elements@[p] == sp[p]);
                        } else if p == i {
                        } else {
                            assert(self.elements@[p] == orig.skip(i as int)[p - i]);
                            assert(orig.skip(i as int)[p - i] == orig[p]);
                            assert(orig.skip(i + 1)[p - i - 1] == orig[p]);
                        }
                    }
                }
                assert(sorted_clusters(sp)) by {
                    assert forall|a: int, b: int| 0 <= a < b < sp.len() implies cluster_le(
                        #[trigger] sp[a],
                        #[trigger] sp[b],
                    ) by {
                        assert(self.elements@[a] == sp[a]);
                        assert(self.elements@[b] == sp[b]);
                    }
                }
            }
            let mut j: usize = i;
            loop
                invariant_except_break
                    n == self.elements@.len(),
                    orig.len() == n,
                    1 <= i < n,
                    0 <= j <= i,
                    sp == stable_sorted(orig.take(i as int)),
                    sp.len() == i,
                    x == orig[i as int],
                    self.elements@ == sp.take(j as int) + seq![x] + sp.skip(j as int) + orig.skip(
                        i + 1,
                    ),
                    forall|b: int| j <= b < sp.len() ==> cluster_lt(x, #[trigger] sp[b]),
                    sorted_clusters(sp),
                    self.elements@.to_multiset() == orig.to_multiset(),
                    forall|a: int, b: int|
                        0 <= a < b <= i && a != j && b != j ==> cluster_le(
                            #[trigger] self.elements@[a],
                            #[trigger] self.elements@[b],
                        ),
                    forall|b: int|
                        j < b <= i ==> cluster_le(
                            self.elements@[j as int],
                            #[trigger] self.elements@[b],
                        ),
                    forall|k: int| 0 <= k < n ==> queue_cluster_wf(#[trigger] self.elements@[k]),
                    self.non_clustered_segments == old(self).non_clustered_segments,
                    sorted_clusters(orig) ==> self.elements@ == orig,
                ensures
                    n == self.elements@.len(),
                    1 <= i < n,
                    0 <= j <= i,
                    self.elements@ == sp.take(j as int) + seq![x] + sp.skip(j as int) + orig.skip(
                        i + 1,
                    ),
                    forall|b: int| j <= b < sp.len() ==> cluster_lt(x, #[trigger] sp[b]),
                    j == 0 || !cluster_lt(x, sp[j - 1]),
                    self.elements@.to_multiset() == orig.to_multiset(),
                    forall|a: int, b: int|
                        0 <= a < b <= i ==> cluster_le(
                            #[trigger] self.elements@[a],
                            #[trigger] self.elements@[b],
                        ),
                    forall|k: int| 0 <= k < n ==> queue_cluster_wf(#[trigger] self.elements@[k]),
                    self.non_clustered_segments == old(self).non_clustered_segments,
                    sorted_clusters(orig) ==> self.elements@ == orig,
                decreases j,
            {
                if j == 0 {
                    proof {
                        lemma_cluster_le_transitive_prefix(self.elements@, j as int, i as int);
                    }
                    break;
                }
                proof {
                    assert(self.elements@[j - 1] == sp[j - 1]);
                    assert(self.elements@[j as int] == x);
                }
                let out_of_order = cluster_strictly_before(
                    &self.elements[j],
                    &self.elements[j - 1],
                );
                if !out_of_order {
                    proof {
                        lemma_cluster_le_transitive_prefix(self.elements@, j as int, i as int);
                    }
                    break;
                }
                proof {
                    if sorted_clusters(orig) {
                        assert(self.elements@ == orig);
                        assert(cluster_le(orig[j - 1], orig[j as int]));
                        assert(false);
                    }
                }
                let ghost before = self.elements@;
                let moved = self.elements.remove(j);
                self.elements.insert(j - 1, moved);
                proof {
                    broadcast use vstd::multiset::group_multiset_axioms;
                    vstd::seq_lib::to_multiset_remove(before, j as int);
                    vstd::seq_lib::to_multiset_insert(before.remove(j as int), j - 1, before[j as int]);
                    Seq::to_multiset_ensures(before);
                    assert(before.contains(before[j as int]));
                    assert(before.to_multiset().count(before[j as int]) > 0);
                    assert(before.to_multiset().remove(before[j as int]).insert(before[j as int])
                        =~= before.to_multiset());
                    assert(self.elements@ =~= before.update(j - 1, before[j as int]).update(
                        j as int,
                        before[j - 1],
                    ));
                    assert(self.elements@ =~= sp.take(j - 1) + seq![x] + sp.skip(j - 1)
                        + orig.skip(i + 1));
                }
                j = j - 1;
            }
            proof {
                lemma_insert_stable_at(sp, x, j as int);
                assert(orig.take(i + 1).drop_last() =~= orig.take(i as int));
                assert(orig.take(i + 1).last() == x);
                assert(stable_sorted(orig.take(i + 1)) == insert_stable(sp, x));
                assert(self.elements@ =~= stable_sorted(orig.take(i + 1)) + orig.skip(i + 1));
            }
            i = i + 1;
        }
        proof {
            if n == 0 {
                assert(self.elements@ =~= stable_sorted(orig));
            } else {
                assert(orig.take(n as int) =~= orig);
                assert(orig.skip(n as int) =~= Seq::<Cluster>::empty());
                assert(self.elements@ =~= stable_sorted(orig.take(n as int)) + orig.skip(
                    n as int,
                ));
                assert(self.elements@ =~= stable_sorted(orig));
            }
        }
        self.is_sorted = true;
    }

    /// Removes the top cluster, erases every sub-segment it consumed
    /// from the remaining clusters and the non-clustered list, drops
    /// remaining clusters whose seed was consumed or whose weight fell
    /// under the threshold, and marks the queue dirty.
    pub fn pop_and_clean(&mut self, threshold: u32) -> (r: Option<Cluster>)
        requires
            old(self).wf(),
        ensures
            final(self).wf(),
            r is None <==> old(self).elements@.len() == 0,
            r is None ==> *final(self) == *old(self),
            r is Some ==> {
                let w = r->Some_0;
                let ranked = stable_sorted(old(self).elements@);
                let survivors = ranked.skip(1).filter(
                    |q: Cluster| spec_keeps(q, w, threshold),
                );
                &&& w == ranked[0]
                &&& final(self).elements@.len() == survivors.len()
                &&& (forall|i: int|
                    0 <= i < final(self).elements@.len() ==> is_cleaned_of(
                        #[trigger] final(self).elements@[i],
                        survivors[i],
                        w,
                    ))
                &&& model_of(w) == model_stable_sorted(models_of(old(self).elements@))[0]
                &&& models_of(final(self).elements@) == models_clean(
                    model_stable_sorted(models_of(old(self).elements@)).skip(1),
                    model_of(w),
                    threshold,
                )
                &&& queue_cluster_wf(w)
                &&& old(self).elements@.to_multiset().contains(w)
                &&& forall|i: int|
                    0 <= i < old(self).elements@.len() ==> cluster_le(
                        w,
                        #[trigger] old(self).elements@[i],
                    )
                &&& final(self).elements@.len() < old(self).elements@.len()
                &&& forall|i: int|
                    0 <= i < final(self).elements@.len() ==> keys_disjoint_from(
                        #[trigger] final(self).elements@[i],
                        w,
                    )
                &&& forall|i: int|
                    0 <= i < final(self).elements@.len() ==> ((
                    #[trigger] final(self).elements@[i]).total_weight >= threshold
                        || final(self).elements@[i].members@.len() == 0)
                &&& forall|i: int|
                    0 <= i < final(self).elements@.len() ==> cleaned_from_one_of(
                        #[trigger] final(self).elements@[i],
                        old(self).elements@,
                        w,
                    )
                &&& final(self).non_clustered_segments@ == old(
                    self,
                ).non_clustered_segments@.filter(
                    |m: ClusterMember| !key_taken(w, m.traj_id, m.segment_id),
                )
                &&& !final(self).is_sorted
            },
    {
        if self.elements.len() == 0 {
            return None;
        }
        let ghost pre = *old(self);
        if !self.is_sorted {
            self.sort_by_weight();
        } else {
            proof {
                lemma_stable_sorted_of_sorted(self.elements@);
            }
        }
        let ghost sorted_els = self.elements@;
        proof {
            assert(sorted_els == stable_sorted(pre.elements@));
            lemma_stable_sorted_multiset(pre.elements@);
        }
        let w = self.elements.remove(0);
        proof {
            assert(self.elements@ =~= sorted_els.skip(1));
        }
        proof {
            assert forall|i: int| 0 <= i < pre.elements@.len() implies cluster_le(
                w,
                #[trigger] pre.elements@[i],
            ) by {
                Seq::to_multiset_ensures(sorted_els);
                Seq::to_multiset_ensures(pre.elements@);
                assert(sorted_els.to_multiset().count(pre.elements@[i]) > 0);
                assert(sorted_els.contains(pre.elements@[i]));
                let k = choose|k: int|
                    0 <= k < sorted_els.len() && sorted_els[k] == pre.elements@[i];
                assert(w == sorted_els[0]);
            }
            Seq::to_multiset_ensures(sorted_els);
            assert(sorted_els.contains(w));
            assert(pre.elements@.to_multiset().count(w) > 0);
        }
        let ghost after_pop = *self;
        self.clean_remaining_clusters(&w, threshold);
        self.clean_non_clustered_segments(&w);
        self.is_sorted = false;
        proof {
            broadcast use vstd::multiset::group_multiset_axioms;
            assert forall|i: int| 0 <= i < self.elements@.len() implies cleaned_from_one_of(
                #[trigger] self.elements@[i],
                pre.elements@,
                w,
            ) by {
                assert(cleaned_from_one_of(self.elements@[i], after_pop.elements@, w));
                let j0 = choose|j0: int|
                    0 <= j0 < after_pop.elements@.len() && is_cleaned_of(
                        self.elements@[i],
                        #[trigger] after_pop.elements@[j0],
                        w,
                    );
                let e = after_pop.elements@[j0];
                assert(e == sorted_els[j0 + 1]);
                assert(sorted_els.contains(e));
                Seq::to_multiset_ensures(sorted_els);
                Seq::to_multiset_ensures(pre.elements@);
                assert(pre.elements@.to_multiset().count(e) > 0);
                assert(pre.elements@.contains(e));
                let j = choose|j: int| 0 <= j < pre.elements@.len() && pre.elements@[j] == e;
                assert(is_cleaned_of(self.elements@[i], pre.elements@[j], w));
            }
            // the same facts at the model level, for the drain
            lemma_models_of_stable_sorted(pre.elements@);
            assert(model_of(w) == models_of(sorted_els)[0]);
            assert(models_of(after_pop.elements@) =~= models_of(sorted_els).skip(1));
            lemma_models_clean_agrees(
                self.elements@,
                after_pop.elements@,
                w,
                threshold,
            );
        }
        Some(w)
    }

    /// Rebuilds the cluster list, cleaning each cluster against `w`
    /// and dropping the ones that no longer stand.
    fn clean_remaining_clusters(&mut self, w: &Cluster, threshold: u32)
        requires
            old(self).wf(),
            queue_cluster_wf(*w),
        ensures
            final(self).wf(),
            !final(self).is_sorted,
            final(self).elements@.len() <= old(self).elements@.len(),
            final(self).non_clustered_segments == old(self).non_clustered_segments,
            forall|i: int|
                0 <= i < final(self).elements@.len() ==> keys_disjoint_from(
                    #[trigger] final(self).elements@[i],
                    *w,
                ),
            forall|i: int|
                0 <= i < final(self).elements@.len() ==> ((
                #[trigger] final(self).elements@[i]).total_weight >= threshold
                    || final(self).elements@[i].members@.len() == 0),
            forall|i: int|
                0 <= i < final(self).elements@.len() ==> cleaned_from_one_of(
                    #[trigger] final(self).elements@[i],
                    old(self).elements@,
                    *w,
                ),
            final(self).elements@.len() == old(self).elements@.filter(
                |q: Cluster| spec_keeps(q, *w, threshold),
            ).len(),
            forall|i: int|
                0 <= i < final(self).elements@.len() ==> is_cleaned_of(
                    #[trigger] final(self).elements@[i],
                    old(self).elements@.filter(|q: Cluster| spec_keeps(q, *w, threshold))[i],
                    *w,
                ),
    {
        let ghost kp = |q: Cluster| spec_keeps(q, *w, threshold);
        let n = self.elements.len();
        let mut kept: Vec<Cluster> = Vec::new();
        let mut k: usize = 0;
        proof {
            assert(old(self).elements@.take(0).filter(kp) =~= Seq::<Cluster>::empty());
        }
        while k < n
            invariant
                n == old(self).elements@.len(),
                0 <= k <= n,
                *self == *old(self),
                old(self).wf(),
                queue_cluster_wf(*w),
                kp == (|q: Cluster| spec_keeps(q, *w, threshold)),
                kept@.len() == old(self).elements@.take(k as int).filter(kp).len(),
                forall|i: int|
                    0 <= i < kept@.len() ==> is_cleaned_of(
                        #[trigger] kept@[i],
                        old(self).elements@.take(k as int).filter(kp)[i],
                        *w,
                    ),
                kept@.len() <= k,
                forall|i: int| 0 <= i < kept@.len() ==> queue_cluster_wf(#[trigger] kept@[i]),
                forall|i: int|
                    0 <= i < kept@.len() ==> keys_disjoint_from(#[trigger] kept@[i], *w),
                forall|i: int|
                    0 <= i < kept@.len() ==> ((#[trigger] kept@[i]).total_weight >= threshold
                        || kept@[i].members@.len() == 0),
                forall|i: int|
                    0 <= i < kept@.len() ==> cleaned_from_one_of(
                        #[trigger] kept@[i],
                        old(self).elements@,
                        *w,
                    ),
            decreases n - k,
        {
            let mut c = clone_queue_cluster(&self.elements[k]);
            let ghost source = self.elements@[k as int];
            let ghost prefix = old(self).elements@.take(k as int);
            proof {
                assert(old(self).elements@.take(k + 1) =~= prefix.push(source));
                prefix.lemma_filter_push(source, kp);
            }
            let keep = clean_individual_cluster(&mut c, w, threshold);
            if keep {
                proof {
                    assert(is_cleaned_of(c, source, *w));
                    assert(cleaned_from_one_of(c, old(self).elements@, *w));
                    assert(kept@.push(c).drop_last() =~= kept@);
                    assert(prefix.filter(kp).push(source) =~= prefix.push(source).filter(kp));
                }
                kept.push(c);
            }
            k = k + 1;
        }
        let ghost kept_view = kept@;
        self.elements = kept;
        self.is_sorted = false;
        proof {
            assert(old(self).elements@.take(n as int) =~= old(self).elements@);
            assert forall|i: int| 0 <= i < self.elements@.len() implies cleaned_from_one_of(
                #[trigger] self.elements@[i],
                old(self).elements@,
                *w,
            ) by {
                assert(self.elements@[i] == kept_view[i]);
            }
            assert forall|i: int| 0 <= i < self.elements@.len() implies is_cleaned_of(
                #[trigger] self.elements@[i],
                old(self).elements@.filter(|q: Cluster| spec_keeps(q, *w, threshold))[i],
                *w,
            ) by {
                assert(self.elements@[i] == kept_view[i]);
            }
        }
    }

    /// Drops every provisional non-clustered sub-segment whose key
    /// the popped cluster consumed.
    fn clean_non_clustered_segments(&mut self, w: &Cluster)
        requires
            old(self).wf(),
        ensures
            final(self).wf(),
            final(self).elements == old(self).elements,
            final(self).is_sorted == old(self).is_sorted,
            final(self).non_clustered_segments@ == old(self).non_clustered_segments@.filter(
                |m: ClusterMember| !key_taken(*w, m.traj_id, m.segment_id),
            ),
    {
        let ghost pred = |m: ClusterMember| !key_taken(*w, m.traj_id, m.segment_id);
        let n = self.non_clustered_segments.len();
        let mut kept: Vec<ClusterMember> = Vec::new();
        let mut k: usize = 0;
        while k < n
            invariant
                n == self.non_clustered_segments@.len(),
                0 <= k <= n,
                self.non_clustered_segments == old(self).non_clustered_segments,
                self.elements == old(self).elements,
                self.is_sorted == old(self).is_sorted,
                *self == *old(self),
                pred == (|m: ClusterMember| !key_taken(*w, m.traj_id, m.segment_id)),
                kept@ == self.non_clustered_segments@.take(k as int).filter(pred),
            decreases n - k,
        {
            let m = self.non_clustered_segments[k];
            let ghost prefix = self.non_clustered_segments@.take(k as int);
            proof {
                assert(self.non_clustered_segments@.take(k + 1) =~= prefix.push(
                    self.non_clustered_segments@[k as int],
                ));
                prefix.lemma_filter_push(self.non_clustered_segments@[k as int], pred);
            }
            let hit = w.contains_segment(m.traj_id, m.segment_id);
            if !hit {
                kept.push(m);
            }
            k = k + 1;
        }
        proof {
            assert(self.non_clustered_segments@.take(n as int) =~= self.non_clustered_segments@);
        }
        self.non_clustered_segments = kept;
    }
}

/// Exact copy of a queue cluster (members and candidates duplicated
/// element by element).
fn clone_queue_cluster(c: &Cluster) -> (r: Cluster)
    requires
        queue_cluster_wf(*c),
    ensures
        r.seed == c.seed,
        r.members@ == c.members@,
        r.candidates@ == c.candidates@,
        r.total_weight == c.total_weight,
        r.sum_distance == c.sum_distance,
        queue_cluster_wf(r),
{
    let mut members: Vec<ClusterMember> = Vec::new();
    let n = c.members.len();
    let mut i: usize = 0;
    while i < n
        invariant
            n == c.members@.len(),
            0 <= i <= n,
            members@ == c.members@.take(i as int),
        decreases n - i,
    {
        proof {
            assert(c.members@.take(i + 1) =~= c.members@.take(i as int).push(
                c.members@[i as int],
            ));
        }
        members.push(c.members[i]);
        i = i + 1;
    }
    proof {
        assert(c.members@.take(n as int) =~= c.members@);
        assert(c.candidates@ =~= Seq::<ClusterMember>::empty());
    }
    Cluster {
        seed: c.seed,
        total_weight: c.total_weight,
        candidates: Vec::new(),
        members,
        sum_distance: c.sum_distance,
    }
}

/// Cleans one cluster against the popped cluster `w`: returns whether
/// the cluster survives; on survival its used members are removed and
/// its weight reduced by exactly their weights.
fn clean_individual_cluster(c: &mut Cluster, w: &Cluster, threshold: u32) -> (keep: bool)
    requires
        queue_cluster_wf(*old(c)),
        queue_cluster_wf(*w),
    ensures
        keep == spec_keeps(*old(c), *w, threshold),
        keep ==> {
            &&& queue_cluster_wf(*final(c))
            &&& is_cleaned_of(*final(c), *old(c), *w)
            &&& keys_disjoint_from(*final(c), *w)
            &&& (final(c).total_weight >= threshold || final(c).members@.len() == 0)
        },
        !keep ==> *final(c) == *old(c),
{
    let ghost pred = |m: ClusterMember| !key_taken(*w, m.traj_id, m.segment_id);
    let seed_hit = w.contains_segment(c.seed.cm.traj_id, c.seed.cm.segment_id);
    if seed_hit {
        return false;
    }
    let n = c.members.len();
    let mut kept: Vec<ClusterMember> = Vec::new();
    let mut new_total: u64 = c.seed.cm.weight as u64;
    let mut k: usize = 0;
    proof {
        crate::cluster::lemma_weight_sum_take_le(c.members@, 0);
        assert(c.members@.take(0) =~= Seq::<ClusterMember>::empty());
    }
    while k < n
        invariant
            n == c.members@.len(),
            0 <= k <= n,
            queue_cluster_wf(*c),
            queue_cluster_wf(*w),
            *c == *old(c),
            pred == (|m: ClusterMember| !key_taken(*w, m.traj_id, m.segment_id)),
            kept@ == c.members@.take(k as int).filter(pred),
            new_total == c.seed.cm.weight + weight_sum(kept@),
            weight_sum(kept@) <= weight_sum(c.members@.take(k as int)),
            weight_sum(c.members@.take(k as int)) <= weight_sum(c.members@),
        decreases n - k,
    {
        let m = c.members[k];
        let ghost prefix = c.members@.take(k as int);
        proof {
            assert(c.members@.take(k + 1) =~= prefix.push(c.members@[k as int]));
            prefix.lemma_filter_push(c.members@[k as int], pred);
            crate::cluster::lemma_weight_sum_take_succ(c.members@, k as int);
            crate::cluster::lemma_weight_sum_take_le(c.members@, k as int + 1);
            assert(kept@.push(m).drop_last() =~= kept@);
        }
        let hit = w.contains_segment(m.traj_id, m.segment_id);
        if !hit {
            kept.push(m);
            new_total = new_total + m.weight as u64;
        }
        k = k + 1;
    }
    proof {
        assert(c.members@.take(n as int) =~= c.members@);
    }
    if n > 0 && new_total < threshold as u64 {
        return false;
    }
    let ghost old_c = *c;
    c.members = kept;
    c.total_weight = new_total;
    proof {
        let fm = old_c.members@.filter(pred);
        assert forall|i: int| 0 <= i < fm.len() implies (#[trigger] fm[i]).wf() && !key_taken(
            *w,
            fm[i].traj_id,
            fm[i].segment_id,
        ) by {
            old_c.members@.lemma_filter_pred(pred, i);
            assert(fm.contains(fm[i]));
            old_c.members@.lemma_filter_contains_rev(pred, fm[i]);
            let a = choose|a: int|
                0 <= a < old_c.members@.len() && old_c.members@[a] == fm[i];
        }
        assert forall|i: int, j: int| 0 <= i < j < fm.len() implies (#[trigger] fm[i]).traj_id != (
        #[trigger] fm[j]).traj_id by {
            lemma_filter_distinct_ids(old_c.members@, pred, i, j);
        }
        assert forall|i: int| 0 <= i < fm.len() implies (#[trigger] fm[i]).traj_id
            != old_c.seed.cm.traj_id by {
            assert(fm.contains(fm[i]));
            old_c.members@.lemma_filter_contains_rev(pred, fm[i]);
            let a = choose|a: int|
                0 <= a < old_c.members@.len() && old_c.members@[a] == fm[i];
        }
        old_c.members@.lemma_filter_len(pred);
    }
    true
}

/// Distinct trajectory ids survive filtering.
proof fn lemma_filter_distinct_ids(
    ms: Seq<ClusterMember>,
    pred: spec_fn(ClusterMember) -> bool,
    i: int,
    j: int,
)
    requires
        forall|a: int, b: int|
            0 <= a < b < ms.len() ==> (#[trigger] ms[a]).traj_id != (#[trigger] ms[b]).traj_id,
        0 <= i < j < ms.filter(pred).len(),
    ensures
        ms.filter(pred)[i].traj_id != ms.filter(pred)[j].traj_id,
    decreases ms.len(),
{
    reveal(Seq::filter);
    if ms.len() > 0 {
        let sub = ms.drop_last().filter(pred);
        if pred(ms.last()) {
            assert(ms.filter(pred) == sub.push(ms.last()));
            if j < sub.len() {
                lemma_filter_distinct_ids(ms.drop_last(), pred, i, j);
            } else {
                // the later element is ms.last(); the earlier one
                // comes from the prefix
                assert(j == sub.len());
                assert(ms.filter(pred)[i] == sub[i]);
                assert(sub.contains(sub[i]));
                ms.drop_last().lemma_filter_contains_rev(pred, sub[i]);
                assert(ms.drop_last().contains(sub[i]));
                let a = choose|a: int|
                    0 <= a < ms.drop_last().len() && ms.drop_last()[a] == sub[i];
                assert(ms[a] == sub[i]);
                assert(ms[a].traj_id != ms.last().traj_id);
            }
        } else {
            assert(ms.filter(pred) == sub);
            lemma_filter_distinct_ids(ms.drop_last(), pred, i, j);
        }
    }
}

/// Exec comparison for the queue order, strict form.
fn cluster_strictly_before(a: &Cluster, b: &Cluster) -> (r: bool)
    ensures
        r == cluster_lt(*a, *b),
{
    a.total_weight > b.total_weight || (a.total_weight == b.total_weight && a.sum_distance
        < b.sum_distance)
}

/// After an insertion pass settles at position `j`, the whole prefix
/// up to `i` is sorted.
proof fn lemma_cluster_le_transitive_prefix(s: Seq<Cluster>, j: int, i: int)
    requires
        0 <= j <= i < s.len(),
        forall|a: int, b: int|
            0 <= a < b <= i && a != j && b != j ==> cluster_le(#[trigger] s[a], #[trigger] s[b]),
        forall|b: int| j < b <= i ==> cluster_le(s[j], #[trigger] s[b]),
        j == 0 || !cluster_lt(s[j], s[j - 1]),
    ensures
        forall|a: int, b: int| 0 <= a < b <= i ==> cluster_le(#[trigger] s[a], #[trigger] s[b]),
{
    assert forall|a: int, b: int| 0 <= a < b <= i implies cluster_le(
        #[trigger] s[a],
        #[trigger] s[b],
    ) by {
        if b == j && j > 0 {
            assert(cluster_le(s[j - 1], s[j]));
            if a < j - 1 {
                assert(cluster_le(s[a], s[j - 1]));
            }
        }
    }
}

} // verus!
