use vstd::prelude::*;
use crate::trajectory::Trajectory;
use crate::algorithms::{derefs, all_trajs_wf, distinct_traj_ids};
use crate::FULL_TURN_CD;

verus! {

/// Largest number of trajectories one store accepts.  It keeps every
/// neighbor sweep small enough for the discovery kernel's cluster
/// bounds.
pub const STORE_CAP: usize = 0x1000_0000;

/// One half-open angular interval `[angle_start, angle_end)` in
/// centidegrees, holding the trajectories whose direction angle falls
/// inside it.
pub struct Bucket {
    pub angle_start: u32,
    pub angle_end: u32,
    pub trajectories: Vec<Trajectory>,
}

/// All trajectories, indexed by direction angle in fixed-width
/// buckets of `bucket_size` centidegrees; the last bucket is truncated
/// at a full turn when the size does not divide it.
pub struct RawTrajStore {
    pub bucket_size: u32,
    pub traj_buckets: Vec<Bucket>,
    pub count: usize,
}

/// Total number of trajectories across the buckets.
pub open spec fn buckets_count(bs: Seq<Bucket>) -> int
    decreases bs.len(),
{
    if bs.len() == 0 {
        0
    } else {
        buckets_count(bs.drop_last()) + bs.last().trajectories@.len()
    }
}

pub proof fn lemma_buckets_count_nonneg(bs: Seq<Bucket>)
    ensures
        buckets_count(bs) >= 0,
    decreases bs.len(),
{
    if bs.len() > 0 {
        lemma_buckets_count_nonneg(bs.drop_last());
    }
}

/// One bucket never holds more than the whole store.
pub proof fn lemma_bucket_len_le(bs: Seq<Bucket>, i: int)
    requires
        0 <= i < bs.len(),
    ensures
        bs[i].trajectories@.len() <= buckets_count(bs),
    decreases bs.len(),
{
    if i == bs.len() - 1 {
        lemma_buckets_count_nonneg(bs.drop_last());
    } else {
        lemma_bucket_len_le(bs.drop_last(), i);
    }
}

pub proof fn lemma_buckets_count_update(bs: Seq<Bucket>, i: int, b: Bucket)
    requires
        0 <= i < bs.len(),
    ensures
        buckets_count(bs.update(i, b)) == buckets_count(bs) - bs[i].trajectories@.len()
            + b.trajectories@.len(),
    decreases bs.len(),
{
    if i == bs.len() - 1 {
        assert(bs.update(i, b).drop_last() =~= bs.drop_last());
        assert(bs.update(i, b).last() == b);
    } else {
        assert(bs.update(i, b).drop_last() =~= bs.drop_last().update(i, b));
        assert(bs.update(i, b).last() == bs.last());
        lemma_buckets_count_update(bs.drop_last(), i, b);
    }
}

/// Number of buckets for a given size: a full turn divided by the
/// size, rounded up.
pub open spec fn spec_num_buckets(bucket_size: int) -> int {
    (FULL_TURN_CD + bucket_size - 1) / bucket_size
}

/// Index of the bucket containing an angle (normalized to a turn).
pub open spec fn spec_bucket_of(angle: int, bucket_size: int) -> int {
    (angle % (FULL_TURN_CD as int)) / bucket_size
}

impl RawTrajStore {
    /// The trajectory sequence of bucket `i`.
    pub open spec fn bucket_trajs(self, i: int) -> Seq<Trajectory> {
        self.traj_buckets@[i].trajectories@
    }

    pub open spec fn wf(self) -> bool {
        &&& 1 <= self.bucket_size <= FULL_TURN_CD
        &&& self.traj_buckets@.len() == spec_num_buckets(self.bucket_size as int)
        &&& forall|i: int|
            0 <= i < self.traj_buckets@.len() ==> {
                let b = #[trigger] self.traj_buckets@[i];
                &&& b.angle_start == i * self.bucket_size
                &&& b.angle_end == if (i + 1) * self.bucket_size <= FULL_TURN_CD {
                    (i + 1) * self.bucket_size as int
                } else {
                    FULL_TURN_CD as int
                }
            }
        &&& forall|i: int, j: int|
            0 <= i < self.traj_buckets@.len() && 0 <= j < self.bucket_trajs(i).len() ==> {
                let t = #[trigger] self.bucket_trajs(i)[j];
                &&& t.wf()
                &&& spec_bucket_of(t.angle as int, self.bucket_size as int) == i
            }
        &&& self.count == buckets_count(self.traj_buckets@)
        &&& self.count <= STORE_CAP
    }

    /// No two trajectories anywhere in the store share an id.
    pub open spec fn distinct_store_ids(self) -> bool {
        forall|b1: int, j1: int, b2: int, j2: int|
            0 <= b1 < self.traj_buckets@.len() && 0 <= j1 < self.bucket_trajs(b1).len() && 0 <= b2
                < self.traj_buckets@.len() && 0 <= j2 < self.bucket_trajs(b2).len() && (b1 != b2
                || j1 != j2) ==> (#[trigger] self.bucket_trajs(b1)[j1]).id != (
            #[trigger] self.bucket_trajs(b2)[j2]).id
    }

    /// Basic consequences of the bucket layout: at least one bucket,
    /// the buckets cover a full turn, and all but the last start
    /// strictly inside it.
    pub proof fn lemma_geometry(self)
        requires
            self.wf(),
        ensures
            self.traj_buckets@.len() >= 1,
            self.traj_buckets@.len() * self.bucket_size >= FULL_TURN_CD,
            (self.traj_buckets@.len() - 1) * self.bucket_size < FULL_TURN_CD,
    {
        let bs = self.bucket_size as int;
        let nb = spec_num_buckets(bs);
        let x = FULL_TURN_CD + bs - 1;
        vstd::arithmetic::div_mod::lemma_fundamental_div_mod(x, bs);
        vstd::arithmetic::div_mod::lemma_mod_bound(x, bs);
        assert(nb * bs >= FULL_TURN_CD && (nb - 1) * bs < FULL_TURN_CD && nb >= 1)
            by (nonlinear_arith)
            requires
                x == FULL_TURN_CD + bs - 1,
                x == bs * nb + x % bs,
                0 <= x % bs < bs,
                1 <= bs <= FULL_TURN_CD;
    }

    /// Creates an empty store with `ceil(36000 / bucket_size)` buckets.
    pub fn new(bucket_size: u32) -> (r: RawTrajStore)
        requires
            1 <= bucket_size <= FULL_TURN_CD,
        ensures
            r.wf(),
            r.bucket_size == bucket_size,
            r.count == 0,
            forall|i: int| 0 <= i < r.traj_buckets@.len() ==> (#[trigger] r.bucket_trajs(i)).len()
                == 0,
    {
        let nb: u32 = (FULL_TURN_CD + bucket_size - 1) / bucket_size;
        let mut buckets: Vec<Bucket> = Vec::new();
        let mut i: u32 = 0;
        proof {
            let bs = bucket_size as int;
            let x = FULL_TURN_CD + bs - 1;
            vstd::arithmetic::div_mod::lemma_fundamental_div_mod(x, bs);
            vstd::arithmetic::div_mod::lemma_mod_bound(x, bs);
            assert(nb * bs <= x) by (nonlinear_arith)
                requires x == bs * (nb as int) + x % bs, 0 <= x % bs, nb == x / bs;
        }
        while i < nb
            invariant
                nb == spec_num_buckets(bucket_size as int),
                nb * bucket_size <= FULL_TURN_CD + bucket_size - 1,
                1 <= bucket_size <= FULL_TURN_CD,
                0 <= i <= nb,
                buckets@.len() == i,
                forall|k: int|
                    0 <= k < i ==> {
                        let b = #[trigger] buckets@[k];
                        &&& b.angle_start == k * bucket_size
                        &&& b.angle_end == if (k + 1) * bucket_size <= FULL_TURN_CD {
                            (k + 1) * bucket_size as int
                        } else {
                            FULL_TURN_CD as int
                        }
                        &&& b.trajectories@.len() == 0
                    },
            decreases nb - i,
        {
            proof {
                assert(i * bucket_size <= nb * bucket_size && (i + 1) * bucket_size <= nb
                    * bucket_size) by (nonlinear_arith)
                    requires 0 <= i < nb, bucket_size >= 1;
            }
            let angle_start: u32 = i * bucket_size;
            let next: u64 = (i as u64 + 1) * (bucket_size as u64);
            let angle_end: u32 = if next <= FULL_TURN_CD as u64 {
                next as u32
            } else {
                FULL_TURN_CD
            };
            buckets.push(Bucket { angle_start, angle_end, trajectories: Vec::new() });
            i = i + 1;
        }
        let r = RawTrajStore { bucket_size, traj_buckets: buckets, count: 0 };
        proof {
            lemma_empty_buckets_count(r.traj_buckets@);
        }
        r
    }

    /// Bucket index of an angle: normalize into a turn, divide by the
    /// bucket size.
    pub fn angle_to_bucket(&self, angle: u32) -> (r: usize)
        requires
            self.wf(),
        ensures
            r == spec_bucket_of(angle as int, self.bucket_size as int),
            r < self.traj_buckets@.len(),
    {
        proof {
            self.lemma_geometry();
        }
        let a: u32 = angle % FULL_TURN_CD;
        let r: u32 = a / self.bucket_size;
        proof {
            let bs = self.bucket_size as int;
            let nb = self.traj_buckets@.len() as int;
            vstd::arithmetic::div_mod::lemma_fundamental_div_mod(a as int, bs);
            vstd::arithmetic::div_mod::lemma_mod_bound(a as int, bs);
            assert(r < nb) by (nonlinear_arith)
                requires
                    a as int == bs * (r as int) + (a as int) % bs,
                    0 <= (a as int) % bs,
                    a < FULL_TURN_CD,
                    nb * bs >= FULL_TURN_CD,
                    bs >= 1,
                    r as int == (a as int) / bs;
        }
        r as usize
    }

    /// Inserts a trajectory into the bucket containing its angle.
    pub fn add_trajectory(&mut self, traj: Trajectory)
        requires
            old(self).wf(),
            traj.wf(),
            old(self).count < STORE_CAP,
        ensures
            final(self).wf(),
            final(self).bucket_size == old(self).bucket_size,
            final(self).count == old(self).count + 1,
            final(self).traj_buckets@.len() == old(self).traj_buckets@.len(),
            ({
                let k = spec_bucket_of(traj.angle as int, old(self).bucket_size as int);
                &&& final(self).bucket_trajs(k) == old(self).bucket_trajs(k).push(traj)
                &&& forall|i: int|
                    0 <= i < old(self).traj_buckets@.len() && i != k ==> (
                    #[trigger] final(self).traj_buckets@[i]) == old(self).traj_buckets@[i]
            }),
    {
        let idx = self.angle_to_bucket(traj.angle);
        let ghost old_buckets = self.traj_buckets@;
        proof {
            let bs = self.bucket_size as int;
            let a = traj.angle as int;
            vstd::arithmetic::div_mod::lemma_small_mod(traj.angle as nat, FULL_TURN_CD as nat);
            vstd::arithmetic::div_mod::lemma_fundamental_div_mod(a, bs);
            vstd::arithmetic::div_mod::lemma_mod_bound(a, bs);
        }
        let mut b = self.traj_buckets.remove(idx);
        b.trajectories.push(traj);
        self.traj_buckets.insert(idx, b);
        self.count = self.count + 1;
        proof {
            assert(self.traj_buckets@ =~= old_buckets.update(
                idx as int,
                self.traj_buckets@[idx as int],
            ));
            lemma_buckets_count_update(old_buckets, idx as int, self.traj_buckets@[idx as int]);
            assert(self.bucket_trajs(idx as int) =~= old(self).bucket_trajs(idx as int).push(
                traj,
            ));
            let nb = self.traj_buckets@.len() as int;
            assert forall|i: int, j: int|
                0 <= i < nb && 0 <= j < self.bucket_trajs(i).len() implies {
                let t = #[trigger] self.bucket_trajs(i)[j];
                t.wf() && spec_bucket_of(t.angle as int, self.bucket_size as int) == i
            } by {
                if i == idx as int {
                    if j < old(self).bucket_trajs(i).len() {
                        assert(self.bucket_trajs(i)[j] == old(self).bucket_trajs(i)[j]);
                        assert(old(self).bucket_trajs(i)[j].wf());
                        assert(spec_bucket_of(
                            old(self).bucket_trajs(i)[j].angle as int,
                            old(self).bucket_size as int,
                        ) == i);
                    } else {
                        assert(self.bucket_trajs(i)[j] == traj);
                        assert(traj.wf());
                    }
                } else {
                    assert(self.traj_buckets@[i] == old_buckets[i]);
                    assert(self.bucket_trajs(i)[j] == old(self).bucket_trajs(i)[j]);
                    assert(old(self).bucket_trajs(i)[j].wf());
                    assert(spec_bucket_of(
                        old(self).bucket_trajs(i)[j].angle as int,
                        old(self).bucket_size as int,
                    ) == i);
                }
                assert(self.bucket_trajs(i)[j].wf());
            }
        }
    }
}

pub proof fn lemma_empty_buckets_count(bs: Seq<Bucket>)
    requires
        forall|i: int| 0 <= i < bs.len() ==> (#[trigger] bs[i]).trajectories@.len() == 0,
    ensures
        buckets_count(bs) == 0,
    decreases bs.len(),
{
    if bs.len() > 0 {
        lemma_empty_buckets_count(bs.drop_last());
    }
}


impl RawTrajStore {
    /// The trajectories visible from an angle: its bucket, the two
    /// angular neighbors, and -- when the lookup falls in the
    /// second-to-last bucket while the last one is truncated -- the
    /// bucket beyond the seam, to compensate for the short last
    /// interval.
    pub open spec fn spec_nearby(self, angle: u32) -> Seq<Trajectory> {
        let nb = self.traj_buckets@.len() as int;
        let idx = spec_bucket_of(angle as int, self.bucket_size as int);
        let i1 = (idx - 1 + nb) % nb;
        let i3 = (idx + 1) % nb;
        let base = self.bucket_trajs(i1) + self.bucket_trajs(idx) + self.bucket_trajs(i3);
        if idx == nb - 2 && self.traj_buckets@[nb - 1].angle_end - self.traj_buckets@[nb
            - 1].angle_start < self.bucket_size {
            base + self.bucket_trajs((idx + 2) % nb)
        } else {
            base
        }
    }

    /// Appends references to every trajectory of bucket `i`.
    fn push_bucket_refs<'a>(&'a self, out: &mut Vec<&'a Trajectory>, i: usize)
        requires
            self.wf(),
            i < self.traj_buckets@.len(),
        ensures
            derefs(final(out)@) == derefs(old(out)@) + self.bucket_trajs(i as int),
    {
        let ghost base = derefs(out@);
        let b = &self.traj_buckets[i];
        let m = b.trajectories.len();
        let mut j: usize = 0;
        while j < m
            invariant
                m == b.trajectories@.len(),
                0 <= j <= m,
                b == &self.traj_buckets@[i as int],
                derefs(out@) == base + b.trajectories@.take(j as int),
            decreases m - j,
        {
            proof {
                assert(b.trajectories@.take(j + 1) =~= b.trajectories@.take(j as int).push(
                    b.trajectories@[j as int],
                ));
                assert(derefs(out@.push(&b.trajectories@[j as int])) =~= derefs(out@).push(
                    b.trajectories@[j as int],
                ));
                assert(base + b.trajectories@.take(j as int).push(b.trajectories@[j as int])
                    =~= (base + b.trajectories@.take(j as int)).push(b.trajectories@[j as int]));
            }
            let t: &Trajectory = &b.trajectories[j];
            out.push(t);
            j = j + 1;
        }
        proof {
            assert(b.trajectories@.take(m as int) =~= b.trajectories@);
        }
    }

    /// References to every trajectory in the angular neighborhood of
    /// `angle`: three buckets, plus the seam bucket in the truncated
    /// wrap case.
    pub fn iter_nearby_angle<'a>(&'a self, angle: u32) -> (r: Vec<&'a Trajectory>)
        requires
            self.wf(),
        ensures
            derefs(r@) == self.spec_nearby(angle),
    {
        proof {
            self.lemma_geometry();
        }
        let idx = self.angle_to_bucket(angle);
        let nb = self.traj_buckets.len();
        let i1 = (idx + nb - 1) % nb;
        let i3 = (idx + 1) % nb;
        proof {
            vstd::arithmetic::div_mod::lemma_mod_bound(i1 as int + 0, nb as int);
            vstd::arithmetic::div_mod::lemma_mod_bound(idx as int + 1, nb as int);
            assert((idx + nb - 1) as int % nb as int == (idx as int - 1 + nb as int) % nb as int);
        }
        let mut out: Vec<&Trajectory> = Vec::new();
        self.push_bucket_refs(&mut out, i1);
        self.push_bucket_refs(&mut out, idx);
        self.push_bucket_refs(&mut out, i3);
        let last = nb - 1;
        proof {
            self.lemma_last_bucket_width();
        }
        let last_start = self.traj_buckets[last].angle_start;
        let last_end = self.traj_buckets[last].angle_end;
        if idx + 2 == nb && last_end - last_start < self.bucket_size {
            let i4 = (idx + 2) % nb;
            proof {
                vstd::arithmetic::div_mod::lemma_mod_bound(idx as int + 2, nb as int);
            }
            self.push_bucket_refs(&mut out, i4);
        }
        proof {
            assert(derefs(out@) =~= self.spec_nearby(angle));
        }
        out
    }

    /// The last bucket is no wider than the bucket size, and never
    /// empty as an interval.
    pub proof fn lemma_last_bucket_width(self)
        requires
            self.wf(),
        ensures
            ({
                let nb = self.traj_buckets@.len() as int;
                let b = self.traj_buckets@[nb - 1];
                0 < b.angle_end - b.angle_start <= self.bucket_size
            }),
    {
        self.lemma_geometry();
        let nb = self.traj_buckets@.len() as int;
        let bs = self.bucket_size as int;
        assert((nb - 1) * bs + bs == nb * bs) by (nonlinear_arith);
    }
}


impl RawTrajStore {
    /// The bucket index of any angle is a valid index.
    pub proof fn lemma_bucket_of_in_range(self, angle: u32)
        requires
            self.wf(),
        ensures
            0 <= spec_bucket_of(angle as int, self.bucket_size as int)
                < self.traj_buckets@.len(),
    {
        self.lemma_geometry();
        let bs = self.bucket_size as int;
        let nb = self.traj_buckets@.len() as int;
        let a = (angle as int) % (FULL_TURN_CD as int);
        let idx = a / bs;
        vstd::arithmetic::div_mod::lemma_mod_bound(angle as int, FULL_TURN_CD as int);
        vstd::arithmetic::div_mod::lemma_fundamental_div_mod(a, bs);
        vstd::arithmetic::div_mod::lemma_mod_bound(a, bs);
        assert(0 <= idx < nb) by (nonlinear_arith)
            requires
                a == bs * idx + a % bs,
                0 <= a % bs,
                0 <= a < FULL_TURN_CD,
                nb * bs >= FULL_TURN_CD,
                bs >= 1,
                idx == a / bs;
    }

    /// The three (or four) bucket indices a sweep visits, spelled out
    /// without modular arithmetic.
    pub proof fn lemma_nearby_indices(self, angle: u32)
        requires
            self.wf(),
        ensures
            ({
                let nb = self.traj_buckets@.len() as int;
                let idx = spec_bucket_of(angle as int, self.bucket_size as int);
                &&& (idx - 1 + nb) % nb == if idx == 0 { nb - 1 } else { idx - 1 }
                &&& (idx + 1) % nb == if idx == nb - 1 { 0 } else { idx + 1 }
                &&& (idx == nb - 2 ==> (idx + 2) % nb == 0)
            }),
    {
        self.lemma_bucket_of_in_range(angle);
        let nb = self.traj_buckets@.len() as int;
        let idx = spec_bucket_of(angle as int, self.bucket_size as int);
        if idx == 0 {
            vstd::arithmetic::div_mod::lemma_small_mod((nb - 1) as nat, nb as nat);
        } else {
            vstd::arithmetic::div_mod::lemma_mod_multiples_vanish(1, idx - 1, nb);
            vstd::arithmetic::div_mod::lemma_small_mod((idx - 1) as nat, nb as nat);
        }
        if idx == nb - 1 {
            vstd::arithmetic::div_mod::lemma_mod_multiples_vanish(1, 0, nb);
            vstd::arithmetic::div_mod::lemma_small_mod(0nat, nb as nat);
        } else {
            vstd::arithmetic::div_mod::lemma_small_mod((idx + 1) as nat, nb as nat);
        }
        if idx == nb - 2 {
            vstd::arithmetic::div_mod::lemma_mod_multiples_vanish(1, 0, nb);
            vstd::arithmetic::div_mod::lemma_small_mod(0nat, nb as nat);
        }
    }

    /// Discovery-facing facts about one neighbor sweep: every
    /// trajectory is well-formed; the sweep is bounded by four bucket
    /// loads; and when the store holds no duplicate ids and has at
    /// least four buckets, the sweep repeats no id.
    pub proof fn lemma_nearby_properties(self, angle: u32)
        requires
            self.wf(),
        ensures
            all_trajs_wf(self.spec_nearby(angle)),
            self.spec_nearby(angle).len() <= 4 * self.count,
            self.distinct_store_ids() && self.traj_buckets@.len() >= 4 ==> distinct_traj_ids(
                self.spec_nearby(angle),
            ),
    {
        self.lemma_bucket_of_in_range(angle);
        self.lemma_nearby_indices(angle);
        let nb = self.traj_buckets@.len() as int;
        let idx = spec_bucket_of(angle as int, self.bucket_size as int);
        let i1 = (idx - 1 + nb) % nb;
        let i3 = (idx + 1) % nb;
        let wrap = idx == nb - 2 && self.traj_buckets@[nb - 1].angle_end - self.traj_buckets@[nb
            - 1].angle_start < self.bucket_size;
        let i4 = (idx + 2) % nb;
        let s = self.spec_nearby(angle);
        let la = self.bucket_trajs(i1).len() as int;
        let lb = self.bucket_trajs(idx).len() as int;
        let lc = self.bucket_trajs(i3).len() as int;
        // every sweep position comes from a known bucket position
        assert forall|p: int| 0 <= p < s.len() implies exists|b: int, o: int|
            0 <= b < nb && 0 <= o < self.bucket_trajs(b).len() && #[trigger] s[p]
                == self.bucket_trajs(b)[o] && nearby_slot(p, la, lb, lc, i1, idx, i3, i4) == (b, o)
            by {
            if p < la {
                assert(s[p] == self.bucket_trajs(i1)[p]);
            } else if p < la + lb {
                assert(s[p] == self.bucket_trajs(idx)[p - la]);
            } else if p < la + lb + lc {
                assert(s[p] == self.bucket_trajs(i3)[p - la - lb]);
            } else {
                assert(wrap);
                assert(s[p] == self.bucket_trajs(i4)[p - la - lb - lc]);
            }
        }
        assert(all_trajs_wf(s)) by {
            assert forall|p: int| 0 <= p < s.len() implies (#[trigger] s[p]).wf() by {
                let (b, o) = choose|b: int, o: int|
                    0 <= b < nb && 0 <= o < self.bucket_trajs(b).len() && #[trigger] s[p]
                        == self.bucket_trajs(b)[o] && nearby_slot(p, la, lb, lc, i1, idx, i3, i4)
                        == (b, o);
            }
        }
        assert(s.len() <= 4 * self.count) by {
            lemma_bucket_len_le(self.traj_buckets@, i1);
            lemma_bucket_len_le(self.traj_buckets@, idx);
            lemma_bucket_len_le(self.traj_buckets@, i3);
            lemma_bucket_len_le(self.traj_buckets@, i4);
        }
        if self.distinct_store_ids() && nb >= 4 {
            assert forall|p: int, q: int| 0 <= p < q < s.len() implies (#[trigger] s[p]).id != (
            #[trigger] s[q]).id by {
                let (bp, op) = choose|bp: int, op: int|
                    0 <= bp < nb && 0 <= op < self.bucket_trajs(bp).len() && #[trigger] s[p]
                        == self.bucket_trajs(bp)[op] && nearby_slot(p, la, lb, lc, i1, idx, i3, i4)
                        == (bp, op);
                let (bq, oq) = choose|bq: int, oq: int|
                    0 <= bq < nb && 0 <= oq < self.bucket_trajs(bq).len() && #[trigger] s[q]
                        == self.bucket_trajs(bq)[oq] && nearby_slot(q, la, lb, lc, i1, idx, i3, i4)
                        == (bq, oq);
                assert(bp != bq || op != oq);
            }
        }
    }

    /// The wrap rule of the sweep: looking up an angle in the last
    /// bucket always pulls in the whole first bucket, so trajectories
    /// just below a full turn see those just above zero.
    pub proof fn lemma_bucket_wrap(self, angle: u32)
        requires
            self.wf(),
            spec_bucket_of(angle as int, self.bucket_size as int)
                == self.traj_buckets@.len() - 1,
        ensures
            forall|j: int|
                0 <= j < self.bucket_trajs(0).len() ==> self.spec_nearby(angle).contains(
                    #[trigger] self.bucket_trajs(0)[j],
                ),
    {
        self.lemma_bucket_of_in_range(angle);
        self.lemma_nearby_indices(angle);
        let nb = self.traj_buckets@.len() as int;
        let idx = nb - 1;
        let i1 = (idx - 1 + nb) % nb;
        let la = self.bucket_trajs(i1).len() as int;
        let lb = self.bucket_trajs(idx).len() as int;
        let s = self.spec_nearby(angle);
        assert forall|j: int| 0 <= j < self.bucket_trajs(0).len() implies s.contains(
            #[trigger] self.bucket_trajs(0)[j],
        ) by {
            assert(s[la + lb + j] == self.bucket_trajs(0)[j]);
        }
    }
}

/// Which (bucket, offset) a sweep position denotes; a pure
/// bookkeeping function for the decomposition proofs above.
pub open spec fn nearby_slot(
    p: int,
    la: int,
    lb: int,
    lc: int,
    i1: int,
    i2: int,
    i3: int,
    i4: int,
) -> (int, int) {
    if p < la {
        (i1, p)
    } else if p < la + lb {
        (i2, p - la)
    } else if p < la + lb + lc {
        (i3, p - la - lb)
    } else {
        (i4, p - la - lb - lc)
    }
}

} // verus!
