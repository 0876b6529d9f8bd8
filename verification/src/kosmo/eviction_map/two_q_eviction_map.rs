use vstd::prelude::*;
use crate::access::{Access, Timestamp};
use crate::algorithm::Object;
use crate::frac::Frac;
use crate::kosmo::eviction_map::fifo_eviction_map::{
    fifo_insert_spec, fifo_records_sorted, FifoEvictionRecord,
};
use crate::kosmo::eviction_map::lfu_eviction_map::{
    lfu_counts_bounded, lfu_records_sorted, lfu_trim_le, LfuEvictionRecord,
};
use crate::kosmo::local_object::StackLocation;

verus! {

/// Where the 2Q eviction map places an object at one cache size, as a
/// function of the probation (`ain`) and pooled (`a1`) capacities.
/// Scanning the FIFO records inward, the accumulators carry the
/// admission timestamps seen in the probation and pooled ranges.
pub open spec fn twoq_scan(
    m: Seq<FifoEvictionRecord>,
    ain_size: u64,
    a1_size: u64,
    ain_ts: Option<Timestamp>,
    aout_ts: Option<Timestamp>,
) -> (Option<Timestamp>, Option<Timestamp>)
    decreases m.len(),
{
    if m.len() == 0 {
        (ain_ts, aout_ts)
    } else {
        let r = m.last();
        if r.size > a1_size {
            (ain_ts, aout_ts)
        } else if r.size == a1_size {
            (ain_ts, Some(r.timestamp))
        } else if r.size > ain_size {
            twoq_scan(m.drop_last(), ain_size, a1_size, ain_ts, Some(r.timestamp))
        } else {
            twoq_scan(m.drop_last(), ain_size, a1_size, Some(r.timestamp), Some(r.timestamp))
        }
    }
}

/// Whether any recorded LFU eviction in the pooled range shows at
/// least two accesses since, which promotes the object to `am`.
pub open spec fn twoq_am_exists(
    s: Seq<LfuEvictionRecord>,
    gc: u64,
    ain_size: u64,
    a1_size: u64,
) -> bool {
    exists|i: int|
        0 <= i < s.len() && ain_size < s[i].size <= a1_size && gc - s[i].count >= 2
}

/// The stack location the 2Q map reports at one cache size.
pub open spec fn twoq_location_spec(
    fifo: Seq<FifoEvictionRecord>,
    lfu: Seq<LfuEvictionRecord>,
    gc: u64,
    ain_size: u64,
    a1_size: u64,
) -> Option<StackLocation> {
    let scanned = twoq_scan(fifo, ain_size, a1_size, None, None);
    match scanned.1 {
        None => match scanned.0 {
            Some(ts) => Some(StackLocation::A1(ts)),
            None => None,
        },
        Some(ts) => if twoq_am_exists(lfu, gc, ain_size, a1_size) {
            Some(StackLocation::Am)
        } else {
            Some(StackLocation::A1(ts))
        },
    }
}

/// A 2Q eviction map: a FIFO-like map for the pooled probation queues
/// and an LFU-like map that witnesses promotions into the protected
/// queue.
pub struct TwoQEvictionMap {
    pub kin: Frac,
    pub kout: Frac,
    pub fifo_map: Vec<FifoEvictionRecord>,
    pub lfu_global_count: u64,
    pub lfu_map: Vec<LfuEvictionRecord>,
}

impl TwoQEvictionMap {
    pub open spec fn wf(&self) -> bool {
        &&& fifo_records_sorted(self.fifo_map@)
        &&& lfu_records_sorted(self.lfu_map@)
        &&& lfu_counts_bounded(self.lfu_map@, self.lfu_global_count)
        &&& self.kin.wf()
        &&& self.kout.wf()
        &&& self.kin.is_positive()
        &&& self.kout.is_positive()
        &&& self.kin.spec_sum_num(self.kout) <= self.kin.spec_sum_den(self.kout)
    }

    pub fn new(access: &Access, kin: Frac, kout: Frac) -> (r: Option<TwoQEvictionMap>)
        ensures
            match r {
                Some(m) => {
                    &&& m.wf()
                    &&& m.kin == kin
                    &&& m.kout == kout
                    &&& m.lfu_global_count == 1
                    &&& m.lfu_map@.len() == 0
                    &&& m.fifo_map@ =~= seq![
                        FifoEvictionRecord { size: 0, timestamp: access.timestamp },
                    ]
                },
                None => !(kin.wf() && kout.wf() && kin.is_positive() && kout.is_positive()
                    && kin.spec_sum_num(kout) <= kin.spec_sum_den(kout)),
            },
    {
        if kin.den < 1 || kin.den > crate::frac::FRAC_MAX_DEN || kin.num > kin.den || kin.num == 0 {
            return None;
        }
        if kout.den < 1 || kout.den > crate::frac::FRAC_MAX_DEN || kout.num > kout.den || kout.num
            == 0 {
            return None;
        }
        if !kin.sum_at_most_one(kout) {
            return None;
        }
        let mut fifo_map: Vec<FifoEvictionRecord> = Vec::new();
        fifo_map.push(FifoEvictionRecord { size: 0, timestamp: access.timestamp });
        Some(TwoQEvictionMap { kin, kout, fifo_map, lfu_global_count: 1, lfu_map: Vec::new() })
    }

    /// The probation capacity of a cache of `size`.
    pub fn ain_size(&self, size: u64) -> (r: u64)
        requires
            self.wf(),
        ensures
            r == self.kin.spec_scale(size),
            r <= size,
    {
        self.kin.scale(size)
    }

    /// The pooled probation capacity of a cache of `size`.
    pub fn a1_size(&self, size: u64) -> (r: u64)
        requires
            self.wf(),
        ensures
            r == self.spec_a1_size(size),
            r <= size,
    {
        let a = self.kin.scale(size);
        let b = self.kout.scale(size);
        proof {
            assert(0 <= size as int * self.kin.num / (self.kin.den as int) <= size && 0 <= size
                as int * self.kout.num / (self.kout.den as int) <= size) by (nonlinear_arith)
                requires
                    0 <= size,
                    0 <= self.kin.num <= self.kin.den,
                    1 <= self.kin.den,
                    0 <= self.kout.num <= self.kout.den,
                    1 <= self.kout.den,
            {}
            assert(a as int == size as int * self.kin.num / (self.kin.den as int));
            assert(b as int == size as int * self.kout.num / (self.kout.den as int));
            vstd::arithmetic::div_mod::lemma_fundamental_div_mod(
                size as int * self.kin.num,
                self.kin.den as int,
            );
            vstd::arithmetic::div_mod::lemma_fundamental_div_mod(
                size as int * self.kout.num,
                self.kout.den as int,
            );
            assert(a + b <= size) by (nonlinear_arith)
                requires
                    size as int * self.kin.num == self.kin.den * (a as int) + (size as int
                        * self.kin.num) % (self.kin.den as int),
                    0 <= (size as int * self.kin.num) % (self.kin.den as int) < self.kin.den,
                    size as int * self.kout.num == self.kout.den * (b as int) + (size as int
                        * self.kout.num) % (self.kout.den as int),
                    0 <= (size as int * self.kout.num) % (self.kout.den as int) < self.kout.den,
                    self.kin.num * self.kout.den + self.kout.num * self.kin.den <= self.kin.den
                        * self.kout.den,
                    self.kin.den >= 1,
                    self.kout.den >= 1,
                    size >= 0,
                    a >= 0,
                    b >= 0,
            {}
        }
        a + b
    }

    pub open spec fn spec_a1_size(&self, size: u64) -> int {
        self.kin.spec_scale(size) + self.kout.spec_scale(size)
    }

    /// Records a synthetic eviction at cache size `size` in both maps.
    pub fn insert(&mut self, size: u64)
        requires
            old(self).wf(),
            size < u64::MAX,
        ensures
            final(self).wf(),
            final(self).kin == old(self).kin,
            final(self).kout == old(self).kout,
            final(self).lfu_global_count == old(self).lfu_global_count,
            final(self).fifo_map@ == fifo_insert_spec(
                old(self).fifo_map@,
                (old(self).spec_a1_size(size)) as u64,
            ),
            final(self).lfu_map@ == lfu_trim_le(old(self).lfu_map@, size).push(
                LfuEvictionRecord { size, count: old(self).lfu_global_count },
            ),
    {
        let a1 = self.a1_size(size);
        self.insert_fifo(a1);
        self.insert_lfu(size);
    }

    fn insert_fifo(&mut self, size: u64)
        requires
            old(self).wf(),
            size < u64::MAX,
        ensures
            final(self).wf(),
            final(self).fifo_map@ == fifo_insert_spec(old(self).fifo_map@, size),
            final(self).lfu_map@ == old(self).lfu_map@,
            final(self).lfu_global_count == old(self).lfu_global_count,
            final(self).kin == old(self).kin,
            final(self).kout == old(self).kout,
    {
        let n = self.fifo_map.len();
        if n > 0 && self.fifo_map[n - 1].size > size {
            return ;
        }
        let ts: Timestamp = if n > 0 {
            self.fifo_map[n - 1].timestamp
        } else {
            0
        };
        let ghost m0 = self.fifo_map@;
        while self.fifo_map.len() > 0 && self.fifo_map[self.fifo_map.len() - 1].size <= size
            invariant
                fifo_records_sorted(self.fifo_map@),
                self.lfu_map@ == old(self).lfu_map@,
                self.lfu_global_count == old(self).lfu_global_count,
                self.kin == old(self).kin,
                self.kout == old(self).kout,
                lfu_records_sorted(self.lfu_map@),
                lfu_counts_bounded(self.lfu_map@, self.lfu_global_count),
                self.kin.wf() && self.kout.wf() && self.kin.is_positive()
                    && self.kout.is_positive(),
                self.kin.spec_sum_num(self.kout) <= self.kin.spec_sum_den(self.kout),
                crate::kosmo::eviction_map::fifo_eviction_map::trim_le(self.fifo_map@, size)
                    == crate::kosmo::eviction_map::fifo_eviction_map::trim_le(m0, size),
                forall|i: int| 0 <= i < self.fifo_map@.len() ==> self.fifo_map@[i] == m0[i],
            decreases self.fifo_map@.len(),
        {
            let ghost prev = self.fifo_map@;
            self.fifo_map.pop();
            proof {
                assert(self.fifo_map@ =~= prev.drop_last());
            }
        }
        let m = self.fifo_map.len();
        if m == 0 || self.fifo_map[m - 1].size != size + 1 {
            let ghost t0 = self.fifo_map@;
            self.fifo_map.push(FifoEvictionRecord { size: size + 1, timestamp: ts });
            proof {
                assert(forall|i: int| 0 <= i < t0.len() ==> self.fifo_map@[i] == t0[i]);
                assert(fifo_records_sorted(self.fifo_map@)) by {
                    assert forall|p: int, q: int|
                        0 <= p < q < self.fifo_map@.len() implies self.fifo_map@[p].size
                        > self.fifo_map@[q].size by {
                        if q == self.fifo_map@.len() - 1 {
                            assert(self.fifo_map@[p] == t0[p]);
                            assert(t0[p].size > size);
                        }
                    }
                }
            }
        }
    }

    fn insert_lfu(&mut self, size: u64)
        requires
            old(self).wf(),
        ensures
            final(self).wf(),
            final(self).lfu_map@ == lfu_trim_le(old(self).lfu_map@, size).push(
                LfuEvictionRecord { size, count: old(self).lfu_global_count },
            ),
            final(self).fifo_map@ == old(self).fifo_map@,
            final(self).lfu_global_count == old(self).lfu_global_count,
            final(self).kin == old(self).kin,
            final(self).kout == old(self).kout,
    {
        let ghost m0 = self.lfu_map@;
        while self.lfu_map.len() > 0 && self.lfu_map[self.lfu_map.len() - 1].size <= size
            invariant
                lfu_records_sorted(self.lfu_map@),
                lfu_counts_bounded(self.lfu_map@, self.lfu_global_count),
                self.fifo_map@ == old(self).fifo_map@,
                self.lfu_global_count == old(self).lfu_global_count,
                self.kin == old(self).kin,
                self.kout == old(self).kout,
                fifo_records_sorted(self.fifo_map@),
                self.kin.wf() && self.kout.wf() && self.kin.is_positive()
                    && self.kout.is_positive(),
                self.kin.spec_sum_num(self.kout) <= self.kin.spec_sum_den(self.kout),
                lfu_trim_le(self.lfu_map@, size) == lfu_trim_le(m0, size),
                forall|i: int| 0 <= i < self.lfu_map@.len() ==> self.lfu_map@[i] == m0[i],
            decreases self.lfu_map@.len(),
        {
            let ghost prev = self.lfu_map@;
            self.lfu_map.pop();
            proof {
                assert(self.lfu_map@ =~= prev.drop_last());
            }
        }
        let ghost t0 = self.lfu_map@;
        self.lfu_map.push(LfuEvictionRecord { size, count: self.lfu_global_count });
        proof {
            assert(forall|i: int| 0 <= i < t0.len() ==> self.lfu_map@[i] == t0[i]);
            assert(lfu_records_sorted(self.lfu_map@)) by {
                assert forall|p: int, q: int|
                    0 <= p < q < self.lfu_map@.len() implies self.lfu_map@[p].size
                    > self.lfu_map@[q].size by {
                    if q == self.lfu_map@.len() - 1 {
                        assert(self.lfu_map@[p] == t0[p]);
                        assert(t0[p].size > size);
                    }
                }
            }
        }
    }

    /// The stack location at cache size `size`.
    pub fn stack_location_at(&self, size: u64) -> (r: Option<StackLocation>)
        requires
            self.wf(),
        ensures
            r == twoq_location_spec(
                self.fifo_map@,
                self.lfu_map@,
                self.lfu_global_count,
                self.kin.spec_scale(size),
                (self.spec_a1_size(size)) as u64,
            ),
    {
        let ain_size = self.ain_size(size);
        let a1_size = self.a1_size(size);
        let mut ain_ts: Option<Timestamp> = None;
        let mut aout_ts: Option<Timestamp> = None;
        let mut i: usize = self.fifo_map.len();
        proof {
            assert(self.fifo_map@.subrange(0, self.fifo_map@.len() as int) =~= self.fifo_map@);
        }
        let mut broke: bool = false;
        while i > 0 && !broke
            invariant
                i <= self.fifo_map@.len(),
                self.wf(),
                ain_size == self.kin.spec_scale(size),
                a1_size == self.spec_a1_size(size),
                twoq_scan(self.fifo_map@, ain_size, a1_size, None, None) == if broke {
                    (ain_ts, aout_ts)
                } else {
                    twoq_scan(
                        self.fifo_map@.subrange(0, i as int),
                        ain_size,
                        a1_size,
                        ain_ts,
                        aout_ts,
                    )
                },
            decreases i, (if broke { 0int } else { 1int }),
        {
            let ghost cur = self.fifo_map@.subrange(0, i as int);
            proof {
                assert(cur.drop_last() =~= self.fifo_map@.subrange(0, i - 1));
                assert(cur.last() == self.fifo_map@[i - 1]);
            }
            let rec_size = self.fifo_map[i - 1].size;
            let rec_ts = self.fifo_map[i - 1].timestamp;
            if rec_size > a1_size {
                broke = true;
            } else if rec_size == a1_size {
                aout_ts = Some(rec_ts);
                broke = true;
            } else if rec_size > ain_size {
                aout_ts = Some(rec_ts);
                i = i - 1;
            } else {
                ain_ts = Some(rec_ts);
                aout_ts = Some(rec_ts);
                i = i - 1;
            }
        }
        proof {
            if !broke {
                assert(self.fifo_map@.subrange(0, 0) =~= Seq::<FifoEvictionRecord>::empty());
            }
        }
        let final_aout = aout_ts;
        match final_aout {
            None => {
                match ain_ts {
                    Some(ts) => Some(StackLocation::A1(ts)),
                    None => None,
                }
            },
            Some(ts) => {
                // Check whether any pooled-range eviction witnesses a
                // promotion into the protected queue.
                let n = self.lfu_map.len();
                let mut j: usize = 0;
                let mut found: bool = false;
                while j < n
                    invariant
                        j <= n,
                        n == self.lfu_map@.len(),
                        self.wf(),
                        found == exists|p: int|
                            0 <= p < j && ain_size < self.lfu_map@[p].size <= a1_size
                                && self.lfu_global_count - self.lfu_map@[p].count >= 2,
                    decreases n - j,
                {
                    let rec = self.lfu_map[j];
                    if rec.size > ain_size && rec.size <= a1_size && self.lfu_global_count
                        - rec.count >= 2 {
                        found = true;
                        proof {
                            assert(ain_size < self.lfu_map@[j as int].size <= a1_size
                                && self.lfu_global_count - self.lfu_map@[j as int].count >= 2);
                        }
                    }
                    j = j + 1;
                }
                if found {
                    Some(StackLocation::Am)
                } else {
                    Some(StackLocation::A1(ts))
                }
            },
        }
    }

    pub fn exists_at(&self, size: u64) -> (r: bool)
        requires
            self.wf(),
        ensures
            r == (twoq_location_spec(
                self.fifo_map@,
                self.lfu_map@,
                self.lfu_global_count,
                self.kin.spec_scale(size),
                (self.spec_a1_size(size)) as u64,
            ) is Some),
    {
        self.stack_location_at(size).is_some()
    }

    /// The reuse distance on a re-access: the smaller of the smallest
    /// pooled cache that would still hold the object and the smallest
    /// cache where it promoted into the protected queue.
    pub fn reuse_distance(&self, object: &Object) -> (r: u64)
        requires
            self.wf(),
        ensures
            ({
                let base = if self.fifo_map@.len() > 0 && self.fifo_map@.last().size
                    > object.size {
                    self.fifo_map@.last().size
                } else {
                    object.size as u64
                };
                let smallest_a1 = self.kin.spec_unscale_sum_ceil(self.kout, base);
                r == twoq_reuse_spec(self.lfu_map@, self.lfu_global_count, smallest_a1)
            }),
    {
        let n = self.fifo_map.len();
        let base: u64 = if n > 0 && self.fifo_map[n - 1].size > object.size as u64 {
            self.fifo_map[n - 1].size
        } else {
            object.size as u64
        };
        let smallest_a1 = self.kin.unscale_sum_ceil(self.kout, base);
        let mut i: usize = self.lfu_map.len();
        proof {
            assert(self.lfu_map@.subrange(0, self.lfu_map@.len() as int) =~= self.lfu_map@);
        }
        while i > 0
            invariant
                i <= self.lfu_map@.len(),
                self.wf(),
                base == if self.fifo_map@.len() > 0 && self.fifo_map@.last().size
                    > object.size {
                    self.fifo_map@.last().size
                } else {
                    object.size as u64
                },
                smallest_a1 == self.kin.spec_unscale_sum_ceil(self.kout, base),
                twoq_reuse_spec(self.lfu_map@, self.lfu_global_count, smallest_a1)
                    == twoq_reuse_spec(
                    self.lfu_map@.subrange(0, i as int),
                    self.lfu_global_count,
                    smallest_a1,
                ),
            decreases i,
        {
            let ghost cur = self.lfu_map@.subrange(0, i as int);
            proof {
                assert(cur.drop_last() =~= self.lfu_map@.subrange(0, i - 1));
                assert(cur.last() == self.lfu_map@[i - 1]);
            }
            if self.lfu_global_count - self.lfu_map[i - 1].count >= 2 {
                let sz = self.lfu_map[i - 1].size;
                if sz < smallest_a1 {
                    return sz;
                }
                return smallest_a1;
            }
            i = i - 1;
        }
        proof {
            assert(self.lfu_map@.subrange(0, 0) =~= Seq::<LfuEvictionRecord>::empty());
        }
        smallest_a1
    }

    /// A re-access counts one more access and readmits the object into
    /// the probation queue everywhere.
    pub fn update(&mut self, access: &Access)
        requires
            old(self).wf(),
        ensures
            final(self).wf(),
            final(self).kin == old(self).kin,
            final(self).kout == old(self).kout,
            final(self).lfu_map@ == old(self).lfu_map@,
            final(self).lfu_global_count == if old(self).lfu_global_count < u64::MAX {
                (old(self).lfu_global_count + 1) as u64
            } else {
                u64::MAX
            },
            final(self).fifo_map@ == if old(self).fifo_map@.len() > 0 && old(
                self,
            ).fifo_map@.last().size == 0 {
                old(self).fifo_map@
            } else {
                old(self).fifo_map@.push(
                    FifoEvictionRecord { size: 0, timestamp: access.timestamp },
                )
            },
    {
        if self.lfu_global_count < u64::MAX {
            self.lfu_global_count = self.lfu_global_count + 1;
        }
        proof {
            assert(lfu_counts_bounded(self.lfu_map@, self.lfu_global_count)) by {
                assert forall|i: int|
                    0 <= i < self.lfu_map@.len() implies (#[trigger] self.lfu_map@[i].count)
                    <= self.lfu_global_count by {
                    assert(self.lfu_map@[i].count <= old(self).lfu_global_count);
                }
            }
        }
        let n = self.fifo_map.len();
        if n > 0 && self.fifo_map[n - 1].size == 0 {
            return ;
        }
        let ghost m0 = self.fifo_map@;
        self.fifo_map.push(FifoEvictionRecord { size: 0, timestamp: access.timestamp });
        proof {
            assert(forall|i: int| 0 <= i < m0.len() ==> self.fifo_map@[i] == m0[i]);
            assert(fifo_records_sorted(self.fifo_map@)) by {
                assert forall|p: int, q: int|
                    0 <= p < q < self.fifo_map@.len() implies self.fifo_map@[p].size
                    > self.fifo_map@[q].size by {
                    if q == self.fifo_map@.len() - 1 {
                        assert(self.fifo_map@[p] == m0[p]);
                        if m0.len() > 0 && p < m0.len() - 1 {
                            assert(m0[p].size > m0[m0.len() - 1].size);
                        }
                    }
                }
            }
        }
    }
}

/// The 2Q reuse distance: the innermost protected-queue witness, or
/// the pooled bound when none is small enough.
pub open spec fn twoq_reuse_spec(s: Seq<LfuEvictionRecord>, gc: u64, smallest_a1: u64) -> u64
    decreases s.len(),
{
    if s.len() == 0 {
        smallest_a1
    } else if gc - s.last().count >= 2 {
        if s.last().size < smallest_a1 {
            s.last().size
        } else {
            smallest_a1
        }
    } else {
        twoq_reuse_spec(s.drop_last(), gc, smallest_a1)
    }
}

} // verus!
