use vstd::prelude::*;
use crate::access::{Access, Key};
use crate::shards::key_threshold;
use crate::SHARDS_MODULUS;

verus! {

/// One sampled key together with its hash coordinate.
#[derive(Debug, Clone, Copy, PartialEq, Eq, Structural)]
pub struct Entry {
    pub key: Key,
    pub t: u64,
}

impl Entry {
    pub fn new(key: Key, t: u64) -> (r: Entry)
        ensures
            r.key == key,
            r.t == t,
    {
        Entry { key, t }
    }
}

/// Coordinates in the sampled set are pairwise distinct.
pub open spec fn distinct_ts(s: Seq<Entry>) -> bool {
    forall|i: int, j: int| 0 <= i < j < s.len() ==> s[i].t != s[j].t
}

/// Fixed-size SHARDS: keeps at most `s_max` sampled coordinates; when
/// the set overflows, the entry with the largest coordinate leaves,
/// the threshold drops to that coordinate, and the expected count
/// accumulated so far is banked.
pub struct ShardsFixedSize {
    pub global_t: u64,
    pub s_max: u32,
    pub sampled_count: u64,
    pub total_count: u64,
    /// Banked expected count in fixed point: the real value times the
    /// threshold modulus.
    pub expected_fp: u128,
    pub entries: Vec<Entry>,
}

impl ShardsFixedSize {
    /// Whether the sampled set is within budget, so that one more
    /// sample cannot push it past one over.
    pub open spec fn ready(&self) -> bool {
        self.entries@.len() <= self.s_max
    }

    pub open spec fn wf(&self) -> bool {
        &&& self.global_t <= SHARDS_MODULUS
        &&& distinct_ts(self.entries@)
        &&& self.entries@.len() <= self.s_max + 1
        &&& forall|i: int| 0 <= i < self.entries@.len() ==> #[trigger] self.entries@[i].t
            < self.global_t
    }

    /// The banked expected count plus the current period's share, as
    /// an exact value (the modulus-denominator fixed point, divided).
    pub open spec fn spec_expected_count(&self) -> int {
        (self.expected_fp + self.total_count * self.global_t) / (SHARDS_MODULUS as int)
    }

    pub fn new(global_t: u64, s_max: u32) -> (r: ShardsFixedSize)
        requires
            global_t <= SHARDS_MODULUS,
        ensures
            r.wf(),
            r.global_t == global_t,
            r.s_max == s_max,
            r.sampled_count == 0,
            r.total_count == 0,
            r.expected_fp == 0,
            r.entries@.len() == 0,
            r.ready(),
    {
        ShardsFixedSize {
            global_t,
            s_max,
            sampled_count: 0,
            total_count: 0,
            expected_fp: 0,
            entries: Vec::new(),
        }
    }

    pub fn get_global_t(&self) -> (r: u64)
        ensures
            r == self.global_t,
    {
        self.global_t
    }

    pub fn get_sampled_count(&self) -> (r: u64)
        ensures
            r == self.sampled_count,
    {
        self.sampled_count
    }

    pub fn get_total_count(&self) -> (r: u64)
        ensures
            r == self.total_count,
    {
        self.total_count
    }

    pub fn get_expected_count(&self) -> (r: u64)
        requires
            self.wf(),
        ensures
            r == if self.spec_expected_count() <= u64::MAX {
                self.spec_expected_count() as u64
            } else {
                u64::MAX
            },
    {
        proof {
            assert(0 <= self.total_count * self.global_t <= u64::MAX as int * SHARDS_MODULUS)
                by (nonlinear_arith)
                requires
                    0 <= self.total_count <= u64::MAX,
                    0 <= self.global_t <= SHARDS_MODULUS,
            {}
        }
        let period: u128 = (self.total_count as u128) * (self.global_t as u128);
        let sum: u128 = if self.expected_fp <= u128::MAX - period {
            self.expected_fp + period
        } else {
            u128::MAX
        };
        proof {
            if self.expected_fp > u128::MAX - period {
                assert((self.expected_fp + period) / (SHARDS_MODULUS as int) >= u128::MAX as int
                    / (SHARDS_MODULUS as int)) by {
                    vstd::arithmetic::div_mod::lemma_div_is_ordered(
                        u128::MAX as int,
                        self.expected_fp + period,
                        SHARDS_MODULUS as int,
                    );
                }
                assert(u128::MAX as int / (SHARDS_MODULUS as int) > u64::MAX);
            }
        }
        let q: u128 = sum / (SHARDS_MODULUS as u128);
        if q <= u64::MAX as u128 {
            q as u64
        } else {
            u64::MAX
        }
    }

    /// Counts the access; when sampled and its coordinate is new, the
    /// coordinate joins the sampled set.
    pub fn sample(&mut self, access: &Access) -> (r: bool)
        requires
            old(self).wf(),
            old(self).ready(),
        ensures
            final(self).wf(),
            r == (key_threshold(access.key) < old(self).global_t),
            final(self).global_t == old(self).global_t,
            final(self).s_max == old(self).s_max,
            final(self).expected_fp == old(self).expected_fp,
            final(self).total_count == if old(self).total_count < u64::MAX {
                (old(self).total_count + 1) as u64
            } else {
                u64::MAX
            },
            final(self).sampled_count == if r && old(self).sampled_count < u64::MAX {
                (old(self).sampled_count + 1) as u64
            } else {
                old(self).sampled_count
            },
            !r ==> final(self).entries@ == old(self).entries@,
            r ==> final(self).entries@ == if exists|i: int|
                0 <= i < old(self).entries@.len() && old(self).entries@[i].t == key_threshold(
                    access.key,
                ) {
                old(self).entries@
            } else {
                old(self).entries@.push(
                    Entry { key: access.key, t: key_threshold(access.key) as u64 },
                )
            },
    {
        if self.total_count < u64::MAX {
            self.total_count = self.total_count + 1;
        }
        let t = crate::shards::key_threshold_value(access.key);
        if t >= self.global_t {
            return false;
        }
        if self.sampled_count < u64::MAX {
            self.sampled_count = self.sampled_count + 1;
        }
        let mut i: usize = 0;
        let n = self.entries.len();
        while i < n && self.entries[i].t != t
            invariant
                i <= n,
                n == self.entries@.len(),
                forall|j: int| 0 <= j < i ==> #[trigger] self.entries@[j].t != t,
            decreases n - i,
        {
            i = i + 1;
        }
        let found = i < n;
        proof {
            if found {
                assert(self.entries@[i as int].t == t);
            }
        }
        if !found {
            let ghost e0 = self.entries@;
            self.entries.push(Entry { key: access.key, t });
            proof {
                assert(forall|j: int|
                    0 <= j < e0.len() ==> self.entries@[j] == e0[j]);
                assert(self.entries@.last().t == t);
                assert(distinct_ts(self.entries@)) by {
                    assert forall|p: int, q: int|
                        0 <= p < q < self.entries@.len() implies self.entries@[p].t
                        != self.entries@[q].t by {
                        if q == self.entries@.len() - 1 {
                            assert(self.entries@[p] == e0[p]);
                        }
                    }
                }
            }
        }
        true
    }

    /// When the sampled set has outgrown its budget, evicts the entry
    /// with the largest coordinate, lowers the threshold to it, banks
    /// the expected count of the closing period, and hands the evicted
    /// key back for removal from the caller's structures.
    pub fn get_removal(&mut self) -> (r: Option<Key>)
        requires
            old(self).wf(),
        ensures
            final(self).wf(),
            final(self).ready(),
            final(self).global_t <= old(self).global_t,
            final(self).s_max == old(self).s_max,
            final(self).sampled_count == old(self).sampled_count,
            r is None <==> old(self).entries@.len() <= old(self).s_max,
            r is None ==> *final(self) == *old(self),
            r is Some ==> {
                &&& exists|i: int|
                    0 <= i < old(self).entries@.len() && old(self).entries@[i].key == r->0
                        && old(self).entries@[i].t == final(self).global_t && (forall|j: int|
                        0 <= j < old(self).entries@.len() ==> #[trigger] old(
                            self,
                        ).entries@[j].t <= old(self).entries@[i].t)
                &&& final(self).entries@.len() == old(self).entries@.len() - 1
                &&& final(self).total_count == 0
            },
    {
        if self.entries.len() <= self.s_max as usize {
            return None;
        }
        // Find the entry with the largest coordinate.
        let mut best: usize = 0;
        let mut i: usize = 1;
        let n = self.entries.len();
        while i < n
            invariant
                best < i <= n,
                n == self.entries@.len(),
                n >= 1,
                forall|j: int| 0 <= j < i ==> #[trigger] self.entries@[j].t
                    <= self.entries@[best as int].t,
            decreases n - i,
        {
            if self.entries[i].t > self.entries[best].t {
                best = i;
            }
            i = i + 1;
        }
        let ghost e0 = self.entries@;
        let entry = self.entries.remove(best);
        self.global_t = entry.t;
        proof {
            assert(0 <= self.total_count * self.global_t <= u64::MAX as int * SHARDS_MODULUS)
                by (nonlinear_arith)
                requires
                    0 <= self.total_count <= u64::MAX,
                    0 <= self.global_t <= SHARDS_MODULUS,
            {}
        }
        let period: u128 = (self.total_count as u128) * (self.global_t as u128);
        self.expected_fp = if self.expected_fp <= u128::MAX - period {
            self.expected_fp + period
        } else {
            u128::MAX
        };
        self.total_count = 0;
        proof {
            assert forall|j: int|
                0 <= j < self.entries@.len() implies (#[trigger] self.entries@[j]).t
                < self.global_t by {
                let a = if j < best {
                    j
                } else {
                    j + 1
                };
                assert(self.entries@[j] == e0[a]);
                assert(e0[a].t <= e0[best as int].t);
                if a < best {
                    assert(e0[a].t != e0[best as int].t);
                } else {
                    assert(e0[best as int].t != e0[a].t);
                }
            }
            assert(distinct_ts(self.entries@)) by {
                assert forall|p: int, q: int|
                    0 <= p < q < self.entries@.len() implies self.entries@[p].t
                    != self.entries@[q].t by {
                    let a = if p < best {
                        p
                    } else {
                        p + 1
                    };
                    let b = if q < best {
                        q
                    } else {
                        q + 1
                    };
                    assert(self.entries@[p] == e0[a] && self.entries@[q] == e0[b]);
                }
            }
        }
        Some(entry.key)
    }
}

} // verus!
