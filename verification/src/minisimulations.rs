use vstd::prelude::*;
use crate::access::{Access, Key};
use crate::cache::policy::{CachePolicy, PolicyCache};
use crate::curve::Curve;
use crate::shards::Shards;
use crate::{RATIO_ONE, SHARDS_MODULUS};

verus! {

/// How many concrete caches MiniSim runs in parallel.
pub const NUM_CACHES: u64 = 100;

/// The MiniSim MRC generator: one concrete cache per sampled size,
/// each handling every accepted access.
pub struct Minisimulations {
    pub max_cache_size: u64,
    pub caches: Vec<PolicyCache>,
    pub shards: Option<Shards>,
    pub shards_global_t: u64,
}

/// The size MiniSim assigns to cache `i` (zero-based): the next
/// multiple of a hundredth of the range, scaled down under SHARDS.
pub open spec fn expected_cache_size(i: int, max_cache_size: u64, shards: Option<Shards>) -> u64 {
    let raw = ((i + 1) * (max_cache_size as int / (NUM_CACHES as int))) as u64;
    match shards {
        None => raw,
        Some(s) => crate::shards::spec_scale(raw, s.spec_global_t()),
    }
}

/// The curve point one cache reports: its size projected back to the
/// full trace and its miss ratio corrected by the observed over
/// expected sample counts, clamped to one.
pub open spec fn cache_point(c: PolicyCache, shards: Option<Shards>) -> crate::curve::Point {
    match shards {
        None => crate::curve::Point {
            size: c.spec_max_size(),
            miss_ratio: crate::cache::miss_ratio_spec(c.spec_count(), c.spec_hits()),
        },
        Some(s) => {
            let expected = if s.spec_expected_count() <= u64::MAX {
                s.spec_expected_count()
            } else {
                u64::MAX as int
            };
            let mr = crate::cache::miss_ratio_spec(c.spec_count(), c.spec_hits());
            let adjusted = if expected == 0 {
                RATIO_ONE as int
            } else {
                mr * s.spec_sampled_count() / expected
            };
            crate::curve::Point {
                size: crate::shards::spec_unscale(c.spec_max_size(), s.spec_global_t()),
                miss_ratio: if adjusted >= RATIO_ONE {
                    RATIO_ONE
                } else {
                    adjusted as u64
                },
            }
        },
    }
}

impl Minisimulations {
    pub open spec fn wf(&self) -> bool {
        &&& self.caches@.len() == NUM_CACHES
        &&& forall|i: int| 0 <= i < self.caches@.len() ==> (#[trigger] self.caches@[i]).wf()
        &&& match self.shards {
            Some(s) => s.wf() && s.ready() && self.shards_global_t >= s.spec_global_t()
                && self.shards_global_t <= SHARDS_MODULUS,
            None => true,
        }
    }

    /// Builds the fan-out: cache `i` gets size `i * max / NUM_CACHES`,
    /// scaled down by the sampling rate when SHARDS is active.
    pub fn new(policy: &CachePolicy, max_cache_size: u64, shards: Option<Shards>) -> (r:
        Minisimulations)
        requires
            policy.wf(),
            match shards {
                Some(s) => s.wf() && s.ready(),
                None => true,
            },
        ensures
            r.wf(),
            r.caches@.len() == NUM_CACHES,
            r.max_cache_size == max_cache_size,
            r.shards == shards,
            forall|i: int|
                0 <= i < NUM_CACHES ==> (#[trigger] r.caches@[i]).spec_max_size()
                    == expected_cache_size(i, max_cache_size, shards) && r.caches@[i].spec_count()
                    == 0 && r.caches@[i].spec_hits() == 0,
            forall|i: int, k: Key|
                0 <= i < NUM_CACHES ==> !(#[trigger] r.caches@[i].spec_contains(k)),
    {
        let mut caches: Vec<PolicyCache> = Vec::new();
        let per_cache = max_cache_size / NUM_CACHES;
        proof {
            vstd::arithmetic::div_mod::lemma_fundamental_div_mod(
                max_cache_size as int,
                NUM_CACHES as int,
            );
        }
        let mut i: u64 = 1;
        while i <= NUM_CACHES
            invariant
                1 <= i <= NUM_CACHES + 1,
                caches@.len() == i - 1,
                policy.wf(),
                per_cache == max_cache_size / NUM_CACHES,
                NUM_CACHES * per_cache <= max_cache_size,
                forall|j: int| 0 <= j < caches@.len() ==> (#[trigger] caches@[j]).wf(),
                forall|j: int|
                    0 <= j < caches@.len() ==> (#[trigger] caches@[j]).spec_max_size()
                        == expected_cache_size(j, max_cache_size, shards) && caches@[j].spec_count()
                        == 0 && caches@[j].spec_hits() == 0,
                forall|j: int, k: Key|
                    0 <= j < caches@.len() ==> !(#[trigger] caches@[j].spec_contains(k)),
                match shards {
                    Some(s) => s.wf(),
                    None => true,
                },
            decreases NUM_CACHES + 1 - i,
        {
            proof {
                assert(i * per_cache <= NUM_CACHES * per_cache) by (nonlinear_arith)
                    requires
                        1 <= i <= NUM_CACHES,
                        per_cache >= 0,
                {}
            }
            let mut cache_size: u64 = i * per_cache;
            match &shards {
                Some(s) => {
                    cache_size = s.scale(cache_size);
                },
                None => {},
            }
            let ghost c0 = caches@;
            caches.push(policy.new_cache(cache_size));
            proof {
                assert(forall|j: int| 0 <= j < c0.len() ==> caches@[j] == c0[j]);
            }
            i = i + 1;
        }
        let shards_global_t: u64 = match &shards {
            Some(s) => s.get_global_t(),
            None => 0,
        };
        proof {
            if shards is Some {
                assert(shards_global_t <= SHARDS_MODULUS);
            }
        }
        Minisimulations { max_cache_size, caches, shards, shards_global_t }
    }

    /// Handles one trace access: invalid accesses change nothing,
    /// unsampled accesses only advance the sampler's counters, and an
    /// accepted access reaches every cache.
    pub fn handle(&mut self, access: &Access)
        requires
            old(self).wf(),
        ensures
            final(self).wf(),
            !(access.command == crate::access::Command::Get && access.size > 0) ==> (*final(self)
                == *old(self)),
            final(self).max_cache_size == old(self).max_cache_size,
            (access.command == crate::access::Command::Get && access.size > 0 && match old(
                self,
            ).shards {
                None => false,
                Some(s) => !(crate::shards::key_threshold(access.key) < s.spec_global_t()),
            }) ==> final(self).caches@ == old(self).caches@,
            (access.command == crate::access::Command::Get && access.size > 0 && match old(
                self,
            ).shards {
                None => true,
                Some(s) => crate::shards::key_threshold(access.key) < s.spec_global_t(),
            }) ==> forall|i: int|
                0 <= i < final(self).caches@.len() && access.size <= (#[trigger] final(self).caches@[i]).spec_max_size() ==> final(self).caches@[i].spec_contains(access.key),
    {
        if !access.is_valid_self_populating() {
            return ;
        }
        if !self.verify_shards(access) {
            return ;
        }
        self.process(access);
    }

    /// Consults the sampler; a removal notification drops the key from
    /// every cache.  An access is accepted exactly when no sampler is
    /// configured or the key's coordinate falls under the threshold.
    pub fn verify_shards(&mut self, access: &Access) -> (r: bool)
        requires
            old(self).wf(),
        ensures
            final(self).wf(),
            r == match old(self).shards {
                None => true,
                Some(s) => crate::shards::key_threshold(access.key) < s.spec_global_t(),
            },
            final(self).max_cache_size == old(self).max_cache_size,
            final(self).shards_global_t == old(self).shards_global_t,
            !r ==> final(self).caches@ == old(self).caches@,
    {
        let removal: Option<Key> = match &mut self.shards {
            Some(s) => {
                proof {
                    assert(s.wf() && s.ready());
                }
                let ok = s.sample(access);
                if !ok {
                    return false;
                }
                s.get_removal()
            },
            None => None,
        };
        match removal {
            Some(key) => {
                self.remove(key);
            },
            None => {},
        }
        true
    }

    /// Dispatches one accepted access to every cache; a drop of the
    /// sampling threshold first resizes and rescales all of them.
    /// Afterwards every cache that can hold the object holds it.
    pub fn process(&mut self, access: &Access)
        requires
            old(self).wf(),
        ensures
            final(self).wf(),
            final(self).max_cache_size == old(self).max_cache_size,
            forall|i: int|
                0 <= i < final(self).caches@.len() && access.size <= (#[trigger] final(self).caches@[i]).spec_max_size() ==> final(self).caches@[i].spec_contains(access.key),
    {
        let current_t: u64 = match &self.shards {
            Some(s) => s.get_global_t(),
            None => 0,
        };
        if self.shards.is_some() && current_t != self.shards_global_t {
            self.rescale(current_t);
            self.shards_global_t = current_t;
        }
        let n = self.caches.len();
        let mut i: usize = 0;
        while i < n
            invariant
                i <= n,
                n == self.caches@.len(),
                self.wf(),
                self.max_cache_size == old(self).max_cache_size,
                forall|j: int|
                    0 <= j < i && access.size <= (#[trigger] self.caches@[j]).spec_max_size()
                        ==> self.caches@[j].spec_contains(access.key),
            decreases n - i,
        {
            let ghost c0 = self.caches@;
            let cache = &mut self.caches[i];
            cache.handle_self_populating(access);
            proof {
                assert forall|j: int|
                    0 <= j < self.caches@.len() implies (#[trigger] self.caches@[j]).wf() by {
                    if j != i {
                        assert(self.caches@[j] == c0[j]);
                    }
                }
                assert forall|j: int|
                    0 <= j < i + 1 && access.size <= (#[trigger] self.caches@[j]).spec_max_size()
                        implies self.caches@[j].spec_contains(access.key) by {
                    if j < i {
                        assert(self.caches@[j] == c0[j]);
                    }
                }
            }
            i = i + 1;
        }
    }

    /// Resizes each cache to the new rate and scales its counters by
    /// the exact ratio of the new threshold to the recorded one.
    fn rescale(&mut self, new_t: u64)
        requires
            old(self).wf(),
            old(self).shards is Some,
            new_t <= old(self).shards_global_t,
            old(self).shards_global_t >= 1 || new_t == 0,
        ensures
            final(self).wf(),
            final(self).shards == old(self).shards,
            final(self).shards_global_t == old(self).shards_global_t,
            final(self).max_cache_size == old(self).max_cache_size,
    {
        let old_t = self.shards_global_t;
        if old_t == 0 {
            return ;
        }
        let n = self.caches.len();
        let per_cache = self.max_cache_size / NUM_CACHES;
        let mut i: usize = 0;
        while i < n
            invariant
                i <= n,
                n == self.caches@.len(),
                n == NUM_CACHES,
                self.wf(),
                self.shards == old(self).shards,
                self.shards_global_t == old(self).shards_global_t,
                self.max_cache_size == old(self).max_cache_size,
                per_cache == self.max_cache_size / NUM_CACHES,
                old_t == self.shards_global_t,
                old_t >= 1,
                new_t <= old_t,
                new_t <= SHARDS_MODULUS,
            decreases n - i,
        {
            proof {
                assert(0 <= ((i as int) + 1) * (per_cache as int) && ((i as int) + 1) * (
                per_cache as int) <= 101 * 0xffffffffffffffff && ((i as int) + 1) * (
                per_cache as int) * new_t <= 101 * 0xffffffffffffffff * 16777216) by (
                nonlinear_arith)
                    requires
                        0 <= i < 100,
                        0 <= per_cache <= 0xffffffffffffffff,
                        0 <= new_t <= 16777216,
                {}
            }
            let idx128: u128 = (i as u128) + 1;
            let scaled: u128 = idx128 * (per_cache as u128) * (new_t as u128) / (
            SHARDS_MODULUS as u128);
            let new_size: u64 = if scaled <= u64::MAX as u128 {
                scaled as u64
            } else {
                u64::MAX
            };
            let ghost c0 = self.caches@;
            let cache = &mut self.caches[i];
            cache.resize(new_size);
            cache.rescale(new_t, old_t);
            proof {
                assert forall|j: int|
                    0 <= j < self.caches@.len() implies (#[trigger] self.caches@[j]).wf() by {
                    if j != i {
                        assert(self.caches@[j] == c0[j]);
                    }
                }
            }
            i = i + 1;
        }
    }

    /// Drops the key from every cache.
    pub fn remove(&mut self, key: Key)
        requires
            old(self).wf(),
        ensures
            final(self).wf(),
            final(self).shards == old(self).shards,
            final(self).shards_global_t == old(self).shards_global_t,
            final(self).max_cache_size == old(self).max_cache_size,
            forall|i: int|
                0 <= i < final(self).caches@.len() ==> !(#[trigger] final(self).caches@[i].spec_contains(key)),
    {
        let n = self.caches.len();
        let mut i: usize = 0;
        while i < n
            invariant
                i <= n,
                n == self.caches@.len(),
                self.wf(),
                self.shards == old(self).shards,
                self.shards_global_t == old(self).shards_global_t,
                self.max_cache_size == old(self).max_cache_size,
                forall|j: int|
                    0 <= j < i ==> !(#[trigger] self.caches@[j].spec_contains(key)),
            decreases n - i,
        {
            let ghost c0 = self.caches@;
            let cache = &mut self.caches[i];
            cache.del(key);
            proof {
                assert forall|j: int|
                    0 <= j < self.caches@.len() implies (#[trigger] self.caches@[j]).wf() by {
                    if j != i {
                        assert(self.caches@[j] == c0[j]);
                    }
                }
                assert forall|j: int|
                    0 <= j < i + 1 implies !(#[trigger] self.caches@[j].spec_contains(key)) by {
                    if j < i {
                        assert(self.caches@[j] == c0[j]);
                    }
                }
            }
            i = i + 1;
        }
    }

    /// Resets every cache's counters.
    pub fn clean(&mut self)
        requires
            old(self).wf(),
        ensures
            final(self).wf(),
            forall|i: int|
                0 <= i < final(self).caches@.len() ==> (#[trigger] final(self).caches@[i]).spec_count() == 0 && final(self).caches@[i].spec_hits() == 0,
    {
        let n = self.caches.len();
        let mut i: usize = 0;
        while i < n
            invariant
                i <= n,
                n == self.caches@.len(),
                self.wf(),
                forall|j: int|
                    0 <= j < i ==> (#[trigger] self.caches@[j]).spec_count() == 0 && self.caches@[
                    j].spec_hits() == 0,
            decreases n - i,
        {
            let ghost c0 = self.caches@;
            let cache = &mut self.caches[i];
            cache.clear_counters();
            proof {
                assert forall|j: int|
                    0 <= j < self.caches@.len() implies (#[trigger] self.caches@[j]).wf() by {
                    if j != i {
                        assert(self.caches@[j] == c0[j]);
                    }
                }
                assert forall|j: int|
                    0 <= j < i + 1 implies (#[trigger] self.caches@[j]).spec_count() == 0
                        && self.caches@[j].spec_hits() == 0 by {
                    if j < i {
                        assert(self.caches@[j] == c0[j]);
                    }
                }
            }
            i = i + 1;
        }
    }

    /// Shrinks every cache's contents to fit `size`.
    pub fn resize(&mut self, size: u64)
        requires
            old(self).wf(),
        ensures
            final(self).wf(),
    {
        let n = self.caches.len();
        let mut i: usize = 0;
        while i < n
            invariant
                i <= n,
                n == self.caches@.len(),
                self.wf(),
            decreases n - i,
        {
            let ghost c0 = self.caches@;
            let cache = &mut self.caches[i];
            cache.reduce(size);
            proof {
                assert forall|j: int|
                    0 <= j < self.caches@.len() implies (#[trigger] self.caches@[j]).wf() by {
                    if j != i {
                        assert(self.caches@[j] == c0[j]);
                    }
                }
            }
            i = i + 1;
        }
    }

    /// One point per cache: its size unscaled to the full trace, its
    /// miss ratio corrected by the observed over expected sample
    /// counts and clamped to `[0, 1]`.  Caches whose scaled sizes
    /// collide share one point, the later cache's.
    pub fn curve(&self) -> (r: Curve)
        requires
            self.wf(),
        ensures
            r.wf(),
            r.points@.len() >= 1,
            forall|j: int|
                0 <= j < r.points@.len() ==> exists|i: int|
                    0 <= i < self.caches@.len() && (#[trigger] r.points@[j]) == cache_point(
                        self.caches@[i],
                        self.shards,
                    ),
            exists|j: int|
                0 <= j < r.points@.len() && r.points@[j] == cache_point(
                    self.caches@[NUM_CACHES - 1],
                    self.shards,
                ),
    {
        let mut curve = Curve::new();
        let n = self.caches.len();
        let mut i: usize = 0;
        while i < n
            invariant
                i <= n,
                n == self.caches@.len(),
                self.wf(),
                curve.wf(),
                i > 0 ==> curve.points@.len() >= 1,
                forall|j: int|
                    0 <= j < curve.points@.len() ==> exists|ci: int|
                        0 <= ci < i && (#[trigger] curve.points@[j]) == cache_point(
                            self.caches@[ci],
                            self.shards,
                        ),
                i > 0 ==> exists|j: int|
                    0 <= j < curve.points@.len() && curve.points@[j] == cache_point(
                        self.caches@[i - 1],
                        self.shards,
                    ),
            decreases n - i,
        {
            let cache = &self.caches[i];
            let mut cache_size = cache.size();
            let mut mr = cache.miss_ratio();
            match &self.shards {
                Some(s) => {
                    cache_size = s.unscale(cache_size);
                    let sampled = s.get_sampled_count();
                    let expected = s.get_expected_count();
                    let adjusted: u128 = if expected == 0 {
                        RATIO_ONE as u128
                    } else {
                        proof {
                            assert(mr * sampled <= RATIO_ONE * (u64::MAX as int)) by (
                            nonlinear_arith)
                                requires
                                    0 <= mr <= RATIO_ONE,
                                    0 <= sampled <= u64::MAX,
                            {}
                        }
                        (mr as u128) * (sampled as u128) / (expected as u128)
                    };
                    mr = if adjusted >= RATIO_ONE as u128 {
                        RATIO_ONE
                    } else {
                        adjusted as u64
                    };
                },
                None => {},
            }
            let ghost newp = crate::curve::Point { size: cache_size, miss_ratio: mr };
            proof {
                assert(newp == cache_point(self.caches@[i as int], self.shards));
            }
            let ghost t0 = curve.points@;
            curve.add(cache_size, mr);
            proof {
                crate::curve::lemma_point_slot_splits(t0, cache_size);
                let pos = crate::curve::point_slot(t0, cache_size);
                assert forall|j: int|
                    0 <= j < curve.points@.len() implies exists|ci: int|
                    0 <= ci < i + 1 && (#[trigger] curve.points@[j]) == cache_point(
                        self.caches@[ci],
                        self.shards,
                    ) by {
                    if pos < t0.len() && t0[pos].size == cache_size {
                        assert(curve.points@ == t0.update(pos, newp));
                        if j == pos {
                            assert(curve.points@[j] == newp);
                            assert(curve.points@[j] == cache_point(
                                self.caches@[i as int],
                                self.shards,
                            ));
                        } else {
                            assert(curve.points@[j] == t0[j]);
                        }
                    } else {
                        assert(curve.points@ == t0.insert(pos, newp));
                        crate::curve::lemma_point_insert_index(t0, pos, newp, j);
                        if j == pos {
                            assert(curve.points@[j] == cache_point(
                                self.caches@[i as int],
                                self.shards,
                            ));
                        } else if j < pos {
                            assert(curve.points@[j] == t0[j]);
                        } else {
                            assert(curve.points@[j] == t0[j - 1]);
                        }
                    }
                }
                assert(exists|j: int|
                    0 <= j < curve.points@.len() && curve.points@[j] == cache_point(
                        self.caches@[i as int],
                        self.shards,
                    )) by {
                    if pos < t0.len() && t0[pos].size == cache_size {
                        assert(curve.points@ == t0.update(pos, newp));
                        assert(curve.points@[pos] == newp);
                    } else {
                        assert(curve.points@ == t0.insert(pos, newp));
                        crate::curve::lemma_point_insert_index(t0, pos, newp, pos);
                        assert(curve.points@[pos] == newp);
                    }
                }
            }
            i = i + 1;
        }
        curve
    }
}

} // verus!
