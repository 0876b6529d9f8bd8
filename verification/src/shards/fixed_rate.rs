use vstd::prelude::*;
use crate::access::Access;
use crate::shards::key_threshold;
use crate::SHARDS_MODULUS;

verus! {

/// Fixed-rate SHARDS: the sampling threshold never changes, so the
/// expected sample count is the rate times the accesses seen.
pub struct ShardsFixedRate {
    pub global_t: u64,
    pub sampled_count: u64,
    pub total_count: u64,
}

impl ShardsFixedRate {
    /// The sampler never reports more samples than accesses, and its
    /// threshold stays in the threshold space.
    pub open spec fn wf(&self) -> bool {
        &&& self.global_t <= SHARDS_MODULUS
        &&& self.sampled_count <= self.total_count
    }

    /// `floor(rate * total)`, the sample count a perfectly uniform
    /// hash would produce.
    pub open spec fn spec_expected_count(&self) -> int {
        self.global_t * self.total_count / (SHARDS_MODULUS as int)
    }

    pub open spec fn spec_correction(&self) -> int {
        self.spec_expected_count() - self.sampled_count
    }

    pub fn new(global_t: u64) -> (r: ShardsFixedRate)
        requires
            global_t <= SHARDS_MODULUS,
        ensures
            r.wf(),
            r.global_t == global_t,
            r.sampled_count == 0,
            r.total_count == 0,
    {
        ShardsFixedRate { global_t, sampled_count: 0, total_count: 0 }
    }

    pub fn get_global_t(&self) -> (r: u64)
        ensures
            r == self.global_t,
    {
        self.global_t
    }

    pub fn get_sampled_count(&self) -> (r: u64)
        ensures
            r == self.sampled_count,
    {
        self.sampled_count
    }

    pub fn get_total_count(&self) -> (r: u64)
        ensures
            r == self.total_count,
    {
        self.total_count
    }

    pub fn get_expected_count(&self) -> (r: u64)
        requires
            self.wf(),
        ensures
            r == self.spec_expected_count(),
            r <= self.total_count,
    {
        proof {
            assert(self.global_t * self.total_count / (SHARDS_MODULUS as int) <= self.total_count
                && 0 <= self.global_t * self.total_count <= SHARDS_MODULUS * u64::MAX)
                by (nonlinear_arith)
                requires
                    0 <= self.global_t <= SHARDS_MODULUS,
                    0 <= self.total_count <= u64::MAX,
            {}
        }
        ((self.global_t as u128) * (self.total_count as u128) / (SHARDS_MODULUS as u128)) as u64
    }

    /// `expected - sampled`, clamped to `i64`.
    pub fn get_correction(&self) -> (r: i64)
        requires
            self.wf(),
        ensures
            r == if self.spec_correction() > i64::MAX {
                i64::MAX
            } else if self.spec_correction() < i64::MIN {
                i64::MIN
            } else {
                self.spec_correction() as i64
            },
    {
        let expected = self.get_expected_count();
        let diff: i128 = (expected as i128) - (self.sampled_count as i128);
        if diff > i64::MAX as i128 {
            i64::MAX
        } else if diff < i64::MIN as i128 {
            i64::MIN
        } else {
            diff as i64
        }
    }

    /// Counts the access; it is sampled exactly when its hash
    /// coordinate falls under the threshold.
    pub fn sample(&mut self, access: &Access) -> (r: bool)
        requires
            old(self).wf(),
        ensures
            final(self).wf(),
            r == (key_threshold(access.key) < old(self).global_t),
            final(self).global_t == old(self).global_t,
            final(self).total_count == if old(self).total_count < u64::MAX {
                (old(self).total_count + 1) as u64
            } else {
                u64::MAX
            },
            final(self).sampled_count == if r && old(self).sampled_count < u64::MAX {
                (old(self).sampled_count + 1) as u64
            } else {
                old(self).sampled_count
            },
    {
        if self.total_count < u64::MAX {
            self.total_count = self.total_count + 1;
        }
        let t = crate::shards::key_threshold_value(access.key);
        if t >= self.global_t {
            return false;
        }
        if self.sampled_count < u64::MAX {
            self.sampled_count = self.sampled_count + 1;
        }
        true
    }
}

} // verus!
