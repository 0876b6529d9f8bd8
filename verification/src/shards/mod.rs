pub mod fixed_rate;
pub mod fixed_size;

use vstd::prelude::*;
use crate::access::{Access, Key};
use crate::shards::fixed_rate::ShardsFixedRate;
use crate::shards::fixed_size::ShardsFixedSize;
use crate::SHARDS_MODULUS;

verus! {

/// The 128-bit MurmurHash3 digest of a key's little-endian bytes; a
/// pure function of the key.
pub uninterp spec fn murmur3_hash_of(key: u64) -> u128;

/// Relies on fasthash::murmur3::hash128: the digest depends on the
/// input bytes alone.
#[verifier::external_body]
fn murmur3_hash(key: u64) -> (r: u128)
    ensures
        r == murmur3_hash_of(key),
{
    fasthash::murmur3::hash128(key.to_le_bytes())
}

/// The sampling coordinate of a key: its hash reduced modulo the
/// threshold space.
pub open spec fn key_threshold(key: Key) -> int {
    murmur3_hash_of(key) as int % (SHARDS_MODULUS as int)
}

/// Computes the key's sampling coordinate, always below the modulus.
pub fn key_threshold_value(key: Key) -> (t: u64)
    ensures
        t == key_threshold(key),
        t < SHARDS_MODULUS,
{
    (murmur3_hash(key) % (SHARDS_MODULUS as u128)) as u64
}

/// `floor(size * t / modulus)`: a size scaled down by the sampling
/// rate `t / modulus`.
pub open spec fn spec_scale(size: u64, t: u64) -> u64 {
    (size * t / (SHARDS_MODULUS as int)) as u64
}

pub fn scale_by_threshold(size: u64, t: u64) -> (r: u64)
    requires
        t <= SHARDS_MODULUS,
    ensures
        r == spec_scale(size, t),
        r <= size,
{
    proof {
        assert(size * t / (SHARDS_MODULUS as int) <= size && size * t <= u64::MAX as int
            * SHARDS_MODULUS) by (nonlinear_arith)
            requires
                0 <= size <= u64::MAX,
                0 <= t <= SHARDS_MODULUS,
        {}
    }
    ((size as u128) * (t as u128) / (SHARDS_MODULUS as u128)) as u64
}

/// `floor(size * modulus / t)`, clamped: a sampled size projected back
/// to the full trace.  A zero threshold sends any non-zero size to the
/// largest representable value.
pub open spec fn spec_unscale(size: u64, t: u64) -> u64 {
    if t == 0 {
        if size == 0 {
            0
        } else {
            u64::MAX
        }
    } else {
        let q = size * SHARDS_MODULUS / (t as int);
        if q <= u64::MAX {
            q as u64
        } else {
            u64::MAX
        }
    }
}

pub fn unscale_by_threshold(size: u64, t: u64) -> (r: u64)
    ensures
        r == spec_unscale(size, t),
{
    if t == 0 {
        if size == 0 {
            return 0;
        }
        return u64::MAX;
    }
    proof {
        assert(0 <= size * SHARDS_MODULUS <= u64::MAX as int * SHARDS_MODULUS) by (nonlinear_arith)
            requires
                0 <= size <= u64::MAX,
        {}
    }
    let q: u128 = (size as u128) * (SHARDS_MODULUS as u128) / (t as u128);
    if q <= u64::MAX as u128 {
        q as u64
    } else {
        u64::MAX
    }
}

/// A SHARDS spatial sampler: fixed-rate keeps the threshold constant,
/// fixed-size lowers it whenever the sampled set outgrows its budget.
pub enum Shards {
    FixedRate(ShardsFixedRate),
    FixedSize(ShardsFixedSize),
}

impl Shards {
    pub open spec fn wf(&self) -> bool {
        match self {
            Shards::FixedRate(s) => s.wf(),
            Shards::FixedSize(s) => s.wf(),
        }
    }

    /// Whether the sampler can take the next access (for fixed-size,
    /// the sampled set is within budget; the driver restores this by
    /// consulting `get_removal` after every sampled access).
    pub open spec fn ready(&self) -> bool {
        match self {
            Shards::FixedRate(_) => true,
            Shards::FixedSize(s) => s.ready(),
        }
    }

    pub open spec fn spec_global_t(&self) -> u64 {
        match self {
            Shards::FixedRate(s) => s.global_t,
            Shards::FixedSize(s) => s.global_t,
        }
    }

    pub open spec fn spec_sampled_count(&self) -> u64 {
        match self {
            Shards::FixedRate(s) => s.sampled_count,
            Shards::FixedSize(s) => s.sampled_count,
        }
    }

    pub open spec fn spec_total_count(&self) -> u64 {
        match self {
            Shards::FixedRate(s) => s.total_count,
            Shards::FixedSize(s) => s.total_count,
        }
    }

    /// The exact expected sampled count, before clamping.
    pub open spec fn spec_expected_count(&self) -> int {
        match self {
            Shards::FixedRate(s) => s.spec_expected_count(),
            Shards::FixedSize(s) => s.spec_expected_count(),
        }
    }

    /// The SHARDS correction term: expected minus observed samples for
    /// the fixed-rate sampler, zero for fixed-size (whose corrections
    /// are folded into threshold changes).
    pub open spec fn spec_correction(&self) -> int {
        match self {
            Shards::FixedRate(s) => s.spec_correction(),
            Shards::FixedSize(_) => 0,
        }
    }

    pub fn get_global_t(&self) -> (r: u64)
        ensures
            r == self.spec_global_t(),
    {
        match self {
            Shards::FixedRate(s) => s.get_global_t(),
            Shards::FixedSize(s) => s.get_global_t(),
        }
    }

    pub fn get_sampled_count(&self) -> (r: u64)
        ensures
            r == self.spec_sampled_count(),
    {
        match self {
            Shards::FixedRate(s) => s.get_sampled_count(),
            Shards::FixedSize(s) => s.get_sampled_count(),
        }
    }

    pub fn get_total_count(&self) -> (r: u64)
        ensures
            r == self.spec_total_count(),
    {
        match self {
            Shards::FixedRate(s) => s.get_total_count(),
            Shards::FixedSize(s) => s.get_total_count(),
        }
    }

    /// The expected sampled count, clamped to `u64`.
    pub fn get_expected_count(&self) -> (r: u64)
        requires
            self.wf(),
        ensures
            r == if self.spec_expected_count() <= u64::MAX {
                self.spec_expected_count() as u64
            } else {
                u64::MAX
            },
    {
        match self {
            Shards::FixedRate(s) => s.get_expected_count(),
            Shards::FixedSize(s) => s.get_expected_count(),
        }
    }

    /// The correction term, clamped to `i64`.
    pub fn get_correction(&self) -> (r: i64)
        requires
            self.wf(),
        ensures
            r == if self.spec_correction() > i64::MAX {
                i64::MAX
            } else if self.spec_correction() < i64::MIN {
                i64::MIN
            } else {
                self.spec_correction() as i64
            },
    {
        match self {
            Shards::FixedRate(s) => s.get_correction(),
            Shards::FixedSize(_) => 0,
        }
    }

    /// Decides whether the key is sampled: its coordinate must fall
    /// under the current threshold.
    pub fn sample_key(&self, key: Key) -> (r: Option<u64>)
        ensures
            r == if key_threshold(key) < self.spec_global_t() {
                Some(key_threshold(key) as u64)
            } else {
                Option::<u64>::None
            },
    {
        let t = key_threshold_value(key);
        if t < self.get_global_t() {
            Some(t)
        } else {
            None
        }
    }

    /// Counts the access and decides whether it is sampled.
    pub fn sample(&mut self, access: &Access) -> (r: bool)
        requires
            old(self).wf(),
            old(self).ready(),
        ensures
            final(self).wf(),
            r == (key_threshold(access.key) < old(self).spec_global_t()),
            final(self).spec_total_count() == if old(self).spec_total_count() < u64::MAX {
                (old(self).spec_total_count() + 1) as u64
            } else {
                u64::MAX
            },
            !r ==> final(self).spec_sampled_count() == old(self).spec_sampled_count()
                && final(self).spec_global_t() == old(self).spec_global_t(),
            r ==> final(self).spec_sampled_count() == if old(self).spec_sampled_count()
                < u64::MAX {
                (old(self).spec_sampled_count() + 1) as u64
            } else {
                u64::MAX
            },
            !r ==> final(self).ready(),
            final(self).spec_global_t() == old(self).spec_global_t(),
    {
        match self {
            Shards::FixedRate(s) => s.sample(access),
            Shards::FixedSize(s) => s.sample(access),
        }
    }

    /// After a sampled access, reports at most one key whose samples
    /// must be dropped because the threshold was lowered; drains it.
    pub fn get_removal(&mut self) -> (r: Option<Key>)
        requires
            old(self).wf(),
        ensures
            final(self).wf(),
            final(self).ready(),
            final(self).spec_global_t() <= old(self).spec_global_t(),
            matches!(old(self), Shards::FixedRate(_)) ==> r is None && *final(self) == *old(self),
    {
        match self {
            Shards::FixedRate(_) => None,
            Shards::FixedSize(s) => s.get_removal(),
        }
    }

    /// Scales a size down by the current sampling rate.
    pub fn scale(&self, size: u64) -> (r: u64)
        requires
            self.wf(),
        ensures
            r == spec_scale(size, self.spec_global_t()),
            r <= size,
    {
        scale_by_threshold(size, self.get_global_t())
    }

    /// Projects a sampled size back up by the current sampling rate.
    pub fn unscale(&self, size: u64) -> (r: u64)
        ensures
            r == spec_unscale(size, self.spec_global_t()),
    {
        unscale_by_threshold(size, self.get_global_t())
    }
}

} // verus!
