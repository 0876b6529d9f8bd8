pub mod lru_eviction_map;
pub mod fifo_eviction_map;
pub mod lfu_eviction_map;
pub mod two_q_eviction_map;

use vstd::prelude::*;
use crate::access::Access;
use crate::algorithm::Object;
use crate::kosmo::eviction_map::fifo_eviction_map::{fifo_ts_at, FifoEvictionMap};
use crate::kosmo::eviction_map::lfu_eviction_map::{lfu_count_at, LfuEvictionMap};
use crate::kosmo::eviction_map::lru_eviction_map::LruEvictionMap;
use crate::kosmo::eviction_map::two_q_eviction_map::{
    twoq_location_spec, twoq_reuse_spec, TwoQEvictionMap,
};
use crate::kosmo::eviction_map::fifo_eviction_map::fifo_insert_spec;
use crate::kosmo::eviction_map::lfu_eviction_map::{
    lfu_reuse_spec, lfu_trim_le, LfuEvictionRecord,
};
use crate::kosmo::local_object::{
    FifoLocalObject, LfuLocalObject, LocalObjectPolicy, LruLocalObject, TwoQLocalObject,
};
use crate::kosmo::policy::KosmoPolicy;

verus! {

/// One policy's eviction map for one object.
pub enum EvictionMapPolicy {
    Lru(LruEvictionMap),
    Fifo(FifoEvictionMap),
    Lfu(LfuEvictionMap),
    TwoQ(TwoQEvictionMap),
}

impl EvictionMapPolicy {
    pub open spec fn wf(&self) -> bool {
        match self {
            EvictionMapPolicy::Lru(_) => true,
            EvictionMapPolicy::Fifo(m) => m.wf(),
            EvictionMapPolicy::Lfu(m) => m.wf(),
            EvictionMapPolicy::TwoQ(m) => m.wf(),
        }
    }

    /// Whether this map says the object is resident at cache `size`.
    pub open spec fn spec_exists_at(&self, size: u64) -> bool {
        match self {
            EvictionMapPolicy::Lru(m) => m.evicted_size < size,
            EvictionMapPolicy::Fifo(m) => fifo_ts_at(m.map@, size) is Some,
            EvictionMapPolicy::Lfu(m) => lfu_count_at(m.map@, m.global_count, size) is Some,
            EvictionMapPolicy::TwoQ(m) => twoq_location_spec(
                m.fifo_map@,
                m.lfu_map@,
                m.lfu_global_count,
                m.kin.spec_scale(size),
                (m.spec_a1_size(size)) as u64,
            ) is Some,
        }
    }

    /// How recording a synthetic eviction at `size` relates the map
    /// before and after, per policy.
    pub open spec fn insert_rel(pre: EvictionMapPolicy, post: EvictionMapPolicy, size: u64) -> bool {
        match (pre, post) {
            (EvictionMapPolicy::Lru(a), EvictionMapPolicy::Lru(b)) => b.evicted_size == size,
            (EvictionMapPolicy::Fifo(a), EvictionMapPolicy::Fifo(b)) => b.map@ == fifo_insert_spec(
                a.map@,
                size,
            ),
            (EvictionMapPolicy::Lfu(a), EvictionMapPolicy::Lfu(b)) => b.global_count
                == a.global_count && b.map@ == lfu_trim_le(a.map@, size).push(
                LfuEvictionRecord { size, count: a.global_count },
            ),
            (EvictionMapPolicy::TwoQ(a), EvictionMapPolicy::TwoQ(b)) => {
                &&& b.kin == a.kin
                &&& b.kout == a.kout
                &&& b.lfu_global_count == a.lfu_global_count
                &&& b.fifo_map@ == fifo_insert_spec(a.fifo_map@, (a.spec_a1_size(size)) as u64)
                &&& b.lfu_map@ == lfu_trim_le(a.lfu_map@, size).push(
                    LfuEvictionRecord { size, count: a.lfu_global_count },
                )
            },
            _ => false,
        }
    }

    /// The reuse distance the map reports for a re-access of `object`.
    pub open spec fn spec_reuse_distance(&self, object: Object) -> u64 {
        match self {
            EvictionMapPolicy::Lru(m) => if m.evicted_size > 0 {
                m.evicted_size
            } else {
                object.size as u64
            },
            EvictionMapPolicy::Fifo(m) => if m.map@.len() > 0 && m.map@.last().size
                > object.size {
                m.map@.last().size
            } else {
                object.size as u64
            },
            EvictionMapPolicy::Lfu(m) => lfu_reuse_spec(m.map@, m.global_count, object.size as u64),
            EvictionMapPolicy::TwoQ(m) => {
                let base = if m.fifo_map@.len() > 0 && m.fifo_map@.last().size > object.size {
                    m.fifo_map@.last().size
                } else {
                    object.size as u64
                };
                twoq_reuse_spec(
                    m.lfu_map@,
                    m.lfu_global_count,
                    m.kin.spec_unscale_sum_ceil(m.kout, base),
                )
            },
        }
    }

    /// How a re-access relates the map before and after, per policy.
    pub open spec fn update_rel(pre: EvictionMapPolicy, post: EvictionMapPolicy, a: Access) -> bool {
        match (pre, post) {
            (EvictionMapPolicy::Lru(p), EvictionMapPolicy::Lru(q)) => q.evicted_size == a.size
                - 1,
            (EvictionMapPolicy::Fifo(p), EvictionMapPolicy::Fifo(q)) => q.map@ == if p.map@.len()
                > 0 && p.map@.last().size == 0 {
                p.map@
            } else {
                p.map@.push(
                    crate::kosmo::eviction_map::fifo_eviction_map::FifoEvictionRecord {
                        size: 0,
                        timestamp: a.timestamp,
                    },
                )
            },
            (EvictionMapPolicy::Lfu(p), EvictionMapPolicy::Lfu(q)) => q.map@ == p.map@
                && q.global_count == if p.global_count < u64::MAX {
                (p.global_count + 1) as u64
            } else {
                u64::MAX
            },
            (EvictionMapPolicy::TwoQ(p), EvictionMapPolicy::TwoQ(q)) => {
                &&& q.kin == p.kin
                &&& q.kout == p.kout
                &&& q.lfu_map@ == p.lfu_map@
                &&& q.lfu_global_count == if p.lfu_global_count < u64::MAX {
                    (p.lfu_global_count + 1) as u64
                } else {
                    u64::MAX
                }
                &&& q.fifo_map@ == if p.fifo_map@.len() > 0 && p.fifo_map@.last().size == 0 {
                    p.fifo_map@
                } else {
                    p.fifo_map@.push(
                        crate::kosmo::eviction_map::fifo_eviction_map::FifoEvictionRecord {
                            size: 0,
                            timestamp: a.timestamp,
                        },
                    )
                }
            },
            _ => false,
        }
    }

    /// Builds the policy's fresh eviction map for a newly seen object.
    pub fn new(policy: &KosmoPolicy, access: &Access) -> (r: EvictionMapPolicy)
        requires
            policy.wf(),
            access.size >= 1,
        ensures
            r.wf(),
    {
        match policy {
            KosmoPolicy::Lru => EvictionMapPolicy::Lru(LruEvictionMap::new(access)),
            KosmoPolicy::Fifo => EvictionMapPolicy::Fifo(FifoEvictionMap::new(access)),
            KosmoPolicy::Lfu => EvictionMapPolicy::Lfu(LfuEvictionMap::new()),
            KosmoPolicy::TwoQ(kin, kout) => {
                match TwoQEvictionMap::new(access, *kin, *kout) {
                    Some(m) => EvictionMapPolicy::TwoQ(m),
                    None => EvictionMapPolicy::Lru(LruEvictionMap::new(access)),
                }
            },
        }
    }

    /// Records a synthetic eviction at cache size `size`.
    pub fn insert(&mut self, size: u64)
        requires
            old(self).wf(),
            size < u64::MAX,
        ensures
            final(self).wf(),
            EvictionMapPolicy::insert_rel(*old(self), *final(self), size),
    {
        match self {
            EvictionMapPolicy::Lru(m) => m.insert(size),
            EvictionMapPolicy::Fifo(m) => m.insert(size),
            EvictionMapPolicy::Lfu(m) => m.insert(size),
            EvictionMapPolicy::TwoQ(m) => m.insert(size),
        }
    }

    pub fn exists_at(&self, size: u64) -> (r: bool)
        requires
            self.wf(),
        ensures
            r == self.spec_exists_at(size),
    {
        match self {
            EvictionMapPolicy::Lru(m) => m.exists_at(size),
            EvictionMapPolicy::Fifo(m) => m.exists_at(size),
            EvictionMapPolicy::Lfu(m) => m.exists_at(size),
            EvictionMapPolicy::TwoQ(m) => m.exists_at(size),
        }
    }

    /// The reuse distance to record for a re-access of `object`.
    pub fn reuse_distance(&self, object: &Object) -> (r: u64)
        requires
            self.wf(),
        ensures
            r == self.spec_reuse_distance(*object),
    {
        match self {
            EvictionMapPolicy::Lru(m) => m.reuse_distance(object),
            EvictionMapPolicy::Fifo(m) => m.reuse_distance(object),
            EvictionMapPolicy::Lfu(m) => m.reuse_distance(object),
            EvictionMapPolicy::TwoQ(m) => m.reuse_distance(object),
        }
    }

    /// Applies a re-access to the map.
    pub fn update(&mut self, access: &Access)
        requires
            old(self).wf(),
            access.size >= 1,
        ensures
            final(self).wf(),
            EvictionMapPolicy::update_rel(*old(self), *final(self), *access),
    {
        match self {
            EvictionMapPolicy::Lru(m) => m.update(access),
            EvictionMapPolicy::Fifo(m) => m.update(access),
            EvictionMapPolicy::Lfu(m) => m.update(access),
            EvictionMapPolicy::TwoQ(m) => m.update(access),
        }
    }

    /// Which local-object variant a map produces: always its own
    /// policy's.
    pub open spec fn variant_matches(&self, o: LocalObjectPolicy) -> bool {
        match (self, o) {
            (EvictionMapPolicy::Lru(_), LocalObjectPolicy::Lru(_)) => true,
            (EvictionMapPolicy::Fifo(_), LocalObjectPolicy::Fifo(_)) => true,
            (EvictionMapPolicy::Lfu(_), LocalObjectPolicy::Lfu(_)) => true,
            (EvictionMapPolicy::TwoQ(_), LocalObjectPolicy::TwoQ(_)) => true,
            _ => false,
        }
    }

    /// Projects the object into this policy's local view at one cache
    /// size, ready for stack reconstruction.
    pub fn as_local_object(&self, object: &Object, cache_size: u64) -> (r: LocalObjectPolicy)
        requires
            self.wf(),
        ensures
            r.spec_key() == object.key,
            r.spec_size() == object.size,
            r.spec_resident() == self.spec_exists_at(cache_size),
            self.variant_matches(r),
    {
        match self {
            EvictionMapPolicy::Lru(m) => LocalObjectPolicy::Lru(
                LruLocalObject {
                    key: object.key,
                    size: object.size,
                    timestamp: object.timestamp,
                    resident: m.exists_at(cache_size),
                },
            ),
            EvictionMapPolicy::Fifo(m) => LocalObjectPolicy::Fifo(
                FifoLocalObject {
                    key: object.key,
                    size: object.size,
                    inserted_timestamp: m.timestamp_at(cache_size),
                },
            ),
            EvictionMapPolicy::Lfu(m) => LocalObjectPolicy::Lfu(
                LfuLocalObject {
                    key: object.key,
                    size: object.size,
                    timestamp: object.timestamp,
                    count: m.count_at(cache_size),
                },
            ),
            EvictionMapPolicy::TwoQ(m) => LocalObjectPolicy::TwoQ(
                TwoQLocalObject {
                    key: object.key,
                    size: object.size,
                    timestamp: object.timestamp,
                    stack_location: m.stack_location_at(cache_size),
                },
            ),
        }
    }
}

} // verus!
