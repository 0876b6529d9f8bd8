use vstd::prelude::*;
use crate::access::Access;
use crate::algorithm::Object;

verus! {

/// The LRU eviction map collapses to one scalar: the largest synthetic
/// cache size at which the object was last evicted.  The object is
/// resident exactly at cache sizes above it.
pub struct LruEvictionMap {
    pub evicted_size: u64,
}

impl LruEvictionMap {
    pub fn new(access: &Access) -> (r: LruEvictionMap)
        requires
            access.size >= 1,
        ensures
            r.evicted_size == access.size - 1,
    {
        LruEvictionMap { evicted_size: access.size as u64 - 1 }
    }

    /// Records a synthetic eviction at cache size `size`.
    pub fn insert(&mut self, size: u64)
        ensures
            final(self).evicted_size == size,
    {
        self.evicted_size = size;
    }

    /// Resident at `size` exactly when the last eviction happened at a
    /// smaller cache.
    pub fn exists_at(&self, size: u64) -> (r: bool)
        ensures
            r == (self.evicted_size < size),
    {
        self.evicted_size < size
    }

    /// The reuse distance to record on a re-access: the last eviction
    /// size, or the object's own size if never evicted.
    pub fn reuse_distance(&self, object: &Object) -> (r: u64)
        ensures
            r == if self.evicted_size > 0 {
                self.evicted_size
            } else {
                object.size as u64
            },
    {
        if self.evicted_size > 0 {
            self.evicted_size
        } else {
            object.size as u64
        }
    }

    /// A re-access makes the object resident at every cache that can
    /// hold it.
    pub fn update(&mut self, access: &Access)
        requires
            access.size >= 1,
        ensures
            final(self).evicted_size == access.size - 1,
    {
        self.evicted_size = access.size as u64 - 1;
    }
}

/// After a re-access, the object is resident at every cache size that
/// can hold it (all sizes from the object's size up), and after a
/// synthetic eviction at `k` it is absent at all sizes up to `k`.
pub proof fn lemma_lru_map_update_insert(
    m1: LruEvictionMap,
    m2: LruEvictionMap,
    a: Access,
    k: u64,
    s: u64,
)
    requires
        a.size >= 1,
        m1.evicted_size == a.size - 1,
        m2.evicted_size == k,
    ensures
        s >= a.size ==> m1.evicted_size < s,
        s <= k ==> !(m2.evicted_size < s),
{
}

} // verus!
