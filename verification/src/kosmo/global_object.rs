use vstd::prelude::*;
use crate::access::{Access, Key};
use crate::algorithm::Object;
use crate::kosmo::eviction_map::EvictionMapPolicy;
use crate::kosmo::policy::KosmoPolicy;

verus! {

/// One object as the Kosmo driver tracks it: its latest access and
/// one eviction map per configured policy.
pub struct GlobalObject {
    pub object: Object,
    pub eviction_maps: Vec<EvictionMapPolicy>,
}

pub open spec fn maps_wf(s: Seq<EvictionMapPolicy>) -> bool {
    forall|i: int| 0 <= i < s.len() ==> (#[trigger] s[i]).wf()
}

impl GlobalObject {
    pub open spec fn wf(&self) -> bool {
        &&& maps_wf(self.eviction_maps@)
        &&& self.object.size >= 1
    }

    pub fn new(access: &Access, policies: &Vec<KosmoPolicy>) -> (r: GlobalObject)
        requires
            access.size >= 1,
            forall|i: int| 0 <= i < policies@.len() ==> (#[trigger] policies@[i]).wf(),
        ensures
            r.wf(),
            r.object.key == access.key,
            r.object.size == access.size,
            r.object.timestamp == access.timestamp,
            r.eviction_maps@.len() == policies@.len(),
    {
        let mut eviction_maps: Vec<EvictionMapPolicy> = Vec::new();
        let mut i: usize = 0;
        let n = policies.len();
        while i < n
            invariant
                i <= n,
                n == policies@.len(),
                forall|j: int| 0 <= j < n ==> (#[trigger] policies@[j]).wf(),
                access.size >= 1,
                eviction_maps@.len() == i,
                maps_wf(eviction_maps@),
            decreases n - i,
        {
            let ghost e0 = eviction_maps@;
            let m = EvictionMapPolicy::new(&policies[i], access);
            eviction_maps.push(m);
            proof {
                assert forall|j: int|
                    0 <= j < eviction_maps@.len() implies (#[trigger] eviction_maps@[j]).wf() by {
                    if j < e0.len() {
                        assert(eviction_maps@[j] == e0[j]);
                    }
                }
            }
            i = i + 1;
        }
        GlobalObject { object: Object::new(access), eviction_maps }
    }

    pub fn object(&self) -> (r: &Object)
        ensures
            r == self.object,
    {
        &self.object
    }

    pub fn eviction_maps(&self) -> (r: &Vec<EvictionMapPolicy>)
        ensures
            r == self.eviction_maps,
    {
        &self.eviction_maps
    }

    /// The per-policy reuse distances to record when this object is
    /// re-accessed now.
    pub fn reuse_distances(&self) -> (r: Vec<Option<u64>>)
        requires
            self.wf(),
        ensures
            r@.len() == self.eviction_maps@.len(),
            forall|i: int|
                0 <= i < r@.len() ==> (#[trigger] r@[i]) == Some(
                    self.eviction_maps@[i].spec_reuse_distance(self.object),
                ),
    {
        let mut out: Vec<Option<u64>> = Vec::new();
        let mut i: usize = 0;
        let n = self.eviction_maps.len();
        while i < n
            invariant
                i <= n,
                n == self.eviction_maps@.len(),
                self.wf(),
                out@.len() == i,
                forall|j: int|
                    0 <= j < i ==> (#[trigger] out@[j]) == Some(
                        self.eviction_maps@[j].spec_reuse_distance(self.object),
                    ),
            decreases n - i,
        {
            let d = self.eviction_maps[i].reuse_distance(&self.object);
            let ghost o0 = out@;
            out.push(Some(d));
            proof {
                assert(forall|j: int| 0 <= j < o0.len() ==> out@[j] == o0[j]);
            }
            i = i + 1;
        }
        out
    }

    /// A re-access refreshes the object and every eviction map.
    pub fn update(&mut self, access: &Access)
        requires
            old(self).wf(),
            access.size >= 1,
        ensures
            final(self).wf(),
            final(self).object.key == old(self).object.key,
            final(self).object.size == old(self).object.size,
            final(self).object.timestamp == access.timestamp,
            final(self).eviction_maps@.len() == old(self).eviction_maps@.len(),
            forall|i: int|
                0 <= i < final(self).eviction_maps@.len() ==> EvictionMapPolicy::update_rel(
                    old(self).eviction_maps@[i],
                    #[trigger] final(self).eviction_maps@[i],
                    *access,
                ),
    {
        self.object.update(access);
        let n = self.eviction_maps.len();
        let mut i: usize = 0;
        while i < n
            invariant
                i <= n,
                n == self.eviction_maps@.len(),
                access.size >= 1,
                maps_wf(self.eviction_maps@),
                self.object.key == old(self).object.key,
                self.object.size == old(self).object.size,
                self.object.size >= 1,
                self.object.timestamp == access.timestamp,
                forall|j: int|
                    0 <= j < i ==> EvictionMapPolicy::update_rel(
                        old(self).eviction_maps@[j],
                        #[trigger] self.eviction_maps@[j],
                        *access,
                    ),
                forall|j: int|
                    i <= j < n ==> (#[trigger] self.eviction_maps@[j]) == old(
                        self,
                    ).eviction_maps@[j],
            decreases n - i,
        {
            let ghost e0 = self.eviction_maps@;
            let m = &mut self.eviction_maps[i];
            m.update(access);
            proof {
                assert forall|j: int|
                    0 <= j < self.eviction_maps@.len() implies (#[trigger] self.eviction_maps@[j]).wf() by {
                    if j != i {
                        assert(self.eviction_maps@[j] == e0[j]);
                    }
                }
            }
            i = i + 1;
        }
    }

    /// Records a synthetic eviction for one policy at one cache size.
    pub fn evict_by_policy_index(&mut self, index: usize, cache_size: u64)
        requires
            old(self).wf(),
            index < old(self).eviction_maps@.len(),
            cache_size < u64::MAX,
        ensures
            final(self).wf(),
            final(self).object == old(self).object,
            final(self).eviction_maps@.len() == old(self).eviction_maps@.len(),
            EvictionMapPolicy::insert_rel(
                old(self).eviction_maps@[index as int],
                final(self).eviction_maps@[index as int],
                cache_size,
            ),
            forall|i: int|
                0 <= i < final(self).eviction_maps@.len() && i != index ==> (
                #[trigger] final(self).eviction_maps@[i]) == old(self).eviction_maps@[i],
    {
        let ghost e0 = self.eviction_maps@;
        let m = &mut self.eviction_maps[index];
        m.insert(cache_size);
        proof {
            assert forall|j: int|
                0 <= j < self.eviction_maps@.len() implies (#[trigger] self.eviction_maps@[j]).wf() by {
                if j != index {
                    assert(self.eviction_maps@[j] == e0[j]);
                }
            }
        }
    }

    /// Whether any policy still holds the object at cache `size`.
    pub fn exists_at(&self, size: u64) -> (r: bool)
        requires
            self.wf(),
        ensures
            r == exists|i: int|
                0 <= i < self.eviction_maps@.len() && (#[trigger] self.eviction_maps@[i]).spec_exists_at(size),
    {
        let n = self.eviction_maps.len();
        let mut i: usize = 0;
        while i < n
            invariant
                i <= n,
                n == self.eviction_maps@.len(),
                self.wf(),
                forall|j: int|
                    0 <= j < i ==> !(#[trigger] self.eviction_maps@[j]).spec_exists_at(size),
            decreases n - i,
        {
            if self.eviction_maps[i].exists_at(size) {
                return true;
            }
            i = i + 1;
        }
        false
    }
}

} // verus!
