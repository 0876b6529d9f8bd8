use vstd::prelude::*;
use crate::access::{Access, Key};
use crate::cache::{
    contains_key, counter_after_increment, counter_rescaled, distinct_keys, evict_from_front,
    evict_until, find_key, increment_counter, key_index, lemma_evict_from_front_fits,
    lemma_evict_from_front_subset, lemma_total_size_push, lemma_total_size_remove,
    miss_ratio_bits, miss_ratio_spec, rescale_counter, total_size, Object,
};
use crate::{COUNT_CAP, RATIO_ONE, SHARDS_MODULUS};

verus! {

/// A least-recently-used cache: a recency stack whose front is the next
/// victim and whose back is the most recently used object.
pub struct LruCache {
    pub max_size: u64,
    pub current_size: u64,
    pub count: u128,
    pub hits: u128,
    pub stack: Vec<Object>,
}

/// The recency stack after a hit on `k`: the object moves to the back.
pub open spec fn lru_touch(s: Seq<Object>, k: Key) -> Seq<Object> {
    if contains_key(s, k) {
        let i = key_index(s, k);
        s.remove(i).push(s[i])
    } else {
        s
    }
}

/// The recency stack after admitting `a`: oversize or already-present
/// accesses change nothing; otherwise evict until the object fits,
/// then push it as most recent.
pub open spec fn lru_admit(s: Seq<Object>, max: u64, a: Access) -> Seq<Object> {
    if a.size > max || contains_key(s, a.key) {
        s
    } else {
        evict_from_front(s, max - a.size).push(Object { key: a.key, size: a.size })
    }
}

impl LruCache {
    /// The recency-ordered contents, next victim first.
    pub open spec fn view_stack(&self) -> Seq<Object> {
        self.stack@
    }

    pub open spec fn spec_count(&self) -> u128 {
        self.count
    }

    pub open spec fn spec_hits(&self) -> u128 {
        self.hits
    }

    pub open spec fn spec_max_size(&self) -> u64 {
        self.max_size
    }

    pub open spec fn spec_current_size(&self) -> u64 {
        self.current_size
    }

    /// Structural well-formedness: the tracked size is the stack's
    /// total, the contents fit in the cache, keys are unique, and the
    /// counters are in range.
    pub open spec fn wf(&self) -> bool {
        &&& self.current_size == total_size(self.stack@)
        &&& total_size(self.stack@) <= self.max_size
        &&& distinct_keys(self.stack@)
        &&& self.hits <= self.count
        &&& self.count <= COUNT_CAP
    }

    pub fn new(size: u64) -> (r: LruCache)
        ensures
            r.wf(),
            r.spec_max_size() == size,
            r.view_stack() == Seq::<Object>::empty(),
            r.spec_count() == 0,
            r.spec_hits() == 0,
    {
        LruCache { max_size: size, current_size: 0, count: 0, hits: 0, stack: Vec::new() }
    }

    pub fn size(&self) -> (r: u64)
        ensures
            r == self.spec_max_size(),
    {
        self.max_size
    }

    /// The miss ratio in `RATIO_ONE` fixed point, always in `[0, 1]`.
    pub fn miss_ratio(&self) -> (r: u64)
        requires
            self.wf(),
        ensures
            r == miss_ratio_spec(self.spec_count(), self.spec_hits()),
            r <= RATIO_ONE,
    {
        miss_ratio_bits(self.count, self.hits)
    }

    pub fn increment_count(&mut self)
        requires
            old(self).wf(),
        ensures
            final(self).wf(),
            final(self).count == counter_after_increment(old(self).count),
            final(self).hits == old(self).hits,
            final(self).view_stack() == old(self).view_stack(),
            final(self).max_size == old(self).max_size,
            final(self).current_size == old(self).current_size,
    {
        self.count = increment_counter(self.count);
    }

    pub fn increment_hits(&mut self)
        requires
            old(self).wf(),
            old(self).hits + crate::COUNT_UNIT <= old(self).count || old(self).count == COUNT_CAP,
        ensures
            final(self).wf(),
            final(self).hits == counter_after_increment(old(self).hits),
            final(self).count == old(self).count,
            final(self).view_stack() == old(self).view_stack(),
            final(self).max_size == old(self).max_size,
            final(self).current_size == old(self).current_size,
    {
        self.hits = increment_counter(self.hits);
    }

    pub fn clear_counters(&mut self)
        requires
            old(self).wf(),
        ensures
            final(self).wf(),
            final(self).count == 0,
            final(self).hits == 0,
            final(self).view_stack() == old(self).view_stack(),
            final(self).max_size == old(self).max_size,
    {
        self.count = 0;
        self.hits = 0;
    }

    /// Whether the key is resident.
    pub fn has(&self, key: Key) -> (r: bool)
        ensures
            r == contains_key(self.view_stack(), key),
    {
        self.process_has(key)
    }

    pub fn process_has(&self, key: Key) -> (r: bool)
        ensures
            r == contains_key(self.view_stack(), key),
    {
        find_key(&self.stack, key).is_some()
    }

    /// On a hit, moves the object to the most-recent end.
    pub fn process_get(&mut self, access: &Access) -> (r: bool)
        requires
            old(self).wf(),
        ensures
            final(self).wf(),
            r == contains_key(old(self).view_stack(), access.key),
            final(self).view_stack() == lru_touch(old(self).view_stack(), access.key),
            final(self).count == old(self).count,
            final(self).hits == old(self).hits,
            final(self).max_size == old(self).max_size,
            final(self).current_size == old(self).current_size,
    {
        match find_key(&self.stack, access.key) {
            Some(i) => {
                let ghost s0 = self.stack@;
                let obj = self.stack.remove(i);
                self.stack.push(obj);
                proof {
                    lemma_total_size_remove(s0, i as int);
                    lemma_total_size_push(s0.remove(i as int), obj);
                    assert(!contains_key(s0.remove(i as int), access.key)) by {
                        if contains_key(s0.remove(i as int), access.key) {
                            let j = choose|j: int|
                                0 <= j < s0.remove(i as int).len() && s0.remove(
                                    i as int,
                                )[j].key == access.key;
                            if j < i {
                                assert(s0[j].key == access.key);
                            } else {
                                assert(s0[j + 1].key == access.key);
                            }
                        }
                    }
                    assert(distinct_keys(self.stack@)) by {
                        let s1 = s0.remove(i as int);
                        assert forall|p: int, q: int|
                            0 <= p < q < s1.push(obj).len() implies s1.push(obj)[p].key != s1.push(
                            obj,
                        )[q].key by {
                            if q < s1.len() {
                                assert(distinct_keys(s1));
                            } else {
                                assert(s1.push(obj)[q] == obj);
                                assert(s1.push(obj)[p] == s1[p]);
                            }
                        }
                    }
                }
                true
            },
            None => false,
        }
    }

    /// Admits the object, evicting least-recent objects until it fits;
    /// rejects oversize objects and keys already present.  A small
    /// enough object is always resident afterwards.
    pub fn process_set(&mut self, access: &Access)
        requires
            old(self).wf(),
        ensures
            final(self).wf(),
            final(self).view_stack() == lru_admit(
                old(self).view_stack(),
                old(self).max_size,
                *access,
            ),
            access.size <= old(self).max_size ==> contains_key(
                final(self).view_stack(),
                access.key,
            ),
            final(self).count == old(self).count,
            final(self).hits == old(self).hits,
            final(self).max_size == old(self).max_size,
    {
        if access.size as u64 > self.max_size {
            return ;
        }
        if self.has(access.key) {
            proof {
                let i = choose|i: int|
                    0 <= i < self.stack@.len() && self.stack@[i].key == access.key;
                assert(contains_key(self.stack@, access.key));
            }
            return ;
        }
        let target = self.max_size - access.size as u64;
        let ghost s0 = self.stack@;
        evict_until(&mut self.stack, &mut self.current_size, target);
        let obj = Object::new(access);
        self.stack.push(obj);
        self.current_size = self.current_size + access.size as u64;
        proof {
            let evicted = evict_from_front(s0, target as int);
            lemma_evict_from_front_fits(s0, target as int);
            lemma_total_size_push(evicted, obj);
            assert(!contains_key(evicted, access.key)) by {
                if contains_key(evicted, access.key) {
                    lemma_evict_from_front_subset(s0, target as int, access.key);
                }
            }
            assert(distinct_keys(self.stack@)) by {
                assert forall|p: int, q: int|
                    0 <= p < q < evicted.push(obj).len() implies evicted.push(obj)[p].key
                    != evicted.push(obj)[q].key by {
                    if q < evicted.len() {
                        assert(distinct_keys(evicted));
                    } else {
                        assert(evicted.push(obj)[q] == obj);
                        assert(evicted.push(obj)[p] == evicted[p]);
                        if evicted[p].key == obj.key {
                            assert(contains_key(evicted, access.key));
                        }
                    }
                }
            }
        }
    }

    /// Removes the object with the given key, if resident.
    pub fn process_del(&mut self, key: Key)
        requires
            old(self).wf(),
        ensures
            final(self).wf(),
            final(self).view_stack() == if contains_key(old(self).view_stack(), key) {
                old(self).view_stack().remove(key_index(old(self).view_stack(), key))
            } else {
                old(self).view_stack()
            },
            !contains_key(final(self).view_stack(), key),
            final(self).count == old(self).count,
            final(self).hits == old(self).hits,
            final(self).max_size == old(self).max_size,
    {
        match find_key(&self.stack, key) {
            Some(i) => {
                let ghost s0 = self.stack@;
                let obj = self.stack.remove(i);
                proof {
                    lemma_total_size_remove(s0, i as int);
                    crate::cache::lemma_total_size_nonneg(s0.remove(i as int));
                }
                self.current_size = self.current_size - obj.size as u64;
                proof {
                    assert(distinct_keys(self.stack@)) by {
                        assert forall|p: int, q: int|
                            0 <= p < q < self.stack@.len() implies self.stack@[p].key
                            != self.stack@[q].key by {
                            let a = if p < i { p } else { p + 1 };
                            let b = if q < i { q } else { q + 1 };
                            assert(self.stack@[p] == s0[a] && self.stack@[q] == s0[b]);
                        }
                    }
                    assert(!contains_key(self.stack@, key)) by {
                        if contains_key(self.stack@, key) {
                            let j = choose|j: int|
                                0 <= j < self.stack@.len() && self.stack@[j].key == key;
                            if j < i {
                                assert(s0[j].key == key);
                            } else {
                                assert(s0[j + 1].key == key);
                            }
                        }
                    }
                }
            },
            None => {},
        }
    }

    pub fn del(&mut self, key: Key)
        requires
            old(self).wf(),
        ensures
            final(self).wf(),
            !contains_key(final(self).view_stack(), key),
            final(self).count == old(self).count,
            final(self).hits == old(self).hits,
            final(self).max_size == old(self).max_size,
    {
        self.process_del(key);
    }

    /// A get counts one access; it hits exactly when the key is
    /// resident and the object is not larger than the cache.
    pub fn get(&mut self, access: &Access) -> (r: bool)
        requires
            old(self).wf(),
        ensures
            final(self).wf(),
            r == (access.size <= old(self).max_size && contains_key(
                old(self).view_stack(),
                access.key,
            )),
            access.size > old(self).max_size ==> *final(self) == *old(self),
            access.size <= old(self).max_size ==> {
                &&& final(self).count == counter_after_increment(old(self).count)
                &&& final(self).hits == if r {
                    counter_after_increment(old(self).hits)
                } else {
                    old(self).hits
                }
                &&& final(self).view_stack() == lru_touch(old(self).view_stack(), access.key)
            },
            final(self).max_size == old(self).max_size,
    {
        if access.size as u64 > self.max_size {
            return false;
        }
        self.increment_count();
        if self.process_get(access) {
            self.increment_hits();
            return true;
        }
        false
    }

    /// A set admits the object unless it is larger than the cache.
    pub fn set(&mut self, access: &Access)
        requires
            old(self).wf(),
        ensures
            final(self).wf(),
            final(self).view_stack() == lru_admit(
                old(self).view_stack(),
                old(self).max_size,
                *access,
            ),
            access.size <= old(self).max_size ==> contains_key(
                final(self).view_stack(),
                access.key,
            ),
            access.size > old(self).max_size ==> *final(self) == *old(self),
            final(self).count == old(self).count,
            final(self).hits == old(self).hits,
            final(self).max_size == old(self).max_size,
    {
        if access.size as u64 > self.max_size {
            return ;
        }
        self.process_set(access);
    }

    /// A read-through access: a get, then a set on a miss.
    pub fn handle_self_populating(&mut self, access: &Access) -> (r: bool)
        requires
            old(self).wf(),
        ensures
            final(self).wf(),
            r == (access.size <= old(self).max_size && contains_key(
                old(self).view_stack(),
                access.key,
            )),
            access.size > old(self).max_size ==> *final(self) == *old(self),
            access.size <= old(self).max_size ==> {
                &&& final(self).count == counter_after_increment(old(self).count)
                &&& final(self).hits == if r {
                    counter_after_increment(old(self).hits)
                } else {
                    old(self).hits
                }
                &&& final(self).view_stack() == if r {
                    lru_touch(old(self).view_stack(), access.key)
                } else {
                    lru_admit(old(self).view_stack(), old(self).max_size, *access)
                }
            },
            access.size <= old(self).max_size ==> contains_key(
                final(self).view_stack(),
                access.key,
            ),
            final(self).max_size == old(self).max_size,
            final(self).hits <= final(self).count,
    {
        if self.get(access) {
            proof {
                lemma_touch_contains(old(self).stack@, access.key);
            }
            return true;
        }
        self.set(access);
        false
    }

    /// Evicts least-recent objects until the contents fit in `target`.
    pub fn reduce(&mut self, target: u64)
        requires
            old(self).wf(),
        ensures
            final(self).wf(),
            final(self).view_stack() == evict_from_front(old(self).view_stack(), target as int),
            final(self).current_size <= target,
            final(self).count == old(self).count,
            final(self).hits == old(self).hits,
            final(self).max_size == old(self).max_size,
    {
        let ghost s0 = self.stack@;
        evict_until(&mut self.stack, &mut self.current_size, target);
        proof {
            lemma_evict_from_front_fits(s0, target as int);
        }
    }

    /// Shrinks (or grows) the cache to `size`, evicting as needed.
    pub fn resize(&mut self, size: u64)
        requires
            old(self).wf(),
        ensures
            final(self).wf(),
            final(self).max_size == size,
            final(self).view_stack() == evict_from_front(old(self).view_stack(), size as int),
            final(self).count == old(self).count,
            final(self).hits == old(self).hits,
    {
        self.reduce(size);
        self.max_size = size;
    }

    /// Multiplies both counters by the exact ratio `num / den`, as when
    /// the sampling threshold drops from `den` to `num`.
    pub fn rescale(&mut self, num: u64, den: u64)
        requires
            old(self).wf(),
            num <= SHARDS_MODULUS,
            den >= 1,
            num <= den,
        ensures
            final(self).wf(),
            final(self).count == counter_rescaled(old(self).count, num, den),
            final(self).hits == counter_rescaled(old(self).hits, num, den),
            final(self).view_stack() == old(self).view_stack(),
            final(self).max_size == old(self).max_size,
    {
        proof {
            assert(self.hits * num / (den as int) <= self.count * num / (den as int))
                by (nonlinear_arith)
                requires
                    0 <= self.hits <= self.count,
                    0 <= num,
                    den >= 1,
            {}
        }
        self.count = rescale_counter(self.count, num, den);
        self.hits = rescale_counter(self.hits, num, den);
    }
}

/// A hit keeps the key resident: touching moves it to the recent end.
pub proof fn lemma_touch_contains(s: Seq<Object>, k: Key)
    requires
        contains_key(s, k),
    ensures
        contains_key(lru_touch(s, k), k),
{
    crate::cache::lemma_key_index_works(s, k);
    let i = key_index(s, k);
    let t = s.remove(i).push(s[i]);
    assert(t[t.len() - 1].key == k);
}

/// A round trip `set` then `has` finds the key unless the object is
/// larger than the cache.
pub proof fn lemma_set_then_has(s: Seq<Object>, max: u64, a: Access)
    requires
        a.size <= max,
    ensures
        contains_key(lru_admit(s, max, a), a.key),
{
    if !contains_key(s, a.key) {
        let t = evict_from_front(s, max - a.size).push(Object { key: a.key, size: a.size });
        assert(t[t.len() - 1].key == a.key);
    }
}

/// A get right after a successful set is a hit: the admitted key is
/// resident, so the hit condition of `get` holds.
pub proof fn lemma_set_then_get_hits(s: Seq<Object>, max: u64, a: Access)
    requires
        a.size <= max,
    ensures
        contains_key(lru_admit(s, max, a), a.key) && a.size <= max,
{
    lemma_set_then_has(s, max, a);
}

} // verus!
