use vstd::prelude::*;
use crate::access::{Access, Key};
use crate::cache::{
    contains_key, counter_after_increment, counter_rescaled, distinct_keys, find_key,
    increment_counter, lemma_total_size_nonneg, lemma_total_size_push, lemma_total_size_remove,
    miss_ratio_bits, miss_ratio_spec, rescale_counter, total_size, Object,
};
use crate::frac::Frac;
use crate::{COUNT_CAP, RATIO_ONE, SHARDS_MODULUS};

verus! {

/// No key occurs in both sequences.
pub open spec fn disjoint_keys(a: Seq<Object>, b: Seq<Object>) -> bool {
    forall|i: int, j: int|
        0 <= i < a.len() && 0 <= j < b.len() ==> a[i].key != b[j].key
}

/// A 2Q cache: new objects enter the probation queue `ain`; objects
/// demoted from `ain` wait in `aout`; a hit in `aout` promotes the
/// object into the protected queue `am`.  Each queue's front is its
/// next victim, its back the most recent entry.
pub struct TwoQCache {
    pub max_size: u64,
    pub kin: Frac,
    pub kout: Frac,
    pub count: u128,
    pub hits: u128,
    pub ain: Vec<Object>,
    pub ain_size: u64,
    pub aout: Vec<Object>,
    pub aout_size: u64,
    pub am: Vec<Object>,
    pub am_size: u64,
}

impl TwoQCache {
    /// Whether a key is resident in any of the three queues.
    pub open spec fn spec_contains(&self, k: Key) -> bool {
        contains_key(self.ain@, k) || contains_key(self.aout@, k) || contains_key(self.am@, k)
    }

    pub open spec fn spec_total(&self) -> int {
        self.ain_size + self.aout_size + self.am_size
    }

    pub open spec fn wf(&self) -> bool {
        &&& self.ain_size == total_size(self.ain@)
        &&& self.aout_size == total_size(self.aout@)
        &&& self.am_size == total_size(self.am@)
        &&& self.spec_total() <= self.max_size
        &&& distinct_keys(self.ain@)
        &&& distinct_keys(self.aout@)
        &&& distinct_keys(self.am@)
        &&& disjoint_keys(self.ain@, self.aout@)
        &&& disjoint_keys(self.ain@, self.am@)
        &&& disjoint_keys(self.aout@, self.am@)
        &&& self.kin.wf()
        &&& self.kout.wf()
        &&& self.kin.is_positive()
        &&& self.kout.is_positive()
        &&& self.kin.spec_sum_num(self.kout) <= self.kin.spec_sum_den(self.kout)
        &&& self.hits <= self.count
        &&& self.count <= COUNT_CAP
    }

    /// Builds an empty 2Q cache; the capacity fractions must be
    /// positive and sum to at most one.
    pub fn new(size: u64, kin: Frac, kout: Frac) -> (r: Option<TwoQCache>)
        ensures
            match r {
                Some(c) => {
                    &&& c.wf()
                    &&& c.max_size == size
                    &&& c.kin == kin
                    &&& c.kout == kout
                    &&& c.count == 0
                    &&& c.hits == 0
                    &&& c.ain@.len() == 0
                    &&& c.aout@.len() == 0
                    &&& c.am@.len() == 0
                },
                None => !(kin.wf() && kout.wf() && kin.is_positive() && kout.is_positive()
                    && kin.spec_sum_num(kout) <= kin.spec_sum_den(kout)),
            },
    {
        if kin.den < 1 || kin.den > crate::frac::FRAC_MAX_DEN || kin.num > kin.den || kin.num == 0 {
            return None;
        }
        if kout.den < 1 || kout.den > crate::frac::FRAC_MAX_DEN || kout.num > kout.den || kout.num
            == 0 {
            return None;
        }
        if !kin.sum_at_most_one(kout) {
            return None;
        }
        Some(
            TwoQCache {
                max_size: size,
                kin,
                kout,
                count: 0,
                hits: 0,
                ain: Vec::new(),
                ain_size: 0,
                aout: Vec::new(),
                aout_size: 0,
                am: Vec::new(),
                am_size: 0,
            },
        )
    }

    pub fn size(&self) -> (r: u64)
        ensures
            r == self.max_size,
    {
        self.max_size
    }

    pub fn current_size(&self) -> (r: u64)
        requires
            self.wf(),
        ensures
            r == self.spec_total(),
    {
        self.ain_size + self.aout_size + self.am_size
    }

    pub fn miss_ratio(&self) -> (r: u64)
        requires
            self.wf(),
        ensures
            r == miss_ratio_spec(self.count, self.hits),
            r <= RATIO_ONE,
    {
        miss_ratio_bits(self.count, self.hits)
    }

    pub fn increment_count(&mut self)
        requires
            old(self).wf(),
        ensures
            final(self).wf(),
            final(self).count == counter_after_increment(old(self).count),
            *final(self) == (TwoQCache { count: final(self).count, ..*old(self) }),
    {
        self.count = increment_counter(self.count);
    }

    pub fn increment_hits(&mut self)
        requires
            old(self).wf(),
            old(self).hits + crate::COUNT_UNIT <= old(self).count || old(self).count == COUNT_CAP,
        ensures
            final(self).wf(),
            final(self).hits == counter_after_increment(old(self).hits),
            *final(self) == (TwoQCache { hits: final(self).hits, ..*old(self) }),
    {
        self.hits = increment_counter(self.hits);
    }

    pub fn clear_counters(&mut self)
        requires
            old(self).wf(),
        ensures
            final(self).wf(),
            final(self).count == 0,
            final(self).hits == 0,
            *final(self) == (TwoQCache { count: 0, hits: 0, ..*old(self) }),
    {
        self.count = 0;
        self.hits = 0;
    }

    pub fn has(&self, key: Key) -> (r: bool)
        ensures
            r == self.spec_contains(key),
    {
        self.process_has(key)
    }

    pub fn process_has(&self, key: Key) -> (r: bool)
        ensures
            r == self.spec_contains(key),
    {
        find_key(&self.ain, key).is_some() || find_key(&self.aout, key).is_some() || find_key(
            &self.am,
            key,
        ).is_some()
    }

    /// A hit in `aout` promotes the object to the protected queue's
    /// recent end; a hit in `am` moves it to the recent end; a hit in
    /// the probation queue does not move it.
    pub fn process_get(&mut self, access: &Access) -> (r: bool)
        requires
            old(self).wf(),
        ensures
            final(self).wf(),
            r == old(self).spec_contains(access.key),
            r ==> final(self).spec_contains(access.key),
            !r ==> *final(self) == *old(self),
            contains_key(old(self).ain@, access.key) ==> *final(self) == *old(self),
            r && !contains_key(old(self).ain@, access.key) ==> contains_key(
                final(self).am@,
                access.key,
            ) && final(self).am@.len() > 0 && final(self).am@.last().key == access.key,
            final(self).count == old(self).count,
            final(self).hits == old(self).hits,
            final(self).max_size == old(self).max_size,
            final(self).spec_total() == old(self).spec_total(),
            final(self).kin == old(self).kin,
            final(self).kout == old(self).kout,
    {
        if find_key(&self.ain, access.key).is_some() {
            return true;
        }
        if let Some(i) = find_key(&self.aout, access.key) {
            let ghost a0 = self.aout@;
            let ghost m0 = self.am@;
            let obj = self.aout.remove(i);
            proof {
                lemma_total_size_remove(a0, i as int);
                lemma_total_size_nonneg(a0.remove(i as int));
                lemma_total_size_push(m0, a0[i as int]);
            }
            self.aout_size = self.aout_size - obj.size as u64;
            self.am_size = self.am_size + obj.size as u64;
            self.am.push(obj);
            proof {
                lemma_move_to_back_wf(a0, m0, i as int);
                assert(self.am@.last().key == access.key);
            }
            return true;
        }
        if let Some(i) = find_key(&self.am, access.key) {
            let ghost m0 = self.am@;
            let obj = self.am.remove(i);
            self.am.push(obj);
            proof {
                lemma_total_size_remove(m0, i as int);
                lemma_total_size_push(m0.remove(i as int), m0[i as int]);
                lemma_move_within_wf(m0, self.ain@, self.aout@, i as int);
                assert(self.am@.last().key == access.key);
            }
            return true;
        }
        false
    }

    /// Admits the object into the probation queue, evicting until it
    /// fits; rejects oversize objects and keys already present.
    pub fn process_set(&mut self, access: &Access)
        requires
            old(self).wf(),
        ensures
            final(self).wf(),
            access.size <= old(self).max_size ==> final(self).spec_contains(access.key),
            access.size <= old(self).max_size && !old(self).spec_contains(access.key)
                ==> contains_key(final(self).ain@, access.key),
            (access.size > old(self).max_size || old(self).spec_contains(access.key)) ==> (
            *final(self) == *old(self)),
            final(self).count == old(self).count,
            final(self).hits == old(self).hits,
            final(self).max_size == old(self).max_size,
            final(self).kin == old(self).kin,
            final(self).kout == old(self).kout,
    {
        if access.size as u64 > self.max_size {
            return ;
        }
        if self.has(access.key) {
            return ;
        }
        let target = self.max_size - access.size as u64;
        self.reduce(target);
        let obj = Object::new(access);
        proof {
            lemma_total_size_push(self.ain@, obj);
        }
        self.ain_size = self.ain_size + access.size as u64;
        self.ain.push(obj);
        proof {
            let a1 = self.ain@;
            assert(distinct_keys(a1) && disjoint_keys(a1, self.aout@) && disjoint_keys(
                a1,
                self.am@,
            )) by {
                assert(forall|j: int|
                    0 <= j < a1.len() - 1 ==> a1[j] == a1.drop_last()[j]);
                assert(a1.last() == obj);
            }
            assert(a1.last().key == access.key);
        }
    }

    pub fn process_del(&mut self, key: Key)
        requires
            old(self).wf(),
        ensures
            final(self).wf(),
            !final(self).spec_contains(key),
            final(self).count == old(self).count,
            final(self).hits == old(self).hits,
            final(self).max_size == old(self).max_size,
            final(self).kin == old(self).kin,
            final(self).kout == old(self).kout,
    {
        if let Some(i) = find_key(&self.ain, key) {
            let ghost s0 = self.ain@;
            let obj = self.ain.remove(i);
            proof {
                lemma_total_size_remove(s0, i as int);
                lemma_total_size_nonneg(s0.remove(i as int));
                lemma_remove_keeps_all(s0, self.aout@, self.am@, i as int, key);
            }
            self.ain_size = self.ain_size - obj.size as u64;
        } else if let Some(i) = find_key(&self.aout, key) {
            let ghost s0 = self.aout@;
            let obj = self.aout.remove(i);
            proof {
                lemma_total_size_remove(s0, i as int);
                lemma_total_size_nonneg(s0.remove(i as int));
                lemma_remove_keeps_all(s0, self.ain@, self.am@, i as int, key);
            }
            self.aout_size = self.aout_size - obj.size as u64;
        } else if let Some(i) = find_key(&self.am, key) {
            let ghost s0 = self.am@;
            let obj = self.am.remove(i);
            proof {
                lemma_total_size_remove(s0, i as int);
                lemma_total_size_nonneg(s0.remove(i as int));
                lemma_remove_keeps_all(s0, self.ain@, self.aout@, i as int, key);
            }
            self.am_size = self.am_size - obj.size as u64;
        }
    }

    pub fn del(&mut self, key: Key)
        requires
            old(self).wf(),
        ensures
            final(self).wf(),
            !final(self).spec_contains(key),
            final(self).count == old(self).count,
            final(self).hits == old(self).hits,
            final(self).max_size == old(self).max_size,
    {
        self.process_del(key);
    }

    /// The eviction cascade: demote probation objects that overflow the
    /// probation capacity, then evict from `aout` while it overflows
    /// its capacity or space is still needed, then evict from `am`.
    pub fn reduce(&mut self, target: u64)
        requires
            old(self).wf(),
        ensures
            final(self).wf(),
            final(self).spec_total() <= target,
            final(self).aout_size <= final(self).kout.spec_scale(final(self).max_size),
            final(self).ain_size + (if target < final(self).max_size {
                final(self).max_size - target
            } else {
                0
            }) <= final(self).kin.spec_scale(final(self).max_size) || final(self).ain@.len() == 0,
            final(self).count == old(self).count,
            final(self).hits == old(self).hits,
            final(self).max_size == old(self).max_size,
            final(self).kin == old(self).kin,
            final(self).kout == old(self).kout,
            forall|k: Key| final(self).spec_contains(k) ==> old(self).spec_contains(k),
    {
        let object_size: u64 = if target >= self.max_size {
            0
        } else {
            self.max_size - target
        };
        let ain_max = self.kin.scale(self.max_size);
        let aout_max = self.kout.scale(self.max_size);
        // Demote the oldest probation objects while the new object
        // cannot fit in the probation queue.
        while self.ain.len() > 0 && (self.ain_size as u128) + (object_size as u128) > (
        ain_max as u128)
            invariant
                self.wf(),
                self.max_size == old(self).max_size,
                self.count == old(self).count,
                self.hits == old(self).hits,
                self.kin == old(self).kin,
                self.kout == old(self).kout,
                self.spec_total() == old(self).spec_total(),
                ain_max == self.kin.spec_scale(self.max_size),
                forall|k: Key| self.spec_contains(k) ==> old(self).spec_contains(k),
            decreases self.ain@.len(),
        {
            let ghost s0 = self.ain@;
            let ghost t0 = self.aout@;
            let victim = self.ain.remove(0);
            proof {
                lemma_total_size_remove(s0, 0);
                lemma_total_size_nonneg(s0.remove(0));
                lemma_total_size_push(t0, s0[0]);
            }
            self.ain_size = self.ain_size - victim.size as u64;
            self.aout_size = self.aout_size + victim.size as u64;
            self.aout.push(victim);
            proof {
                lemma_move_to_back_wf(s0, t0, 0);
            }
        }
        // Evict from `aout` while it overflows or space is needed.
        while self.aout_size > aout_max || (self.aout.len() > 0 && self.ain_size + self.aout_size
            + self.am_size > target)
            invariant
                self.wf(),
                self.max_size == old(self).max_size,
                self.count == old(self).count,
                self.hits == old(self).hits,
                self.kin == old(self).kin,
                self.kout == old(self).kout,
                self.spec_total() <= old(self).spec_total(),
                self.ain_size <= target || self.ain@.len() == 0,
                object_size == if target >= self.max_size {
                    0
                } else {
                    self.max_size - target
                },
                ain_max == self.kin.spec_scale(self.max_size),
                aout_max == self.kout.spec_scale(self.max_size),
                self.ain_size + object_size <= ain_max || self.ain@.len() == 0,
                forall|k: Key| self.spec_contains(k) ==> old(self).spec_contains(k),
            decreases self.aout@.len(),
        {
            let ghost s0 = self.aout@;
            proof {
                if s0.len() == 0 {
                    assert(total_size(s0) == 0);
                }
                lemma_total_size_remove(s0, 0);
                lemma_total_size_nonneg(s0.remove(0));
            }
            let victim = self.aout.remove(0);
            proof {
                lemma_remove_keeps_all(s0, self.ain@, self.am@, 0, victim.key);
            }
            self.aout_size = self.aout_size - victim.size as u64;
        }
        // Evict from the protected queue until the contents fit.
        while self.ain_size + self.aout_size + self.am_size > target
            invariant
                self.wf(),
                self.max_size == old(self).max_size,
                self.count == old(self).count,
                self.hits == old(self).hits,
                self.kin == old(self).kin,
                self.kout == old(self).kout,
                self.spec_total() <= old(self).spec_total(),
                self.spec_total() > target ==> self.ain_size + self.aout_size <= target,
                object_size == if target >= self.max_size {
                    0
                } else {
                    self.max_size - target
                },
                ain_max == self.kin.spec_scale(self.max_size),
                aout_max == self.kout.spec_scale(self.max_size),
                self.ain_size + object_size <= ain_max || self.ain@.len() == 0,
                self.aout_size <= aout_max,
                forall|k: Key| self.spec_contains(k) ==> old(self).spec_contains(k),
            decreases self.am@.len(),
        {
            let ghost s0 = self.am@;
            proof {
                lemma_total_size_nonneg(s0);
                if s0.len() == 0 {
                    assert(total_size(s0) == 0);
                }
                lemma_total_size_remove(s0, 0);
                lemma_total_size_nonneg(s0.remove(0));
            }
            let victim = self.am.remove(0);
            proof {
                lemma_remove_keeps_all(s0, self.ain@, self.aout@, 0, victim.key);
            }
            self.am_size = self.am_size - victim.size as u64;
        }
    }

    pub fn resize(&mut self, size: u64)
        requires
            old(self).wf(),
        ensures
            final(self).wf(),
            final(self).max_size == size,
            final(self).spec_total() <= size,
            final(self).count == old(self).count,
            final(self).hits == old(self).hits,
    {
        self.reduce(size);
        self.max_size = size;
    }

    pub fn get(&mut self, access: &Access) -> (r: bool)
        requires
            old(self).wf(),
        ensures
            final(self).wf(),
            r == (access.size <= old(self).max_size && old(self).spec_contains(access.key)),
            access.size > old(self).max_size ==> *final(self) == *old(self),
            access.size <= old(self).max_size ==> final(self).count == counter_after_increment(
                old(self).count,
            ) && final(self).hits == if r {
                counter_after_increment(old(self).hits)
            } else {
                old(self).hits
            },
            r ==> final(self).spec_contains(access.key),
            final(self).max_size == old(self).max_size,
    {
        if access.size as u64 > self.max_size {
            return false;
        }
        self.increment_count();
        if self.process_get(access) {
            self.increment_hits();
            return true;
        }
        false
    }

    pub fn set(&mut self, access: &Access)
        requires
            old(self).wf(),
        ensures
            final(self).wf(),
            access.size <= old(self).max_size ==> final(self).spec_contains(access.key),
            access.size > old(self).max_size ==> *final(self) == *old(self),
            final(self).count == old(self).count,
            final(self).hits == old(self).hits,
            final(self).max_size == old(self).max_size,
    {
        if access.size as u64 > self.max_size {
            return ;
        }
        self.process_set(access);
    }

    pub fn handle_self_populating(&mut self, access: &Access) -> (r: bool)
        requires
            old(self).wf(),
        ensures
            final(self).wf(),
            r == (access.size <= old(self).max_size && old(self).spec_contains(access.key)),
            access.size > old(self).max_size ==> *final(self) == *old(self),
            access.size <= old(self).max_size ==> final(self).count == counter_after_increment(
                old(self).count,
            ) && final(self).hits == if r {
                counter_after_increment(old(self).hits)
            } else {
                old(self).hits
            },
            access.size <= old(self).max_size ==> final(self).spec_contains(access.key),
            final(self).max_size == old(self).max_size,
            final(self).hits <= final(self).count,
    {
        if self.get(access) {
            return true;
        }
        self.set(access);
        false
    }

    pub fn rescale(&mut self, num: u64, den: u64)
        requires
            old(self).wf(),
            num <= SHARDS_MODULUS,
            den >= 1,
            num <= den,
        ensures
            final(self).wf(),
            final(self).count == counter_rescaled(old(self).count, num, den),
            final(self).hits == counter_rescaled(old(self).hits, num, den),
            final(self).max_size == old(self).max_size,
    {
        proof {
            assert(self.hits * num / (den as int) <= self.count * num / (den as int))
                by (nonlinear_arith)
                requires
                    0 <= self.hits <= self.count,
                    0 <= num,
                    den >= 1,
            {}
        }
        self.count = rescale_counter(self.count, num, den);
        self.hits = rescale_counter(self.hits, num, den);
    }
}

/// Moving `src[i]` to the back of `dst` keeps distinctness and the
/// pairwise disjointness of the queues, for any third queue.
proof fn lemma_move_to_back_wf(src: Seq<Object>, dst: Seq<Object>, i: int)
    requires
        0 <= i < src.len(),
        distinct_keys(src),
        distinct_keys(dst),
        disjoint_keys(src, dst),
    ensures
        distinct_keys(src.remove(i)),
        distinct_keys(dst.push(src[i])),
        disjoint_keys(src.remove(i), dst.push(src[i])),
        forall|k: Key|
            contains_key(src.remove(i), k) || contains_key(dst.push(src[i]), k) ==> contains_key(
                src,
                k,
            ) || contains_key(dst, k),
{
    let s1 = src.remove(i);
    let d1 = dst.push(src[i]);
    assert forall|p: int, q: int| 0 <= p < q < s1.len() implies s1[p].key != s1[q].key by {
        let a = if p < i {
            p
        } else {
            p + 1
        };
        let b = if q < i {
            q
        } else {
            q + 1
        };
        assert(s1[p] == src[a] && s1[q] == src[b]);
    }
    assert forall|p: int, q: int| 0 <= p < q < d1.len() implies d1[p].key != d1[q].key by {
        if q == d1.len() - 1 {
            assert(d1[q] == src[i]);
            assert(d1[p] == dst[p]);
        }
    }
    assert forall|p: int, q: int|
        0 <= p < s1.len() && 0 <= q < d1.len() implies s1[p].key != d1[q].key by {
        let a = if p < i {
            p
        } else {
            p + 1
        };
        assert(s1[p] == src[a]);
        if q == d1.len() - 1 {
            assert(d1[q] == src[i]);
        } else {
            assert(d1[q] == dst[q]);
        }
    }
    assert forall|k: Key|
        contains_key(s1, k) || contains_key(d1, k) implies contains_key(src, k) || contains_key(
        dst,
        k,
    ) by {
        if contains_key(s1, k) {
            let p = choose|p: int| 0 <= p < s1.len() && s1[p].key == k;
            if p < i {
                assert(src[p].key == k);
            } else {
                assert(src[p + 1].key == k);
            }
        } else {
            let q = choose|q: int| 0 <= q < d1.len() && d1[q].key == k;
            if q == d1.len() - 1 {
                assert(src[i].key == k);
            } else {
                assert(dst[q].key == k);
            }
        }
    }
}

/// Moving `s[i]` to the back of the same queue keeps the queue's
/// distinctness and its disjointness from two other queues.
proof fn lemma_move_within_wf(s: Seq<Object>, o1: Seq<Object>, o2: Seq<Object>, i: int)
    requires
        0 <= i < s.len(),
        distinct_keys(s),
        disjoint_keys(o1, s),
        disjoint_keys(o2, s),
    ensures
        distinct_keys(s.remove(i).push(s[i])),
        disjoint_keys(o1, s.remove(i).push(s[i])),
        disjoint_keys(o2, s.remove(i).push(s[i])),
        forall|k: Key| contains_key(s.remove(i).push(s[i]), k) ==> contains_key(s, k),
        contains_key(s.remove(i).push(s[i]), s[i].key),
{
    let t = s.remove(i).push(s[i]);
    assert forall|p: int, q: int| 0 <= p < q < t.len() implies t[p].key != t[q].key by {
        let r = s.remove(i);
        if q == t.len() - 1 {
            assert(t[q] == s[i]);
            if p < i {
                assert(t[p] == s[p]);
            } else {
                assert(t[p] == s[p + 1]);
            }
        } else {
            let a = if p < i {
                p
            } else {
                p + 1
            };
            let b = if q < i {
                q
            } else {
                q + 1
            };
            assert(t[p] == s[a] && t[q] == s[b]);
        }
    }
    assert(t[t.len() - 1] == s[i]);
}

/// Removing an object keeps distinctness, subset of keys, and the
/// disjointness from two other queues; the removed front key is gone if
/// the queue was distinct.
proof fn lemma_remove_keeps_all(s: Seq<Object>, o1: Seq<Object>, o2: Seq<Object>, i: int, k: Key)
    requires
        0 <= i < s.len(),
        distinct_keys(s),
        s[i].key == k,
    ensures
        distinct_keys(s.remove(i)),
        !contains_key(s.remove(i), k),
        forall|kk: Key| contains_key(s.remove(i), kk) ==> contains_key(s, kk),
        disjoint_keys(s, o1) ==> disjoint_keys(s.remove(i), o1),
        disjoint_keys(s, o2) ==> disjoint_keys(s.remove(i), o2),
        disjoint_keys(o1, s) ==> disjoint_keys(o1, s.remove(i)),
        disjoint_keys(o2, s) ==> disjoint_keys(o2, s.remove(i)),
{
    let t = s.remove(i);
    assert forall|p: int, q: int| 0 <= p < q < t.len() implies t[p].key != t[q].key by {
        let a = if p < i {
            p
        } else {
            p + 1
        };
        let b = if q < i {
            q
        } else {
            q + 1
        };
        assert(t[p] == s[a] && t[q] == s[b]);
    }
    assert(!contains_key(t, k)) by {
        if contains_key(t, k) {
            let p = choose|p: int| 0 <= p < t.len() && t[p].key == k;
            let a = if p < i {
                p
            } else {
                p + 1
            };
            assert(t[p] == s[a] && a != i);
        }
    }
}

} // verus!
