use vstd::prelude::*;
use crate::access::{Access, Key};
use crate::cache::{
    counter_after_increment, counter_rescaled, increment_counter, miss_ratio_bits,
    miss_ratio_spec, rescale_counter, Object,
};
use crate::{COUNT_CAP, RATIO_ONE, SHARDS_MODULUS};

verus! {

/// An entry of the LFU stack: the object and how often it was hit.
#[derive(Debug, Clone, Copy)]
pub struct LfuEntry {
    pub obj: Object,
    pub freq: u64,
}

/// A least-frequently-used cache.  The stack is kept sorted by
/// ascending frequency; among equal frequencies the least recently
/// promoted object stands first.  The front is the next victim.
pub struct LfuCache {
    pub max_size: u64,
    pub current_size: u64,
    pub count: u128,
    pub hits: u128,
    pub entries: Vec<LfuEntry>,
}

pub open spec fn lfu_total_size(s: Seq<LfuEntry>) -> int
    decreases s.len(),
{
    if s.len() == 0 {
        0
    } else {
        lfu_total_size(s.drop_last()) + s.last().obj.size
    }
}

pub open spec fn lfu_contains_key(s: Seq<LfuEntry>, k: Key) -> bool {
    exists|i: int| 0 <= i < s.len() && s[i].obj.key == k
}

pub open spec fn lfu_distinct_keys(s: Seq<LfuEntry>) -> bool {
    forall|i: int, j: int| 0 <= i < j < s.len() ==> s[i].obj.key != s[j].obj.key
}

/// Frequencies never decrease along the stack.
pub open spec fn lfu_sorted(s: Seq<LfuEntry>) -> bool {
    forall|i: int, j: int| 0 <= i < j < s.len() ==> s[i].freq <= s[j].freq
}

/// The stack after evicting front entries until the total fits.
pub open spec fn lfu_evict_from_front(s: Seq<LfuEntry>, target: int) -> Seq<LfuEntry>
    decreases s.len(),
{
    if lfu_total_size(s) <= target || s.len() == 0 {
        s
    } else {
        lfu_evict_from_front(s.subrange(1, s.len() as int), target)
    }
}

/// The first index holding key `k` (meaningful when present).
pub open spec fn lfu_key_index(s: Seq<LfuEntry>, k: Key) -> int
    decreases s.len(),
{
    if s.len() == 0 {
        0
    } else if s[0].obj.key == k {
        0
    } else {
        1 + lfu_key_index(s.subrange(1, s.len() as int), k)
    }
}

/// The place where a promoted or new entry of frequency `f` is put:
/// right after every entry whose frequency is at most `f`.
pub open spec fn lfu_slot(s: Seq<LfuEntry>, f: u64) -> int
    decreases s.len(),
{
    if s.len() == 0 || s[0].freq > f {
        0
    } else {
        1 + lfu_slot(s.subrange(1, s.len() as int), f)
    }
}

pub proof fn lemma_lfu_total_size_nonneg(s: Seq<LfuEntry>)
    ensures
        0 <= lfu_total_size(s),
    decreases s.len(),
{
    if s.len() > 0 {
        lemma_lfu_total_size_nonneg(s.drop_last());
    }
}

pub proof fn lemma_lfu_total_size_drop_front(s: Seq<LfuEntry>)
    requires
        s.len() > 0,
    ensures
        lfu_total_size(s.subrange(1, s.len() as int)) == lfu_total_size(s) - s[0].obj.size,
    decreases s.len(),
{
    let tail = s.subrange(1, s.len() as int);
    if s.len() == 1 {
        assert(tail =~= Seq::<LfuEntry>::empty());
        assert(s.drop_last() =~= Seq::<LfuEntry>::empty());
        assert(lfu_total_size(Seq::<LfuEntry>::empty()) == 0);
    } else {
        let head = s.drop_last();
        assert(tail.drop_last() =~= head.subrange(1, head.len() as int));
        assert(tail.last() == s.last());
        lemma_lfu_total_size_drop_front(head);
        assert(lfu_total_size(tail) == lfu_total_size(tail.drop_last()) + tail.last().obj.size);
        assert(lfu_total_size(s) == lfu_total_size(head) + s.last().obj.size);
    }
}

pub proof fn lemma_lfu_total_size_remove(s: Seq<LfuEntry>, i: int)
    requires
        0 <= i < s.len(),
    ensures
        lfu_total_size(s.remove(i)) == lfu_total_size(s) - s[i].obj.size,
    decreases s.len(),
{
    if i == s.len() - 1 {
        assert(s.remove(i) =~= s.drop_last());
    } else {
        assert(s.remove(i).drop_last() =~= s.drop_last().remove(i));
        assert(s.remove(i).last() == s.last());
        lemma_lfu_total_size_remove(s.drop_last(), i);
    }
}

pub proof fn lemma_lfu_total_size_insert(s: Seq<LfuEntry>, i: int, e: LfuEntry)
    requires
        0 <= i <= s.len(),
    ensures
        lfu_total_size(s.insert(i, e)) == lfu_total_size(s) + e.obj.size,
{
    assert(s.insert(i, e).remove(i) =~= s);
    lemma_lfu_total_size_remove(s.insert(i, e), i);
}

pub proof fn lemma_lfu_evict_fits(s: Seq<LfuEntry>, target: int)
    requires
        0 <= target,
    ensures
        lfu_total_size(lfu_evict_from_front(s, target)) <= target,
        lfu_distinct_keys(s) ==> lfu_distinct_keys(lfu_evict_from_front(s, target)),
        lfu_sorted(s) ==> lfu_sorted(lfu_evict_from_front(s, target)),
    decreases s.len(),
{
    if lfu_total_size(s) <= target || s.len() == 0 {
    } else {
        let tail = s.subrange(1, s.len() as int);
        assert(lfu_distinct_keys(s) ==> lfu_distinct_keys(tail)) by {
            if lfu_distinct_keys(s) {
                assert forall|i: int, j: int| 0 <= i < j < tail.len() implies tail[i].obj.key
                    != tail[j].obj.key by {
                    assert(tail[i] == s[i + 1] && tail[j] == s[j + 1]);
                }
            }
        }
        assert(lfu_sorted(s) ==> lfu_sorted(tail)) by {
            if lfu_sorted(s) {
                assert forall|i: int, j: int| 0 <= i < j < tail.len() implies tail[i].freq
                    <= tail[j].freq by {
                    assert(tail[i] == s[i + 1] && tail[j] == s[j + 1]);
                }
            }
        }
        lemma_lfu_evict_fits(tail, target);
    }
}

pub proof fn lemma_lfu_evict_subset(s: Seq<LfuEntry>, target: int, k: Key)
    requires
        lfu_contains_key(lfu_evict_from_front(s, target), k),
    ensures
        lfu_contains_key(s, k),
    decreases s.len(),
{
    if lfu_total_size(s) <= target || s.len() == 0 {
    } else {
        let tail = s.subrange(1, s.len() as int);
        lemma_lfu_evict_subset(tail, target, k);
        let i = choose|i: int| 0 <= i < tail.len() && tail[i].obj.key == k;
        assert(s[i + 1].obj.key == k);
    }
}

/// The slot index lies in range and splits the stack by frequency.
pub proof fn lemma_lfu_slot_splits(s: Seq<LfuEntry>, f: u64)
    requires
        lfu_sorted(s),
    ensures
        0 <= lfu_slot(s, f) <= s.len(),
        forall|i: int| 0 <= i < lfu_slot(s, f) ==> s[i].freq <= f,
        forall|i: int| lfu_slot(s, f) <= i < s.len() ==> s[i].freq > f,
    decreases s.len(),
{
    if s.len() == 0 || s[0].freq > f {
    } else {
        let tail = s.subrange(1, s.len() as int);
        assert(lfu_sorted(tail)) by {
            assert forall|i: int, j: int| 0 <= i < j < tail.len() implies tail[i].freq
                <= tail[j].freq by {
                assert(tail[i] == s[i + 1] && tail[j] == s[j + 1]);
            }
        }
        lemma_lfu_slot_splits(tail, f);
        assert forall|i: int| 0 <= i < lfu_slot(s, f) implies s[i].freq <= f by {
            if i > 0 {
                assert(tail[i - 1].freq <= f);
            }
        }
        assert forall|i: int| lfu_slot(s, f) <= i < s.len() implies s[i].freq > f by {
            assert(tail[i - 1].freq > f);
        }
    }
}

impl LfuCache {
    pub open spec fn view_stack(&self) -> Seq<LfuEntry> {
        self.entries@
    }

    pub open spec fn wf(&self) -> bool {
        &&& self.current_size == lfu_total_size(self.entries@)
        &&& lfu_total_size(self.entries@) <= self.max_size
        &&& lfu_distinct_keys(self.entries@)
        &&& lfu_sorted(self.entries@)
        &&& self.hits <= self.count
        &&& self.count <= COUNT_CAP
    }

    pub fn new(size: u64) -> (r: LfuCache)
        ensures
            r.wf(),
            r.max_size == size,
            r.view_stack() == Seq::<LfuEntry>::empty(),
            r.count == 0,
            r.hits == 0,
    {
        LfuCache { max_size: size, current_size: 0, count: 0, hits: 0, entries: Vec::new() }
    }

    pub fn size(&self) -> (r: u64)
        ensures
            r == self.max_size,
    {
        self.max_size
    }

    pub fn miss_ratio(&self) -> (r: u64)
        requires
            self.wf(),
        ensures
            r == miss_ratio_spec(self.count, self.hits),
            r <= RATIO_ONE,
    {
        miss_ratio_bits(self.count, self.hits)
    }

    pub fn increment_count(&mut self)
        requires
            old(self).wf(),
        ensures
            final(self).wf(),
            final(self).count == counter_after_increment(old(self).count),
            final(self).hits == old(self).hits,
            final(self).view_stack() == old(self).view_stack(),
            final(self).max_size == old(self).max_size,
            final(self).current_size == old(self).current_size,
    {
        self.count = increment_counter(self.count);
    }

    pub fn increment_hits(&mut self)
        requires
            old(self).wf(),
            old(self).hits + crate::COUNT_UNIT <= old(self).count || old(self).count == COUNT_CAP,
        ensures
            final(self).wf(),
            final(self).hits == counter_after_increment(old(self).hits),
            final(self).count == old(self).count,
            final(self).view_stack() == old(self).view_stack(),
            final(self).max_size == old(self).max_size,
            final(self).current_size == old(self).current_size,
    {
        self.hits = increment_counter(self.hits);
    }

    pub fn clear_counters(&mut self)
        requires
            old(self).wf(),
        ensures
            final(self).wf(),
            final(self).count == 0,
            final(self).hits == 0,
            final(self).view_stack() == old(self).view_stack(),
            final(self).max_size == old(self).max_size,
    {
        self.count = 0;
        self.hits = 0;
    }

    fn find_entry(&self, key: Key) -> (r: Option<usize>)
        ensures
            match r {
                Some(i) => i < self.entries@.len() && self.entries@[i as int].obj.key == key
                    && i == lfu_key_index(self.entries@, key) && lfu_contains_key(
                    self.entries@,
                    key,
                ),
                None => !lfu_contains_key(self.entries@, key),
            },
    {
        let mut i: usize = 0;
        while i < self.entries.len()
            invariant
                i <= self.entries@.len(),
                forall|j: int| 0 <= j < i ==> self.entries@[j].obj.key != key,
            decreases self.entries@.len() - i,
        {
            if self.entries[i].obj.key == key {
                proof {
                    lemma_lfu_key_index_of_first(self.entries@, key, i as int);
                }
                return Some(i);
            }
            i = i + 1;
        }
        None
    }

    pub fn has(&self, key: Key) -> (r: bool)
        ensures
            r == lfu_contains_key(self.view_stack(), key),
    {
        self.process_has(key)
    }

    pub fn process_has(&self, key: Key) -> (r: bool)
        ensures
            r == lfu_contains_key(self.view_stack(), key),
    {
        self.find_entry(key).is_some()
    }

    /// Finds the slot where an entry of frequency `f` belongs.
    fn find_slot(&self, f: u64) -> (p: usize)
        requires
            lfu_sorted(self.entries@),
        ensures
            p == lfu_slot(self.entries@, f),
            p <= self.entries@.len(),
    {
        let mut i: usize = 0;
        proof {
            lemma_lfu_slot_nonneg(self.entries@, f);
        }
        while i < self.entries.len() && self.entries[i].freq <= f
            invariant
                i <= self.entries@.len(),
                forall|j: int| 0 <= j < i ==> self.entries@[j].freq <= f,
                lfu_slot(self.entries@, f) >= i,
            decreases self.entries@.len() - i,
        {
            proof {
                lemma_lfu_slot_suffix(self.entries@, f, (i + 1) as int);
            }
            i = i + 1;
        }
        proof {
            lemma_lfu_slot_splits(self.entries@, f);
            if i < self.entries@.len() {
                assert(self.entries@[i as int].freq > f);
                if lfu_slot(self.entries@, f) > i as int {
                    assert(self.entries@[i as int].freq <= f);
                }
            }
        }
        i
    }

    /// On a hit, promotes the object to the slot of its raised
    /// frequency, making it the most recent among its peers.
    pub fn process_get(&mut self, access: &Access) -> (r: bool)
        requires
            old(self).wf(),
        ensures
            final(self).wf(),
            r == lfu_contains_key(old(self).view_stack(), access.key),
            final(self).count == old(self).count,
            final(self).hits == old(self).hits,
            final(self).max_size == old(self).max_size,
            final(self).current_size == old(self).current_size,
            r ==> lfu_contains_key(final(self).view_stack(), access.key),
            r ==> final(self).view_stack() == lfu_promote(old(self).view_stack(), access.key),
            !r ==> final(self).view_stack() == old(self).view_stack(),
    {
        match self.find_entry(access.key) {
            Some(i) => {
                let ghost s0 = self.entries@;
                let entry = self.entries.remove(i);
                let new_freq: u64 = if entry.freq < u64::MAX {
                    entry.freq + 1
                } else {
                    entry.freq
                };
                let promoted = LfuEntry { obj: entry.obj, freq: new_freq };
                proof {
                    lemma_lfu_total_size_remove(s0, i as int);
                    lemma_lfu_remove_keeps(s0, i as int);
                }
                let slot = self.find_slot(new_freq);
                let ghost s1 = self.entries@;
                self.entries.insert(slot, promoted);
                proof {
                    lemma_lfu_total_size_insert(s1, slot as int, promoted);
                    lemma_lfu_slot_splits(s1, new_freq);
                    assert(!lfu_contains_key(s1, access.key)) by {
                        if lfu_contains_key(s1, access.key) {
                            let j = choose|j: int|
                                0 <= j < s1.len() && s1[j].obj.key == access.key;
                            if j < i {
                                assert(s0[j].obj.key == access.key);
                            } else {
                                assert(s0[j + 1].obj.key == access.key);
                            }
                        }
                    }
                    let s2 = s1.insert(slot as int, promoted);
                    assert(lfu_distinct_keys(s2)) by {
                        assert forall|p: int, q: int|
                            0 <= p < q < s2.len() implies s2[p].obj.key != s2[q].obj.key by {
                            lemma_insert_index_map(s1, slot as int, promoted, p);
                            lemma_insert_index_map(s1, slot as int, promoted, q);
                        }
                    }
                    assert(lfu_sorted(s2)) by {
                        assert forall|p: int, q: int|
                            0 <= p < q < s2.len() implies s2[p].freq <= s2[q].freq by {
                            lemma_insert_index_map(s1, slot as int, promoted, p);
                            lemma_insert_index_map(s1, slot as int, promoted, q);
                        }
                    }
                    assert(s2[slot as int].obj.key == access.key);
                }
                true
            },
            None => false,
        }
    }

    /// Admits the object with frequency one, evicting the least
    /// frequent objects until it fits; rejects oversize objects and
    /// keys already present.
    pub fn process_set(&mut self, access: &Access)
        requires
            old(self).wf(),
        ensures
            final(self).wf(),
            final(self).count == old(self).count,
            final(self).hits == old(self).hits,
            final(self).max_size == old(self).max_size,
            access.size <= old(self).max_size ==> lfu_contains_key(
                final(self).view_stack(),
                access.key,
            ),
            access.size > old(self).max_size || lfu_contains_key(
                old(self).view_stack(),
                access.key,
            ) ==> final(self).view_stack() == old(self).view_stack(),
            access.size <= old(self).max_size && !lfu_contains_key(
                old(self).view_stack(),
                access.key,
            ) ==> ({
                let evicted = lfu_evict_from_front(
                    old(self).view_stack(),
                    old(self).max_size - access.size,
                );
                final(self).view_stack() == evicted.insert(
                    lfu_slot(evicted, 1),
                    LfuEntry {
                        obj: Object { key: access.key, size: access.size },
                        freq: 1,
                    },
                )
            }),
    {
        if access.size as u64 > self.max_size {
            return ;
        }
        if self.has(access.key) {
            return ;
        }
        let target = self.max_size - access.size as u64;
        let ghost s0 = self.entries@;
        self.evict_entries(target);
        let entry = LfuEntry { obj: Object::new(access), freq: 1 };
        let slot = self.find_slot(1);
        let ghost s1 = self.entries@;
        self.entries.insert(slot, entry);
        self.current_size = self.current_size + access.size as u64;
        proof {
            lemma_lfu_evict_fits(s0, target as int);
            lemma_lfu_total_size_insert(s1, slot as int, entry);
            lemma_lfu_slot_splits(s1, 1);
            assert(!lfu_contains_key(s1, access.key)) by {
                if lfu_contains_key(s1, access.key) {
                    lemma_lfu_evict_subset(s0, target as int, access.key);
                }
            }
            let s2 = s1.insert(slot as int, entry);
            assert(lfu_distinct_keys(s2)) by {
                assert forall|p: int, q: int|
                    0 <= p < q < s2.len() implies s2[p].obj.key != s2[q].obj.key by {
                    lemma_insert_index_map(s1, slot as int, entry, p);
                    lemma_insert_index_map(s1, slot as int, entry, q);
                }
            }
            assert(lfu_sorted(s2)) by {
                assert forall|p: int, q: int|
                    0 <= p < q < s2.len() implies s2[p].freq <= s2[q].freq by {
                    lemma_insert_index_map(s1, slot as int, entry, p);
                    lemma_insert_index_map(s1, slot as int, entry, q);
                }
            }
            assert(s2[slot as int].obj.key == access.key);
        }
    }

    pub fn process_del(&mut self, key: Key)
        requires
            old(self).wf(),
        ensures
            final(self).wf(),
            !lfu_contains_key(final(self).view_stack(), key),
            final(self).count == old(self).count,
            final(self).hits == old(self).hits,
            final(self).max_size == old(self).max_size,
    {
        match self.find_entry(key) {
            Some(i) => {
                let ghost s0 = self.entries@;
                let entry = self.entries.remove(i);
                proof {
                    lemma_lfu_total_size_remove(s0, i as int);
                    lemma_lfu_total_size_nonneg(s0.remove(i as int));
                    lemma_lfu_remove_keeps(s0, i as int);
                    assert(!lfu_contains_key(self.entries@, key)) by {
                        if lfu_contains_key(self.entries@, key) {
                            let j = choose|j: int|
                                0 <= j < self.entries@.len() && self.entries@[j].obj.key == key;
                            if j < i {
                                assert(s0[j].obj.key == key);
                            } else {
                                assert(s0[j + 1].obj.key == key);
                            }
                        }
                    }
                }
                self.current_size = self.current_size - entry.obj.size as u64;
            },
            None => {},
        }
    }

    pub fn del(&mut self, key: Key)
        requires
            old(self).wf(),
        ensures
            final(self).wf(),
            !lfu_contains_key(final(self).view_stack(), key),
            final(self).count == old(self).count,
            final(self).hits == old(self).hits,
            final(self).max_size == old(self).max_size,
    {
        self.process_del(key);
    }

    /// Evicts least-frequent objects until the contents fit `target`.
    fn evict_entries(&mut self, target: u64)
        requires
            old(self).wf(),
        ensures
            final(self).wf(),
            final(self).view_stack() == lfu_evict_from_front(old(self).view_stack(), target as int),
            final(self).current_size <= target,
            final(self).count == old(self).count,
            final(self).hits == old(self).hits,
            final(self).max_size == old(self).max_size,
    {
        while self.current_size > target
            invariant
                self.current_size == lfu_total_size(self.entries@),
                lfu_total_size(self.entries@) <= self.max_size,
                lfu_distinct_keys(self.entries@),
                lfu_sorted(self.entries@),
                self.hits <= self.count,
                self.count <= COUNT_CAP,
                self.max_size == old(self).max_size,
                self.count == old(self).count,
                self.hits == old(self).hits,
                lfu_evict_from_front(self.entries@, target as int) == lfu_evict_from_front(
                    old(self).entries@,
                    target as int,
                ),
            decreases self.entries@.len(),
        {
            let ghost prev = self.entries@;
            proof {
                if prev.len() == 0 {
                    assert(lfu_total_size(prev) == 0);
                }
                lemma_lfu_total_size_drop_front(prev);
                lemma_lfu_total_size_nonneg(prev.subrange(1, prev.len() as int));
            }
            let victim = self.entries.remove(0);
            proof {
                assert(self.entries@ =~= prev.subrange(1, prev.len() as int));
                assert forall|i: int, j: int|
                    0 <= i < j < self.entries@.len() implies self.entries@[i].obj.key
                    != self.entries@[j].obj.key by {
                    assert(self.entries@[i] == prev[i + 1] && self.entries@[j] == prev[j + 1]);
                }
                assert forall|i: int, j: int|
                    0 <= i < j < self.entries@.len() implies self.entries@[i].freq
                    <= self.entries@[j].freq by {
                    assert(self.entries@[i] == prev[i + 1] && self.entries@[j] == prev[j + 1]);
                }
            }
            self.current_size = self.current_size - victim.obj.size as u64;
        }
        proof {
            lemma_lfu_evict_fits(self.entries@, target as int);
        }
    }

    pub fn reduce(&mut self, target: u64)
        requires
            old(self).wf(),
        ensures
            final(self).wf(),
            final(self).view_stack() == lfu_evict_from_front(old(self).view_stack(), target as int),
            final(self).current_size <= target,
            final(self).count == old(self).count,
            final(self).hits == old(self).hits,
            final(self).max_size == old(self).max_size,
    {
        self.evict_entries(target);
    }

    pub fn resize(&mut self, size: u64)
        requires
            old(self).wf(),
        ensures
            final(self).wf(),
            final(self).max_size == size,
            final(self).view_stack() == lfu_evict_from_front(old(self).view_stack(), size as int),
            final(self).count == old(self).count,
            final(self).hits == old(self).hits,
    {
        self.reduce(size);
        self.max_size = size;
    }

    pub fn get(&mut self, access: &Access) -> (r: bool)
        requires
            old(self).wf(),
        ensures
            final(self).wf(),
            r == (access.size <= old(self).max_size && lfu_contains_key(
                old(self).view_stack(),
                access.key,
            )),
            access.size > old(self).max_size ==> *final(self) == *old(self),
            access.size <= old(self).max_size ==> final(self).count == counter_after_increment(
                old(self).count,
            ) && final(self).hits == if r {
                counter_after_increment(old(self).hits)
            } else {
                old(self).hits
            } && final(self).view_stack() == if r {
                lfu_promote(old(self).view_stack(), access.key)
            } else {
                old(self).view_stack()
            },
            final(self).max_size == old(self).max_size,
            r ==> lfu_contains_key(final(self).view_stack(), access.key),
    {
        if access.size as u64 > self.max_size {
            return false;
        }
        self.increment_count();
        if self.process_get(access) {
            self.increment_hits();
            return true;
        }
        false
    }

    pub fn set(&mut self, access: &Access)
        requires
            old(self).wf(),
        ensures
            final(self).wf(),
            access.size <= old(self).max_size ==> lfu_contains_key(
                final(self).view_stack(),
                access.key,
            ),
            access.size > old(self).max_size ==> *final(self) == *old(self),
            final(self).count == old(self).count,
            final(self).hits == old(self).hits,
            final(self).max_size == old(self).max_size,
    {
        if access.size as u64 > self.max_size {
            return ;
        }
        self.process_set(access);
    }

    pub fn handle_self_populating(&mut self, access: &Access) -> (r: bool)
        requires
            old(self).wf(),
        ensures
            final(self).wf(),
            r == (access.size <= old(self).max_size && lfu_contains_key(
                old(self).view_stack(),
                access.key,
            )),
            access.size > old(self).max_size ==> *final(self) == *old(self),
            access.size <= old(self).max_size ==> final(self).count == counter_after_increment(
                old(self).count,
            ) && final(self).hits == if r {
                counter_after_increment(old(self).hits)
            } else {
                old(self).hits
            },
            access.size <= old(self).max_size ==> lfu_contains_key(
                final(self).view_stack(),
                access.key,
            ),
            final(self).max_size == old(self).max_size,
            final(self).hits <= final(self).count,
    {
        if self.get(access) {
            return true;
        }
        self.set(access);
        false
    }

    pub fn rescale(&mut self, num: u64, den: u64)
        requires
            old(self).wf(),
            num <= SHARDS_MODULUS,
            den >= 1,
            num <= den,
        ensures
            final(self).wf(),
            final(self).count == counter_rescaled(old(self).count, num, den),
            final(self).hits == counter_rescaled(old(self).hits, num, den),
            final(self).view_stack() == old(self).view_stack(),
            final(self).max_size == old(self).max_size,
    {
        proof {
            assert(self.hits * num / (den as int) <= self.count * num / (den as int))
                by (nonlinear_arith)
                requires
                    0 <= self.hits <= self.count,
                    0 <= num,
                    den >= 1,
            {}
        }
        self.count = rescale_counter(self.count, num, den);
        self.hits = rescale_counter(self.hits, num, den);
    }
}

/// `lfu_slot` never points below a prefix of entries at or under `f`.
proof fn lemma_lfu_slot_suffix(s: Seq<LfuEntry>, f: u64, i: int)
    requires
        0 < i <= s.len(),
        forall|j: int| 0 <= j < i ==> s[j].freq <= f,
    ensures
        lfu_slot(s, f) >= i,
    decreases i,
{
    let tail = s.subrange(1, s.len() as int);
    if i > 1 {
        assert(forall|j: int| 0 <= j < i - 1 ==> tail[j].freq <= f);
        lemma_lfu_slot_suffix(tail, f, i - 1);
    } else {
        lemma_lfu_slot_nonneg(tail, f);
    }
}

proof fn lemma_lfu_slot_nonneg(s: Seq<LfuEntry>, f: u64)
    ensures
        lfu_slot(s, f) >= 0,
    decreases s.len(),
{
    if !(s.len() == 0 || s[0].freq > f) {
        lemma_lfu_slot_nonneg(s.subrange(1, s.len() as int), f);
    }
}

/// Removing one entry keeps distinctness and sortedness.
proof fn lemma_lfu_remove_keeps(s: Seq<LfuEntry>, i: int)
    requires
        0 <= i < s.len(),
        lfu_distinct_keys(s),
        lfu_sorted(s),
    ensures
        lfu_distinct_keys(s.remove(i)),
        lfu_sorted(s.remove(i)),
{
    let t = s.remove(i);
    assert forall|p: int, q: int| 0 <= p < q < t.len() implies t[p].obj.key != t[q].obj.key
        && t[p].freq <= t[q].freq by {
        let a = if p < i {
            p
        } else {
            p + 1
        };
        let b = if q < i {
            q
        } else {
            q + 1
        };
        assert(t[p] == s[a] && t[q] == s[b]);
    }
}

/// The LFU hit transition: the object's frequency rises by one and it
/// moves to the slot of its raised frequency, newest among its peers.
pub open spec fn lfu_promote(s: Seq<LfuEntry>, k: Key) -> Seq<LfuEntry> {
    let i = lfu_key_index(s, k);
    let e = s[i];
    let promoted = LfuEntry {
        obj: e.obj,
        freq: if e.freq < u64::MAX {
            (e.freq + 1) as u64
        } else {
            e.freq
        },
    };
    s.remove(i).insert(lfu_slot(s.remove(i), promoted.freq), promoted)
}

proof fn lemma_lfu_key_index_of_first(s: Seq<LfuEntry>, k: Key, i: int)
    requires
        0 <= i < s.len(),
        s[i].obj.key == k,
        forall|j: int| 0 <= j < i ==> s[j].obj.key != k,
    ensures
        lfu_key_index(s, k) == i,
    decreases i,
{
    if i > 0 {
        let tail = s.subrange(1, s.len() as int);
        assert(forall|j: int| 0 <= j < i - 1 ==> tail[j].obj.key != k);
        assert(tail[i - 1].obj.key == k);
        lemma_lfu_key_index_of_first(tail, k, i - 1);
    }
}

/// Where each index of `s.insert(i, e)` comes from.
proof fn lemma_insert_index_map(s: Seq<LfuEntry>, i: int, e: LfuEntry, j: int)
    requires
        0 <= i <= s.len(),
        0 <= j < s.len() + 1,
    ensures
        j < i ==> s.insert(i, e)[j] == s[j],
        j == i ==> s.insert(i, e)[j] == e,
        j > i ==> s.insert(i, e)[j] == s[j - 1],
{
}

} // verus!
