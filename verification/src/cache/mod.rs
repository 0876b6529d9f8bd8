pub mod lru_cache;
pub mod fifo_cache;
pub mod lfu_cache;
pub mod two_q_cache;
pub mod policy;

use vstd::prelude::*;
use crate::access::{Access, Key, Size};
use crate::{COUNT_CAP, COUNT_UNIT, RATIO_ONE, SHARDS_MODULUS};

verus! {

/// A cached object: the key it is stored under and its size in bytes.
#[derive(Debug, Clone, Copy)]
pub struct Object {
    pub key: Key,
    pub size: Size,
}

impl Object {
    pub fn new(access: &Access) -> (r: Object)
        ensures
            r.key == access.key,
            r.size == access.size,
    {
        Object { key: access.key, size: access.size }
    }
}

/// The total size of a sequence of objects.
pub open spec fn total_size(s: Seq<Object>) -> int
    decreases s.len(),
{
    if s.len() == 0 {
        0
    } else {
        total_size(s.drop_last()) + s.last().size
    }
}

/// Whether some object in `s` has key `k`.
pub open spec fn contains_key(s: Seq<Object>, k: Key) -> bool {
    exists|i: int| 0 <= i < s.len() && s[i].key == k
}

/// The first index holding key `k` (meaningful when `contains_key`).
pub open spec fn key_index(s: Seq<Object>, k: Key) -> int
    decreases s.len(),
{
    if s.len() == 0 {
        0
    } else if s[0].key == k {
        0
    } else {
        1 + key_index(s.subrange(1, s.len() as int), k)
    }
}

/// All keys in `s` are distinct.
pub open spec fn distinct_keys(s: Seq<Object>) -> bool {
    forall|i: int, j: int| 0 <= i < j < s.len() ==> s[i].key != s[j].key
}

/// The stack left after evicting from the front (the eviction end)
/// until the total size is at most `target`.
pub open spec fn evict_from_front(s: Seq<Object>, target: int) -> Seq<Object>
    decreases s.len(),
{
    if total_size(s) <= target || s.len() == 0 {
        s
    } else {
        evict_from_front(s.subrange(1, s.len() as int), target)
    }
}

pub proof fn lemma_total_size_nonneg(s: Seq<Object>)
    ensures
        0 <= total_size(s),
    decreases s.len(),
{
    if s.len() > 0 {
        lemma_total_size_nonneg(s.drop_last());
    }
}

/// Dropping the front object lowers the total by that object's size.
pub proof fn lemma_total_size_drop_front(s: Seq<Object>)
    requires
        s.len() > 0,
    ensures
        total_size(s.subrange(1, s.len() as int)) == total_size(s) - s[0].size,
    decreases s.len(),
{
    let tail = s.subrange(1, s.len() as int);
    if s.len() == 1 {
        assert(tail =~= Seq::<Object>::empty());
        assert(s.drop_last() =~= Seq::<Object>::empty());
        assert(total_size(Seq::<Object>::empty()) == 0);
    } else {
        let head = s.drop_last();
        assert(tail.drop_last() =~= head.subrange(1, head.len() as int));
        assert(tail.last() == s.last());
        lemma_total_size_drop_front(head);
        assert(total_size(tail.drop_last()) == total_size(head) - head[0].size);
        assert(head[0] == s[0]);
        assert(total_size(tail) == total_size(tail.drop_last()) + tail.last().size);
        assert(total_size(s) == total_size(head) + s.last().size);
    }
}

pub proof fn lemma_total_size_push(s: Seq<Object>, o: Object)
    ensures
        total_size(s.push(o)) == total_size(s) + o.size,
{
    assert(s.push(o).drop_last() =~= s);
}

/// Removing the object at `i` lowers the total by that object's size.
pub proof fn lemma_total_size_remove(s: Seq<Object>, i: int)
    requires
        0 <= i < s.len(),
    ensures
        total_size(s.remove(i)) == total_size(s) - s[i].size,
    decreases s.len(),
{
    if i == s.len() - 1 {
        assert(s.remove(i) =~= s.drop_last());
    } else {
        assert(s.remove(i).drop_last() =~= s.drop_last().remove(i));
        assert(s.remove(i).last() == s.last());
        lemma_total_size_remove(s.drop_last(), i);
    }
}

/// What remains after eviction fits in `target` (or is empty).
pub proof fn lemma_evict_from_front_fits(s: Seq<Object>, target: int)
    requires
        0 <= target,
    ensures
        total_size(evict_from_front(s, target)) <= target,
        evict_from_front(s, target).len() <= s.len(),
        distinct_keys(s) ==> distinct_keys(evict_from_front(s, target)),
    decreases s.len(),
{
    if total_size(s) <= target || s.len() == 0 {
    } else {
        let tail = s.subrange(1, s.len() as int);
        assert(distinct_keys(s) ==> distinct_keys(tail)) by {
            if distinct_keys(s) {
                assert forall|i: int, j: int| 0 <= i < j < tail.len() implies tail[i].key
                    != tail[j].key by {
                    assert(tail[i] == s[i + 1] && tail[j] == s[j + 1]);
                }
            }
        }
        lemma_evict_from_front_fits(tail, target);
    }
}

/// A key of the evicted stack was on the original stack.
pub proof fn lemma_evict_from_front_subset(s: Seq<Object>, target: int, k: Key)
    requires
        contains_key(evict_from_front(s, target), k),
    ensures
        contains_key(s, k),
    decreases s.len(),
{
    if total_size(s) <= target || s.len() == 0 {
    } else {
        let tail = s.subrange(1, s.len() as int);
        lemma_evict_from_front_subset(tail, target, k);
        let i = choose|i: int| 0 <= i < tail.len() && tail[i].key == k;
        assert(s[i + 1].key == k);
    }
}

pub proof fn lemma_key_index_works(s: Seq<Object>, k: Key)
    requires
        contains_key(s, k),
    ensures
        0 <= key_index(s, k) < s.len(),
        s[key_index(s, k)].key == k,
    decreases s.len(),
{
    if s.len() > 0 && s[0].key != k {
        let tail = s.subrange(1, s.len() as int);
        assert(contains_key(tail, k)) by {
            let i = choose|i: int| 0 <= i < s.len() && s[i].key == k;
            assert(tail[i - 1].key == k);
        }
        lemma_key_index_works(tail, k);
    }
}

/// Finds the first position holding `key`, scanning from the front.
pub fn find_key(stack: &Vec<Object>, key: Key) -> (r: Option<usize>)
    ensures
        match r {
            Some(i) => i < stack@.len() && stack@[i as int].key == key && i == key_index(
                stack@,
                key,
            ) && contains_key(stack@, key),
            None => !contains_key(stack@, key),
        },
{
    let mut i: usize = 0;
    while i < stack.len()
        invariant
            i <= stack@.len(),
            forall|j: int| 0 <= j < i ==> stack@[j].key != key,
        decreases stack@.len() - i,
    {
        if stack[i].key == key {
            proof {
                lemma_key_index_of_prefix_miss(stack@, key, i as int);
            }
            return Some(i);
        }
        i = i + 1;
    }
    None
}

proof fn lemma_key_index_of_prefix_miss(s: Seq<Object>, k: Key, i: int)
    requires
        0 <= i < s.len(),
        s[i].key == k,
        forall|j: int| 0 <= j < i ==> s[j].key != k,
    ensures
        key_index(s, k) == i,
    decreases i,
{
    if i > 0 {
        let tail = s.subrange(1, s.len() as int);
        assert(forall|j: int| 0 <= j < i - 1 ==> tail[j].key != k);
        assert(tail[i - 1].key == k);
        lemma_key_index_of_prefix_miss(tail, k, i - 1);
    }
}

/// Evicts objects from the front of `stack` until the tracked size is
/// at most `target`; keeps `*current` equal to the stack's total size.
pub fn evict_until(stack: &mut Vec<Object>, current: &mut u64, target: u64)
    requires
        *old(current) == total_size(old(stack)@),
    ensures
        final(stack)@ == evict_from_front(old(stack)@, target as int),
        *final(current) == total_size(final(stack)@),
        *final(current) <= target,
{
    let mut cur: u64 = *current;
    while cur > target
        invariant
            cur == total_size(stack@),
            evict_from_front(stack@, target as int) == evict_from_front(
                old(stack)@,
                target as int,
            ),
        decreases stack@.len(),
    {
        let ghost prev = stack@;
        proof {
            if prev.len() == 0 {
                assert(total_size(prev) == 0);
            }
            lemma_total_size_drop_front(prev);
            lemma_total_size_nonneg(prev.subrange(1, prev.len() as int));
        }
        let victim = stack.remove(0);
        proof {
            assert(stack@ =~= prev.subrange(1, prev.len() as int));
        }
        cur = cur - (victim.size as u64);
    }
    *current = cur;
}

/// A fixed-point event counter after one more event; saturates at
/// `COUNT_CAP`.
pub open spec fn counter_after_increment(c: u128) -> u128 {
    if c + COUNT_UNIT <= COUNT_CAP {
        (c + COUNT_UNIT) as u128
    } else {
        COUNT_CAP
    }
}

pub fn increment_counter(c: u128) -> (r: u128)
    requires
        c <= COUNT_CAP,
    ensures
        r == counter_after_increment(c),
        r <= COUNT_CAP,
{
    if c <= COUNT_CAP - COUNT_UNIT {
        c + COUNT_UNIT
    } else {
        COUNT_CAP
    }
}

/// A counter multiplied by the exact ratio `num / den`, rounded down;
/// saturates at `COUNT_CAP`.
pub open spec fn counter_rescaled(c: u128, num: u64, den: u64) -> u128 {
    if c * num / (den as int) <= COUNT_CAP {
        (c * num / (den as int)) as u128
    } else {
        COUNT_CAP
    }
}

pub fn rescale_counter(c: u128, num: u64, den: u64) -> (r: u128)
    requires
        c <= COUNT_CAP,
        num <= SHARDS_MODULUS,
        den >= 1,
    ensures
        r == counter_rescaled(c, num, den),
        r <= COUNT_CAP,
{
    proof {
        assert(c * num <= COUNT_CAP * SHARDS_MODULUS) by (nonlinear_arith)
            requires
                c <= COUNT_CAP,
                num <= SHARDS_MODULUS,
                0 <= c,
                0 <= num,
        {}
    }
    let q: u128 = c * (num as u128) / (den as u128);
    if q <= COUNT_CAP {
        q
    } else {
        COUNT_CAP
    }
}

/// The miss ratio `1 - hits/count` in `RATIO_ONE` fixed point, clamped
/// to `[0, 1]`; an idle cache reports zero.
pub open spec fn miss_ratio_spec(count: u128, hits: u128) -> u64 {
    if count == 0 || hits >= count {
        0
    } else {
        ((count - hits) * RATIO_ONE / (count as int)) as u64
    }
}

pub fn miss_ratio_bits(count: u128, hits: u128) -> (r: u64)
    requires
        count <= COUNT_CAP,
    ensures
        r == miss_ratio_spec(count, hits),
        r <= RATIO_ONE,
{
    if count == 0 || hits >= count {
        0
    } else {
        let diff: u128 = count - hits;
        proof {
            assert(diff * RATIO_ONE / (count as int) <= RATIO_ONE && diff * RATIO_ONE <= COUNT_CAP
                * RATIO_ONE) by (nonlinear_arith)
                requires
                    0 < diff <= count <= COUNT_CAP,
            {}
        }
        (diff * (RATIO_ONE as u128) / count) as u64
    }
}

} // verus!
