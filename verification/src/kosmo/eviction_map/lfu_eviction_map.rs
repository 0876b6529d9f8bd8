use vstd::prelude::*;
use crate::access::Access;
use crate::algorithm::Object;

verus! {

/// One record of an LFU eviction map: at the synthetic eviction at
/// cache `size`, the object had seen `count` accesses.
#[derive(Debug, Clone, Copy, PartialEq, Eq, Structural)]
pub struct LfuEvictionRecord {
    pub size: u64,
    pub count: u64,
}

impl LfuEvictionRecord {
    pub fn new(size: u64, count: u64) -> (r: LfuEvictionRecord)
        ensures
            r.size == size,
            r.count == count,
    {
        LfuEvictionRecord { size, count }
    }
}

pub open spec fn lfu_records_sorted(s: Seq<LfuEvictionRecord>) -> bool {
    forall|i: int, j: int| 0 <= i < j < s.len() ==> s[i].size > s[j].size
}

pub open spec fn lfu_counts_bounded(s: Seq<LfuEvictionRecord>, gc: u64) -> bool {
    forall|i: int| 0 <= i < s.len() ==> (#[trigger] s[i].count) <= gc
}

/// Drops trailing records whose size is at most `sz`.
pub open spec fn lfu_trim_le(s: Seq<LfuEvictionRecord>, sz: u64) -> Seq<LfuEvictionRecord>
    decreases s.len(),
{
    if s.len() > 0 && s.last().size <= sz {
        lfu_trim_le(s.drop_last(), sz)
    } else {
        s
    }
}

/// The effective access count at cache size `sz`: the accesses since
/// the innermost eviction that covers `sz`; `None` when the object was
/// just evicted there.
pub open spec fn lfu_count_at(s: Seq<LfuEvictionRecord>, gc: u64, sz: u64) -> Option<u64>
    decreases s.len(),
{
    if s.len() == 0 {
        Some(gc)
    } else if s.last().size >= sz {
        if gc == s.last().count {
            None
        } else {
            Some((gc - s.last().count) as u64)
        }
    } else {
        lfu_count_at(s.drop_last(), gc, sz)
    }
}

/// A compact record of the synthetic LFU evictions of one object.
pub struct LfuEvictionMap {
    pub global_count: u64,
    pub map: Vec<LfuEvictionRecord>,
}

impl LfuEvictionMap {
    pub open spec fn wf(&self) -> bool {
        &&& lfu_records_sorted(self.map@)
        &&& lfu_counts_bounded(self.map@, self.global_count)
    }

    pub fn new() -> (r: LfuEvictionMap)
        ensures
            r.wf(),
            r.global_count == 1,
            r.map@.len() == 0,
    {
        LfuEvictionMap { global_count: 1, map: Vec::new() }
    }

    /// Records a synthetic eviction at cache size `size`: it covers
    /// all smaller recorded evictions.
    pub fn insert(&mut self, size: u64)
        requires
            old(self).wf(),
        ensures
            final(self).wf(),
            final(self).global_count == old(self).global_count,
            final(self).map@ == lfu_trim_le(old(self).map@, size).push(
                LfuEvictionRecord { size, count: old(self).global_count },
            ),
    {
        let ghost m0 = self.map@;
        while self.map.len() > 0 && self.map[self.map.len() - 1].size <= size
            invariant
                self.wf(),
                self.global_count == old(self).global_count,
                lfu_trim_le(self.map@, size) == lfu_trim_le(m0, size),
                forall|i: int| 0 <= i < self.map@.len() ==> self.map@[i] == m0[i],
            decreases self.map@.len(),
        {
            let ghost prev = self.map@;
            self.map.pop();
            proof {
                assert(self.map@ =~= prev.drop_last());
            }
        }
        proof {
            assert(self.map@ == lfu_trim_le(m0, size));
        }
        let ghost t0 = self.map@;
        self.map.push(LfuEvictionRecord { size, count: self.global_count });
        proof {
            assert(forall|i: int| 0 <= i < t0.len() ==> self.map@[i] == t0[i]);
            assert(self.map@.last().size == size);
            assert(lfu_records_sorted(self.map@)) by {
                assert forall|p: int, q: int|
                    0 <= p < q < self.map@.len() implies self.map@[p].size > self.map@[q].size by {
                    if q == self.map@.len() - 1 {
                        assert(self.map@[p] == t0[p]);
                        assert(t0[p].size > size);
                    }
                }
            }
        }
    }

    /// The effective access count at cache size `size`.
    pub fn count_at(&self, size: u64) -> (r: Option<u64>)
        requires
            self.wf(),
        ensures
            r == lfu_count_at(self.map@, self.global_count, size),
    {
        let mut i: usize = self.map.len();
        proof {
            assert(self.map@.subrange(0, self.map@.len() as int) =~= self.map@);
        }
        while i > 0
            invariant
                i <= self.map@.len(),
                self.wf(),
                lfu_count_at(self.map@, self.global_count, size) == lfu_count_at(
                    self.map@.subrange(0, i as int),
                    self.global_count,
                    size,
                ),
            decreases i,
        {
            let ghost cur = self.map@.subrange(0, i as int);
            proof {
                assert(cur.drop_last() =~= self.map@.subrange(0, i - 1));
                assert(cur.last() == self.map@[i - 1]);
            }
            if self.map[i - 1].size >= size {
                if self.global_count == self.map[i - 1].count {
                    return None;
                }
                return Some(self.global_count - self.map[i - 1].count);
            }
            i = i - 1;
        }
        proof {
            assert(self.map@.subrange(0, 0) =~= Seq::<LfuEvictionRecord>::empty());
        }
        Some(self.global_count)
    }

    pub fn exists_at(&self, size: u64) -> (r: bool)
        requires
            self.wf(),
        ensures
            r == (lfu_count_at(self.map@, self.global_count, size) is Some),
    {
        self.count_at(size).is_some()
    }

    /// The reuse distance on a re-access: one past the innermost
    /// eviction recorded at the current count, or the object's size.
    pub fn reuse_distance(&self, object: &Object) -> (r: u64)
        requires
            self.wf(),
        ensures
            r == lfu_reuse_spec(self.map@, self.global_count, object.size as u64),
    {
        let mut i: usize = self.map.len();
        proof {
            assert(self.map@.subrange(0, self.map@.len() as int) =~= self.map@);
        }
        while i > 0
            invariant
                i <= self.map@.len(),
                self.wf(),
                lfu_reuse_spec(self.map@, self.global_count, object.size as u64)
                    == lfu_reuse_spec(
                    self.map@.subrange(0, i as int),
                    self.global_count,
                    object.size as u64,
                ),
            decreases i,
        {
            let ghost cur = self.map@.subrange(0, i as int);
            proof {
                assert(cur.drop_last() =~= self.map@.subrange(0, i - 1));
                assert(cur.last() == self.map@[i - 1]);
            }
            if self.map[i - 1].count == self.global_count {
                if self.map[i - 1].size < u64::MAX {
                    return self.map[i - 1].size + 1;
                }
                return u64::MAX;
            }
            i = i - 1;
        }
        proof {
            assert(self.map@.subrange(0, 0) =~= Seq::<LfuEvictionRecord>::empty());
        }
        object.size as u64
    }

    /// Each re-access raises the object's global access count.
    pub fn update(&mut self, _access: &Access)
        requires
            old(self).wf(),
        ensures
            final(self).wf(),
            final(self).map@ == old(self).map@,
            final(self).global_count == if old(self).global_count < u64::MAX {
                (old(self).global_count + 1) as u64
            } else {
                u64::MAX
            },
    {
        if self.global_count < u64::MAX {
            self.global_count = self.global_count + 1;
        }
        proof {
            assert(lfu_counts_bounded(self.map@, self.global_count)) by {
                assert forall|i: int|
                    0 <= i < self.map@.len() implies (#[trigger] self.map@[i].count)
                    <= self.global_count by {
                    assert(self.map@[i].count <= old(self).global_count);
                }
            }
        }
    }
}

/// The reuse distance the LFU map reports: scanning inward, one past
/// the first eviction whose snapshot equals the current count.
pub open spec fn lfu_reuse_spec(s: Seq<LfuEvictionRecord>, gc: u64, objsize: u64) -> u64
    decreases s.len(),
{
    if s.len() == 0 {
        objsize
    } else if s.last().count == gc {
        if s.last().size < u64::MAX {
            (s.last().size + 1) as u64
        } else {
            u64::MAX
        }
    } else {
        lfu_reuse_spec(s.drop_last(), gc, objsize)
    }
}

} // verus!
