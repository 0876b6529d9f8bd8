use vstd::prelude::*;
use crate::access::{Access, Timestamp};
use crate::algorithm::Object;

verus! {

/// One record of a FIFO eviction map: the object was last admitted at
/// caches of `size` and above at time `timestamp`.
#[derive(Debug, Clone, Copy, PartialEq, Eq, Structural)]
pub struct FifoEvictionRecord {
    pub size: u64,
    pub timestamp: Timestamp,
}

impl FifoEvictionRecord {
    pub fn new(size: u64, timestamp: Timestamp) -> (r: FifoEvictionRecord)
        ensures
            r.size == size,
            r.timestamp == timestamp,
    {
        FifoEvictionRecord { size, timestamp }
    }
}

/// Record sizes are strictly decreasing from front to back.
pub open spec fn fifo_records_sorted(s: Seq<FifoEvictionRecord>) -> bool {
    forall|i: int, j: int| 0 <= i < j < s.len() ==> s[i].size > s[j].size
}

/// Drops trailing records whose size is at most `sz`.
pub open spec fn trim_le(s: Seq<FifoEvictionRecord>, sz: u64) -> Seq<FifoEvictionRecord>
    decreases s.len(),
{
    if s.len() > 0 && s.last().size <= sz {
        trim_le(s.drop_last(), sz)
    } else {
        s
    }
}

/// What recording a synthetic eviction at `sz` does to the records:
/// nothing when a smaller eviction is already recorded; otherwise the
/// trailing records it covers collapse into one record at `sz + 1`,
/// keeping the admission timestamp of the latest one.
pub open spec fn fifo_insert_spec(s: Seq<FifoEvictionRecord>, sz: u64) -> Seq<FifoEvictionRecord> {
    if s.len() > 0 && s.last().size > sz {
        s
    } else {
        let ts = if s.len() > 0 {
            s.last().timestamp
        } else {
            0
        };
        let trimmed = trim_le(s, sz);
        if trimmed.len() == 0 || trimmed.last().size != sz + 1 {
            trimmed.push(FifoEvictionRecord { size: (sz + 1) as u64, timestamp: ts })
        } else {
            trimmed
        }
    }
}

/// The timestamp the map reports for cache size `sz`: that of the
/// first record (the largest size) at or below `sz`; absent when every
/// record is larger.
pub open spec fn fifo_ts_at(s: Seq<FifoEvictionRecord>, sz: u64) -> Option<Timestamp>
    decreases s.len(),
{
    if s.len() == 0 {
        None
    } else if s[0].size <= sz {
        Some(s[0].timestamp)
    } else {
        fifo_ts_at(s.subrange(1, s.len() as int), sz)
    }
}

/// A compact record of the synthetic FIFO evictions of one object at
/// every cache size.
pub struct FifoEvictionMap {
    pub map: Vec<FifoEvictionRecord>,
}

impl FifoEvictionMap {
    pub open spec fn wf(&self) -> bool {
        fifo_records_sorted(self.map@)
    }

    pub fn new(access: &Access) -> (r: FifoEvictionMap)
        ensures
            r.wf(),
            r.map@ =~= seq![FifoEvictionRecord { size: 0, timestamp: access.timestamp }],
    {
        let mut map: Vec<FifoEvictionRecord> = Vec::new();
        map.push(FifoEvictionRecord { size: 0, timestamp: access.timestamp });
        FifoEvictionMap { map }
    }

    /// Records a synthetic eviction at cache size `size`.
    pub fn insert(&mut self, size: u64)
        requires
            old(self).wf(),
            size < u64::MAX,
        ensures
            final(self).wf(),
            final(self).map@ == fifo_insert_spec(old(self).map@, size),
    {
        let n = self.map.len();
        if n > 0 && self.map[n - 1].size > size {
            return ;
        }
        let ts: Timestamp = if n > 0 {
            self.map[n - 1].timestamp
        } else {
            0
        };
        let ghost m0 = self.map@;
        while self.map.len() > 0 && self.map[self.map.len() - 1].size <= size
            invariant
                self.wf(),
                trim_le(self.map@, size) == trim_le(m0, size),
                self.map@.len() <= m0.len(),
                forall|i: int|
                    0 <= i < self.map@.len() ==> self.map@[i] == m0[i],
            decreases self.map@.len(),
        {
            let ghost prev = self.map@;
            self.map.pop();
            proof {
                assert(self.map@ =~= prev.drop_last());
            }
        }
        proof {
            assert(self.map@ == trim_le(m0, size));
        }
        let m = self.map.len();
        if m == 0 || self.map[m - 1].size != size + 1 {
            let ghost t0 = self.map@;
            self.map.push(FifoEvictionRecord { size: size + 1, timestamp: ts });
            proof {
                assert(forall|i: int| 0 <= i < t0.len() ==> self.map@[i] == t0[i]);
                assert(self.map@.last().size == size + 1);
                assert(fifo_records_sorted(self.map@)) by {
                    assert forall|p: int, q: int|
                        0 <= p < q < self.map@.len() implies self.map@[p].size
                        > self.map@[q].size by {
                        if q == self.map@.len() - 1 {
                            assert(self.map@[p] == t0[p]);
                            assert(t0[p].size > size);
                        }
                    }
                }
            }
        }
    }

    /// The admission timestamp at cache size `size`, when resident.
    pub fn timestamp_at(&self, size: u64) -> (r: Option<Timestamp>)
        requires
            self.wf(),
        ensures
            r == fifo_ts_at(self.map@, size),
    {
        let n = self.map.len();
        let mut i: usize = 0;
        proof {
            assert(self.map@.subrange(0, n as int) =~= self.map@);
        }
        while i < n && self.map[i].size > size
            invariant
                i <= n,
                n == self.map@.len(),
                self.wf(),
                fifo_ts_at(self.map@, size) == fifo_ts_at(
                    self.map@.subrange(i as int, n as int),
                    size,
                ),
            decreases n - i,
        {
            let ghost cur = self.map@.subrange(i as int, n as int);
            proof {
                assert(cur.subrange(1, cur.len() as int) =~= self.map@.subrange(
                    i + 1,
                    n as int,
                ));
            }
            i = i + 1;
        }
        proof {
            let cur = self.map@.subrange(i as int, n as int);
            if i < n {
                assert(cur[0] == self.map@[i as int]);
            }
        }
        if i < n {
            Some(self.map[i].timestamp)
        } else {
            None
        }
    }

    pub fn exists_at(&self, size: u64) -> (r: bool)
        requires
            self.wf(),
        ensures
            r == (fifo_ts_at(self.map@, size) is Some),
    {
        self.timestamp_at(size).is_some()
    }

    /// The reuse distance on a re-access: the smallest recorded
    /// eviction size or the object's own size, whichever is larger.
    pub fn reuse_distance(&self, object: &Object) -> (r: u64)
        ensures
            r == if self.map@.len() > 0 && self.map@.last().size > object.size {
                self.map@.last().size
            } else {
                object.size as u64
            },
    {
        let n = self.map.len();
        if n > 0 && self.map[n - 1].size > object.size as u64 {
            self.map[n - 1].size
        } else {
            object.size as u64
        }
    }

    /// A re-access readmits the object everywhere: a fresh record at
    /// size zero, unless one is already there.
    pub fn update(&mut self, access: &Access)
        requires
            old(self).wf(),
        ensures
            final(self).wf(),
            final(self).map@ == if old(self).map@.len() > 0 && old(self).map@.last().size == 0 {
                old(self).map@
            } else {
                old(self).map@.push(
                    FifoEvictionRecord { size: 0, timestamp: access.timestamp },
                )
            },
    {
        let n = self.map.len();
        if n > 0 && self.map[n - 1].size == 0 {
            return ;
        }
        let ghost m0 = self.map@;
        self.map.push(FifoEvictionRecord { size: 0, timestamp: access.timestamp });
        proof {
            assert(forall|i: int| 0 <= i < m0.len() ==> self.map@[i] == m0[i]);
            assert(fifo_records_sorted(self.map@)) by {
                assert forall|p: int, q: int|
                    0 <= p < q < self.map@.len() implies self.map@[p].size > self.map@[q].size by {
                    if q == self.map@.len() - 1 {
                        assert(self.map@[p] == m0[p]);
                        if m0.len() > 0 && p < m0.len() - 1 {
                            assert(m0[p].size > m0[m0.len() - 1].size);
                        }
                    }
                }
            }
        }
    }
}

} // verus!
