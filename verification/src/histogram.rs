use vstd::prelude::*;
use crate::cache::{counter_after_increment, counter_rescaled, increment_counter, rescale_counter};
use crate::shards::Shards;
use crate::{BUCKET_SIZE, COUNT_CAP, COUNT_UNIT};

verus! {

/// One reuse-distance bucket: a size class, its fixed-point event
/// count, and the sampling threshold the count is expressed under.
#[derive(Debug, Clone, Copy)]
pub struct Bucket {
    pub size: u64,
    pub count: u128,
    pub shards_global_t: u64,
}

/// A bucketed reuse-distance histogram: distinct size classes in
/// strictly increasing order, all multiples of the bucket width, plus
/// one bucket for cold accesses (infinite reuse distance).
pub struct Histogram {
    pub infinity: Bucket,
    pub buckets: Vec<Bucket>,
}

/// A reuse distance rounded up to the next multiple of the bucket
/// width, saturating at the largest representable value.
pub open spec fn spec_rounded_reuse_distance(rd: u64) -> u64 {
    if rd % BUCKET_SIZE == 0 {
        rd
    } else {
        let c = (rd / BUCKET_SIZE + 1) * BUCKET_SIZE;
        if c <= u64::MAX {
            c as u64
        } else {
            u64::MAX
        }
    }
}

pub fn get_rounded_reuse_distance(rd: u64) -> (r: u64)
    ensures
        r == spec_rounded_reuse_distance(rd),
        r % BUCKET_SIZE == 0 || r == u64::MAX,
        r >= rd ==> r - rd < BUCKET_SIZE || r == u64::MAX,
{
    if rd % BUCKET_SIZE == 0 {
        return rd;
    }
    let c = rd / BUCKET_SIZE + 1;
    if c <= u64::MAX / BUCKET_SIZE {
        proof {
            assert(c * BUCKET_SIZE <= (u64::MAX as int / BUCKET_SIZE as int) * BUCKET_SIZE
                <= u64::MAX) by (nonlinear_arith)
                requires
                    0 <= c <= u64::MAX as int / BUCKET_SIZE as int,
                    BUCKET_SIZE == 65536,
            {}
            vstd::arithmetic::div_mod::lemma_fundamental_div_mod(rd as int, BUCKET_SIZE as int);
        }
        c * BUCKET_SIZE
    } else {
        proof {
            assert(c * BUCKET_SIZE > u64::MAX) by (nonlinear_arith)
                requires
                    c > u64::MAX as int / BUCKET_SIZE as int,
                    c * BUCKET_SIZE >= 0,
                    BUCKET_SIZE == 65536,
                    u64::MAX == 0xffffffffffffffff,
            {}
        }
        u64::MAX
    }
}

/// The mathematical sum of the bucket counts.
pub open spec fn sum_counts(s: Seq<Bucket>) -> int
    decreases s.len(),
{
    if s.len() == 0 {
        0
    } else {
        sum_counts(s.drop_last()) + s.last().count
    }
}

pub proof fn lemma_sum_counts_nonneg(s: Seq<Bucket>)
    ensures
        sum_counts(s) >= 0,
    decreases s.len(),
{
    if s.len() > 0 {
        lemma_sum_counts_nonneg(s.drop_last());
    }
}

/// A prefix never sums to more than the whole.
pub proof fn lemma_sum_counts_prefix(s: Seq<Bucket>, i: int)
    requires
        0 <= i <= s.len(),
    ensures
        sum_counts(s.subrange(0, i)) <= sum_counts(s),
    decreases s.len() - i,
{
    if i == s.len() {
        assert(s.subrange(0, i) =~= s);
    } else {
        assert(s.subrange(0, i + 1).drop_last() =~= s.subrange(0, i));
        assert(s.subrange(0, i + 1).last() == s[i]);
        lemma_sum_counts_prefix(s, i + 1);
    }
}

/// The slot where a bucket of size `sz` belongs: after all smaller
/// sizes.
pub open spec fn bucket_slot(s: Seq<Bucket>, sz: u64) -> int
    decreases s.len(),
{
    if s.len() == 0 || s[0].size >= sz {
        0
    } else {
        1 + bucket_slot(s.subrange(1, s.len() as int), sz)
    }
}

pub proof fn lemma_bucket_slot_splits(s: Seq<Bucket>, sz: u64)
    requires
        sorted_sizes(s),
    ensures
        0 <= bucket_slot(s, sz) <= s.len(),
        forall|i: int| 0 <= i < bucket_slot(s, sz) ==> s[i].size < sz,
        forall|i: int| bucket_slot(s, sz) <= i < s.len() ==> s[i].size >= sz,
    decreases s.len(),
{
    if s.len() == 0 || s[0].size >= sz {
        if s.len() > 0 {
            assert forall|i: int| 0 <= i < s.len() implies s[i].size >= sz by {
                if i > 0 {
                    assert(s[0].size <= s[i].size);
                }
            }
        }
    } else {
        let tail = s.subrange(1, s.len() as int);
        assert(sorted_sizes(tail)) by {
            assert forall|i: int, j: int| 0 <= i < j < tail.len() implies tail[i].size
                < tail[j].size by {
                assert(tail[i] == s[i + 1] && tail[j] == s[j + 1]);
            }
        }
        lemma_bucket_slot_splits(tail, sz);
        assert forall|i: int| 0 <= i < bucket_slot(s, sz) implies s[i].size < sz by {
            if i > 0 {
                assert(tail[i - 1].size < sz);
            }
        }
        assert forall|i: int| bucket_slot(s, sz) <= i < s.len() implies s[i].size >= sz by {
            assert(tail[i - 1].size >= sz);
        }
    }
}

/// Bucket sizes are strictly increasing.
pub open spec fn sorted_sizes(s: Seq<Bucket>) -> bool {
    forall|i: int, j: int| 0 <= i < j < s.len() ==> s[i].size < s[j].size
}

/// Every bucket size is a multiple of the bucket width (or the
/// saturation value for enormous distances).
pub open spec fn aligned_sizes(s: Seq<Bucket>) -> bool {
    forall|i: int|
        0 <= i < s.len() ==> (#[trigger] s[i].size) % BUCKET_SIZE == 0 || s[i].size == u64::MAX
}

pub open spec fn counts_in_range(s: Seq<Bucket>) -> bool {
    forall|i: int| 0 <= i < s.len() ==> (#[trigger] s[i].count) <= COUNT_CAP
}

/// A bucket re-expressed under threshold `t`: the count scales by the
/// exact ratio of the thresholds, except for buckets created without
/// sampling, which keep their count.
pub open spec fn bucket_rescaled(b: Bucket, t: u64) -> Bucket {
    if b.shards_global_t == 0 || b.shards_global_t == t {
        b
    } else {
        Bucket {
            size: b.size,
            count: crate::cache::counter_rescaled(b.count, t, b.shards_global_t),
            shards_global_t: t,
        }
    }
}

/// A bucket after counting one more event.
pub open spec fn bucket_incremented(b: Bucket) -> Bucket {
    Bucket { size: b.size, count: crate::cache::counter_after_increment(b.count), ..b }
}

/// A bucket touched by one event: rescaled first when a sampling
/// threshold is in force, then incremented.
pub open spec fn bucket_touched(b: Bucket, t: Option<u64>) -> Bucket {
    match t {
        Some(t) => bucket_incremented(bucket_rescaled(b, t)),
        None => bucket_incremented(b),
    }
}

/// How one recorded distance changes the bucket list: the bucket of
/// the rounded size `rd` is touched if present, else created with one
/// event under threshold `t`, in size order.
pub open spec fn increment_transition(
    b0: Seq<Bucket>,
    b1: Seq<Bucket>,
    rd: u64,
    t: Option<u64>,
) -> bool {
    let pos = bucket_slot(b0, rd);
    if pos < b0.len() && b0[pos].size == rd {
        &&& b1.len() == b0.len()
        &&& b1[pos] == bucket_touched(b0[pos], t)
        &&& forall|i: int| 0 <= i < b1.len() && i != pos ==> b1[i] == b0[i]
    } else {
        &&& b1.len() == b0.len() + 1
        &&& b1[pos] == (Bucket { size: rd, count: COUNT_UNIT, shards_global_t: t.unwrap_or(0) })
        &&& forall|i: int| 0 <= i < pos ==> b1[i] == b0[i]
        &&& forall|i: int| pos < i < b1.len() ==> b1[i] == b0[i - 1]
    }
}

impl Bucket {
    pub fn new(size: u64, shards_global_t: Option<u64>) -> (r: Bucket)
        ensures
            r.size == size,
            r.count == COUNT_UNIT,
            r.shards_global_t == shards_global_t.unwrap_or(0),
    {
        let t: u64 = match shards_global_t {
            Some(t) => t,
            None => 0,
        };
        Bucket { size, count: COUNT_UNIT, shards_global_t: t }
    }

    pub fn get_size(&self) -> (r: u64)
        ensures
            r == self.size,
    {
        self.size
    }

    /// The fixed-point event count (in units of `COUNT_UNIT`).
    pub fn get_count(&self) -> (r: u128)
        ensures
            r == self.count,
    {
        self.count
    }

    /// Resets the count to one event.
    pub fn clear(&mut self)
        ensures
            final(self).count == COUNT_UNIT,
            final(self).size == old(self).size,
            final(self).shards_global_t == old(self).shards_global_t,
    {
        self.count = COUNT_UNIT;
    }

    pub fn increment(&mut self)
        requires
            old(self).count <= COUNT_CAP,
        ensures
            final(self).count == counter_after_increment(old(self).count),
            final(self).size == old(self).size,
            final(self).shards_global_t == old(self).shards_global_t,
    {
        self.count = increment_counter(self.count);
    }

    /// Re-expresses the count under a new sampling threshold by the
    /// exact ratio of the thresholds; a bucket created without SHARDS
    /// (threshold zero) is left alone.
    pub fn rescale(&mut self, global_t: u64)
        requires
            old(self).count <= COUNT_CAP,
            global_t <= crate::SHARDS_MODULUS,
        ensures
            final(self).size == old(self).size,
            (old(self).shards_global_t == 0 || old(self).shards_global_t == global_t) ==> (
            *final(self) == *old(self)),
            old(self).shards_global_t != 0 && old(self).shards_global_t != global_t ==> {
                &&& final(self).count == counter_rescaled(
                    old(self).count,
                    global_t,
                    old(self).shards_global_t,
                )
                &&& final(self).shards_global_t == global_t
            },
            final(self).count <= COUNT_CAP,
    {
        if self.shards_global_t == 0 || self.shards_global_t == global_t {
            return ;
        }
        self.count = rescale_counter(self.count, global_t, self.shards_global_t);
        self.shards_global_t = global_t;
    }
}

impl Histogram {
    pub open spec fn wf(&self) -> bool {
        &&& sorted_sizes(self.buckets@)
        &&& aligned_sizes(self.buckets@)
        &&& counts_in_range(self.buckets@)
        &&& self.infinity.count <= COUNT_CAP
    }

    pub fn new(shards: Option<&Shards>) -> (r: Histogram)
        ensures
            r.wf(),
            r.buckets@.len() == 0,
            r.infinity.count == COUNT_UNIT,
    {
        let t: Option<u64> = match shards {
            Some(s) => Some(s.get_global_t()),
            None => None,
        };
        Histogram { infinity: Bucket::new(0, t), buckets: Vec::new() }
    }

    pub fn is_empty(&self) -> (r: bool)
        ensures
            r == (self.buckets@.len() == 0),
    {
        self.buckets.len() == 0
    }

    /// Resets every bucket, keeping the size classes.
    pub fn clear(&mut self)
        requires
            old(self).wf(),
        ensures
            final(self).wf(),
            final(self).infinity.count == COUNT_UNIT,
            final(self).buckets@.len() == 0,
    {
        self.infinity.clear();
        self.buckets.clear();
    }

    /// Records one access.  A cold access (no reuse distance) goes to
    /// the infinity bucket.  Otherwise the distance is unscaled under
    /// SHARDS, rounded up to a bucket size, and counted in that
    /// bucket, which is created if missing; an existing bucket is
    /// first re-expressed under the current threshold.
    pub fn increment(&mut self, shards: Option<&Shards>, reuse_distance: Option<u64>)
        requires
            old(self).wf(),
            match shards {
                Some(s) => s.wf(),
                None => true,
            },
        ensures
            final(self).wf(),
            reuse_distance is None ==> final(self).buckets@ == old(self).buckets@
                && final(self).infinity == bucket_touched(
                old(self).infinity,
                match shards {
                    Some(s) => Some(s.spec_global_t()),
                    None => None,
                },
            ),
            reuse_distance is Some ==> increment_transition(
                old(self).buckets@,
                final(self).buckets@,
                spec_rounded_reuse_distance(
                    match shards {
                        Some(s) => crate::shards::spec_unscale(
                            reuse_distance->0,
                            s.spec_global_t(),
                        ),
                        None => reuse_distance->0,
                    },
                ),
                match shards {
                    Some(s) => Some(s.spec_global_t()),
                    None => None,
                },
            ) && final(self).infinity == old(self).infinity,
    {
        let rd0 = match reuse_distance {
            Some(rd) => rd,
            None => {
                match shards {
                    Some(s) => {
                        self.infinity.rescale(s.get_global_t());
                    },
                    None => {},
                }
                self.infinity.increment();
                return ;
            },
        };
        let unscaled = match shards {
            Some(s) => s.unscale(rd0),
            None => rd0,
        };
        let rd = get_rounded_reuse_distance(unscaled);
        let ghost b0 = self.buckets@;
        proof {
            lemma_bucket_slot_splits(b0, rd);
        }
        // Find the first bucket at least as large as the rounded
        // distance.
        let mut pos: usize = 0;
        let n = self.buckets.len();
        while pos < n && self.buckets[pos].size < rd
            invariant
                pos <= n,
                n == self.buckets@.len(),
                self.buckets@ == b0,
                forall|i: int| 0 <= i < pos ==> (#[trigger] b0[i]).size < rd,
                bucket_slot(b0, rd) >= pos,
            decreases n - pos,
        {
            proof {
                lemma_bucket_slot_suffix(b0, rd, (pos + 1) as int);
            }
            pos = pos + 1;
        }
        proof {
            lemma_bucket_slot_splits(b0, rd);
            if pos < n {
                assert(b0[pos as int].size >= rd);
                if bucket_slot(b0, rd) > pos as int {
                    assert(b0[pos as int].size < rd);
                }
            }
        }
        if pos < n && self.buckets[pos].size == rd {
            let t: Option<u64> = match shards {
                Some(s) => Some(s.get_global_t()),
                None => None,
            };
            let bucket = &mut self.buckets[pos];
            hist_bucket_touch(bucket, t);
            proof {
                assert(forall|i: int|
                    0 <= i < self.buckets@.len() && i != pos ==> self.buckets@[i] == b0[i]);
                assert(sorted_sizes(self.buckets@)) by {
                    assert forall|i: int, j: int|
                        0 <= i < j < self.buckets@.len() implies self.buckets@[i].size
                        < self.buckets@[j].size by {
                        assert(b0[i].size < b0[j].size);
                        assert(self.buckets@[i].size == b0[i].size);
                        assert(self.buckets@[j].size == b0[j].size);
                    }
                }
            }
        } else {
            let t: Option<u64> = match shards {
                Some(s) => Some(s.get_global_t()),
                None => None,
            };
            let bucket = Bucket::new(rd, t);
            self.buckets.insert(pos, bucket);
            proof {
                let b1 = self.buckets@;
                assert forall|p: int, q: int|
                    0 <= p < q < b1.len() implies b1[p].size < b1[q].size && b1[p].count
                    <= COUNT_CAP by {
                    lemma_bucket_insert_index(b0, pos as int, bucket, p);
                    lemma_bucket_insert_index(b0, pos as int, bucket, q);
                    if pos < n {
                        assert(b0[pos as int].size > rd);
                    }
                }
                assert forall|p: int|
                    0 <= p < b1.len() implies ((#[trigger] b1[p].size) % BUCKET_SIZE == 0
                    || b1[p].size == u64::MAX) && b1[p].count <= COUNT_CAP by {
                    lemma_bucket_insert_index(b0, pos as int, bucket, p);
                }
            }
        }
    }

    /// Re-expresses every bucket under the sampler's current
    /// threshold.
    pub fn rescale_buckets(&mut self, shards: &Shards)
        requires
            old(self).wf(),
            shards.wf(),
        ensures
            final(self).wf(),
            final(self).buckets@.len() == old(self).buckets@.len(),
            forall|i: int|
                0 <= i < final(self).buckets@.len() ==> (#[trigger] final(self).buckets@[i])
                    == bucket_rescaled(old(self).buckets@[i], shards.spec_global_t()),
            final(self).infinity == old(self).infinity,
    {
        let t = shards.get_global_t();
        let n = self.buckets.len();
        let mut i: usize = 0;
        while i < n
            invariant
                i <= n,
                n == self.buckets@.len(),
                shards.wf(),
                t == shards.spec_global_t(),
                sorted_sizes(self.buckets@),
                aligned_sizes(self.buckets@),
                counts_in_range(self.buckets@),
                self.infinity == old(self).infinity,
                self.infinity.count <= COUNT_CAP,
                forall|j: int|
                    0 <= j < i ==> (#[trigger] self.buckets@[j]) == bucket_rescaled(
                        old(self).buckets@[j],
                        t,
                    ),
                forall|j: int|
                    i <= j < n ==> (#[trigger] self.buckets@[j]) == old(self).buckets@[j],
            decreases n - i,
        {
            let ghost b0 = self.buckets@;
            let bucket = &mut self.buckets[i];
            hist_bucket_rescale(bucket, t);
            proof {
                assert(forall|j: int| 0 <= j < n && j != i ==> self.buckets@[j] == b0[j]);
                assert(self.buckets@[i as int].size == b0[i as int].size);
                assert(sorted_sizes(self.buckets@)) by {
                    assert forall|p: int, q: int|
                        0 <= p < q < self.buckets@.len() implies self.buckets@[p].size
                        < self.buckets@[q].size by {
                        assert(self.buckets@[p].size == b0[p].size);
                        assert(self.buckets@[q].size == b0[q].size);
                    }
                }
            }
            i = i + 1;
        }
    }

    /// The total event count over all buckets including infinity,
    /// saturating at the counter cap.
    pub fn get_total(&self) -> (r: u128)
        requires
            self.wf(),
        ensures
            r == if self.infinity.count + sum_counts(self.buckets@) <= COUNT_CAP {
                (self.infinity.count + sum_counts(self.buckets@)) as u128
            } else {
                COUNT_CAP
            },
    {
        let mut total: u128 = self.infinity.count;
        let n = self.buckets.len();
        let mut i: usize = 0;
        proof {
            assert(self.buckets@.subrange(0, 0) =~= Seq::<Bucket>::empty());
        }
        while i < n
            invariant
                i <= n,
                n == self.buckets@.len(),
                self.wf(),
                total == if self.infinity.count + sum_counts(self.buckets@.subrange(0, i as int))
                    <= COUNT_CAP {
                    (self.infinity.count + sum_counts(self.buckets@.subrange(0, i as int))) as u128
                } else {
                    COUNT_CAP
                },
            decreases n - i,
        {
            let ghost pre = self.buckets@.subrange(0, i as int);
            let ghost post = self.buckets@.subrange(0, i + 1);
            proof {
                assert(post.drop_last() =~= pre);
                assert(post.last() == self.buckets@[i as int]);
                lemma_sum_counts_nonneg(pre);
            }
            let c = self.buckets[i].count;
            total = if total <= COUNT_CAP - c {
                total + c
            } else {
                COUNT_CAP
            };
            i = i + 1;
        }
        proof {
            assert(self.buckets@.subrange(0, n as int) =~= self.buckets@);
        }
        total
    }

    /// The total with the SHARDS correction folded in; may be negative
    /// when far fewer samples arrived than expected.
    pub fn get_corrected_total(&self, shards: &Shards) -> (r: i128)
        requires
            self.wf(),
            shards.wf(),
        ensures
            ({
                let total = if self.infinity.count + sum_counts(self.buckets@) <= COUNT_CAP {
                    self.infinity.count + sum_counts(self.buckets@)
                } else {
                    COUNT_CAP as int
                };
                let corr = if shards.spec_correction() > i64::MAX {
                    i64::MAX as int
                } else if shards.spec_correction() < i64::MIN {
                    i64::MIN as int
                } else {
                    shards.spec_correction()
                };
                r == total + corr * COUNT_UNIT
            }),
    {
        let total = self.get_total();
        let corr = shards.get_correction();
        proof {
            lemma_sum_counts_nonneg(self.buckets@);
            assert(total <= COUNT_CAP);
            assert((corr as i128) * (COUNT_UNIT as i128) <= i64::MAX * COUNT_UNIT && (corr as i128)
                * (COUNT_UNIT as i128) >= i64::MIN * COUNT_UNIT) by (nonlinear_arith)
                requires
                    i64::MIN <= corr <= i64::MAX,
                    COUNT_UNIT == 16777216,
            {}
        }
        (total as i128) + (corr as i128) * (COUNT_UNIT as i128)
    }

    /// Drops every bucket whose size class exceeds `size`.
    pub fn resize(&mut self, size: u64)
        requires
            old(self).wf(),
        ensures
            final(self).wf(),
            final(self).buckets@ == old(self).buckets@.filter(|b: Bucket| b.size <= size),
            final(self).infinity == old(self).infinity,
    {
        let n = self.buckets.len();
        let mut out: Vec<Bucket> = Vec::new();
        let mut i: usize = 0;
        let ghost b0 = self.buckets@;
        let ghost pred = |b: Bucket| b.size <= size;
        proof {
            assert(b0.subrange(0, 0) =~= Seq::<Bucket>::empty());
            reveal(Seq::filter);
        }
        while i < n
            invariant
                i <= n,
                n == b0.len(),
                self.buckets@ == b0,
                out@ == b0.subrange(0, i as int).filter(pred),
                pred == (|b: Bucket| b.size <= size),
            decreases n - i,
        {
            let ghost pre = b0.subrange(0, i as int);
            let ghost post = b0.subrange(0, i + 1);
            proof {
                reveal(Seq::filter);
                assert(post.drop_last() =~= pre);
                assert(post.last() == b0[i as int]);
            }
            if self.buckets[i].size <= size {
                out.push(self.buckets[i]);
            }
            i = i + 1;
        }
        proof {
            assert(b0.subrange(0, n as int) =~= b0);
        }
        self.buckets = out;
        proof {
            let kept = b0.filter(pred);
            assert forall|p: int, q: int|
                0 <= p < q < kept.len() implies kept[p].size < kept[q].size && kept[p].count
                <= COUNT_CAP by {
                lemma_filter_is_subseq_pair(b0, pred, p, q);
            }
            assert forall|p: int|
                0 <= p < kept.len() implies ((#[trigger] kept[p].size) % BUCKET_SIZE == 0
                || kept[p].size == u64::MAX) && kept[p].count <= COUNT_CAP by {
                lemma_filter_is_subseq_pair(b0, pred, if p > 0 {
                    p - 1
                } else {
                    p
                }, p);
            }
        }
    }

    /// `resize` in unscaled units: drops buckets above the projection
    /// of `size` to the full trace.
    pub fn scaled_resize(&mut self, shards: &Shards, size: u64)
        requires
            old(self).wf(),
        ensures
            final(self).wf(),
            final(self).buckets@ == old(self).buckets@.filter(
                |b: Bucket| b.size <= crate::shards::spec_unscale(size, shards.spec_global_t()),
            ),
            final(self).infinity == old(self).infinity,
    {
        let unscaled = shards.unscale(size);
        self.resize(unscaled);
    }
}

/// Rescales (under SHARDS) and increments one bucket in place.
fn hist_bucket_touch(bucket: &mut Bucket, t: Option<u64>)
    requires
        old(bucket).count <= COUNT_CAP,
        match t {
            Some(t) => t <= crate::SHARDS_MODULUS,
            None => true,
        },
    ensures
        final(bucket).size == old(bucket).size,
        final(bucket).count <= COUNT_CAP,
        *final(bucket) == bucket_touched(*old(bucket), t),
{
    match t {
        Some(t) => {
            bucket.rescale(t);
        },
        None => {},
    }
    bucket.increment();
}

fn hist_bucket_rescale(bucket: &mut Bucket, t: u64)
    requires
        old(bucket).count <= COUNT_CAP,
        t <= crate::SHARDS_MODULUS,
    ensures
        final(bucket).size == old(bucket).size,
        final(bucket).count <= COUNT_CAP,
        *final(bucket) == bucket_rescaled(*old(bucket), t),
{
    bucket.rescale(t);
}

proof fn lemma_bucket_slot_suffix(s: Seq<Bucket>, sz: u64, i: int)
    requires
        0 < i <= s.len(),
        forall|j: int| 0 <= j < i ==> (#[trigger] s[j]).size < sz,
    ensures
        bucket_slot(s, sz) >= i,
    decreases i,
{
    let tail = s.subrange(1, s.len() as int);
    if i > 1 {
        assert(forall|j: int| 0 <= j < i - 1 ==> (#[trigger] tail[j]).size < sz);
        lemma_bucket_slot_suffix(tail, sz, i - 1);
    } else {
        lemma_bucket_slot_nonneg(tail, sz);
    }
}

proof fn lemma_bucket_slot_nonneg(s: Seq<Bucket>, sz: u64)
    ensures
        bucket_slot(s, sz) >= 0,
    decreases s.len(),
{
    if !(s.len() == 0 || s[0].size >= sz) {
        lemma_bucket_slot_nonneg(s.subrange(1, s.len() as int), sz);
    }
}

proof fn lemma_bucket_insert_index(s: Seq<Bucket>, i: int, e: Bucket, j: int)
    requires
        0 <= i <= s.len(),
        0 <= j < s.len() + 1,
    ensures
        j < i ==> s.insert(i, e)[j] == s[j],
        j == i ==> s.insert(i, e)[j] == e,
        j > i ==> s.insert(i, e)[j] == s[j - 1],
{
}

/// Each filtered element is an element of the original, and two
/// filtered positions come from two original positions in order.
proof fn lemma_filter_is_subseq_pair(s: Seq<Bucket>, pred: spec_fn(Bucket) -> bool, p: int, q: int)
    requires
        0 <= p <= q < s.filter(pred).len(),
    ensures
        exists|a: int, b: int|
            0 <= a <= b < s.len() && (p < q ==> a < b) && s.filter(pred)[p] == s[a] && s.filter(
                pred,
            )[q] == s[b],
    decreases s.len(),
{
    reveal(Seq::filter);
    if s.len() > 0 {
        let head = s.drop_last();
        let f = s.filter(pred);
        let fh = head.filter(pred);
        if q < fh.len() {
            lemma_filter_is_subseq_pair(head, pred, p, q);
            let (a, b) = choose|a: int, b: int|
                0 <= a <= b < head.len() && (p < q ==> a < b) && fh[p] == head[a] && fh[q]
                    == head[b];
            assert(f[p] == s[a] && f[q] == s[b]);
        } else {
            assert(pred(s.last()));
            assert(q == f.len() - 1 && f[q] == s.last());
            if p < q || p == q {
                if p == q {
                    assert(f[p] == s[s.len() - 1]);
                } else {
                    lemma_filter_is_subseq_pair(head, pred, p, p);
                    let (a, b) = choose|a: int, b: int|
                        0 <= a <= b < head.len() && (p < p ==> a < b) && fh[p] == head[a] && fh[p]
                            == head[b];
                    assert(f[p] == s[a] && f[q] == s[s.len() - 1]);
                }
            }
        }
    }
}

} // verus!
