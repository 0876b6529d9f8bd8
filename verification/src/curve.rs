use vstd::prelude::*;
use crate::histogram::{sum_counts, Bucket, Histogram};
use crate::shards::Shards;
use crate::{COUNT_CAP, COUNT_UNIT, RATIO_ONE};

verus! {

/// An individual point on a miss-ratio curve; the ratio is kept in
/// `RATIO_ONE` fixed point.
#[derive(Debug, Clone, Copy, PartialEq, Eq, Structural)]
pub struct Point {
    pub size: u64,
    pub miss_ratio: u64,
}

/// A miss-ratio curve: points with strictly increasing sizes and
/// ratios in `[0, 1]`.
pub struct Curve {
    pub points: Vec<Point>,
}

pub open spec fn points_sorted(s: Seq<Point>) -> bool {
    forall|i: int, j: int| 0 <= i < j < s.len() ==> s[i].size < s[j].size
}

pub open spec fn ratios_in_range(s: Seq<Point>) -> bool {
    forall|i: int| 0 <= i < s.len() ==> (#[trigger] s[i].miss_ratio) <= RATIO_ONE
}

/// The miss ratio the curve reports at `sz`: the ratio of the greatest
/// point at or below `sz`, or one when no point lies there.
pub open spec fn spec_lookup(s: Seq<Point>, sz: u64) -> u64
    decreases s.len(),
{
    if s.len() == 0 {
        RATIO_ONE
    } else if s.last().size <= sz {
        s.last().miss_ratio
    } else {
        spec_lookup(s.drop_last(), sz)
    }
}

/// The miss ratio `1 - current/total` in fixed point, clamped to
/// `[0, 1]`; an empty or exhausted total reads as all misses.
pub open spec fn mr_of(current: int, total: int) -> u64 {
    if total <= 0 {
        RATIO_ONE
    } else if current >= total {
        0
    } else if current <= 0 {
        RATIO_ONE
    } else {
        ((total - current) * RATIO_ONE / total) as u64
    }
}

/// Ceiling of the corrected accumulator: far above any reachable
/// total, so capping never changes a meaningful miss ratio.
pub const CURVE_ACC_CAP: u128 = 0x40000000000000000000000;

pub open spec fn acc_capped(x: int) -> int {
    if x <= CURVE_ACC_CAP {
        x
    } else {
        CURVE_ACC_CAP as int
    }
}

/// One step of the corrected accumulation: add the bucket's count,
/// then settle the outstanding correction.  A positive correction is
/// folded in whole; a negative one eats the accumulated count until it
/// is paid down.  The accumulator saturates far above any meaningful
/// total.
pub open spec fn corr_apply(cur: int, corr: int) -> (int, int) {
    if corr > 0 || (corr < 0 && -corr < cur) {
        (acc_capped(cur + corr), 0)
    } else if corr < 0 {
        (0, corr + cur)
    } else {
        (cur, corr)
    }
}

/// The `(current, correction)` state after folding the counts of the
/// first buckets, starting from correction `c0`.
pub open spec fn corr_fold(s: Seq<Bucket>, c0: int) -> (int, int)
    decreases s.len(),
{
    if s.len() == 0 {
        (0, c0)
    } else {
        let prev = corr_fold(s.drop_last(), c0);
        corr_apply(acc_capped(prev.0 + s.last().count), prev.1)
    }
}

/// The accumulated count never goes negative and stays under its cap,
/// and while the correction is still negative the count is pinned at
/// zero.
pub proof fn lemma_corr_fold_nonneg(s: Seq<Bucket>, c0: int)
    ensures
        0 <= corr_fold(s, c0).0 <= CURVE_ACC_CAP,
        corr_fold(s, c0).1 < 0 ==> corr_fold(s, c0).0 == 0,
        corr_fold(s, c0).1 < 0 ==> corr_fold(s, c0).1 >= c0,
        corr_fold(s, c0).1 <= if c0 > 0 {
            c0
        } else {
            0
        },
    decreases s.len(),
{
    if s.len() > 0 {
        lemma_corr_fold_nonneg(s.drop_last(), c0);
    }
}

/// The accumulated count never decreases as more buckets are folded.
pub proof fn lemma_corr_fold_monotone(s: Seq<Bucket>, c0: int, i: int, j: int)
    requires
        0 <= i <= j <= s.len(),
    ensures
        corr_fold(s.subrange(0, i), c0).0 <= corr_fold(s.subrange(0, j), c0).0,
    decreases j - i,
{
    if i < j {
        lemma_corr_fold_monotone(s, c0, i, j - 1);
        let p = s.subrange(0, j - 1);
        let q = s.subrange(0, j);
        assert(q.drop_last() =~= p);
        lemma_corr_fold_nonneg(p, c0);
        let prev = corr_fold(p, c0);
        assert(corr_fold(q, c0) == corr_apply(acc_capped(prev.0 + q.last().count), prev.1));
    }
}

/// A larger accumulated count never raises the miss ratio.
pub proof fn lemma_mr_of_antitone(c1: int, c2: int, total: int)
    requires
        c1 <= c2,
    ensures
        mr_of(c1, total) >= mr_of(c2, total),
{
    if total > 0 && 0 < c1 && c2 < total {
        assert((total - c1) * RATIO_ONE / total >= (total - c2) * RATIO_ONE / total && (total - c1)
            * RATIO_ONE / total <= RATIO_ONE) by (nonlinear_arith)
            requires
                0 < c1 <= c2 < total,
                RATIO_ONE == 4294967296,
        {}
    } else if total > 0 && c1 <= 0 {
        assert(mr_of(c1, total) == RATIO_ONE);
        if 0 < c2 && c2 < total {
            assert((total - c2) * RATIO_ONE / total <= RATIO_ONE) by (nonlinear_arith)
                requires
                    0 < c2 < total,
                    RATIO_ONE == 4294967296,
            {}
        }
    }
}

/// `mr_of` always lands in `[0, 1]`.
pub proof fn lemma_mr_of_in_range(current: int, total: int)
    ensures
        mr_of(current, total) <= RATIO_ONE,
{
    if total > 0 && 0 < current && current < total {
        assert((total - current) * RATIO_ONE / total <= RATIO_ONE) by (nonlinear_arith)
            requires
                0 < current < total,
                RATIO_ONE == 4294967296,
        {}
    }
}

/// Computes `mr_of` on machine integers.
fn mr_of_value(current: i128, total: i128) -> (r: u64)
    requires
        total <= 0x40000000000000000000000,
        current <= 0x40000000000000000000000,
    ensures
        r == mr_of(current as int, total as int),
        r <= RATIO_ONE,
{
    proof {
        lemma_mr_of_in_range(current as int, total as int);
    }
    if total <= 0 {
        RATIO_ONE
    } else if current >= total {
        0
    } else if current <= 0 {
        RATIO_ONE
    } else {
        proof {
            assert((total - current) * RATIO_ONE / (total as int) <= RATIO_ONE && 0 <= (total
                - current) * RATIO_ONE <= 0x40000000000000000000000 * RATIO_ONE)
                by (nonlinear_arith)
                requires
                    0 < current < total <= 0x40000000000000000000000,
                    RATIO_ONE == 4294967296,
            {}
        }
        ((total - current) * (RATIO_ONE as i128) / total) as u64
    }
}

impl Point {
    pub fn new(size: u64, miss_ratio: u64) -> (r: Point)
        ensures
            r.size == size,
            r.miss_ratio == miss_ratio,
    {
        Point { size, miss_ratio }
    }

    pub fn get_size(&self) -> (r: u64)
        ensures
            r == self.size,
    {
        self.size
    }

    /// The miss ratio in `RATIO_ONE` fixed point.
    pub fn get_miss_ratio(&self) -> (r: u64)
        ensures
            r == self.miss_ratio,
    {
        self.miss_ratio
    }
}

impl Curve {
    pub open spec fn wf(&self) -> bool {
        &&& points_sorted(self.points@)
        &&& ratios_in_range(self.points@)
    }

    /// Returns an empty curve.
    pub fn new() -> (r: Curve)
        ensures
            r.wf(),
            r.points@.len() == 0,
    {
        Curve { points: Vec::new() }
    }

    /// The number of points on the curve.
    pub fn size(&self) -> (r: usize)
        ensures
            r == self.points@.len(),
    {
        self.points.len()
    }

    pub fn is_empty(&self) -> (r: bool)
        ensures
            r == (self.points@.len() == 0),
    {
        self.points.len() == 0
    }

    /// The largest size on the curve, or zero when empty.
    pub fn get_max_size(&self) -> (r: u64)
        ensures
            r == if self.points@.len() == 0 {
                0
            } else {
                self.points@.last().size
            },
    {
        if self.points.len() == 0 {
            0
        } else {
            self.points[self.points.len() - 1].size
        }
    }

    /// The miss ratio at `size`: that of the greatest point at or
    /// below it, or one if the curve has no point there.
    pub fn get_miss_ratio(&self, size: u64) -> (r: u64)
        requires
            self.wf(),
        ensures
            r == spec_lookup(self.points@, size),
            r <= RATIO_ONE,
    {
        let n = self.points.len();
        let mut i: usize = n;
        proof {
            assert(self.points@.subrange(0, n as int) =~= self.points@);
        }
        while i > 0
            invariant
                i <= n,
                n == self.points@.len(),
                self.wf(),
                spec_lookup(self.points@, size) == spec_lookup(
                    self.points@.subrange(0, i as int),
                    size,
                ),
            decreases i,
        {
            let ghost cur = self.points@.subrange(0, i as int);
            proof {
                assert(cur.drop_last() =~= self.points@.subrange(0, i - 1));
                assert(cur.last() == self.points@[i - 1]);
            }
            if self.points[i - 1].size <= size {
                return self.points[i - 1].miss_ratio;
            }
            i = i - 1;
        }
        proof {
            assert(self.points@.subrange(0, 0) =~= Seq::<Point>::empty());
        }
        RATIO_ONE
    }

    /// Adds (or replaces) the point at `size`.
    pub fn add(&mut self, size: u64, miss_ratio: u64)
        requires
            old(self).wf(),
            miss_ratio <= RATIO_ONE,
        ensures
            final(self).wf(),
            exists|i: int|
                0 <= i < final(self).points@.len() && final(self).points@[i] == (Point {
                    size,
                    miss_ratio,
                }),
            ({
                let pos = point_slot(old(self).points@, size);
                if pos < old(self).points@.len() && old(self).points@[pos].size == size {
                    final(self).points@ == old(self).points@.update(
                        pos,
                        Point { size, miss_ratio },
                    )
                } else {
                    final(self).points@ == old(self).points@.insert(
                        pos,
                        Point { size, miss_ratio },
                    )
                }
            }),
    {
        let n = self.points.len();
        let mut pos: usize = 0;
        proof {
            lemma_point_slot_splits(self.points@, size);
        }
        while pos < n && self.points[pos].size < size
            invariant
                pos <= n,
                n == self.points@.len(),
                self.wf(),
                forall|i: int| 0 <= i < pos ==> (#[trigger] self.points@[i]).size < size,
                point_slot(self.points@, size) >= pos,
            decreases n - pos,
        {
            proof {
                lemma_point_slot_suffix(self.points@, size, pos + 1);
            }
            pos = pos + 1;
        }
        proof {
            lemma_point_slot_splits(self.points@, size);
            if pos < n {
                assert(self.points@[pos as int].size >= size);
                if point_slot(self.points@, size) > pos as int {
                    assert(self.points@[pos as int].size < size);
                }
            }
        }
        let p = Point { size, miss_ratio };
        if pos < n && self.points[pos].size == size {
            let ghost s0 = self.points@;
            let slot = &mut self.points[pos];
            *slot = p;
            proof {
                assert(self.points@[pos as int] == p);
                assert(forall|i: int| 0 <= i < n && i != pos ==> self.points@[i] == s0[i]);
                assert(points_sorted(self.points@)) by {
                    assert forall|i: int, j: int|
                        0 <= i < j < self.points@.len() implies self.points@[i].size
                        < self.points@[j].size by {
                        assert(s0[i].size < s0[j].size);
                        if i == pos {
                            assert(self.points@[i].size == size == s0[i].size);
                        }
                        if j == pos {
                            assert(self.points@[j].size == size == s0[j].size);
                        }
                    }
                }
            }
        } else {
            let ghost s0 = self.points@;
            self.points.insert(pos, p);
            proof {
                let s1 = self.points@;
                assert forall|i: int, j: int|
                    0 <= i < j < s1.len() implies s1[i].size < s1[j].size && s1[i].miss_ratio
                    <= RATIO_ONE by {
                    lemma_point_insert_index(s0, pos as int, p, i);
                    lemma_point_insert_index(s0, pos as int, p, j);
                    if pos < n {
                        assert(s0[pos as int].size > size);
                    }
                }
                assert forall|i: int|
                    0 <= i < s1.len() implies (#[trigger] s1[i].miss_ratio) <= RATIO_ONE by {
                    lemma_point_insert_index(s0, pos as int, p, i);
                }
                assert(s1[pos as int] == p);
            }
        }
    }

    /// Builds the curve of a plain histogram: counts accumulate in
    /// bucket order and each bucket emits the miss ratio of what lies
    /// beyond it.
    pub fn from_histogram(histogram: &Histogram) -> (r: Curve)
        requires
            histogram.wf(),
        ensures
            r.wf(),
            r.points@ == plain_curve_points(histogram),
            r.points@.len() == histogram.buckets@.len(),
            forall|i: int|
                0 <= i < r.points@.len() ==> (#[trigger] r.points@[i]) == (Point {
                    size: histogram.buckets@[i].size,
                    miss_ratio: mr_of(
                        capped(sum_counts(histogram.buckets@.subrange(0, i + 1))),
                        capped(histogram.infinity.count + sum_counts(histogram.buckets@)),
                    ),
                }),
    {
        let total = histogram.get_total();
        let n = histogram.buckets.len();
        let mut points: Vec<Point> = Vec::new();
        let mut current: u128 = 0;
        let mut i: usize = 0;
        proof {
            assert(histogram.buckets@.subrange(0, 0) =~= Seq::<Bucket>::empty());
            lemma_sum_counts_nonneg_local(histogram.buckets@);
        }
        while i < n
            invariant
                i <= n,
                n == histogram.buckets@.len(),
                histogram.wf(),
                total == capped(histogram.infinity.count + sum_counts(histogram.buckets@)),
                total <= COUNT_CAP,
                current == capped(sum_counts(histogram.buckets@.subrange(0, i as int))),
                current <= COUNT_CAP,
                points@.len() == i,
                forall|j: int|
                    0 <= j < i ==> (#[trigger] points@[j]) == (Point {
                        size: histogram.buckets@[j].size,
                        miss_ratio: mr_of(
                            capped(sum_counts(histogram.buckets@.subrange(0, j + 1))),
                            capped(histogram.infinity.count + sum_counts(histogram.buckets@)),
                        ),
                    }),
            decreases n - i,
        {
            let ghost pre = histogram.buckets@.subrange(0, i as int);
            let ghost post = histogram.buckets@.subrange(0, i + 1);
            proof {
                assert(post.drop_last() =~= pre);
                assert(post.last() == histogram.buckets@[i as int]);
                lemma_sum_counts_nonneg_local(pre);
            }
            let c = self_count(&histogram.buckets, i);
            current = if current <= COUNT_CAP - c {
                current + c
            } else {
                COUNT_CAP
            };
            let mr = mr_of_value(current as i128, total as i128);
            points.push(Point { size: self_size(&histogram.buckets, i), miss_ratio: mr });
            i = i + 1;
        }
        proof {
            assert(histogram.buckets@.subrange(0, n as int) =~= histogram.buckets@);
        }
        let r = Curve { points };
        proof {
            assert(points_sorted(r.points@)) by {
                assert forall|p: int, q: int|
                    0 <= p < q < r.points@.len() implies r.points@[p].size < r.points@[q].size by {
                    assert(histogram.buckets@[p].size < histogram.buckets@[q].size);
                }
            }
            assert(ratios_in_range(r.points@)) by {
                assert forall|p: int|
                    0 <= p < r.points@.len() implies (#[trigger] r.points@[p].miss_ratio)
                    <= RATIO_ONE by {
                    lemma_mr_of_in_range(
                        capped(sum_counts(histogram.buckets@.subrange(0, p + 1))),
                        capped(histogram.infinity.count + sum_counts(histogram.buckets@)),
                    );
                }
            }
            assert(r.points@ =~= plain_curve_points(histogram));
        }
        r
    }

    /// Builds the curve of a histogram under SHARDS, folding the
    /// sampler's correction into the running count as the buckets are
    /// accumulated.
    pub fn from_corrected_histogram(histogram: &Histogram, shards: &Shards) -> (r: Curve)
        requires
            histogram.wf(),
            shards.wf(),
        ensures
            r.wf(),
            r.points@ == corrected_curve_points(histogram, shards),
            r.points@.len() == histogram.buckets@.len(),
            forall|i: int|
                0 <= i < r.points@.len() ==> (#[trigger] r.points@[i]) == (Point {
                    size: histogram.buckets@[i].size,
                    miss_ratio: mr_of(
                        corr_fold(
                            histogram.buckets@.subrange(0, i + 1),
                            clamped_correction_fp(shards),
                        ).0,
                        corrected_total_of(histogram, shards),
                    ),
                }),
    {
        let total: i128 = histogram.get_corrected_total(shards);
        let corr0: i128 = (shards.get_correction() as i128) * (COUNT_UNIT as i128);
        let n = histogram.buckets.len();
        let mut points: Vec<Point> = Vec::new();
        let mut current: i128 = 0;
        let mut corr: i128 = corr0;
        let mut i: usize = 0;
        proof {
            assert(histogram.buckets@.subrange(0, 0) =~= Seq::<Bucket>::empty());
            assert((corr as int) * 1 == corr);
        }
        while i < n
            invariant
                i <= n,
                n == histogram.buckets@.len(),
                histogram.wf(),
                shards.wf(),
                total == corrected_total_of(histogram, shards),
                total <= 0x20000000000000000000000,
                (current as int, corr as int) == corr_fold(
                    histogram.buckets@.subrange(0, i as int),
                    clamped_correction_fp(shards),
                ),
                0 <= current <= CURVE_ACC_CAP,
                -0x20000000000000000000000 <= corr <= 0x20000000000000000000000,
                points@.len() == i,
                forall|j: int|
                    0 <= j < i ==> (#[trigger] points@[j]) == (Point {
                        size: histogram.buckets@[j].size,
                        miss_ratio: mr_of(
                            corr_fold(
                                histogram.buckets@.subrange(0, j + 1),
                                clamped_correction_fp(shards),
                            ).0,
                            corrected_total_of(histogram, shards),
                        ),
                    }),
            decreases n - i,
        {
            let ghost pre = histogram.buckets@.subrange(0, i as int);
            let ghost post = histogram.buckets@.subrange(0, i + 1);
            proof {
                assert(post.drop_last() =~= pre);
                assert(post.last() == histogram.buckets@[i as int]);
                lemma_corr_fold_nonneg(pre, clamped_correction_fp(shards));
            }
            let c = self_count(&histogram.buckets, i);
            current = current + (c as i128);
            if current > CURVE_ACC_CAP as i128 {
                current = CURVE_ACC_CAP as i128;
            }
            if corr > 0 || (corr < 0 && -corr < current) {
                current = current + corr;
                if current > CURVE_ACC_CAP as i128 {
                    current = CURVE_ACC_CAP as i128;
                }
                corr = 0;
            } else if corr < 0 {
                corr = corr + current;
                current = 0;
            }
            let mr = mr_of_value(current, total);
            points.push(Point { size: self_size(&histogram.buckets, i), miss_ratio: mr });
            proof {
                lemma_corr_fold_nonneg(post, clamped_correction_fp(shards));
            }
            i = i + 1;
        }
        let r = Curve { points };
        proof {
            assert(points_sorted(r.points@)) by {
                assert forall|p: int, q: int|
                    0 <= p < q < r.points@.len() implies r.points@[p].size < r.points@[q].size by {
                    assert(histogram.buckets@[p].size < histogram.buckets@[q].size);
                }
            }
            assert(ratios_in_range(r.points@)) by {
                assert forall|p: int|
                    0 <= p < r.points@.len() implies (#[trigger] r.points@[p].miss_ratio)
                    <= RATIO_ONE by {
                    lemma_mr_of_in_range(
                        corr_fold(
                            histogram.buckets@.subrange(0, p + 1),
                            clamped_correction_fp(shards),
                        ).0,
                        corrected_total_of(histogram, shards),
                    );
                }
            }
            assert(r.points@ =~= corrected_curve_points(histogram, shards));
        }
        r
    }

    /// The mean absolute difference between two curves, sampled at one
    /// hundred evenly spaced sizes over the larger of their ranges.
    pub fn mae(&self, other: &Curve) -> (r: u64)
        requires
            self.wf(),
            other.wf(),
            self.spec_max_size() >= 100 || other.spec_max_size() >= 100,
        ensures
            ({
                let max = if self.spec_max_size() >= other.spec_max_size() {
                    self.spec_max_size()
                } else {
                    other.spec_max_size()
                };
                let step = max / 100;
                r == mae_sum(
                    self.points@,
                    other.points@,
                    step,
                    (max + step - 1) as int / (step as int),
                ) / 100
            }),
    {
        let max1 = self.get_max_size();
        let max2 = other.get_max_size();
        let max = if max1 >= max2 {
            max1
        } else {
            max2
        };
        let step = max / 100;
        let ghost count = (max + step - 1) as int / (step as int);
        proof {
            vstd::arithmetic::div_mod::lemma_fundamental_div_mod(max as int, 100);
            vstd::arithmetic::div_mod::lemma_fundamental_div_mod(
                (max + step - 1) as int,
                step as int,
            );
            assert(1 <= count <= 201) by (nonlinear_arith)
                requires
                    step >= 1,
                    100 * step <= max,
                    max < 100 * step + 100,
                    (max + step - 1) as int == count * step + ((max + step - 1) as int % (
                    step as int)),
                    0 <= (max + step - 1) as int % (step as int) < step,
            {}
        }
        let mut total_err: u64 = 0;
        let mut j: u64 = 1;
        while j <= 201 && sample_in_range(j, step, max)
            invariant
                self.wf(),
                other.wf(),
                step >= 1,
                step == max / 100,
                max >= 100,
                count == (max + step - 1) as int / (step as int),
                1 <= count <= 201,
                1 <= j <= count + 1,
                j <= 202,
                (j - 1) * step < max + step,
                total_err == mae_sum(self.points@, other.points@, step, j - 1),
                total_err <= (j - 1) * RATIO_ONE,
            decreases 202 - j,
        {
            proof {
                vstd::arithmetic::div_mod::lemma_fundamental_div_mod(
                    (max + step - 1) as int,
                    step as int,
                );
                assert(j <= count) by (nonlinear_arith)
                    requires
                        j * step < max + step,
                        step >= 1,
                        (max + step - 1) as int == count * step + ((max + step - 1) as int % (
                        step as int)),
                        0 <= (max + step - 1) as int % (step as int) < step,
                        j >= 1,
                {}
            }
            let sz128: u128 = (j as u128) * (step as u128);
            let sz: u64 = if sz128 <= u64::MAX as u128 {
                sz128 as u64
            } else {
                u64::MAX
            };
            proof {
                assert(sz == sample_size(step, j as int));
            }
            let a = self.get_miss_ratio(sz);
            let b = other.get_miss_ratio(sz);
            let d = if a >= b {
                a - b
            } else {
                b - a
            };
            proof {
                assert(j * RATIO_ONE == (j - 1) * RATIO_ONE + RATIO_ONE) by (nonlinear_arith);
                assert(0 <= (j - 1) * RATIO_ONE && j * RATIO_ONE <= 202 * RATIO_ONE) by (
                nonlinear_arith)
                    requires
                        1 <= j <= 202,
                        RATIO_ONE == 4294967296,
                {}
            }
            total_err = total_err + d;
            j = j + 1;
        }
        proof {
            vstd::arithmetic::div_mod::lemma_fundamental_div_mod(
                (max + step - 1) as int,
                step as int,
            );
            if j <= 201 {
                assert(j * step >= max + step);
                assert(j == count + 1) by (nonlinear_arith)
                    requires
                        j * step >= max + step,
                        (j - 1) * step < max + step,
                        step >= 1,
                        (max + step - 1) as int == count * step + ((max + step - 1) as int % (
                        step as int)),
                        0 <= (max + step - 1) as int % (step as int) < step,
                        j >= 1,
                {}
            } else {
                assert(j == 202 && count <= 201 && j <= count + 1);
            }
        }
        total_err / 100
    }

    pub open spec fn spec_max_size(&self) -> u64 {
        if self.points@.len() == 0 {
            0
        } else {
            self.points@.last().size
        }
    }
}

/// Whether the `j`-th sample still lies inside the sampled range.
fn sample_in_range(j: u64, step: u64, max: u64) -> (r: bool)
    ensures
        r == (j * step < max + step),
{
    proof {
        assert(j * step <= u64::MAX as int * (u64::MAX as int)) by (nonlinear_arith)
            requires
                0 <= j <= u64::MAX,
                0 <= step <= u64::MAX,
        {}
    }
    (j as u128) * (step as u128) < (max as u128) + (step as u128)
}

/// The absolute difference of two fixed-point ratios.
pub open spec fn abs_diff(a: u64, b: u64) -> int {
    if a >= b {
        a - b
    } else {
        b - a
    }
}

/// The `k`-th sampled size: `k` steps, clamped to `u64`.
pub open spec fn sample_size(step: u64, k: int) -> u64 {
    if k * step <= u64::MAX {
        (k * step) as u64
    } else {
        u64::MAX
    }
}

/// The summed absolute difference of two curves over the first `k`
/// sampled sizes (multiples of `step`).
pub open spec fn mae_sum(c1: Seq<Point>, c2: Seq<Point>, step: u64, k: int) -> int
    decreases k,
{
    if k <= 0 {
        0
    } else {
        mae_sum(c1, c2, step, k - 1) + abs_diff(
            spec_lookup(c1, sample_size(step, k)),
            spec_lookup(c2, sample_size(step, k)),
        )
    }
}

/// A sum saturated at the counter cap.
pub open spec fn capped(x: int) -> int {
    if x <= COUNT_CAP {
        x
    } else {
        COUNT_CAP as int
    }
}

/// The corrected total a SHARDS histogram divides by.
pub open spec fn corrected_total_of(h: &Histogram, shards: &Shards) -> int {
    capped(h.infinity.count + sum_counts(h.buckets@)) + clamped_correction_fp(shards)
}

/// The slot where a point of `size` belongs: after all smaller sizes.
pub open spec fn point_slot(s: Seq<Point>, size: u64) -> int
    decreases s.len(),
{
    if s.len() == 0 || s[0].size >= size {
        0
    } else {
        1 + point_slot(s.subrange(1, s.len() as int), size)
    }
}

pub proof fn lemma_point_slot_splits(s: Seq<Point>, size: u64)
    requires
        points_sorted(s),
    ensures
        0 <= point_slot(s, size) <= s.len(),
        forall|i: int| 0 <= i < point_slot(s, size) ==> s[i].size < size,
        forall|i: int| point_slot(s, size) <= i < s.len() ==> s[i].size >= size,
    decreases s.len(),
{
    if s.len() == 0 || s[0].size >= size {
        if s.len() > 0 {
            assert forall|i: int| 0 <= i < s.len() implies s[i].size >= size by {
                if i > 0 {
                    assert(s[0].size < s[i].size);
                }
            }
        }
    } else {
        let tail = s.subrange(1, s.len() as int);
        assert(points_sorted(tail)) by {
            assert forall|i: int, j: int| 0 <= i < j < tail.len() implies tail[i].size
                < tail[j].size by {
                assert(tail[i] == s[i + 1] && tail[j] == s[j + 1]);
            }
        }
        lemma_point_slot_splits(tail, size);
        assert forall|i: int| 0 <= i < point_slot(s, size) implies s[i].size < size by {
            if i > 0 {
                assert(tail[i - 1].size < size);
            }
        }
        assert forall|i: int| point_slot(s, size) <= i < s.len() implies s[i].size >= size by {
            assert(tail[i - 1].size >= size);
        }
    }
}

proof fn lemma_point_slot_suffix(s: Seq<Point>, size: u64, i: int)
    requires
        0 < i <= s.len(),
        forall|j: int| 0 <= j < i ==> (#[trigger] s[j]).size < size,
    ensures
        point_slot(s, size) >= i,
    decreases i,
{
    let tail = s.subrange(1, s.len() as int);
    if i > 1 {
        assert(forall|j: int| 0 <= j < i - 1 ==> (#[trigger] tail[j]).size < size);
        lemma_point_slot_suffix(tail, size, i - 1);
    } else {
        lemma_point_slot_nonneg(tail, size);
    }
}

proof fn lemma_point_slot_nonneg(s: Seq<Point>, size: u64)
    ensures
        point_slot(s, size) >= 0,
    decreases s.len(),
{
    if !(s.len() == 0 || s[0].size >= size) {
        lemma_point_slot_nonneg(s.subrange(1, s.len() as int), size);
    }
}

/// The points `from_histogram` produces, as a sequence.
pub open spec fn plain_curve_points(h: &Histogram) -> Seq<Point> {
    Seq::new(
        h.buckets@.len(),
        |i: int|
            Point {
                size: h.buckets@[i].size,
                miss_ratio: mr_of(
                    capped(sum_counts(h.buckets@.subrange(0, i + 1))),
                    capped(h.infinity.count + sum_counts(h.buckets@)),
                ),
            },
    )
}

/// The points `from_corrected_histogram` produces, as a sequence.
pub open spec fn corrected_curve_points(h: &Histogram, shards: &Shards) -> Seq<Point> {
    Seq::new(
        h.buckets@.len(),
        |i: int|
            Point {
                size: h.buckets@[i].size,
                miss_ratio: mr_of(
                    corr_fold(h.buckets@.subrange(0, i + 1), clamped_correction_fp(shards)).0,
                    corrected_total_of(h, shards),
                ),
            },
    )
}

/// The sampler's correction clamped to `i64`, in count fixed point.
pub open spec fn clamped_correction_fp(shards: &Shards) -> int {
    (if shards.spec_correction() > i64::MAX {
        i64::MAX as int
    } else if shards.spec_correction() < i64::MIN {
        i64::MIN as int
    } else {
        shards.spec_correction()
    }) * COUNT_UNIT
}

fn self_count(buckets: &Vec<Bucket>, i: usize) -> (r: u128)
    requires
        i < buckets@.len(),
    ensures
        r == buckets@[i as int].count,
{
    buckets[i].count
}

fn self_size(buckets: &Vec<Bucket>, i: usize) -> (r: u64)
    requires
        i < buckets@.len(),
    ensures
        r == buckets@[i as int].size,
{
    buckets[i].size
}

proof fn lemma_sum_counts_nonneg_local(s: Seq<Bucket>)
    ensures
        sum_counts(s) >= 0,
{
    crate::histogram::lemma_sum_counts_nonneg(s);
}

pub proof fn lemma_point_insert_index(s: Seq<Point>, i: int, e: Point, j: int)
    requires
        0 <= i <= s.len(),
        0 <= j < s.len() + 1,
    ensures
        j < i ==> s.insert(i, e)[j] == s[j],
        j == i ==> s.insert(i, e)[j] == e,
        j > i ==> s.insert(i, e)[j] == s[j - 1],
{
}

/// Every curve built from a histogram under SHARDS has a
/// non-increasing miss ratio: admitting more cache never hurts.
pub proof fn lemma_corrected_curve_monotone(h: &Histogram, shards: &Shards, i: int, j: int)
    requires
        0 <= i <= j < h.buckets@.len(),
    ensures
        mr_of(
            corr_fold(h.buckets@.subrange(0, i + 1), clamped_correction_fp(shards)).0,
            corrected_total_of(h, shards),
        ) >= mr_of(
            corr_fold(h.buckets@.subrange(0, j + 1), clamped_correction_fp(shards)).0,
            corrected_total_of(h, shards),
        ),
{
    lemma_corr_fold_monotone(h.buckets@, clamped_correction_fp(shards), i + 1, j + 1);
    lemma_mr_of_antitone(
        corr_fold(h.buckets@.subrange(0, i + 1), clamped_correction_fp(shards)).0,
        corr_fold(h.buckets@.subrange(0, j + 1), clamped_correction_fp(shards)).0,
        corrected_total_of(h, shards),
    );
}

/// The same stacking property for a curve built without SHARDS.
pub proof fn lemma_plain_curve_monotone(h: &Histogram, i: int, j: int)
    requires
        0 <= i <= j < h.buckets@.len(),
    ensures
        mr_of(
            capped(sum_counts(h.buckets@.subrange(0, i + 1))),
            capped(h.infinity.count + sum_counts(h.buckets@)),
        ) >= mr_of(
            capped(sum_counts(h.buckets@.subrange(0, j + 1))),
            capped(h.infinity.count + sum_counts(h.buckets@)),
        ),
{
    lemma_sum_prefix_monotone(h.buckets@, i + 1, j + 1);
    lemma_mr_of_antitone(
        capped(sum_counts(h.buckets@.subrange(0, i + 1))),
        capped(sum_counts(h.buckets@.subrange(0, j + 1))),
        capped(h.infinity.count + sum_counts(h.buckets@)),
    );
}

proof fn lemma_sum_prefix_monotone(s: Seq<Bucket>, i: int, j: int)
    requires
        0 <= i <= j <= s.len(),
    ensures
        sum_counts(s.subrange(0, i)) <= sum_counts(s.subrange(0, j)),
        capped(sum_counts(s.subrange(0, i))) <= capped(sum_counts(s.subrange(0, j))),
    decreases j - i,
{
    if i < j {
        lemma_sum_prefix_monotone(s, i, j - 1);
        assert(s.subrange(0, j).drop_last() =~= s.subrange(0, j - 1));
    }
}

} // verus!
