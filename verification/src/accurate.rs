use vstd::prelude::*;
use crate::access::Access;
use crate::cache::policy::{CachePolicy, PolicyCache};
use crate::curve::{Curve, Point};

verus! {

/// Replays the whole trace against one concrete cache of the given
/// size and reports its miss ratio in fixed point.  Timestamps are
/// replaced by the access order, as the reference simulation does.
pub fn simulate_cache(policy: &CachePolicy, cache_size: u64, accesses: &Vec<Access>) -> (r: u64)
    requires
        policy.wf(),
    ensures
        r <= crate::RATIO_ONE,
{
    let mut cache: PolicyCache = policy.new_cache(cache_size);
    let mut count: u64 = 0;
    let n = accesses.len();
    let mut i: usize = 0;
    while i < n
        invariant
            i <= n,
            n == accesses@.len(),
            cache.wf(),
        decreases n - i,
    {
        let a = &accesses[i];
        if a.is_valid_self_populating() {
            let stamped = Access {
                timestamp: if count < u64::MAX {
                    count + 1
                } else {
                    count
                },
                ..a.clone()
            };
            if count < u64::MAX {
                count = count + 1;
            }
            cache.handle_self_populating(&stamped);
        }
        i = i + 1;
    }
    cache.miss_ratio()
}

/// The exact miss-ratio curve of one policy: one full-trace simulation
/// per sampled cache size, a hundred evenly spaced sizes up to the
/// working-set size.
pub fn simulate_curve(policy: &CachePolicy, wss: u64, accesses: &Vec<Access>) -> (r: Curve)
    requires
        policy.wf(),
    ensures
        r.wf(),
        ({
            let step = if wss > 100 {
                wss / 100
            } else {
                1
            };
            &&& r.points@.len() == wss as int / (step as int)
            &&& forall|j: int|
                0 <= j < r.points@.len() ==> (#[trigger] r.points@[j]).size == (j + 1) * step
        }),
{
    let step: u64 = if wss > 100 {
        wss / 100
    } else {
        1
    };
    proof {
        vstd::arithmetic::div_mod::lemma_fundamental_div_mod(wss as int, step as int);
        vstd::arithmetic::div_mod::lemma_fundamental_div_mod(wss as int, 100);
    }
    let ghost count = wss as int / (step as int);
    proof {
        assert(wss < (count + 1) * step && count <= 201) by (nonlinear_arith)
            requires
                step >= 1,
                wss == (step as int) * count + (wss as int) % (step as int),
                0 <= (wss as int) % (step as int) < step,
                wss == 100 * (wss as int / 100) + (wss as int) % 100,
                0 <= (wss as int) % 100 < 100,
                step == if wss > 100 {
                    wss as int / 100
                } else {
                    1
                },
                wss <= 100 || step == wss as int / 100,
                count >= 0,
        {}
    }
    let mut curve = Curve::new();
    let mut k: u64 = 1;
    while grid_in_range(k, step, wss)
        invariant
            curve.wf(),
            policy.wf(),
            step >= 1,
            1 <= k <= count + 1,
            count == wss as int / (step as int),
            count <= 201,
            count * step <= wss,
            wss < (count + 1) * step,
            curve.points@.len() == k - 1,
            forall|j: int|
                0 <= j < curve.points@.len() ==> (#[trigger] curve.points@[j]).size == (j + 1)
                    * step,
        decreases count + 1 - k,
    {
        proof {
            assert(k * step <= wss);
            assert(k <= count) by (nonlinear_arith)
                requires
                    k * step <= wss,
                    wss < (count + 1) * step,
                    step >= 1,
                    k >= 1,
                    count >= 0,
            {}
        }
        let cache_size: u64 = k * step;
        let mr = simulate_cache(policy, cache_size, accesses);
        let ghost t0 = curve.points@;
        curve.add(cache_size, mr);
        proof {
            crate::curve::lemma_point_slot_splits(t0, cache_size);
            let pos = crate::curve::point_slot(t0, cache_size);
            assert forall|j: int| 0 <= j < t0.len() implies (#[trigger] t0[j]).size
                < cache_size by {
                assert(t0[j].size == (j + 1) * step);
                assert((j + 1) * step < k * step) by (nonlinear_arith)
                    requires
                        0 <= j < t0.len(),
                        t0.len() == k - 1,
                        step >= 1,
                {}
            }
            assert(pos == t0.len()) by {
                if pos < t0.len() {
                    assert(t0[pos].size >= cache_size);
                }
            }
            assert(curve.points@ == t0.insert(t0.len() as int, Point { size: cache_size, miss_ratio: mr }));
            assert(curve.points@ =~= t0.push(Point { size: cache_size, miss_ratio: mr }));
        }
        k = k + 1;
    }
    proof {
        assert(k > count) by (nonlinear_arith)
            requires
                k * step > wss,
                count * step <= wss,
                step >= 1,
                k >= 1,
                count >= 0,
        {}
        assert(k == count + 1);
    }
    curve
}

/// Whether the `k`-th grid size still lies inside the range.
fn grid_in_range(k: u64, step: u64, wss: u64) -> (r: bool)
    ensures
        r == (k * step <= wss),
{
    proof {
        assert(k * step <= u64::MAX as int * (u64::MAX as int)) by (nonlinear_arith)
            requires
                0 <= k <= u64::MAX,
                0 <= step <= u64::MAX,
        {}
    }
    (k as u128) * (step as u128) <= wss as u128
}

} // verus!
