use vstd::prelude::*;

verus! {

/// Largest accepted denominator of a capacity fraction; bounds keep
/// products of two fractions inside `u64`.
pub const FRAC_MAX_DEN: u64 = 1000000000;

/// A capacity fraction in `[0, 1]`, kept as an exact rational so that
/// capacities like a quarter of a cache are computed without rounding
/// surprises.
#[derive(Debug, Clone, Copy, PartialEq, Eq, Structural)]
pub struct Frac {
    pub num: u64,
    pub den: u64,
}

impl Frac {
    /// Valid fractions have a positive denominator no larger than
    /// `FRAC_MAX_DEN` and lie in `[0, 1]`.
    pub open spec fn wf(self) -> bool {
        &&& 1 <= self.den <= FRAC_MAX_DEN
        &&& self.num <= self.den
    }

    pub open spec fn is_positive(self) -> bool {
        self.num > 0
    }

    pub fn new(num: u64, den: u64) -> (r: Option<Frac>)
        ensures
            match r {
                Some(f) => f.wf() && f.num == num && f.den == den,
                None => !(Frac { num, den }).wf(),
            },
    {
        if 1 <= den && den <= FRAC_MAX_DEN && num <= den {
            Some(Frac { num, den })
        } else {
            None
        }
    }

    /// `floor(x * num / den)`; never exceeds `x`.
    pub open spec fn spec_scale(self, x: u64) -> u64 {
        (x * self.num / (self.den as int)) as u64
    }

    /// Multiplies `x` by the fraction, rounding down.
    pub fn scale(self, x: u64) -> (r: u64)
        requires
            self.wf(),
        ensures
            r == self.spec_scale(x),
            r <= x,
    {
        proof {
            assert(x * self.num / (self.den as int) <= x && x * self.num <= u64::MAX as int
                * FRAC_MAX_DEN) by (nonlinear_arith)
                requires
                    0 <= x <= u64::MAX,
                    0 <= self.num <= self.den,
                    1 <= self.den <= FRAC_MAX_DEN,
            {}
        }
        ((x as u128) * (self.num as u128) / (self.den as u128)) as u64
    }

    /// The exact sum of two fractions as a fraction over the product of
    /// the denominators (the sum may exceed one, so `wf` is about the
    /// denominator only here).
    pub open spec fn spec_sum_num(self, other: Frac) -> int {
        self.num * other.den + other.num * self.den
    }

    pub open spec fn spec_sum_den(self, other: Frac) -> int {
        self.den * other.den
    }

    /// Whether the sum of the two fractions is at most one.
    pub fn sum_at_most_one(self, other: Frac) -> (r: bool)
        requires
            self.wf(),
            other.wf(),
        ensures
            r == (self.spec_sum_num(other) <= self.spec_sum_den(other)),
    {
        proof {
            assert(self.num * other.den <= FRAC_MAX_DEN * FRAC_MAX_DEN && other.num * self.den
                <= FRAC_MAX_DEN * FRAC_MAX_DEN && self.den * other.den <= FRAC_MAX_DEN
                * FRAC_MAX_DEN) by (nonlinear_arith)
                requires
                    0 <= self.num <= self.den <= FRAC_MAX_DEN,
                    0 <= other.num <= other.den <= FRAC_MAX_DEN,
            {}
        }
        self.num * other.den + other.num * self.den <= self.den * other.den
    }

    /// `floor(x * (self + other))`, the capacity of two pooled queues.
    pub open spec fn spec_scale_sum(self, other: Frac, x: u64) -> u64 {
        (x * self.spec_sum_num(other) / self.spec_sum_den(other)) as u64
    }

    pub fn scale_sum(self, other: Frac, x: u64) -> (r: u64)
        requires
            self.wf(),
            other.wf(),
            self.spec_sum_num(other) <= self.spec_sum_den(other),
        ensures
            r == self.spec_scale_sum(other, x),
            r <= x,
    {
        proof {
            assert(self.num * other.den <= FRAC_MAX_DEN * FRAC_MAX_DEN && other.num * self.den
                <= FRAC_MAX_DEN * FRAC_MAX_DEN && 1 <= self.den * other.den <= FRAC_MAX_DEN
                * FRAC_MAX_DEN) by (nonlinear_arith)
                requires
                    0 <= self.num <= self.den <= FRAC_MAX_DEN,
                    0 <= other.num <= other.den <= FRAC_MAX_DEN,
                    1 <= self.den,
                    1 <= other.den,
            {}
            assert(x * self.spec_sum_num(other) / self.spec_sum_den(other) <= x && 0 <= x
                * self.spec_sum_num(other) <= u64::MAX as int * (FRAC_MAX_DEN * FRAC_MAX_DEN))
                by (nonlinear_arith)
                requires
                    0 <= x <= u64::MAX,
                    0 <= self.spec_sum_num(other) <= self.spec_sum_den(other),
                    1 <= self.spec_sum_den(other) <= FRAC_MAX_DEN * FRAC_MAX_DEN,
            {}
        }
        let num: u64 = self.num * other.den + other.num * self.den;
        let den: u64 = self.den * other.den;
        ((x as u128) * (num as u128) / (den as u128)) as u64
    }

    /// `ceil(x / (self + other))`, clamped to `u64::MAX`: the smallest
    /// pool size whose scaled capacity reaches `x`.
    pub open spec fn spec_unscale_sum_ceil(self, other: Frac, x: u64) -> u64 {
        let num = self.spec_sum_num(other);
        let den = self.spec_sum_den(other);
        let q = (x * den + num - 1) / num;
        if q <= u64::MAX {
            q as u64
        } else {
            u64::MAX
        }
    }

    pub fn unscale_sum_ceil(self, other: Frac, x: u64) -> (r: u64)
        requires
            self.wf(),
            other.wf(),
            self.is_positive() || other.is_positive(),
        ensures
            r == self.spec_unscale_sum_ceil(other, x),
    {
        proof {
            assert(self.num * other.den <= FRAC_MAX_DEN * FRAC_MAX_DEN && other.num * self.den
                <= FRAC_MAX_DEN * FRAC_MAX_DEN && 1 <= self.den * other.den <= FRAC_MAX_DEN
                * FRAC_MAX_DEN) by (nonlinear_arith)
                requires
                    0 <= self.num <= self.den <= FRAC_MAX_DEN,
                    0 <= other.num <= other.den <= FRAC_MAX_DEN,
                    1 <= self.den,
                    1 <= other.den,
            {}
            if self.num >= 1 {
                assert(self.num * other.den >= 1) by (nonlinear_arith)
                    requires
                        self.num >= 1,
                        other.den >= 1,
                {}
            } else {
                assert(other.num * self.den >= 1) by (nonlinear_arith)
                    requires
                        other.num >= 1,
                        self.den >= 1,
                {}
            }
            assert(x * (self.den * other.den) <= u64::MAX as int * (FRAC_MAX_DEN * FRAC_MAX_DEN))
                by (nonlinear_arith)
                requires
                    0 <= x <= u64::MAX,
                    0 <= self.den * other.den <= FRAC_MAX_DEN * FRAC_MAX_DEN,
            {}
        }
        let num: u64 = self.num * other.den + other.num * self.den;
        let den: u64 = self.den * other.den;
        let q: u128 = ((x as u128) * (den as u128) + (num as u128) - 1) / (num as u128);
        if q <= u64::MAX as u128 {
            q as u64
        } else {
            u64::MAX
        }
    }
}

} // verus!
