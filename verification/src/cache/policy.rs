use vstd::prelude::*;
use vstd::string::StringSliceAdditionalSpecFns;
use crate::access::{Access, Key};
use crate::cache::fifo_cache::FifoCache;
use crate::cache::lfu_cache::{lfu_contains_key, LfuCache};
use crate::cache::lru_cache::LruCache;
use crate::cache::two_q_cache::TwoQCache;
use crate::cache::{contains_key, miss_ratio_spec};
use crate::frac::Frac;
use crate::{RATIO_ONE, SHARDS_MODULUS};

verus! {

/// A cache policy configuration.
#[derive(Debug, Clone, Copy, PartialEq, Eq, Structural)]
pub enum CachePolicy {
    Lru,
    Fifo,
    Lfu,
    TwoQ(Frac, Frac),
}

/// An invalid policy string or out-of-range policy parameter.
#[derive(Debug, Clone, Copy, PartialEq, Eq, Structural)]
pub enum PolicyError {
    InvalidPolicyConfig,
}

impl CachePolicy {
    pub open spec fn wf(self) -> bool {
        match self {
            CachePolicy::TwoQ(kin, kout) => {
                &&& kin.wf()
                &&& kout.wf()
                &&& kin.is_positive()
                &&& kout.is_positive()
                &&& kin.spec_sum_num(kout) <= kin.spec_sum_den(kout)
            },
            _ => true,
        }
    }
}

pub open spec fn is_digit_byte(b: u8) -> bool {
    48 <= b <= 57
}

pub open spec fn all_digit_bytes(s: Seq<u8>) -> bool {
    forall|i: int| 0 <= i < s.len() ==> is_digit_byte(#[trigger] s[i])
}

/// The numeric value of a digit string.
pub open spec fn digits_value(s: Seq<u8>) -> int
    decreases s.len(),
{
    if s.len() == 0 {
        0
    } else {
        digits_value(s.drop_last()) * 10 + (s.last() - 48)
    }
}

pub open spec fn pow10(n: nat) -> int
    decreases n,
{
    if n == 0 {
        1
    } else {
        10 * pow10((n - 1) as nat)
    }
}

/// How many times byte `b` occurs in `s`.
pub open spec fn byte_count(s: Seq<u8>, b: u8) -> int
    decreases s.len(),
{
    if s.len() == 0 {
        0
    } else {
        byte_count(s.drop_last(), b) + if s.last() == b {
            1int
        } else {
            0int
        }
    }
}

/// The first position of byte `b` in `s` (meaningful when present).
pub open spec fn byte_index(s: Seq<u8>, b: u8) -> int
    decreases s.len(),
{
    if s.len() == 0 {
        0
    } else if s[0] == b {
        0
    } else {
        1 + byte_index(s.subrange(1, s.len() as int), b)
    }
}

/// The accepted decimal-fraction grammar: digits with at most one
/// point, at least one digit, and at most nine fractional digits.
pub open spec fn decimal_shape(s: Seq<u8>) -> bool {
    let dots = byte_count(s, 46);
    if dots == 0 {
        s.len() >= 1 && all_digit_bytes(s)
    } else {
        let d = byte_index(s, 46);
        &&& dots == 1
        &&& s.len() >= 2
        &&& all_digit_bytes(s.subrange(0, d))
        &&& all_digit_bytes(s.subrange(d + 1, s.len() as int))
        &&& s.len() - d - 1 <= 9
    }
}

/// The numerator of a decimal string: its digits read as one number.
pub open spec fn decimal_num(s: Seq<u8>) -> int {
    if byte_count(s, 46) == 0 {
        digits_value(s)
    } else {
        let d = byte_index(s, 46);
        digits_value(s.subrange(0, d) + s.subrange(d + 1, s.len() as int))
    }
}

/// The denominator of a decimal string: ten to the fractional width.
pub open spec fn decimal_den(s: Seq<u8>) -> int {
    if byte_count(s, 46) == 0 {
        1
    } else {
        pow10((s.len() - byte_index(s, 46) - 1) as nat)
    }
}

/// The fraction a decimal string stands for, if it is well shaped and
/// lies in `[0, 1]`.
pub open spec fn spec_parse_fraction(s: Seq<u8>) -> Option<Frac> {
    if decimal_shape(s) && decimal_num(s) <= decimal_den(s) {
        Some(Frac { num: decimal_num(s) as u64, den: decimal_den(s) as u64 })
    } else {
        None
    }
}

proof fn lemma_pow10_bounds(n: nat)
    requires
        n <= 9,
    ensures
        1 <= pow10(n) <= 1000000000,
    decreases n,
{
    reveal_with_fuel(pow10, 10);
    if n > 0 {
        lemma_pow10_bounds((n - 1) as nat);
    }
}

proof fn lemma_digits_value_nonneg(s: Seq<u8>)
    requires
        all_digit_bytes(s),
    ensures
        digits_value(s) >= 0,
    decreases s.len(),
{
    if s.len() > 0 {
        assert(all_digit_bytes(s.drop_last())) by {
            assert(forall|i: int| 0 <= i < s.len() - 1 ==> s.drop_last()[i] == s[i]);
        }
        lemma_digits_value_nonneg(s.drop_last());
        assert(is_digit_byte(s.last()));
    }
}

/// Reading one more digit multiplies the value by ten and adds it.
proof fn lemma_digits_value_step(s: Seq<u8>, b: u8)
    ensures
        digits_value(s.push(b)) == digits_value(s) * 10 + (b - 48),
{
    assert(s.push(b).drop_last() =~= s);
}

/// Parses an unsigned decimal fraction in `[0, 1]`, such as a queue
/// capacity parameter, into an exact rational.
fn parse_fraction(bs: &[u8]) -> (r: Option<Frac>)
    ensures
        r == spec_parse_fraction(bs@),
        r is Some ==> r->0.wf(),
{
    let n = bs.len();
    let mut i: usize = 0;
    let mut num: u128 = 0;
    let mut dot: Option<usize> = None;
    let mut valid: bool = true;
    while i < n
        invariant
            n == bs@.len(),
            i <= n,
            match dot {
                Some(d) => {
                    &&& d < i
                    &&& bs@[d as int] == 46
                    &&& byte_count(bs@.subrange(0, i as int), 46) == 1
                    &&& byte_index(bs@.subrange(0, i as int), 46) == d
                },
                None => byte_count(bs@.subrange(0, i as int), 46) == 0,
            },
            valid ==> match dot {
                Some(d) => all_digit_bytes(bs@.subrange(0, d as int)) && all_digit_bytes(
                    bs@.subrange(d + 1, i as int),
                ) && num == digits_value(
                    bs@.subrange(0, d as int) + bs@.subrange(d + 1, i as int),
                ),
                None => all_digit_bytes(bs@.subrange(0, i as int)) && num == digits_value(
                    bs@.subrange(0, i as int),
                ),
            },
            !valid ==> !decimal_shape(bs@) || decimal_num(bs@) > decimal_den(bs@),
            num <= 10000000009,
        decreases n - i,
    {
        let b = bs[i];
        let ghost pre = bs@.subrange(0, i as int);
        let ghost post = bs@.subrange(0, i + 1);
        proof {
            assert(post.drop_last() =~= pre);
        }
        if b == 46 {
            match dot {
                Some(_) => {
                    proof {
                        lemma_byte_count_prefix(bs@, (i + 1) as int, 46);
                    }
                    return None;
                },
                None => {
                    dot = Some(i);
                    proof {
                        assert forall|j: int| 0 <= j < i implies #[trigger] bs@.subrange(
                            0,
                            i + 1,
                        )[j] != 46 by {
                            if bs@.subrange(0, i + 1)[j] == 46 {
                                lemma_byte_count_positive_of_member(pre, 46, j);
                            }
                        }
                        lemma_byte_index_of_prefix(bs@.subrange(0, i + 1), 46, i as int);
                        if valid {
                            assert(pre + bs@.subrange(i + 1, i + 1) =~= pre);
                        }
                    }
                },
            }
        } else if 48 <= b && b <= 57 {
            if valid {
                if num > 1000000000 {
                    valid = false;
                    proof {
                        lemma_invalid_by_overflow(bs@, i as int, dot, num as int);
                    }
                } else {
                    num = num * 10 + (b - 48) as u128;
                    proof {
                        match dot {
                            Some(d) => {
                                let glued = bs@.subrange(0, d as int) + bs@.subrange(
                                    d + 1,
                                    i as int,
                                );
                                let glued2 = bs@.subrange(0, d as int) + bs@.subrange(
                                    d + 1,
                                    i + 1,
                                );
                                assert(glued2 =~= glued.push(b));
                                lemma_digits_value_step(glued, b);
                                assert(all_digit_bytes(bs@.subrange(d + 1, i + 1))) by {
                                    let seg = bs@.subrange(d + 1, i + 1);
                                    assert(forall|j: int|
                                        0 <= j < seg.len() - 1 ==> seg[j] == bs@.subrange(
                                            d + 1,
                                            i as int,
                                        )[j]);
                                    assert(seg.last() == b);
                                }
                            },
                            None => {
                                assert(post =~= pre.push(b));
                                lemma_digits_value_step(pre, b);
                                assert(all_digit_bytes(post)) by {
                                    assert(forall|j: int|
                                        0 <= j < post.len() - 1 ==> post[j] == pre[j]);
                                    assert(post.last() == b);
                                }
                            },
                        }
                    }
                }
            }
        } else {
            proof {
                lemma_invalid_by_bad_byte(bs@, i as int);
            }
            return None;
        }
        proof {
            if b != 46 {
                match dot {
                    Some(d) => {
                        lemma_byte_index_in_range(pre, 46);
                        assert forall|j: int| 0 <= j < d implies #[trigger] post[j] != 46 by {
                            assert(post[j] == pre[j]);
                        }
                        assert(post[d as int] == 46);
                        lemma_byte_index_of_prefix(post, 46, d as int);
                    },
                    None => {},
                }
            }
        }
        i = i + 1;
    }
    proof {
        assert(bs@.subrange(0, n as int) =~= bs@);
        if dot is Some {
            let d = dot->0;
            assert(bs@.subrange(d + 1, n as int) == bs@.subrange(d + 1, n as int));
        }
    }
    if !valid {
        return None;
    }
    match dot {
        Some(d) => {
            let frac_len = n - d - 1;
            if n < 2 || frac_len > 9 {
                return None;
            }
            let mut den: u64 = 1;
            let mut j: usize = 0;
            while j < frac_len
                invariant
                    j <= frac_len <= 9,
                    den == pow10(j as nat),
                    den <= 1000000000,
                decreases frac_len - j,
            {
                proof {
                    lemma_pow10_bounds(j as nat);
                    lemma_pow10_bounds((j + 1) as nat);
                }
                den = den * 10;
                j = j + 1;
            }
            proof {
                lemma_pow10_bounds(frac_len as nat);
                lemma_digits_value_nonneg(
                    bs@.subrange(0, d as int) + bs@.subrange(d + 1, n as int),
                );
            }
            if num <= den as u128 {
                Some(Frac { num: num as u64, den })
            } else {
                None
            }
        },
        None => {
            if n == 0 {
                return None;
            }
            proof {
                lemma_digits_value_nonneg(bs@);
            }
            if num <= 1 {
                Some(Frac { num: num as u64, den: 1 })
            } else {
                None
            }
        },
    }
}

/// Later bytes never lower the count seen in a prefix.
proof fn lemma_byte_count_prefix(s: Seq<u8>, i: int, b: u8)
    requires
        0 <= i <= s.len(),
        byte_count(s.subrange(0, i), b) >= 2,
    ensures
        byte_count(s, b) >= 2,
    decreases s.len() - i,
{
    if i == s.len() {
        assert(s.subrange(0, i) =~= s);
    } else {
        assert(s.subrange(0, i + 1).drop_last() =~= s.subrange(0, i));
        lemma_byte_count_prefix(s, i + 1, b);
    }
}

/// A non-digit, non-dot byte anywhere breaks the decimal shape.
proof fn lemma_invalid_by_bad_byte(s: Seq<u8>, i: int)
    requires
        0 <= i < s.len(),
        s[i] != 46,
        !is_digit_byte(s[i]),
    ensures
        !decimal_shape(s),
{
    if decimal_shape(s) {
        let dots = byte_count(s, 46);
        if dots == 0 {
            assert(is_digit_byte(s[i]));
        } else {
            let d = byte_index(s, 46);
            lemma_byte_index_in_range(s, 46);
            if i < d {
                assert(s.subrange(0, d)[i] == s[i]);
                assert(is_digit_byte(s[i]));
            } else if i > d {
                assert(s.subrange(d + 1, s.len() as int)[i - d - 1] == s[i]);
                assert(is_digit_byte(s[i]));
            }
        }
    }
}

/// When the digits already read exceed one billion, the whole string
/// cannot stand for a fraction in `[0, 1]`.
proof fn lemma_invalid_by_overflow(s: Seq<u8>, i: int, dot: Option<usize>, num: int)
    requires
        0 <= i < s.len(),
        num > 1000000000,
        match dot {
            Some(d) => d < i && byte_index(s.subrange(0, i), 46) == d && byte_count(
                s.subrange(0, i),
                46,
            ) == 1 && s[d as int] == 46 && num == digits_value(
                s.subrange(0, d as int) + s.subrange(d + 1, i),
            ),
            None => byte_count(s.subrange(0, i), 46) == 0 && num == digits_value(
                s.subrange(0, i),
            ),
        },
        is_digit_byte(s[i]),
    ensures
        !decimal_shape(s) || decimal_num(s) > decimal_den(s),
{
    if decimal_shape(s) && decimal_num(s) <= decimal_den(s) {
        let dots = byte_count(s, 46);
        if dots == 0 {
            lemma_digit_prefix_le(s, i);
            assert(s.subrange(0, s.len() as int) =~= s);
            lemma_pow10_bounds(0);
        } else {
            let d = byte_index(s, 46);
            lemma_byte_index_in_range(s, 46);
            let glued_all = s.subrange(0, d) + s.subrange(d + 1, s.len() as int);
            assert(all_digit_bytes(glued_all));
            match dot {
                Some(dd) => {
                    lemma_byte_index_agrees(s, i, 46);
                    let glued_i = s.subrange(0, d) + s.subrange(d + 1, i);
                    lemma_digit_glued_prefix_le(s, d, i);
                    lemma_pow10_bounds((s.len() - d - 1) as nat);
                },
                None => {
                    lemma_byte_count_zero_prefix(s, i, 46);
                    assert(d >= i);
                    let glued_i = s.subrange(0, i);
                    lemma_digit_glued_prefix_int_part(s, d, i);
                    lemma_pow10_bounds((s.len() - d - 1) as nat);
                },
            }
        }
    }
}

/// The first-occurrence index of a byte lies in range when present.
proof fn lemma_byte_index_in_range(s: Seq<u8>, b: u8)
    requires
        byte_count(s, b) >= 1,
    ensures
        0 <= byte_index(s, b) < s.len(),
        s[byte_index(s, b)] == b,
        forall|j: int| 0 <= j < byte_index(s, b) ==> s[j] != b,
    decreases s.len(),
{
    lemma_byte_count_nonneg(s, b);
    if s.len() > 0 {
        if s[0] == b {
        } else {
            let tail = s.subrange(1, s.len() as int);
            assert(byte_count(s, b) == byte_count(s.drop_last(), b) + if s.last() == b {
                1int
            } else {
                0int
            });
            lemma_byte_count_tail(s, b);
            lemma_byte_index_in_range(tail, b);
            assert(s[byte_index(s, b)] == tail[byte_index(tail, b)]);
            assert forall|j: int| 0 <= j < byte_index(s, b) implies s[j] != b by {
                if j > 0 {
                    assert(tail[j - 1] != b);
                }
            }
        }
    }
}

proof fn lemma_byte_count_nonneg(s: Seq<u8>, b: u8)
    ensures
        byte_count(s, b) >= 0,
    decreases s.len(),
{
    if s.len() > 0 {
        lemma_byte_count_nonneg(s.drop_last(), b);
    }
}

/// Counting in the tail: one less when the head matches.
proof fn lemma_byte_count_tail(s: Seq<u8>, b: u8)
    requires
        s.len() > 0,
    ensures
        byte_count(s.subrange(1, s.len() as int), b) == byte_count(s, b) - if s[0] == b {
            1int
        } else {
            0int
        },
    decreases s.len(),
{
    let tail = s.subrange(1, s.len() as int);
    if s.len() == 1 {
        assert(tail =~= Seq::<u8>::empty());
        assert(s.drop_last() =~= Seq::<u8>::empty());
    } else {
        let head = s.drop_last();
        assert(tail.drop_last() =~= head.subrange(1, head.len() as int));
        assert(tail.last() == s.last());
        lemma_byte_count_tail(head, b);
    }
}

/// A prefix with no occurrences pushes the first occurrence past it.
proof fn lemma_byte_count_zero_prefix(s: Seq<u8>, i: int, b: u8)
    requires
        0 <= i <= s.len(),
        byte_count(s.subrange(0, i), b) == 0,
        byte_count(s, b) >= 1,
    ensures
        byte_index(s, b) >= i,
    decreases i,
{
    lemma_byte_index_in_range(s, b);
    let d = byte_index(s, b);
    if d < i {
        lemma_byte_count_positive_of_member(s.subrange(0, i), b, d);
    }
}

/// A sequence holding `b` counts it at least once.
proof fn lemma_byte_count_positive_of_member(s: Seq<u8>, b: u8, j: int)
    requires
        0 <= j < s.len(),
        s[j] == b,
    ensures
        byte_count(s, b) >= 1,
    decreases s.len(),
{
    lemma_byte_count_nonneg(s.drop_last(), b);
    if j < s.len() - 1 {
        lemma_byte_count_positive_of_member(s.drop_last(), b, j);
    }
}

/// The first dot of the whole string is the first dot of a prefix that
/// already holds one.
proof fn lemma_byte_index_agrees(s: Seq<u8>, i: int, b: u8)
    requires
        0 <= i <= s.len(),
        byte_count(s.subrange(0, i), b) >= 1,
    ensures
        byte_index(s, b) == byte_index(s.subrange(0, i), b),
{
    let p = s.subrange(0, i);
    lemma_byte_index_in_range(p, b);
    let d = byte_index(p, b);
    assert(s[d] == b);
    lemma_byte_count_positive_of_member(s, b, d);
    lemma_byte_index_in_range(s, b);
    let d2 = byte_index(s, b);
    if d2 < d {
        assert(p[d2] == b);
    }
    if d < d2 {
        assert(s[d] != b);
    }
}

proof fn lemma_byte_index_of_prefix(s: Seq<u8>, b: u8, i: int)
    requires
        0 <= i < s.len(),
        s[i] == b,
        forall|j: int| 0 <= j < i ==> s[j] != b,
    ensures
        byte_index(s, b) == i,
        byte_count(s, b) >= 1,
    decreases i,
{
    lemma_byte_count_positive_of_member(s, b, i);
    if i > 0 {
        let tail = s.subrange(1, s.len() as int);
        assert(forall|j: int| 0 <= j < i - 1 ==> tail[j] != b);
        assert(tail[i - 1] == b);
        lemma_byte_index_of_prefix(tail, b, i - 1);
    }
}

/// Appending digits never lowers a digit string's value.
proof fn lemma_digits_prefix_le(s: Seq<u8>, t: Seq<u8>)
    requires
        all_digit_bytes(t),
        s.is_prefix_of(t),
        all_digit_bytes(s),
    ensures
        digits_value(s) <= digits_value(t),
    decreases t.len(),
{
    if s.len() < t.len() {
        let t2 = t.drop_last();
        assert(all_digit_bytes(t2)) by {
            assert(forall|i: int| 0 <= i < t2.len() ==> t2[i] == t[i]);
        }
        assert(s.is_prefix_of(t2)) by {
            assert(forall|i: int| 0 <= i < s.len() ==> s[i] == t2[i]);
        }
        lemma_digits_prefix_le(s, t2);
        lemma_digits_value_nonneg(t2);
        assert(digits_value(t) == digits_value(t2) * 10 + (t.last() - 48));
        assert(digits_value(t2) * 10 >= digits_value(t2)) by (nonlinear_arith)
            requires
                digits_value(t2) >= 0,
        {}
    } else {
        assert(s =~= t);
    }
}

/// The digits of a dotless string read so far bound the whole value.
proof fn lemma_digit_prefix_le(s: Seq<u8>, i: int)
    requires
        0 <= i <= s.len(),
        all_digit_bytes(s),
    ensures
        digits_value(s.subrange(0, i)) <= digits_value(s),
{
    let p = s.subrange(0, i);
    assert(all_digit_bytes(p)) by {
        assert(forall|j: int| 0 <= j < p.len() ==> p[j] == s[j]);
    }
    assert(p.is_prefix_of(s));
    assert(s.subrange(0, s.len() as int) =~= s);
    lemma_digits_prefix_le(p, s);
}

/// With a dot at `d < i`, the glued digits read so far bound the glued
/// digits of the whole string.
proof fn lemma_digit_glued_prefix_le(s: Seq<u8>, d: int, i: int)
    requires
        0 <= d < i <= s.len(),
        all_digit_bytes(s.subrange(0, d)),
        all_digit_bytes(s.subrange(d + 1, s.len() as int)),
    ensures
        digits_value(s.subrange(0, d) + s.subrange(d + 1, i)) <= digits_value(
            s.subrange(0, d) + s.subrange(d + 1, s.len() as int),
        ),
{
    let a = s.subrange(0, d) + s.subrange(d + 1, i);
    let b = s.subrange(0, d) + s.subrange(d + 1, s.len() as int);
    assert(all_digit_bytes(b)) by {
        assert(forall|j: int|
            0 <= j < d ==> b[j] == s.subrange(0, d)[j]);
        assert(forall|j: int|
            d <= j < b.len() ==> b[j] == s.subrange(d + 1, s.len() as int)[j - d]);
    }
    assert(a.is_prefix_of(b)) by {
        assert(forall|j: int| 0 <= j < a.len() ==> a[j] == b[j]);
    }
    assert(all_digit_bytes(a)) by {
        assert(forall|j: int| 0 <= j < a.len() ==> a[j] == b[j]);
    }
    lemma_digits_prefix_le(a, b);
}

/// Before the dot is reached, the digits read bound the glued value.
proof fn lemma_digit_glued_prefix_int_part(s: Seq<u8>, d: int, i: int)
    requires
        0 <= i <= d < s.len(),
        all_digit_bytes(s.subrange(0, d)),
        all_digit_bytes(s.subrange(d + 1, s.len() as int)),
    ensures
        digits_value(s.subrange(0, i)) <= digits_value(
            s.subrange(0, d) + s.subrange(d + 1, s.len() as int),
        ),
{
    let a = s.subrange(0, i);
    let b = s.subrange(0, d) + s.subrange(d + 1, s.len() as int);
    assert(all_digit_bytes(b)) by {
        assert(forall|j: int|
            0 <= j < d ==> b[j] == s.subrange(0, d)[j]);
        assert(forall|j: int|
            d <= j < b.len() ==> b[j] == s.subrange(d + 1, s.len() as int)[j - d]);
    }
    assert(a.is_prefix_of(b)) by {
        assert(forall|j: int| 0 <= j < a.len() ==> a[j] == s[j] && b[j] == s.subrange(0, d)[j]);
    }
    assert(all_digit_bytes(a)) by {
        assert(forall|j: int| 0 <= j < a.len() ==> a[j] == b[j]);
    }
    lemma_digits_prefix_le(a, b);
}


/// The policy grammar: `lru`, `lfu`, `fifo`, or `2q-<kin>-<kout>`
/// where both parameters are decimal fractions, are positive, and sum
/// to at most one.
pub open spec fn spec_parse_policy(bs: Seq<u8>) -> Result<CachePolicy, PolicyError> {
    if bs =~= seq![108u8, 114u8, 117u8] {
        Ok(CachePolicy::Lru)
    } else if bs =~= seq![108u8, 102u8, 117u8] {
        Ok(CachePolicy::Lfu)
    } else if bs =~= seq![102u8, 105u8, 102u8, 111u8] {
        Ok(CachePolicy::Fifo)
    } else if bs.len() > 3 && bs[0] == 50 && bs[1] == 113 && bs[2] == 45 {
        let rest = bs.subrange(3, bs.len() as int);
        if byte_count(rest, 45) == 1 {
            let d = byte_index(rest, 45);
            let kin_part = rest.subrange(0, d);
            let kout_part = rest.subrange(d + 1, rest.len() as int);
            match (spec_parse_fraction(kin_part), spec_parse_fraction(kout_part)) {
                (Some(kin), Some(kout)) => {
                    if kin.is_positive() && kout.is_positive() && kin.spec_sum_num(kout)
                        <= kin.spec_sum_den(kout) {
                        Ok(CachePolicy::TwoQ(kin, kout))
                    } else {
                        Err(PolicyError::InvalidPolicyConfig)
                    }
                },
                _ => Err(PolicyError::InvalidPolicyConfig),
            }
        } else {
            Err(PolicyError::InvalidPolicyConfig)
        }
    } else {
        Err(PolicyError::InvalidPolicyConfig)
    }
}

impl CachePolicy {
    /// Parses a policy string; rejects unknown names and out-of-range
    /// 2Q parameters.
    pub fn parse(s: &str) -> (r: Result<CachePolicy, PolicyError>)
        ensures
            r == spec_parse_policy(s.spec_bytes()),
            r is Ok ==> r->Ok_0.wf(),
    {
        let bs = s.as_bytes();
        let n = bs.len();
        if n == 3 && bs[0] == 108 && bs[1] == 114 && bs[2] == 117 {
            proof {
                assert(bs@ =~= seq![108u8, 114u8, 117u8]);
            }
            return Ok(CachePolicy::Lru);
        }
        if n == 3 && bs[0] == 108 && bs[1] == 102 && bs[2] == 117 {
            proof {
                assert(bs@ =~= seq![108u8, 102u8, 117u8]);
            }
            return Ok(CachePolicy::Lfu);
        }
        if n == 4 && bs[0] == 102 && bs[1] == 105 && bs[2] == 102 && bs[3] == 111 {
            proof {
                assert(bs@ =~= seq![102u8, 105u8, 102u8, 111u8]);
            }
            return Ok(CachePolicy::Fifo);
        }
        proof {
            assert(!(bs@ =~= seq![108u8, 114u8, 117u8]));
            assert(!(bs@ =~= seq![108u8, 102u8, 117u8]));
            assert(!(bs@ =~= seq![102u8, 105u8, 102u8, 111u8]));
        }
        if !(n > 3 && bs[0] == 50 && bs[1] == 113 && bs[2] == 45) {
            return Err(PolicyError::InvalidPolicyConfig);
        }
        let ghost rest = bs@.subrange(3, n as int);
        // Find the dash separating the two fractions.
        let mut dash: Option<usize> = None;
        let mut i: usize = 3;
        while i < n
            invariant
                3 <= i <= n,
                n == bs@.len(),
                bs@ == s.spec_bytes(),
                n > 3,
                bs@[0] == 50,
                bs@[1] == 113,
                bs@[2] == 45,
                rest == bs@.subrange(3, n as int),
                match dash {
                    Some(d) => {
                        &&& 3 <= d < i
                        &&& bs@[d as int] == 45
                        &&& byte_count(rest.subrange(0, i - 3), 45) == 1
                        &&& byte_index(rest.subrange(0, i - 3), 45) == d - 3
                    },
                    None => byte_count(rest.subrange(0, i - 3), 45) == 0,
                },
            decreases n - i,
        {
            let ghost pre = rest.subrange(0, i - 3);
            let ghost post = rest.subrange(0, i - 2);
            proof {
                assert(post.drop_last() =~= pre);
                assert(post.last() == bs@[i as int]);
            }
            if bs[i] == 45 {
                match dash {
                    Some(_) => {
                        proof {
                            lemma_byte_count_prefix(rest, i - 2, 45);
                        }
                        return Err(PolicyError::InvalidPolicyConfig);
                    },
                    None => {
                        dash = Some(i);
                        proof {
                            assert forall|j: int| 0 <= j < i - 3 implies #[trigger] post[j]
                                != 45 by {
                                if post[j] == 45 {
                                    lemma_byte_count_positive_of_member(pre, 45, j);
                                }
                            }
                            lemma_byte_index_of_prefix(post, 45, i - 3);
                        }
                    },
                }
            } else {
                proof {
                    match dash {
                        Some(d) => {
                            lemma_byte_index_in_range(pre, 45);
                            assert forall|j: int| 0 <= j < d - 3 implies #[trigger] post[j]
                                != 45 by {
                                assert(post[j] == pre[j]);
                            }
                            assert(post[d - 3] == 45);
                            lemma_byte_index_of_prefix(post, 45, d - 3);
                        },
                        None => {},
                    }
                }
            }
            i = i + 1;
        }
        proof {
            assert(rest.subrange(0, n - 3) =~= rest);
        }
        let d = match dash {
            Some(d) => d,
            None => {
                return Err(PolicyError::InvalidPolicyConfig);
            },
        };
        let kin_bs = vstd::slice::slice_subrange(bs, 3, d);
        let kout_bs = vstd::slice::slice_subrange(bs, d + 1, n);
        proof {
            assert(kin_bs@ =~= rest.subrange(0, d - 3));
            assert(kout_bs@ =~= rest.subrange(d - 2, rest.len() as int));
        }
        let kin = match parse_fraction(kin_bs) {
            Some(f) => f,
            None => {
                return Err(PolicyError::InvalidPolicyConfig);
            },
        };
        let kout = match parse_fraction(kout_bs) {
            Some(f) => f,
            None => {
                return Err(PolicyError::InvalidPolicyConfig);
            },
        };
        if kin.num > 0 && kout.num > 0 && kin.sum_at_most_one(kout) {
            Ok(CachePolicy::TwoQ(kin, kout))
        } else {
            Err(PolicyError::InvalidPolicyConfig)
        }
    }

    /// Builds an empty cache that runs this policy.
    pub fn new_cache(&self, size: u64) -> (r: PolicyCache)
        requires
            self.wf(),
        ensures
            r.wf(),
            r.spec_max_size() == size,
            r.spec_count() == 0,
            r.spec_hits() == 0,
            forall|k: Key| !r.spec_contains(k),
    {
        match self {
            CachePolicy::Lru => PolicyCache::Lru(LruCache::new(size)),
            CachePolicy::Fifo => PolicyCache::Fifo(FifoCache::new(size)),
            CachePolicy::Lfu => PolicyCache::Lfu(LfuCache::new(size)),
            CachePolicy::TwoQ(kin, kout) => {
                // Well-formed fractions always build a cache.
                PolicyCache::TwoQ(TwoQCache::new(size, *kin, *kout).unwrap())
            },
        }
    }
}

impl core::str::FromStr for CachePolicy {
    type Err = PolicyError;

    fn from_str(value: &str) -> Result<CachePolicy, PolicyError> {
        CachePolicy::parse(value)
    }
}

/// A concrete cache under one of the supported policies.
pub enum PolicyCache {
    Lru(LruCache),
    Fifo(FifoCache),
    Lfu(LfuCache),
    TwoQ(TwoQCache),
}

impl PolicyCache {
    pub open spec fn wf(&self) -> bool {
        match self {
            PolicyCache::Lru(c) => c.wf(),
            PolicyCache::Fifo(c) => c.wf(),
            PolicyCache::Lfu(c) => c.wf(),
            PolicyCache::TwoQ(c) => c.wf(),
        }
    }

    pub open spec fn spec_contains(&self, k: Key) -> bool {
        match self {
            PolicyCache::Lru(c) => contains_key(c.stack@, k),
            PolicyCache::Fifo(c) => contains_key(c.stack@, k),
            PolicyCache::Lfu(c) => lfu_contains_key(c.entries@, k),
            PolicyCache::TwoQ(c) => c.spec_contains(k),
        }
    }

    pub open spec fn spec_max_size(&self) -> u64 {
        match self {
            PolicyCache::Lru(c) => c.max_size,
            PolicyCache::Fifo(c) => c.max_size,
            PolicyCache::Lfu(c) => c.max_size,
            PolicyCache::TwoQ(c) => c.max_size,
        }
    }

    pub open spec fn spec_count(&self) -> u128 {
        match self {
            PolicyCache::Lru(c) => c.count,
            PolicyCache::Fifo(c) => c.count,
            PolicyCache::Lfu(c) => c.count,
            PolicyCache::TwoQ(c) => c.count,
        }
    }

    pub open spec fn spec_hits(&self) -> u128 {
        match self {
            PolicyCache::Lru(c) => c.hits,
            PolicyCache::Fifo(c) => c.hits,
            PolicyCache::Lfu(c) => c.hits,
            PolicyCache::TwoQ(c) => c.hits,
        }
    }

    pub fn size(&self) -> (r: u64)
        ensures
            r == self.spec_max_size(),
    {
        match self {
            PolicyCache::Lru(c) => c.size(),
            PolicyCache::Fifo(c) => c.size(),
            PolicyCache::Lfu(c) => c.size(),
            PolicyCache::TwoQ(c) => c.size(),
        }
    }

    pub fn miss_ratio(&self) -> (r: u64)
        requires
            self.wf(),
        ensures
            r == miss_ratio_spec(self.spec_count(), self.spec_hits()),
            r <= RATIO_ONE,
    {
        match self {
            PolicyCache::Lru(c) => c.miss_ratio(),
            PolicyCache::Fifo(c) => c.miss_ratio(),
            PolicyCache::Lfu(c) => c.miss_ratio(),
            PolicyCache::TwoQ(c) => c.miss_ratio(),
        }
    }

    pub fn has(&self, key: Key) -> (r: bool)
        ensures
            r == self.spec_contains(key),
    {
        match self {
            PolicyCache::Lru(c) => c.has(key),
            PolicyCache::Fifo(c) => c.has(key),
            PolicyCache::Lfu(c) => c.has(key),
            PolicyCache::TwoQ(c) => c.has(key),
        }
    }

    pub fn get(&mut self, access: &Access) -> (r: bool)
        requires
            old(self).wf(),
        ensures
            final(self).wf(),
            r == (access.size <= old(self).spec_max_size() && old(self).spec_contains(access.key)),
            access.size > old(self).spec_max_size() ==> *final(self) == *old(self),
            access.size <= old(self).spec_max_size() ==> final(self).spec_count()
                == crate::cache::counter_after_increment(old(self).spec_count())
                && final(self).spec_hits() == (if r {
                crate::cache::counter_after_increment(old(self).spec_hits())
            } else {
                old(self).spec_hits()
            }),
            r ==> final(self).spec_contains(access.key),
            final(self).spec_max_size() == old(self).spec_max_size(),
    {
        match self {
            PolicyCache::Lru(c) => {
                let ghost s0 = c.stack@;
                let r = c.get(access);
                proof {
                    if r {
                        crate::cache::lru_cache::lemma_touch_contains(s0, access.key);
                    }
                }
                r
            },
            PolicyCache::Fifo(c) => c.get(access),
            PolicyCache::Lfu(c) => c.get(access),
            PolicyCache::TwoQ(c) => c.get(access),
        }
    }

    pub fn set(&mut self, access: &Access)
        requires
            old(self).wf(),
        ensures
            final(self).wf(),
            access.size <= old(self).spec_max_size() ==> final(self).spec_contains(access.key),
            access.size > old(self).spec_max_size() ==> *final(self) == *old(self),
            final(self).spec_count() == old(self).spec_count(),
            final(self).spec_hits() == old(self).spec_hits(),
            final(self).spec_max_size() == old(self).spec_max_size(),
    {
        match self {
            PolicyCache::Lru(c) => c.set(access),
            PolicyCache::Fifo(c) => c.set(access),
            PolicyCache::Lfu(c) => c.set(access),
            PolicyCache::TwoQ(c) => c.set(access),
        }
    }

    pub fn del(&mut self, key: Key)
        requires
            old(self).wf(),
        ensures
            final(self).wf(),
            !final(self).spec_contains(key),
            final(self).spec_max_size() == old(self).spec_max_size(),
    {
        match self {
            PolicyCache::Lru(c) => c.del(key),
            PolicyCache::Fifo(c) => c.del(key),
            PolicyCache::Lfu(c) => c.del(key),
            PolicyCache::TwoQ(c) => c.del(key),
        }
    }

    /// A read-through access: hits report `true`, misses populate.
    pub fn handle_self_populating(&mut self, access: &Access) -> (r: bool)
        requires
            old(self).wf(),
        ensures
            final(self).wf(),
            r == (access.size <= old(self).spec_max_size() && old(self).spec_contains(access.key)),
            access.size > old(self).spec_max_size() ==> *final(self) == *old(self),
            access.size <= old(self).spec_max_size() ==> final(self).spec_count()
                == crate::cache::counter_after_increment(old(self).spec_count())
                && final(self).spec_hits() == (if r {
                crate::cache::counter_after_increment(old(self).spec_hits())
            } else {
                old(self).spec_hits()
            }),
            access.size <= old(self).spec_max_size() ==> final(self).spec_contains(access.key),
            final(self).spec_max_size() == old(self).spec_max_size(),
            final(self).spec_hits() <= final(self).spec_count(),
    {
        match self {
            PolicyCache::Lru(c) => c.handle_self_populating(access),
            PolicyCache::Fifo(c) => c.handle_self_populating(access),
            PolicyCache::Lfu(c) => c.handle_self_populating(access),
            PolicyCache::TwoQ(c) => c.handle_self_populating(access),
        }
    }

    pub fn resize(&mut self, size: u64)
        requires
            old(self).wf(),
        ensures
            final(self).wf(),
            final(self).spec_max_size() == size,
            final(self).spec_count() == old(self).spec_count(),
            final(self).spec_hits() == old(self).spec_hits(),
    {
        match self {
            PolicyCache::Lru(c) => c.resize(size),
            PolicyCache::Fifo(c) => c.resize(size),
            PolicyCache::Lfu(c) => c.resize(size),
            PolicyCache::TwoQ(c) => c.resize(size),
        }
    }

    pub fn reduce(&mut self, target: u64)
        requires
            old(self).wf(),
        ensures
            final(self).wf(),
            final(self).spec_max_size() == old(self).spec_max_size(),
    {
        match self {
            PolicyCache::Lru(c) => c.reduce(target),
            PolicyCache::Fifo(c) => c.reduce(target),
            PolicyCache::Lfu(c) => c.reduce(target),
            PolicyCache::TwoQ(c) => c.reduce(target),
        }
    }

    /// Scales both counters by the ratio `num / den` of two sampling
    /// thresholds.
    pub fn rescale(&mut self, num: u64, den: u64)
        requires
            old(self).wf(),
            num <= SHARDS_MODULUS,
            den >= 1,
            num <= den,
        ensures
            final(self).wf(),
            final(self).spec_count() == crate::cache::counter_rescaled(
                old(self).spec_count(),
                num,
                den,
            ),
            final(self).spec_hits() == crate::cache::counter_rescaled(
                old(self).spec_hits(),
                num,
                den,
            ),
            final(self).spec_max_size() == old(self).spec_max_size(),
    {
        match self {
            PolicyCache::Lru(c) => c.rescale(num, den),
            PolicyCache::Fifo(c) => c.rescale(num, den),
            PolicyCache::Lfu(c) => c.rescale(num, den),
            PolicyCache::TwoQ(c) => c.rescale(num, den),
        }
    }

    pub fn clear_counters(&mut self)
        requires
            old(self).wf(),
        ensures
            final(self).wf(),
            final(self).spec_count() == 0,
            final(self).spec_hits() == 0,
            final(self).spec_max_size() == old(self).spec_max_size(),
    {
        match self {
            PolicyCache::Lru(c) => c.clear_counters(),
            PolicyCache::Fifo(c) => c.clear_counters(),
            PolicyCache::Lfu(c) => c.clear_counters(),
            PolicyCache::TwoQ(c) => c.clear_counters(),
        }
    }
}

} // verus!

