//! Double-precision numbers as their 64-bit patterns: order and truncation, in integers.

use vstd::prelude::*;
use vstd::arithmetic::power2::pow2;
use vstd::arithmetic::power2::lemma_pow2_unfold;
use vstd::arithmetic::power2::lemma_pow2_pos;
use vstd::arithmetic::div_mod::lemma_div_denominator;
use vstd::arithmetic::mul::lemma_mul_is_associative;
use vstd::arithmetic::mul::lemma_mul_is_commutative;

verus! {

/// Weight of the sign bit.
pub const SIGN: u64 = 0x8000_0000_0000_0000;

/// The pattern of positive infinity; larger magnitudes are not numbers.
pub const INFINITE: u64 = 0x7ff0_0000_0000_0000;

/// Weight of the lowest exponent bit, and the implicit leading one of a mantissa.
pub const LEAD: u64 = 0x10_0000_0000_0000;

/// The pattern without its sign.
pub open spec fn magnitude(bits: u64) -> int {
    if bits >= SIGN {
        bits - SIGN
    } else {
        bits as int
    }
}

/// An integer that orders finite doubles as their values do; both zeros map to 0.
pub open spec fn order_key(bits: u64) -> int {
    if bits >= SIGN {
        -magnitude(bits)
    } else {
        magnitude(bits)
    }
}

/// Whether the pattern is that of a finite number.
pub open spec fn finite(bits: u64) -> bool {
    magnitude(bits) < INFINITE
}

/// `m * 2^(e - 1075)`, rounded down.
pub open spec fn scaled(m: int, e: int) -> int {
    if e <= 1075 {
        m / pow2((1075 - e) as nat) as int
    } else {
        m * pow2((e - 1075) as nat)
    }
}

/// The value without its fraction, held to the range of `u64`: 0 for negative values and for
/// what is not a number.
pub open spec fn truncated(bits: u64) -> int {
    let e = magnitude(bits) / LEAD as int;
    let v = scaled(LEAD + magnitude(bits) % LEAD as int, e);
    if bits >= SIGN || bits > INFINITE || e < 1023 {
        0
    } else if e >= 1087 || v > u64::MAX {
        u64::MAX as int
    } else {
        v
    }
}

/// Whether `a` is less than `b`, for finite values.
pub fn less(a: u64, b: u64) -> (r: bool)
    ensures
        r == (order_key(a) < order_key(b)),
{
    if a >= SIGN {
        if b >= SIGN {
            a - SIGN > b - SIGN
        } else {
            a != SIGN || b != 0
        }
    } else if b >= SIGN {
        false
    } else {
        a < b
    }
}

/// The value without its fraction, held to the range of `u64`.
pub fn trunc(bits: u64) -> (r: u64)
    ensures
        r == truncated(bits),
{
    if bits >= SIGN || bits > INFINITE {
        return 0;
    }
    let e: u64 = bits / LEAD;
    if e < 1023 {
        return 0;
    }
    if e >= 1087 {
        return u64::MAX;
    }
    let mut m: u64 = LEAD + bits % LEAD;
    let ghost start = m as int;
    if e <= 1075 {
        let n: u64 = 1075 - e;
        let mut k: u64 = 0;
        proof {
            assert(pow2(0) == 1) by {
                vstd::arithmetic::power2::lemma2_to64();
            }
            assert(start / 1 == start);
        }
        while k < n
            invariant
                k <= n,
                m == start / pow2(k as nat) as int,
                0 <= start,
            decreases n - k,
        {
            proof {
                lemma_pow2_unfold((k + 1) as nat);
                lemma_pow2_pos(k as nat);
                lemma_div_denominator(start, pow2(k as nat) as int, 2);
                lemma_mul_is_commutative(pow2(k as nat) as int, 2);
            }
            m = m / 2;
            k += 1;
        }
        m
    } else {
        let n: u64 = e - 1075;
        let mut k: u64 = 0;
        proof {
            assert(pow2(0) == 1) by {
                vstd::arithmetic::power2::lemma2_to64();
            }
        }
        while k < n
            invariant
                k <= n <= 11,
                m == start * pow2(k as nat),
                m < 0x20_0000_0000_0000 * pow2(k as nat),
            decreases n - k,
        {
            proof {
                lemma_pow2_unfold((k + 1) as nat);
                lemma_mul_is_associative(start, 2, pow2(k as nat) as int);
                lemma_mul_is_commutative(start, 2);
                lemma_mul_is_associative(2, start, pow2(k as nat) as int);
                vstd::arithmetic::power2::lemma2_to64();
                assert(pow2(k as nat) <= 1024) by {
                    if k == 0 {
                    } else if k == 1 {
                    } else if k == 2 {
                    } else if k == 3 {
                    } else if k == 4 {
                    } else if k == 5 {
                    } else if k == 6 {
                    } else if k == 7 {
                    } else if k == 8 {
                    } else if k == 9 {
                    } else {
                        assert(k == 10);
                    }
                }
            }
            m = m * 2;
            k += 1;
        }
        m
    }
}

/// The mantissa of a positive number, with its leading one.
pub open spec fn mantissa(bits: u64) -> int {
    if bits < LEAD {
        bits as int
    } else {
        LEAD + bits as int % LEAD as int
    }
}

/// The exponent of a positive number, as it is stored; the smallest numbers have the same one as
/// those above them. The value is `mantissa * 2^(exponent - 1075)`.
pub open spec fn exponent(bits: u64) -> int {
    if bits < LEAD {
        1
    } else {
        bits as int / LEAD as int
    }
}

/// The mantissa of the double that is nearest to 0.6; its exponent makes it a multiple of `2^-53`.
pub const SIX_TENTHS: u64 = 0x13_3333_3333_3333;

/// `p / d`, rounded to the nearest integer, and to the even one of two.
pub open spec fn nearest(p: int, d: int) -> int {
    let q = p / d;
    let r = p % d;
    if 2 * r > d || (2 * r == d && q % 2 == 1) {
        q + 1
    } else {
        q
    }
}

/// The pattern of six tenths of a positive number: the exact product of the mantissas has 105 or
/// 106 bits, of which 53 stay, fewer for the smallest numbers.
pub open spec fn six_tenths_of(bits: u64) -> int {
    let p = mantissa(bits) * SIX_TENTHS;
    let e = exponent(bits);
    if p >= 0x200_0000_0000_0000_0000_0000_0000int || e == 1 {
        (e - 1) * LEAD + nearest(p, 0x20_0000_0000_0000)
    } else {
        (e - 2) * LEAD + nearest(p, 0x10_0000_0000_0000)
    }
}

/// `p / d`, rounded to the nearest integer, and to the even one of two.
fn nearest_of(p: u128, d: u128) -> (r: u128)
    requires
        0 < d <= 0x20_0000_0000_0000,
        p < 0x400_0000_0000_0000_0000_0000_0000,
    ensures
        r == nearest(p as int, d as int),
{
    let q: u128 = p / d;
    let r: u128 = p % d;
    if 2 * r > d || (2 * r == d && q % 2 == 1) {
        q + 1
    } else {
        q
    }
}

/// Six tenths of a positive number, as the product of two doubles gives it.
pub fn six_tenths(bits: u64) -> (r: u64)
    requires
        bits < INFINITE,
    ensures
        r == six_tenths_of(bits),
{
    let (m, e): (u64, u64) = if bits < LEAD {
        (bits, 1)
    } else {
        (LEAD + bits % LEAD, bits / LEAD)
    };
    let p: u128 = m as u128 * SIX_TENTHS as u128;
    if p >= 0x200_0000_0000_0000_0000_0000_0000 || e == 1 {
        let q: u128 = nearest_of(p, 0x20_0000_0000_0000);
        (e - 1) * LEAD + q as u64
    } else {
        let q: u128 = nearest_of(p, 0x10_0000_0000_0000);
        (e - 2) * LEAD + q as u64
    }
}

/// Six tenths of a number are less than the number, unless it is zero or the smallest of all, which
/// is its own nearest six tenths.
pub proof fn six_tenths_are_less(bits: u64)
    requires
        1 < bits < INFINITE,
    ensures
        0 < six_tenths_of(bits) < bits,
{
}

/// What is left of a number without its fraction is the largest whole number that is not above it: for
/// numbers from one on whose mantissa, `m` times a power of two, reaches behind the point.
pub proof fn fractions_are_cut_off(bits: u64)
    requires
        1023 <= bits as int / 0x10_0000_0000_0000 <= 1075,
    ensures
        ({
            let m = 0x10_0000_0000_0000 + bits as int % 0x10_0000_0000_0000;
            let d = pow2((1075 - bits as int / 0x10_0000_0000_0000) as nat) as int;
            truncated(bits) * d <= m < (truncated(bits) + 1) * d
        }),
{
    let e = bits as int / 0x10_0000_0000_0000;
    let m = 0x10_0000_0000_0000 + bits as int % 0x10_0000_0000_0000;
    let d = pow2((1075 - e) as nat) as int;
    lemma_pow2_pos((1075 - e) as nat);
    assert(m / d * d <= m < (m / d + 1) * d && m / d <= m) by (nonlinear_arith)
        requires
            d > 0,
            m > 0,
    ;
}

/// Below one, and below zero, nothing is left of a number.
pub proof fn small_numbers_leave_nothing(bits: u64)
    requires
        magnitude(bits) < 0x3ff0_0000_0000_0000 || bits >= SIGN,
    ensures
        truncated(bits) == 0,
{
}

/// Rounding gives the nearest whole number, and of two that are equally near the even one.
pub proof fn rounding_is_to_the_nearest(p: int, d: int)
    requires
        0 < d,
        0 <= p,
    ensures
        -d <= 2 * (nearest(p, d) * d - p) <= d,
        2 * (nearest(p, d) * d - p) == d || 2 * (nearest(p, d) * d - p) == -d ==> nearest(p, d) % 2 == 0,
{
    let q = p / d;
    vstd::arithmetic::div_mod::lemma_fundamental_div_mod(p, d);
    assert(q * d == d * q) by (nonlinear_arith);
    assert((q + 1) * d == q * d + d) by (nonlinear_arith);
}

} // verus!
