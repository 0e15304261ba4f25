//! The single precision format, bit by bit.
//!
//! A sample is kept as the 32 bits that stand for it: one sign bit, eight
//! exponent bits and twenty-three fraction bits. Every number of the format
//! is a whole multiple of 2^-149, so its size is stated here as a natural
//! number of such units, and comparisons become comparisons of integers.

use vstd::arithmetic::power2::*;
use vstd::prelude::*;

verus! {

/// The sign bit.
pub const SIGN: u32 = 0x8000_0000;

/// The magnitude of infinity: every larger magnitude is not a number.
pub const INFINITY: u32 = 0x7F80_0000;

/// The lowest exponent bit, which is also the weight of the hidden bit.
pub const HIDDEN: u32 = 0x0080_0000;

/// The bits without the sign.
pub open spec fn magnitude(bits: u32) -> u32 {
    bits % SIGN
}

pub open spec fn is_negative(bits: u32) -> bool {
    bits >= SIGN
}

pub open spec fn is_nan(bits: u32) -> bool {
    magnitude(bits) > INFINITY
}

pub open spec fn is_infinite(bits: u32) -> bool {
    magnitude(bits) == INFINITY
}

/// The exponent field of a magnitude.
pub open spec fn exponent(m: u32) -> nat {
    (m / HIDDEN) as nat
}

/// The fraction field of a magnitude.
pub open spec fn fraction(m: u32) -> nat {
    (m % HIDDEN) as nat
}

/// The integer that the fraction stands for, with the hidden bit where the
/// exponent field is not zero.
pub open spec fn significand(m: u32) -> nat {
    if exponent(m) == 0 {
        fraction(m)
    } else {
        HIDDEN as nat + fraction(m)
    }
}

/// The power of two by which the significand is scaled, as an exponent over
/// the unit 2^-149.
pub open spec fn scale(m: u32) -> nat {
    if exponent(m) == 0 {
        0
    } else {
        (exponent(m) - 1) as nat
    }
}

/// The distance from a magnitude to the next, in units of 2^-149.
pub open spec fn spacing(m: u32) -> nat {
    pow2(scale(m))
}

/// The size of a magnitude in units of 2^-149. Infinity counts as 2^277, the
/// number that would follow the largest finite one.
pub open spec fn scaled(m: u32) -> nat {
    significand(m) * spacing(m)
}

/// The number that a bit pattern stands for, in units of 2^-149.
pub open spec fn value(bits: u32) -> int {
    if is_negative(bits) {
        -(scaled(magnitude(bits)) as int)
    } else {
        scaled(magnitude(bits)) as int
    }
}

/// `a > b` as the format orders its numbers: false where either is not a
/// number, and the two zeros are equal.
pub open spec fn greater(a: u32, b: u32) -> bool {
    !is_nan(a) && !is_nan(b) && value(a) > value(b)
}

/// Landmarks of the scale: zero is nothing, the least magnitude is one unit,
/// the number one is 2^149 units, and infinity stands at 2^277.
pub proof fn lemma_landmarks()
    ensures
        scaled(0) == 0,
        scaled(1) == 1,
        scaled(0x3F80_0000) == pow2(149),
        scaled(INFINITY) == pow2(277),
{
    lemma2_to64();
    lemma_pow2_adds(23, 126);
    lemma_pow2_adds(23, 254);
    assert(0 * pow2(0) == 0) by (nonlinear_arith);
    assert(1 * pow2(0) == pow2(0)) by (nonlinear_arith);
}

/// From one magnitude to the next the size grows by the spacing.
pub proof fn lemma_next_magnitude(m: u32)
    requires
        m < u32::MAX,
    ensures
        scaled((m + 1) as u32) == scaled(m) + spacing(m),
{
    let p = spacing(m);
    let s = significand(m);
    if fraction(m) + 1 < HIDDEN {
        // The fraction has room: the significand grows by one.
        assert((s + 1) * p == s * p + p) by (nonlinear_arith);
    } else if exponent(m) == 0 {
        // After the last magnitude without the hidden bit comes the first
        // with it, at the same scale.
        assert(HIDDEN * p == s * p + p) by (nonlinear_arith)
            requires
                s == HIDDEN - 1,
        ;
    } else {
        // The fraction is full: the next magnitude opens the next exponent,
        // with the bare hidden bit at twice the scale.
        let e = exponent(m);
        lemma_pow2_unfold(e);
        let q = pow2(e);
        assert(HIDDEN * q == s * p + p) by (nonlinear_arith)
            requires
                q == 2 * p,
                s == 2 * HIDDEN - 1,
        ;
    }
}

/// A larger magnitude stands for a larger size.
pub proof fn lemma_scaled_increases(m1: u32, m2: u32)
    requires
        m1 < m2,
    ensures
        scaled(m1) < scaled(m2),
    decreases m2 - m1,
{
    let below = (m2 - 1) as u32;
    lemma_next_magnitude(below);
    lemma_pow2_pos(scale(below));
    if m1 < below {
        lemma_scaled_increases(m1, below);
    }
}

/// Magnitudes are ordered as the sizes they stand for.
pub proof fn lemma_scaled_order(m1: u32, m2: u32)
    ensures
        m1 < m2 <==> scaled(m1) < scaled(m2),
        m1 == m2 <==> scaled(m1) == scaled(m2),
{
    if m1 < m2 {
        lemma_scaled_increases(m1, m2);
    }
    if m2 < m1 {
        lemma_scaled_increases(m2, m1);
    }
}

/// A number equal to the tolerance is not greater than it: the tolerance
/// itself is still allowed.
pub proof fn lemma_equal_is_not_greater(x: u32, tolerance: u32)
    requires
        value(x) == value(tolerance),
    ensures
        !greater(x, tolerance),
{
}

/// Whether `x` is greater than `tolerance`, both given by their bits.
pub fn exceeds(x: u32, tolerance: u32) -> (r: bool)
    ensures
        r == greater(x, tolerance),
{
    let mx: u32 = x % SIGN;
    let mt: u32 = tolerance % SIGN;
    if mx > INFINITY || mt > INFINITY {
        return false;
    }
    proof {
        lemma_scaled_order(mx, mt);
        lemma_scaled_order(0, mx);
        lemma_scaled_order(0, mt);
        lemma_landmarks();
    }
    if x >= SIGN {
        tolerance >= SIGN && mx < mt
    } else if tolerance >= SIGN {
        mx > 0 || mt > 0
    } else {
        mx > mt
    }
}

} // verus!
