//! The absolute difference of two samples, and the largest one over two
//! sample buffers.

use crate::binary32::{
    is_infinite, is_nan, is_negative, lemma_landmarks, lemma_scaled_order, scale, scaled,
    significand, value, HIDDEN, INFINITY, SIGN,
};
use crate::rounding::{
    lemma_between_midpoints_rounds, lemma_every_size_rounds, lemma_exact_rounds,
    round_to_nearest, rounded, rounds_to,
};
use vstd::arithmetic::power2::*;
use vstd::bits::{lemma_u64_pow2_no_overflow, lemma_u64_shl_is_mul};
use vstd::prelude::*;

verus! {

/// `|a - b|` for two numbers of the format, before any rounding, in units of
/// 2^-149.
pub open spec fn exact_difference(a: u32, b: u32) -> nat {
    let d = value(a) - value(b);
    if d >= 0 {
        d as nat
    } else {
        (-d) as nat
    }
}

/// `|a - b|` as the format computes it: the exact difference rounded to the
/// nearest magnitude, ties to even. `None` stands for a result that is not a
/// number, which comes from an operand that is not one and from two
/// infinities of one sign.
pub open spec fn absolute_difference(a: u32, b: u32) -> Option<u32> {
    if is_nan(a) || is_nan(b) {
        None
    } else if is_infinite(a) || is_infinite(b) {
        if is_infinite(a) && is_infinite(b) && is_negative(a) == is_negative(b) {
            None
        } else {
            Some(INFINITY)
        }
    } else {
        Some(rounded(exact_difference(a, b)))
    }
}

/// Significand and scale of a finite magnitude.
fn split(m: u32) -> (r: (u64, u32))
    requires
        m < INFINITY,
    ensures
        r.0 == significand(m),
        r.1 == scale(m),
        r.0 < 2 * HIDDEN,
        r.1 <= 253,
{
    let e: u32 = m / HIDDEN;
    let f: u32 = m % HIDDEN;
    if e == 0 {
        (f as u64, 0)
    } else {
        ((f + HIDDEN) as u64, e - 1)
    }
}

/// 2^k.
fn power_of_two(k: u32) -> (p: u64)
    requires
        k < 64,
    ensures
        p == pow2(k as nat),
{
    proof {
        lemma_u64_pow2_no_overflow(k as nat);
        lemma_u64_shl_is_mul(1, k as u64);
    }
    1u64 << k
}

/// Where the scales of two magnitudes are 26 or more apart, the smaller one
/// is less than a quarter of the spacing around the larger, and neither
/// their sum nor their difference rounds away from the larger.
proof fn lemma_small_term_vanishes(hi: u32, lo: u32, x: nat)
    requires
        lo <= hi < INFINITY,
        scale(hi) >= scale(lo) + 26,
        x == scaled(hi) + scaled(lo) || x == scaled(hi) - scaled(lo),
    ensures
        rounds_to(x, hi),
        rounded(x) == hi,
{
    let el = scale(lo);
    let eh = scale(hi);
    let before = (hi - 1) as u32;
    // Twice the smaller one is below 2^(25 + el), which is no more than the
    // spacing on either side of the larger one.
    lemma2_to64();
    lemma_pow2_adds(24, el);
    lemma_pow2_pos(el);
    lemma_pow2_unfold(25 + el);
    assert(scaled(lo) < pow2(24) * pow2(el)) by (nonlinear_arith)
        requires
            scaled(lo) == significand(lo) * pow2(el),
            significand(lo) < pow2(24),
            pow2(el) > 0,
    ;
    if 25 + el < eh - 1 {
        lemma_pow2_strictly_increases(25 + el, (eh - 1) as nat);
    }
    if scale(before) > eh - 1 {
        lemma_pow2_strictly_increases((eh - 1) as nat, scale(before));
    }
    lemma_pow2_strictly_increases((eh - 1) as nat, eh);
    lemma_scaled_order(lo, hi);
    lemma_between_midpoints_rounds(x, hi);
}

/// Rounds the sum (`opposed`) or the difference of the sizes of two finite
/// magnitudes, the larger one first.
fn combine(hi: u32, lo: u32, opposed: bool) -> (r: u32)
    requires
        lo <= hi < INFINITY,
    ensures
        r == rounded(
            if opposed {
                scaled(hi) + scaled(lo)
            } else {
                (scaled(hi) - scaled(lo)) as nat
            },
        ),
{
    let ghost x: nat = if opposed {
        scaled(hi) + scaled(lo)
    } else {
        (scaled(hi) - scaled(lo)) as nat
    };
    let (sh, eh) = split(hi);
    let (sl, el) = split(lo);
    proof {
        lemma_scaled_order(lo, hi);
    }
    let gap: u32 = eh - el;
    if gap > 25 {
        // Too far apart for the smaller one to move the larger.
        proof {
            lemma_small_term_vanishes(hi, lo, x);
        }
        return hi;
    }
    // At the scale of the smaller one both are whole numbers, and their sum
    // or difference is exact.
    let factor: u64 = power_of_two(gap);
    proof {
        lemma2_to64();
        if gap < 25 {
            lemma_pow2_strictly_increases(gap as nat, 25);
        }
        assert(sh * factor < 0x2_0000_0000_0000) by (nonlinear_arith)
            requires
                sh < 0x100_0000,
                factor <= 0x200_0000,
        ;
    }
    let wide: u64 = sh * factor;
    let ghost unit = pow2(el as nat);
    proof {
        lemma_pow2_adds(gap as nat, el as nat);
        lemma_pow2_pos(el as nat);
        assert(scaled(hi) == wide * unit) by (nonlinear_arith)
            requires
                scaled(hi) == sh * (factor * unit),
                wide == sh * factor,
        ;
        assert(wide >= sl) by (nonlinear_arith)
            requires
                wide * unit >= sl * unit,
                unit > 0,
        ;
        assert((wide + sl) * unit == wide * unit + sl * unit) by (nonlinear_arith);
        assert((wide - sl) * unit == wide * unit - sl * unit) by (nonlinear_arith);
    }
    let units: u64 = if opposed {
        wide + sl
    } else {
        wide - sl
    };
    round_to_nearest(units, el)
}

/// `|a - b|` for two samples given by their bits: the bits of the result,
/// or `None` where the result is not a number.
pub fn abs_diff(a: u32, b: u32) -> (r: Option<u32>)
    ensures
        r == absolute_difference(a, b),
{
    let ma: u32 = a % SIGN;
    let mb: u32 = b % SIGN;
    if ma > INFINITY || mb > INFINITY {
        return None;
    }
    let opposed: bool = (a >= SIGN) != (b >= SIGN);
    if ma == INFINITY || mb == INFINITY {
        return if ma == mb && !opposed {
            None
        } else {
            Some(INFINITY)
        };
    }
    proof {
        lemma_scaled_order(ma, mb);
    }
    if ma >= mb {
        Some(combine(ma, mb, opposed))
    } else {
        Some(combine(mb, ma, opposed))
    }
}

/// The largest absolute difference among the first `n` pairs of samples,
/// zero where none of them is a number.
pub open spec fn max_difference_among(a: Seq<u32>, b: Seq<u32>, n: nat) -> u32
    decreases n,
{
    if n == 0 {
        0
    } else {
        let before = max_difference_among(a, b, (n - 1) as nat);
        match absolute_difference(a[n - 1], b[n - 1]) {
            Some(d) => if d > before {
                d
            } else {
                before
            },
            None => before,
        }
    }
}

/// The largest absolute difference between samples at the same place in two
/// buffers, zero where none is a number. The result is a magnitude, and
/// magnitudes are ordered as the numbers they stand for.
pub open spec fn max_difference(a: Seq<u32>, b: Seq<u32>) -> u32 {
    max_difference_among(a, b, a.len())
}

/// No difference among the first `n` is larger than the largest, and the
/// largest is one of them unless it is zero.
proof fn lemma_max_difference_among(a: Seq<u32>, b: Seq<u32>, n: nat)
    ensures
        max_difference_among(a, b, n) <= INFINITY,
        forall|i: int|
            0 <= i < n ==> (#[trigger] absolute_difference(a[i], b[i]) matches Some(d)
                ==> d <= max_difference_among(a, b, n)),
        max_difference_among(a, b, n) == 0 || exists|i: int|
            0 <= i < n && #[trigger] absolute_difference(a[i], b[i]) == Some(
                max_difference_among(a, b, n),
            ),
    decreases n,
{
    if n > 0 {
        let before = (n - 1) as nat;
        lemma_max_difference_among(a, b, before);
        lemma_difference_is_magnitude(a[n - 1], b[n - 1]);
        let top = max_difference_among(a, b, n);
        if top != 0 && absolute_difference(a[n - 1], b[n - 1]) != Some(top) {
            let i = choose|i: int|
                0 <= i < before && #[trigger] absolute_difference(a[i], b[i]) == Some(top);
            assert(0 <= i < n && absolute_difference(a[i], b[i]) == Some(top));
        }
    }
}

/// The largest difference between two buffers of one length is a magnitude,
/// no difference between samples at the same place is larger, by its bits
/// or by the number it stands for, and it is one of those differences
/// unless it is zero.
pub proof fn lemma_max_difference_is_largest(a: Seq<u32>, b: Seq<u32>)
    requires
        a.len() == b.len(),
    ensures
        max_difference(a, b) <= INFINITY,
        forall|i: int|
            0 <= i < a.len() ==> (#[trigger] absolute_difference(a[i], b[i]) matches Some(d)
                ==> d <= max_difference(a, b) && scaled(d) <= scaled(max_difference(a, b))),
        max_difference(a, b) == 0 || exists|i: int|
            0 <= i < a.len() && #[trigger] absolute_difference(a[i], b[i]) == Some(
                max_difference(a, b),
            ),
{
    lemma_max_difference_among(a, b, a.len());
    let top = max_difference(a, b);
    assert forall|i: int| 0 <= i < a.len() implies (#[trigger] absolute_difference(a[i], b[i])
        matches Some(d) ==> scaled(d) <= scaled(top)) by {
        if let Some(d) = absolute_difference(a[i], b[i]) {
            lemma_scaled_order(d, top);
        }
    }
}

/// An absolute difference that is a number is a magnitude up to infinity.
pub proof fn lemma_difference_is_magnitude(a: u32, b: u32)
    ensures
        absolute_difference(a, b) matches Some(d) ==> d <= INFINITY,
{
    lemma_every_size_rounds(exact_difference(a, b));
}

/// `|a - b|` is `|b - a|`.
pub proof fn lemma_difference_is_symmetric(a: u32, b: u32)
    ensures
        absolute_difference(a, b) == absolute_difference(b, a),
{
}

/// A sample differs from itself by zero, or by nothing that is a number.
pub proof fn lemma_no_difference_from_itself(a: u32)
    ensures
        absolute_difference(a, a) == Some(0u32) || absolute_difference(a, a) is None,
{
    lemma_landmarks();
    lemma_exact_rounds(0);
}

/// The largest difference between a buffer and itself is zero.
pub proof fn lemma_identical_buffers_differ_by_zero(a: Seq<u32>)
    ensures
        max_difference(a, a) == 0,
{
    lemma_no_difference_among_identical(a, a.len());
}

proof fn lemma_no_difference_among_identical(a: Seq<u32>, n: nat)
    ensures
        max_difference_among(a, a, n) == 0,
    decreases n,
{
    if n > 0 {
        lemma_no_difference_among_identical(a, (n - 1) as nat);
        lemma_no_difference_from_itself(a[n - 1]);
    }
}

/// The largest absolute difference between the samples of two buffers of one
/// length, place by place. Differences that are not numbers are passed
/// over; with no other, the result is zero.
pub fn max_abs_diff(present: &[u32], baseline: &[u32]) -> (r: u32)
    requires
        present.len() == baseline.len(),
    ensures
        r == max_difference(present@, baseline@),
        r <= INFINITY,
        forall|i: int|
            0 <= i < present.len() ==> (#[trigger] absolute_difference(present[i], baseline[i])
                matches Some(d) ==> d <= r),
        r == 0 || exists|i: int|
            0 <= i < present.len() && #[trigger] absolute_difference(present[i], baseline[i])
                == Some(r),
{
    let mut biggest: u32 = 0;
    let mut i: usize = 0;
    while i < present.len()
        invariant
            i <= present.len(),
            present.len() == baseline.len(),
            biggest == max_difference_among(present@, baseline@, i as nat),
        decreases present.len() - i,
    {
        match abs_diff(present[i], baseline[i]) {
            Some(d) => {
                if d > biggest {
                    biggest = d;
                }
            },
            None => {},
        }
        i = i + 1;
    }
    proof {
        lemma_max_difference_is_largest(present@, baseline@);
    }
    biggest
}

} // verus!
