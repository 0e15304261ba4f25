//! Rounding an exact size to the nearest magnitude, ties to even.

use crate::binary32::{
    lemma_landmarks, lemma_next_magnitude, lemma_scaled_increases, scale, scaled, significand,
    spacing, HIDDEN, INFINITY,
};
use vstd::arithmetic::power2::*;
use vstd::prelude::*;

verus! {

/// How far two sizes are apart.
pub open spec fn distance(x: nat, y: nat) -> nat {
    if x >= y {
        (x - y) as nat
    } else {
        (y - x) as nat
    }
}

/// `r` is the magnitude whose size is nearest to `x`, infinity included as
/// the magnitude after the largest finite one; where two are equally near,
/// `r` is the even one of them.
pub open spec fn rounds_to(x: nat, r: u32) -> bool {
    r <= INFINITY && forall|s: u32|
        s <= INFINITY && s != r ==> {
            ||| distance(x, scaled(r)) < distance(x, #[trigger] scaled(s))
            ||| distance(x, scaled(r)) == distance(x, scaled(s)) && r % 2 == 0
        }
}

/// The magnitude that `x` rounds to.
pub open spec fn rounded(x: nat) -> u32 {
    choose|r: u32| rounds_to(x, r)
}

/// `x` lies between the two midpoints around `r`, and on a midpoint only
/// where `r` is even.
pub open spec fn between_midpoints(x: nat, r: u32) -> bool {
    &&& r <= INFINITY
    &&& r < INFINITY ==> {
        ||| 2 * x < 2 * scaled(r) + spacing(r)
        ||| 2 * x == 2 * scaled(r) + spacing(r) && r % 2 == 0
    }
    &&& r > 0 ==> {
        ||| 2 * x + spacing((r - 1) as u32) > 2 * scaled(r)
        ||| 2 * x + spacing((r - 1) as u32) == 2 * scaled(r) && r % 2 == 0
    }
}

/// No exact size rounds to two magnitudes.
pub proof fn lemma_rounding_is_unique(x: nat, r1: u32, r2: u32)
    requires
        rounds_to(x, r1),
        rounds_to(x, r2),
    ensures
        r1 == r2,
{
    if r1 != r2 {
        let (lo, hi) = if r1 < r2 {
            (r1, r2)
        } else {
            (r2, r1)
        };
        // Each is as near as the other, so both are even and `x` lies
        // midway between them; the odd one after `lo` is nearer still.
        assert(distance(x, scaled(lo)) == distance(x, scaled(hi)));
        assert(lo % 2 == 0 && hi % 2 == 0);
        let t = (lo + 1) as u32;
        lemma_scaled_increases(lo, hi);
        lemma_scaled_increases(lo, t);
        lemma_scaled_increases(t, hi);
        assert(distance(x, scaled(t)) < distance(x, scaled(lo)));
    }
}

/// A size between the midpoints around `r` rounds to `r`.
pub proof fn lemma_between_midpoints_rounds(x: nat, r: u32)
    requires
        between_midpoints(x, r),
    ensures
        rounds_to(x, r),
        rounded(x) == r,
{
    assert forall|s: u32| s <= INFINITY && s != r implies {
        ||| distance(x, scaled(r)) < distance(x, #[trigger] scaled(s))
        ||| distance(x, scaled(r)) == distance(x, scaled(s)) && r % 2 == 0
    } by {
        if s > r {
            let next = (r + 1) as u32;
            lemma_next_magnitude(r);
            lemma_pow2_pos(scale(r));
            if s > next {
                lemma_scaled_increases(next, s);
            }
        } else {
            let before = (r - 1) as u32;
            lemma_next_magnitude(before);
            lemma_pow2_pos(scale(before));
            if s < before {
                lemma_scaled_increases(s, before);
            }
        }
    }
    assert(rounds_to(x, r));
    lemma_rounding_is_unique(x, r, rounded(x));
}

/// The size of a magnitude rounds to that magnitude.
pub proof fn lemma_exact_rounds(r: u32)
    requires
        r <= INFINITY,
    ensures
        rounds_to(scaled(r), r),
        rounded(scaled(r)) == r,
{
    lemma_pow2_pos(scale(r));
    if r > 0 {
        lemma_pow2_pos(scale((r - 1) as u32));
    }
    lemma_between_midpoints_rounds(scaled(r), r);
}

/// The last magnitude up to `top` whose size does not pass `x`.
proof fn lemma_last_not_above(x: nat, top: u32) -> (r: u32)
    ensures
        r <= top,
        scaled(r) <= x,
        r < top ==> x < scaled((r + 1) as u32),
    decreases top,
{
    if top == 0 {
        lemma_landmarks();
        0
    } else {
        let r = lemma_last_not_above(x, (top - 1) as u32);
        if r == top - 1 && scaled(top) <= x {
            top
        } else {
            r
        }
    }
}

/// Every exact size rounds to some magnitude, so `rounded` is that one.
pub proof fn lemma_every_size_rounds(x: nat)
    ensures
        rounds_to(x, rounded(x)),
{
    let below = lemma_last_not_above(x, INFINITY);
    lemma_pow2_pos(scale(below));
    if below > 0 {
        lemma_pow2_pos(scale((below - 1) as u32));
    }
    if below == INFINITY {
        lemma_between_midpoints_rounds(x, below);
    } else {
        let above = (below + 1) as u32;
        lemma_next_magnitude(below);
        lemma_pow2_pos(scale(above));
        let middle = 2 * scaled(below) + spacing(below);
        if 2 * x < middle || (2 * x == middle && below % 2 == 0) {
            lemma_between_midpoints_rounds(x, below);
        } else {
            lemma_between_midpoints_rounds(x, above);
        }
    }
}

/// Multiplying by a positive number keeps the order.
proof fn lemma_scaling_keeps_order(u: int, v: int, p: int)
    by (nonlinear_arith)
    requires
        p > 0,
    ensures
        u < v <==> u * p < v * p,
        u == v <==> u * p == v * p,
{
}

/// Rounds `units * 2^exp`, counted in units of 2^-149, to the nearest
/// magnitude, ties to even; what lies beyond the finite range becomes
/// infinity.
pub fn round_to_nearest(units: u64, exp: u32) -> (r: u32)
    ensures
        rounds_to((units * pow2(exp as nat)) as nat, r),
        r == rounded((units * pow2(exp as nat)) as nat),
{
    let ghost x: nat = (units * pow2(exp as nat)) as nat;
    proof {
        lemma_pow2_pos(exp as nat);
        assert(units * pow2(exp as nat) >= 0) by (nonlinear_arith)
            requires
                pow2(exp as nat) > 0,
        ;
    }
    if units == 0 {
        proof {
            assert(x == 0) by (nonlinear_arith)
                requires
                    x == 0 * pow2(exp as nat),
            ;
            lemma_landmarks();
            lemma_exact_rounds(0);
        }
        return 0;
    }
    let mut s: u64 = units;
    let mut e: u32 = exp;
    // Cancellation may have left a short significand: widen it while the
    // exponent allows, which changes nothing of the size.
    while s < HIDDEN as u64 && e > 0
        invariant
            s * pow2(e as nat) == x,
            s >= 1,
        decreases e,
    {
        proof {
            lemma_pow2_unfold(e as nat);
            let half = pow2((e - 1) as nat);
            assert((s * 2) * half == s * (2 * half)) by (nonlinear_arith);
        }
        s = s * 2;
        e = e - 1;
    }
    if e > 253 {
        proof {
            lemma_pow2_pos(254);
            if e > 254 {
                lemma_pow2_strictly_increases(254, e as nat);
            }
            let least = pow2(254);
            assert(s * pow2(e as nat) >= HIDDEN * least) by (nonlinear_arith)
                requires
                    s >= HIDDEN,
                    pow2(e as nat) >= least,
                    least > 0,
            ;
            lemma_pow2_pos(scale((INFINITY - 1) as u32));
            lemma_between_midpoints_rounds(x, INFINITY);
        }
        return INFINITY;
    }
    if s < 2 * (HIDDEN as u64) {
        let r: u32 = e * HIDDEN + (s as u32);
        proof {
            // Short enough to be held as it is.
            assert(significand(r) == s);
            assert(scale(r) == e);
            assert(scaled(r) == x);
            lemma_exact_rounds(r);
        }
        return r;
    }
    // The significand is too long: cut off its low bits, keeping them apart.
    let mut q: u64 = s;
    let mut p: u64 = 1;
    let mut rest: u64 = 0;
    let mut k: u32 = 0;
    proof {
        lemma2_to64();
    }
    while q >= 2 * (HIDDEN as u64)
        invariant
            s == q * p + rest,
            rest < p,
            p == pow2(k as nat),
            q >= HIDDEN as u64,
            k <= 40,
            q < 2 * (HIDDEN as u64) ==> k >= 1,
        decreases q,
    {
        proof {
            assert(p < 0x100_0000_0000) by (nonlinear_arith)
                requires
                    q >= 0x100_0000,
                    q * p + rest < 0x1_0000_0000_0000_0000,
                    rest >= 0,
                    p >= 0,
            ;
            lemma2_to64_rest();
            if k > 40 {
                lemma_pow2_strictly_increases(40, k as nat);
            }
            assert(k < 40);
            lemma_pow2_unfold((k + 1) as nat);
            let bit = q % 2;
            assert((q / 2) * (p * 2) + bit * p == q * p) by (nonlinear_arith)
                requires
                    bit == q % 2,
            ;
            assert(bit * p == if bit == 1 { p } else { 0 }) by (nonlinear_arith)
                requires
                    bit == 0 || bit == 1,
            ;
        }
        if q % 2 == 1 {
            rest = rest + p;
        }
        q = q / 2;
        p = p * 2;
        k = k + 1;
    }
    let total: u32 = e + k;
    let ghost unit = pow2(e as nat);
    let ghost step = pow2(total as nat);
    proof {
        lemma_pow2_adds(k as nat, e as nat);
        lemma_pow2_pos(e as nat);
        lemma_pow2_pos(total as nat);
        assert(step == p * unit);
        assert((q * p + rest) * unit == q * (p * unit) + rest * unit) by (nonlinear_arith);
        assert(x == q * step + rest * unit);
        lemma_scaling_keeps_order(rest as int, p as int, unit as int);
        assert(rest * unit >= 0) by (nonlinear_arith)
            requires
                unit > 0,
                rest >= 0,
        ;
    }
    if total >= 254 {
        proof {
            if total > 254 {
                lemma_pow2_strictly_increases(254, total as nat);
            }
            let least = pow2(254);
            lemma_pow2_pos(254);
            assert(q * step >= HIDDEN * least) by (nonlinear_arith)
                requires
                    q >= HIDDEN,
                    step >= least,
                    least > 0,
            ;
            lemma_pow2_pos(scale((INFINITY - 1) as u32));
            lemma_between_midpoints_rounds(x, INFINITY);
        }
        return INFINITY;
    }
    let half: u64 = p / 2;
    let up: bool = rest > half || (rest == half && q % 2 == 1);
    let low: u32 = total * HIDDEN + (q as u32);
    let r: u32 = if up {
        low + 1
    } else {
        low
    };
    proof {
        // `low` is the magnitude just below or at `x`, `step` away from the
        // next; the rest says on which side of their midpoint `x` lies.
        lemma_pow2_unfold(k as nat);
        assert(p == 2 * half);
        assert(significand(low) == q);
        assert(scaled(low) == q * step);
        assert(spacing(low) == step);
        assert(low % 2 == q % 2);
        lemma_scaling_keeps_order(2 * rest, p as int, unit as int);
        assert((2 * rest) * unit == 2 * (rest * unit)) by (nonlinear_arith);
        if up {
            lemma_next_magnitude(low);
            lemma_pow2_pos(scale(r));
        } else {
            lemma_pow2_pos(scale((low - 1) as u32));
        }
        lemma_between_midpoints_rounds(x, r);
    }
    r
}

} // verus!
