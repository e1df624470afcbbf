//! Round-half-away-from-zero division.
//!
//! The line rasterizer places its pixels at exact rational positions and
//! rounds each to the nearest integer; a fraction of exactly one half moves
//! away from zero. This module defines that rounding, computes it exactly,
//! and proves the facts about it that the rasterizer's contracts need.

use vstd::prelude::*;
use vstd::arithmetic::div_mod::{
    lemma_basic_div, lemma_div_is_ordered, lemma_div_nonincreasing, lemma_div_pos_is_pos,
    lemma_fundamental_div_mod, lemma_fundamental_div_mod_converse, lemma_mod_bound,
};

verus! {

/// The absolute value of `a`.
pub open spec fn abs_of(a: int) -> int {
    if a < 0 {
        -a
    } else {
        a
    }
}

/// The larger of `a` and `b`.
pub open spec fn max_of(a: int, b: int) -> int {
    if a >= b {
        a
    } else {
        b
    }
}

/// `num / den` rounded to the nearest integer, with halves away from zero.
/// Meaningful for `den > 0`.
pub open spec fn round_div(num: int, den: int) -> int
    recommends
        den > 0,
{
    if num >= 0 {
        (2 * num + den) / (2 * den)
    } else {
        -((2 * (-num) + den) / (2 * den))
    }
}

/// For a non-negative numerator, the rounded quotient is the floored quotient,
/// plus one when the remainder is at least half the divisor.
pub proof fn lemma_round_div_quotient(a: int, den: int)
    requires
        den > 0,
        a >= 0,
    ensures
        round_div(a, den) == a / den + if 2 * (a % den) >= den {
            1int
        } else {
            0int
        },
{
    let q = a / den;
    let r = a % den;
    lemma_fundamental_div_mod(a, den);
    lemma_mod_bound(a, den);
    if 2 * r < den {
        assert(2 * a + den == q * (2 * den) + (2 * r + den)) by (nonlinear_arith)
            requires
                a == den * q + r,
        ;
        lemma_fundamental_div_mod_converse(2 * a + den, 2 * den, q, 2 * r + den);
    } else {
        assert(2 * a + den == (q + 1) * (2 * den) + (2 * r - den)) by (nonlinear_arith)
            requires
                a == den * q + r,
        ;
        lemma_fundamental_div_mod_converse(2 * a + den, 2 * den, q + 1, 2 * r - den);
    }
}

/// Rounding halves away from zero is an odd function of the numerator.
pub proof fn lemma_round_div_neg(a: int, den: int)
    requires
        den > 0,
    ensures
        round_div(-a, den) == -round_div(a, den),
{
    if a == 0 {
        lemma_basic_div(den, 2 * den);
    }
}

/// The rounded quotient is monotone in the numerator.
pub proof fn lemma_round_div_ordered(a: int, b: int, den: int)
    requires
        den > 0,
        a <= b,
    ensures
        round_div(a, den) <= round_div(b, den),
{
    if a >= 0 {
        lemma_div_is_ordered(2 * a + den, 2 * b + den, 2 * den);
    } else if b >= 0 {
        lemma_div_pos_is_pos(2 * (-a) + den, 2 * den);
        lemma_div_pos_is_pos(2 * b + den, 2 * den);
    } else {
        lemma_div_is_ordered(2 * (-b) + den, 2 * (-a) + den, 2 * den);
    }
}

/// An exact multiple of the divisor rounds to the exact quotient.
pub proof fn lemma_round_div_exact(t: int, den: int)
    requires
        den > 0,
    ensures
        round_div(t * den, den) == t,
    decreases (if t < 0 {
        1int
    } else {
        0int
    }),
{
    if t >= 0 {
        let a = t * den;
        assert(a >= 0 && a == den * t + 0) by (nonlinear_arith)
            requires
                den > 0 && t >= 0 && a == t * den,
        ;
        lemma_fundamental_div_mod_converse(a, den, t, 0);
        lemma_round_div_quotient(a, den);
    } else {
        assert(t * den == -((-t) * den)) by (nonlinear_arith);
        lemma_round_div_neg((-t) * den, den);
        lemma_round_div_exact(-t, den);
    }
}

/// With `0 <= k <= den`, the rounding of the position `k / den` of the way
/// from `a1` to `a2`, written as `(a1 * den + k * (a2 - a1)) / den`, stays
/// between `a1` and `a2`: a line's pixels never leave the bounding box of
/// its endpoints.
pub proof fn lemma_round_div_position_bounds(a1: int, a2: int, den: int, k: int)
    requires
        den > 0,
        0 <= k <= den,
    ensures
        a1 <= a2 ==> a1 <= round_div(a1 * den + k * (a2 - a1), den) <= a2,
        a2 <= a1 ==> a2 <= round_div(a1 * den + k * (a2 - a1), den) <= a1,
{
    let num = a1 * den + k * (a2 - a1);
    lemma_round_div_exact(a1, den);
    lemma_round_div_exact(a2, den);
    if a1 <= a2 {
        assert(a1 * den <= num <= a2 * den) by (nonlinear_arith)
            requires
                den > 0 && 0 <= k <= den && a1 <= a2 && num == a1 * den + k * (a2 - a1),
        ;
        lemma_round_div_ordered(a1 * den, num, den);
        lemma_round_div_ordered(num, a2 * den, den);
    } else {
        assert(a2 * den <= num <= a1 * den) by (nonlinear_arith)
            requires
                den > 0 && 0 <= k <= den && a2 <= a1 && num == a1 * den + k * (a2 - a1),
        ;
        lemma_round_div_ordered(a2 * den, num, den);
        lemma_round_div_ordered(num, a1 * den, den);
    }
}

/// `num / den` rounded half away from zero, computed exactly in integers.
pub fn round_div_i128(num: i128, den: i128) -> (q: i128)
    requires
        den > 0,
        -0x2_0000_0000_0000_0000 <= num <= 0x2_0000_0000_0000_0000,
        den <= 0x1_0000_0000,
    ensures
        q == round_div(num as int, den as int),
{
    let n: u128 = if num >= 0 {
        num as u128
    } else {
        (-num) as u128
    };
    let d: u128 = den as u128;
    let q_abs: u128 = (2 * n + d) / (2 * d);
    proof {
        lemma_div_nonincreasing(2 * (n as int) + (d as int), 2 * (d as int));
    }
    if num >= 0 {
        q_abs as i128
    } else {
        -(q_abs as i128)
    }
}

} // verus!
