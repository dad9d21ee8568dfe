//! Rounded integer division, the one arithmetic primitive of the color math:
//! every fractional quantity of the codec and the scale generator is rounded
//! to the nearest integer, ties away from zero.

use vstd::prelude::*;
use vstd::arithmetic::div_mod::{
    lemma_div_is_ordered,
    lemma_div_pos_is_pos,
    lemma_fundamental_div_mod_converse,
};

verus! {

/// `n / d` rounded to the nearest integer, ties away from zero.
pub open spec fn div_round(n: int, d: int) -> int
    recommends
        d > 0,
{
    if n >= 0 {
        (2 * n + d) / (2 * d)
    } else {
        -((2 * (-n) + d) / (2 * d))
    }
}

/// Rounding to the nearest integer keeps a value between multiples of the
/// denominator that enclose the numerator.
pub proof fn lemma_div_round_bounds(n: int, d: int, lo: int, hi: int)
    requires
        d > 0,
        lo * d <= n <= hi * d,
    ensures
        lo <= div_round(n, d) <= hi,
{
    if n >= 0 {
        let q = (2 * n + d) / (2 * d);
        // Upper bound: 2n + d <= (2d)hi + d, whose quotient by 2d is hi.
        assert(2 * n + d <= hi * (2 * d) + d) by (nonlinear_arith)
            requires n <= hi * d;
        lemma_fundamental_div_mod_converse(hi * (2 * d) + d, 2 * d, hi, d);
        lemma_div_is_ordered(2 * n + d, hi * (2 * d) + d, 2 * d);
        // Lower bound.
        if lo >= 0 {
            assert(lo * (2 * d) <= 2 * n + d) by (nonlinear_arith)
                requires lo * d <= n, d > 0, lo >= 0;
            lemma_fundamental_div_mod_converse(lo * (2 * d), 2 * d, lo, 0);
            lemma_div_is_ordered(lo * (2 * d), 2 * n + d, 2 * d);
        } else {
            lemma_div_pos_is_pos(2 * n + d, 2 * d);
        }
    } else {
        let m = -n;
        let q = (2 * m + d) / (2 * d);
        // div_round(n, d) == -q; bound q from both sides.
        // q <= -lo: 2m + d <= (-lo)(2d) + d.
        assert(2 * m + d <= (-lo) * (2 * d) + d) by (nonlinear_arith)
            requires lo * d <= -m;
        lemma_fundamental_div_mod_converse((-lo) * (2 * d) + d, 2 * d, -lo, d);
        lemma_div_is_ordered(2 * m + d, (-lo) * (2 * d) + d, 2 * d);
        // q >= -hi when hi <= 0: (-hi)(2d) <= 2m + d.
        if hi <= 0 {
            assert((-hi) * (2 * d) <= 2 * m + d) by (nonlinear_arith)
                requires -m <= hi * d, d > 0, hi <= 0;
            lemma_fundamental_div_mod_converse((-hi) * (2 * d), 2 * d, -hi, 0);
            lemma_div_is_ordered((-hi) * (2 * d), 2 * m + d, 2 * d);
        } else {
            lemma_div_pos_is_pos(2 * m + d, 2 * d);
        }
    }
}

/// Rounded division is monotone in the numerator.
pub proof fn lemma_div_round_mono(n1: int, n2: int, d: int)
    requires
        d > 0,
        n1 <= n2,
    ensures
        div_round(n1, d) <= div_round(n2, d),
{
    if n1 >= 0 {
        lemma_div_is_ordered(2 * n1 + d, 2 * n2 + d, 2 * d);
    } else if n2 >= 0 {
        lemma_div_pos_is_pos(2 * n2 + d, 2 * d);
        lemma_div_pos_is_pos(2 * (-n1) + d, 2 * d);
    } else {
        lemma_div_is_ordered(2 * (-n2) + d, 2 * (-n1) + d, 2 * d);
    }
}

/// Executable rounded division, ties away from zero.
pub fn div_round_i64(n: i64, d: i64) -> (r: i64)
    requires
        0 < d <= 0x1000_0000_0000,
        -0x1000_0000_0000 <= n <= 0x1000_0000_0000,
    ensures
        r == div_round(n as int, d as int),
        n >= 0 ==> 0 <= r <= n,
{
    proof {
        if n >= 0 {
            assert(n <= (n as int) * d) by (nonlinear_arith)
                requires n >= 0, d >= 1;
            lemma_div_round_bounds(n as int, d as int, 0, n as int);
        }
    }
    if n >= 0 {
        (2 * n + d) / (2 * d)
    } else {
        -((2 * -n + d) / (2 * d))
    }
}

} // verus!
