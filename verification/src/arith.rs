//! Saturating 64-bit arithmetic used by the expression evaluator.
//!
//! The evaluator clamps every intermediate result to the `i64` range instead
//! of wrapping or panicking, and divides with truncation toward zero.
use vstd::prelude::*;

verus! {

/// Clamp a mathematical integer into the `i64` range.
pub open spec fn sat64(x: int) -> int {
    if x > i64::MAX {
        i64::MAX as int
    } else if x < i64::MIN {
        i64::MIN as int
    } else {
        x
    }
}

/// Integer division truncating toward zero (the `/` of Rust's `i64`),
/// defined for a non-zero divisor; yields 0 for a zero divisor so that it
/// is total.
pub open spec fn trunc_div(x: int, d: int) -> int {
    if d == 0 {
        0
    } else if x >= 0 && d > 0 {
        x / d
    } else if x < 0 && d < 0 {
        (-x) / (-d)
    } else if x < 0 {
        -((-x) / d)
    } else {
        -(x / (-d))
    }
}

/// Saturating addition.
pub fn sat_add_i64(a: i64, b: i64) -> (r: i64)
    ensures
        r as int == sat64(a + b),
{
    match a.checked_add(b) {
        Some(v) => v,
        None => {
            if b >= 0 {
                i64::MAX
            } else {
                i64::MIN
            }
        },
    }
}

/// Saturating subtraction.
pub fn sat_sub_i64(a: i64, b: i64) -> (r: i64)
    ensures
        r as int == sat64(a - b),
{
    match a.checked_sub(b) {
        Some(v) => v,
        None => {
            if b >= 0 {
                i64::MIN
            } else {
                i64::MAX
            }
        },
    }
}

/// Saturating multiplication.
pub fn sat_mul_i64(a: i64, b: i64) -> (r: i64)
    ensures
        r as int == sat64(a * b),
{
    match a.checked_mul(b) {
        Some(v) => v,
        None => {
            if (a > 0) == (b > 0) {
                proof {
                    assert(a * b >= 0) by (nonlinear_arith)
                        requires
                            (a > 0) == (b > 0),
                    ;
                }
                i64::MAX
            } else {
                proof {
                    assert(a * b <= 0) by (nonlinear_arith)
                        requires
                            (a > 0) != (b > 0),
                    ;
                }
                i64::MIN
            }
        },
    }
}

/// Saturating division, truncating toward zero.  The only saturating case
/// is `i64::MIN / -1`, whose true quotient exceeds `i64::MAX`.
pub fn sat_div_i64(a: i64, b: i64) -> (r: i64)
    requires
        b != 0,
    ensures
        r as int == sat64(trunc_div(a as int, b as int)),
{
    proof {
        lemma_trunc_div_bounds(a as int, b as int);
    }
    match a.checked_div(b) {
        Some(v) => v,
        None => i64::MAX,
    }
}

/// The quotient's magnitude never exceeds the dividend's.
proof fn lemma_trunc_div_bounds(x: int, d: int)
    requires
        d != 0,
        i64::MIN <= x <= i64::MAX,
    ensures
        -(i64::MIN as int) >= trunc_div(x, d) >= i64::MIN,
{
    if x >= 0 && d > 0 {
        lemma_div_pos_bounds(x, d);
    } else if x < 0 && d < 0 {
        lemma_div_pos_bounds(-x, -d);
    } else if x < 0 {
        lemma_div_pos_bounds(-x, d);
    } else {
        lemma_div_pos_bounds(x, -d);
    }
}

/// For non-negative `x` and positive `d`: `0 <= x / d <= x`.
proof fn lemma_div_pos_bounds(x: int, d: int)
    requires
        x >= 0,
        d >= 1,
    ensures
        0 <= x / d <= x,
{
    vstd::arithmetic::div_mod::lemma_div_pos_is_pos(x, d);
    vstd::arithmetic::div_mod::lemma_div_nonincreasing(x, d);
}

} // verus!
