//! Fixed-point arithmetic for lengths. A length is a count of units of 1/64
//! pixel, kept within `-bound()..=bound()`: each sum or product is clamped to
//! that range, so no step overflows.

use vstd::prelude::*;

verus! {

/// The largest magnitude of a length, in units of 1/64 pixel (2^40).
pub open spec fn bound() -> int {
    1099511627776
}

/// Whether a length lies within the bound.
pub open spec fn bounded(x: int) -> bool {
    -bound() <= x <= bound()
}

/// A value clamped to the bound.
pub open spec fn clamp(x: int) -> int {
    if x > bound() {
        bound()
    } else if x < -bound() {
        -bound()
    } else {
        x
    }
}

/// The larger of two values.
pub open spec fn max(a: int, b: int) -> int {
    if a >= b {
        a
    } else {
        b
    }
}

/// The smaller of two values.
pub open spec fn min(a: int, b: int) -> int {
    if a <= b {
        a
    } else {
        b
    }
}

/// The clamped sum of two lengths.
pub fn add_len(a: i64, b: i64) -> (r: i64)
    requires
        -4 * bound() <= a <= 4 * bound(),
        -4 * bound() <= b <= 4 * bound(),
    ensures
        r == clamp(a + b),
{
    let s = a + b;
    if s > 1099511627776 {
        1099511627776
    } else if s < -1099511627776 {
        -1099511627776
    } else {
        s
    }
}

/// The clamped difference of two lengths.
pub fn sub_len(a: i64, b: i64) -> (r: i64)
    requires
        -4 * bound() <= a <= 4 * bound(),
        -4 * bound() <= b <= 4 * bound(),
    ensures
        r == clamp(a - b),
{
    let s = a - b;
    if s > 1099511627776 {
        1099511627776
    } else if s < -1099511627776 {
        -1099511627776
    } else {
        s
    }
}

/// The clamped product of a length and a count.
pub fn mul_len(a: i64, k: i64) -> (r: i64)
    requires
        -4 * bound() <= a <= 4 * bound(),
        -4 * bound() <= k <= 4 * bound(),
    ensures
        r == clamp(a * k),
{
    assert(-16 * bound() * bound() <= (a as int) * (k as int) <= 16 * bound() * bound()) by (nonlinear_arith)
        requires
            -4 * bound() <= a <= 4 * bound(),
            -4 * bound() <= k <= 4 * bound(),
    ;
    let p: i128 = (a as i128) * (k as i128);
    if p > 1099511627776 {
        1099511627776
    } else if p < -1099511627776 {
        -1099511627776
    } else {
        p as i64
    }
}

/// The larger of two values.
pub fn max_len(a: i64, b: i64) -> (r: i64)
    ensures
        r == max(a as int, b as int),
{
    if a >= b {
        a
    } else {
        b
    }
}

/// The smaller of two values.
pub fn min_len(a: i64, b: i64) -> (r: i64)
    ensures
        r == min(a as int, b as int),
{
    if a <= b {
        a
    } else {
        b
    }
}

} // verus!
