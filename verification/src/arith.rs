//! Saturating coordinate arithmetic and truncating division.
//!
//! Coordinates are `i64` values.  Sums saturate at the ends of the range so
//! that every layout computation is total; `clip` is the specification of
//! that saturation.  Division is the Rust truncating division, specified by
//! `tdiv`, and only ever used with a positive divisor.

use vstd::prelude::*;

verus! {

/// Clamp a mathematical integer into the `i64` range.
pub open spec fn clip(v: int) -> int {
    if v > i64::MAX as int {
        i64::MAX as int
    } else if v < i64::MIN as int {
        i64::MIN as int
    } else {
        v
    }
}

/// `clip`, typed as a coordinate.
pub open spec fn clip64(v: int) -> i64 {
    clip(v) as i64
}

/// Truncating (round-toward-zero) division for a positive divisor,
/// matching Rust's `/` on signed integers.
pub open spec fn tdiv(a: int, b: int) -> int
    recommends
        b > 0,
{
    if a >= 0 {
        a / b
    } else {
        -((-a) / b)
    }
}

/// Saturating addition of two coordinates.
pub fn sat_add(a: i64, b: i64) -> (r: i64)
    ensures
        r as int == clip(a + b),
        r == clip64(a + b),
{
    let s: i128 = a as i128 + b as i128;
    if s > i64::MAX as i128 {
        i64::MAX
    } else if s < i64::MIN as i128 {
        i64::MIN
    } else {
        s as i64
    }
}

/// Saturating subtraction of two coordinates.
pub fn sat_sub(a: i64, b: i64) -> (r: i64)
    ensures
        r as int == clip(a - b),
        r == clip64(a - b),
{
    let s: i128 = a as i128 - b as i128;
    if s > i64::MAX as i128 {
        i64::MAX
    } else if s < i64::MIN as i128 {
        i64::MIN
    } else {
        s as i64
    }
}

/// Saturating three-way sum, clamped once.
pub fn sat_add3(a: i64, b: i64, c: i64) -> (r: i64)
    ensures
        r as int == clip(a + b + c),
        r == clip64(a + b + c),
{
    let s: i128 = a as i128 + b as i128 + c as i128;
    if s > i64::MAX as i128 {
        i64::MAX
    } else if s < i64::MIN as i128 {
        i64::MIN
    } else {
        s as i64
    }
}

/// Saturating `a + b - c`, clamped once.
pub fn sat_addsub(a: i64, b: i64, c: i64) -> (r: i64)
    ensures
        r as int == clip(a + b - c),
        r == clip64(a + b - c),
{
    let s: i128 = a as i128 + b as i128 - c as i128;
    if s > i64::MAX as i128 {
        i64::MAX
    } else if s < i64::MIN as i128 {
        i64::MIN
    } else {
        s as i64
    }
}

/// Saturating `a - b - c`, clamped once.
pub fn sat_sub3(a: i64, b: i64, c: i64) -> (r: i64)
    ensures
        r as int == clip(a - b - c),
        r == clip64(a - b - c),
{
    let s: i128 = a as i128 - b as i128 - c as i128;
    if s > i64::MAX as i128 {
        i64::MAX
    } else if s < i64::MIN as i128 {
        i64::MIN
    } else {
        s as i64
    }
}

/// Saturating negation.
pub fn sat_neg(a: i64) -> (r: i64)
    ensures
        r as int == clip(-a),
        r == clip64(-a),
{
    if a == i64::MIN {
        i64::MAX
    } else {
        -a
    }
}

/// Truncating division by a positive divisor.
pub fn div_trunc(a: i64, b: i64) -> (r: i64)
    requires
        b > 0,
    ensures
        r as int == tdiv(a as int, b as int),
{
    a / b
}

/// Saturating `a + b + c - e`, clamped once.
pub fn sat_add3_sub(a: i64, b: i64, c: i64, e: i64) -> (r: i64)
    ensures
        r as int == clip(a + b + c - e),
        r == clip64(a + b + c - e),
{
    let s: i128 = a as i128 + b as i128 + c as i128 - e as i128;
    if s > i64::MAX as i128 {
        i64::MAX
    } else if s < i64::MIN as i128 {
        i64::MIN
    } else {
        s as i64
    }
}

/// Quotient and remainder of a nonnegative coordinate by a positive
/// count, so that `d == q * b + r` exactly.
pub fn div_rem_us(a: i64, b: usize) -> (qr: (i64, i64))
    requires
        a >= 0,
        b > 0,
    ensures
        qr.0 as int == tdiv(a as int, b as int),
        qr.1 as int == a as int - tdiv(a as int, b as int) * (b as int),
        qr.1 >= 0,
{
    let m = a as u64;
    let b64 = b as u64;
    let q = m / b64;
    let rm = m % b64;
    proof {
        vstd::arithmetic::div_mod::lemma_fundamental_div_mod(m as int, b64 as int);
        vstd::arithmetic::div_mod::lemma_mod_bound(m as int, b64 as int);
        vstd::arithmetic::div_mod::lemma_div_is_ordered_by_denominator(m as int, 1, b64 as int);
        vstd::arithmetic::div_mod::lemma_div_basics(b64 as int);
        vstd::arithmetic::div_mod::lemma_div_pos_is_pos(m as int, b64 as int);
        assert((b64 as int) * ((m as int) / (b64 as int)) >= 0) by (nonlinear_arith)
            requires
                b64 as int >= 1,
                (m as int) / (b64 as int) >= 0,
        ;
        assert((m as int) / 1 == m as int);
        assert(b64 as int == b as int);
        assert(m as int == a as int);
        assert(q as int == (m as int) / (b64 as int));
        assert(q as int == tdiv(a as int, b as int));
        assert(m as int == (b64 as int) * ((m as int) / (b64 as int)) + (m as int) % (
        b64 as int));
        assert(rm as int == m as int - (b64 as int) * (q as int));
        assert((b64 as int) * (q as int) == (q as int) * (b64 as int)) by (nonlinear_arith);
        assert(rm as int == a as int - tdiv(a as int, b as int) * (b as int));
        assert(rm as int <= m as int);
    }
    (q as i64, rm as i64)
}

/// The smaller of two coordinates.
pub fn min(a: i64, b: i64) -> (r: i64)
    ensures
        r == if a < b { a } else { b },
{
    if a < b {
        a
    } else {
        b
    }
}

/// The larger of two coordinates.
pub fn max(a: i64, b: i64) -> (r: i64)
    ensures
        r == if a > b { a } else { b },
{
    if a > b {
        a
    } else {
        b
    }
}

} // verus!
