//! Fixed-point probability arithmetic.
//!
//! Every probability mass in this crate is a `u64` in fixed-point form:
//! the value `PROB_ONE` stands for a mass of one.  Masses produced by the
//! propagation primitives are kept at or below `PROB_CAP`, a generous
//! ceiling that leaves plenty of headroom above one full unit of mass
//! (undefined-bucket masses are accumulated additively and may exceed one).
//! All operations here are total: additions and products that would pass
//! the ceiling are clamped to it, and the specifications state that
//! clamping exactly.

use vstd::prelude::*;

verus! {

/// One full unit of probability mass (the fixed-point scale).
pub const PROB_ONE: u64 = 65536;

/// Ceiling on every stored probability mass.
pub const PROB_CAP: u64 = 0x1_0000_0000_0000;

/// Half a unit of probability mass.
pub const PROB_HALF: u64 = 32768;

/// Clamps a mathematical mass to the ceiling `PROB_CAP`.
pub open spec fn capped(v: int) -> int {
    if v > PROB_CAP { PROB_CAP as int } else { v }
}

/// The fixed-point product of two masses: `a * b` rescaled by `PROB_ONE`
/// (rounding down), clamped to `PROB_CAP`.
pub open spec fn pmul_spec(a: int, b: int) -> int {
    capped((a * b) / (PROB_ONE as int))
}

/// Clamps a value to `u64::MAX`; the saturation point of the score-side
/// accumulators.
pub open spec fn sat64(v: int) -> int {
    if v > u64::MAX { u64::MAX as int } else { v }
}

/// The bounded transform `x / (1 + x)` in fixed point: maps `[0, inf)`
/// into `[0, PROB_ONE)`.
pub open spec fn i21_spec(x: int) -> int {
    (x * (PROB_ONE as int)) / ((PROB_ONE as int) + x)
}

/// The fixed-point product of two non-negative masses is a mass again.
pub proof fn lemma_pmul_spec_bounds(a: int, b: int)
    requires
        0 <= a,
        0 <= b,
    ensures
        0 <= pmul_spec(a, b) <= PROB_CAP,
{
    vstd::arithmetic::mul::lemma_mul_nonnegative(a, b);
    vstd::arithmetic::div_mod::lemma_div_pos_is_pos(a * b, PROB_ONE as int);
}

/// Clamping commutes with adding one more bounded term: accumulating with
/// clamped additions computes the clamped total.
pub proof fn lemma_capped_add(v: int, t: int)
    requires
        0 <= v,
        0 <= t <= PROB_CAP,
    ensures
        capped(capped(v) + t) == capped(v + t),
{
}

/// Saturating accumulation computes the saturated total: folding one more
/// saturated term into a saturated accumulator.
pub proof fn lemma_sat_fold(acc: int, c: int)
    requires
        acc >= 0,
        c >= 0,
    ensures
        sat64(sat64(acc) + sat64(c)) == sat64(acc + c),
{
}

/// Saturating one factor before a saturating product changes nothing.
pub proof fn lemma_sat_mul_clamp(a: int, b: int)
    requires
        0 <= a,
        0 <= b,
    ensures
        sat64(a * sat64(b)) == sat64(a * b),
{
    if b > u64::MAX {
        if a == 0 {
            assert(a * sat64(b) == 0) by (nonlinear_arith)
                requires a == 0;
            assert(a * b == 0) by (nonlinear_arith)
                requires a == 0;
        } else {
            assert(a * sat64(b) >= sat64(b)) by (nonlinear_arith)
                requires a >= 1, sat64(b) >= 0;
            assert(a * b >= b) by (nonlinear_arith)
                requires a >= 1, b >= 0;
        }
    }
}

/// Adds two masses, clamping the sum to `PROB_CAP`.
pub fn padd(a: u64, b: u64) -> (r: u64)
    requires
        a <= PROB_CAP,
        b <= PROB_CAP,
    ensures
        r == capped(a + b),
        r <= PROB_CAP,
{
    let s = a + b;
    if s > PROB_CAP {
        PROB_CAP
    } else {
        s
    }
}

/// Multiplies two masses in fixed point, clamping to `PROB_CAP`.
pub fn pmul(a: u64, b: u64) -> (r: u64)
    requires
        a <= PROB_CAP,
        b <= PROB_CAP,
    ensures
        r == pmul_spec(a as int, b as int),
        r <= PROB_CAP,
{
    proof {
        vstd::arithmetic::mul::lemma_mul_upper_bound(
            a as int,
            PROB_CAP as int,
            b as int,
            PROB_CAP as int,
        );
    }
    let p = (a as u128) * (b as u128) / (PROB_ONE as u128);
    if p > PROB_CAP as u128 {
        PROB_CAP
    } else {
        p as u64
    }
}

/// Adds two score-side quantities, saturating at `u64::MAX`.
pub fn sat_add(a: u64, b: u64) -> (r: u64)
    ensures
        r == sat64(a + b),
{
    if a > u64::MAX - b {
        u64::MAX
    } else {
        a + b
    }
}

/// Multiplies two score-side quantities, saturating at `u64::MAX`.
pub fn sat_mul(a: u64, b: u64) -> (r: u64)
    ensures
        r == sat64(a * b),
{
    proof {
        vstd::arithmetic::mul::lemma_mul_upper_bound(
            a as int,
            u64::MAX as int,
            b as int,
            u64::MAX as int,
        );
    }
    let p = (a as u128) * (b as u128);
    if p > u64::MAX as u128 {
        u64::MAX
    } else {
        p as u64
    }
}

/// The bounded transform `x / (1 + x)` in fixed point.  The result is
/// always strictly below one full unit of mass.
pub fn infinite_to_1(x: u64) -> (r: u64)
    ensures
        r == i21_spec(x as int),
        r < PROB_ONE,
{
    let one = PROB_ONE as u128;
    let q = (x as u128) * one / (one + x as u128);
    proof {
        let xi = x as int;
        let oi = PROB_ONE as int;
        assert(xi * oi < (oi + xi) * oi) by (nonlinear_arith)
            requires
                xi >= 0,
                oi == 65536,
        ;
        vstd::arithmetic::div_mod::lemma_multiply_divide_lt(xi * oi, oi + xi, oi);
    }
    q as u64
}

} // verus!
