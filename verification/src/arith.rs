//! Exact integer square roots and scaled quotients.

use vstd::prelude::*;

verus! {

/// `r` is the integer square root of `x`, rounded down.
pub open spec fn is_floor_sqrt(r: int, x: int) -> bool {
    0 <= r && r * r <= x < (r + 1) * (r + 1)
}

/// Squaring keeps the order of non-negative integers.
pub proof fn lemma_square_monotonic(a: int, b: int)
    by (nonlinear_arith)
    requires
        0 <= a <= b,
    ensures
        a * a <= b * b,
{
}

/// The integer square root of `x`, rounded down.
pub fn floor_sqrt(x: u64) -> (r: u32)
    ensures
        is_floor_sqrt(r as int, x as int),
{
    let mut low: u64 = 0;
    let mut high: u64 = 0x1_0000_0000;
    while high - low > 1
        invariant
            low < high <= 0x1_0000_0000,
            low * low <= x < high * high,
        decreases high - low,
    {
        let middle: u64 = low + (high - low) / 2;
        assert(middle * middle < 0x1_0000_0000_0000_0000) by (nonlinear_arith)
            requires
                middle < 0x1_0000_0000,
        ;
        if middle as u128 * middle as u128 <= x as u128 {
            low = middle;
        } else {
            high = middle;
        }
    }
    low as u32
}

/// `2^bits`.
pub open spec fn power_of_two(bits: nat) -> nat
    decreases bits,
{
    if bits == 0 {
        1
    } else {
        2 * power_of_two((bits - 1) as nat)
    }
}

/// `q` is `part * 2^bits / whole`, rounded down.
pub open spec fn is_scaled_quotient(q: int, part: int, whole: int, bits: nat) -> bool {
    0 <= q && q * whole <= part * power_of_two(bits) < (q + 1) * whole
}

/// The fraction `part / whole`, which is below one, as a count of
/// `2^-60`-ths rounded down.
pub fn scaled_quotient(part: u128, whole: u128) -> (q: u64)
    requires
        part < whole,
    ensures
        is_scaled_quotient(q as int, part as int, whole as int, 60),
        q < 0x1000_0000_0000_0000,
{
    let mut quotient: u64 = 0;
    let mut rest: u128 = part;
    let mut step: u32 = 0;
    proof {
        assert(0 * whole == 0) by (nonlinear_arith);
        assert(part * 1 == part) by (nonlinear_arith);
    }
    while step < 60
        invariant
            step <= 60,
            rest < whole,
            quotient < power_of_two(step as nat) <= 0x1000_0000_0000_0000,
            part * power_of_two(step as nat) == quotient * whole + rest,
        decreases 60 - step,
    {
        let ghost scale = power_of_two(step as nat);
        proof {
            assert(power_of_two((step + 1) as nat) == 2 * scale);
            lemma_power_of_two_bound((step + 1) as nat);
            assert(part * (2 * scale) == 2 * (part * scale)) by (nonlinear_arith);
            assert((2 * quotient) * whole == 2 * (quotient * whole)) by (nonlinear_arith);
            assert((2 * quotient + 1) * whole == 2 * (quotient * whole) + whole)
                by (nonlinear_arith);
        }
        if rest >= whole - rest {
            rest = rest - (whole - rest);
            quotient = 2 * quotient + 1;
        } else {
            rest = rest + rest;
            quotient = 2 * quotient;
        }
        step = step + 1;
    }
    proof {
        lemma_power_of_two_60();
        assert((quotient + 1) * whole == quotient * whole + whole) by (nonlinear_arith);
    }
    quotient
}

/// `2^bits` grows with `bits`, up to `2^60`.
pub proof fn lemma_power_of_two_bound(bits: nat)
    requires
        bits <= 60,
    ensures
        power_of_two(bits) <= 0x1000_0000_0000_0000,
    decreases 60 - bits,
{
    if bits < 60 {
        lemma_power_of_two_bound(bits + 1);
    } else {
        lemma_power_of_two_60();
    }
}

/// `2^60` written out.
pub proof fn lemma_power_of_two_60()
    ensures
        power_of_two(60) == 0x1000_0000_0000_0000,
{
    reveal_with_fuel(power_of_two, 61);
}

} // verus!
