//! Unit selection: a count is divided by the base of its unit table until it
//! falls below the base or the table ends.

use vstd::prelude::*;
use vstd::arithmetic::power2::{
    lemma2_to64,
    lemma2_to64_rest,
    lemma_pow2_pos,
    lemma_pow2_strictly_increases,
    pow2,
};
use crate::binary64::{
    bit_length,
    double_div,
    double_of_nat,
    lemma_bit_length_at_most,
    lemma_bit_length_bounds,
    lemma_double_of_small_nat,
    lemma_quotient_bounds,
    lemma_round_at_least,
    lemma_round_scaled,
    nearest_even,
    round_to_double,
    Binary64,
    Dyadic,
};

verus! {

/// Number of decimal places used when the caller names none.
pub const DEFAULT_PRECISION: u8 = 2;

/// Largest number of decimal places that is ever rendered.
pub const MAX_PRECISION: u8 = 10;

/// Index of the largest unit in a unit table.
pub const LAST_UNIT: usize = 8;

/// The number of decimal places that a request stands for: the default
/// where none is named, and never more than the maximum.
pub open spec fn spec_clamp_precision(round: Option<u8>) -> nat {
    match round {
        None => 2,
        Some(p) => if p <= 10 {
            p as nat
        } else {
            10
        },
    }
}

/// The number of decimal places to render for a request.
pub fn clamp_precision(round: Option<u8>) -> (places: u8)
    ensures
        places as nat == spec_clamp_precision(round),
        places <= 10,
{
    match round {
        None => DEFAULT_PRECISION,
        Some(p) => if p <= MAX_PRECISION {
            p
        } else {
            MAX_PRECISION
        },
    }
}

/// A request for more than ten decimal places is a request for ten.
pub proof fn lemma_precision_clamped(places: u8)
    requires
        places >= 10,
    ensures
        spec_clamp_precision(Some(places)) == 10,
        spec_clamp_precision(Some(places)) == spec_clamp_precision(Some(10u8)),
{
}

/// Division by `base`, repeated from unit `unit` on while the value is at
/// least `base` and a larger unit is left: the mantissa and the unit reached.
pub open spec fn scale_from(x: Dyadic, base: nat, unit: nat) -> (Dyadic, nat)
    decreases 8 - unit,
{
    if unit < 8 && x.at_least(base) {
        scale_from(double_div(x, base), base, unit + 1)
    } else {
        (x, unit)
    }
}

/// The mantissa and unit index of the count `n` in a table of base `base`.
pub open spec fn scaled(n: nat, base: nat) -> (Dyadic, nat) {
    scale_from(double_of_nat(n), base, 0)
}

/// Scaling ends within the table, and below the base unless at the last unit.
pub proof fn lemma_scale_from_stops(x: Dyadic, base: nat, unit: nat)
    requires
        unit <= 8,
    ensures
        unit <= scale_from(x, base, unit).1 <= 8,
        scale_from(x, base, unit).1 == 8 || scale_from(x, base, unit).0.below(base),
    decreases 8 - unit,
{
    if unit < 8 && x.at_least(base) {
        lemma_scale_from_stops(double_div(x, base), base, unit + 1);
    }
}

/// The mantissa of a scaled count is below the base, unless the unit is the
/// last of the table.
pub proof fn lemma_scaled_below_base(n: nat, base: nat)
    ensures
        scaled(n, base).1 <= 8,
        scaled(n, base).1 < 8 ==> scaled(n, base).0.below(base),
{
    lemma_scale_from_stops(double_of_nat(n), base, 0);
}

/// A count below the base keeps the first unit, and its mantissa is the
/// count itself.
pub proof fn lemma_scaled_small(n: nat, base: nat)
    requires
        n < base <= 0x20_0000_0000_0000,
    ensures
        scaled(n, base).1 == 0,
        scaled(n, base).0 == double_of_nat(n),
        scaled(n, base).0.is_nat(n),
{
    lemma_double_of_small_nat(n);
    let x = double_of_nat(n);
    lemma_pow2_pos(x.scale);
    assert(x.mant < base * pow2(x.scale)) by (nonlinear_arith)
        requires
            x.mant == n * pow2(x.scale),
            n < base,
            pow2(x.scale) > 0,
    ;
}

/// A count from the base up to its square has the second unit, and its
/// mantissa is the double nearest to the count divided by the base: at least
/// one and below the base.
pub proof fn lemma_scaled_second_unit(n: nat, base: nat)
    requires
        2 <= base <= 1024,
        base <= n < base * base,
    ensures
        scaled(n, base).1 == 1,
        scaled(n, base).0 == round_to_double(n, base),
        scaled(n, base).0.at_least(1),
        scaled(n, base).0.below(base),
{
    let exact = double_of_nat(n);
    let unit = pow2(exact.scale);
    assert(n < 1024 * 1024) by (nonlinear_arith)
        requires
            n < base * base,
            base <= 1024,
    ;
    lemma_double_of_small_nat(n);
    lemma_pow2_pos(exact.scale);
    assert(exact.mant >= base * unit) by (nonlinear_arith)
        requires
            exact.mant == n * unit,
            n >= base,
            unit > 0,
    ;
    lemma_round_scaled(n, base, unit);
    assert(double_div(exact, base) == round_to_double(n, base));
    assert(1 * base <= n);
    lemma_round_at_least(n, base, 1);
    lemma_quotient_below_base(n, base);
    reveal_with_fuel(scale_from, 3);
}

/// A count below the square of the base, divided by the base, is below the
/// base as a double too.
proof fn lemma_quotient_below_base(n: nat, base: nat)
    requires
        2 <= base <= 1024,
        base <= n < base * base,
    ensures
        round_to_double(n, base).below(base),
{
    let q = n / base;
    let len = bit_length(q);
    lemma2_to64();
    lemma2_to64_rest();
    lemma_quotient_bounds(n, base);
    assert(q < base) by (nonlinear_arith)
        requires
            base * q <= n,
            n < base * base,
            base > 0,
    ;
    lemma_bit_length_bounds(q);
    lemma_bit_length_at_most(q, 10);
    let down = (53 - len) as nat;
    let unit = pow2(down);
    if down > 43 {
        lemma_pow2_strictly_increases(43, down);
    }
    let whole = (n * unit) / base;
    lemma_quotient_bounds(n * unit, base);
    assert(whole + 1 < base * unit) by (nonlinear_arith)
        requires
            base * whole <= n * unit,
            n + 1 <= base * base,
            unit > base,
            base >= 2,
    ;
    assert(nearest_even(n * unit, base) <= whole + 1);
}

/// The mantissa and the unit index of `n` in a unit table of base `base`.
pub fn scale(n: u64, base: u16) -> (r: (Binary64, usize))
    requires
        2 <= base <= 2048,
    ensures
        (r.0@, r.1 as nat) == scaled(n as nat, base as nat),
        r.0.in_range(),
        r.1 <= 8,
        r.1 < 8 ==> r.0@.below(base as nat),
        n < base ==> r.1 == 0 && r.0@.is_nat(n as nat),
{
    let mut x: Binary64 = Binary64::from_u64(n);
    let mut unit: usize = 0;
    while unit < LAST_UNIT && x.at_least(base)
        invariant
            2 <= base <= 2048,
            unit <= 8,
            x.in_range(),
            x.scale <= 52,
            scale_from(x@, base as nat, unit as nat) == scaled(n as nat, base as nat),
        decreases 8 - unit,
    {
        proof {
            lemma_pow2_pos(x.scale as nat);
            assert(x.mant > 0) by (nonlinear_arith)
                requires
                    x.mant >= base * pow2(x.scale as nat),
                    base >= 2,
                    pow2(x.scale as nat) > 0,
            ;
        }
        x = x.div(base);
        unit = unit + 1;
    }
    proof {
        lemma_scaled_below_base(n as nat, base as nat);
        if n < base {
            lemma_scaled_small(n as nat, base as nat);
        }
    }
    (x, unit)
}

} // verus!
