//! Double-precision values without floating point.
//!
//! A finite non-negative double is an integer over a power of two. This module
//! holds such values as a pair of integers and gives the arithmetic that the
//! formatters need, each operation rounded as binary64 rounds it: to the
//! nearest value with 53 significant bits, ties to the even one.

use vstd::prelude::*;
use crate::decimal::{fixed_point, pow10, pow10_exec, push_fixed_point, rendered_whole};
use vstd::arithmetic::div_mod::{
    lemma_div_is_ordered,
    lemma_div_multiples_vanish,
    lemma_fundamental_div_mod,
    lemma_fundamental_div_mod_converse,
    lemma_mod_multiples_basic,
    lemma_mod_pos_bound,
    lemma_multiply_divide_lt,
};
use vstd::arithmetic::power2::{
    lemma2_to64,
    lemma2_to64_rest,
    lemma_pow2_adds,
    lemma_pow2_pos,
    lemma_pow2_strictly_increases,
    lemma_pow2_unfold,
    pow2,
};

verus! {

/// The number of binary digits of `n`: zero for zero, else the `k` with
/// `2^(k-1) <= n < 2^k`.
pub open spec fn bit_length(n: nat) -> nat
    decreases n,
{
    if n == 0 {
        0
    } else {
        1 + bit_length(n / 2)
    }
}

/// Rounds `quot + rem / den` to the nearest integer, a tie to the even one.
pub open spec fn round_half_even(quot: nat, rem: nat, den: nat) -> nat {
    if 2 * rem < den || (2 * rem == den && quot % 2 == 0) {
        quot
    } else {
        quot + 1
    }
}

/// The integer nearest to `num / den`, a tie to the even one.
pub open spec fn nearest_even(num: nat, den: nat) -> nat {
    round_half_even(num / den, num % den, den)
}

/// The value `mant / 2^scale`.
pub struct Dyadic {
    pub mant: nat,
    pub scale: nat,
}

impl Dyadic {
    /// `self >= n`.
    pub open spec fn at_least(self, n: nat) -> bool {
        self.mant >= n * pow2(self.scale)
    }

    /// `self < n`.
    pub open spec fn below(self, n: nat) -> bool {
        self.mant < n * pow2(self.scale)
    }

    /// `self == n`.
    pub open spec fn is_nat(self, n: nat) -> bool {
        self.mant == n * pow2(self.scale)
    }
}

/// The double nearest to `num / den`, for `num > 0` and `den > 0`: the
/// quotient is scaled by the power of two that brings it into
/// `[2^52, 2^53)`, rounded there to the nearest integer (a tie to the even
/// one), and scaled back.
pub open spec fn round_to_double(num: nat, den: nat) -> Dyadic {
    if num >= den {
        let len = bit_length(num / den);
        if len >= 53 {
            let up = (len - 53) as nat;
            Dyadic { mant: nearest_even(num, den * pow2(up)) * pow2(up), scale: 0 }
        } else {
            let down = (53 - len) as nat;
            Dyadic { mant: nearest_even(num * pow2(down), den), scale: down }
        }
    } else {
        let down = 52 + bit_length(((den - 1) / (num as int)) as nat);
        Dyadic { mant: nearest_even(num * pow2(down), den), scale: down }
    }
}

/// The double that an unsigned integer converts to.
pub open spec fn double_of_nat(n: nat) -> Dyadic {
    if n == 0 {
        Dyadic { mant: 0, scale: 0 }
    } else {
        round_to_double(n, 1)
    }
}

/// The double that dividing the double `x` by the integer `d` gives.
pub open spec fn double_div(x: Dyadic, d: nat) -> Dyadic {
    round_to_double(x.mant, d * pow2(x.scale))
}

/// The whole part of the double `x`.
pub open spec fn whole_part(x: Dyadic) -> nat {
    x.mant / pow2(x.scale)
}

/// The double that adding the integer `whole` and the double `frac` gives.
pub open spec fn double_sum(whole: nat, frac: Dyadic) -> Dyadic {
    round_to_double(whole * pow2(frac.scale) + frac.mant, pow2(frac.scale))
}

/// The double that a span of `secs` whole seconds and `nanos` nanoseconds
/// beyond them comes to in seconds: the seconds as a double, plus the
/// nanoseconds as a double divided by a thousand million, each step rounded.
pub open spec fn seconds_as_double(secs: nat, nanos: nat) -> Dyadic {
    if nanos == 0 {
        double_of_nat(secs)
    } else if secs == 0 {
        round_to_double(nanos, 1_000_000_000)
    } else {
        double_sum(whole_part(double_of_nat(secs)), round_to_double(nanos, 1_000_000_000))
    }
}

/// The double `x` in base ten with `places` digits after the point: the
/// decimal number with that many places that is nearest to `x`, a tie to the
/// one whose last digit is even.
pub open spec fn rendered(x: Dyadic, places: nat) -> Seq<char> {
    fixed_point(nearest_even(x.mant * pow10(places), pow2(x.scale)), places)
}

/// `n` lies between the two powers of two that its bit length names.
pub proof fn lemma_bit_length_bounds(n: nat)
    ensures
        n < pow2(bit_length(n)),
        n > 0 ==> bit_length(n) >= 1 && pow2((bit_length(n) - 1) as nat) <= n,
    decreases n,
{
    lemma2_to64();
    if n > 0 {
        lemma_bit_length_bounds(n / 2);
        lemma_pow2_unfold(bit_length(n));
        if n / 2 > 0 {
            lemma_pow2_unfold((bit_length(n) - 1) as nat);
        }
    }
}

/// A number below `2^k` has at most `k` binary digits.
pub proof fn lemma_bit_length_at_most(n: nat, k: nat)
    requires
        n < pow2(k),
    ensures
        bit_length(n) <= k,
{
    lemma_bit_length_bounds(n);
    if n > 0 && bit_length(n) > k {
        if bit_length(n) - 1 > k {
            lemma_pow2_strictly_increases(k, (bit_length(n) - 1) as nat);
        }
    }
}

/// The powers of two from 64 up that the arithmetic here is bounded by.
pub proof fn lemma_pow2_large()
    ensures
        pow2(52) == 0x10000000000000,
        pow2(53) == 0x20000000000000,
        pow2(64) == 0x10000000000000000,
        pow2(117) == 0x200000000000000000000000000000,
        pow2(127) == 0x80000000000000000000000000000000,
{
    lemma2_to64();
    lemma2_to64_rest();
    lemma_pow2_adds(64, 53);
    lemma_pow2_adds(64, 63);
}

/// Two to the power `e`.
pub fn pow2_exec(e: u32) -> (r: u128)
    requires
        e <= 127,
    ensures
        r == pow2(e as nat),
        r >= 1,
{
    let mut r: u128 = 1;
    let mut i: u32 = 0;
    proof {
        lemma2_to64();
    }
    while i < e
        invariant
            i <= e <= 127,
            r == pow2(i as nat),
        decreases e - i,
    {
        proof {
            lemma_pow2_unfold((i + 1) as nat);
            lemma_pow2_large();
            if i + 1 < 127 {
                lemma_pow2_strictly_increases((i + 1) as nat, 127);
            }
        }
        r = r * 2;
        i = i + 1;
    }
    proof {
        lemma_pow2_pos(e as nat);
    }
    r
}

/// The number of binary digits of `n`.
pub fn bit_length_exec(n: u128) -> (len: u32)
    ensures
        len == bit_length(n as nat),
        len <= 128,
{
    let mut rest: u128 = n;
    let mut len: u32 = 0;
    proof {
        lemma_pow2_large();
        lemma_pow2_unfold(128);
        lemma_bit_length_at_most(n as nat, 128);
    }
    while rest > 0
        invariant
            len + bit_length(rest as nat) == bit_length(n as nat),
            bit_length(n as nat) <= 128,
        decreases rest,
    {
        rest = rest / 2;
        len = len + 1;
    }
    len
}

/// Rounds `quot + rem / den` to the nearest integer, a tie to the even one.
pub fn round_half_even_exec(quot: u128, rem: u128, den: u128) -> (r: u128)
    requires
        rem < den,
        quot < u128::MAX,
    ensures
        r == round_half_even(quot as nat, rem as nat, den as nat),
{
    let rest: u128 = den - rem;
    if rem < rest || (rem == rest && quot % 2 == 0) {
        quot
    } else {
        quot + 1
    }
}

/// The integer nearest to `num / den`, a tie to the even one.
pub fn nearest_even_exec(num: u128, den: u128) -> (r: u128)
    requires
        den > 0,
        num / den < u128::MAX,
    ensures
        r == nearest_even(num as nat, den as nat),
{
    round_half_even_exec(num / den, num % den, den)
}

/// A quotient times its divisor is at most the dividend, and less than one
/// divisor below it.
pub proof fn lemma_quotient_bounds(x: nat, d: nat)
    requires
        d > 0,
    ensures
        d * (x / d) <= x,
        x < d * (x / d) + d,
        x == d * (x / d) + x % d,
        x % d < d,
{
    lemma_fundamental_div_mod(x as int, d as int);
    lemma_mod_pos_bound(x as int, d as int);
}

/// A quotient is at least any factor that, times the divisor, stays within
/// the dividend.
pub proof fn lemma_quotient_at_least(x: nat, d: nat, c: nat)
    requires
        d > 0,
        d * c <= x,
    ensures
        c <= x / d,
{
    lemma_div_is_ordered((d * c) as int, x as int, d as int);
    lemma_div_multiples_vanish(c as int, d as int);
}

/// Rounding to a double never falls below an integer that the quotient
/// reaches, as far as integers are doubles themselves.
pub proof fn lemma_round_at_least(num: nat, den: nat, k: nat)
    requires
        den > 0,
        1 <= k <= 0x10_0000_0000_0000,
        k * den <= num,
    ensures
        round_to_double(num, den).at_least(k),
{
    let q = num / den;
    let len = bit_length(q);
    lemma_pow2_large();
    lemma2_to64();
    lemma_quotient_bounds(num, den);
    lemma_bit_length_bounds(q);
    assert(num >= den && den * k <= num) by (nonlinear_arith)
        requires
            k * den <= num,
            k >= 1,
            den > 0,
    ;
    lemma_quotient_at_least(num, den, k);
    if len >= 53 {
        let up = (len - 53) as nat;
        let unit = pow2(up);
        let step = den * unit;
        lemma_pow2_adds(52, up);
        lemma_pow2_pos(up);
        assert(step * 0x10_0000_0000_0000 <= num && step > 0) by (nonlinear_arith)
            requires
                0x10_0000_0000_0000 * unit <= q,
                den * q <= num,
                step == den * unit,
                den > 0,
                unit > 0,
        ;
        lemma_quotient_at_least(num, step, 0x10_0000_0000_0000);
        let m = nearest_even(num, step);
        assert(m * unit >= k * 1) by (nonlinear_arith)
            requires
                m >= 0x10_0000_0000_0000,
                unit >= 1,
                k <= 0x10_0000_0000_0000,
        ;
    } else {
        let down = (53 - len) as nat;
        let unit = pow2(down);
        lemma_pow2_pos(down);
        assert(den * (k * unit) <= num * unit) by (nonlinear_arith)
            requires
                k * den <= num,
                unit > 0,
        ;
        lemma_quotient_at_least(num * unit, den, k * unit);
    }
}

/// The nearest integer is within a half of the quotient, and it is even where
/// the quotient lies half-way between two integers.
pub proof fn lemma_nearest_even_is_nearest(num: nat, den: nat)
    requires
        den > 0,
    ensures
        2 * (nearest_even(num, den) * den) <= 2 * num + den,
        2 * num <= 2 * (nearest_even(num, den) * den) + den,
        2 * (num % den) == den ==> nearest_even(num, den) % 2 == 0,
        num / den <= nearest_even(num, den) <= num / den + 1,
{
    let q = num / den;
    let r = num % den;
    let m = nearest_even(num, den);
    lemma_quotient_bounds(num, den);
    if m == q {
        assert(m * den == num - r) by (nonlinear_arith)
            requires
                num == den * q + r,
                m == q,
        ;
    } else {
        assert(m * den == num - r + den) by (nonlinear_arith)
            requires
                num == den * q + r,
                m == q + 1,
        ;
    }
}

/// A double has 53 significant bits and is as near to the quotient as such a
/// value can be: the quotient and the double differ by at most half of what
/// the last of the 53 bits is worth. Here for quotients of at least one, where
/// that bit is worth `2^(len - 53)` for a quotient with `len` bits before the
/// point.
pub proof fn lemma_round_is_nearest(num: nat, den: nat)
    requires
        0 < den <= num,
    ensures
        ({
            let r = round_to_double(num, den);
            let len = bit_length(num / den);
            let last = if len >= 53 {
                pow2((len - 53) as nat)
            } else {
                1
            };
            &&& r.scale == 0 || last == 1
            &&& r.scale + len == 53 || r.scale == 0
            &&& r.mant % last == 0
            &&& pow2(52) * last <= r.mant <= pow2(53) * last
            &&& 2 * (r.mant * den) <= 2 * (num * pow2(r.scale)) + den * last
            &&& 2 * (num * pow2(r.scale)) <= 2 * (r.mant * den) + den * last
        }),
{
    let q = num / den;
    let len = bit_length(q);
    lemma_pow2_large();
    lemma2_to64();
    lemma_quotient_bounds(num, den);
    lemma_bit_length_bounds(q);
    assert(q >= 1) by (nonlinear_arith)
        requires
            num >= den,
            den > 0,
            num < den * q + den,
    ;
    if len >= 53 {
        let up = (len - 53) as nat;
        let unit = pow2(up);
        let step = den * unit;
        let m = nearest_even(num, step);
        lemma_pow2_adds(52, up);
        lemma_pow2_adds(53, up);
        lemma_pow2_pos(up);
        assert(step * pow2(52) <= num < step * pow2(53) && step > 0) by (nonlinear_arith)
            requires
                pow2(52) * unit <= q < pow2(53) * unit,
                den * q <= num < den * q + den,
                step == den * unit,
                den > 0,
                unit > 0,
        ;
        lemma_quotient_at_least(num, step, pow2(52));
        lemma_multiply_divide_lt(num as int, step as int, pow2(53) as int);
        lemma_nearest_even_is_nearest(num, step);
        lemma_mod_multiples_basic(m as int, unit as int);
        assert(pow2(52) * unit <= m * unit <= pow2(53) * unit && (m * unit) * den == m * step
            && den * unit == step) by (nonlinear_arith)
            requires
                pow2(52) <= m <= pow2(53),
                unit > 0,
                step == den * unit,
        ;
    } else {
        let down = (53 - len) as nat;
        let unit = pow2(down);
        let m = nearest_even(num * unit, den);
        lemma_pow2_adds((len - 1) as nat, down);
        lemma_pow2_adds(len, down);
        lemma_pow2_unfold(53);
        lemma_pow2_pos(down);
        assert(den * pow2(52) <= num * unit < den * pow2(53)) by (nonlinear_arith)
            requires
                pow2((len - 1) as nat) <= q < pow2(len),
                den * q <= num < den * q + den,
                pow2((len - 1) as nat) * unit == pow2(52),
                pow2(len) * unit == pow2(53),
                den > 0,
                unit > 0,
        ;
        lemma_quotient_at_least(num * unit, den, pow2(52));
        lemma_multiply_divide_lt((num * unit) as int, den as int, pow2(53) as int);
        lemma_nearest_even_is_nearest(num * unit, den);
    }
}

/// The same for quotients below one: the double has 53 significant bits, and
/// differs from the quotient by at most half of what the last of them is
/// worth.
pub proof fn lemma_round_fraction_is_nearest(num: nat, den: nat)
    requires
        0 < num < den,
    ensures
        ({
            let r = round_to_double(num, den);
            &&& r.scale >= 53
            &&& pow2(52) <= r.mant <= pow2(53)
            &&& 2 * (r.mant * den) <= 2 * (num * pow2(r.scale)) + den
            &&& 2 * (num * pow2(r.scale)) <= 2 * (r.mant * den) + den
        }),
{
    let ratio = ((den - 1) / (num as int)) as nat;
    let len = bit_length(ratio);
    let unit = pow2(52 + len);
    lemma_pow2_large();
    lemma_quotient_bounds((den - 1) as nat, num);
    assert(ratio >= 1) by (nonlinear_arith)
        requires
            den - 1 >= num,
            num > 0,
            den - 1 < num * ratio + num,
    ;
    lemma_bit_length_bounds(ratio);
    lemma_pow2_adds((len - 1) as nat, 53);
    lemma_pow2_unfold(len);
    lemma_pow2_unfold(53);
    let low = pow2((len - 1) as nat);
    let half = pow2(52);
    assert(num * (2 * low) >= den && num * low < den) by (nonlinear_arith)
        requires
            low <= ratio < 2 * low,
            num * ratio <= den - 1 < num * ratio + num,
            num > 0,
    ;
    assert(num * unit == (num * (2 * low)) * half && num * unit == (num * low) * (2 * half))
        by (nonlinear_arith)
        requires
            unit == low * (2 * half),
    ;
    assert((num * (2 * low)) * half >= den * half && (num * low) * (2 * half) < den * (2 * half))
        by (nonlinear_arith)
        requires
            num * (2 * low) >= den,
            num * low < den,
            half > 0,
    ;
    lemma_quotient_at_least(num * unit, den, pow2(52));
    lemma_multiply_divide_lt((num * unit) as int, den as int, pow2(53) as int);
    lemma_nearest_even_is_nearest(num * unit, den);
}

/// The nearest integer depends on the quotient alone: a common factor of
/// numerator and denominator changes nothing.
pub proof fn lemma_nearest_even_scaled(num: nat, den: nat, by: nat)
    requires
        den > 0,
        by > 0,
    ensures
        (num * by) / (den * by) == num / den,
        nearest_even(num * by, den * by) == nearest_even(num, den),
{
    let q = num / den;
    let r = num % den;
    lemma_quotient_bounds(num, den);
    assert(num * by == q * (den * by) + r * by && 0 <= r * by < den * by) by (nonlinear_arith)
        requires
            num == den * q + r,
            r < den,
            by > 0,
    ;
    lemma_fundamental_div_mod_converse(
        (num * by) as int,
        (den * by) as int,
        q as int,
        (r * by) as int,
    );
    assert((2 * (r * by) < den * by) == (2 * r < den) && (2 * (r * by) == den * by) == (2 * r
        == den)) by (nonlinear_arith)
        requires
            by > 0,
    ;
}

/// The integer nearest to a whole number is that number.
pub proof fn lemma_nearest_even_exact(n: nat, den: nat)
    requires
        den > 0,
    ensures
        nearest_even(n * den, den) == n,
{
    lemma_nearest_even_scaled(n, 1, den);
    assert(1 * den == den);
    assert(nearest_even(n, 1) == n);
}

/// A double depends on the quotient alone: for a quotient of at least one, a
/// common factor of numerator and denominator changes nothing.
pub proof fn lemma_round_scaled(num: nat, den: nat, by: nat)
    requires
        den > 0,
        by > 0,
        num >= den,
    ensures
        round_to_double(num * by, den * by) == round_to_double(num, den),
{
    lemma_nearest_even_scaled(num, den, by);
    assert(num * by >= den * by) by (nonlinear_arith)
        requires
            num >= den,
            by > 0,
    ;
    let len = bit_length(num / den);
    if len >= 53 {
        let unit = pow2((len - 53) as nat);
        lemma_pow2_pos((len - 53) as nat);
        assert((den * by) * unit == (den * unit) * by && den * unit > 0) by (nonlinear_arith)
            requires
                den > 0,
                unit > 0,
        ;
        lemma_nearest_even_scaled(num, den * unit, by);
    } else {
        let unit = pow2((53 - len) as nat);
        assert((num * by) * unit == (num * unit) * by) by (nonlinear_arith);
        lemma_nearest_even_scaled(num * unit, den, by);
    }
}

/// A double that is a whole number is written as that number, followed by
/// zeros in every decimal place.
pub proof fn lemma_rendered_nat(x: Dyadic, n: nat, places: nat)
    requires
        x.is_nat(n),
    ensures
        rendered(x, places) == rendered_whole(n, places),
{
    lemma_pow2_pos(x.scale);
    assert(x.mant * pow10(places) == (n * pow10(places)) * pow2(x.scale)) by (nonlinear_arith)
        requires
            x.mant == n * pow2(x.scale),
    ;
    lemma_nearest_even_exact(n * pow10(places), pow2(x.scale));
}

/// An integer of at most 53 bits is a double as it stands.
pub proof fn lemma_double_of_small_nat(n: nat)
    requires
        n < 0x20_0000_0000_0000,
    ensures
        double_of_nat(n).is_nat(n),
        double_of_nat(n).scale <= 53,
{
    lemma2_to64();
    lemma_pow2_large();
    if n > 0 {
        let len = bit_length(n);
        lemma_bit_length_bounds(n);
        lemma_bit_length_at_most(n, 53);
        assert(n / 1 == n);
        if len >= 53 {
            assert(nearest_even(n, 1 * pow2(0)) == n);
            assert(n * pow2(0) == n * 1);
        } else {
            let unit = pow2((53 - len) as nat);
            assert((n * unit) / 1 == n * unit);
            assert((n * unit) % 1 == 0);
            assert(nearest_even(n * unit, 1) == n * unit);
        }
    }
}

/// A span of at least `k` whole seconds is at least `k` as a double.
pub proof fn lemma_seconds_at_least(secs: nat, nanos: nat, k: nat)
    requires
        1 <= k <= secs,
        k <= 0x10_0000_0000_0000,
    ensures
        seconds_as_double(secs, nanos).at_least(k),
{
    lemma_round_at_least(secs, 1, k);
    if nanos > 0 {
        let exact = double_of_nat(secs);
        let whole = whole_part(exact);
        let frac = round_to_double(nanos, 1_000_000_000);
        let unit = pow2(frac.scale);
        lemma_pow2_pos(exact.scale);
        lemma_pow2_pos(frac.scale);
        assert(pow2(exact.scale) * k <= exact.mant) by (nonlinear_arith)
            requires
                exact.mant >= k * pow2(exact.scale),
        ;
        lemma_quotient_at_least(exact.mant, pow2(exact.scale), k);
        assert(k * unit <= whole * unit + frac.mant) by (nonlinear_arith)
            requires
                k <= whole,
                unit > 0,
        ;
        lemma_round_at_least(whole * unit + frac.mant, unit, k);
    }
}

/// A double of at least `k * d` is at least `k` after division by `d`.
pub proof fn lemma_div_at_least(x: Dyadic, d: nat, k: nat)
    requires
        d > 0,
        1 <= k <= 0x10_0000_0000_0000,
        x.at_least(k * d),
    ensures
        double_div(x, d).at_least(k),
{
    lemma_pow2_pos(x.scale);
    assert(k * (d * pow2(x.scale)) <= x.mant && d * pow2(x.scale) > 0) by (nonlinear_arith)
        requires
            x.mant >= (k * d) * pow2(x.scale),
            d > 0,
            pow2(x.scale) > 0,
    ;
    lemma_round_at_least(x.mant, d * pow2(x.scale), k);
}

/// A double, held as the integer `mant` over two to the power `scale`.
#[derive(Clone, Copy, Debug)]
pub struct Binary64 {
    pub mant: u128,
    pub scale: u32,
}

impl View for Binary64 {
    type V = Dyadic;

    open spec fn view(&self) -> Dyadic {
        Dyadic { mant: self.mant as nat, scale: self.scale as nat }
    }
}

impl Binary64 {
    /// The bounds within which a value can be rendered: at most `2^64` in the
    /// numerator, and a power of two that fits beside it.
    pub open spec fn in_range(self) -> bool {
        self.mant <= 0x1_0000_0000_0000_0000 && self.scale <= 116
    }

    /// The bounds within which a value can be divided again.
    pub open spec fn divisible(self) -> bool {
        0 < self.mant <= 0x1_0000_0000_0000_0000 && self.scale <= 52
    }

    /// The double that `n` converts to.
    pub fn from_u64(n: u64) -> (r: Binary64)
        ensures
            r@ == double_of_nat(n as nat),
            r.in_range(),
            r.scale <= 52,
            n > 0 ==> r.divisible() && r@.at_least(1),
    {
        if n == 0 {
            Binary64 { mant: 0, scale: 0 }
        } else {
            Binary64::round_ratio(n as u128, 1)
        }
    }

    /// Whether the value is at least `n`.
    pub fn at_least(&self, n: u16) -> (b: bool)
        requires
            self.scale <= 52,
        ensures
            b == self@.at_least(n as nat),
    {
        proof {
            lemma_pow2_large();
            if self.scale < 52 {
                lemma_pow2_strictly_increases(self.scale as nat, 52);
            }
        }
        let unit: u128 = pow2_exec(self.scale);
        assert(n * unit <= 0x1_0000 * 0x10_0000_0000_0000) by (nonlinear_arith)
            requires
                n <= 0x1_0000,
                unit <= 0x10_0000_0000_0000,
        ;
        let bound: u128 = (n as u128) * unit;
        self.mant >= bound
    }

    /// The double that dividing by `d` gives.
    pub fn div(&self, d: u16) -> (r: Binary64)
        requires
            self.divisible(),
            2 <= d <= 2048,
        ensures
            r@ == double_div(self@, d as nat),
            r.in_range(),
            r.mant > 0,
            self@.at_least(d as nat) ==> r.divisible() && r@.at_least(1),
    {
        proof {
            lemma_pow2_large();
            if self.scale < 52 {
                lemma_pow2_strictly_increases(self.scale as nat, 52);
            }
        }
        let unit: u128 = pow2_exec(self.scale);
        assert(2 * 1 <= d * unit <= 2048 * 0x10_0000_0000_0000) by (nonlinear_arith)
            requires
                2 <= d <= 2048,
                1 <= unit <= 0x10_0000_0000_0000,
        ;
        let den: u128 = (d as u128) * unit;
        Binary64::round_ratio(self.mant, den)
    }

    /// Appends the value in base ten, with `places` digits after the point.
    pub fn push_rendered(&self, out: &mut String, places: u8)
        requires
            self.in_range(),
            places <= 10,
        ensures
            final(out)@ == old(out)@ + rendered(self@, places as nat),
    {
        proof {
            lemma_pow2_large();
            if self.scale < 127 {
                lemma_pow2_strictly_increases(self.scale as nat, 127);
            }
        }
        let unit: u128 = pow10_exec(places);
        let den: u128 = pow2_exec(self.scale);
        assert(self.mant * unit <= 0x1_0000_0000_0000_0000 * 10_000_000_000) by (nonlinear_arith)
            requires
                self.mant <= 0x1_0000_0000_0000_0000,
                unit <= 10_000_000_000,
        ;
        proof {
            let n: nat = (self.mant * unit) as nat;
            let d: nat = den as nat;
            lemma_quotient_bounds(n, d);
            assert(n / d <= n) by (nonlinear_arith)
                requires
                    d * (n / d) <= n,
                    d >= 1,
            ;
        }
        let scaled: u128 = nearest_even_exec(self.mant * unit, den);
        push_fixed_point(out, scaled, places);
    }

    /// The double nearest to `num / den`.
    pub fn round_ratio(num: u128, den: u128) -> (r: Binary64)
        requires
            0 < num <= 0x1_0000_0000_0000_0000,
            0 < den < 0x1_0000_0000_0000_0000,
            num < 0x1_0000_0000_0000_0000 * den,
        ensures
            r@ == round_to_double(num as nat, den as nat),
            r.in_range(),
            r.mant > 0,
            r.mant <= 0x20_0000_0000_0000 || r.scale == 0,
            num >= den ==> r.scale <= 52 && r@.at_least(1),
            num < den && den < 0x20_0000_0000_0000 ==> r@.below(1),
    {
        proof {
            lemma_pow2_large();
        }
        if num >= den {
            let q: u128 = num / den;
            let len: u32 = bit_length_exec(q);
            proof {
                lemma_quotient_bounds(num as nat, den as nat);
                lemma_multiply_divide_lt(num as int, den as int, 0x1_0000_0000_0000_0000);
                lemma_bit_length_bounds(q as nat);
                lemma_bit_length_at_most(q as nat, 64);
                assert(q >= 1) by (nonlinear_arith)
                    requires
                        num >= den,
                        den > 0,
                        num < den * q + den,
                ;
            }
            if len >= 53 {
                let up: u32 = len - 53;
                let unit: u128 = pow2_exec(up);
                proof {
                    lemma_pow2_adds(52, up as nat);
                    lemma_pow2_adds(53, up as nat);
                    if len < 64 {
                        lemma_pow2_strictly_increases(len as nat, 64);
                    }
                    assert(den * unit <= num) by (nonlinear_arith)
                        requires
                            0x10_0000_0000_0000 * unit <= q,
                            den * q <= num,
                            den > 0,
                            unit >= 1,
                    ;
                }
                let step: u128 = den * unit;
                proof {
                    assert(num < step * 0x20_0000_0000_0000) by (nonlinear_arith)
                        requires
                            q < 0x20_0000_0000_0000 * unit,
                            num < den * q + den,
                            step == den * unit,
                            den > 0,
                    ;
                    lemma_multiply_divide_lt(num as int, step as int, 0x20_0000_0000_0000);
                    lemma_quotient_bounds(num as nat, step as nat);
                    assert(num / step >= 1) by (nonlinear_arith)
                        requires
                            step <= num,
                            step > 0,
                            num < step * (num / step) + step,
                    ;
                }
                let m: u128 = nearest_even_exec(num, step);
                proof {
                    assert(m * unit <= 0x1_0000_0000_0000_0000 && m * unit >= 1) by (nonlinear_arith)
                        requires
                            1 <= m <= 0x20_0000_0000_0000,
                            unit >= 1,
                            0x20_0000_0000_0000 * unit <= 0x1_0000_0000_0000_0000,
                    ;
                    lemma2_to64();
                }
                Binary64 { mant: m * unit, scale: 0 }
            } else {
                let down: u32 = 53 - len;
                let unit: u128 = pow2_exec(down);
                proof {
                    lemma_pow2_adds(len as nat, down as nat);
                    assert(num * unit < den * 0x20_0000_0000_0000 && num * unit >= den * unit)
                        by (nonlinear_arith)
                        requires
                            num < den * q + den,
                            q < pow2(len as nat),
                            pow2(len as nat) * unit == 0x20_0000_0000_0000,
                            unit >= 1,
                            den > 0,
                            num >= den,
                    ;
                    lemma_multiply_divide_lt((num * unit) as int, den as int, 0x20_0000_0000_0000);
                    lemma_div_is_ordered((den * unit) as int, (num * unit) as int, den as int);
                    lemma_div_multiples_vanish(unit as int, den as int);
                }
                let m: u128 = nearest_even_exec(num * unit, den);
                proof {
                    lemma_pow2_pos(down as nat);
                }
                Binary64 { mant: m, scale: down }
            }
        } else {
            let ratio: u128 = (den - 1) / num;
            let len: u32 = bit_length_exec(ratio);
            proof {
                lemma_quotient_bounds((den - 1) as nat, num as nat);
                assert(ratio >= 1) by (nonlinear_arith)
                    requires
                        den - 1 >= num,
                        num > 0,
                        den - 1 < num * ratio + num,
                ;
                assert(ratio < 0x1_0000_0000_0000_0000) by (nonlinear_arith)
                    requires
                        num * ratio <= den - 1,
                        num >= 1,
                        den < 0x1_0000_0000_0000_0000,
                ;
                lemma_bit_length_bounds(ratio as nat);
                lemma_bit_length_at_most(ratio as nat, 64);
            }
            let down: u32 = 52 + len;
            let unit: u128 = pow2_exec(down);
            proof {
                lemma_pow2_adds((len - 1) as nat, 53);
                lemma_pow2_pos((len - 1) as nat);
                assert(num * unit < den * 0x20_0000_0000_0000) by (nonlinear_arith)
                    requires
                        pow2((len - 1) as nat) <= ratio,
                        num * ratio <= den - 1,
                        unit == pow2((len - 1) as nat) * 0x20_0000_0000_0000,
                        num > 0,
                ;
                lemma_multiply_divide_lt((num * unit) as int, den as int, 0x20_0000_0000_0000);
                lemma_pow2_unfold(len as nat);
                assert(den * 0x10_0000_0000_0000 <= num * unit) by (nonlinear_arith)
                    requires
                        ratio < 2 * pow2((len - 1) as nat),
                        den - 1 < num * ratio + num,
                        unit == pow2((len - 1) as nat) * 0x20_0000_0000_0000,
                        num > 0,
                ;
                lemma_quotient_at_least((num * unit) as nat, den as nat, 0x10_0000_0000_0000);
            }
            let m: u128 = nearest_even_exec(num * unit, den);
            proof {
                if den < 0x20_0000_0000_0000 {
                    assert(num * unit < den * (unit - 1)) by (nonlinear_arith)
                        requires
                            num < den,
                            den < 0x20_0000_0000_0000,
                            unit >= 0x20_0000_0000_0000,
                    ;
                    lemma_multiply_divide_lt((num * unit) as int, den as int, unit - 1);
                }
            }
            Binary64 { mant: m, scale: down }
        }
    }

    /// The whole part of the value.
    pub fn whole(&self) -> (w: u128)
        requires
            self.in_range(),
        ensures
            w == whole_part(self@),
            w <= self.mant,
    {
        proof {
            lemma_pow2_large();
            if self.scale < 127 {
                lemma_pow2_strictly_increases(self.scale as nat, 127);
            }
            let n: nat = self.mant as nat;
            let d: nat = pow2(self.scale as nat);
            lemma_pow2_pos(self.scale as nat);
            lemma_quotient_bounds(n, d);
            assert(n / d <= n) by (nonlinear_arith)
                requires
                    d * (n / d) <= n,
                    d >= 1,
            ;
        }
        let unit: u128 = pow2_exec(self.scale);
        self.mant / unit
    }

    /// The double nearest to the sum of an integer and a double below one.
    pub fn sum(whole: u128, frac: &Binary64) -> (r: Binary64)
        requires
            1 <= whole <= 0x1_0000_0000_0000_0000,
            frac.mant <= 0x20_0000_0000_0000,
            frac.scale <= 100,
            frac@.below(1),
        ensures
            r@ == double_sum(whole as nat, frac@),
            r.divisible(),
            r@.at_least(
                if whole <= 0x10_0000_0000_0000 {
                    whole as nat
                } else {
                    0x10_0000_0000_0000
                },
            ),
    {
        let len: u32 = bit_length_exec(whole);
        let den: u128 = pow2_exec(frac.scale);
        let ghost num: nat = (whole * den + frac.mant) as nat;
        proof {
            lemma_pow2_large();
            lemma2_to64();
            lemma2_to64_rest();
            lemma_pow2_adds(64, 36);
            if frac.scale < 100 {
                lemma_pow2_strictly_increases(frac.scale as nat, 100);
            }
            lemma_bit_length_bounds(whole as nat);
            lemma_pow2_unfold(65);
            lemma_bit_length_at_most(whole as nat, 65);
            assert(whole * den >= den) by (nonlinear_arith)
                requires
                    whole >= 1,
                    den >= 1,
            ;
            lemma_fundamental_div_mod_converse(
                num as int,
                den as int,
                whole as int,
                frac.mant as int,
            );
        }
        if len >= 53 {
            let up: u32 = len - 53;
            let unit: u128 = pow2_exec(up);
            let high: u128 = whole / unit;
            let low: u128 = whole % unit;
            proof {
                lemma_pow2_adds(52, up as nat);
                lemma_pow2_adds(53, up as nat);
                if up < 12 {
                    lemma_pow2_strictly_increases(up as nat, 12);
                }
                lemma_quotient_bounds(whole as nat, unit as nat);
                assert(low * den + frac.mant < den * unit && den * unit <= 0x1000
                    * 0x10_0000_0000_0000_0000_0000_0000) by (nonlinear_arith)
                    requires
                        low < unit,
                        frac.mant < den,
                        unit <= 0x1000,
                        den <= 0x10_0000_0000_0000_0000_0000_0000,
                ;
                assert(low * den >= 0) by (nonlinear_arith)
                    requires
                        low >= 0,
                        den >= 0,
                ;
            }
            let rem: u128 = low * den + frac.mant;
            let step: u128 = den * unit;
            proof {
                assert(num == high * step + rem) by (nonlinear_arith)
                    requires
                        num == whole * den + frac.mant,
                        whole == unit * high + low,
                        rem == low * den + frac.mant,
                        step == den * unit,
                ;
                lemma_fundamental_div_mod_converse(
                    num as int,
                    step as int,
                    high as int,
                    rem as int,
                );
                lemma_multiply_divide_lt(whole as int, unit as int, 0x20_0000_0000_0000);
                lemma_quotient_at_least(whole as nat, unit as nat, 0x10_0000_0000_0000);
            }
            let m: u128 = round_half_even_exec(high, rem, step);
            proof {
                if len == 65 {
                    assert(whole == 0x1_0000_0000_0000_0000);
                    assert(unit == 0x1000);
                    assert(low == 0 && high == 0x10_0000_0000_0000);
                    assert(2 * rem < step) by (nonlinear_arith)
                        requires
                            rem < den,
                            step == den * 0x1000,
                    ;
                    assert(m == high);
                } else {
                    lemma_pow2_adds(len as nat, (64 - len) as nat);
                    lemma_pow2_pos((64 - len) as nat);
                    assert(pow2(len as nat) <= 0x1_0000_0000_0000_0000) by (nonlinear_arith)
                        requires
                            pow2(len as nat) * pow2((64 - len) as nat)
                                == 0x1_0000_0000_0000_0000,
                            pow2((64 - len) as nat) >= 1,
                            pow2(len as nat) >= 0,
                    ;
                }
                assert(0x10_0000_0000_0000 <= m * unit <= 0x1_0000_0000_0000_0000)
                    by (nonlinear_arith)
                    requires
                        0x10_0000_0000_0000 <= m,
                        unit >= 1,
                        len == 65 ==> m == 0x10_0000_0000_0000 && unit == 0x1000,
                        len != 65 ==> m <= 0x20_0000_0000_0000 && 0x20_0000_0000_0000 * unit
                            <= 0x1_0000_0000_0000_0000,
                ;
            }
            Binary64 { mant: m * unit, scale: 0 }
        } else {
            let down: u32 = 53 - len;
            let unit: u128 = pow2_exec(down);
            proof {
                lemma_pow2_adds(len as nat, down as nat);
                lemma_pow2_pos(down as nat);
                if down < 52 {
                    lemma_pow2_strictly_increases(down as nat, 52);
                }
                assert(frac.mant * unit <= 0x20_0000_0000_0000 * 0x10_0000_0000_0000
                    && frac.mant * unit < den * unit && (whole + 1) * unit
                    <= 0x20_0000_0000_0000 && 1 <= whole * unit < 0x20_0000_0000_0000
                    && (whole + 1) * unit == whole * unit + unit) by (nonlinear_arith)
                    requires
                        frac.mant <= 0x20_0000_0000_0000,
                        1 <= unit <= 0x10_0000_0000_0000,
                        frac.mant < den,
                        1 <= whole < pow2(len as nat),
                        pow2(len as nat) * unit == 0x20_0000_0000_0000,
                ;
            }
            let part: u128 = frac.mant * unit;
            proof {
                lemma_quotient_bounds(part as nat, den as nat);
                lemma_multiply_divide_lt(part as int, den as int, unit as int);
            }
            let quot: u128 = whole * unit + part / den;
            let rem: u128 = part % den;
            proof {
                assert(num * unit == quot * den + rem) by (nonlinear_arith)
                    requires
                        num == whole * den + frac.mant,
                        part == frac.mant * unit,
                        part == den * (part / den) + rem,
                        quot == whole * unit + part / den,
                ;
                lemma_fundamental_div_mod_converse(
                    (num * unit) as int,
                    den as int,
                    quot as int,
                    rem as int,
                );
            }
            let m: u128 = round_half_even_exec(quot, rem, den);
            Binary64 { mant: m, scale: down }
        }
    }

    /// The double that a span of `secs` whole seconds and `nanos` nanoseconds
    /// beyond them comes to in seconds.
    pub fn from_seconds(secs: u64, nanos: u32) -> (r: Binary64)
        requires
            nanos < 1_000_000_000,
        ensures
            r@ == seconds_as_double(secs as nat, nanos as nat),
            r.in_range(),
            secs > 0 ==> r.divisible() && r@.at_least(
                if secs <= 0x10_0000_0000_0000 {
                    secs as nat
                } else {
                    0x10_0000_0000_0000
                },
            ),
    {
        proof {
            lemma_pow2_large();
            lemma2_to64();
            if secs > 0 {
                lemma_round_at_least(
                    secs as nat,
                    1,
                    if secs <= 0x10_0000_0000_0000 {
                        secs as nat
                    } else {
                        0x10_0000_0000_0000
                    },
                );
            }
        }
        if nanos == 0 {
            Binary64::from_u64(secs)
        } else if secs == 0 {
            Binary64::round_ratio(nanos as u128, 1_000_000_000)
        } else {
            let exact: Binary64 = Binary64::from_u64(secs);
            let whole: u128 = exact.whole();
            let frac: Binary64 = Binary64::round_ratio(nanos as u128, 1_000_000_000);
            proof {
                let k: nat = if secs <= 0x10_0000_0000_0000 {
                    secs as nat
                } else {
                    0x10_0000_0000_0000
                };
                lemma_pow2_pos(exact.scale as nat);
                assert(pow2(exact.scale as nat) * k <= exact.mant) by (nonlinear_arith)
                    requires
                        exact.mant >= k * pow2(exact.scale as nat),
                ;
                lemma_quotient_at_least(exact.mant as nat, pow2(exact.scale as nat), k);
                let ratio: nat = ((1_000_000_000 - 1) / (nanos as int)) as nat;
                lemma_quotient_bounds(999_999_999, nanos as nat);
                assert(ratio <= 999_999_999) by (nonlinear_arith)
                    requires
                        nanos * ratio <= 999_999_999,
                        nanos >= 1,
                        ratio >= 0,
                ;
                lemma_bit_length_at_most(ratio, 30);
                assert(frac.scale <= 82);
            }
            let r: Binary64 = Binary64::sum(whole, &frac);
            proof {
                let k: nat = if secs <= 0x10_0000_0000_0000 {
                    secs as nat
                } else {
                    0x10_0000_0000_0000
                };
                let reached: nat = if whole <= 0x10_0000_0000_0000 {
                    whole as nat
                } else {
                    0x10_0000_0000_0000
                };
                assert(r.mant >= k * pow2(r.scale as nat)) by (nonlinear_arith)
                    requires
                        r.mant >= reached * pow2(r.scale as nat),
                        reached >= k,
                ;
            }
            r
        }
    }
}

} // verus!
