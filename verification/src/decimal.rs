//! Decimal digits: what a natural number looks like when written in base ten,
//! with or without leading zeros, and with a decimal point.

use vstd::prelude::*;
use vstd::string::*;

verus! {

/// The character that stands for one decimal digit.
pub open spec fn digit_char(d: nat) -> char
    recommends
        d < 10,
{
    if d == 0 {
        '0'
    } else if d == 1 {
        '1'
    } else if d == 2 {
        '2'
    } else if d == 3 {
        '3'
    } else if d == 4 {
        '4'
    } else if d == 5 {
        '5'
    } else if d == 6 {
        '6'
    } else if d == 7 {
        '7'
    } else if d == 8 {
        '8'
    } else {
        '9'
    }
}

/// `n` in base ten, without leading zeros; zero is the single digit `0`.
pub open spec fn decimal(n: nat) -> Seq<char>
    decreases n,
{
    if n < 10 {
        seq![digit_char(n)]
    } else {
        decimal(n / 10).push(digit_char(n % 10))
    }
}

/// The last `width` decimal digits of `n`, most significant first. For
/// `n < 10^width` this is `n` written with leading zeros to exactly `width`
/// digits.
pub open spec fn fixed_width(n: nat, width: nat) -> Seq<char>
    decreases width,
{
    if width == 0 {
        Seq::empty()
    } else {
        fixed_width(n / 10, (width - 1) as nat).push(digit_char(n % 10))
    }
}

/// `n` in base ten, with leading zeros up to `width` digits; a number with
/// more digits than that is written in full.
pub open spec fn zero_padded(n: nat, width: nat) -> Seq<char>
    decreases width,
{
    if width <= 1 {
        decimal(n)
    } else {
        zero_padded(n / 10, (width - 1) as nat).push(digit_char(n % 10))
    }
}

/// Ten to the power `p`.
pub open spec fn pow10(p: nat) -> nat
    decreases p,
{
    if p == 0 {
        1
    } else {
        10 * pow10((p - 1) as nat)
    }
}

/// The number `scaled / 10^places` written with exactly `places` digits after
/// the decimal point. With no places there is no point either.
pub open spec fn fixed_point(scaled: nat, places: nat) -> Seq<char> {
    if places == 0 {
        decimal(scaled)
    } else {
        decimal(scaled / pow10(places)).push('.') + fixed_width(scaled % pow10(places), places)
    }
}

/// The whole number `n` with `places` zeros after the decimal point.
pub open spec fn rendered_whole(n: nat, places: nat) -> Seq<char> {
    fixed_point(n * pow10(places), places)
}

/// A field of fixed width has exactly that many digits.
pub proof fn lemma_fixed_width_len(n: nat, width: nat)
    ensures
        fixed_width(n, width).len() == width,
    decreases width,
{
    if width > 0 {
        lemma_fixed_width_len(n / 10, (width - 1) as nat);
    }
}

/// A number written with decimal places has its point right before the last
/// `places` characters, and at least one digit before the point.
pub proof fn lemma_fixed_point_shape(scaled: nat, places: nat)
    requires
        places > 0,
    ensures
        fixed_point(scaled, places).len() == decimal(scaled / pow10(places)).len() + 1 + places,
        fixed_point(scaled, places).len() >= places + 2,
        fixed_point(scaled, places)[fixed_point(scaled, places).len() - places - 1] == '.',
{
    lemma_fixed_width_len(scaled % pow10(places), places);
    lemma_decimal_nonempty(scaled / pow10(places));
}

/// Every number has at least one digit.
pub proof fn lemma_decimal_nonempty(n: nat)
    ensures
        decimal(n).len() >= 1,
    decreases n,
{
    if n >= 10 {
        lemma_decimal_nonempty(n / 10);
    }
}

/// The powers of ten that a precision can ask for.
pub proof fn lemma_pow10_values()
    ensures
        pow10(0) == 1,
        pow10(1) == 10,
        pow10(2) == 100,
        pow10(3) == 1_000,
        pow10(4) == 10_000,
        pow10(5) == 100_000,
        pow10(6) == 1_000_000,
        pow10(7) == 10_000_000,
        pow10(8) == 100_000_000,
        pow10(9) == 1_000_000_000,
        pow10(10) == 10_000_000_000,
{
    reveal_with_fuel(pow10, 11);
}

/// Ten to the power `p`, for the precisions that are rendered.
pub fn pow10_exec(p: u8) -> (r: u128)
    requires
        p <= 10,
    ensures
        r == pow10(p as nat),
        1 <= r <= 10_000_000_000,
{
    let mut r: u128 = 1;
    let mut i: u8 = 0;
    while i < p
        invariant
            i <= p <= 10,
            r == pow10(i as nat),
            1 <= r,
            i == 0 ==> r == 1,
        decreases p - i,
    {
        proof {
            lemma_pow10_values();
        }
        r = r * 10;
        i = i + 1;
    }
    proof {
        lemma_pow10_values();
    }
    r
}

/// One decimal digit as a string slice.
pub fn digit_str(d: u8) -> (s: &'static str)
    requires
        d < 10,
    ensures
        s@ == seq![digit_char(d as nat)],
{
    proof {
        reveal_strlit("0");
        reveal_strlit("1");
        reveal_strlit("2");
        reveal_strlit("3");
        reveal_strlit("4");
        reveal_strlit("5");
        reveal_strlit("6");
        reveal_strlit("7");
        reveal_strlit("8");
        reveal_strlit("9");
    }
    let s = if d == 0 {
        "0"
    } else if d == 1 {
        "1"
    } else if d == 2 {
        "2"
    } else if d == 3 {
        "3"
    } else if d == 4 {
        "4"
    } else if d == 5 {
        "5"
    } else if d == 6 {
        "6"
    } else if d == 7 {
        "7"
    } else if d == 8 {
        "8"
    } else {
        "9"
    };
    assert(s@ =~= seq![digit_char(d as nat)]);
    s
}

/// Appends `n` in base ten to `out`.
pub fn push_decimal(out: &mut String, n: u128)
    ensures
        final(out)@ == old(out)@ + decimal(n as nat),
    decreases n,
{
    if n >= 10 {
        push_decimal(out, n / 10);
    }
    let d: u8 = (n % 10) as u8;
    out.append(digit_str(d));
    proof {
        if n >= 10 {
            assert(final(out)@ =~= old(out)@ + decimal(n as nat));
        } else {
            assert(final(out)@ =~= old(out)@ + decimal(n as nat));
        }
    }
}

/// Appends the last `width` digits of `n` to `out`.
pub fn push_fixed_width(out: &mut String, n: u128, width: u8)
    ensures
        final(out)@ == old(out)@ + fixed_width(n as nat, width as nat),
    decreases width,
{
    if width > 0 {
        push_fixed_width(out, n / 10, width - 1);
        let d: u8 = (n % 10) as u8;
        out.append(digit_str(d));
    }
    assert(final(out)@ =~= old(out)@ + fixed_width(n as nat, width as nat));
}

/// Appends `n` to `out`, with leading zeros up to `width` digits.
pub fn push_zero_padded(out: &mut String, n: u128, width: u8)
    ensures
        final(out)@ == old(out)@ + zero_padded(n as nat, width as nat),
    decreases width,
{
    if width <= 1 {
        push_decimal(out, n);
    } else {
        push_zero_padded(out, n / 10, width - 1);
        let d: u8 = (n % 10) as u8;
        out.append(digit_str(d));
    }
    assert(final(out)@ =~= old(out)@ + zero_padded(n as nat, width as nat));
}

/// Appends `scaled / 10^places` to `out`, with exactly `places` digits after the
/// decimal point.
pub fn push_fixed_point(out: &mut String, scaled: u128, places: u8)
    requires
        places <= 10,
    ensures
        final(out)@ == old(out)@ + fixed_point(scaled as nat, places as nat),
{
    if places == 0 {
        push_decimal(out, scaled);
    } else {
        let unit = pow10_exec(places);
        push_decimal(out, scaled / unit);
        proof {
            reveal_strlit(".");
        }
        out.append(".");
        push_fixed_width(out, scaled % unit, places);
        assert(final(out)@ =~= old(out)@ + fixed_point(scaled as nat, places as nat));
    }
}

/// Appends the whole number `n` with `places` zeros after the point.
pub fn push_rendered_whole(out: &mut String, n: u64, places: u8)
    requires
        places <= 10,
    ensures
        final(out)@ == old(out)@ + rendered_whole(n as nat, places as nat),
{
    let unit: u128 = pow10_exec(places);
    assert(n * unit <= 0x1_0000_0000_0000_0000 * 10_000_000_000) by (nonlinear_arith)
        requires
            n <= 0x1_0000_0000_0000_0000,
            unit <= 10_000_000_000,
    ;
    push_fixed_point(out, (n as u128) * unit, places);
}

} // verus!
