use human_format::binary64::{bit_length_exec, nearest_even_exec, pow2_exec, Binary64};

fn value(x: Binary64) -> f64 {
    (x.mant as f64) / 2f64.powi(x.scale as i32)
}

fn text(x: Binary64, places: u8) -> String {
    let mut out = String::new();
    x.push_rendered(&mut out, places);
    out
}

#[test]
fn bit_lengths() {
    assert_eq!(bit_length_exec(0), 0);
    assert_eq!(bit_length_exec(1), 1);
    assert_eq!(bit_length_exec(2), 2);
    assert_eq!(bit_length_exec(1023), 10);
    assert_eq!(bit_length_exec(1024), 11);
    assert_eq!(bit_length_exec(u128::MAX), 128);
}

#[test]
fn powers_of_two() {
    assert_eq!(pow2_exec(0), 1);
    assert_eq!(pow2_exec(10), 1024);
    assert_eq!(pow2_exec(127), 1u128 << 127);
}

#[test]
fn nearest_integer_ties_to_even() {
    assert_eq!(nearest_even_exec(5, 2), 2);
    assert_eq!(nearest_even_exec(7, 2), 4);
    assert_eq!(nearest_even_exec(9, 4), 2);
    assert_eq!(nearest_even_exec(11, 4), 3);
    assert_eq!(nearest_even_exec(10, 4), 2);
    assert_eq!(nearest_even_exec(14, 4), 4);
    assert_eq!(nearest_even_exec(0, 3), 0);
    assert_eq!(nearest_even_exec(12, 3), 4);
}

#[test]
fn integers_convert_as_doubles_do() {
    for n in [0u64, 1, 2, 3, 1000, (1 << 53) - 1, 1 << 53, (1 << 53) + 1, (1 << 53) + 2,
        (1 << 53) + 3, (1 << 54) + 2, (1 << 54) + 6, u64::MAX - 1024, u64::MAX - 1023, u64::MAX]
    {
        let x = Binary64::from_u64(n);
        assert_eq!(value(x), n as f64, "{}", n);
        assert_eq!(x.whole() as f64, n as f64, "{}", n);
    }
}

#[test]
fn ratios_round_as_double_division_does() {
    for (num, den) in [(1u64, 3u64), (2, 3), (1, 10), (1015, 1000), (999_999_999, 1_000_000_000),
        (1, 1_000_000_000), (u64::MAX, 7), (u64::MAX, 1000), (123_456_789, 60), ((1 << 53) + 1, 2)]
    {
        let x = Binary64::round_ratio(num as u128, den as u128);
        // Both sides of the division are doubles here, so one rounding is made.
        if num < (1 << 53) || num % 2048 == 0 {
            assert_eq!(value(x), (num as f64) / (den as f64), "{} / {}", num, den);
        }
    }
    let third = Binary64::round_ratio(1, 3);
    assert_eq!(third.mant, 6004799503160661);
    assert_eq!(third.scale, 54);
}

#[test]
fn division_rounds_each_time() {
    let mut x = Binary64::from_u64(123_456_789_123);
    let mut f = 123_456_789_123u64 as f64;
    while x.at_least(1000) {
        x = x.div(1000);
        f /= 1000.0;
        assert_eq!(value(x), f);
    }
    assert!(!x.at_least(124));
    assert!(x.at_least(123));
}

#[test]
fn seconds_convert_as_doubles_do() {
    for (secs, nanos) in [(0u64, 1u32), (0, 999_999_999), (1, 1), (1, 100_000_000),
        (59, 999_999_999), (3600, 500_000_000), ((1 << 52) - 1, 500_000_000),
        ((1 << 52) + 1, 500_000_000), ((1 << 53) - 1, 500_000_000), ((1 << 53) - 1, 500_000_001),
        (1 << 53, 999_999_999), (u64::MAX, 999_999_999), (7, 0)]
    {
        let x = Binary64::from_seconds(secs, nanos);
        let d = std::time::Duration::new(secs, nanos);
        assert_eq!(value(x), d.as_secs_f64(), "{} {}", secs, nanos);
    }
}

#[test]
fn sums_round_to_53_bits() {
    let half = Binary64::round_ratio(1, 2);
    // 2^53 - 1 + 0.5 is a tie: the even neighbour is 2^53.
    let x = Binary64::sum((1u128 << 53) - 1, &half);
    assert_eq!(value(x), 9007199254740992.0);
    // 2^52 + 0.5 is a tie too: the even neighbour is 2^52.
    let y = Binary64::sum(1u128 << 52, &half);
    assert_eq!(value(y), 4503599627370496.0);
    let z = Binary64::sum(3, &half);
    assert_eq!(value(z), 3.5);
    assert_eq!(z.mant, 7 << 50);
    assert_eq!(z.scale, 51);
}

#[test]
fn rendering_rounds_ties_to_even() {
    assert_eq!(text(Binary64 { mant: 1, scale: 1 }, 0), "0");
    assert_eq!(text(Binary64 { mant: 3, scale: 1 }, 0), "2");
    assert_eq!(text(Binary64 { mant: 5, scale: 1 }, 0), "2");
    assert_eq!(text(Binary64 { mant: 1, scale: 3 }, 2), "0.12");
    assert_eq!(text(Binary64 { mant: 3, scale: 3 }, 2), "0.38");
    assert_eq!(text(Binary64 { mant: 3, scale: 3 }, 3), "0.375");
    assert_eq!(text(Binary64 { mant: 3, scale: 3 }, 10), "0.3750000000");
    assert_eq!(text(Binary64 { mant: 1 << 64, scale: 0 }, 1), "18446744073709551616.0");
    assert_eq!(text(Binary64::round_ratio(1, 3), 10), "0.3333333333");
    assert_eq!(text(Binary64::round_ratio(2, 3), 10), "0.6666666667");
}
