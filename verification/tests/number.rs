use human_format::number::format_usize;

const UNITS: [&str; 9] = ["", "K", "M", "B", "T", "P", "E", "Z", "Y"];

fn with_floats(number: usize, round: Option<u8>) -> String {
    let mut number = number as f64;
    let mut unit_index = 0;
    while number >= 1000.0 && unit_index < UNITS.len() - 1 {
        number /= 1000.0;
        unit_index += 1;
    }
    let p = round.unwrap_or(2).min(10) as usize;
    format!("{:.p$}{}", number, UNITS[unit_index])
}

#[test]
fn zero_count_default_precision() {
    assert_eq!(format_usize(0, None), "0.00");
}

#[test]
fn small_counts_have_no_label_but_keep_decimals() {
    assert_eq!(format_usize(7, None), "7.00");
    assert_eq!(format_usize(999, None), "999.00");
    assert_eq!(format_usize(999, Some(0)), "999");
}

#[test]
fn thousands_use_k() {
    assert_eq!(format_usize(1000, None), "1.00K");
    assert_eq!(format_usize(1230, None), "1.23K");
    assert_eq!(format_usize(1500, Some(1)), "1.5K");
    assert_eq!(format_usize(999_999, Some(3)), "999.999K");
    assert_eq!(format_usize(999_999, None), "1000.00K");
    assert_eq!(format_usize(123_456, Some(3)), "123.456K");
}

#[test]
fn larger_counts_use_larger_units() {
    assert_eq!(format_usize(1_000_000, None), "1.00M");
    assert_eq!(format_usize(4_560_000, None), "4.56M");
    assert_eq!(format_usize(1_000_000_000, None), "1.00B");
    assert_eq!(format_usize(2_500_000_000, Some(1)), "2.5B");
    if usize::BITS == 64 {
        assert_eq!(format_usize(1_000_000_000_000, None), "1.00T");
        assert_eq!(format_usize(1_000_000_000_000_000, None), "1.00P");
        assert_eq!(format_usize(1_000_000_000_000_000_000, None), "1.00E");
        assert_eq!(format_usize(usize::MAX, None), "18.45E");
    }
}

#[test]
fn count_division_is_rounded_as_doubles_are() {
    // 1.015 is no double; the nearest one lies below it.
    assert_eq!(format_usize(1015, None), "1.01K");
    assert_eq!(format_usize(1135, None), "1.14K");
    assert_eq!(format_usize(1125, None), "1.12K");
    assert_eq!(format_usize(1015, Some(10)), "1.0150000000K");
}

#[test]
fn count_precision_is_clamped_to_ten() {
    assert_eq!(format_usize(1234, Some(15)), "1.2340000000K");
    assert_eq!(format_usize(1234, Some(11)), format_usize(1234, Some(10)));
}

#[test]
fn counts_agree_with_floating_point_on_a_sweep() {
    let mut n: u64 = 1;
    let mut step: u64 = 1;
    let mut rounds = 0;
    while rounds < 4000 {
        for p in [None, Some(0u8), Some(1), Some(3), Some(6), Some(10), Some(20)] {
            if n <= usize::MAX as u64 {
                assert_eq!(format_usize(n as usize, p), with_floats(n as usize, p), "{} {:?}", n, p);
            }
        }
        n = n.wrapping_mul(6364136223846793005).wrapping_add(1442695040888963407);
        step = step.wrapping_add(n >> 7);
        n ^= step;
        if rounds % 3 == 0 {
            n >>= rounds % 61;
        }
        rounds += 1;
    }
}

#[test]
fn counts_agree_with_floating_point_on_small_values() {
    for n in 0..20_000usize {
        for p in [None, Some(0u8), Some(1), Some(3), Some(10)] {
            assert_eq!(format_usize(n, p), with_floats(n, p), "{} {:?}", n, p);
        }
    }
}

#[test]
fn counts_agree_with_floating_point_near_unit_boundaries() {
    let mut power: u64 = 1000;
    for _ in 0..6 {
        for delta in 0..40u64 {
            for p in [None, Some(0u8), Some(5), Some(10)] {
                let below = (power - 1 - delta) as usize;
                let above = (power + delta) as usize;
                assert_eq!(format_usize(below, p), with_floats(below, p));
                assert_eq!(format_usize(above, p), with_floats(above, p));
            }
        }
        power = power.saturating_mul(1000);
    }
}

#[test]
fn counts_from_a_thousand_to_a_million_use_k() {
    let mut c: usize = 1000;
    while c < 1_000_000 {
        let text = format_usize(c, Some(3));
        assert_eq!(text, format!("{}.{:03}K", c / 1000, c % 1000));
        assert_eq!(format_usize(c, Some(10)), format!("{:.10}K", c as f64 / 1000.0));
        c += 1 + c / 97;
    }
    assert_eq!(format_usize(999_999, Some(3)), "999.999K");
}
