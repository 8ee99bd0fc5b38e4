use human_format::bytes::format_bytes;

const UNITS: [&str; 9] = ["iB", "KiB", "MiB", "GiB", "TiB", "PiB", "EiB", "ZiB", "YiB"];

fn with_floats(bytes: usize, round: Option<u8>) -> String {
    let mut size = bytes as f64;
    let mut unit_index = 0;
    while size >= 1024.0 && unit_index < UNITS.len() - 1 {
        size /= 1024.0;
        unit_index += 1;
    }
    let precision = round.unwrap_or(2).min(10) as usize;
    format!("{:.precision$}{}", size, UNITS[unit_index])
}

#[test]
fn zero_bytes_default_precision() {
    assert_eq!(format_bytes(0, None), "0.00iB");
}

#[test]
fn bytes_below_first_threshold_keep_base_unit() {
    assert_eq!(format_bytes(1, None), "1.00iB");
    assert_eq!(format_bytes(999, None), "999.00iB");
    assert_eq!(format_bytes(1023, None), "1023.00iB");
    assert_eq!(format_bytes(1023, Some(0)), "1023iB");
}

#[test]
fn bytes_exact_values() {
    assert_eq!(format_bytes(1024, None), "1.00KiB");
    assert_eq!(format_bytes(1536, None), "1.50KiB");
    assert_eq!(format_bytes(1260, None), "1.23KiB");
    assert_eq!(format_bytes(1024 * 1024, None), "1.00MiB");
    assert_eq!(format_bytes(4_781_506, None), "4.56MiB");
    assert_eq!(format_bytes(1024 * 1024 * 1024, Some(1)), "1.0GiB");
    assert_eq!(format_bytes(1_099_511_627_776, Some(3)), "1.000TiB");
}

#[test]
fn bytes_mantissa_may_render_as_the_base() {
    assert_eq!(format_bytes(1024 * 1024 - 1, None), "1024.00KiB");
    assert_eq!(format_bytes(1024 * 1024 - 1, Some(4)), "1023.9990KiB");
}

#[test]
fn bytes_precision_is_clamped_to_ten() {
    assert_eq!(format_bytes(2048, Some(15)), "2.0000000000KiB");
    assert_eq!(format_bytes(2048, Some(10)), "2.0000000000KiB");
    assert_eq!(format_bytes(2048, Some(255)), format_bytes(2048, Some(10)));
    assert_eq!(format_bytes(1000, Some(11)), "1000.0000000000iB");
}

#[test]
fn bytes_ties_go_to_the_even_digit() {
    // 1.5 KiB and 2.5 KiB with no decimal places.
    assert_eq!(format_bytes(1536, Some(0)), "2KiB");
    assert_eq!(format_bytes(2560, Some(0)), "2KiB");
    assert_eq!(format_bytes(3584, Some(0)), "4KiB");
    // 1.125 KiB with two places.
    assert_eq!(format_bytes(1152, Some(2)), "1.12KiB");
    assert_eq!(format_bytes(1152, Some(3)), "1.125KiB");
}

#[test]
fn bytes_largest_counts() {
    assert_eq!(format_bytes(usize::MAX, None), with_floats(usize::MAX, None));
    if usize::BITS == 64 {
        assert_eq!(format_bytes(usize::MAX, None), "16.00EiB");
        assert_eq!(format_bytes(1usize << 63, Some(4)), "8.0000EiB");
        // 2^53 + 1 is no double: it converts to 2^53.
        assert_eq!(format_bytes((1usize << 53) + 1, Some(10)), "8.0000000000PiB");
        assert_eq!(format_bytes((1usize << 53) + 3, Some(10)), with_floats((1usize << 53) + 3, Some(10)));
    }
}

#[test]
fn bytes_agree_with_floating_point_on_a_sweep() {
    let mut n: u64 = 1;
    let mut step: u64 = 1;
    let mut rounds = 0;
    while rounds < 4000 {
        for p in [None, Some(0u8), Some(1), Some(3), Some(6), Some(10), Some(20)] {
            if n <= usize::MAX as u64 {
                assert_eq!(format_bytes(n as usize, p), with_floats(n as usize, p), "{} {:?}", n, p);
            }
        }
        n = n.wrapping_mul(6364136223846793005).wrapping_add(1442695040888963407);
        step = step.wrapping_add(n >> 7);
        n ^= step;
        if rounds % 3 == 0 {
            n >>= rounds % 61;
        }
        rounds += 1;
    }
}

#[test]
fn bytes_agree_with_floating_point_near_unit_boundaries() {
    let mut power: u64 = 1024;
    for _ in 0..6 {
        for delta in 0..40u64 {
            for p in [None, Some(0u8), Some(5), Some(10)] {
                let below = (power - 1 - delta) as usize;
                let above = (power + delta) as usize;
                assert_eq!(format_bytes(below, p), with_floats(below, p));
                assert_eq!(format_bytes(above, p), with_floats(above, p));
            }
        }
        power = power.saturating_mul(1024);
    }
}

#[test]
fn bytes_below_1024_show_the_count_itself() {
    for b in 0..1024usize {
        assert_eq!(format_bytes(b, None), format!("{}.00iB", b));
        assert_eq!(format_bytes(b, Some(0)), format!("{}iB", b));
        assert_eq!(format_bytes(b, Some(10)), format!("{}.0000000000iB", b));
    }
}

#[test]
fn bytes_precision_fifteen_gives_ten_decimals() {
    let text = format_bytes(2048, Some(15));
    let point = text.find('.').unwrap();
    let digits = &text[point + 1..text.len() - "KiB".len()];
    assert_eq!(digits.len(), 10);
    assert!(digits.chars().all(|c| c.is_ascii_digit()));
    assert!(text.ends_with("KiB"));
}
