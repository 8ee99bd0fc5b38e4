use human_format::span::Span;
use human_format::time::format_duration;
use std::time::Duration;

fn with_floats(duration: Duration, round: Option<u8>) -> String {
    let sec = duration.as_secs_f64();
    let min = sec / 60.0;
    let h = min / 60.0;
    let precision = round.unwrap_or(2).min(10) as usize;
    let whole = duration.as_secs();
    if whole / 60 / 60 > 0 {
        format!("{:.precision$}h", h)
    } else if whole / 60 > 0 {
        format!("{:.precision$}min", min)
    } else if whole > 0 {
        format!("{:.precision$}s", sec)
    } else if duration.as_millis() > 0 {
        format!("{:.precision$}ms", duration.as_millis() as f64)
    } else if duration.as_micros() > 0 {
        format!("{:.precision$}μs", duration.as_micros() as f64)
    } else if duration.as_nanos() > 0 {
        format!("{:.precision$}ns", duration.as_nanos() as f64)
    } else {
        "0ns".to_string()
    }
}

fn span_of(duration: Duration) -> Span {
    Span::new(duration.as_secs(), duration.subsec_nanos())
}

#[test]
fn scaled_half_a_second_is_milliseconds() {
    assert_eq!(format_duration(Span::from_millis(500), None), "500.00ms");
}

#[test]
fn scaled_ninety_seconds_is_minutes() {
    assert_eq!(format_duration(Span::from_secs(90), None), "1.50min");
}

#[test]
fn scaled_forty_five_seconds_is_seconds() {
    assert_eq!(format_duration(Span::from_secs(45), None), "45.00s");
    assert_eq!(format_duration(Span::new(45, 250_000_000), None), "45.25s");
    assert_eq!(format_duration(Span::new(1, 0), Some(0)), "1s");
}

#[test]
fn scaled_empty_span_is_zero_nanoseconds() {
    assert_eq!(format_duration(Span::from_secs(0), None), "0ns");
    assert_eq!(format_duration(Span::from_nanos(0), Some(7)), "0ns");
}

#[test]
fn scaled_hours() {
    assert_eq!(format_duration(Span::from_secs(3600), None), "1.00h");
    assert_eq!(format_duration(Span::from_secs(5400), None), "1.50h");
    assert_eq!(format_duration(Span::from_secs(3661), Some(4)), "1.0169h");
    assert_eq!(format_duration(Span::from_secs(86_400), Some(1)), "24.0h");
}

#[test]
fn scaled_minutes() {
    assert_eq!(format_duration(Span::from_secs(60), None), "1.00min");
    assert_eq!(format_duration(Span::from_secs(3599), None), "59.98min");
    assert_eq!(format_duration(Span::new(61, 500_000_000), Some(3)), "1.025min");
}

#[test]
fn scaled_small_units_show_whole_numbers() {
    assert_eq!(format_duration(Span::from_millis(1), None), "1.00ms");
    assert_eq!(format_duration(Span::from_millis(999), Some(1)), "999.0ms");
    assert_eq!(format_duration(Span::from_micros(500_400), None), "500.00ms");
    assert_eq!(format_duration(Span::from_micros(7), None), "7.00μs");
    assert_eq!(format_duration(Span::from_nanos(999_999), Some(3)), "999.000μs");
    assert_eq!(format_duration(Span::from_nanos(12), None), "12.00ns");
    assert_eq!(format_duration(Span::from_nanos(1), Some(0)), "1ns");
}

#[test]
fn scaled_precision_is_clamped_to_ten() {
    assert_eq!(format_duration(Span::from_secs(90), Some(15)), "1.5000000000min");
    assert_eq!(format_duration(Span::from_millis(3), Some(200)), "3.0000000000ms");
    assert_eq!(
        format_duration(Span::from_secs(100), Some(11)),
        format_duration(Span::from_secs(100), Some(10))
    );
}

#[test]
fn scaled_seconds_are_rounded_as_doubles_are() {
    // 1.1 is no double, and neither is a sixtieth of 100.
    assert_eq!(format_duration(Span::new(1, 100_000_000), Some(10)), "1.1000000000s");
    assert_eq!(format_duration(Span::from_secs(100), Some(10)), "1.6666666667min");
    assert_eq!(format_duration(Span::from_secs(4000), Some(10)), "1.1111111111h");
    assert_eq!(format_duration(Span::new(2, 675_000_000), Some(2)), "2.67s");
    assert_eq!(format_duration(Span::new(1, 5_000_000), Some(2)), "1.00s");
}

#[test]
fn scaled_longest_spans() {
    for p in [None, Some(0u8), Some(10)] {
        for nanos in [0u32, 1, 999_999_999] {
            let d = Duration::new(u64::MAX, nanos);
            assert_eq!(format_duration(span_of(d), p), with_floats(d, p));
            let d = Duration::new((1u64 << 53) + 1, nanos);
            assert_eq!(format_duration(span_of(d), p), with_floats(d, p));
            let d = Duration::new((1u64 << 52) - 1, nanos);
            assert_eq!(format_duration(span_of(d), p), with_floats(d, p));
        }
    }
    assert_eq!(format_duration(Span::from_secs(u64::MAX), None), "5124095576030431.00h");
}

#[test]
fn scaled_agrees_with_floating_point_on_a_sweep() {
    let mut n: u64 = 7;
    let mut step: u64 = 3;
    let mut rounds = 0;
    while rounds < 4000 {
        n = n.wrapping_mul(6364136223846793005).wrapping_add(1442695040888963407);
        step = step.wrapping_add(n >> 9);
        let secs = (n ^ step) >> (rounds % 64);
        let nanos = ((n >> 11) % 1_000_000_000) as u32;
        let d = Duration::new(secs, nanos);
        for p in [None, Some(0u8), Some(1), Some(4), Some(10), Some(99)] {
            assert_eq!(format_duration(span_of(d), p), with_floats(d, p), "{:?} {:?}", d, p);
        }
        rounds += 1;
    }
}

#[test]
fn scaled_agrees_with_floating_point_below_an_hour() {
    for secs in 0..3700u64 {
        for nanos in [0u32, 1, 5_000_000, 499_999_999, 500_000_000, 999_999_999] {
            let d = Duration::new(secs, nanos);
            for p in [None, Some(0u8), Some(3), Some(10)] {
                assert_eq!(format_duration(span_of(d), p), with_floats(d, p), "{:?} {:?}", d, p);
            }
        }
    }
}

#[test]
fn scaled_agrees_with_floating_point_below_a_second() {
    let mut nanos: u32 = 0;
    while nanos < 1_000_000_000 {
        let d = Duration::new(0, nanos);
        for p in [None, Some(0u8), Some(10)] {
            assert_eq!(format_duration(span_of(d), p), with_floats(d, p), "{:?} {:?}", d, p);
        }
        nanos += 1 + nanos / 7;
    }
}
