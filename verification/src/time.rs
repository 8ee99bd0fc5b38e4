//! Time spans as text: scaled to one unit, or as fixed clock-like fields.

use vstd::prelude::*;
use vstd::string::*;
use crate::binary64::{
    double_div,
    lemma_div_at_least,
    lemma_seconds_at_least,
    rendered,
    seconds_as_double,
    Binary64,
};
use crate::decimal::{push_rendered_whole, push_zero_padded, rendered_whole, zero_padded};
use crate::scale::{clamp_precision, spec_clamp_precision};
use crate::span::Span;

verus! {

/// The clock-like rendering of a span of `secs` whole seconds and `nanos`
/// nanoseconds beyond them.
///
/// From one hour on: hours, minutes and seconds. From one minute on: minutes
/// and seconds. Below that: seconds and milliseconds. Every field has at least
/// two digits (milliseconds three). The minutes and seconds fields hold the
/// whole span in that unit: they are not reduced modulo sixty.
pub open spec fn spec_format_better_duration(secs: nat, nanos: nat) -> Seq<char> {
    let min = secs / 60;
    let h = min / 60;
    if h > 0 {
        zero_padded(h, 2) + "h "@ + zero_padded(min, 2) + "m "@ + zero_padded(secs, 2) + "s"@
    } else if min > 0 {
        zero_padded(min, 2) + "m "@ + zero_padded(secs, 2) + "s"@
    } else {
        zero_padded(secs, 2) + "s "@ + zero_padded(nanos / 1_000_000, 3) + "ms"@
    }
}

/// Renders a span as fixed fields: `01h 30m 45s`, `05m 12s` or `00s 123ms`.
pub fn format_better_duration(duration: Span) -> (text: String)
    ensures
        text@ == spec_format_better_duration(
            duration.as_secs() as nat,
            duration.subsec_nanos() as nat,
        ),
{
    let sec: u64 = duration.as_secs();
    let min: u64 = sec / 60;
    let h: u64 = min / 60;
    let mut text = String::new();
    if h > 0 {
        push_zero_padded(&mut text, h as u128, 2);
        text.append("h ");
        push_zero_padded(&mut text, min as u128, 2);
        text.append("m ");
        push_zero_padded(&mut text, sec as u128, 2);
        text.append("s");
    } else if min > 0 {
        push_zero_padded(&mut text, min as u128, 2);
        text.append("m ");
        push_zero_padded(&mut text, sec as u128, 2);
        text.append("s");
    } else {
        let ms: u32 = duration.subsec_millis();
        push_zero_padded(&mut text, sec as u128, 2);
        text.append("s ");
        push_zero_padded(&mut text, ms as u128, 3);
        text.append("ms");
    }
    assert(text@ =~= spec_format_better_duration(
        duration.as_secs() as nat,
        duration.subsec_nanos() as nat,
    ));
    text
}

/// The scaled rendering of a span of `secs` whole seconds and `nanos`
/// nanoseconds beyond them.
///
/// The unit is the largest of hours, minutes, seconds, milliseconds,
/// microseconds and nanoseconds of which the span holds at least one. Hours,
/// minutes and seconds show the span as a fraction in that unit: the seconds
/// as a double, divided by sixty for the minutes and by sixty again for the
/// hours. The smaller units show the whole number of units in the span. An
/// empty span is `0ns`.
pub open spec fn spec_format_duration(secs: nat, nanos: nat, round: Option<u8>) -> Seq<char> {
    let places = spec_clamp_precision(round);
    let sec = seconds_as_double(secs, nanos);
    let min = double_div(sec, 60);
    let h = double_div(min, 60);
    if secs / 60 / 60 > 0 {
        rendered(h, places) + "h"@
    } else if secs / 60 > 0 {
        rendered(min, places) + "min"@
    } else if secs > 0 {
        rendered(sec, places) + "s"@
    } else if nanos / 1_000_000 > 0 {
        rendered_whole(nanos / 1_000_000, places) + "ms"@
    } else if nanos / 1_000 > 0 {
        rendered_whole(nanos / 1_000, places) + "μs"@
    } else if nanos > 0 {
        rendered_whole(nanos, places) + "ns"@
    } else {
        "0ns"@
    }
}

/// From one hour on, the hours shown are at least one; from one minute on,
/// so are the minutes; from one second on, so are the seconds.
pub proof fn lemma_duration_mantissa_at_least_one(secs: nat, nanos: nat)
    requires
        secs <= u64::MAX,
        nanos < 1_000_000_000,
    ensures
        secs >= 1 ==> seconds_as_double(secs, nanos).at_least(1),
        secs >= 60 ==> double_div(seconds_as_double(secs, nanos), 60).at_least(1),
        secs >= 3600 ==> double_div(double_div(seconds_as_double(secs, nanos), 60), 60).at_least(
            1,
        ),
{
    let sec = seconds_as_double(secs, nanos);
    let min = double_div(sec, 60);
    if secs >= 1 {
        lemma_seconds_at_least(secs, nanos, 1);
    }
    if secs >= 60 {
        lemma_seconds_at_least(secs, nanos, 60);
        lemma_div_at_least(sec, 60, 1);
    }
    if secs >= 3600 {
        lemma_seconds_at_least(secs, nanos, 3600);
        lemma_div_at_least(sec, 60, 60);
        lemma_div_at_least(min, 60, 1);
    }
}

/// Renders a span in the largest unit of which it holds at least one, such as
/// `1.50min` or `500.00ms`. `round` is the number of decimal places: two where
/// it is `None`, and at most ten.
pub fn format_duration(duration: Span, round: Option<u8>) -> (text: String)
    ensures
        text@ == spec_format_duration(duration.as_secs() as nat, duration.subsec_nanos() as nat, round),
{
    let secs: u64 = duration.as_secs();
    let nanos: u32 = duration.subsec_nanos();
    let precision: u8 = clamp_precision(round);
    let mut text = String::new();
    if secs > 0 {
        let sec: Binary64 = Binary64::from_seconds(secs, nanos);
        if secs / 60 / 60 > 0 {
            proof {
                lemma_seconds_at_least(secs as nat, nanos as nat, 3600);
                lemma_seconds_at_least(secs as nat, nanos as nat, 60);
                lemma_div_at_least(sec@, 60, 60);
            }
            let min: Binary64 = sec.div(60);
            let h: Binary64 = min.div(60);
            h.push_rendered(&mut text, precision);
            text.append("h");
        } else if secs / 60 > 0 {
            let min: Binary64 = sec.div(60);
            min.push_rendered(&mut text, precision);
            text.append("min");
        } else {
            sec.push_rendered(&mut text, precision);
            text.append("s");
        }
    } else if nanos / 1_000_000 > 0 {
        push_rendered_whole(&mut text, (nanos / 1_000_000) as u64, precision);
        text.append("ms");
    } else if nanos / 1_000 > 0 {
        push_rendered_whole(&mut text, (nanos / 1_000) as u64, precision);
        text.append("μs");
    } else if nanos > 0 {
        push_rendered_whole(&mut text, nanos as u64, precision);
        text.append("ns");
    } else {
        text.append("0ns");
    }
    assert(text@ =~= spec_format_duration(duration.as_secs() as nat, duration.subsec_nanos() as nat, round));
    text
}

} // verus!
