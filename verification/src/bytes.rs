//! Byte counts in binary units, such as `1.23KiB`.

use vstd::prelude::*;
use vstd::string::*;
use crate::binary64::{lemma_rendered_nat, nearest_even, rendered, round_to_double};
use crate::decimal::{lemma_fixed_point_shape, pow10, rendered_whole};
use vstd::arithmetic::power2::pow2;
use crate::scale::{
    clamp_precision,
    lemma_scaled_below_base,
    lemma_scaled_second_unit,
    lemma_scaled_small,
    scale,
    scaled,
    spec_clamp_precision,
};

verus! {

/// The label of the byte unit with the given index: `1024^index` bytes.
pub open spec fn byte_unit(index: nat) -> Seq<char> {
    if index == 0 {
        "iB"@
    } else if index == 1 {
        "KiB"@
    } else if index == 2 {
        "MiB"@
    } else if index == 3 {
        "GiB"@
    } else if index == 4 {
        "TiB"@
    } else if index == 5 {
        "PiB"@
    } else if index == 6 {
        "EiB"@
    } else if index == 7 {
        "ZiB"@
    } else {
        "YiB"@
    }
}

/// The label of the byte unit with the given index.
pub fn byte_unit_label(index: usize) -> (label: &'static str)
    ensures
        label@ == byte_unit(index as nat),
{
    if index == 0 {
        "iB"
    } else if index == 1 {
        "KiB"
    } else if index == 2 {
        "MiB"
    } else if index == 3 {
        "GiB"
    } else if index == 4 {
        "TiB"
    } else if index == 5 {
        "PiB"
    } else if index == 6 {
        "EiB"
    } else if index == 7 {
        "ZiB"
    } else {
        "YiB"
    }
}

/// A byte count as text: the count is divided by 1024 until it is below
/// 1024 or the largest unit is reached, and then written with the requested
/// number of decimal places, followed by the unit's label.
pub open spec fn spec_format_bytes(bytes: nat, round: Option<u8>) -> Seq<char> {
    rendered(scaled(bytes, 1024).0, spec_clamp_precision(round)) + byte_unit(scaled(bytes, 1024).1)
}

/// Renders a byte count with a binary unit, such as `1.23KiB` or `999.00iB`.
/// `round` is the number of decimal places: two where it is `None`, and at
/// most ten.
pub fn format_bytes(bytes: usize, round: Option<u8>) -> (text: String)
    ensures
        text@ == spec_format_bytes(bytes as nat, round),
{
    let (size, unit_index) = scale(bytes as u64, 1024);
    let precision: u8 = clamp_precision(round);
    let mut text = String::new();
    size.push_rendered(&mut text, precision);
    text.append(byte_unit_label(unit_index));
    assert(text@ =~= spec_format_bytes(bytes as nat, round));
    text
}

/// A count of fewer than 1024 bytes keeps the unit `iB`, and its mantissa is
/// the count itself: the text is the count, zeros in the decimal places, and
/// `iB`.
pub proof fn lemma_bytes_below_first_threshold(bytes: nat, round: Option<u8>)
    requires
        bytes < 1024,
    ensures
        scaled(bytes, 1024).1 == 0,
        scaled(bytes, 1024).0.is_nat(bytes),
        spec_format_bytes(bytes, round) == rendered_whole(bytes, spec_clamp_precision(round))
            + "iB"@,
{
    lemma_scaled_small(bytes, 1024);
    lemma_rendered_nat(scaled(bytes, 1024).0, bytes, spec_clamp_precision(round));
}

/// A count from 1024 bytes up to `1024 * 1024` has the unit `KiB`, and its
/// mantissa is the double nearest to the count divided by 1024: at least one
/// and below 1024.
pub proof fn lemma_bytes_second_unit(bytes: nat, round: Option<u8>)
    requires
        1024 <= bytes < 1_048_576,
    ensures
        scaled(bytes, 1024).1 == 1,
        scaled(bytes, 1024).0 == round_to_double(bytes, 1024),
        scaled(bytes, 1024).0.at_least(1),
        scaled(bytes, 1024).0.below(1024),
        spec_format_bytes(bytes, round) == rendered(
            round_to_double(bytes, 1024),
            spec_clamp_precision(round),
        ) + "KiB"@,
{
    lemma_scaled_second_unit(bytes, 1024);
}

/// The mantissa of a byte count is below 1024, unless the unit is the
/// largest, `YiB`.
pub proof fn lemma_bytes_mantissa_below_base(bytes: nat)
    ensures
        scaled(bytes, 1024).1 <= 8,
        byte_unit(scaled(bytes, 1024).1) != "YiB"@ ==> scaled(bytes, 1024).0.below(1024),
{
    lemma_scaled_below_base(bytes, 1024);
}

/// More than ten decimal places are never written: such a request gives what
/// a request for ten gives.
pub proof fn lemma_bytes_precision_clamped(bytes: nat, places: u8)
    requires
        places >= 10,
    ensures
        spec_format_bytes(bytes, Some(places)) == spec_format_bytes(bytes, Some(10u8)),
{
}

/// Where decimal places are written, the text holds exactly that many
/// characters between the decimal point and the unit's label, and at least
/// one digit before the point.
pub proof fn lemma_bytes_decimal_places(bytes: nat, round: Option<u8>)
    requires
        spec_clamp_precision(round) > 0,
    ensures
        ({
            let text = spec_format_bytes(bytes, round);
            let label = byte_unit(scaled(bytes, 1024).1);
            let places = spec_clamp_precision(round);
            &&& text.len() >= 1 + 1 + places + label.len()
            &&& text[text.len() - label.len() - places - 1] == '.'
            &&& text.subrange(text.len() - label.len(), text.len() as int) == label
        }),
{
    let mantissa = scaled(bytes, 1024).0;
    let places = spec_clamp_precision(round);
    let label = byte_unit(scaled(bytes, 1024).1);
    let text = spec_format_bytes(bytes, round);
    lemma_fixed_point_shape(nearest_even(mantissa.mant * pow10(places), pow2(mantissa.scale)), places);
    assert(text.subrange(text.len() - label.len(), text.len() as int) =~= label);
}

} // verus!
