//! Plain counts in decimal units, such as `1.23K`.

use vstd::prelude::*;
use vstd::string::*;
use crate::binary64::{lemma_rendered_nat, rendered, round_to_double};
use crate::decimal::rendered_whole;
use crate::scale::{
    clamp_precision,
    lemma_scaled_below_base,
    lemma_scaled_second_unit,
    lemma_scaled_small,
    scale,
    scaled,
    spec_clamp_precision,
};

verus! {

/// The label of the count unit with the given index: `1000^index`. The first
/// unit has no label.
pub open spec fn count_unit(index: nat) -> Seq<char> {
    if index == 0 {
        ""@
    } else if index == 1 {
        "K"@
    } else if index == 2 {
        "M"@
    } else if index == 3 {
        "B"@
    } else if index == 4 {
        "T"@
    } else if index == 5 {
        "P"@
    } else if index == 6 {
        "E"@
    } else if index == 7 {
        "Z"@
    } else {
        "Y"@
    }
}

/// The label of the count unit with the given index.
pub fn count_unit_label(index: usize) -> (label: &'static str)
    ensures
        label@ == count_unit(index as nat),
{
    if index == 0 {
        ""
    } else if index == 1 {
        "K"
    } else if index == 2 {
        "M"
    } else if index == 3 {
        "B"
    } else if index == 4 {
        "T"
    } else if index == 5 {
        "P"
    } else if index == 6 {
        "E"
    } else if index == 7 {
        "Z"
    } else {
        "Y"
    }
}

/// A count as text: the count is divided by 1000 until it is below 1000 or
/// the largest unit is reached, and then written with the requested number
/// of decimal places, followed by the unit's label.
pub open spec fn spec_format_usize(number: nat, round: Option<u8>) -> Seq<char> {
    rendered(scaled(number, 1000).0, spec_clamp_precision(round)) + count_unit(
        scaled(number, 1000).1,
    )
}

/// Renders a count with a decimal unit, such as `1.23K` or `999.00`. `round`
/// is the number of decimal places: two where it is `None`, and at most ten.
pub fn format_usize(number: usize, round: Option<u8>) -> (text: String)
    ensures
        text@ == spec_format_usize(number as nat, round),
{
    let (mantissa, unit_index) = scale(number as u64, 1000);
    let precision: u8 = clamp_precision(round);
    let mut text = String::new();
    mantissa.push_rendered(&mut text, precision);
    text.append(count_unit_label(unit_index));
    assert(text@ =~= spec_format_usize(number as nat, round));
    text
}

/// A count below a thousand has no label, and its mantissa is the count
/// itself: the text is the count with zeros in the decimal places.
pub proof fn lemma_count_below_first_threshold(number: nat, round: Option<u8>)
    requires
        number < 1000,
    ensures
        scaled(number, 1000).1 == 0,
        scaled(number, 1000).0.is_nat(number),
        spec_format_usize(number, round) == rendered_whole(number, spec_clamp_precision(round)),
{
    lemma_scaled_small(number, 1000);
    lemma_rendered_nat(scaled(number, 1000).0, number, spec_clamp_precision(round));
    reveal_strlit("");
    assert(""@ =~= Seq::<char>::empty());
}

/// The mantissa of a count is below a thousand, unless the unit is the
/// largest, `Y`.
pub proof fn lemma_count_mantissa_below_base(number: nat)
    ensures
        scaled(number, 1000).1 <= 8,
        count_unit(scaled(number, 1000).1) != "Y"@ ==> scaled(number, 1000).0.below(1000),
{
    lemma_scaled_below_base(number, 1000);
}

/// A count from a thousand up to a million has the unit `K`, and its
/// mantissa is the double nearest to a thousandth of the count: at least one
/// and below a thousand.
pub proof fn lemma_count_thousands(number: nat, round: Option<u8>)
    requires
        1000 <= number < 1_000_000,
    ensures
        scaled(number, 1000).1 == 1,
        scaled(number, 1000).0 == round_to_double(number, 1000),
        scaled(number, 1000).0.at_least(1),
        scaled(number, 1000).0.below(1000),
        spec_format_usize(number, round) == rendered(
            round_to_double(number, 1000),
            spec_clamp_precision(round),
        ) + "K"@,
{
    lemma_scaled_second_unit(number, 1000);
}

} // verus!
