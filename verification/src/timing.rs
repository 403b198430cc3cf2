//! Printing durations with their digits grouped by thousands.
use num_format::{Locale, ToFormattedString};
use vstd::prelude::*;

verus! {

/// The character of the decimal digit `d`.
pub open spec fn digit_char(d: int) -> char {
    (48 + d) as char
}

/// The decimal digits of `n`.
pub open spec fn decimal_text(n: nat) -> Seq<char>
    decreases n,
{
    if n < 10 {
        seq![digit_char(n as int)]
    } else {
        decimal_text(n / 10).push(digit_char((n % 10) as int))
    }
}

/// The decimal digits of `n` with a `,` between every group of three, from
/// the right.
pub open spec fn grouped_text(n: nat) -> Seq<char>
    decreases n,
{
    if n < 1000 {
        decimal_text(n)
    } else {
        grouped_text(n / 1000) + seq![
            ',',
            digit_char((n % 1000 / 100) as int),
            digit_char((n % 100 / 10) as int),
            digit_char((n % 10) as int),
        ]
    }
}

/// `num_format`'s `to_formatted_string` with the English locale, whose
/// separator is `,` in groups of three digits: the contract claims exactly
/// that text.
#[verifier::external_body]
fn formatted_en(n: u128) -> (r: String)
    ensures
        r@ == grouped_text(n as nat),
{
    n.to_formatted_string(&Locale::en)
}

/// A duration in microseconds, written with its thousands grouped.
pub fn format_time(micros: u128) -> (r: String)
    ensures
        r@ == grouped_text(micros as nat),
{
    formatted_en(micros)
}

} // verus!
