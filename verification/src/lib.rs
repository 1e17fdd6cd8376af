//! English number names: render an unsigned integer as its written-out
//! cardinal name ("one hundred twenty-three") or ordinal name
//! ("one hundred twenty-third").
//!
//! The order-name table reaches up to the quintillions, which covers every
//! `u64` magnitude, so both renderings are total over the whole input
//! domain; see `languages::en_us::lemma_u64_within_orders`.
use vstd::prelude::*;

pub mod format;
pub mod languages;

verus! {

use crate::format::Format;
use crate::languages::Language;
use crate::languages::en_us;

/// Return the cardinal number name for a given number with the default
/// format.
pub fn cardinal(num: u64) -> (r: String)
    ensures
        r@ == en_us::cardinal_name(num as int, false, true),
{
    cardinal_with_fmt(num, Format::default())
}

/// Return the cardinal number name for a given number with a given format.
///
/// A language without a word-table set of its own falls back to the
/// American English tables.
pub fn cardinal_with_fmt(num: u64, fmt: Format) -> (r: String)
    ensures
        r@ == en_us::cardinal_name(num as int, fmt.use_commas, fmt.use_dashes),
{
    match fmt.language {
        Language::En => en_us::cardinal_with_format(num, fmt),
        Language::EnUs => en_us::cardinal_with_format(num, fmt),
    }
}

/// Return the ordinal number name for a given number with the default
/// format.
pub fn ordinal(num: u64) -> (r: String)
    ensures
        r@ == en_us::ordinal_name(num as int, false, true),
{
    ordinal_with_fmt(num, Format::default())
}

/// Return the ordinal number name for a given number with a given format.
///
/// A language without a word-table set of its own falls back to the
/// American English tables.
pub fn ordinal_with_fmt(num: u64, fmt: Format) -> (r: String)
    ensures
        r@ == en_us::ordinal_name(num as int, fmt.use_commas, fmt.use_dashes),
{
    match fmt.language {
        Language::En => en_us::ordinal_with_format(num, fmt),
        Language::EnUs => en_us::ordinal_with_format(num, fmt),
    }
}

} // verus!
