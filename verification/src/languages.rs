//! The languages this library can render number names in.
use vstd::prelude::*;

pub mod en_us;

verus! {

/// List of the available languages provided by this library.
#[derive(Clone, Copy, PartialEq, Eq, Structural)]
pub enum Language {
    /// English (generic)
    En,
    /// American English
    EnUs,
}

} // verus!
