//! Configuration struct `Format` to control number-name formatting.
use crate::languages::Language;
use vstd::prelude::*;

verus! {

/// Options controlling how a number name is rendered.
///
/// `language` selects the word-table set; the two punctuation toggles choose
/// separator characters only and never change the words themselves.
#[derive(Clone, Copy, PartialEq, Eq, Structural)]
pub struct Format {
    /// Language the number name should be formatted in.
    pub language: Language,
    /// Render a comma instead of a space between magnitude groups.
    pub use_commas: bool,
    /// Join a tens word and a trailing ones word with a dash ("twenty-three")
    /// instead of a space ("twenty three").
    pub use_dashes: bool,
}

impl Format {
    /// Return a `Format` with the default values: American English,
    /// space-separated magnitude groups, dash-joined tens compounds.
    pub fn default() -> (fmt: Format)
        ensures
            fmt.language is EnUs,
            !fmt.use_commas,
            fmt.use_dashes,
    {
        Format { language: Language::EnUs, use_commas: false, use_dashes: true }
    }
}

} // verus!
