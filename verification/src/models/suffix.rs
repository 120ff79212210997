//! A suffix of a group: a literal tail with optional numeric values.

use vstd::prelude::*;
use crate::models::numeric::Numeric;

verus! {

/// The deduplicated suffix in a [`crate::models::group::Group`].
#[derive(Debug, Clone)]
pub struct Suffix<'a> {
    /// The suffix in question
    pub suffix: &'a str,
    /// [`Numeric`] suffixes of this suffix
    pub numerics: Option<Vec<Numeric>>,
}

/// The mathematical shape of a [`Suffix`]: its text as a character
/// sequence and its optional numeric list.
#[verifier::ext_equal]
pub struct SuffixV {
    /// The literal tail (the shared stem when numerics are present).
    pub text: Seq<char>,
    /// The numeric values carried by this suffix, if any.
    pub numerics: Option<Seq<Numeric>>,
}

/// The views of a sequence of suffixes.
pub open spec fn suffixes_view<'a>(ss: Seq<Suffix<'a>>) -> Seq<SuffixV> {
    ss.map_values(|s: Suffix<'a>| s@)
}

impl<'a> View for Suffix<'a> {
    type V = SuffixV;

    open spec fn view(&self) -> SuffixV {
        SuffixV {
            text: self.suffix@,
            numerics: match self.numerics {
                Some(ns) => Some(ns@),
                None => None,
            },
        }
    }
}

impl<'a> Suffix<'a> {
    /// Create a plain suffix, without any numerics.
    pub fn simple(suffix: &'a str) -> (r: Self)
        ensures
            r@ == (SuffixV { text: suffix@, numerics: None }),
    {
        Self { suffix, numerics: None }
    }

    /// Creates a suffix with numerics.
    pub fn numeric(suffix: &'a str, numerics: Vec<Numeric>) -> (r: Self)
        ensures
            r@ == (SuffixV { text: suffix@, numerics: Some(numerics@) }),
    {
        Self { suffix, numerics: Some(numerics) }
    }
}

} // verus!
