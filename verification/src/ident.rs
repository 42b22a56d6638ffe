//! Identifiers and literal texts, held as `ecow::EcoString`.

use ecow::EcoString;
use vstd::prelude::*;

verus! {

/// `ecow::EcoString`, the string that carries names and literals. Nothing of
/// its inside is known here.
#[verifier::external_type_specification]
#[verifier::external_body]
pub struct ExEcoString(EcoString);

/// The characters that an `EcoString` holds: what `EcoString::as_str` shows.
pub uninterp spec fn text_of(s: EcoString) -> Seq<char>;

/// `EcoString::as_str` gives the whole content as a string slice.
pub assume_specification<'a>[ EcoString::as_str ](s: &'a EcoString) -> (r: &'a str)
    ensures
        r@ == text_of(*s),
;

/// `EcoString::from`, for a string slice, makes a string that holds the
/// characters of the slice.
#[verifier::external_body]
pub(crate) fn from_slice(s: &str) -> (r: EcoString)
    ensures
        text_of(r) == s@,
{
    EcoString::from(s)
}

/// `EcoString::clone` gives a string that holds the same characters.
pub assume_specification[ <EcoString as Clone>::clone ](s: &EcoString) -> (r: EcoString)
    ensures
        text_of(r) == text_of(*s),
;

/// `EcoString::eq` tells whether the two strings hold the same characters:
/// it compares them as string slices.
pub assume_specification[ <EcoString as PartialEq>::eq ](a: &EcoString, b: &EcoString) -> (r: bool)
    ensures
        r == (text_of(*a) == text_of(*b)),
;

} // verus!
