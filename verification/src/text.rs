//! The boundary with `easy_strings`: names are held as `EZString`, a
//! reference-counted immutable string that is cheap to duplicate.
//!
//! Everything in this file is believed, not proved: the contracts say what
//! the source of `easy_strings` shows of each function. The two types of
//! `std::fmt` are declared for the debug representations of tags and
//! roles, of which nothing is claimed.

use easy_strings::EZString;
use vstd::prelude::*;

verus! {

/// `easy_strings::EZString`, carried through as an opaque value.
#[verifier::external_type_specification]
#[verifier::external_body]
pub struct ExEZString(easy_strings::EZString);

/// `std::fmt::Formatter`, which a debug representation is written to.
#[verifier::external_type_specification]
#[verifier::external_body]
pub struct ExFormatter<'a>(std::fmt::Formatter<'a>);

/// `std::fmt::Error`, with which writing to a formatter fails.
#[verifier::external_type_specification]
#[verifier::external_body]
pub struct ExFmtError(std::fmt::Error);

/// The characters that an `EZString` holds: those of the string in its
/// buffer.
pub uninterp spec fn shared_text(s: EZString) -> Seq<char>;

/// `EZString::from(String)`: wraps the string in a fresh reference-counted
/// cell; the characters are those of the argument.
#[verifier::external_body]
pub(crate) fn share(s: String) -> (r: EZString)
    ensures
        shared_text(r) == s@,
{
    EZString::from(s)
}

/// `EZString::clone`: a second handle on the same buffer, hence the same
/// characters.
#[verifier::external_body]
pub(crate) fn share_again(s: &EZString) -> (r: EZString)
    ensures
        shared_text(r) == shared_text(*s),
{
    s.clone()
}

/// `EZString::deref`: borrows the underlying string.
#[verifier::external_body]
pub(crate) fn shared_string(s: &EZString) -> (r: &String)
    ensures
        r@ == shared_text(*s),
{
    s
}

/// `EZString::eq` against a string slice: compares the underlying strings,
/// character by character.
#[verifier::external_body]
pub(crate) fn shared_is(s: &EZString, other: &str) -> (r: bool)
    ensures
        r == (shared_text(*s) == other@),
{
    *s == *other
}

} // verus!
