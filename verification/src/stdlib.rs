//! Specifications for the few standard-library string operations that vstd
//! leaves unspecified. Each item here is trusted: its contract is believed,
//! not proved.
use vstd::prelude::*;

verus! {

/// Calls `String::push`, which appends one character; the contract claims
/// that the new contents are the old contents followed by `c`.
#[verifier::external_body]
pub fn push_char(s: &mut String, c: char)
    ensures
        final(s)@ == old(s)@.push(c),
{
    s.push(c);
}

} // verus!

verus! {

/// What `str::to_lowercase` returns for a string with the characters `s`:
/// its lowercase equivalent under Unicode's `Lowercase` property, context
/// rules (such as a final sigma) included.
pub uninterp spec fn lowercase(s: Seq<char>) -> Seq<char>;

/// Calls `str::to_lowercase`; the contract claims only that the result is
/// the fixed function `lowercase` of the argument's characters. What that
/// function is on given characters is left unsaid (it is Unicode's case
/// mapping).
#[verifier::external_body]
pub fn to_lowercase(s: &str) -> (r: String)
    ensures
        r@ == lowercase(s@),
{
    s.to_lowercase()
}

} // verus!

verus! {

/// What `char::is_lowercase` says of `c`: whether it has Unicode's
/// `Lowercase` property.
pub uninterp spec fn is_lower(c: char) -> bool;

/// Calls `char::is_lowercase`; the contract claims only that the answer is
/// the fixed predicate `is_lower` of `c` (Unicode's `Lowercase` property,
/// which is not written out here).
#[verifier::external_body]
pub fn is_lowercase(c: char) -> (b: bool)
    ensures
        b == is_lower(c),
{
    c.is_lowercase()
}

/// What `char::is_alphabetic` says of `c`: whether it has Unicode's
/// `Alphabetic` property.
pub uninterp spec fn is_alpha(c: char) -> bool;

/// Calls `char::is_alphabetic`; the contract claims only that the answer is
/// the fixed predicate `is_alpha` of `c` (Unicode's `Alphabetic` property,
/// which is not written out here).
#[verifier::external_body]
pub fn is_alphabetic(c: char) -> (b: bool)
    ensures
        b == is_alpha(c),
{
    c.is_alphabetic()
}

/// What `char::to_lowercase` yields for `c`: its Unicode lowercase mapping,
/// one or more characters.
pub uninterp spec fn char_lowercase(c: char) -> Seq<char>;

/// Calls `char::to_lowercase` and collects what it yields; the contract
/// claims only that the characters are the fixed mapping `char_lowercase`
/// of `c` (Unicode's case mapping, not written out here).
#[verifier::external_body]
pub fn char_to_lowercase(c: char) -> (v: Vec<char>)
    ensures
        v@ == char_lowercase(c),
{
    c.to_lowercase().collect()
}

} // verus!

verus! {

/// The code points that are `char`s: at most `0x10FFFF` and not a UTF-16
/// surrogate (`0xD800..=0xDFFF`).
pub open spec fn is_scalar_value(u: u32) -> bool {
    u <= 0x10FFFF && !(0xD800 <= u <= 0xDFFF)
}

/// Calls `char::from_u32`, which returns the `char` with code point `u`
/// when `u` is a Unicode scalar value and `None` otherwise; the contract
/// claims exactly that.
#[verifier::external_body]
pub fn char_from_u32(u: u32) -> (r: Option<char>)
    ensures
        is_scalar_value(u) ==> r == Some(u as char),
        !is_scalar_value(u) ==> r is None,
{
    char::from_u32(u)
}

} // verus!
