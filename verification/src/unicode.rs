//! The Unicode case mappings and the integer parsing of std that the mappers
//! use. Each is a trusted wrapper of one std function; what std computes is
//! named, and the wrapper's contract ties the result to that name.
use vstd::prelude::*;

use crate::text::{ascii_lower, ascii_upper, is_ascii_char, is_ascii_upper, parse_usize_spec};

verus! {

#[verifier::external_type_specification]
#[verifier::external_body]
pub struct ExParseIntError(std::num::ParseIntError);

/// Whether a character has the Unicode `Uppercase` property.
pub uninterp spec fn unicode_is_uppercase(c: char) -> bool;

/// The full Unicode uppercase mapping of a character.
pub uninterp spec fn unicode_uppercase(c: char) -> Seq<char>;

/// The full Unicode lowercase mapping of a string.
pub uninterp spec fn unicode_lowercase(s: Seq<char>) -> Seq<char>;

/// Whether every character of `s` is ASCII.
pub open spec fn all_ascii(s: Seq<char>) -> bool {
    forall|i: int| 0 <= i < s.len() ==> is_ascii_char(#[trigger] s[i])
}

/// The uppercase mapping of a character: the ASCII uppercase of an ASCII
/// character, the Unicode mapping of any other.
pub open spec fn uppercase_of(c: char) -> Seq<char> {
    if is_ascii_char(c) {
        seq![ascii_upper(c)]
    } else {
        unicode_uppercase(c)
    }
}

/// The lowercase mapping of a string: each letter lowered where the string is
/// ASCII, the Unicode mapping of any other.
pub open spec fn lowercase_of(s: Seq<char>) -> Seq<char> {
    if all_ascii(s) {
        s.map_values(|c: char| ascii_lower(c))
    } else {
        unicode_lowercase(s)
    }
}

/// `char::is_uppercase`: whether `c` has the Unicode `Uppercase` property,
/// which an ASCII character has exactly when it is a letter `A` to `Z`. Of a
/// character beyond ASCII the contract only names the property.
#[verifier::external_body]
pub(crate) fn char_is_uppercase(c: char) -> (r: bool)
    ensures
        r == unicode_is_uppercase(c),
        is_ascii_char(c) ==> r == is_ascii_upper(c),
{
    c.is_uppercase()
}

/// `char::to_uppercase`, collected into a string: the Unicode uppercase
/// mapping of `c`, which std documents as one or more characters; for an ASCII
/// character it is that character in ASCII uppercase.
#[verifier::external_body]
pub(crate) fn char_to_uppercase(c: char) -> (r: String)
    ensures
        r@ == unicode_uppercase(c),
        r@.len() >= 1,
        is_ascii_char(c) ==> r@ == seq![ascii_upper(c)],
{
    c.to_uppercase().collect()
}

/// `str::to_lowercase`: the Unicode lowercase mapping of `s`, which for a
/// string of ASCII characters lowers each letter `A` to `Z` and keeps the rest.
/// Of other strings the contract only names the mapping.
#[verifier::external_body]
pub(crate) fn str_to_lowercase(s: &str) -> (r: String)
    ensures
        r@ == unicode_lowercase(s@),
        (forall|i: int| 0 <= i < s@.len() ==> is_ascii_char(#[trigger] s@[i])) ==> r@
            == s@.map_values(|c: char| ascii_lower(c)),
{
    s.to_lowercase()
}

/// `usize::from_str`: succeeds exactly on an optional `+` followed by one or
/// more decimal digits whose value fits in a `usize`, and gives that value.
#[verifier::external_body]
pub(crate) fn parse_usize(s: &str) -> (r: Result<usize, std::num::ParseIntError>)
    ensures
        r is Ok <==> parse_usize_spec(s@) is Some,
        r matches Ok(n) ==> parse_usize_spec(s@) == Some(n),
{
    s.parse::<usize>()
}

} // verus!
