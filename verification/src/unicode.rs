//! Character classification and case mapping.
//!
//! The transforms only ever ask four questions about a character: whether it
//! is a letter, whether it is uppercase, and what its uppercase and lowercase
//! mappings are. All four answers come from the standard library's Unicode
//! tables; each is given a name here so that contracts can speak about it.

use vstd::prelude::*;

verus! {

/// Whether the Unicode tables class `c` as alphabetic, as
/// `char::is_alphabetic` answers it. The answer depends on `c` alone.
pub uninterp spec fn is_alpha(c: char) -> bool;

/// Whether the Unicode tables class `c` as uppercase, as
/// `char::is_uppercase` answers it. The answer depends on `c` alone.
pub uninterp spec fn is_upper(c: char) -> bool;

/// The uppercase mapping of `c`: the characters that `char::to_uppercase`
/// yields, in order. The mapping depends on `c` alone.
pub uninterp spec fn upper_of(c: char) -> Seq<char>;

/// The lowercase mapping of `c`: the characters that `char::to_lowercase`
/// yields, in order. The mapping depends on `c` alone.
pub uninterp spec fn lower_of(c: char) -> Seq<char>;

/// Relies on `char::is_alphabetic` from the standard library.
pub assume_specification[ char::is_alphabetic ](c: char) -> (r: bool)
    ensures
        r == is_alpha(c),
;

/// Relies on `char::is_uppercase` from the standard library.
pub assume_specification[ char::is_uppercase ](c: char) -> (r: bool)
    ensures
        r == is_upper(c),
;

/// Relies on `char::to_uppercase`: the iterator yields the uppercase mapping
/// of `c` as one or more characters.
#[verifier::external_body]
pub(crate) fn to_upper_chars(c: char) -> (r: Vec<char>)
    ensures
        r@ == upper_of(c),
        r@.len() >= 1,
{
    c.to_uppercase().collect()
}

/// Relies on `char::to_lowercase`: the iterator yields the lowercase mapping
/// of `c` as one or more characters.
#[verifier::external_body]
pub(crate) fn to_lower_chars(c: char) -> (r: Vec<char>)
    ensures
        r@ == lower_of(c),
        r@.len() >= 1,
{
    c.to_lowercase().collect()
}

} // verus!
