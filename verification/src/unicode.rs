//! What the standard library knows of characters beyond ASCII.
//!
//! The two functions specified here are believed, not proved: their answers
//! come from the tables of the Unicode Character Database that the standard
//! library carries. Nothing is claimed of those tables; each answer only
//! gets a name, so that the rest of the crate can speak of it.
use vstd::prelude::*;

verus! {

/// Whether `c` has the Unicode property Alphabetic.
pub uninterp spec fn unicode_alphabetic(c: char) -> bool;

/// Whether `c` has the Unicode property White_Space.
pub uninterp spec fn unicode_whitespace(c: char) -> bool;

/// `char::is_alphabetic` of the standard library: true exactly for the
/// characters with the Unicode property Alphabetic. The property is a table
/// of the Unicode Character Database, so the contract only names it.
pub assume_specification[ char::is_alphabetic ](c: char) -> (alphabetic: bool)
    ensures
        alphabetic == unicode_alphabetic(c),
;

/// `char::is_whitespace` of the standard library: true exactly for the
/// characters with the Unicode property White_Space, which the contract
/// only names.
pub assume_specification[ char::is_whitespace ](c: char) -> (whitespace: bool)
    ensures
        whitespace == unicode_whitespace(c),
;

} // verus!
