//! Contracts for the standard library functions that vstd does not specify
//! and that this library calls.
use vstd::prelude::*;

verus! {

/// `String::push` appends one character to the string: the text after the
/// call is the text before it followed by `ch`, as the standard library
/// documents.
pub assume_specification[ String::push ](s: &mut String, ch: char)
    ensures
        final(s)@ == old(s)@.push(ch),
;

} // verus!
