//! Contracts for the methods of `String` that the escaper calls and for
//! which the verifier's library has none.
use vstd::prelude::*;
use std::collections::TryReserveError;

verus! {

/// `String::push` appends the character to the end of the string.
pub assume_specification[ String::push ](s: &mut String, ch: char)
    ensures
        final(s)@ == old(s)@.push(ch),
;

/// `String::try_reserve` may change the capacity of the string and leaves
/// its contents as they are, whether it succeeds or not.
pub assume_specification[ String::try_reserve ](s: &mut String, additional: usize) -> (r: Result<
    (),
    TryReserveError,
>)
    ensures
        final(s)@ == old(s)@,
;

} // verus!
