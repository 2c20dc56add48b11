//! What the library needs of `String` beyond vstd.

use vstd::prelude::*;

verus! {

/// Relies on `String::push`: the character is added at the end.
pub assume_specification[ std::string::String::push ](s: &mut String, ch: char)
    ensures
        final(s)@ == old(s)@.push(ch),
;

} // verus!
