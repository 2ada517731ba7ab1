//! Contracts for functions of the standard library that the crate calls.

use vstd::prelude::*;
use vstd::utf8::*;

verus! {

/// `String::truncate` cuts the string's UTF-8 encoding down to its first
/// `new_len` bytes, and leaves a string that is not longer than that as it
/// is. It panics when the cut would split a character, which the
/// precondition rules out.
pub assume_specification[ String::truncate ](s: &mut String, new_len: usize)
    requires
        new_len <= encode_utf8(old(s)@).len() ==> is_char_boundary(
            encode_utf8(old(s)@),
            new_len as int,
        ),
    ensures
        new_len <= encode_utf8(old(s)@).len() ==> encode_utf8(final(s)@) == encode_utf8(
            old(s)@,
        ).subrange(0, new_len as int),
        new_len > encode_utf8(old(s)@).len() ==> final(s)@ == old(s)@,
;

/// `String::with_capacity` returns an empty string. It panics when asked
/// for more than `isize::MAX` bytes, which the precondition rules out.
pub assume_specification[ String::with_capacity ](capacity: usize) -> (s: String)
    requires
        capacity <= isize::MAX,
    ensures
        s@ == Seq::<char>::empty(),
;

} // verus!
