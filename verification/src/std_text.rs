//! Specifications of the few standard-library text and integer operations
//! that the library calls and that vstd leaves unspecified.

use vstd::prelude::*;

verus! {

/// `String::push` appends one `char` to the end of the string; that is
/// all the standard documentation promises, and all that is claimed here.
pub assume_specification[ std::string::String::push ](s: &mut std::string::String, ch: char)
    ensures
        final(s)@ == old(s)@.push(ch),
;

/// `i32` clamped into its own range.
pub open spec fn clamp_i32(x: int) -> int {
    if x < i32::MIN {
        i32::MIN as int
    } else if x > i32::MAX {
        i32::MAX as int
    } else {
        x
    }
}

/// `i32::saturating_add` computes `x + y`, saturating at the numeric bounds
/// instead of overflowing, as its documentation states.
pub assume_specification[ i32::saturating_add ](x: i32, y: i32) -> (r: i32)
    ensures
        r == clamp_i32(x + y),
;

/// `i32::saturating_sub` computes `x - y`, saturating at the numeric bounds
/// instead of overflowing, as its documentation states.
pub assume_specification[ i32::saturating_sub ](x: i32, y: i32) -> (r: i32)
    ensures
        r == clamp_i32(x - y),
;

} // verus!
