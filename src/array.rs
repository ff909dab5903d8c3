//! Indexing helpers that take signed positions.

use vstd::prelude::*;

verus! {

/// The position in a sequence of length `len` that the signed `index` names:
/// itself when non-negative, counted from the back when negative.
pub open spec fn signed_pos(len: int, index: int) -> int {
    if index < 0 {
        len + index
    } else {
        index
    }
}

/// Whether `index` names an element of a sequence of length `len`.
pub open spec fn signed_in_range(len: int, index: int) -> bool {
    0 <= signed_pos(len, index) < len && (index < 0 ==> -index < len)
}

/// Gets the element that `index` names; a negative index counts from the back.
pub fn gi<'a, T>(slice: &'a [T], index: isize) -> (r: &'a T)
    requires
        signed_in_range(slice@.len() as int, index as int),
    ensures
        *r == slice@[signed_pos(slice@.len() as int, index as int)],
{
    if index < 0 {
        let abs: usize = (-(index as i128)) as usize;
        &slice[slice.len() - abs]
    } else {
        &slice[index as usize]
    }
}

/// Sets the element that `index` names; a negative index counts from the back.
pub fn si<T>(slice: &mut [T], index: isize, value: T)
    requires
        signed_in_range(old(slice)@.len() as int, index as int),
    ensures
        final(slice)@ == old(slice)@.update(signed_pos(old(slice)@.len() as int, index as int), value),
{
    if index < 0 {
        let abs: usize = (-(index as i128)) as usize;
        let pos: usize = slice.len() - abs;
        slice[pos] = value;
    } else {
        slice[index as usize] = value;
    }
}

/// The part of `slice` from `start` up to `end`, both given as `i32`.
pub fn gs<'a, T>(slice: &'a [T], start: i32, end: i32) -> (r: &'a [T])
    requires
        0 <= start <= end <= slice@.len(),
    ensures
        r@ == slice@.subrange(start as int, end as int),
{
    vstd::slice::slice_subrange(slice, start as usize, end as usize)
}

} // verus!
