//! Wrap-around movement of the selection cursor over the catalog.
//!
//! The interactive list keeps at most one selected index; moving past
//! either end wraps to the other.  The catalog is never empty (it
//! always holds the built-in default), so a positive length is a
//! precondition, not a runtime case.

use vstd::prelude::*;

verus! {

/// The index after a step down from `selected`, wrapping to the top.
pub fn next_index(selected: Option<usize>, len: usize) -> (r: usize)
    requires
        len > 0,
        selected matches Some(i) ==> i < len,
    ensures
        match selected {
            Some(i) => r == (if i + 1 >= len {
                0int
            } else {
                i + 1
            }),
            None => r == 0,
        },
        r < len,
{
    match selected {
        Some(i) => {
            if i >= len - 1 {
                0
            } else {
                i + 1
            }
        },
        None => 0,
    }
}

/// The index after a step up from `selected`, wrapping to the bottom.
pub fn previous_index(selected: Option<usize>, len: usize) -> (r: usize)
    requires
        len > 0,
        selected matches Some(i) ==> i < len,
    ensures
        match selected {
            Some(i) => r == (if i == 0 {
                len - 1
            } else {
                i - 1int
            }),
            None => r == 0,
        },
        r < len,
{
    match selected {
        Some(i) => {
            if i == 0 {
                len - 1
            } else {
                i - 1
            }
        },
        None => 0,
    }
}

} // verus!
