//! The escape-count policy of the Julia iteration.
//!
//! The orbit `z, z*z + c, ...` is checked against the radius before each of
//! `max_iter` steps. The count kept is the index of the last step taken:
//! `0` when the start point already lies outside, `t - 1` when check `t`
//! is the first one outside, and `max_iter - 1` when no check is.

use vstd::prelude::*;

verus! {

pub open spec fn escape_count_of(first_escape: Option<u32>, max_iter: u32) -> int {
    match first_escape {
        Some(t) => if t == 0 {
            0
        } else {
            t - 1
        },
        None => if max_iter == 0 {
            0
        } else {
            max_iter - 1
        },
    }
}

/// The iteration count of a pixel from the index of the first check at which
/// its orbit lay outside the radius, if one did within `max_iter` checks.
pub fn escape_count(first_escape: Option<u32>, max_iter: u32) -> (r: u32)
    requires
        first_escape matches Some(t) ==> t < max_iter,
    ensures
        r == escape_count_of(first_escape, max_iter),
        max_iter > 0 ==> r < max_iter,
{
    match first_escape {
        Some(t) => if t == 0 {
            0
        } else {
            t - 1
        },
        None => if max_iter == 0 {
            0
        } else {
            max_iter - 1
        },
    }
}

} // verus!
