//! The analytics predicate: inclusive membership of a timestamp in a
//! range. Instants are plain integer timestamps; the caller converts its
//! calendar dates to and from them.

use vstd::prelude::*;

verus! {

/// Whether `dt` lies in the inclusive range from `start` to `end`.
pub fn is_in_range(dt: i64, start: i64, end: i64) -> (r: bool)
    ensures
        r == (start <= dt && dt <= end),
{
    dt >= start && dt <= end
}

} // verus!
