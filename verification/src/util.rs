//! Small helpers on standard types.

use core::ops::RangeInclusive;
use vstd::prelude::*;

verus! {

/// `RangeInclusive::start`: the lower bound that the range was made with.
pub assume_specification<Idx>[ RangeInclusive::<Idx>::start ](r: &RangeInclusive<Idx>) -> (s: &Idx)
    ensures
        *s == r@.start,
;

/// `RangeInclusive::end`: the upper bound that the range was made with.
pub assume_specification<Idx>[ RangeInclusive::<Idx>::end ](r: &RangeInclusive<Idx>) -> (e: &Idx)
    ensures
        *e == r@.end,
;

/// The distance between the two bounds of a range of integers, whichever of
/// them is the larger.
pub open spec fn span(start: u64, end: u64) -> u64 {
    if start <= end {
        (end - start) as u64
    } else {
        (start - end) as u64
    }
}

/// Ranges that have a length.
pub trait Len<Idx> {
    fn len(&self) -> Idx;
}

impl Len<u64> for RangeInclusive<u64> {
    /// The distance between the bounds: one less than the number of integers
    /// in the range.
    fn len(&self) -> (r: u64)
        ensures
            r == span(self@.start, self@.end),
    {
        let start: u64 = *self.start();
        let end: u64 = *self.end();
        if start <= end {
            end - start
        } else {
            start - end
        }
    }
}

} // verus!
