//! A cursor that walks a range of up to 2^64 integers in random order without
//! repeating a value, storing one table entry per draw.

use crate::alg::cursor_model::{advance, emitted, initial, occupant, replay, CursorState};
use core::ops::RangeInclusive;
use std::collections::HashMap;
use vstd::prelude::*;

verus! {

broadcast use vstd::std_specs::hash::group_hash_axioms;

/// Goes through a range of integers at random, without repetition.
///
/// The cursor does not draw random numbers itself: each step takes the
/// number that a random source gave for the current window.
pub struct BigRangeRandomCursor {
    /// First position still to be consumed. It lies beyond `upper_bound` once
    /// the cursor is exhausted, which takes more than 64 bits where the range
    /// ends at `u64::MAX`.
    lower_bound: u128,
    /// Last position of the range.
    upper_bound: u64,
    /// Number of values given out; a full range holds 2^64 of them.
    generated_count: u128,
    /// Content of the slots that a draw has touched.
    hashmap: HashMap<u64, u64>,
}

impl View for BigRangeRandomCursor {
    type V = CursorState;

    closed spec fn view(&self) -> CursorState {
        CursorState {
            lower: self.lower_bound as int,
            upper: self.upper_bound as int,
            generated: self.generated_count as nat,
            redirect: self.hashmap@,
        }
    }
}

impl BigRangeRandomCursor {
    /// The counters stay within what the range allows.
    pub closed spec fn wf(&self) -> bool {
        &&& self.generated_count <= self.lower_bound
        &&& self.lower_bound <= 0x1_0000_0000_0000_0000
    }

    /// A cursor over `range` that has already given out the values
    /// `preexisting`: they are replayed, in order, as the first draws.
    pub fn new(range: RangeInclusive<u64>, preexisting: &[u64]) -> (this: Self)
        requires
            preexisting@.len() < 100,
        ensures
            this.wf(),
            this@ == replay(initial(range@.start, range@.end), preexisting@),
    {
        let mut this = Self {
            lower_bound: *range.start() as u128,
            upper_bound: *range.end(),
            generated_count: 0,
            hashmap: HashMap::new(),
        };
        let ghost st0 = initial(range@.start, range@.end);
        assert(this@ == st0);
        let mut i: usize = 0;
        while i < preexisting.len()
            invariant
                this.wf(),
                i <= preexisting@.len(),
                this@ == replay(st0, preexisting@.take(i as int)),
            decreases preexisting@.len() - i,
        {
            this.next_(preexisting[i]);
            proof {
                assert(preexisting@.take(i + 1).drop_last() == preexisting@.take(i as int));
            }
            i = i + 1;
        }
        assert(preexisting@.take(i as int) == preexisting@);
        this
    }

    /// First position of the window of positions still to be consumed, or
    /// `None` once the cursor is exhausted.
    pub fn lower_bound(&self) -> (r: Option<u64>)
        requires
            self.wf(),
        ensures
            r == if self@.lower <= self@.upper {
                Some(self@.lower as u64)
            } else {
                None
            },
    {
        if self.lower_bound > self.upper_bound as u128 {
            None
        } else {
            Some(self.lower_bound as u64)
        }
    }

    /// Last position of the window.
    pub fn upper_bound(&self) -> (r: u64)
        ensures
            r == self@.upper,
    {
        self.upper_bound
    }

    /// How many values the cursor has given out.
    pub fn generated_count(&self) -> (r: u128)
        ensures
            r == self@.generated,
    {
        self.generated_count
    }

    /// Gives out the value that slot `rng_number` holds and closes the gap
    /// with the content of the first slot of the window; `None` once the
    /// cursor is exhausted.
    ///
    /// While `rng_number` is taken from the window, the value given out is a
    /// value of the range that was not given out before.
    pub fn next_(&mut self, rng_number: u64) -> (result: Option<u64>)
        requires
            old(self).wf(),
        ensures
            final(self).wf(),
            final(self)@ == advance(old(self)@, rng_number),
            result == emitted(old(self)@, rng_number),
    {
        if self.lower_bound > self.upper_bound as u128 {
            return None;
        }
        let r = rng_number;
        let lower = self.lower_bound as u64;
        let result = match self.hashmap.get(&r) {
            Some(saved) => *saved,
            None => r,
        };
        let moved = match self.hashmap.get(&lower) {
            Some(previous_range_min) => *previous_range_min,
            None => lower,
        };
        self.hashmap.insert(r, moved);
        self.generated_count = self.generated_count + 1;
        self.lower_bound = self.lower_bound + 1;
        Some(result)
    }
}

} // verus!
