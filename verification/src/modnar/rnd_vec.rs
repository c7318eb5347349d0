//! A vector that elements are picked from at random.

use crate::modnar::{mix2_64_spec, Generator, Modnar, ModnarView};
use vstd::prelude::*;

verus! {

/// A vector together with the random source that picks from it.
///
/// Picking takes the index that the source's draw over `select_range` came
/// to; turning a raw word into that draw is left to the caller.
pub struct RndVec<T> {
    base: Vec<T>,
    rnd: Modnar,
}

impl<T> RndVec<T> {
    /// The elements, in order.
    pub closed spec fn elements(&self) -> Seq<T> {
        self.base@
    }

    /// The state of the random source.
    pub closed spec fn source(&self) -> ModnarView {
        self.rnd@
    }

    /// An empty vector with a source seeded from the wall clock, or `None`
    /// where the clock gives no seed.
    pub fn new() -> (r: Option<Self>)
        ensures
            r matches Some(v) ==> {
                &&& v.elements() == Seq::<T>::empty()
                &&& v.source().generator == Generator::Rng
                &&& exists|secs: u64, nanos: u32|
                    nanos < 1_000_000_000 && v.source().seed == #[trigger] mix2_64_spec(
                        secs,
                        nanos as u64,
                    )
            },
    {
        Self::for_source(Modnar::new_rng())
    }

    /// An empty vector that picks with the source `rnd`, or `None` where
    /// there is no source.
    pub fn for_source(rnd: Option<Modnar>) -> (r: Option<Self>)
        ensures
            match rnd {
                Some(m) => r matches Some(v) && v.elements() == Seq::<T>::empty() && v.source()
                    == m@,
                None => r.is_none(),
            },
    {
        match rnd {
            Some(rnd) => Some(Self::with_source(rnd)),
            None => None,
        }
    }

    /// An empty vector that picks with the source `rnd`.
    pub fn with_source(rnd: Modnar) -> (r: Self)
        ensures
            r.elements() == Seq::<T>::empty(),
            r.source() == rnd@,
    {
        Self { base: Vec::<T>::new(), rnd: rnd }
    }

    /// The number of elements.
    pub fn len(&self) -> (n: usize)
        ensures
            n == self.elements().len(),
    {
        self.base.len()
    }

    /// Appends an element.
    pub fn push(&mut self, value: T)
        ensures
            final(self).elements() == old(self).elements().push(value),
            final(self).source() == old(self).source(),
    {
        self.base.push(value);
    }

    /// The bounds, both inclusive, of the draw that picks an element: from 0
    /// to the last index. For an empty vector the upper bound wraps around.
    pub fn select_range(&self) -> (range: (u64, u64))
        ensures
            range.0 == 0,
            self.elements().len() > 0 ==> range.1 == self.elements().len() - 1,
            self.elements().len() == 0 ==> range.1 == usize::MAX,
    {
        (0, self.base.len().wrapping_sub(1) as u64)
    }

    /// Steps the random source and gives out its next word.
    pub fn next_word_raw(&mut self) -> (word: u64)
        requires
            old(self).source().generator != Generator::Dummy,
        ensures
            final(self).elements() == old(self).elements(),
            final(self).source().generator == old(self).source().generator,
            final(self).source().seed == Modnar::next_seed(old(self).source()),
            word == Modnar::next_word(old(self).source()),
    {
        self.rnd.next_word_raw()
    }

    /// The element that the draw `rnd_idx` picks.
    pub fn select(&self, rnd_idx: usize) -> (r: &T)
        requires
            rnd_idx < self.elements().len(),
        ensures
            *r == self.elements()[rnd_idx as int],
    {
        &self.base[rnd_idx]
    }

    /// The element that the draw `rnd_idx` picks, for changing it in place.
    pub fn select_mut(&mut self, rnd_idx: usize) -> (r: &mut T)
        requires
            rnd_idx < old(self).elements().len(),
        ensures
            *r == old(self).elements()[rnd_idx as int],
            final(self).elements() == old(self).elements().update(rnd_idx as int, *final(r)),
            final(self).source() == old(self).source(),
    {
        &mut self.base[rnd_idx]
    }
}

impl<T> core::ops::Deref for RndVec<T> where T: Default {
    type Target = Vec<T>;

    /// The elements as a vector.
    fn deref(&self) -> (r: &Vec<T>)
        ensures
            r@ == self.elements(),
    {
        &self.base
    }
}

} // verus!
