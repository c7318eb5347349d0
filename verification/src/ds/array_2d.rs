//! Indices into arrays of several dimensions that are stored as one run of
//! cells.

use vstd::prelude::*;

verus! {

/// An index with one coordinate per axis.
#[derive(Clone, Copy, Debug, PartialEq)]
pub struct MultiIndex<const N: usize> {
    axis: [usize; N],
}

/// An index into a two-dimensional array.
pub type Index2D = MultiIndex<2>;

/// The sum over the first `terms` axes, counted from the last one, of the
/// coordinate times the extent that the array has along the axis of the same
/// rank counted from the first: `axis[N-1] * dims[0] + axis[N-2] * dims[1]`
/// and so on.
pub open spec fn weighted_sum(axis: Seq<usize>, dims: Seq<usize>, terms: nat) -> int
    decreases terms,
{
    if terms == 0 {
        0
    } else {
        weighted_sum(axis, dims, (terms - 1) as nat) + axis[axis.len() - terms] * dims[terms - 1]
    }
}

/// The cell of the index `axis` in an array with the extents `dims`: all
/// coordinates but the first weighted as in `weighted_sum`, plus the first.
/// In two dimensions this is `width * y + x`.
pub open spec fn linear_index(axis: Seq<usize>, dims: Seq<usize>) -> int {
    weighted_sum(axis, dims, (axis.len() - 1) as nat) + axis[0]
}

/// The terms of a weighted sum are not negative, so the sum only grows.
pub proof fn lemma_weighted_sum_grows(axis: Seq<usize>, dims: Seq<usize>, fewer: nat, terms: nat)
    requires
        fewer <= terms,
    ensures
        weighted_sum(axis, dims, fewer) <= weighted_sum(axis, dims, terms),
    decreases terms,
{
    if fewer < terms {
        lemma_weighted_sum_grows(axis, dims, fewer, (terms - 1) as nat);
        assert(axis[axis.len() - terms] * dims[terms - 1] >= 0) by (nonlinear_arith);
    }
}

impl<const N: usize> MultiIndex<N> {
    /// The coordinates, first axis first.
    pub closed spec fn coordinates(&self) -> Seq<usize> {
        self.axis@
    }

    /// The cell of this index in an array with the extents `axis_dimensions`,
    /// stored row after row.
    pub fn lin_index(&self, axis_dimensions: [usize; N]) -> (cell: usize)
        requires
            N > 0,
            linear_index(self.coordinates(), axis_dimensions@) <= usize::MAX,
        ensures
            cell == linear_index(self.coordinates(), axis_dimensions@),
    {
        let mut first_part: usize = 0;
        let mut i: usize = 0;
        while i < N - 1
            invariant
                N > 0,
                i <= N - 1,
                self.axis@.len() == N,
                axis_dimensions@.len() == N,
                first_part == weighted_sum(self.axis@, axis_dimensions@, i as nat),
                linear_index(self.axis@, axis_dimensions@) <= usize::MAX,
            decreases N - 1 - i,
        {
            proof {
                lemma_weighted_sum_grows(
                    self.axis@,
                    axis_dimensions@,
                    (i + 1) as nat,
                    (N - 1) as nat,
                );
                assert(self.axis@[N - 1 - i] * axis_dimensions@[i as int] >= 0)
                    by (nonlinear_arith);
            }
            first_part = first_part + self.axis[N - 1 - i] * axis_dimensions[i];
            i = i + 1;
        }
        first_part + self.axis[0]
    }

    /// Moves one step along every axis at once.
    pub fn next(&mut self)
        requires
            forall|i: int| 0 <= i < N ==> old(self).coordinates()[i] < usize::MAX,
        ensures
            final(self).coordinates().len() == N,
            forall|i: int|
                0 <= i < N ==> final(self).coordinates()[i] == old(self).coordinates()[i] + 1,
    {
        let mut i: usize = 0;
        while i < N
            invariant
                i <= N,
                self.coordinates().len() == N,
                forall|j: int|
                    0 <= j < i ==> self.coordinates()[j] == old(self).coordinates()[j] + 1,
                forall|j: int| i <= j < N ==> self.coordinates()[j] == old(self).coordinates()[j],
                forall|j: int| 0 <= j < N ==> old(self).coordinates()[j] < usize::MAX,
            decreases N - i,
        {
            let moved = self.axis[i] + 1;
            self.axis[i] = moved;
            i = i + 1;
        }
    }
}

impl MultiIndex<2> {
    /// The index of column `x` in row `y`.
    pub fn from(x: usize, y: usize) -> (r: Self)
        ensures
            r.coordinates() == seq![x, y],
    {
        Self { axis: [x, y] }
    }

    /// The column.
    pub fn x(&self) -> (x: usize)
        ensures
            x == self.coordinates()[0],
    {
        self.axis[0]
    }

    /// The row.
    pub fn y(&self) -> (y: usize)
        ensures
            y == self.coordinates()[1],
    {
        self.axis[1]
    }
}

} // verus!
