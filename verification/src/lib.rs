//! Building blocks for walking a huge space of element combinations at random
//! without visiting any candidate twice: an indexer that converts between a
//! combination and its lexicographic rank, and a cursor that yields every
//! integer of a range exactly once using memory proportional to the number of
//! draws only.

pub mod alg;
pub mod ds;
pub mod modnar;
pub mod util;
