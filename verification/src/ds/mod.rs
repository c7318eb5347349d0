//! Plain data structures.

pub mod array_2d;
