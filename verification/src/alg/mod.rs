//! Combinatorial indexing and the no-repeat range cursor.

pub mod big_range_random_cursor;
pub mod bignum;
pub mod binomial;
pub mod combinations;
pub mod cursor_model;
pub mod ranking;
