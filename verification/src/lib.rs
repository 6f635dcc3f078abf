//! Verified shape, layout, indexing and random-number logic of an interval
//! array library.

pub mod bool_array;
pub mod broadcasting;
pub mod compare;
pub mod index;
pub mod layout;
pub mod manip;
pub mod parallel;
pub mod random;
pub mod shape;
