//! Various collections and data structures, all of which are generic over allocators.
//! Many of these are slightly less efficient implementations of those in the standard library.

pub mod raw_vec;
pub mod vector;

pub use self::vector::Vector;
