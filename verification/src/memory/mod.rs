//! Memory management utilities: allocation requests, allocators, and containers
//! that are generic over the allocator they draw from.

pub mod allocator;
pub mod arith;
pub mod boxed;
pub mod collections;
pub mod kind;

pub use self::allocator::{Allocator, DefaultAllocator};
pub use self::boxed::AllocBox;
pub use self::collections::vector::Vector;
pub use self::kind::Kind;
