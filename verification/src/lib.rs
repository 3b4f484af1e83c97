//! An entity component system together with the memory, synchronization and
//! windowing utilities that it is built from.
#![allow(dead_code)]

pub mod ecs;
pub mod memory;
pub mod util;
pub mod window;
