//! An entity component system. The `World` manages entities and component data.

use vstd::prelude::*;

pub mod blob;
pub mod block;
pub mod component;
pub mod component_list;
pub mod component_managers;
pub mod component_map;
pub mod entity;
pub mod iter;
pub mod job_system;
pub mod mapper;
pub mod offset_table;
pub mod placement;
pub mod query;
pub mod simple;
pub mod slab;
pub mod slots;
pub mod state;
pub mod systems;
pub mod vec_managers;
pub mod vec_mapper;
pub mod work_pool;
pub mod work_queue;
pub mod world;

pub use self::component::Component;
pub use self::entity::Entity;
pub use self::world::{World, WorldBuilder};

verus! {

/// Maximum guaranteed component alignment, and the unit that component data is
/// measured in.
pub const COMPONENT_ALIGN: usize = 16;

/// Size in bytes of a small block.
pub const SMALL_SIZE: usize = 512;

/// Size in bytes of a medium block.
pub const MEDIUM_SIZE: usize = 2048;

/// Size in bytes of a large block.
pub const LARGE_SIZE: usize = 8192;

} // verus!
