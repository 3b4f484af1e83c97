//! Utilities that are not specific to an entity component system.

pub mod hex;
pub mod sync;
pub mod work_pool;
