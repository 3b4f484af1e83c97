//! Additional synchronization primitives over those in the standard library.

pub mod rw_spinlock;

pub use self::rw_spinlock::RwSpinLock;
