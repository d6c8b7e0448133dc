//! The object pool whose guards mediate access to a slot: [`Pool`] and [`PoolGuard`].
pub use crate::mem_pool::{Pool, PoolGuard};
