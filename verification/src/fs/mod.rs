//! Block devices, the cache of their blocks, and the allocation bitmap of
//! the file system.
pub mod bitmap;
pub mod block_cache;
pub mod block_dev;

pub use block_dev::BLOCK_SZ;
