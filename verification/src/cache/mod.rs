//! Caches: objects in memory, blobs on disk, and blocks of packfiles.

pub mod block;
pub mod block_laws;
pub mod disk;
pub mod lru_store;
pub mod memory;
