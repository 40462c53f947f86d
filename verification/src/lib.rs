//! A paged storage core: a pinning-aware buffer pool with LRU eviction,
//! striped across several instances, and an extendible hash table whose
//! directory and bucket pages live in that pool.

pub mod bucket_page;
pub mod directory_page;
pub mod disk;
pub mod hash_table;
pub mod page;
pub mod buffer_pool;
pub mod replacer;
