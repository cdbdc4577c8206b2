pub mod common;
pub mod replacer;
pub mod lru_replacer;
pub mod page;
pub mod disk;
pub mod buffer_pool_manager;
