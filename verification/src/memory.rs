//! Memory: page frames, pages for user code, and blocks for a cache.

pub mod frame_allocator;
pub mod kv_allocator;
pub mod paging;
pub mod user_page;
