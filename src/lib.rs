//! An embedded key-value store with named trees, an append-only paged file
//! format and a commit sequencer that makes commits durable in id order.
pub mod db;
pub mod error;
pub mod keys;
pub mod lru_map;
pub mod paging;
pub mod state;
pub mod transaction;
pub mod tree;
pub mod utils;
