//! Verified pieces of a log-structured merge tree.

pub mod block;
pub mod codec;
pub mod error;
pub mod key;
pub mod mem_table;
pub mod vlog;
