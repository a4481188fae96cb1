//! An embedded ordered key-value store organised as a log-structured merge
//! tree: sorted blocks, sorted string tables, ordered cursors that merge
//! them, and the storage engine on top.

pub mod block;
pub mod error;
pub mod iterators;
pub mod key;
pub mod lsm_iterator;
pub mod lsm_storage;
pub mod mem_table;
pub mod run;
pub mod table;
pub mod utils;
