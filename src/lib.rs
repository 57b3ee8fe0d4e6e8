//! A transactional storage core: values versioned by transaction, a
//! multi-column collator and key ranges, an ordered B-tree index with
//! tombstones, a transactional block file over a directory of blobs, and
//! tables with secondary indexes and a greedy query planner; with the
//! slicing bounds of tensors and the names of collection types.

pub mod error;
pub mod txn;
pub mod value;
pub mod collator;
pub mod range;
pub mod btree;
pub mod schema;
pub mod btree_file;
pub mod tensor;
pub mod table;
pub mod planner;
pub mod host_dir;
pub mod cache;
pub mod block_file;
pub mod class;
