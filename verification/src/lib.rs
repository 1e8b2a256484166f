//! An in-memory Bw-Tree: a mapping-table-indirected ordered index whose
//! updates are immutable delta records prepended to per-page lock-free
//! chains, compacted by an atomically installed consolidation pass.

pub mod bw_tree;
pub mod errors;
pub mod lockfree_list;
pub mod mapping_table;
pub mod nodes;
