//! Verified core of an external-memory sort operator and a sort-merge join
//! operator over row-encoded keys.
//!
//! - `keys`: the order of encoded keys, variable-length integers, and the
//!   prefix-compressed key store of sorted runs.
//! - `loser_tree`: the tournament that picks the smallest cursor of a merge.
//! - `sort`: partial sorts of staged batches into runs, and the k-way merge.
//! - `sorter`: the sort operator's state (staging, spills and their levels)
//!   and its laws.
//! - `join`: the merge join of two sorted inputs for every join kind, the
//!   residual filter and the buffering of output pairs.
//! - `projection`: column pruning for the join.
//! - `pruning`: which columns a sorted run keeps beside its keys.
//! - `rowkeys`: row keys of integer columns by arrow's row format, and the
//!   sort and the join stated on the rows' values.
pub mod keys;
pub mod loser_tree;
pub mod sort;
pub mod sorter;
pub mod join;
pub mod projection;
pub mod pruning;
pub mod rowkeys;
