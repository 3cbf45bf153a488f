//! A hash-indexed snapshot of the files of a software workspace.
//!
//! The library owns the canonical mapping from workspace-relative path to
//! content digest, keeps it sorted by path, answers glob queries over it,
//! folds matched digests into one aggregate digest, applies caller-reported
//! incremental changes, and re-partitions the flat file list into
//! per-project buckets.  The surrounding process supplies everything the
//! library cannot do itself: filesystem traversal, file reads, and the
//! thread that performs the one-time background population.

pub mod assoc;
pub mod files_worker;
pub mod glob;
pub mod hasher;
pub mod order;
pub mod project_files;
pub mod project_graph;
pub mod records;
pub mod sorting;
pub mod workspace_context;
