//! Inventory of ZFS storage pools and datasets.
//!
//! The `zpool`/`zfs` command-line tools print newline-delimited identifier
//! lists and tab-delimited property tables. This crate turns such captured
//! output into structured, iterable records.
//!
//! Running the external commands is I/O and stays outside this crate; every
//! constructor here takes the raw bytes captured from one command invocation
//! and parses them into a frozen snapshot that any number of independent,
//! restartable iterators can traverse.

pub mod dataset;
pub mod text;
pub mod zpool;

pub use dataset::Dataset;
pub use dataset::DatasetIter;
pub use dataset::Datasets;
pub use zpool::ZPool;
pub use zpool::ZPoolIter;
pub use zpool::ZPools;
