//! Hierarchical disk usage: per-directory totals with hardlinks charged once,
//! traversal held to one volume, and a cache of totals for cold directories.
//!
//! A filesystem subtree is handed in as a `Node` tree of plain metadata; the
//! analysis in `analyze` turns it into a `DiskItem` tree. Its behaviour is
//! stated by the spec functions `run_node` and `run_list`, and `laws` proves
//! general facts about them.

pub mod analyze;
pub mod cache;
pub mod laws;
pub mod order;
pub mod persist;
pub mod scope;
pub mod time;
pub mod tree;

pub use analyze::{AnalyzeConfig, AnalyzeError};
pub use cache::CacheStore;
pub use persist::Cache;
pub use scope::HardlinkScope;
pub use time::Timestamp;
pub use tree::{DiskItem, FileInfo, Node};
