//! A persistent, branching, versioned overlay on top of `sled` trees.
//!
//! A snapshot forest is kept in two trees: the version forest, which maps each version
//! to its parent and children, and the delta map, which maps each version to the deltas
//! that lead away from it toward the current version of its tree. A third tree, the data
//! tree, holds the state of each tree's current version. The operations in
//! [transactions] move the current version around a tree, make new snapshots and delete
//! old ones, each as one transaction over the three trees.

pub mod be;
pub mod current;
pub mod delta;
pub mod delta_map;
pub mod delta_set;
pub mod forest_model;
pub mod kv;
pub mod restore;
pub mod transactions;
pub mod version_forest;
pub mod version_node;

pub use delta::Delta;
pub use delta_map::TransactionalDeltaMap;
pub use kv::{KvTree, TxError};
pub use version_forest::{TransactionalVersionForest, VersionPath};
pub use version_node::NULL_VERSION;
