//! A disjoint-set (union-find) container keyed by hashable values, with the
//! unusual extra of taking a single value out of its class.
//!
//! * [`forest`] is the mathematics of parent-pointer forests.
//! * [`partition`] is the abstract state of the container and the effect of
//!   every operation on it.
//! * [`disjoint_hash_set`] is the executable container.
//! * [`laws`] states what the operations guarantee about connectivity.

pub mod disjoint_hash_set;
pub mod forest;
pub mod laws;
pub mod partition;

pub use crate::disjoint_hash_set::{DisjointHashSet, Id};
pub use crate::partition::Partition;
