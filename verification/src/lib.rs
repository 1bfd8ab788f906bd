//! Transactional core of a replicated-document engine.
//!
//! Independent replicas ("actors") stage operations on shared maps, lists and
//! text inside transactions, commit them as hash-identified changes forming a
//! causal history graph, and materialize the current (or any historical) value
//! of every key deterministically, so that replicas holding the same changes
//! agree on every read regardless of the order the changes arrived in.

pub mod types;
pub mod model;
pub mod change;
pub mod doc;
