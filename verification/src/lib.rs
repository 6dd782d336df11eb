//! Shared ownership without a collector, as a verified model.
//!
//! A [`heap::Heap`] owns the control blocks ([`block::ControlBlock`]). A
//! [`heap::SharedHandle`] is an owning reference into one of them and a
//! [`heap::WeakHandle`] a non-owning one; a [`cell::MutableCell`] checks
//! shared and exclusive access when it is asked for, also behind handles
//! ([`shared_cell`]). [`graph::Graph`] composes the three into a tree whose
//! nodes own their children and only observe their parent; [`graph_model`]
//! says what releasing a handle does to it.
//!
//! The heap is confined to one thread of control. [`atomic::AtomicCounts`]
//! holds the counts of a block that is shared between threads, and applies
//! the steps of [`counts`] to them atomically.
//!
//! [`strings`] holds small functions that move, borrow and slice strings.

pub mod atomic;
pub mod block;
pub mod cell;
pub mod counts;
pub mod graph;
pub mod graph_model;
pub mod heap;
pub mod shared_cell;
pub mod strings;
