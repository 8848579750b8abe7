//! The causal history engine of a replicated data structure.
//!
//! Every replica appends operations to a log of its own and merges the logs
//! of others into what it knows. The engine keeps, replica by replica, the
//! nodes that are known, each a run of consecutive operations with the
//! positions that its first operation depends on; the version vector; the
//! heads of the history; and a logical clock. It answers whether an
//! operation is known, which node holds it, and what the greatest common
//! ancestor of two operations is.
//!
//! [`dag::Dag`] is the engine. Its contracts are stated over
//! [`history::History`], the mathematical model of what is known, and
//! [`ancestry`] defines on it what it is for one operation to come before
//! another. [`laws`] holds what follows for merging: that it is commutative
//! and idempotent.

pub mod id;
pub mod span;
pub mod error;
pub mod frontier;
pub mod history;
pub mod node;
pub mod append;
pub mod merge;
pub mod pending;
pub mod merge_state;
pub mod ancestry;
pub mod search_state;
pub mod search;
pub mod laws;
pub mod dag;
pub mod container;
pub mod content;
pub mod event;

pub use dag::Dag;
pub use error::DagError;
pub use id::{ClientID, Counter, Lamport, ID};
pub use node::{DagNode, Node};
