//! Runnable discovery and execution bookkeeping.
//!
//! The library keeps a *mirror tree*: a reduced copy of a source module
//! hierarchy that holds only the modules leading to runnable units (tests,
//! benchmarks, binary entry points, documentation examples), plus those
//! units. The tree is grown file by file against a semantic model of the
//! source, every structural edit is recorded in a replayable changelog, and an
//! execution state machine tracks external runs keyed by node identifier.
use vstd::prelude::*;

pub mod algo;
pub mod classify;
pub mod delta;
pub mod doc;
pub mod executor;
pub mod ide;
pub mod order;
pub mod publish;
pub mod runnables;
pub mod shape;
pub mod source;
pub mod store;
pub mod view;

verus! {

/// Identifier of a node of the mirror tree. Identifier `0` names the session
/// root; every other node gets a positive identifier.
pub type Id = u128;

} // verus!
