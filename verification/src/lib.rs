//! Query engine over a configured build-target graph.
//!
//! Answers structural queries ("deps", "classpath") against a graph of
//! configured targets, and resolves template-placeholder artifact lists
//! exposed by target providers, deduplicating nested transitive-set
//! projections so that each distinct (set, projection) pair is
//! materialized from the backend at most once.

pub mod types;
pub mod resolve_spec;
pub mod label_map;
pub mod target_set;
pub mod delegate;
pub mod environment;
pub mod functions;
pub mod crash;

use vstd::prelude::*;

verus! {

/// A configured target label: the stable identity of one configured
/// build target, reduced to its opaque comparable key.
#[derive(Clone, Copy, Debug, PartialEq, Eq, Structural, Hash)]
pub struct TargetLabel {
    pub id: u64,
}

} // verus!
