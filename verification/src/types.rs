//! Plain-value model of the data that flows through the query engine:
//! artifacts, artifact groups, transitive-set structure, graph nodes,
//! and the error taxonomy.

use vstd::prelude::*;
use crate::TargetLabel;

verus! {

/// Identity of one transitive-set projection: the unit of deduplication.
/// Two different projections of the same set are independent traversal
/// units; two references to the same pair are the same unit.
#[derive(Clone, Copy, Debug, PartialEq, Eq, Structural, Hash)]
pub struct ProjectionKey {
    pub set_id: u64,
    pub projection: u64,
}

/// The owner of an artifact. An artifact produced by a configured target
/// carries that target's label; anything else (for example an
/// anonymous-target output) carries an opaque non-target key and cannot
/// be attributed to a target.
#[derive(Clone, Copy, Debug, PartialEq, Eq, Structural)]
pub enum ArtifactOwner {
    Target(TargetLabel),
    NonTarget(u64),
}

/// A concrete producible artifact, reduced to its opaque value plus the
/// optional owner. An artifact without an owner is a source or external
/// input, not target-produced.
#[derive(Clone, Copy, Debug, PartialEq, Eq, Structural)]
pub struct Artifact {
    pub value: u64,
    pub owner: Option<ArtifactOwner>,
}

/// One entry of a provider-exposed artifact list: either a concrete
/// artifact or a symbolic reference to a transitive-set projection.
#[derive(Clone, Copy, Debug, PartialEq, Eq, Structural)]
pub enum ArtifactGroup {
    Artifact(Artifact),
    TransitiveSetProjection(ProjectionKey),
}

/// The value a transitive set exposes for one projection index: the
/// artifact groups visited as inputs, plus output artifacts, which this
/// resolver deliberately ignores.
#[derive(Clone, Debug)]
pub struct ProjectionValue {
    pub projection: u64,
    pub inputs: Vec<ArtifactGroup>,
    pub outputs: Vec<u64>,
}

/// One materialized transitive-set node: its identity, the identities of
/// its child sets (shared across parents: a DAG, not a tree), and its
/// per-projection values.
#[derive(Clone, Debug)]
pub struct TransitiveSetDef {
    pub set_id: u64,
    pub children: Vec<u64>,
    pub projections: Vec<ProjectionValue>,
}

/// A graph vertex: a configured target plus the labels of its resolved
/// dependency edges.
#[derive(Clone, Debug)]
pub struct GraphNode {
    pub label: TargetLabel,
    pub deps: Vec<TargetLabel>,
}

/// Everything that can go wrong while answering a query, carrying enough
/// identifying context for diagnosis.
#[derive(Debug)]
pub enum QueryEvalError {
    /// A literal did not resolve to a configured graph node.
    LiteralLookupFailure { literal: String },
    /// File-based literals are not meaningful over a configured-target-only graph.
    FileLiteralsNotAllowed { literal: String },
    /// The operation needs a different environment variant.
    UnsupportedOperation { operation: String },
    /// The `classpath` depth argument was outside `{absent, 1}`.
    InvalidDepth { depth: u64 },
    /// A template-placeholder artifact's owner could not be unpacked to a
    /// target label: only target-produced artifacts are supported here.
    NonTargetBoundArtifact { template_name: String, target: TargetLabel, artifact: Artifact },
    /// The backend does not know the set named by a top-level projection.
    UnknownTransitiveSet { key: ProjectionKey },
    /// A child reference inside a materialized set did not name a valid set.
    InvalidSetStructure { set_id: u64 },
}

} // verus!
