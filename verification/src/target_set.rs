//! Ordered, label-deduplicated collections of graph nodes and of target
//! labels: insertion order is preserved and no label appears twice.

use vstd::prelude::*;
use crate::TargetLabel;
use crate::types::GraphNode;

verus! {

/// Two nodes carry the same data: same label, same dependency edges.
pub open spec fn node_matches(a: GraphNode, b: GraphNode) -> bool {
    a.label == b.label && a.deps@ == b.deps@
}

/// Copies a node. Written out because the node owns its edge list.
pub fn duplicate_node(n: &GraphNode) -> (r: GraphNode)
    ensures
        node_matches(r, *n),
{
    let mut deps: Vec<TargetLabel> = Vec::new();
    let mut i: usize = 0;
    while i < n.deps.len()
        invariant
            i <= n.deps.len(),
            deps@ == n.deps@.take(i as int),
        decreases n.deps.len() - i,
    {
        deps.push(n.deps[i]);
        i = i + 1;
        assert(deps@ == n.deps@.take(i as int));
    }
    assert(n.deps@.take(n.deps@.len() as int) == n.deps@);
    GraphNode { label: n.label, deps }
}

/// An ordered collection of graph nodes, deduplicated by label:
/// insertion order is preserved and membership is decided by label.
pub struct TargetSet {
    pub nodes: Vec<GraphNode>,
}

impl TargetSet {
    /// The labels of the members, in insertion order.
    pub open spec fn labels(&self) -> Seq<TargetLabel> {
        self.nodes@.map_values(|n: GraphNode| n.label)
    }

    /// No two members share a label.
    pub open spec fn wf(&self) -> bool {
        forall|i: int, j: int|
            0 <= i < j < self.labels().len() ==> self.labels()[i] != self.labels()[j]
    }

    pub fn new() -> (r: TargetSet)
        ensures
            r.nodes@.len() == 0,
            r.wf(),
    {
        TargetSet { nodes: Vec::new() }
    }

    pub fn len(&self) -> (r: usize)
        ensures
            r == self.nodes@.len(),
    {
        self.nodes.len()
    }

    pub fn get(&self, i: usize) -> (r: &GraphNode)
        requires
            i < self.nodes@.len(),
        ensures
            *r == self.nodes@[i as int],
    {
        &self.nodes[i]
    }

    /// Whether some member carries this label.
    pub fn contains_label(&self, label: TargetLabel) -> (r: bool)
        ensures
            r == self.labels().contains(label),
    {
        let mut i: usize = 0;
        while i < self.nodes.len()
            invariant
                i <= self.nodes@.len(),
                forall|j: int| 0 <= j < i ==> self.labels()[j] != label,
            decreases self.nodes@.len() - i,
        {
            if self.nodes[i].label.id == label.id {
                assert(self.labels()[i as int] == label);
                return true;
            }
            i = i + 1;
        }
        assert(!self.labels().contains(label));
        false
    }

    /// Inserts a node unless a member already carries its label; reports
    /// whether the node was actually added.
    pub fn insert(&mut self, node: GraphNode) -> (added: bool)
        requires
            old(self).wf(),
        ensures
            final(self).wf(),
            added == !old(self).labels().contains(node.label),
            added ==> final(self).nodes@ == old(self).nodes@.push(node),
            !added ==> final(self).nodes@ == old(self).nodes@,
    {
        if self.contains_label(node.label) {
            false
        } else {
            let ghost olds = self.nodes@;
            self.nodes.push(node);
            assert(self.labels() =~= olds.map_values(|n: GraphNode| n.label).push(node.label));
            true
        }
    }
}

/// An ordered set of target labels: insertion order preserved, no
/// duplicates.
pub struct LabelSet {
    pub labels: Vec<TargetLabel>,
}

impl LabelSet {
    pub open spec fn wf(&self) -> bool {
        forall|i: int, j: int|
            0 <= i < j < self.labels@.len() ==> self.labels@[i] != self.labels@[j]
    }

    pub fn new() -> (r: LabelSet)
        ensures
            r.labels@.len() == 0,
            r.wf(),
    {
        LabelSet { labels: Vec::new() }
    }

    pub fn len(&self) -> (r: usize)
        ensures
            r == self.labels@.len(),
    {
        self.labels.len()
    }

    pub fn get(&self, i: usize) -> (r: TargetLabel)
        requires
            i < self.labels@.len(),
        ensures
            r == self.labels@[i as int],
    {
        self.labels[i]
    }

    pub fn contains(&self, label: TargetLabel) -> (r: bool)
        ensures
            r == self.labels@.contains(label),
    {
        let mut i: usize = 0;
        while i < self.labels.len()
            invariant
                i <= self.labels@.len(),
                forall|j: int| 0 <= j < i ==> self.labels@[j] != label,
            decreases self.labels@.len() - i,
        {
            if self.labels[i].id == label.id {
                return true;
            }
            i = i + 1;
        }
        false
    }

    pub fn insert(&mut self, label: TargetLabel) -> (added: bool)
        requires
            old(self).wf(),
        ensures
            final(self).wf(),
            added == !old(self).labels@.contains(label),
            added ==> final(self).labels@ == old(self).labels@.push(label),
            !added ==> final(self).labels@ == old(self).labels@,
    {
        if self.contains(label) {
            false
        } else {
            self.labels.push(label);
            true
        }
    }
}

} // verus!
