//! The query environment over the configured graph: literal evaluation,
//! the unsupported surface, and breadth-first dependency traversal.

use vstd::prelude::*;
use vstd::set_lib::lemma_len_subset;
use crate::TargetLabel;
use crate::types::{GraphNode, QueryEvalError};
use crate::target_set::{duplicate_node, node_matches, LabelSet, TargetSet};
use crate::delegate::{lit_lookup, GraphDelegate, LiteralEntry};

verus! {

/// The labels of a node sequence, in order.
pub open spec fn node_labels(nodes: Seq<GraphNode>) -> Seq<TargetLabel> {
    nodes.map_values(|n: GraphNode| n.label)
}

/// The first configured node carrying a label, if any.
#[verifier::opaque]
pub open spec fn graph_lookup(nodes: Seq<GraphNode>, label: TargetLabel) -> Option<GraphNode>
    decreases nodes.len(),
{
    if nodes.len() == 0 {
        None
    } else if nodes[0].label == label {
        Some(nodes[0])
    } else {
        graph_lookup(nodes.skip(1), label)
    }
}

proof fn lemma_graph_lookup_some(nodes: Seq<GraphNode>, label: TargetLabel)
    requires
        node_labels(nodes).contains(label),
    ensures
        graph_lookup(nodes, label) matches Some(d) && d.label == label && nodes.contains(d),
    decreases nodes.len(),
{
    reveal(graph_lookup);
    if nodes.len() > 0 && nodes[0].label != label {
        let i = choose|i: int| 0 <= i < node_labels(nodes).len() && node_labels(nodes)[i] == label;
        assert(node_labels(nodes.skip(1))[i - 1] == label);
        lemma_graph_lookup_some(nodes.skip(1), label);
        match graph_lookup(nodes.skip(1), label) {
            Some(d) => {
                let j = choose|j: int| 0 <= j < nodes.skip(1).len() && nodes.skip(1)[j] == d;
                assert(nodes[j + 1] == d);
            },
            None => {},
        }
    } else if nodes.len() > 0 {
        assert(nodes.contains(nodes[0]));
    }
}

/// With unique labels, a member that matches a graph node with the same
/// label matches what the lookup finds.
proof fn lemma_lookup_of_member(nodes: Seq<GraphNode>, m: GraphNode, i: int)
    requires
        forall|a: int, b: int| 0 <= a < b < nodes.len()
            ==> node_labels(nodes)[a] != node_labels(nodes)[b],
        0 <= i < nodes.len(),
        node_matches(nodes[i], m),
    ensures
        graph_lookup(nodes, m.label) matches Some(d) && d.label == m.label && d.deps@ == m.deps@,
{
    reveal(graph_lookup);
    assert(node_labels(nodes)[i] == m.label);
    assert(node_labels(nodes).contains(m.label));
    lemma_graph_lookup_some(nodes, m.label);
    match graph_lookup(nodes, m.label) {
        Some(d) => {
            let j = choose|j: int| 0 <= j < nodes.len() && nodes[j] == d;
            assert(node_labels(nodes)[j] == m.label);
            assert(j == i);
        },
        None => {},
    }
}

/// Labels the graph could ever contribute to a traversal.
pub open spec fn label_space(nodes: Seq<GraphNode>) -> Set<TargetLabel> {
    node_labels(nodes).to_set()
}

/// The traversal termination measure: graph labels not yet collected.
pub open spec fn unvisited(nodes: Seq<GraphNode>, vis: Seq<TargetLabel>) -> nat {
    label_space(nodes).filter(|l: TargetLabel| !vis.contains(l)).len()
}

proof fn lemma_unvisited_finite(nodes: Seq<GraphNode>, vis: Seq<TargetLabel>)
    ensures
        label_space(nodes).finite(),
        label_space(nodes).filter(|l: TargetLabel| !vis.contains(l)).finite(),
{
    broadcast use vstd::seq_lib::seq_to_set_is_finite;

    label_space(nodes).lemma_len_filter(|l: TargetLabel| !vis.contains(l));
}

/// Collecting a fresh graph label strictly shrinks the measure; growing
/// the collected sequence never grows it.
proof fn lemma_unvisited_insert(nodes: Seq<GraphNode>, vis1: Seq<TargetLabel>, vis2: Seq<TargetLabel>, l: TargetLabel)
    requires
        label_space(nodes).contains(l),
        !vis1.contains(l),
        vis2.contains(l),
        forall|x: TargetLabel| vis1.contains(x) ==> vis2.contains(x),
    ensures
        unvisited(nodes, vis2) < unvisited(nodes, vis1),
{
    broadcast use vstd::set::group_set_axioms;

    let before = label_space(nodes).filter(|x: TargetLabel| !vis1.contains(x));
    let after = label_space(nodes).filter(|x: TargetLabel| !vis2.contains(x));
    lemma_unvisited_finite(nodes, vis1);
    assert(before.contains(l));
    assert(after.subset_of(before.remove(l)));
    assert(before.remove(l).len() == before.len() - 1);
    lemma_len_subset(after, before.remove(l));
}

proof fn lemma_unvisited_mono(nodes: Seq<GraphNode>, vis1: Seq<TargetLabel>, vis2: Seq<TargetLabel>)
    requires
        forall|x: TargetLabel| vis1.contains(x) ==> vis2.contains(x),
    ensures
        unvisited(nodes, vis2) <= unvisited(nodes, vis1),
{
    lemma_unvisited_finite(nodes, vis1);
    assert(label_space(nodes).filter(|x: TargetLabel| !vis2.contains(x))
        .subset_of(label_space(nodes).filter(|x: TargetLabel| !vis1.contains(x))));
    lemma_len_subset(
        label_space(nodes).filter(|x: TargetLabel| !vis2.contains(x)),
        label_space(nodes).filter(|x: TargetLabel| !vis1.contains(x)),
    );
}

impl GraphDelegate {
    /// A well-formed configured graph: one node per label, and every
    /// dependency edge points at a configured node.
    pub open spec fn graph_wf(&self) -> bool {
        (forall|a: int, b: int| 0 <= a < b < self.nodes@.len()
            ==> node_labels(self.nodes@)[a] != node_labels(self.nodes@)[b])
        && (forall|i: int, j: int|
            0 <= i < self.nodes@.len() && 0 <= j < self.nodes@[i].deps@.len()
                ==> node_labels(self.nodes@).contains(#[trigger] self.nodes@[i].deps@[j]))
    }

    /// A node carries the same data as some configured node.
    pub open spec fn node_in_graph(&self, n: GraphNode) -> bool {
        exists|i: int| 0 <= i < self.nodes@.len() && node_matches(#[trigger] self.nodes@[i], n)
    }

    /// Finds the configured node carrying a label.
    pub fn node_by_label(&self, label: TargetLabel) -> (r: Option<&GraphNode>)
        ensures
            match r {
                Some(d) => graph_lookup(self.nodes@, label) == Some(*d),
                None => graph_lookup(self.nodes@, label) is None,
            },
    {
        proof {
            reveal(graph_lookup);
        }
        let mut i: usize = 0;
        proof {
            assert(self.nodes@.skip(0) =~= self.nodes@);
        }
        while i < self.nodes.len()
            invariant
                i <= self.nodes@.len(),
                graph_lookup(self.nodes@, label) == graph_lookup(self.nodes@.skip(i as int), label),
            decreases self.nodes@.len() - i,
        {
            proof {
                reveal(graph_lookup);
            }
            let ghost pre = self.nodes@.skip(i as int);
            assert(pre[0] == self.nodes@[i as int]);
            assert(pre.skip(1) =~= self.nodes@.skip(i as int + 1));
            if self.nodes[i].label.id == label.id {
                assert(self.nodes@[i as int].label == label);
                return Some(&self.nodes[i]);
            }
            i = i + 1;
        }
        proof {
            reveal(graph_lookup);
        }
        assert(self.nodes@.skip(self.nodes@.len() as int).len() == 0);
        None
    }
}

/// Inserting into an ordered node sequence deduplicated by label.
pub open spec fn insert_node(nodes: Seq<GraphNode>, n: GraphNode) -> Seq<GraphNode> {
    if node_labels(nodes).contains(n.label) {
        nodes
    } else {
        nodes.push(n)
    }
}

/// What literal evaluation computes: each literal resolved in order, the
/// nodes collected into a label-deduplicated ordered set; the first
/// unresolvable literal aborts the evaluation.
pub open spec fn eval_literals_spec(table: Seq<LiteralEntry>, lits: Seq<Seq<char>>, acc: Seq<GraphNode>) -> Result<Seq<GraphNode>, Seq<char>>
    decreases lits.len(),
{
    if lits.len() == 0 {
        Ok(acc)
    } else {
        match lit_lookup(table, lits[0]) {
            None => Err(lits[0]),
            Some(n) => eval_literals_spec(table, lits.skip(1), insert_node(acc, n)),
        }
    }
}

/// Two node sequences carry the same data position by position.
pub open spec fn nodes_match_seq(a: Seq<GraphNode>, b: Seq<GraphNode>) -> bool {
    a.len() == b.len() && forall|i: int| 0 <= i < a.len() ==> node_matches(#[trigger] a[i], b[i])
}

/// The query environment: answers the query language's capability set
/// over the configured graph, backed by a delegate.
pub struct ConfiguredGraphQueryEnvironment<'a> {
    pub delegate: &'a GraphDelegate,
}

impl<'a> ConfiguredGraphQueryEnvironment<'a> {
    pub fn new(delegate: &'a GraphDelegate) -> (r: Self)
        ensures
            r.delegate == delegate,
    {
        ConfiguredGraphQueryEnvironment { delegate }
    }

    /// A node reference is already its own node.
    pub fn get_node(&self, node_ref: &GraphNode) -> (r: GraphNode)
        ensures
            node_matches(r, *node_ref),
    {
        duplicate_node(node_ref)
    }

    /// Only a different environment variant can answer this.
    pub fn get_node_for_default_configured_target(&self, _node_ref: &GraphNode) -> (r: Result<GraphNode, QueryEvalError>)
        ensures
            r matches Err(QueryEvalError::UnsupportedOperation { operation })
                && operation@ == "get_node_for_default_configured_target"@,
    {
        Err(QueryEvalError::UnsupportedOperation {
            operation: "get_node_for_default_configured_target".to_owned(),
        })
    }

    /// Only a different environment variant can answer this.
    pub fn owner(&self, _paths: &Vec<String>) -> (r: Result<TargetSet, QueryEvalError>)
        ensures
            r matches Err(QueryEvalError::UnsupportedOperation { operation })
                && operation@ == "owner"@,
    {
        Err(QueryEvalError::UnsupportedOperation { operation: "owner".to_owned() })
    }

    /// File-based literals are never meaningful over a configured-target
    /// graph: this always fails, naming the literal.
    pub fn eval_file_literal(&self, literal: &str) -> (r: Result<Vec<String>, QueryEvalError>)
        ensures
            r matches Err(QueryEvalError::FileLiteralsNotAllowed { literal: l }) && l@ == literal@,
    {
        Err(QueryEvalError::FileLiteralsNotAllowed { literal: literal.to_owned() })
    }

    /// Resolves each literal via the delegate and collects the nodes into
    /// an ordered target set; fails on the first unresolvable literal.
    #[verifier::loop_isolation(false)]
    pub fn eval_literals(&self, literals: &Vec<String>) -> (r: Result<TargetSet, QueryEvalError>)
        ensures
            match r {
                Ok(ts) => ts.wf()
                    && (eval_literals_spec(self.delegate.literals@,
                            literals@.map_values(|s: String| s@), Seq::empty())
                        matches Ok(sns) && nodes_match_seq(ts.nodes@, sns)),
                Err(e) => (e matches QueryEvalError::LiteralLookupFailure { literal: l }
                    && eval_literals_spec(self.delegate.literals@,
                        literals@.map_values(|s: String| s@), Seq::empty()) == Err::<Seq<GraphNode>, Seq<char>>(l@)),
            },
    {
        let ghost lit_views = literals@.map_values(|s: String| s@);
        let ghost table = self.delegate.literals@;
        let ghost goal = eval_literals_spec(table, lit_views, Seq::empty());
        let mut ts = TargetSet::new();
        let ghost mut acc: Seq<GraphNode> = Seq::empty();
        let mut i: usize = 0;
        proof {
            assert(lit_views.skip(0) =~= lit_views);
        }
        while i < literals.len()
            invariant
                i <= literals@.len(),
                ts.wf(),
                nodes_match_seq(ts.nodes@, acc),
                eval_literals_spec(table, lit_views.skip(i as int), acc) == goal,
            decreases literals@.len() - i,
        {
            let ghost pre = lit_views.skip(i as int);
            proof {
                assert(pre[0] == lit_views[i as int]);
                assert(pre[0] == literals@[i as int]@);
                assert(pre.skip(1) =~= lit_views.skip(i as int + 1));
            }
            match self.delegate.eval_literal(literals[i].as_str()) {
                Err(e) => {
                    return Err(e);
                },
                Ok(n) => {
                    let dup = duplicate_node(n);
                    let ghost accpre = acc;
                    let ghost tspre = ts.nodes@;
                    proof {
                        assert(node_labels(tspre) =~= node_labels(accpre));
                        acc = insert_node(accpre, *n);
                    }
                    ts.insert(dup);
                    proof {
                        assert(dup.label == n.label);
                        assert(nodes_match_seq(ts.nodes@, acc));
                    }
                },
            }
            i = i + 1;
        }
        proof {
            assert(lit_views.skip(lit_views.len() as int).len() == 0);
        }
        Ok(ts)
    }
}


/// One dependency edge of the configured graph: some node carries label
/// `a` and lists `b` among its dependencies.
pub open spec fn has_edge(nodes: Seq<GraphNode>, a: TargetLabel, b: TargetLabel) -> bool {
    exists|i: int| 0 <= i < nodes.len()
        && (#[trigger] nodes[i]).label == a && nodes[i].deps@.contains(b)
}

/// A walk along dependency edges: consecutive labels are joined by edges.
pub open spec fn is_dep_path(nodes: Seq<GraphNode>, path: Seq<TargetLabel>) -> bool {
    path.len() > 0
    && forall|i: int| 0 <= i < path.len() - 1 ==> has_edge(nodes, path[i], #[trigger] path[i + 1])
}

/// The label is reachable from some root over at most `k` dependency
/// edges. Zero edges means the label is itself a root.
#[verifier::opaque]
pub open spec fn reachable_within(nodes: Seq<GraphNode>, roots: Seq<TargetLabel>, l: TargetLabel, k: int) -> bool {
    exists|path: Seq<TargetLabel>|
        is_dep_path(nodes, path) && roots.contains(#[trigger] path[0])
        && path.last() == l && path.len() <= k + 1
}

/// The label is reachable from some root over any number of edges.
#[verifier::opaque]
pub open spec fn reachable(nodes: Seq<GraphNode>, roots: Seq<TargetLabel>, l: TargetLabel) -> bool {
    exists|path: Seq<TargetLabel>|
        is_dep_path(nodes, path) && roots.contains(#[trigger] path[0]) && path.last() == l
}

/// No walk returns to its starting label: the graph is a DAG, as a
/// configured graph is (a node's edges point at already-configured
/// nodes).
pub open spec fn acyclic(nodes: Seq<GraphNode>) -> bool {
    forall|p: Seq<TargetLabel>| is_dep_path(nodes, p) && p.len() >= 2 ==> p[0] != p.last()
}

/// One history entry was discovered over an edge from an earlier entry,
/// one level deeper when the traversal is depth-bounded.
pub open spec fn has_parent(
    nodes: Seq<GraphNode>,
    queue: Seq<(TargetLabel, i32)>,
    jj: int,
    bounded: bool,
) -> bool {
    exists|p: int|
        0 <= p < jj && has_edge(nodes, (#[trigger] queue[p]).0, queue[jj].0)
        && (!bounded || queue[jj].1 == queue[p].1 + 1)
}

/// A discovery history's provenance: every entry beyond the roots was
/// discovered from an earlier entry.
pub open spec fn discovery_prov(
    nodes: Seq<GraphNode>,
    roots: Seq<TargetLabel>,
    queue: Seq<(TargetLabel, i32)>,
    bounded: bool,
) -> bool {
    forall|jj: int| roots.len() <= jj < queue.len()
        ==> #[trigger] has_parent(nodes, queue, jj, bounded)
}

/// Members stand in nondecreasing order of distance from the roots:
/// whatever edge bound reaches a later member also reaches every
/// earlier member.
pub open spec fn level_ordered(nodes: Seq<GraphNode>, roots: Seq<TargetLabel>, labels: Seq<TargetLabel>) -> bool {
    forall|a: int, b: int, k: int|
        #![trigger labels[a], reachable_within(nodes, roots, labels[b], k)]
        0 <= a <= b < labels.len() && 0 <= k
        && reachable_within(nodes, roots, labels[b], k)
            ==> reachable_within(nodes, roots, labels[a], k)
}

/// The postorder law: every member's dependencies stand earlier in the
/// sequence than the member itself.
pub open spec fn deps_first(out: Seq<GraphNode>) -> bool {
    forall|i: int, j: int|
        #![trigger out[i].deps@[j]]
        0 <= i < out.len() && 0 <= j < out[i].deps@.len()
            ==> node_labels(out.take(i)).contains(out[i].deps@[j])
}

/// Every recorded node's dependencies are all marked.
pub open spec fn emitted_closed(out: Seq<GraphNode>, vis: Seq<TargetLabel>) -> bool {
    forall|i: int, j: int|
        #![trigger out[i].deps@[j]]
        0 <= i < out.len() && 0 <= j < out[i].deps@.len() ==> vis.contains(out[i].deps@[j])
}

/// Every node beyond the first `roots` members got there over an edge:
/// some member's dependency list names its label.
pub open spec fn parents_witnessed(roots: int, nodes: Seq<GraphNode>) -> bool {
    forall|i: int|
        #![trigger nodes[i]]
        roots <= i < nodes.len() ==> exists|j: int|
            0 <= j < nodes.len() && (#[trigger] nodes[j]).deps@.contains(nodes[i].label)
}

proof fn lemma_node_labels_prefix(a: Seq<GraphNode>, b: Seq<GraphNode>, x: TargetLabel)
    requires
        a.is_prefix_of(b),
        node_labels(a).contains(x),
    ensures
        node_labels(b).contains(x),
{
    let ix = choose|ix: int| 0 <= ix < node_labels(a).len() && node_labels(a)[ix] == x;
    assert(b[ix] == a[ix]);
    assert(node_labels(b)[ix] == x);
}

proof fn lemma_graph_lookup_member(nodes: Seq<GraphNode>, label: TargetLabel)
    ensures
        match graph_lookup(nodes, label) {
            Some(d) => nodes.contains(d) && d.label == label,
            None => true,
        },
    decreases nodes.len(),
{
    reveal(graph_lookup);
    if nodes.len() > 0 && nodes[0].label != label {
        lemma_graph_lookup_member(nodes.skip(1), label);
        match graph_lookup(nodes.skip(1), label) {
            Some(d) => {
                let j = choose|j: int| 0 <= j < nodes.skip(1).len() && nodes.skip(1)[j] == d;
                assert(nodes[j + 1] == d);
            },
            None => {},
        }
    } else if nodes.len() > 0 {
        assert(nodes.contains(nodes[0]));
    }
}

/// A walk that starts inside an edge-closed label set ends inside it.
proof fn lemma_path_in_closed(nodes: Seq<GraphNode>, sset: Seq<TargetLabel>, path: Seq<TargetLabel>)
    requires
        is_dep_path(nodes, path),
        sset.contains(path[0]),
        forall|gi: int, dj: int|
            #![trigger nodes[gi].deps@[dj]]
            0 <= gi < nodes.len() && sset.contains(nodes[gi].label)
                && 0 <= dj < nodes[gi].deps@.len()
                ==> sset.contains(nodes[gi].deps@[dj]),
    ensures
        sset.contains(path.last()),
    decreases path.len(),
{
    if path.len() > 1 {
        assert(has_edge(nodes, path[0int], path[0int + 1]));
        let gi = choose|gi: int| 0 <= gi < nodes.len()
            && (#[trigger] nodes[gi]).label == path[0] && nodes[gi].deps@.contains(path[1]);
        let dj = choose|dj: int| 0 <= dj < nodes[gi].deps@.len() && nodes[gi].deps@[dj] == path[1];
        assert(sset.contains(path[1]));
        let rest = path.skip(1);
        assert(is_dep_path(nodes, rest)) by {
            assert forall|x: int| 0 <= x < rest.len() - 1
                implies has_edge(nodes, rest[x], #[trigger] rest[x + 1]) by {
                assert(rest[x] == path[x + 1] && rest[x + 1] == path[x + 2]);
                assert(has_edge(nodes, path[x + 1], path[(x + 1) + 1]));
            }
        }
        assert(rest[0] == path[1]);
        lemma_path_in_closed(nodes, sset, rest);
        assert(rest.last() == path.last());
    }
}

/// A recorded walk to `a` extends by one edge to `b`.
proof fn lemma_extend_walk(
    gnodes: Seq<GraphNode>,
    roots: Seq<TargetLabel>,
    a: TargetLabel,
    b: TargetLabel,
    k: int,
    bounded: bool,
)
    requires
        has_edge(gnodes, a, b),
        reachable(gnodes, roots, a),
        bounded ==> reachable_within(gnodes, roots, a, k),
    ensures
        reachable(gnodes, roots, b),
        bounded ==> reachable_within(gnodes, roots, b, k + 1),
{
    reveal(reachable);
    reveal(reachable_within);
    let path = choose|path: Seq<TargetLabel>|
        is_dep_path(gnodes, path) && roots.contains(#[trigger] path[0]) && path.last() == a;
    let epath = path.push(b);
    assert(is_dep_path(gnodes, epath)) by {
        assert forall|x: int| 0 <= x < epath.len() - 1
            implies has_edge(gnodes, epath[x], #[trigger] epath[x + 1]) by {
            if x < path.len() - 1 {
                assert(epath[x] == path[x] && epath[x + 1] == path[x + 1]);
                assert(has_edge(gnodes, path[x], path[x + 1]));
            } else {
                assert(epath[x] == path.last() && epath[x + 1] == b);
            }
        }
    }
    assert(epath[0] == path[0] && epath.last() == b);
    if bounded {
        let bpath = choose|bpath: Seq<TargetLabel>|
            is_dep_path(gnodes, bpath) && roots.contains(#[trigger] bpath[0])
            && bpath.last() == a && bpath.len() <= k + 1;
        let ebpath = bpath.push(b);
        assert(is_dep_path(gnodes, ebpath)) by {
            assert forall|x: int| 0 <= x < ebpath.len() - 1
                implies has_edge(gnodes, ebpath[x], #[trigger] ebpath[x + 1]) by {
                if x < bpath.len() - 1 {
                    assert(ebpath[x] == bpath[x] && ebpath[x + 1] == bpath[x + 1]);
                    assert(has_edge(gnodes, bpath[x], bpath[x + 1]));
                } else {
                    assert(ebpath[x] == bpath.last() && ebpath[x + 1] == b);
                }
            }
        }
        assert(ebpath[0] == bpath[0] && ebpath.last() == b);
        assert(ebpath.len() <= (k + 1) + 1);
    }
}

/// Every entry of a discovery history is reachable: roots head the
/// history, and every later entry was discovered over an edge from an
/// earlier one.
proof fn lemma_history_sound(
    gnodes: Seq<GraphNode>,
    roots: Seq<TargetLabel>,
    queue: Seq<(TargetLabel, i32)>,
    bounded: bool,
    j: int,
)
    requires
        0 <= j < queue.len(),
        roots.len() <= queue.len(),
        forall|i: int| 0 <= i < roots.len() ==> (#[trigger] queue[i]) == (roots[i], 0i32),
        discovery_prov(gnodes, roots, queue, bounded),
    ensures
        reachable(gnodes, roots, queue[j].0),
        bounded ==> reachable_within(gnodes, roots, queue[j].0, queue[j].1 as int),
    decreases j,
{
    reveal(reachable);
    reveal(reachable_within);
    if j < roots.len() {
        let pth = seq![roots[j]];
        assert(is_dep_path(gnodes, pth));
        assert(roots.contains(pth[0]));
        assert(pth.last() == queue[j].0);
        assert(bounded ==> pth.len() <= queue[j].1 + 1);
    } else {
        assert(has_parent(gnodes, queue, j, bounded));
        let p = choose|p: int| 0 <= p < j
            && has_edge(gnodes, (#[trigger] queue[p]).0, queue[j].0)
            && (!bounded || queue[j].1 == queue[p].1 + 1);
        lemma_history_sound(gnodes, roots, queue, bounded, p);
        lemma_extend_walk(gnodes, roots, queue[p].0, queue[j].0, queue[p].1 as int, bounded);
    }
}

/// With a sorted, sound and complete discovery history, members stand in
/// nondecreasing order of distance from the roots: any bound that
/// reaches a later member also reaches every earlier member.
proof fn lemma_bfs_level_order(
    nodes: Seq<GraphNode>,
    roots: Seq<TargetLabel>,
    queue: Seq<(TargetLabel, i32)>,
    labels: Seq<TargetLabel>,
    bounded: bool,
    md: int,
    a: int,
    b: int,
    k: int,
)
    requires
        bounded,
        0 <= md,
        0 <= a <= b < queue.len(),
        0 <= k,
        queue.len() == labels.len(),
        forall|x: int| 0 <= x < queue.len() ==> (#[trigger] queue[x]).0 == labels[x],
        forall|x: int, y: int| 0 <= x < y < labels.len()
            ==> (#[trigger] labels[x]) != (#[trigger] labels[y]),
        forall|x: int, y: int| 0 <= x <= y < queue.len()
            ==> (#[trigger] queue[x]).1 <= (#[trigger] queue[y]).1,
        forall|x: int| 0 <= x < queue.len() ==> (#[trigger] queue[x]).1 <= md,
        forall|x: int, y: int| 0 <= x < y < nodes.len()
            ==> node_labels(nodes)[x] != node_labels(nodes)[y],
        roots.len() <= queue.len(),
        forall|i: int| 0 <= i < roots.len() ==> (#[trigger] queue[i]) == (roots[i], 0i32),
        discovery_prov(nodes, roots, queue, bounded),
        forall|p: int|
            #![trigger queue[p]]
            0 <= p < queue.len() && (!bounded || queue[p].1 < md)
                ==> match graph_lookup(nodes, queue[p].0) {
                    Some(nd) => forall|dj: int| 0 <= dj < nd.deps@.len() ==> exists|j: int|
                        0 <= j < queue.len() && (#[trigger] queue[j]).0 == (#[trigger] nd.deps@[dj])
                        && queue[j].1 <= queue[p].1 + 1,
                    None => true,
                },
        reachable_within(nodes, roots, labels[b], k),
    ensures
        reachable_within(nodes, roots, labels[a], k),
{
    lemma_history_sound(nodes, roots, queue, bounded, a);
    let da = queue[a].1 as int;
    if k < md {
        lemma_bfs_complete(nodes, roots, queue, bounded, md, k);
        let j = choose|j: int| 0 <= j < queue.len()
            && (#[trigger] queue[j]).0 == labels[b] && queue[j].1 <= k;
        assert(labels[j] == labels[b]);
        assert(j == b);
        assert(queue[a].1 <= queue[b].1);
        assert(da <= k);
    } else {
        assert(da <= md <= k);
    }
    reveal(reachable_within);
    let path = choose|path: Seq<TargetLabel>|
        is_dep_path(nodes, path) && roots.contains(#[trigger] path[0])
        && path.last() == queue[a].0 && path.len() <= queue[a].1 + 1;
    assert(path.len() <= k + 1);
    assert(path.last() == labels[a]);
}

/// The level ordering over a whole history.
proof fn lemma_bfs_level_order_all(
    nodes: Seq<GraphNode>,
    roots: Seq<TargetLabel>,
    queue: Seq<(TargetLabel, i32)>,
    labels: Seq<TargetLabel>,
    bounded: bool,
    md: int,
)
    requires
        bounded,
        0 <= md,
        queue.len() == labels.len(),
        forall|x: int| 0 <= x < queue.len() ==> (#[trigger] queue[x]).0 == labels[x],
        forall|x: int, y: int| 0 <= x < y < labels.len()
            ==> (#[trigger] labels[x]) != (#[trigger] labels[y]),
        forall|x: int, y: int| 0 <= x <= y < queue.len()
            ==> (#[trigger] queue[x]).1 <= (#[trigger] queue[y]).1,
        forall|x: int| 0 <= x < queue.len() ==> (#[trigger] queue[x]).1 <= md,
        forall|x: int, y: int| 0 <= x < y < nodes.len()
            ==> node_labels(nodes)[x] != node_labels(nodes)[y],
        roots.len() <= queue.len(),
        forall|i: int| 0 <= i < roots.len() ==> (#[trigger] queue[i]) == (roots[i], 0i32),
        discovery_prov(nodes, roots, queue, bounded),
        forall|p: int|
            #![trigger queue[p]]
            0 <= p < queue.len() && (!bounded || queue[p].1 < md)
                ==> match graph_lookup(nodes, queue[p].0) {
                    Some(nd) => forall|dj: int| 0 <= dj < nd.deps@.len() ==> exists|j: int|
                        0 <= j < queue.len() && (#[trigger] queue[j]).0 == (#[trigger] nd.deps@[dj])
                        && queue[j].1 <= queue[p].1 + 1,
                    None => true,
                },
    ensures
        level_ordered(nodes, roots, labels),
{
    assert forall|a: int, b: int, k: int|
        #![trigger labels[a], reachable_within(nodes, roots, labels[b], k)]
        0 <= a <= b < labels.len() && 0 <= k
        && reachable_within(nodes, roots, labels[b], k)
        implies reachable_within(nodes, roots, labels[a], k) by {
        lemma_bfs_level_order(nodes, roots, queue, labels, bounded, md, a, b, k);
    }
}

/// After a complete breadth-first pass over the queue history — roots
/// seeded at depth zero, depths never decreasing, every entry processed
/// under the bound having all its dependencies recorded at most one
/// level deeper — every label within `k` edges of a root has an entry
/// recorded at depth at most `k`.
proof fn lemma_bfs_complete(
    nodes: Seq<GraphNode>,
    roots: Seq<TargetLabel>,
    queue: Seq<(TargetLabel, i32)>,
    bounded: bool,
    md: int,
    k: int,
)
    requires
        0 <= k,
        bounded ==> k <= md,
        forall|a: int, b: int| 0 <= a < b < nodes.len()
            ==> node_labels(nodes)[a] != node_labels(nodes)[b],
        roots.len() <= queue.len(),
        forall|i: int| 0 <= i < roots.len() ==> (#[trigger] queue[i]) == (roots[i], 0i32),
        forall|p: int|
            #![trigger queue[p]]
            0 <= p < queue.len() && (!bounded || queue[p].1 < md)
                ==> match graph_lookup(nodes, queue[p].0) {
                    Some(nd) => forall|dj: int| 0 <= dj < nd.deps@.len() ==> exists|j: int|
                        0 <= j < queue.len() && (#[trigger] queue[j]).0 == (#[trigger] nd.deps@[dj])
                        && queue[j].1 <= queue[p].1 + 1,
                    None => true,
                },
    ensures
        forall|l: TargetLabel| reachable_within(nodes, roots, l, k) ==> exists|j: int|
            0 <= j < queue.len() && (#[trigger] queue[j]).0 == l && queue[j].1 <= k,
    decreases k,
{
    reveal(reachable_within);
    assert forall|l: TargetLabel| reachable_within(nodes, roots, l, k) implies exists|j: int|
        0 <= j < queue.len() && (#[trigger] queue[j]).0 == l && queue[j].1 <= k by {
        let path = choose|path: Seq<TargetLabel>|
            is_dep_path(nodes, path) && roots.contains(#[trigger] path[0])
            && path.last() == l && path.len() <= k + 1;
        if path.len() <= k {
            // the walk is shorter: already within k - 1 edges
            lemma_bfs_complete(nodes, roots, queue, bounded, md, k - 1);
            assert(reachable_within(nodes, roots, l, k - 1));
            let j0 = choose|j0: int| 0 <= j0 < queue.len()
                && (#[trigger] queue[j0]).0 == l && queue[j0].1 <= k - 1;
            assert(queue[j0].0 == l && queue[j0].1 <= k);
        } else if k == 0 {
            // a single label: l is itself a root
            let ri = choose|ri: int| 0 <= ri < roots.len() && roots[ri] == path[0];
            assert(queue[ri].0 == l && queue[ri].1 <= 0);
        } else {
            // the walk has exactly k edges; step back once
            let y = path[k - 1];
            let pre = path.take(k);
            assert(is_dep_path(nodes, pre)) by {
                assert forall|i: int| 0 <= i < pre.len() - 1
                    implies has_edge(nodes, pre[i], #[trigger] pre[i + 1]) by {
                    assert(pre[i] == path[i] && pre[i + 1] == path[i + 1]);
                    assert(has_edge(nodes, path[i], path[i + 1]));
                }
            }
            assert(pre.last() == y && pre[0] == path[0] && pre.len() == k);
            assert(reachable_within(nodes, roots, y, k - 1));
            lemma_bfs_complete(nodes, roots, queue, bounded, md, k - 1);
            let jy = choose|jy: int| 0 <= jy < queue.len()
                && (#[trigger] queue[jy]).0 == y && queue[jy].1 <= k - 1;
            assert(path.len() == k + 1);
            assert(path.last() == path[k as int]);
            assert(0 <= k - 1 < path.len() - 1);
            assert(has_edge(nodes, path[k - 1], path[(k - 1) + 1]));
            assert(has_edge(nodes, path[k - 1], path[k as int]));
            let gi = choose|gi: int| 0 <= gi < nodes.len()
                && (#[trigger] nodes[gi]).label == y && nodes[gi].deps@.contains(l);
            lemma_lookup_of_member(nodes, nodes[gi], gi);
            match graph_lookup(nodes, y) {
                Some(nd) => {
                    assert(nd.deps@ == nodes[gi].deps@);
                    let dj = choose|dj: int| 0 <= dj < nd.deps@.len() && nd.deps@[dj] == l;
                    assert(queue[jy].1 < md || !bounded);
                    assert(exists|j: int| 0 <= j < queue.len()
                        && (#[trigger] queue[j]).0 == nd.deps@[dj]
                        && queue[j].1 <= queue[jy].1 + 1);
                    let j1 = choose|j1: int| 0 <= j1 < queue.len()
                        && (#[trigger] queue[j1]).0 == nd.deps@[dj]
                        && queue[j1].1 <= queue[jy].1 + 1;
                    assert(queue[j1].0 == l && queue[j1].1 <= k);
                },
                None => {},
            }
        }
    }
}

impl<'a> ConfiguredGraphQueryEnvironment<'a> {
    /// The dependency closure of a target set, breadth first, merging the
    /// visited set and the result set into one: starting from the targets,
    /// each member's dependency edges are followed and every newly seen
    /// node is appended, up to the depth bound. Depth semantics: absent or
    /// negative means unlimited; zero means only the roots; a positive
    /// bound means at most that many edges from any root.
    #[verifier::rlimit(100)]
    #[verifier::spinoff_prover]
    pub fn deps(&self, targets: &TargetSet, depth: Option<i32>) -> (r: TargetSet)
        requires
            targets.wf(),
            self.delegate.graph_wf(),
            forall|i: int| 0 <= i < targets.nodes@.len()
                ==> self.delegate.node_in_graph(#[trigger] targets.nodes@[i]),
        ensures
            r.wf(),
            targets.labels().is_prefix_of(r.labels()),
            forall|i: int| 0 <= i < r.nodes@.len()
                ==> self.delegate.node_in_graph(#[trigger] r.nodes@[i]),
            depth == Some(0i32) ==> r.labels() == targets.labels(),
            parents_witnessed(targets.nodes@.len() as int, r.nodes@),
            // membership is exactly bounded reachability: within m edges of a
            // root for a nonnegative depth, any number of edges otherwise
            depth matches Some(m) ==> (m >= 0 ==> forall|l: TargetLabel|
                (#[trigger] r.labels().contains(l))
                    <==> reachable_within(self.delegate.nodes@, targets.labels(), l, m as int)),
            // a bounded run discovers breadth first: members come in
            // nondecreasing distance from the roots
            depth matches Some(m) ==> (m >= 0
                ==> level_ordered(self.delegate.nodes@, targets.labels(), r.labels())),
            (match depth { None => true, Some(m) => m < 0 }) ==> forall|l: TargetLabel|
                (#[trigger] r.labels().contains(l))
                    <==> reachable(self.delegate.nodes@, targets.labels(), l),
    {
        let unlimited: bool = match depth {
            None => true,
            Some(md) => md < 0,
        };
        let ghost bounded: bool = !unlimited;
        let ghost md: int = match depth {
            None => -1int,
            Some(m) => m as int,
        };
        let ghost gnodes = self.delegate.nodes@;
        let ghost roots = targets.labels();
        let mut result = TargetSet::new();
        let mut queue: Vec<(TargetLabel, i32)> = Vec::new();
        let mut qhead: usize = 0;

        let mut i: usize = 0;
        proof {
            assert(result.labels() =~= targets.labels().take(0));
        }
        while i < targets.len()
            invariant
                i <= targets.nodes@.len(),
                self.delegate.graph_wf(),
                targets.wf(),
                forall|k: int| 0 <= k < targets.nodes@.len()
                    ==> self.delegate.node_in_graph(#[trigger] targets.nodes@[k]),
                result.wf(),
                result.labels() == targets.labels().take(i as int),
                forall|k: int| 0 <= k < result.nodes@.len()
                    ==> self.delegate.node_in_graph(#[trigger] result.nodes@[k]),
                queue@.len() == i,
                qhead == 0,
                forall|k: int| 0 <= k < queue@.len()
                    ==> (#[trigger] queue@[k]) == (targets.labels()[k], 0i32),
            decreases targets.nodes@.len() - i,
        {
            let node = targets.get(i);
            let dup = duplicate_node(node);
            proof {
                assert(self.delegate.node_in_graph(*node));
                let gi = choose|gi: int| 0 <= gi < self.delegate.nodes@.len()
                    && node_matches(#[trigger] self.delegate.nodes@[gi], *node);
                assert(node_matches(self.delegate.nodes@[gi], dup));
                assert(targets.labels()[i as int] == node.label);
                assert(!targets.labels().take(i as int).contains(node.label));
            }
            result.insert(dup);
            queue.push((node.label, 0));
            i = i + 1;
            proof {
                assert(result.labels() =~= targets.labels().take(i as int));
            }
        }
        proof {
            assert(targets.labels().take(targets.labels().len() as int) =~= targets.labels());
            assert(targets.labels().is_prefix_of(result.labels()));
            assert forall|k: int| 0 <= k < result.nodes@.len() implies exists|q: int|
                0 <= q < queue@.len() && (#[trigger] queue@[q]).0 == (#[trigger] result.nodes@[k]).label by {
                assert(queue@[k].0 == targets.labels()[k]);
                assert(result.labels()[k] == result.nodes@[k].label);
            }
        }

        while qhead < queue.len()
            invariant
                qhead <= queue@.len(),
                self.delegate.graph_wf(),
                gnodes == self.delegate.nodes@,
                roots == targets.labels(),
                targets.wf(),
                unlimited == (match depth { None => true, Some(m) => m < 0 }),
                bounded == !unlimited,
                md == (match depth { None => -1int, Some(m) => m as int }),
                result.wf(),
                targets.labels().is_prefix_of(result.labels()),
                forall|k: int| 0 <= k < result.nodes@.len()
                    ==> self.delegate.node_in_graph(#[trigger] result.nodes@[k]),
                forall|k: int| 0 <= k < queue@.len() ==> (#[trigger] queue@[k]).1 >= 0,
                depth == Some(0i32) ==> result.labels() == targets.labels(),
                parents_witnessed(targets.nodes@.len() as int, result.nodes@),
                // the queue is the discovery history: one entry per member
                queue@.len() == result.nodes@.len(),
                forall|k: int| 0 <= k < queue@.len()
                    ==> (#[trigger] queue@[k]).0 == result.labels()[k],
                forall|k: int| 0 <= k < targets.nodes@.len()
                    ==> (#[trigger] queue@[k]) == (targets.labels()[k], 0i32),
                !bounded ==> forall|k: int| 0 <= k < queue@.len() ==> (#[trigger] queue@[k]).1 == 0,
                bounded ==> forall|a: int, b: int| 0 <= a <= b < queue@.len()
                    ==> (#[trigger] queue@[a]).1 <= (#[trigger] queue@[b]).1,
                bounded ==> forall|a: int, b: int| qhead <= a <= b < queue@.len()
                    ==> (#[trigger] queue@[b]).1 <= (#[trigger] queue@[a]).1 + 1,
                bounded ==> forall|k: int| 0 <= k < queue@.len() ==> (#[trigger] queue@[k]).1 <= md,
                forall|j: int| targets.nodes@.len() <= j < queue@.len() ==> exists|p: int|
                    0 <= p < j && p < qhead
                    && has_edge(gnodes, queue@[p].0, (#[trigger] queue@[j]).0)
                    && (!bounded || queue@[j].1 == queue@[p].1 + 1),
                forall|p: int|
                    #![trigger queue@[p]]
                    0 <= p < qhead && (!bounded || queue@[p].1 < md)
                        ==> match graph_lookup(gnodes, queue@[p].0) {
                            Some(nd) => forall|dj: int| 0 <= dj < nd.deps@.len() ==> exists|j: int|
                                0 <= j < queue@.len() && (#[trigger] queue@[j]).0 == (#[trigger] nd.deps@[dj])
                                && queue@[j].1 <= queue@[p].1 + 1,
                            None => true,
                        },
            decreases unvisited(self.delegate.nodes@, result.labels()), queue@.len() - qhead,
        {
            let entry = queue[qhead];
            let lab = entry.0;
            let cur_depth = entry.1;
            qhead = qhead + 1;
            proof {
                assert(queue@[qhead - 1] == (lab, cur_depth));
            }
            let process: bool = match depth {
                None => true,
                Some(md0) => md0 < 0 || cur_depth < md0,
            };
            if process {
                proof {
                    assert(bounded ==> cur_depth < md);
                }
                match self.delegate.node_by_label(lab) {
                    None => {
                        proof {
                            let mk = qhead - 1;
                            assert(result.labels()[mk] == lab);
                            assert(self.delegate.node_in_graph(result.nodes@[mk]));
                            let gi = choose|gi: int| 0 <= gi < self.delegate.nodes@.len()
                                && node_matches(#[trigger] self.delegate.nodes@[gi], result.nodes@[mk]);
                            assert(node_labels(self.delegate.nodes@)[gi] == lab);
                            assert(node_labels(self.delegate.nodes@).contains(lab));
                            lemma_graph_lookup_some(self.delegate.nodes@, lab);
                            assert(false);
                        }
                    },
                    Some(node) => {
                        proof {
                            lemma_graph_lookup_member(gnodes, lab);
                            assert(bounded ==> forall|b: int| qhead - 1 <= b < queue@.len()
                                ==> (#[trigger] queue@[b]).1 <= cur_depth + 1);
                        }
                        let ghost labels_at = result.labels();
                        let ghost queue_at = queue@;
                        let mut di: usize = 0;
                        while di < node.deps.len()
                            invariant
                                di <= node.deps@.len(),
                                self.delegate.graph_wf(),
                                gnodes == self.delegate.nodes@,
                                roots == targets.labels(),
                                targets.wf(),
                                unlimited == (match depth { None => true, Some(m) => m < 0 }),
                                bounded == !unlimited,
                                md == (match depth { None => -1int, Some(m) => m as int }),
                                result.wf(),
                                targets.labels().is_prefix_of(result.labels()),
                                forall|k: int| 0 <= k < result.nodes@.len()
                                    ==> self.delegate.node_in_graph(#[trigger] result.nodes@[k]),
                                forall|k: int| 0 <= k < queue@.len() ==> (#[trigger] queue@[k]).1 >= 0,
                                cur_depth >= 0,
                                1 <= qhead <= queue@.len(),
                                queue@[qhead - 1] == (lab, cur_depth),
                                graph_lookup(gnodes, lab) == Some(*node),
                                forall|x: TargetLabel| labels_at.contains(x) ==> result.labels().contains(x),
                                unvisited(self.delegate.nodes@, result.labels())
                                    <= unvisited(self.delegate.nodes@, labels_at),
                                result.labels() != labels_at
                                    ==> unvisited(self.delegate.nodes@, result.labels())
                                        < unvisited(self.delegate.nodes@, labels_at),
                                result.labels() == labels_at ==> queue@ == queue_at,
                                forall|dj: int| 0 <= dj < di
                                    ==> result.labels().contains(#[trigger] node.deps@[dj]),
                                parents_witnessed(targets.nodes@.len() as int, result.nodes@),
                                queue@.len() == result.nodes@.len(),
                                forall|k: int| 0 <= k < queue@.len()
                                    ==> (#[trigger] queue@[k]).0 == result.labels()[k],
                                forall|k: int| 0 <= k < targets.nodes@.len()
                                    ==> (#[trigger] queue@[k]) == (targets.labels()[k], 0i32),
                                !bounded ==> forall|k: int| 0 <= k < queue@.len() ==> (#[trigger] queue@[k]).1 == 0,
                                bounded ==> forall|a: int, b: int| 0 <= a <= b < queue@.len()
                                    ==> (#[trigger] queue@[a]).1 <= (#[trigger] queue@[b]).1,
                                bounded ==> forall|a: int, b: int| qhead <= a <= b < queue@.len()
                                    ==> (#[trigger] queue@[b]).1 <= (#[trigger] queue@[a]).1 + 1,
                                bounded ==> forall|b: int| qhead - 1 <= b < queue@.len()
                                    ==> (#[trigger] queue@[b]).1 <= cur_depth + 1,
                                bounded ==> cur_depth < md,
                                bounded ==> forall|k: int| 0 <= k < queue@.len() ==> (#[trigger] queue@[k]).1 <= md,
                                forall|j: int| targets.nodes@.len() <= j < queue@.len() ==> exists|p: int|
                                    0 <= p < j && p < qhead
                                    && has_edge(gnodes, queue@[p].0, (#[trigger] queue@[j]).0)
                                    && (!bounded || queue@[j].1 == queue@[p].1 + 1),
                                forall|p: int|
                                    #![trigger queue@[p]]
                                    0 <= p < qhead - 1 && (!bounded || queue@[p].1 < md)
                                        ==> match graph_lookup(gnodes, queue@[p].0) {
                                            Some(nd) => forall|dj: int| 0 <= dj < nd.deps@.len() ==> exists|j: int|
                                                0 <= j < queue@.len() && (#[trigger] queue@[j]).0 == (#[trigger] nd.deps@[dj])
                                                && queue@[j].1 <= queue@[p].1 + 1,
                                            None => true,
                                        },
                                forall|dj: int| 0 <= dj < di ==> exists|j: int|
                                    0 <= j < queue@.len() && (#[trigger] queue@[j]).0 == (#[trigger] node.deps@[dj])
                                    && queue@[j].1 <= cur_depth + 1,
                            decreases node.deps@.len() - di,
                        {
                            let d = node.deps[di];
                            proof {
                                lemma_graph_lookup_member(gnodes, lab);
                            }
                            if !result.contains_label(d) {
                                proof {
                                    let gi = choose|gi: int| 0 <= gi < self.delegate.nodes@.len()
                                        && self.delegate.nodes@[gi] == *node;
                                    assert(self.delegate.nodes@[gi].deps@[di as int] == d);
                                    assert(node_labels(self.delegate.nodes@).contains(d));
                                    lemma_graph_lookup_some(self.delegate.nodes@, d);
                                }
                                match self.delegate.node_by_label(d) {
                                    None => {
                                        proof {
                                            assert(false);
                                        }
                                    },
                                    Some(dn) => {
                                        proof {
                                            lemma_graph_lookup_member(self.delegate.nodes@, d);
                                        }
                                        let dup = duplicate_node(dn);
                                        proof {
                                            let gi = choose|gi: int| 0 <= gi < self.delegate.nodes@.len()
                                                && self.delegate.nodes@[gi] == *dn;
                                            assert(node_matches(self.delegate.nodes@[gi], dup));
                                        }
                                        let ghost before = result.labels();
                                        let ghost result_pre = result.nodes@;
                                        let ghost queue_pre = queue@;
                                        result.insert(dup);
                                        let child_depth: i32 = match depth {
                                            None => 0,
                                            Some(md0) => if md0 < 0 { 0 } else { cur_depth + 1 },
                                        };
                                        queue.push((d, child_depth));
                                        proof {
                                            assert(result.labels() =~= before.push(d));
                                            assert(result.labels().contains(d)) by {
                                                assert(result.labels()[before.len() as int] == d);
                                            }
                                            assert forall|x: TargetLabel| before.contains(x)
                                                implies result.labels().contains(x) by {
                                                let ix = choose|ix: int| 0 <= ix < before.len() && before[ix] == x;
                                                assert(result.labels()[ix] == x);
                                            }
                                            let ghost newj = queue_pre.len() as int;
                                            assert(queue@.len() == queue_pre.len() + 1);
                                            assert(forall|x: int| 0 <= x < queue_pre.len() ==> #[trigger] queue@[x] == queue_pre[x]);
                                            assert(queue@[newj] == (d, child_depth));
                                            assert(bounded ==> child_depth == cur_depth + 1);
                                            assert(!bounded ==> child_depth == 0);
                                            assert(label_space(self.delegate.nodes@).contains(d));
                                            lemma_unvisited_insert(self.delegate.nodes@, before, result.labels(), d);
                                            lemma_unvisited_mono(self.delegate.nodes@, labels_at, before);
                                            // the popped member's edges witness the new member
                                            let mk = choose|mk: int| 0 <= mk < before.len()
                                                && before[mk] == lab;
                                            let mnode = result_pre[mk];
                                            let gim = choose|gim: int| 0 <= gim < self.delegate.nodes@.len()
                                                && node_matches(#[trigger] self.delegate.nodes@[gim], mnode);
                                            lemma_lookup_of_member(self.delegate.nodes@, mnode, gim);
                                            assert(mnode.deps@ == node.deps@);
                                            assert(result.nodes@[mk] == mnode);
                                            assert(result.nodes@[mk].deps@.contains(d)) by {
                                                assert(node.deps@[di as int] == d);
                                            }
                                            assert forall|k: int|
                                                #![trigger result.nodes@[k]]
                                                targets.nodes@.len() <= k < result.nodes@.len()
                                                implies exists|j: int|
                                                    0 <= j < result.nodes@.len()
                                                    && (#[trigger] result.nodes@[j]).deps@.contains(result.nodes@[k].label) by {
                                                if k < result_pre.len() {
                                                    let j0 = choose|j0: int| 0 <= j0 < result_pre.len()
                                                        && (#[trigger] result_pre[j0]).deps@.contains(result_pre[k].label);
                                                    assert(result.nodes@[j0] == result_pre[j0]);
                                                } else {
                                                    assert(result.nodes@[k] == dup);
                                                    assert(result.nodes@[mk].deps@.contains(dup.label));
                                                }
                                            }
                                            // the new entry's provenance is the popped one
                                            let gi2 = choose|gi2: int| 0 <= gi2 < gnodes.len()
                                                && gnodes[gi2] == *node;
                                            assert(gnodes[gi2].label == lab && gnodes[gi2].deps@.contains(d));
                                            assert(has_edge(gnodes, lab, d));
                                            assert(queue@[qhead - 1] == (lab, cur_depth));
                                            assert forall|j: int| targets.nodes@.len() <= j < queue@.len()
                                                implies exists|p: int|
                                                    0 <= p < j && p < qhead
                                                    && has_edge(gnodes, queue@[p].0, (#[trigger] queue@[j]).0)
                                                    && (!bounded || queue@[j].1 == queue@[p].1 + 1) by {
                                                if j < newj {
                                                    let pp = choose|pp: int| 0 <= pp < j && pp < qhead
                                                        && has_edge(gnodes, queue_pre[pp].0, queue_pre[j].0)
                                                        && (!bounded || queue_pre[j].1 == queue_pre[pp].1 + 1);
                                                    assert(queue@[pp] == queue_pre[pp] && queue@[j] == queue_pre[j]);
                                                } else {
                                                    assert(queue@[j] == (d, child_depth));
                                                    assert(0 <= qhead - 1 < j && qhead - 1 < qhead);
                                                    assert(has_edge(gnodes, queue@[qhead - 1].0, queue@[j].0));
                                                    assert(!bounded || queue@[j].1 == queue@[qhead - 1].1 + 1);
                                                }
                                            }
                                            if bounded {
                                                // depth order is kept: the new entry is deepest
                                                assert forall|a: int, b: int| 0 <= a <= b < queue@.len()
                                                    implies (#[trigger] queue@[a]).1 <= (#[trigger] queue@[b]).1 by {
                                                    if b < newj {
                                                        assert(queue@[a] == queue_pre[a] && queue@[b] == queue_pre[b]);
                                                    } else if a < newj {
                                                        assert(queue@[a] == queue_pre[a]);
                                                        if a <= qhead - 1 {
                                                            assert(queue_pre[a].1 <= queue_pre[qhead - 1].1);
                                                        } else {
                                                            assert(queue_pre[a].1 <= cur_depth + 1);
                                                        }
                                                    }
                                                }
                                                assert forall|a: int, b: int| qhead <= a <= b < queue@.len()
                                                    implies (#[trigger] queue@[b]).1 <= (#[trigger] queue@[a]).1 + 1 by {
                                                    if b < newj {
                                                        assert(queue@[a] == queue_pre[a] && queue@[b] == queue_pre[b]);
                                                    } else if a < newj {
                                                        assert(queue@[a] == queue_pre[a]);
                                                        assert(queue_pre[qhead - 1].1 <= queue_pre[a].1);
                                                    }
                                                }
                                            }
                                            // the processed prefix still has its dependencies recorded
                                            assert forall|p: int|
                                                #![trigger queue@[p]]
                                                0 <= p < qhead - 1 && (!bounded || queue@[p].1 < md)
                                                implies match graph_lookup(gnodes, queue@[p].0) {
                                                    Some(nd) => forall|dj: int| 0 <= dj < nd.deps@.len() ==> exists|j: int|
                                                        0 <= j < queue@.len() && (#[trigger] queue@[j]).0 == (#[trigger] nd.deps@[dj])
                                                        && queue@[j].1 <= queue@[p].1 + 1,
                                                    None => true,
                                                } by {
                                                assert(queue@[p] == queue_pre[p]);
                                                match graph_lookup(gnodes, queue_pre[p].0) {
                                                    Some(nd) => {
                                                        assert forall|dj: int| 0 <= dj < nd.deps@.len() implies exists|j: int|
                                                            0 <= j < queue@.len() && (#[trigger] queue@[j]).0 == (#[trigger] nd.deps@[dj])
                                                            && queue@[j].1 <= queue@[p].1 + 1 by {
                                                            let j0 = choose|j0: int| 0 <= j0 < queue_pre.len()
                                                                && (#[trigger] queue_pre[j0]).0 == nd.deps@[dj]
                                                                && queue_pre[j0].1 <= queue_pre[p].1 + 1;
                                                            assert(queue@[j0] == queue_pre[j0]);
                                                        }
                                                    },
                                                    None => {},
                                                }
                                            }
                                            // and this node's handled dependencies, the new one last
                                            assert forall|dj: int| 0 <= dj < di + 1 implies exists|j: int|
                                                0 <= j < queue@.len() && (#[trigger] queue@[j]).0 == (#[trigger] node.deps@[dj])
                                                && queue@[j].1 <= cur_depth + 1 by {
                                                if dj < di {
                                                    let j0 = choose|j0: int| 0 <= j0 < queue_pre.len()
                                                        && (#[trigger] queue_pre[j0]).0 == node.deps@[dj]
                                                        && queue_pre[j0].1 <= cur_depth + 1;
                                                    assert(queue@[j0] == queue_pre[j0]);
                                                } else {
                                                    assert(queue@[newj].0 == d && queue@[newj].1 <= cur_depth + 1);
                                                }
                                            }
                                        }
                                    },
                                }
                            } else {
                                proof {
                                    // already recorded: either a root at depth zero, or
                                    // discovered from an already-processed, hence
                                    // no-deeper, entry
                                    let jx = choose|jx: int| 0 <= jx < result.labels().len()
                                        && result.labels()[jx] == d;
                                    assert(queue@[jx].0 == d);
                                    if bounded {
                                        if jx < targets.nodes@.len() {
                                            assert(queue@[jx].1 == 0);
                                        } else {
                                            let pp = choose|pp: int| 0 <= pp < jx && pp < qhead
                                                && has_edge(gnodes, queue@[pp].0, queue@[jx].0)
                                                && queue@[jx].1 == queue@[pp].1 + 1;
                                            assert(pp <= qhead - 1);
                                            assert(queue@[pp].1 <= queue@[qhead - 1].1);
                                        }
                                    }
                                    assert(queue@[jx].1 <= cur_depth + 1);
                                    assert forall|dj: int| 0 <= dj < di + 1 implies exists|j: int|
                                        0 <= j < queue@.len() && (#[trigger] queue@[j]).0 == (#[trigger] node.deps@[dj])
                                        && queue@[j].1 <= cur_depth + 1 by {
                                        if dj == di {
                                            assert(queue@[jx].0 == node.deps@[dj] && queue@[jx].1 <= cur_depth + 1);
                                        }
                                    }
                                }
                            }
                            di = di + 1;
                        }
                        proof {
                            // the popped entry is now fully processed
                            assert forall|p: int|
                                #![trigger queue@[p]]
                                0 <= p < qhead && (!bounded || queue@[p].1 < md)
                                implies match graph_lookup(gnodes, queue@[p].0) {
                                    Some(nd) => forall|dj: int| 0 <= dj < nd.deps@.len() ==> exists|j: int|
                                        0 <= j < queue@.len() && (#[trigger] queue@[j]).0 == (#[trigger] nd.deps@[dj])
                                        && queue@[j].1 <= queue@[p].1 + 1,
                                    None => true,
                                } by {
                                if p == qhead - 1 {
                                    assert(graph_lookup(gnodes, queue@[p].0) == Some(*node));
                                }
                            }
                        }
                    },
                }
            }
        }
        proof {
            assert(qhead == queue@.len());
            assert(discovery_prov(gnodes, roots, queue@, bounded)) by {
                assert forall|jj: int| roots.len() <= jj < queue@.len()
                    implies #[trigger] has_parent(gnodes, queue@, jj, bounded) by {
                    assert(targets.nodes@.len() == roots.len());
                    let p = choose|p: int| 0 <= p < jj && p < qhead
                        && has_edge(gnodes, queue@[p].0, (#[trigger] queue@[jj]).0)
                        && (!bounded || queue@[jj].1 == queue@[p].1 + 1);
                    assert(0 <= p < jj && has_edge(gnodes, (#[trigger] queue@[p]).0, queue@[jj].0)
                        && (!bounded || queue@[jj].1 == queue@[p].1 + 1));
                }
            }
            // soundness and completeness of membership, per depth mode
            reveal(reachable);
            reveal(reachable_within);
            if unlimited {
                assert forall|l: TargetLabel| #[trigger] result.labels().contains(l)
                    implies reachable(gnodes, roots, l) by {
                    let j = choose|j: int| 0 <= j < result.labels().len() && result.labels()[j] == l;
                    assert(queue@[j].0 == l);
                    lemma_history_sound(gnodes, roots, queue@, bounded, j);
                }
                assert forall|l: TargetLabel| reachable(gnodes, roots, l)
                    implies #[trigger] result.labels().contains(l) by {
                    let path = choose|path: Seq<TargetLabel>|
                        is_dep_path(gnodes, path) && roots.contains(#[trigger] path[0]) && path.last() == l;
                    let k = path.len() - 1;
                    assert(reachable_within(gnodes, roots, l, k));
                    lemma_bfs_complete(gnodes, roots, queue@, false, 0, k);
                    let j = choose|j: int| 0 <= j < queue@.len()
                        && (#[trigger] queue@[j]).0 == l && queue@[j].1 <= k;
                    assert(result.labels()[j] == l);
                }
            } else {
                assert forall|l: TargetLabel| #[trigger] result.labels().contains(l)
                    implies reachable_within(gnodes, roots, l, md) by {
                    let j = choose|j: int| 0 <= j < result.labels().len() && result.labels()[j] == l;
                    assert(queue@[j].0 == l);
                    lemma_history_sound(gnodes, roots, queue@, bounded, j);
                    assert(reachable_within(gnodes, roots, l, queue@[j].1 as int));
                    let path = choose|path: Seq<TargetLabel>|
                        is_dep_path(gnodes, path) && roots.contains(#[trigger] path[0])
                        && path.last() == l && path.len() <= queue@[j].1 + 1;
                    assert(path.len() <= md + 1);
                }
                assert forall|l: TargetLabel| reachable_within(gnodes, roots, l, md)
                    implies #[trigger] result.labels().contains(l) by {
                    lemma_bfs_complete(gnodes, roots, queue@, true, md, md);
                    let j = choose|j: int| 0 <= j < queue@.len()
                        && (#[trigger] queue@[j]).0 == l && queue@[j].1 <= md;
                    assert(result.labels()[j] == l);
                }
                assert forall|x: int, y: int| 0 <= x < y < result.labels().len()
                    implies (#[trigger] result.labels()[x]) != (#[trigger] result.labels()[y]) by {}
                lemma_bfs_level_order_all(gnodes, roots, queue@, result.labels(), bounded, md);
            }
        }
        result
    }

    /// Depth-limited traversal from the roots: the nodes within the given
    /// number of dependency edges, in breadth-first discovery order.
    pub fn depth_limited_traversal(&self, root: &TargetSet, depth: i32) -> (r: TargetSet)
        requires
            depth >= 0,
            root.wf(),
            self.delegate.graph_wf(),
            forall|i: int| 0 <= i < root.nodes@.len()
                ==> self.delegate.node_in_graph(#[trigger] root.nodes@[i]),
        ensures
            r.wf(),
            root.labels().is_prefix_of(r.labels()),
            forall|i: int| 0 <= i < r.nodes@.len()
                ==> self.delegate.node_in_graph(#[trigger] r.nodes@[i]),
            depth == 0 ==> r.labels() == root.labels(),
            parents_witnessed(root.nodes@.len() as int, r.nodes@),
            // visits exactly the nodes within `depth` edges of a root
            forall|l: TargetLabel| (#[trigger] r.labels().contains(l))
                <==> reachable_within(self.delegate.nodes@, root.labels(), l, depth as int),
            // breadth first: members come in nondecreasing distance
            level_ordered(self.delegate.nodes@, root.labels(), r.labels()),
    {
        self.deps(root, Some(depth))
    }

    /// One depth-first visit: walks the node's unvisited dependencies
    /// first, then emits the node, so dependencies always precede their
    /// dependents in the output. The ghost ancestor stack carries the
    /// rooted walk down to this label: the visited-but-unemitted labels
    /// are exactly that stack, which is what rules out an unemitted
    /// dependency at emission time in an acyclic graph.
    #[verifier::loop_isolation(false)]
    fn dfs_visit(
        &self,
        l: TargetLabel,
        visited: &mut LabelSet,
        out: &mut Vec<GraphNode>,
        Ghost(roots): Ghost<Seq<TargetLabel>>,
        Ghost(ancestors): Ghost<Seq<TargetLabel>>,
    )
        requires
            self.delegate.graph_wf(),
            acyclic(self.delegate.nodes@),
            node_labels(self.delegate.nodes@).contains(l),
            old(visited).wf(),
            old(visited).labels@.contains(l),
            forall|i: int, j: int| 0 <= i < j < old(out)@.len()
                ==> (#[trigger] old(out)@[i]).label != (#[trigger] old(out)@[j]).label,
            forall|i: int| 0 <= i < old(out)@.len()
                ==> self.delegate.node_in_graph(#[trigger] old(out)@[i]),
            forall|i: int| 0 <= i < old(out)@.len()
                ==> old(visited).labels@.contains((#[trigger] old(out)@[i]).label),
            !node_labels(old(out)@).contains(l),
            is_dep_path(self.delegate.nodes@, ancestors.push(l)),
            roots.contains(ancestors.push(l)[0]),
            forall|x: TargetLabel| old(visited).labels@.contains(x)
                && !node_labels(old(out)@).contains(x) ==> ancestors.push(l).contains(x),
            forall|x: TargetLabel| old(visited).labels@.contains(x)
                ==> reachable(self.delegate.nodes@, roots, x),
            emitted_closed(old(out)@, old(visited).labels@),
            deps_first(old(out)@),
        ensures
            final(visited).wf(),
            forall|x: TargetLabel| old(visited).labels@.contains(x)
                ==> final(visited).labels@.contains(x),
            old(out)@.is_prefix_of(final(out)@),
            forall|i: int, j: int| 0 <= i < j < final(out)@.len()
                ==> (#[trigger] final(out)@[i]).label != (#[trigger] final(out)@[j]).label,
            forall|i: int| 0 <= i < final(out)@.len()
                ==> self.delegate.node_in_graph(#[trigger] final(out)@[i]),
            forall|i: int| 0 <= i < final(out)@.len()
                ==> final(visited).labels@.contains((#[trigger] final(out)@[i]).label),
            forall|x: TargetLabel| final(visited).labels@.contains(x)
                ==> old(visited).labels@.contains(x) || node_labels(final(out)@).contains(x),
            forall|i: int| old(out)@.len() <= i < final(out)@.len()
                ==> ((#[trigger] final(out)@[i]).label == l
                    || !old(visited).labels@.contains(final(out)@[i].label)),
            final(out)@.len() > old(out)@.len(),
            final(out)@.last().label == l,
            forall|x: TargetLabel| final(visited).labels@.contains(x)
                && !node_labels(final(out)@).contains(x) ==> ancestors.contains(x),
            forall|x: TargetLabel| final(visited).labels@.contains(x)
                ==> reachable(self.delegate.nodes@, roots, x),
            emitted_closed(final(out)@, final(visited).labels@),
            deps_first(final(out)@),
        decreases unvisited(self.delegate.nodes@, old(visited).labels@),
    {
        let node = match self.delegate.node_by_label(l) {
            Some(n) => n,
            None => {
                proof {
                    lemma_graph_lookup_some(self.delegate.nodes@, l);
                }
                vstd::pervasive::unreached()
            },
        };
        proof {
            lemma_graph_lookup_member(self.delegate.nodes@, l);
        }
        let ghost vis0 = visited.labels@;
        let ghost out0 = out@;
        let ghost stack = ancestors.push(l);
        let mut di: usize = 0;
        while di < node.deps.len()
            invariant
                di <= node.deps@.len(),
                visited.wf(),
                forall|x: TargetLabel| vis0.contains(x) ==> visited.labels@.contains(x),
                forall|i: int, j: int| 0 <= i < j < out@.len()
                    ==> (#[trigger] out@[i]).label != (#[trigger] out@[j]).label,
                forall|i: int| 0 <= i < out@.len()
                    ==> self.delegate.node_in_graph(#[trigger] out@[i]),
                forall|i: int| 0 <= i < out@.len()
                    ==> visited.labels@.contains((#[trigger] out@[i]).label),
                forall|x: TargetLabel| visited.labels@.contains(x)
                    ==> vis0.contains(x) || node_labels(out@).contains(x),
                forall|i: int| out0.len() <= i < out@.len()
                    ==> !vis0.contains((#[trigger] out@[i]).label),
                !node_labels(out@).contains(l),
                out0.is_prefix_of(out@),
                forall|dj: int| 0 <= dj < di ==> visited.labels@.contains(#[trigger] node.deps@[dj]),
                forall|x: TargetLabel| visited.labels@.contains(x)
                    && !node_labels(out@).contains(x) ==> stack.contains(x),
                forall|x: TargetLabel| visited.labels@.contains(x)
                    ==> reachable(self.delegate.nodes@, roots, x),
                emitted_closed(out@, visited.labels@),
                deps_first(out@),
            decreases node.deps@.len() - di,
        {
            let d = node.deps[di];
            let ghost out_iter = out@;
            let ghost vis_iter = visited.labels@;
            if !visited.contains(d) {
                let ghost vis_pre = visited.labels@;
                visited.insert(d);
                proof {
                    let gi = choose|gi: int| 0 <= gi < self.delegate.nodes@.len()
                        && self.delegate.nodes@[gi] == *node;
                    assert(self.delegate.nodes@[gi].deps@[di as int] == d);
                    assert(node_labels(self.delegate.nodes@).contains(d));
                    assert(visited.labels@ =~= vis_pre.push(d));
                    assert(visited.labels@.contains(d)) by {
                        assert(visited.labels@[vis_pre.len() as int] == d);
                    }
                    assert forall|x: TargetLabel| vis_pre.contains(x)
                        implies visited.labels@.contains(x) by {
                        let ix = choose|ix: int| 0 <= ix < vis_pre.len() && vis_pre[ix] == x;
                        assert(visited.labels@[ix] == x);
                    }
                    assert(label_space(self.delegate.nodes@).contains(d));
                    lemma_unvisited_insert(self.delegate.nodes@, vis_pre, visited.labels@, d);
                    lemma_unvisited_mono(self.delegate.nodes@, vis0, vis_pre);
                    // the stack's rooted walk extends by one edge to d
                    assert(has_edge(self.delegate.nodes@, l, d)) by {
                        assert(self.delegate.nodes@[gi].label == l);
                        assert(self.delegate.nodes@[gi].deps@.contains(d));
                    }
                    let stack2 = stack.push(d);
                    assert(is_dep_path(self.delegate.nodes@, stack2)) by {
                        assert forall|x: int| 0 <= x < stack2.len() - 1
                            implies has_edge(self.delegate.nodes@, stack2[x], #[trigger] stack2[x + 1]) by {
                            if x < stack.len() - 1 {
                                assert(stack2[x] == stack[x] && stack2[x + 1] == stack[x + 1]);
                                assert(has_edge(self.delegate.nodes@, stack[x], stack[x + 1]));
                            } else {
                                assert(stack2[x] == stack.last() && stack2[x + 1] == d);
                                assert(stack.last() == l);
                            }
                        }
                    }
                    assert(stack2[0] == stack[0]);
                    assert(roots.contains(stack2[0]));
                    assert(reachable(self.delegate.nodes@, roots, d)) by {
                        reveal(reachable);
                        assert(stack2.last() == d);
                    }
                    assert forall|x: TargetLabel| visited.labels@.contains(x)
                        implies reachable(self.delegate.nodes@, roots, x) by {
                        let ix = choose|ix: int| 0 <= ix < visited.labels@.len()
                            && visited.labels@[ix] == x;
                        if ix < vis_pre.len() {
                            assert(vis_pre[ix] == x);
                            assert(vis_pre.contains(x));
                        } else {
                            assert(x == d);
                        }
                    }
                    assert forall|x: TargetLabel| visited.labels@.contains(x)
                        && !node_labels(out@).contains(x) implies stack2.contains(x) by {
                        let ix = choose|ix: int| 0 <= ix < visited.labels@.len()
                            && visited.labels@[ix] == x;
                        if ix < vis_pre.len() {
                            assert(vis_pre.contains(x));
                            assert(stack.contains(x));
                            let sx = choose|sx: int| 0 <= sx < stack.len() && stack[sx] == x;
                            assert(stack2[sx] == x);
                        } else {
                            assert(x == d);
                            assert(stack2[stack.len() as int] == d);
                        }
                    }
                    assert(!node_labels(out@).contains(d)) by {
                        if node_labels(out@).contains(d) {
                            let ox = choose|ox: int| 0 <= ox < out@.len()
                                && node_labels(out@)[ox] == d;
                            assert(vis_pre.contains(out@[ox].label));
                        }
                    }
                }
                let ghost vis_call = visited.labels@;
                self.dfs_visit(d, visited, out, Ghost(roots), Ghost(stack));
                proof {
                    assert forall|x: TargetLabel| visited.labels@.contains(x)
                        implies vis0.contains(x) || node_labels(out@).contains(x) by {
                        if vis_call.contains(x) {
                            if x == d {
                                assert(node_labels(out@)[out@.len() - 1] == d);
                            } else if !vis0.contains(x) {
                                assert(vis_iter.contains(x));
                                assert(node_labels(out_iter).contains(x));
                                lemma_node_labels_prefix(out_iter, out@, x);
                            }
                        } else {
                            assert(node_labels(out@).contains(x));
                        }
                    }
                    assert forall|i: int| out0.len() <= i < out@.len()
                        implies !vis0.contains((#[trigger] out@[i]).label) by {
                        if i < out_iter.len() {
                            assert(out@[i] == out_iter[i]);
                        } else {
                            assert(out@[i].label == d || !vis_call.contains(out@[i].label));
                        }
                    }
                    assert(!node_labels(out@).contains(l)) by {
                        if node_labels(out@).contains(l) {
                            let ix = choose|ix: int| 0 <= ix < out@.len()
                                && node_labels(out@)[ix] == l;
                            if ix < out_iter.len() {
                                assert(node_labels(out_iter)[ix] == l);
                                assert(node_labels(out_iter).contains(l));
                            } else {
                                assert(out@[ix].label == d || !vis_call.contains(out@[ix].label));
                                assert(vis_call.contains(l));
                            }
                        }
                    }
                }
            }
            di = di + 1;
        }
        let dup = duplicate_node(node);
        proof {
            let gi = choose|gi: int| 0 <= gi < self.delegate.nodes@.len()
                && self.delegate.nodes@[gi] == *node;
            assert(node_matches(self.delegate.nodes@[gi], dup));
        }
        let ghost out_fin = out@;
        out.push(dup);
        proof {
            assert(out@.last() == dup);
            assert(node_labels(out@).contains(l)) by {
                assert(node_labels(out@)[out@.len() - 1] == l);
            }
            assert forall|i: int, j: int| 0 <= i < j < out@.len()
                implies (#[trigger] out@[i]).label != (#[trigger] out@[j]).label by {
                if j == out@.len() - 1 {
                    assert(out@[i] == out_fin[i]);
                    if out_fin[i].label == l {
                        assert(node_labels(out_fin)[i] == l);
                        assert(node_labels(out_fin).contains(l));
                    }
                } else {
                    assert(out@[i] == out_fin[i]);
                    assert(out@[j] == out_fin[j]);
                }
            }
            assert forall|x: TargetLabel| visited.labels@.contains(x)
                implies vis0.contains(x) || node_labels(out@).contains(x) by {
                if !vis0.contains(x) {
                    assert(node_labels(out_fin).contains(x));
                    lemma_node_labels_prefix(out_fin, out@, x);
                }
            }
            // no dependency of this node is still on the stack: the graph
            // is acyclic, so all of them are already emitted
            let gi = choose|gi: int| 0 <= gi < self.delegate.nodes@.len()
                && self.delegate.nodes@[gi] == *node;
            assert(dup.deps@ == node.deps@);
            assert forall|j: int| 0 <= j < node.deps@.len() implies exists|k: int|
                0 <= k < out_fin.len() && (#[trigger] out_fin[k]).label == (#[trigger] node.deps@[j]) by {
                let dd = node.deps@[j];
                assert(visited.labels@.contains(dd));
                assert(has_edge(self.delegate.nodes@, l, dd)) by {
                    assert(self.delegate.nodes@[gi].label == l);
                    assert(self.delegate.nodes@[gi].deps@[j] == dd);
                    assert(self.delegate.nodes@[gi].deps@.contains(dd));
                }
                if !node_labels(out_fin).contains(dd) {
                    assert(stack.contains(dd));
                    let ai = choose|ai: int| 0 <= ai < stack.len() && stack[ai] == dd;
                    let cyc = stack.skip(ai).push(dd);
                    assert(is_dep_path(self.delegate.nodes@, cyc)) by {
                        assert forall|x: int| 0 <= x < cyc.len() - 1
                            implies has_edge(self.delegate.nodes@, cyc[x], #[trigger] cyc[x + 1]) by {
                            if x < stack.skip(ai).len() - 1 {
                                assert(cyc[x] == stack[ai + x] && cyc[x + 1] == stack[ai + x + 1]);
                                assert(has_edge(self.delegate.nodes@, stack[ai + x], stack[(ai + x) + 1]));
                            } else {
                                assert(cyc[x] == stack.last() && cyc[x + 1] == dd);
                                assert(stack.last() == l);
                            }
                        }
                    }
                    assert(cyc[0] == dd && cyc.last() == dd && cyc.len() >= 2);
                    assert(false);
                }
                let k = choose|k: int| 0 <= k < node_labels(out_fin).len()
                    && node_labels(out_fin)[k] == dd;
                assert(out_fin[k].label == dd);
            }
            assert(deps_first(out@)) by {
                assert forall|i: int, j: int|
                    #![trigger out@[i].deps@[j]]
                    0 <= i < out@.len() && 0 <= j < out@[i].deps@.len()
                    implies node_labels(out@.take(i)).contains(out@[i].deps@[j]) by {
                    if i < out_fin.len() {
                        assert(out@[i] == out_fin[i]);
                        assert(out_fin[i].deps@[j] == out@[i].deps@[j]);
                        assert(deps_first(out_fin));
                        assert(node_labels(out_fin.take(i)).contains(out_fin[i].deps@[j]));
                        assert(out@.take(i) =~= out_fin.take(i));
                    } else {
                        assert(out@[i] == dup);
                        assert(out@[i].deps@[j] == node.deps@[j]);
                        let k0 = choose|k0: int| 0 <= k0 < out_fin.len()
                            && (#[trigger] out_fin[k0]).label == (#[trigger] node.deps@[j]);
                        assert(out@.take(i) =~= out_fin);
                        assert(node_labels(out@.take(i))[k0] == node.deps@[j]);
                    }
                }
            }
            assert(emitted_closed(out@, visited.labels@)) by {
                assert forall|i: int, j: int|
                    #![trigger out@[i].deps@[j]]
                    0 <= i < out@.len() && 0 <= j < out@[i].deps@.len()
                    implies visited.labels@.contains(out@[i].deps@[j]) by {
                    if i < out_fin.len() {
                        assert(out@[i] == out_fin[i]);
                        assert(out_fin[i].deps@[j] == out@[i].deps@[j]);
                    } else {
                        assert(out@[i] == dup);
                        assert(out@[i].deps@[j] == node.deps@[j]);
                    }
                }
            }
            assert forall|x: TargetLabel| visited.labels@.contains(x)
                && !node_labels(out@).contains(x) implies ancestors.contains(x) by {
                assert(!node_labels(out_fin).contains(x)) by {
                    if node_labels(out_fin).contains(x) {
                        lemma_node_labels_prefix(out_fin, out@, x);
                    }
                }
                assert(stack.contains(x));
                let ix = choose|ix: int| 0 <= ix < stack.len() && stack[ix] == x;
                if ix < ancestors.len() {
                    assert(ancestors[ix] == x);
                } else {
                    assert(x == l);
                }
            }
        }
    }

    /// Depth-first postorder traversal over dependency edges from the
    /// roots: the output holds exactly the nodes reachable from a root,
    /// each once, with every node's dependencies standing earlier than
    /// the node itself; roots come in their given order.
    #[verifier::loop_isolation(false)]
    pub fn dfs_postorder(&self, root: &TargetSet) -> (r: Vec<GraphNode>)
        requires
            root.wf(),
            self.delegate.graph_wf(),
            acyclic(self.delegate.nodes@),
            forall|i: int| 0 <= i < root.nodes@.len()
                ==> self.delegate.node_in_graph(#[trigger] root.nodes@[i]),
        ensures
            forall|i: int, j: int| 0 <= i < j < r@.len()
                ==> (#[trigger] r@[i]).label != (#[trigger] r@[j]).label,
            forall|i: int| 0 <= i < r@.len()
                ==> self.delegate.node_in_graph(#[trigger] r@[i]),
            forall|i: int| 0 <= i < root.nodes@.len()
                ==> node_labels(r@).contains((#[trigger] root.nodes@[i]).label),
            // exactly the reachable nodes appear
            forall|l: TargetLabel| #[trigger] node_labels(r@).contains(l)
                <==> reachable(self.delegate.nodes@, root.labels(), l),
            // in postorder: dependencies before dependents
            deps_first(r@),
    {
        let ghost gnodes = self.delegate.nodes@;
        let ghost roots = root.labels();
        let mut visited = LabelSet::new();
        let mut out: Vec<GraphNode> = Vec::new();
        let mut i: usize = 0;
        while i < root.len()
            invariant
                i <= root.nodes@.len(),
                visited.wf(),
                forall|a: int, b: int| 0 <= a < b < out@.len()
                    ==> (#[trigger] out@[a]).label != (#[trigger] out@[b]).label,
                forall|a: int| 0 <= a < out@.len()
                    ==> self.delegate.node_in_graph(#[trigger] out@[a]),
                forall|a: int| 0 <= a < out@.len()
                    ==> visited.labels@.contains((#[trigger] out@[a]).label),
                forall|x: TargetLabel| visited.labels@.contains(x) ==> node_labels(out@).contains(x),
                forall|a: int| 0 <= a < i
                    ==> node_labels(out@).contains((#[trigger] root.nodes@[a]).label),
                forall|x: TargetLabel| visited.labels@.contains(x)
                    ==> reachable(gnodes, roots, x),
                emitted_closed(out@, visited.labels@),
                deps_first(out@),
            decreases root.nodes@.len() - i,
        {
            let l = root.get(i).label;
            let ghost out_pre = out@;
            if !visited.contains(l) {
                let ghost vis_pre = visited.labels@;
                visited.insert(l);
                proof {
                    let gi = choose|gi: int| 0 <= gi < self.delegate.nodes@.len()
                        && node_matches(#[trigger] self.delegate.nodes@[gi], root.nodes@[i as int]);
                    assert(node_labels(self.delegate.nodes@)[gi] == l);
                    assert(node_labels(self.delegate.nodes@).contains(l));
                    assert(visited.labels@ =~= vis_pre.push(l));
                    assert(visited.labels@.contains(l)) by {
                        assert(visited.labels@[vis_pre.len() as int] == l);
                    }
                    assert forall|x: TargetLabel| vis_pre.contains(x)
                        implies visited.labels@.contains(x) by {
                        let ix = choose|ix: int| 0 <= ix < vis_pre.len() && vis_pre[ix] == x;
                        assert(visited.labels@[ix] == x);
                    }
                    // the root is its own rooted walk
                    let rpath = Seq::<TargetLabel>::empty().push(l);
                    assert(rpath =~= seq![l]);
                    assert(is_dep_path(gnodes, rpath));
                    assert(roots[i as int] == l);
                    assert(roots.contains(rpath[0]));
                    assert(reachable(gnodes, roots, l)) by {
                        reveal(reachable);
                        assert(rpath.last() == l);
                    }
                    assert forall|x: TargetLabel| visited.labels@.contains(x)
                        implies reachable(gnodes, roots, x) by {
                        let ix = choose|ix: int| 0 <= ix < visited.labels@.len()
                            && visited.labels@[ix] == x;
                        if ix < vis_pre.len() {
                            assert(vis_pre[ix] == x);
                            assert(vis_pre.contains(x));
                        } else {
                            assert(x == l);
                        }
                    }
                    assert(!node_labels(out@).contains(l)) by {
                        if node_labels(out@).contains(l) {
                            let ox = choose|ox: int| 0 <= ox < out@.len()
                                && node_labels(out@)[ox] == l;
                            assert(vis_pre.contains(out@[ox].label));
                        }
                    }
                    assert forall|x: TargetLabel| visited.labels@.contains(x)
                        && !node_labels(out@).contains(x) implies rpath.contains(x) by {
                        let ix = choose|ix: int| 0 <= ix < visited.labels@.len()
                            && visited.labels@[ix] == x;
                        if ix < vis_pre.len() {
                            assert(vis_pre.contains(x));
                            assert(node_labels(out@).contains(x));
                        } else {
                            assert(x == l);
                            assert(rpath[0] == l);
                        }
                    }
                }
                let ghost vis_call = visited.labels@;
                self.dfs_visit(l, &mut visited, &mut out, Ghost(roots), Ghost(Seq::empty()));
                proof {
                    assert(node_labels(out@).contains(l)) by {
                        assert(node_labels(out@)[out@.len() - 1] == l);
                    }
                    assert forall|x: TargetLabel| visited.labels@.contains(x)
                        implies node_labels(out@).contains(x) by {
                        if !node_labels(out@).contains(x) {
                            assert(Seq::<TargetLabel>::empty().contains(x));
                        }
                    }
                }
            }
            i = i + 1;
            proof {
                assert forall|a: int| 0 <= a < i
                    implies node_labels(out@).contains((#[trigger] root.nodes@[a]).label) by {
                    if a < i - 1 {
                        assert(node_labels(out_pre).contains(root.nodes@[a].label));
                        let ix = choose|ix: int| 0 <= ix < node_labels(out_pre).len()
                            && node_labels(out_pre)[ix] == root.nodes@[a].label;
                        assert(out@[ix] == out_pre[ix]);
                        assert(node_labels(out@)[ix] == root.nodes@[a].label);
                    } else {
                        assert(visited.labels@.contains(l));
                    }
                }
            }
        }
        proof {
            // soundness: every member was visited, hence reachable
            assert forall|l: TargetLabel| #[trigger] node_labels(out@).contains(l)
                implies reachable(gnodes, roots, l) by {
                let ix = choose|ix: int| 0 <= ix < out@.len() && node_labels(out@)[ix] == l;
                assert(visited.labels@.contains(out@[ix].label));
            }
            // completeness: the output's labels are closed under edges,
            // hold every root, and so contain everything reachable
            assert forall|gi: int, dj: int|
                #![trigger gnodes[gi].deps@[dj]]
                0 <= gi < gnodes.len() && node_labels(out@).contains(gnodes[gi].label)
                    && 0 <= dj < gnodes[gi].deps@.len()
                implies node_labels(out@).contains(gnodes[gi].deps@[dj]) by {
                let mi = choose|mi: int| 0 <= mi < out@.len()
                    && node_labels(out@)[mi] == gnodes[gi].label;
                let m = out@[mi];
                let gm = choose|gm: int| 0 <= gm < gnodes.len()
                    && node_matches(#[trigger] gnodes[gm], m);
                lemma_lookup_of_member(gnodes, m, gm);
                lemma_lookup_of_member(gnodes, gnodes[gi], gi);
                assert(m.deps@ == gnodes[gi].deps@);
                assert(out@[mi].deps@[dj] == gnodes[gi].deps@[dj]);
                assert(visited.labels@.contains(out@[mi].deps@[dj]));
            }
            assert forall|l: TargetLabel| reachable(gnodes, roots, l)
                implies #[trigger] node_labels(out@).contains(l) by {
                reveal(reachable);
                let path = choose|path: Seq<TargetLabel>|
                    is_dep_path(gnodes, path) && roots.contains(#[trigger] path[0])
                    && path.last() == l;
                assert(node_labels(out@).contains(path[0])) by {
                    let ri = choose|ri: int| 0 <= ri < roots.len() && roots[ri] == path[0];
                    assert(root.nodes@[ri].label == path[0]);
                }
                lemma_path_in_closed(gnodes, node_labels(out@), path);
            }
        }
        out
    }
}

} // verus!
