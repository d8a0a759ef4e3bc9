use configured_graph_query::crash::CrashCommand;
use configured_graph_query::delegate::{GraphDelegate, LiteralEntry, PlaceholderEntry};
use configured_graph_query::environment::ConfiguredGraphQueryEnvironment;
use configured_graph_query::functions::{classpath, ConfiguredGraphFunctions, QueryBinaryOp, ResolvedFunction};
use configured_graph_query::label_map::label_map_entries_vec;
use configured_graph_query::target_set::TargetSet;
use configured_graph_query::types::{Artifact, ArtifactGroup, ArtifactOwner, GraphNode, ProjectionKey, ProjectionValue, QueryEvalError, TransitiveSetDef};
use configured_graph_query::TargetLabel;

fn label(id: u64) -> TargetLabel {
    TargetLabel { id }
}

fn owned_artifact(value: u64, owner: u64) -> ArtifactGroup {
    ArtifactGroup::Artifact(Artifact { value, owner: Some(ArtifactOwner::Target(label(owner))) })
}

fn projection(set_id: u64, projection: u64) -> ArtifactGroup {
    ArtifactGroup::TransitiveSetProjection(ProjectionKey { set_id, projection })
}

fn node(id: u64, deps: Vec<u64>) -> GraphNode {
    GraphNode { label: label(id), deps: deps.into_iter().map(label).collect() }
}

fn empty_delegate() -> GraphDelegate {
    GraphDelegate { nodes: Vec::new(), literals: Vec::new(), placeholders: Vec::new(), tsets: Vec::new() }
}

fn target_set(delegate: &GraphDelegate, ids: &[u64]) -> TargetSet {
    let mut ts = TargetSet::new();
    for id in ids {
        let n = delegate.node_by_label(label(*id)).expect("node must exist");
        let mut deps = Vec::new();
        for d in &n.deps {
            deps.push(*d);
        }
        ts.insert(GraphNode { label: n.label, deps });
    }
    ts
}

fn bare_targets(ids: &[u64]) -> TargetSet {
    let mut ts = TargetSet::new();
    for id in ids {
        ts.insert(node(*id, vec![]));
    }
    ts
}

#[test]
fn ordering_of_owned_artifacts() {
    // targets [A, B]: A contributes [a1, a2], B contributes [b1]; the
    // output iterates a1, a2, b1 by owner.
    let mut d = empty_delegate();
    d.placeholders.push(PlaceholderEntry {
        label: label(1),
        template_name: "k".to_string(),
        groups: vec![owned_artifact(100, 10), owned_artifact(200, 11)],
    });
    d.placeholders.push(PlaceholderEntry {
        label: label(2),
        template_name: "k".to_string(),
        groups: vec![owned_artifact(300, 12)],
    });
    let targets = bare_targets(&[1, 2]);
    let map = d.get_from_template_placeholder_info("k", &targets).unwrap();
    let entries = label_map_entries_vec(&map);
    let flat: Vec<(u64, u64)> = entries.iter().map(|(k, a)| (*k, a.value)).collect();
    assert_eq!(flat, vec![(10, 100), (11, 200), (12, 300)]);
}

#[test]
fn resolving_twice_yields_identical_result() {
    let mut d = empty_delegate();
    d.placeholders.push(PlaceholderEntry {
        label: label(1),
        template_name: "k".to_string(),
        groups: vec![owned_artifact(7, 3), projection(50, 0)],
    });
    d.tsets.push(TransitiveSetDef {
        set_id: 50,
        children: vec![],
        projections: vec![ProjectionValue { projection: 0, inputs: vec![owned_artifact(8, 4)], outputs: vec![] }],
    });
    let targets = bare_targets(&[1]);
    let first = label_map_entries_vec(&d.get_from_template_placeholder_info("k", &targets).unwrap());
    let second = label_map_entries_vec(&d.get_from_template_placeholder_info("k", &targets).unwrap());
    assert_eq!(first, second);
}

#[test]
fn shared_projection_materializes_once() {
    // T1's list is [Artifact(owner=T1), Projection(P, 0)] and T2's list is
    // [Projection(P, 0)]: the call for (P, 0) happens once, and artifacts
    // found inside P are attributed by their own owner.
    let mut d = empty_delegate();
    d.placeholders.push(PlaceholderEntry {
        label: label(1),
        template_name: "k".to_string(),
        groups: vec![owned_artifact(100, 1), projection(70, 0)],
    });
    d.placeholders.push(PlaceholderEntry {
        label: label(2),
        template_name: "k".to_string(),
        groups: vec![projection(70, 0)],
    });
    d.tsets.push(TransitiveSetDef {
        set_id: 70,
        children: vec![],
        projections: vec![ProjectionValue { projection: 0, inputs: vec![owned_artifact(900, 1)], outputs: vec![] }],
    });
    let targets = bare_targets(&[1, 2]);
    let (map, calls) = d.resolve_template_placeholder_info("k", &targets).unwrap();
    assert_eq!(calls, vec![ProjectionKey { set_id: 70, projection: 0 }]);
    let entries = label_map_entries_vec(&map);
    // the owner keeps its first position; the later artifact wins the value
    assert_eq!(entries.len(), 1);
    assert_eq!(entries[0].0, 1);
    assert_eq!(entries[0].1.value, 900);
}

#[test]
fn nested_children_walk_without_extra_calls() {
    // one materialization call expands the whole connected unit: the
    // child set is walked in memory and its later direct reference skips.
    let mut d = empty_delegate();
    d.placeholders.push(PlaceholderEntry {
        label: label(1),
        template_name: "k".to_string(),
        groups: vec![projection(80, 0), projection(81, 0)],
    });
    d.tsets.push(TransitiveSetDef {
        set_id: 80,
        children: vec![81],
        projections: vec![ProjectionValue { projection: 0, inputs: vec![owned_artifact(1000, 5)], outputs: vec![] }],
    });
    d.tsets.push(TransitiveSetDef {
        set_id: 81,
        children: vec![],
        projections: vec![ProjectionValue { projection: 0, inputs: vec![owned_artifact(2000, 6)], outputs: vec![] }],
    });
    let targets = bare_targets(&[1]);
    let (map, calls) = d.resolve_template_placeholder_info("k", &targets).unwrap();
    // only the top-level reference to set 80 is materialized; 81 came in hand
    assert_eq!(calls, vec![ProjectionKey { set_id: 80, projection: 0 }]);
    let entries = label_map_entries_vec(&map);
    let flat: Vec<(u64, u64)> = entries.iter().map(|(k, a)| (*k, a.value)).collect();
    assert_eq!(flat, vec![(5, 1000), (6, 2000)]);
}

#[test]
fn distinct_projections_of_one_set_are_independent() {
    let mut d = empty_delegate();
    d.placeholders.push(PlaceholderEntry {
        label: label(1),
        template_name: "k".to_string(),
        groups: vec![projection(90, 0), projection(90, 1), projection(90, 0)],
    });
    d.tsets.push(TransitiveSetDef {
        set_id: 90,
        children: vec![],
        projections: vec![
            ProjectionValue { projection: 0, inputs: vec![owned_artifact(1, 2)], outputs: vec![] },
            ProjectionValue { projection: 1, inputs: vec![owned_artifact(2, 3)], outputs: vec![] },
        ],
    });
    let targets = bare_targets(&[1]);
    let (_map, calls) = d.resolve_template_placeholder_info("k", &targets).unwrap();
    assert_eq!(calls, vec![
        ProjectionKey { set_id: 90, projection: 0 },
        ProjectionKey { set_id: 90, projection: 1 },
    ]);
}

#[test]
fn absent_projection_value_contributes_nothing() {
    let mut d = empty_delegate();
    d.placeholders.push(PlaceholderEntry {
        label: label(1),
        template_name: "k".to_string(),
        groups: vec![projection(60, 9)],
    });
    d.tsets.push(TransitiveSetDef { set_id: 60, children: vec![], projections: vec![] });
    let targets = bare_targets(&[1]);
    let (map, calls) = d.resolve_template_placeholder_info("k", &targets).unwrap();
    assert_eq!(calls.len(), 1);
    assert!(label_map_entries_vec(&map).is_empty());
}

#[test]
fn absent_template_key_means_empty_list() {
    let mut d = empty_delegate();
    d.placeholders.push(PlaceholderEntry {
        label: label(1),
        template_name: "other".to_string(),
        groups: vec![owned_artifact(5, 5)],
    });
    let targets = bare_targets(&[1]);
    let map = d.get_from_template_placeholder_info("k", &targets).unwrap();
    assert!(label_map_entries_vec(&map).is_empty());
}

#[test]
fn ownerless_artifact_is_silently_skipped() {
    let mut d = empty_delegate();
    d.placeholders.push(PlaceholderEntry {
        label: label(1),
        template_name: "k".to_string(),
        groups: vec![ArtifactGroup::Artifact(Artifact { value: 1, owner: None }), owned_artifact(2, 9)],
    });
    let targets = bare_targets(&[1]);
    let map = d.get_from_template_placeholder_info("k", &targets).unwrap();
    let entries = label_map_entries_vec(&map);
    assert_eq!(entries.len(), 1);
    assert_eq!(entries[0].0, 9);
}

#[test]
fn non_target_owner_is_an_error_with_context() {
    let mut d = empty_delegate();
    let bad = Artifact { value: 42, owner: Some(ArtifactOwner::NonTarget(77)) };
    d.placeholders.push(PlaceholderEntry {
        label: label(3),
        template_name: "tpl".to_string(),
        groups: vec![ArtifactGroup::Artifact(bad)],
    });
    let targets = bare_targets(&[3]);
    match d.get_from_template_placeholder_info("tpl", &targets) {
        Err(QueryEvalError::NonTargetBoundArtifact { template_name, target, artifact }) => {
            assert_eq!(template_name, "tpl");
            assert_eq!(target.id, 3);
            assert_eq!(artifact.value, 42);
        },
        other => panic!("expected NonTargetBoundArtifact, got {:?}", other.map(|m| label_map_entries_vec(&m))),
    }
}

#[test]
fn unknown_set_key_fails() {
    let mut d = empty_delegate();
    d.placeholders.push(PlaceholderEntry {
        label: label(1),
        template_name: "k".to_string(),
        groups: vec![projection(123, 0)],
    });
    let targets = bare_targets(&[1]);
    match d.get_from_template_placeholder_info("k", &targets) {
        Err(QueryEvalError::UnknownTransitiveSet { key }) => {
            assert_eq!(key, ProjectionKey { set_id: 123, projection: 0 });
        },
        other => panic!("expected UnknownTransitiveSet, got {:?}", other.map(|m| label_map_entries_vec(&m))),
    }
}

#[test]
fn broken_child_reference_fails() {
    let mut d = empty_delegate();
    d.placeholders.push(PlaceholderEntry {
        label: label(1),
        template_name: "k".to_string(),
        groups: vec![projection(55, 0)],
    });
    d.tsets.push(TransitiveSetDef { set_id: 55, children: vec![999], projections: vec![] });
    let targets = bare_targets(&[1]);
    match d.get_from_template_placeholder_info("k", &targets) {
        Err(QueryEvalError::InvalidSetStructure { set_id }) => assert_eq!(set_id, 999),
        other => panic!("expected InvalidSetStructure, got {:?}", other.map(|m| label_map_entries_vec(&m))),
    }
}

#[test]
fn deps_depth_semantics() {
    // root {X} with edges X -> Y -> Z
    let mut d = empty_delegate();
    d.nodes.push(node(1, vec![2]));
    d.nodes.push(node(2, vec![3]));
    d.nodes.push(node(3, vec![]));
    let env = ConfiguredGraphQueryEnvironment::new(&d);
    let roots = target_set(&d, &[1]);

    let all = env.deps(&roots, None);
    let ids: Vec<u64> = (0..all.len()).map(|i| all.get(i).label.id).collect();
    assert_eq!(ids, vec![1, 2, 3]);

    let only_roots = env.deps(&roots, Some(0));
    let ids: Vec<u64> = (0..only_roots.len()).map(|i| only_roots.get(i).label.id).collect();
    assert_eq!(ids, vec![1]);

    let one_step = env.deps(&roots, Some(1));
    let ids: Vec<u64> = (0..one_step.len()).map(|i| one_step.get(i).label.id).collect();
    assert_eq!(ids, vec![1, 2]);

    let negative = env.deps(&roots, Some(-1));
    let ids: Vec<u64> = (0..negative.len()).map(|i| negative.get(i).label.id).collect();
    assert_eq!(ids, vec![1, 2, 3]);
}

#[test]
fn deps_handles_shared_and_cyclic_edges() {
    let mut d = empty_delegate();
    d.nodes.push(node(1, vec![2, 3]));
    d.nodes.push(node(2, vec![3, 1]));
    d.nodes.push(node(3, vec![]));
    let env = ConfiguredGraphQueryEnvironment::new(&d);
    let roots = target_set(&d, &[1]);
    let all = env.deps(&roots, None);
    let ids: Vec<u64> = (0..all.len()).map(|i| all.get(i).label.id).collect();
    assert_eq!(ids, vec![1, 2, 3]);
}

#[test]
fn classpath_depth_routing() {
    let mut d = empty_delegate();
    d.placeholders.push(PlaceholderEntry {
        label: label(1),
        template_name: "first_order_classpath".to_string(),
        groups: vec![owned_artifact(1, 21)],
    });
    d.placeholders.push(PlaceholderEntry {
        label: label(1),
        template_name: "classpath_including_targets_with_no_output".to_string(),
        groups: vec![owned_artifact(2, 22)],
    });
    let targets = bare_targets(&[1]);

    let first_order = ConfiguredGraphFunctions::classpath(&d, &targets, Some(1)).unwrap();
    assert_eq!(first_order.len(), 1);
    assert_eq!(first_order.get(0).id, 21);

    let unbounded = ConfiguredGraphFunctions::classpath(&d, &targets, None).unwrap();
    assert_eq!(unbounded.len(), 1);
    assert_eq!(unbounded.get(0).id, 22);

    match ConfiguredGraphFunctions::classpath(&d, &targets, Some(2)) {
        Err(QueryEvalError::InvalidDepth { depth }) => assert_eq!(depth, 2),
        other => panic!("expected InvalidDepth, got {:?}", other.map(|ls| ls.len())),
    }
}

#[test]
fn audit_classpath_uses_the_classpath_key() {
    let mut d = empty_delegate();
    d.placeholders.push(PlaceholderEntry {
        label: label(1),
        template_name: "classpath".to_string(),
        groups: vec![owned_artifact(640, 31)],
    });
    let targets = bare_targets(&[1]);
    let map = classpath(&d, &targets).unwrap();
    let entries = label_map_entries_vec(&map);
    assert_eq!(entries.len(), 1);
    assert_eq!(entries[0].0, 31);
    assert_eq!(entries[0].1.value, 640);
}

#[test]
fn unsupported_surface_always_fails() {
    let d = empty_delegate();
    let env = ConfiguredGraphQueryEnvironment::new(&d);

    match env.eval_file_literal("//some/file.txt") {
        Err(QueryEvalError::FileLiteralsNotAllowed { literal }) => {
            assert_eq!(literal, "//some/file.txt");
        },
        other => panic!("expected FileLiteralsNotAllowed, got {:?}", other.map(|v| v.len())),
    }

    match env.owner(&vec!["p".to_string()]) {
        Err(QueryEvalError::UnsupportedOperation { operation }) => assert_eq!(operation, "owner"),
        other => panic!("expected UnsupportedOperation, got {:?}", other.map(|ts| ts.len())),
    }

    let n = node(1, vec![]);
    match env.get_node_for_default_configured_target(&n) {
        Err(QueryEvalError::UnsupportedOperation { operation }) => {
            assert_eq!(operation, "get_node_for_default_configured_target");
        },
        other => panic!("expected UnsupportedOperation, got {:?}", other.map(|g| g.label.id)),
    }
}

#[test]
fn eval_literals_resolves_and_dedups() {
    let mut d = empty_delegate();
    d.literals.push(LiteralEntry { literal: "//a:a".to_string(), node: node(1, vec![]) });
    d.literals.push(LiteralEntry { literal: "//b:b".to_string(), node: node(2, vec![]) });
    let env = ConfiguredGraphQueryEnvironment::new(&d);
    let ts = env
        .eval_literals(&vec!["//a:a".to_string(), "//b:b".to_string(), "//a:a".to_string()])
        .unwrap();
    let ids: Vec<u64> = (0..ts.len()).map(|i| ts.get(i).label.id).collect();
    assert_eq!(ids, vec![1, 2]);
}

#[test]
fn eval_literals_reports_the_missing_literal() {
    let d = empty_delegate();
    let env = ConfiguredGraphQueryEnvironment::new(&d);
    match env.eval_literals(&vec!["//missing:m".to_string()]) {
        Err(QueryEvalError::LiteralLookupFailure { literal }) => assert_eq!(literal, "//missing:m"),
        other => panic!("expected LiteralLookupFailure, got {:?}", other.map(|ts| ts.len())),
    }
}

#[test]
fn registry_checks_extension_before_defaults() {
    let table = ConfiguredGraphQueryEnvironment::functions(
        vec!["deps".to_string(), "classpath".to_string()],
        vec![QueryBinaryOp::Union, QueryBinaryOp::Intersect],
    );
    assert_eq!(table.get("classpath"), Some(ResolvedFunction::Extension { index: 0 }));
    assert_eq!(table.get("deps"), Some(ResolvedFunction::Generic { index: 0 }));
    assert_eq!(table.get("nope"), None);
    assert_eq!(table.get_op(QueryBinaryOp::Intersect), Some(ResolvedFunction::Generic { index: 1 }));
    assert_eq!(table.get_op(QueryBinaryOp::Except), None);
}

#[test]
fn crash_command_surface() {
    let cmd = CrashCommand {};
    assert_eq!(cmd.command_name(), "crash");
    assert!(CrashCommand::existing_only());
}

#[test]
fn postorder_visits_dependencies_first() {
    let mut d = empty_delegate();
    d.nodes.push(node(1, vec![2]));
    d.nodes.push(node(2, vec![3]));
    d.nodes.push(node(3, vec![]));
    let env = ConfiguredGraphQueryEnvironment::new(&d);
    let roots = target_set(&d, &[1]);
    let order = env.dfs_postorder(&roots);
    let ids: Vec<u64> = order.iter().map(|n| n.label.id).collect();
    assert_eq!(ids, vec![3, 2, 1]);
}

#[test]
fn postorder_shared_dependency_appears_once() {
    let mut d = empty_delegate();
    d.nodes.push(node(1, vec![3]));
    d.nodes.push(node(2, vec![3]));
    d.nodes.push(node(3, vec![]));
    let env = ConfiguredGraphQueryEnvironment::new(&d);
    let roots = target_set(&d, &[1, 2]);
    let order = env.dfs_postorder(&roots);
    let ids: Vec<u64> = order.iter().map(|n| n.label.id).collect();
    assert_eq!(ids, vec![3, 1, 2]);
}

#[test]
fn depth_limited_traversal_stops_at_the_bound() {
    let mut d = empty_delegate();
    d.nodes.push(node(1, vec![2]));
    d.nodes.push(node(2, vec![3]));
    d.nodes.push(node(3, vec![]));
    let env = ConfiguredGraphQueryEnvironment::new(&d);
    let roots = target_set(&d, &[1]);
    let within_one = env.depth_limited_traversal(&roots, 1);
    let ids: Vec<u64> = (0..within_one.len()).map(|i| within_one.get(i).label.id).collect();
    assert_eq!(ids, vec![1, 2]);
}

#[test]
fn postorder_covers_a_diamond_once() {
    // 1 -> {2, 3}, 2 -> 4, 3 -> 4: the shared node appears once, before
    // both of its dependents, and everything reachable is present.
    let mut d = empty_delegate();
    d.nodes.push(node(1, vec![2, 3]));
    d.nodes.push(node(2, vec![4]));
    d.nodes.push(node(3, vec![4]));
    d.nodes.push(node(4, vec![]));
    let env = ConfiguredGraphQueryEnvironment::new(&d);
    let roots = target_set(&d, &[1]);
    let order = env.dfs_postorder(&roots);
    let ids: Vec<u64> = order.iter().map(|n| n.label.id).collect();
    assert_eq!(ids, vec![4, 2, 3, 1]);
}

#[test]
fn deps_discovers_breadth_first() {
    // 1 -> {2, 3}, 2 -> 4: level one before level two
    let mut d = empty_delegate();
    d.nodes.push(node(1, vec![2, 3]));
    d.nodes.push(node(2, vec![4]));
    d.nodes.push(node(3, vec![]));
    d.nodes.push(node(4, vec![]));
    let env = ConfiguredGraphQueryEnvironment::new(&d);
    let roots = target_set(&d, &[1]);
    let r = env.deps(&roots, Some(2));
    let ids: Vec<u64> = (0..r.len()).map(|i| r.get(i).label.id).collect();
    assert_eq!(ids, vec![1, 2, 3, 4]);
}
