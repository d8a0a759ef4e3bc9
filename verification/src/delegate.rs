//! The in-memory graph delegate: literal, provider and transitive-set
//! tables, and the template-placeholder resolver proved against the
//! machine of `resolve_spec`.

use vstd::prelude::*;
use indexmap::IndexMap;
use crate::TargetLabel;
use crate::types::{Artifact, ArtifactGroup, ArtifactOwner, GraphNode, ProjectionKey,
    ProjectionValue, QueryEvalError, TransitiveSetDef};
use crate::target_set::{LabelSet, TargetSet};
use crate::label_map::{label_map_entries, label_map_insert, label_map_new};
use crate::resolve_spec::{collect_children, expand, find_projection, find_tset, ids_seq,
    initial_state, lemma_collect_children_seen, lemma_contains_side, lemma_expand_groups,
    lemma_expand_seen_mono, lemma_find_tset_in_ids, lemma_find_tset_member,
    lemma_materialization_bounded, lemma_pair_seq_contains, lemma_queue_proj_covers,
    lemma_run_snoc, lemma_unseen_pairs_insert, queue_proj_seq, resolve_key_space, run,
    tsets_proj_seq, unseen_ids, unseen_pairs, ResolveFailure, ResolveState, ResolveStep};

verus! {

/// One resolvable query literal and the node it names.
pub struct LiteralEntry {
    pub literal: String,
    pub node: GraphNode,
}

/// One target's provider output for one template key: the exposed
/// artifact-group list.
pub struct PlaceholderEntry {
    pub label: TargetLabel,
    pub template_name: String,
    pub groups: Vec<ArtifactGroup>,
}

/// The per-build backend the query environment consumes: per-target
/// literal resolution, per-target provider-artifact lookup, and
/// materialization-by-key of transitive sets.
pub struct GraphDelegate {
    /// The configured graph: one node per target, edges resolved.
    pub nodes: Vec<GraphNode>,
    /// Resolvable literals.
    pub literals: Vec<LiteralEntry>,
    /// Per-(target, template key) provider artifact lists; an absent
    /// pair means an empty list, not an error.
    pub placeholders: Vec<PlaceholderEntry>,
    /// The materializable transitive sets.
    pub tsets: Vec<TransitiveSetDef>,
}

/// The artifact groups a target's provider exposes under a template key:
/// the first matching table entry, or empty when none matches.
pub open spec fn groups_for(ph: Seq<PlaceholderEntry>, label: TargetLabel, name: Seq<char>) -> Seq<ArtifactGroup>
    decreases ph.len(),
{
    if ph.len() == 0 {
        Seq::empty()
    } else if ph[0].label == label && ph[0].template_name@ == name {
        ph[0].groups@
    } else {
        groups_for(ph.skip(1), label, name)
    }
}

/// The flattened outer work queue: every target's groups in target
/// order, then per-target list order, each tagged with its target.
pub open spec fn initial_queue(ph: Seq<PlaceholderEntry>, labels: Seq<TargetLabel>, name: Seq<char>) -> Seq<(TargetLabel, ArtifactGroup)>
    decreases labels.len(),
{
    if labels.len() == 0 {
        Seq::empty()
    } else {
        groups_for(ph, labels[0], name).map_values(|g: ArtifactGroup| (labels[0], g))
            + initial_queue(ph, labels.skip(1), name)
    }
}

/// The distinct owning labels of an ordered entry sequence, in
/// first-encounter order.
pub open spec fn distinct_labels(acc: Seq<TargetLabel>, es: Seq<(u64, Artifact)>) -> Seq<TargetLabel>
    decreases es.len(),
{
    if es.len() == 0 {
        acc
    } else if acc.contains(TargetLabel { id: es[0].0 }) {
        distinct_labels(acc, es.skip(1))
    } else {
        distinct_labels(acc.push(TargetLabel { id: es[0].0 }), es.skip(1))
    }
}

/// The machine-level failure an error reports.
pub open spec fn fail_view(e: QueryEvalError) -> ResolveFailure {
    match e {
        QueryEvalError::NonTargetBoundArtifact { template_name, target, artifact } =>
            ResolveFailure::NonTargetBound { template_name: template_name@, target, artifact },
        QueryEvalError::UnknownTransitiveSet { key } => ResolveFailure::UnknownSet { key },
        QueryEvalError::InvalidSetStructure { set_id } => ResolveFailure::BadChild { set_id },
        _ => arbitrary(),
    }
}

/// A queue entry's projection index, if it is a projection reference,
/// is drawn from the given alphabet.
pub open spec fn entry_proj_ok(projs: Seq<u64>, g: ArtifactGroup) -> bool {
    match g {
        ArtifactGroup::TransitiveSetProjection(k) => projs.contains(k.projection),
        ArtifactGroup::Artifact(_) => true,
    }
}

/// A vector holds exactly the members of a set.
pub open spec fn seen_matches(s: Set<ProjectionKey>, v: Seq<ProjectionKey>) -> bool {
    forall|k: ProjectionKey| s.contains(k) <==> v.contains(k)
}

proof fn lemma_seen_push(s: Set<ProjectionKey>, v: Seq<ProjectionKey>, k: ProjectionKey)
    requires
        seen_matches(s, v),
    ensures
        seen_matches(s.insert(k), v.push(k)),
{
    assert forall|x: ProjectionKey| s.insert(k).contains(x) implies v.push(k).contains(x) by {
        if x == k {
            assert(v.push(k)[v.len() as int] == k);
        } else {
            let i = choose|i: int| 0 <= i < v.len() && v[i] == x;
            assert(v.push(k)[i] == x);
        }
    }
    assert forall|x: ProjectionKey| v.push(k).contains(x) implies s.insert(k).contains(x) by {
        let i = choose|i: int| 0 <= i < v.push(k).len() && v.push(k)[i] == x;
        if i < v.len() {
            assert(v[i] == x);
        }
    }
}

fn seen_contains(seen: &Vec<ProjectionKey>, k: ProjectionKey) -> (r: bool)
    ensures
        r == seen@.contains(k),
{
    let mut i: usize = 0;
    while i < seen.len()
        invariant
            i <= seen@.len(),
            forall|j: int| 0 <= j < i ==> seen@[j] != k,
        decreases seen@.len() - i,
    {
        if seen[i].set_id == k.set_id && seen[i].projection == k.projection {
            assert(seen@[i as int] == k);
            return true;
        }
        i = i + 1;
    }
    false
}

fn copy_groups(src: &Vec<ArtifactGroup>) -> (r: Vec<ArtifactGroup>)
    ensures
        r@ == src@,
{
    let mut r: Vec<ArtifactGroup> = Vec::new();
    let mut i: usize = 0;
    while i < src.len()
        invariant
            i <= src@.len(),
            r@ == src@.take(i as int),
        decreases src@.len() - i,
    {
        r.push(src[i]);
        i = i + 1;
        assert(r@ =~= src@.take(i as int));
    }
    assert(src@.take(src@.len() as int) =~= src@);
    r
}

/// The node the first table entry with this literal names, if any.
pub open spec fn lit_lookup(table: Seq<LiteralEntry>, lit: Seq<char>) -> Option<GraphNode>
    decreases table.len(),
{
    if table.len() == 0 {
        None
    } else if table[0].literal@ == lit {
        Some(table[0].node)
    } else {
        lit_lookup(table.skip(1), lit)
    }
}

impl GraphDelegate {
    /// Resolves one query literal to its configured node; fails exactly
    /// when no table entry carries the literal.
    pub fn eval_literal(&self, literal: &str) -> (r: Result<&GraphNode, QueryEvalError>)
        ensures
            match r {
                Ok(n) => lit_lookup(self.literals@, literal@) == Some(*n),
                Err(e) => lit_lookup(self.literals@, literal@) is None
                    && (e matches QueryEvalError::LiteralLookupFailure { literal: l } && l@ == literal@),
            },
    {
        let owned: String = literal.to_owned();
        let mut i: usize = 0;
        proof {
            assert(self.literals@.skip(0) =~= self.literals@);
        }
        while i < self.literals.len()
            invariant
                i <= self.literals@.len(),
                owned@ == literal@,
                lit_lookup(self.literals@, literal@) == lit_lookup(self.literals@.skip(i as int), literal@),
            decreases self.literals@.len() - i,
        {
            let ghost pre = self.literals@.skip(i as int);
            assert(pre[0] == self.literals@[i as int]);
            assert(pre.skip(1) =~= self.literals@.skip(i as int + 1));
            if self.literals[i].literal == owned {
                return Ok(&self.literals[i].node);
            }
            i = i + 1;
        }
        assert(self.literals@.skip(self.literals@.len() as int).len() == 0);
        Err(QueryEvalError::LiteralLookupFailure { literal: owned })
    }

    /// The artifact groups a target's provider exposes under a template
    /// key; empty if the provider or the key is absent.
    pub fn get_template_info_provider_artifacts(&self, configured_label: TargetLabel, template_name: &str) -> (r: Vec<ArtifactGroup>)
        ensures
            r@ == groups_for(self.placeholders@, configured_label, template_name@),
    {
        let owned: String = template_name.to_owned();
        let mut i: usize = 0;
        proof {
            assert(self.placeholders@.skip(0) =~= self.placeholders@);
        }
        while i < self.placeholders.len()
            invariant
                i <= self.placeholders@.len(),
                owned@ == template_name@,
                groups_for(self.placeholders@, configured_label, template_name@)
                    == groups_for(self.placeholders@.skip(i as int), configured_label, template_name@),
            decreases self.placeholders@.len() - i,
        {
            let ghost pre = self.placeholders@.skip(i as int);
            assert(pre[0] == self.placeholders@[i as int]);
            assert(pre.skip(1) =~= self.placeholders@.skip(i as int + 1));
            if self.placeholders[i].label.id == configured_label.id && self.placeholders[i].template_name == owned {
                assert(self.placeholders@[i as int].label == configured_label);
                return copy_groups(&self.placeholders[i].groups);
            }
            proof {
                assert(!(pre[0].label == configured_label && pre[0].template_name@ == template_name@));
            }
            i = i + 1;
        }
        assert(self.placeholders@.skip(self.placeholders@.len() as int).len() == 0);
        Vec::new()
    }

    /// Materializes a transitive set by key: the backend's lookup.
    pub fn dice_lookup_transitive_set(&self, set_id: u64) -> (r: Option<&TransitiveSetDef>)
        ensures
            match r {
                Some(d) => find_tset(self.tsets@, set_id) == Some(*d),
                None => find_tset(self.tsets@, set_id) is None,
            },
    {
        let mut i: usize = 0;
        proof {
            assert(self.tsets@.skip(0) =~= self.tsets@);
        }
        while i < self.tsets.len()
            invariant
                i <= self.tsets@.len(),
                find_tset(self.tsets@, set_id) == find_tset(self.tsets@.skip(i as int), set_id),
            decreases self.tsets@.len() - i,
        {
            let ghost pre = self.tsets@.skip(i as int);
            assert(pre[0] == self.tsets@[i as int]);
            assert(pre.skip(1) =~= self.tsets@.skip(i as int + 1));
            if self.tsets[i].set_id == set_id {
                return Some(&self.tsets[i]);
            }
            i = i + 1;
        }
        assert(self.tsets@.skip(self.tsets@.len() as int).len() == 0);
        None
    }

    /// Builds the flattened outer work queue for a resolution.
    fn build_initial_queue(&self, template_name: &str, targets: &TargetSet) -> (r: Vec<(TargetLabel, ArtifactGroup)>)
        ensures
            r@ == initial_queue(self.placeholders@, targets.labels(), template_name@),
    {
        let mut r: Vec<(TargetLabel, ArtifactGroup)> = Vec::new();
        let mut i: usize = 0;
        proof {
            assert(targets.labels().skip(0) =~= targets.labels());
            assert(r@ + initial_queue(self.placeholders@, targets.labels(), template_name@)
                =~= initial_queue(self.placeholders@, targets.labels(), template_name@));
        }
        while i < targets.len()
            invariant
                i <= targets.nodes@.len(),
                r@ + initial_queue(self.placeholders@, targets.labels().skip(i as int), template_name@)
                    == initial_queue(self.placeholders@, targets.labels(), template_name@),
            decreases targets.nodes@.len() - i,
        {
            let label = targets.get(i).label;
            let ghost pre = targets.labels().skip(i as int);
            assert(pre[0] == targets.labels()[i as int]);
            assert(pre[0] == label);
            assert(pre.skip(1) =~= targets.labels().skip(i as int + 1));
            let groups = self.get_template_info_provider_artifacts(label, template_name);
            let ghost base = r@;
            let mut j: usize = 0;
            while j < groups.len()
                invariant
                    j <= groups@.len(),
                    r@ == base + groups@.take(j as int).map_values(|g: ArtifactGroup| (label, g)),
                decreases groups@.len() - j,
            {
                r.push((label, groups[j]));
                j = j + 1;
                assert(r@ =~= base + groups@.take(j as int).map_values(|g: ArtifactGroup| (label, g)));
            }
            assert(groups@.take(groups@.len() as int) =~= groups@);
            i = i + 1;
            proof {
                assert(r@ + initial_queue(self.placeholders@, targets.labels().skip(i as int), template_name@)
                    =~= base + initial_queue(self.placeholders@, pre, template_name@));
            }
        }
        assert(targets.labels().skip(targets.labels().len() as int).len() == 0);
        assert(r@ + Seq::<(TargetLabel, ArtifactGroup)>::empty() =~= r@);
        r
    }

    /// The core resolution: scans every target's template-keyed provider
    /// list, upserting target-owned artifacts into an ordered label map
    /// and expanding each transitive-set projection at most once, with
    /// one backend materialization call per distinct (set, projection)
    /// pair. Returns the ordered map together with the ordered sequence
    /// of materialization calls made.
    ///
    /// The result is exactly what the resolution machine computes from
    /// this delegate's tables, so it is a function of the backend,
    /// targets and key alone, and the recorded calls never repeat a key.
    #[verifier::loop_isolation(false)]
    pub fn resolve_template_placeholder_info(&self, template_name: &str, targets: &TargetSet)
        -> (r: Result<(IndexMap<u64, Artifact>, Vec<ProjectionKey>), QueryEvalError>)
        ensures
            match r {
                Ok(p) => (exists|n: nat|
                        run(self.tsets@, template_name@,
                            initial_state(initial_queue(self.placeholders@, targets.labels(), template_name@)), n)
                        == (ResolveStep::Done { out: label_map_entries(p.0), calls: p.1@ }))
                    && (forall|i: int, j: int| 0 <= i < j < p.1@.len() ==> p.1@[i] != p.1@[j]),
                Err(e) => (exists|n: nat|
                        run(self.tsets@, template_name@,
                            initial_state(initial_queue(self.placeholders@, targets.labels(), template_name@)), n)
                        == ResolveStep::Fail(fail_view(e)))
                    && (e is NonTargetBoundArtifact || e is UnknownTransitiveSet || e is InvalidSetStructure),
            },
    {
        let ghost tname = template_name@;
        let mut vq: Vec<(TargetLabel, ArtifactGroup)> = self.build_initial_queue(template_name, targets);
        let ghost q0 = vq@;
        let mut head: usize = 0;
        let mut seen: Vec<ProjectionKey> = Vec::new();
        let mut map: IndexMap<u64, Artifact> = label_map_new();
        let mut calls: Vec<ProjectionKey> = Vec::new();
        let ghost mut abs = initial_state(q0);
        let ghost mut steps: nat = 0;

        let ghost projs_all = queue_proj_seq(q0) + tsets_proj_seq(self.tsets@);
        proof {
            assert(abs.queue =~= vq@.skip(0));
            assert forall|i: int| 0 <= i < abs.queue.len()
                implies entry_proj_ok(projs_all, (#[trigger] abs.queue[i]).1) by {
                match abs.queue[i].1 {
                    ArtifactGroup::TransitiveSetProjection(k) => {
                        lemma_queue_proj_covers(q0, i, k);
                        lemma_contains_side(queue_proj_seq(q0), tsets_proj_seq(self.tsets@), k.projection);
                    },
                    ArtifactGroup::Artifact(_) => {},
                }
            }
        }

        while head < vq.len()
            invariant
                head <= vq@.len(),
                run(self.tsets@, tname, initial_state(q0), steps) == ResolveStep::Next(abs),
                abs.queue == vq@.skip(head as int),
                seen_matches(abs.seen, seen@),
                abs.out == label_map_entries(map),
                abs.calls == calls@,
                projs_all == queue_proj_seq(q0) + tsets_proj_seq(self.tsets@),
                forall|i: int| 0 <= i < abs.queue.len()
                    ==> entry_proj_ok(projs_all, (#[trigger] abs.queue[i]).1),
            decreases unseen_pairs(self.tsets@, q0, abs.seen), vq@.len() - head,
        {
            let entry = vq[head];
            head = head + 1;
            proof {
                assert(abs.queue[0] == entry);
                assert(abs.queue.skip(1) =~= vq@.skip(head as int));
            }
            let ghost rest = abs.queue.skip(1);
            match entry.1 {
                ArtifactGroup::Artifact(a) => {
                    match a.owner {
                        None => {
                            proof {
                                let next = ResolveState { queue: rest, seen: abs.seen, out: abs.out, calls: abs.calls };
                                assert forall|i: int| 0 <= i < next.queue.len()
                                    implies entry_proj_ok(projs_all, (#[trigger] next.queue[i]).1) by {
                                    assert(abs.queue[i + 1] == next.queue[i]);
                                }
                                assert(crate::resolve_spec::step(self.tsets@, tname, abs) == ResolveStep::Next(next));
                                lemma_run_snoc(self.tsets@, tname, initial_state(q0), steps);
                                abs = next;
                                steps = steps + 1;
                            }
                        },
                        Some(ArtifactOwner::Target(l)) => {
                            label_map_insert(&mut map, l.id, a);
                            proof {
                                let next = ResolveState {
                                    queue: rest,
                                    seen: abs.seen,
                                    out: crate::resolve_spec::upsert(abs.out, l.id, a),
                                    calls: abs.calls,
                                };
                                assert forall|i: int| 0 <= i < next.queue.len()
                                    implies entry_proj_ok(projs_all, (#[trigger] next.queue[i]).1) by {
                                    assert(abs.queue[i + 1] == next.queue[i]);
                                }
                                assert(crate::resolve_spec::step(self.tsets@, tname, abs) == ResolveStep::Next(next));
                                lemma_run_snoc(self.tsets@, tname, initial_state(q0), steps);
                                abs = next;
                                steps = steps + 1;
                            }
                        },
                        Some(ArtifactOwner::NonTarget(_)) => {
                            let err = QueryEvalError::NonTargetBoundArtifact {
                                template_name: template_name.to_owned(),
                                target: entry.0,
                                artifact: a,
                            };
                            proof {
                                assert(crate::resolve_spec::step(self.tsets@, tname, abs)
                                    == ResolveStep::Fail(fail_view(err)));
                                lemma_run_snoc(self.tsets@, tname, initial_state(q0), steps);
                                assert(run(self.tsets@, tname, initial_state(q0), steps + 1)
                                    == ResolveStep::Fail(fail_view(err)));
                            }
                            return Err(err);
                        },
                    }
                },
                ArtifactGroup::TransitiveSetProjection(key) => {
                    if seen_contains(&seen, key) {
                        proof {
                            let next = ResolveState { queue: rest, seen: abs.seen, out: abs.out, calls: abs.calls };
                            assert forall|i: int| 0 <= i < next.queue.len()
                                implies entry_proj_ok(projs_all, (#[trigger] next.queue[i]).1) by {
                                assert(abs.queue[i + 1] == next.queue[i]);
                            }
                            assert(crate::resolve_spec::step(self.tsets@, tname, abs) == ResolveStep::Next(next));
                            lemma_run_snoc(self.tsets@, tname, initial_state(q0), steps);
                            abs = next;
                            steps = steps + 1;
                        }
                    } else {
                        let ghost seenpre = seen@;
                        seen.push(key);
                        let ghost seen0 = abs.seen.insert(key);
                        proof {
                            lemma_seen_push(abs.seen, seenpre, key);
                        }
                        match self.dice_lookup_transitive_set(key.set_id) {
                            None => {
                                let err = QueryEvalError::UnknownTransitiveSet { key };
                                proof {
                                    assert(crate::resolve_spec::step(self.tsets@, tname, abs)
                                        == ResolveStep::Fail(fail_view(err)));
                                    lemma_run_snoc(self.tsets@, tname, initial_state(q0), steps);
                                }
                                return Err(err);
                            },
                            Some(def) => {
                                let proj = key.projection;
                                let mut local: Vec<&TransitiveSetDef> = Vec::new();
                                local.push(def);
                                let mut lhead: usize = 0;
                                let ghost mut acc: Seq<ArtifactGroup> = Seq::empty();
                                let ghost mut seen_abs: Set<ProjectionKey> = seen0;
                                let ghost vq_base = vq@;
                                let ghost e0 = expand(self.tsets@, proj as u64, seq![*def], seen0, Seq::empty());
                                proof {
                                    assert(local@.skip(0).map_values(|d: &TransitiveSetDef| *d) =~= seq![*def]);
                                }
                                let mut failed: Option<u64> = None;
                                while lhead < local.len()
                                    invariant
                                        lhead <= local@.len(),
                                        failed is None,
                                        expand(self.tsets@, proj as u64,
                                            local@.skip(lhead as int).map_values(|d: &TransitiveSetDef| *d),
                                            seen_abs, acc) == e0,
                                        seen_matches(seen_abs, seen@),
                                        vq@ == vq_base + acc.map_values(|g: ArtifactGroup| (entry.0, g)),
                                        head <= vq_base.len(),
                                    decreases unseen_ids(self.tsets@, proj, seen_abs).len(), local@.len() - lhead,
                                {
                                    let d: &TransitiveSetDef = local[lhead];
                                    lhead = lhead + 1;
                                    let ghost local_in = local@.skip(lhead as int - 1).map_values(|dd: &TransitiveSetDef| *dd);
                                    let ghost local_rest = local@.skip(lhead as int).map_values(|dd: &TransitiveSetDef| *dd);
                                    proof {
                                        assert(local_in[0] == *d);
                                        assert(local_in.skip(1) =~= local_rest);
                                    }
                                    let ghost seen_in = seen_abs;
                                    let ghost acc_in = acc;
                                    // projection inputs, if this set exposes the index
                                    let ghost inputs_spec = match find_projection(d.projections@, proj) {
                                        Some(s) => s,
                                        None => Seq::<ArtifactGroup>::empty(),
                                    };
                                    let pv = find_projection_value(d, proj);
                                    match pv {
                                        Some(inputs) => {
                                            let ghost vqpre = vq@;
                                            let mut j: usize = 0;
                                            while j < inputs.len()
                                                invariant
                                                    j <= inputs@.len(),
                                                    vq@ == vqpre + inputs@.take(j as int).map_values(|g: ArtifactGroup| (entry.0, g)),
                                                decreases inputs@.len() - j,
                                            {
                                                vq.push((entry.0, inputs[j]));
                                                j = j + 1;
                                                assert(vq@ =~= vqpre + inputs@.take(j as int).map_values(|g: ArtifactGroup| (entry.0, g)));
                                            }
                                            assert(inputs@.take(inputs@.len() as int) =~= inputs@);
                                            proof {
                                                acc = acc + inputs@;
                                                assert(vq@ =~= vq_base + acc.map_values(|g: ArtifactGroup| (entry.0, g)));
                                            }
                                        },
                                        None => {
                                            proof {
                                                acc = acc + inputs_spec;
                                                assert(acc =~= acc_in);
                                                assert(vq@ =~= vq_base + acc.map_values(|g: ArtifactGroup| (entry.0, g)));
                                            }
                                        },
                                    }
                                    // walk the children, marking fresh keys and taking
                                    // their in-hand definitions
                                    let ghost cc = collect_children(self.tsets@, proj, d.children@, seen_in);
                                    let ghost mut newdefs: Seq<TransitiveSetDef> = Seq::empty();
                                    let ghost local_base = local@;
                                    let mut c: usize = 0;
                                    proof {
                                        assert(local@.take(local_base.len() as int) =~= local_base);
                                        assert(local@.skip(local_base.len() as int).map_values(|dd: &TransitiveSetDef| *dd) =~= newdefs);
                                        assert(d.children@.skip(0) =~= d.children@);
                                        match cc {
                                            Ok(rr) => {
                                                assert(newdefs + rr.0 =~= rr.0);
                                            },
                                            Err(_) => {},
                                        }
                                    }
                                    while c < d.children.len() && failed.is_none()
                                        invariant
                                            c <= d.children@.len(),
                                            lhead <= local_base.len(),
                                            local_base.len() <= local@.len(),
                                            local@.take(local_base.len() as int) == local_base,
                                            local@.skip(local_base.len() as int).map_values(|dd: &TransitiveSetDef| *dd) == newdefs,
                                            failed is None ==> seen_matches(seen_abs, seen@),
                                            failed is None ==> match collect_children(self.tsets@, proj, d.children@.skip(c as int), seen_abs) {
                                                Ok(rr) => cc == Ok::<_, u64>((newdefs + rr.0, rr.1)),
                                                Err(e) => cc == Err::<(Seq<TransitiveSetDef>, Set<ProjectionKey>), u64>(e),
                                            },
                                            match failed {
                                                Some(f) => cc == Err::<(Seq<TransitiveSetDef>, Set<ProjectionKey>), u64>(f),
                                                None => true,
                                            },
                                        decreases d.children@.len() - c,
                                    {
                                        let cid = d.children[c];
                                        let ck = ProjectionKey { set_id: cid, projection: proj };
                                        let ghost chpre = d.children@.skip(c as int);
                                        proof {
                                            assert(chpre[0] == cid);
                                            assert(chpre.skip(1) =~= d.children@.skip(c as int + 1));
                                        }
                                        if !seen_contains(&seen, ck) {
                                            match self.dice_lookup_transitive_set(cid) {
                                                None => {
                                                    proof {
                                                        assert(collect_children(self.tsets@, proj, chpre, seen_abs)
                                                            == Err::<(Seq<TransitiveSetDef>, Set<ProjectionKey>), u64>(cid));
                                                    }
                                                    failed = Some(cid);
                                                },
                                                Some(cdef) => {
                                                    let ghost seenpre = seen@;
                                                    let ghost seen_abs_pre = seen_abs;
                                                    let ghost newdefs_pre = newdefs;
                                                    seen.push(ck);
                                                    local.push(cdef);
                                                    proof {
                                                        lemma_seen_push(seen_abs_pre, seenpre, ck);
                                                        seen_abs = seen_abs_pre.insert(ck);
                                                        newdefs = newdefs_pre + seq![*cdef];
                                                        assert(local@.take(local_base.len() as int) =~= local_base);
                                                        assert(local@.skip(local_base.len() as int).map_values(|dd: &TransitiveSetDef| *dd) =~= newdefs);
                                                        match collect_children(self.tsets@, proj, d.children@.skip(c as int + 1), seen_abs) {
                                                            Ok(rr2) => {
                                                                assert(collect_children(self.tsets@, proj, chpre, seen_abs_pre)
                                                                    == Ok::<_, u64>((seq![*cdef] + rr2.0, rr2.1)));
                                                                assert(newdefs_pre + (seq![*cdef] + rr2.0) =~= newdefs + rr2.0);
                                                            },
                                                            Err(_) => {},
                                                        }
                                                    }
                                                },
                                            }
                                        }
                                        c = c + 1;
                                    }
                                    if failed.is_some() {
                                        let cid = match failed {
                                            Some(f) => f,
                                            None => 0,
                                        };
                                        let err = QueryEvalError::InvalidSetStructure { set_id: cid };
                                        proof {
                                            assert(cc == Err::<(Seq<TransitiveSetDef>, Set<ProjectionKey>), u64>(cid));
                                            assert(expand(self.tsets@, proj, local_in, seen_in, acc_in)
                                                == Err::<(Seq<ArtifactGroup>, Set<ProjectionKey>), u64>(cid));
                                            assert(e0 == Err::<(Seq<ArtifactGroup>, Set<ProjectionKey>), u64>(cid));
                                            assert(crate::resolve_spec::step(self.tsets@, tname, abs)
                                                == ResolveStep::Fail(fail_view(err)));
                                            lemma_run_snoc(self.tsets@, tname, initial_state(q0), steps);
                                        }
                                        return Err(err);
                                    }
                                    proof {
                                        assert(d.children@.skip(d.children@.len() as int).len() == 0);
                                        assert(cc == Ok::<_, u64>((newdefs + Seq::<TransitiveSetDef>::empty(), seen_abs)));
                                        assert(newdefs + Seq::<TransitiveSetDef>::empty() =~= newdefs);
                                        lemma_collect_children_seen(self.tsets@, proj, d.children@, seen_in);
                                        if newdefs.len() == 0 {
                                            assert(seen_abs == seen_in);
                                            assert(local@.len() == local_base.len());
                                        } else {
                                            assert(unseen_ids(self.tsets@, proj, seen_abs).len()
                                                < unseen_ids(self.tsets@, proj, seen_in).len());
                                        }
                                        // one unfolding of expand
                                        assert(expand(self.tsets@, proj, local_in, seen_in, acc_in)
                                            == expand(self.tsets@, proj, local_rest + newdefs, seen_abs, acc_in + inputs_spec));
                                        assert(local@.skip(lhead as int).map_values(|dd: &TransitiveSetDef| *dd)
                                            =~= local_rest + newdefs);
                                        assert(acc =~= acc_in + inputs_spec);
                                    }
                                }
                                // local queue drained: the expansion is complete
                                calls.push(key);
                                proof {
                                    assert(local@.skip(local@.len() as int).map_values(|dd: &TransitiveSetDef| *dd).len() == 0);
                                    assert(e0 == Ok::<_, u64>((acc, seen_abs)));
                                    let next = ResolveState {
                                        queue: rest + acc.map_values(|g: ArtifactGroup| (entry.0, g)),
                                        seen: seen_abs,
                                        out: abs.out,
                                        calls: abs.calls.push(key),
                                    };
                                    assert(crate::resolve_spec::step(self.tsets@, tname, abs) == ResolveStep::Next(next));
                                    lemma_run_snoc(self.tsets@, tname, initial_state(q0), steps);
                                    // the re-enqueued groups only mention backend projection indices
                                    lemma_find_tset_member(self.tsets@, key.set_id);
                                    lemma_expand_groups(self.tsets@, proj, seq![*def], seen0, Seq::empty());
                                    let tagged = acc.map_values(|g: ArtifactGroup| (entry.0, g));
                                    assert forall|i: int| 0 <= i < next.queue.len()
                                        implies entry_proj_ok(projs_all, (#[trigger] next.queue[i]).1) by {
                                        if i < rest.len() {
                                            assert(abs.queue[i + 1] == next.queue[i]);
                                        } else {
                                            assert(next.queue[i] == tagged[i - rest.len()]);
                                            assert(next.queue[i].1 == acc[i - rest.len()]);
                                            match acc[i - rest.len()] {
                                                ArtifactGroup::TransitiveSetProjection(k) => {
                                                    lemma_contains_side(queue_proj_seq(q0), tsets_proj_seq(self.tsets@), k.projection);
                                                },
                                                ArtifactGroup::Artifact(_) => {},
                                            }
                                        }
                                    }
                                    // the measure shrinks: a fresh in-space key was marked
                                    lemma_find_tset_in_ids(self.tsets@, key.set_id);
                                    assert(ids_seq(self.tsets@).contains(key.set_id));
                                    assert(abs.queue[0] == entry);
                                    assert(entry_proj_ok(projs_all, abs.queue[0].1));
                                    assert(projs_all.contains(key.projection));
                                    lemma_pair_seq_contains(ids_seq(self.tsets@), projs_all, key);
                                    assert(resolve_key_space(self.tsets@, q0).contains(key));
                                    lemma_expand_seen_mono(self.tsets@, proj, seq![*def], seen0, Seq::empty());
                                    lemma_unseen_pairs_insert(self.tsets@, q0, abs.seen, seen_abs, key);
                                    abs = next;
                                    steps = steps + 1;
                                    assert(abs.queue =~= vq@.skip(head as int));
                                    assert(abs.calls =~= calls@);
                                }
                            },
                        }
                    }
                },
            }
        }
        proof {
            assert(abs.queue.len() == 0);
            assert(crate::resolve_spec::step(self.tsets@, tname, abs)
                == (ResolveStep::Done { out: abs.out, calls: abs.calls }));
            lemma_run_snoc(self.tsets@, tname, initial_state(q0), steps);
            assert(run(self.tsets@, tname, initial_state(q0), steps + 1)
                == (ResolveStep::Done { out: label_map_entries(map), calls: calls@ }));
            lemma_materialization_bounded(self.tsets@, tname, q0, steps + 1);
            assert(q0 == initial_queue(self.placeholders@, targets.labels(), template_name@));
            let w: nat = steps + 1;
            assert(run(self.tsets@, template_name@,
                initial_state(initial_queue(self.placeholders@, targets.labels(), template_name@)), w)
                == (ResolveStep::Done { out: label_map_entries(map), calls: calls@ }));
            match run(self.tsets@, tname, initial_state(q0), w) {
                ResolveStep::Done { out: o, calls: cs } => {
                    assert(cs == calls@);
                    assert(forall|i: int, j: int| 0 <= i < j < cs.len() ==> cs[i] != cs[j]);
                },
                _ => {},
            }
            assert(forall|i: int, j: int| 0 <= i < j < calls@.len() ==> calls@[i] != calls@[j]);
        }
        Ok((map, calls))
    }

    /// Scans every target's provider list under the template key and
    /// returns the order-preserving owning-label-to-artifact map that the
    /// resolution machine computes: owners in first-encounter order, the
    /// last artifact written for an owner winning.
    pub fn get_from_template_placeholder_info(&self, template_name: &str, targets: &TargetSet)
        -> (r: Result<IndexMap<u64, Artifact>, QueryEvalError>)
        ensures
            match r {
                Ok(m) => exists|n: nat|
                    (#[trigger] run(self.tsets@, template_name@,
                        initial_state(initial_queue(self.placeholders@, targets.labels(), template_name@)), n))
                    matches ResolveStep::Done { out, calls } && out == label_map_entries(m),
                Err(e) => (exists|n: nat|
                        run(self.tsets@, template_name@,
                            initial_state(initial_queue(self.placeholders@, targets.labels(), template_name@)), n)
                        == ResolveStep::Fail(fail_view(e)))
                    && (e is NonTargetBoundArtifact || e is UnknownTransitiveSet || e is InvalidSetStructure),
            },
    {
        match self.resolve_template_placeholder_info(template_name, targets) {
            Ok(p) => {
                proof {
                    let n = choose|n: nat|
                        run(self.tsets@, template_name@,
                            initial_state(initial_queue(self.placeholders@, targets.labels(), template_name@)), n)
                        == (ResolveStep::Done { out: label_map_entries(p.0), calls: p.1@ });
                    assert(run(self.tsets@, template_name@,
                        initial_state(initial_queue(self.placeholders@, targets.labels(), template_name@)), n)
                        == (ResolveStep::Done { out: label_map_entries(p.0), calls: p.1@ }));
                }
                Ok(p.0)
            },
            Err(e) => Err(e),
        }
    }

    /// The set of distinct owning target labels the same resolution
    /// encounters, in first-encounter order: the target-set variant of
    /// the resolver.
    #[verifier::loop_isolation(false)]
    pub fn get_targets_from_template_placeholder_info(&self, template_name: &str, targets: &TargetSet)
        -> (r: Result<LabelSet, QueryEvalError>)
        ensures
            match r {
                Ok(ls) => ls.wf() && exists|n: nat|
                    (#[trigger] run(self.tsets@, template_name@,
                        initial_state(initial_queue(self.placeholders@, targets.labels(), template_name@)), n))
                    matches ResolveStep::Done { out, calls }
                    && ls.labels@ == distinct_labels(Seq::empty(), out),
                Err(e) => (exists|n: nat|
                        run(self.tsets@, template_name@,
                            initial_state(initial_queue(self.placeholders@, targets.labels(), template_name@)), n)
                        == ResolveStep::Fail(fail_view(e)))
                    && (e is NonTargetBoundArtifact || e is UnknownTransitiveSet || e is InvalidSetStructure),
            },
    {
        match self.resolve_template_placeholder_info(template_name, targets) {
            Ok(p) => {
                let ghost n0 = choose|n: nat|
                    run(self.tsets@, template_name@,
                        initial_state(initial_queue(self.placeholders@, targets.labels(), template_name@)), n)
                    == (ResolveStep::Done { out: label_map_entries(p.0), calls: p.1@ });
                let entries = crate::label_map::label_map_entries_vec(&p.0);
                let ghost out0 = label_map_entries(p.0);
                let mut ls = LabelSet::new();
                let mut i: usize = 0;
                proof {
                    assert(entries@.skip(0) =~= entries@);
                    assert(entries@ == out0);
                    assert(ls.labels@ =~= Seq::<TargetLabel>::empty());
                }
                while i < entries.len()
                    invariant
                        i <= entries@.len(),
                        ls.wf(),
                        distinct_labels(ls.labels@, entries@.skip(i as int)) == distinct_labels(Seq::empty(), out0),
                    decreases entries@.len() - i,
                {
                    let ghost pre = entries@.skip(i as int);
                    proof {
                        assert(pre[0] == entries@[i as int]);
                        assert(pre.skip(1) =~= entries@.skip(i as int + 1));
                    }
                    let label = TargetLabel { id: entries[i].0 };
                    ls.insert(label);
                    i = i + 1;
                }
                proof {
                    assert(entries@.skip(entries@.len() as int).len() == 0);
                    assert(run(self.tsets@, template_name@,
                        initial_state(initial_queue(self.placeholders@, targets.labels(), template_name@)), n0)
                        == (ResolveStep::Done { out: out0, calls: p.1@ }));
                }
                Ok(ls)
            },
            Err(e) => Err(e),
        }
    }
}

/// The inputs one set exposes for a projection index, if any.
fn find_projection_value<'a>(d: &'a TransitiveSetDef, proj: u64) -> (r: Option<&'a Vec<ArtifactGroup>>)
    ensures
        match r {
            Some(v) => find_projection(d.projections@, proj) == Some(v@),
            None => find_projection(d.projections@, proj) is None,
        },
{
    let mut i: usize = 0;
    proof {
        assert(d.projections@.skip(0) =~= d.projections@);
    }
    while i < d.projections.len()
        invariant
            i <= d.projections@.len(),
            find_projection(d.projections@, proj) == find_projection(d.projections@.skip(i as int), proj),
        decreases d.projections@.len() - i,
    {
        let ghost pre = d.projections@.skip(i as int);
        assert(pre[0] == d.projections@[i as int]);
        assert(pre.skip(1) =~= d.projections@.skip(i as int + 1));
        if d.projections[i].projection == proj {
            return Some(&d.projections[i].inputs);
        }
        i = i + 1;
    }
    assert(d.projections@.skip(d.projections@.len() as int).len() == 0);
    None
}

} // verus!
