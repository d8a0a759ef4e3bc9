//! Mathematical model of template-placeholder resolution.
//!
//! The resolver is specified as a small-step machine over an abstract
//! state: an outer work queue of (owning target, artifact group) pairs, a
//! set of already-seen projection keys, the ordered output map, and the
//! ordered sequence of materialization calls made so far. The executable
//! resolver is proved to follow this machine step by step, so every
//! property proved of the machine (determinism, the bound on
//! materialization calls) holds of the running code.

use vstd::prelude::*;
use vstd::set_lib::lemma_len_subset;
use crate::TargetLabel;
use crate::types::{Artifact, ArtifactGroup, ArtifactOwner, ProjectionKey, TransitiveSetDef,
    ProjectionValue};

verus! {

/// Abstract state of one in-progress resolution.
pub ghost struct ResolveState {
    /// Pending artifact groups, each tagged with the target whose
    /// provider list introduced it.
    pub queue: Seq<(TargetLabel, ArtifactGroup)>,
    /// Projection keys already marked, as top-level or as child nodes.
    pub seen: Set<ProjectionKey>,
    /// The ordered output: label key to artifact, first-insertion order.
    pub out: Seq<(u64, Artifact)>,
    /// The materialization calls issued so far, in order.
    pub calls: Seq<ProjectionKey>,
}

/// How a resolution can fail.
pub ghost enum ResolveFailure {
    /// An artifact's owner was not a target label.
    NonTargetBound { template_name: Seq<char>, target: TargetLabel, artifact: Artifact },
    /// A top-level projection named a set the backend does not know.
    UnknownSet { key: ProjectionKey },
    /// A child reference inside a materialized set named no valid set.
    BadChild { set_id: u64 },
}

/// The outcome of one machine step.
pub ghost enum ResolveStep {
    Next(ResolveState),
    Done { out: Seq<(u64, Artifact)>, calls: Seq<ProjectionKey> },
    Fail(ResolveFailure),
}

/// The state a resolution starts from: only the flattened work queue.
pub open spec fn initial_state(queue: Seq<(TargetLabel, ArtifactGroup)>) -> ResolveState {
    ResolveState { queue, seen: Set::empty(), out: Seq::empty(), calls: Seq::empty() }
}

/// First set with the given id, if any: the backend's lookup.
pub open spec fn find_tset(tsets: Seq<TransitiveSetDef>, id: u64) -> Option<TransitiveSetDef>
    decreases tsets.len(),
{
    if tsets.len() == 0 {
        None
    } else if tsets[0].set_id == id {
        Some(tsets[0])
    } else {
        find_tset(tsets.skip(1), id)
    }
}

/// The input groups a set exposes for one projection index, if any.
pub open spec fn find_projection(pvs: Seq<ProjectionValue>, proj: u64) -> Option<Seq<ArtifactGroup>>
    decreases pvs.len(),
{
    if pvs.len() == 0 {
        None
    } else if pvs[0].projection == proj {
        Some(pvs[0].inputs@)
    } else {
        find_projection(pvs.skip(1), proj)
    }
}

/// Insert into an ordered key-value sequence: if the key is present its
/// value is updated in place (position retained), otherwise the pair is
/// appended last. This is the insertion discipline of the ordered output
/// map.
pub open spec fn upsert(entries: Seq<(u64, Artifact)>, k: u64, v: Artifact) -> Seq<(u64, Artifact)>
    decreases entries.len(),
{
    if entries.len() == 0 {
        seq![(k, v)]
    } else if entries[0].0 == k {
        seq![(k, v)] + entries.skip(1)
    } else {
        seq![entries[0]] + upsert(entries.skip(1), k, v)
    }
}

/// The ids of all sets the backend holds.
pub open spec fn tset_ids(tsets: Seq<TransitiveSetDef>) -> Set<u64> {
    tsets.map_values(|d: TransitiveSetDef| d.set_id).to_set()
}

/// The backend ids whose key at this projection index is not yet seen:
/// the termination measure of an expansion.
pub open spec fn unseen_ids(tsets: Seq<TransitiveSetDef>, proj: u64, seen: Set<ProjectionKey>) -> Set<u64> {
    tset_ids(tsets).filter(|id: u64| !seen.contains(ProjectionKey { set_id: id, projection: proj }))
}

pub proof fn lemma_unseen_finite(tsets: Seq<TransitiveSetDef>, proj: u64, seen: Set<ProjectionKey>)
    ensures
        unseen_ids(tsets, proj, seen).finite(),
        tset_ids(tsets).finite(),
{
    broadcast use vstd::seq_lib::seq_to_set_is_finite;

    tset_ids(tsets).lemma_len_filter(|id: u64| !seen.contains(ProjectionKey { set_id: id, projection: proj }));
}

pub proof fn lemma_find_tset_in_ids(tsets: Seq<TransitiveSetDef>, id: u64)
    requires
        find_tset(tsets, id) is Some,
    ensures
        tset_ids(tsets).contains(id),
    decreases tsets.len(),
{
    broadcast use vstd::seq_lib::group_seq_properties;

    if tsets.len() > 0 && tsets[0].set_id != id {
        lemma_find_tset_in_ids(tsets.skip(1), id);
        let m = |d: TransitiveSetDef| d.set_id;
        assert(tsets.skip(1).map_values(m).to_set().contains(id));
        let ms = tsets.skip(1).map_values(m);
        let i = choose|i: int| 0 <= i < ms.len() && ms[i] == id;
        assert(tsets.map_values(m)[i + 1] == id);
        assert(tsets.map_values(m).to_set().contains(id));
    } else {
        assert(tsets.map_values(|d: TransitiveSetDef| d.set_id)[0] == id);
        assert(tsets.map_values(|d: TransitiveSetDef| d.set_id).to_set().contains(id));
    }
}

/// Growing the seen set can only shrink the unseen measure.
pub proof fn lemma_unseen_mono(tsets: Seq<TransitiveSetDef>, proj: u64, seen1: Set<ProjectionKey>, seen2: Set<ProjectionKey>)
    requires
        seen1.subset_of(seen2),
    ensures
        unseen_ids(tsets, proj, seen2).len() <= unseen_ids(tsets, proj, seen1).len(),
{
    lemma_unseen_finite(tsets, proj, seen1);
    assert(unseen_ids(tsets, proj, seen2).subset_of(unseen_ids(tsets, proj, seen1)));
    lemma_len_subset(unseen_ids(tsets, proj, seen2), unseen_ids(tsets, proj, seen1));
}

/// Marking one backend-resident key seen strictly shrinks the measure.
pub proof fn lemma_unseen_insert(tsets: Seq<TransitiveSetDef>, proj: u64, seen: Set<ProjectionKey>, id: u64)
    requires
        tset_ids(tsets).contains(id),
        !seen.contains(ProjectionKey { set_id: id, projection: proj }),
    ensures
        unseen_ids(tsets, proj, seen.insert(ProjectionKey { set_id: id, projection: proj })).len()
            < unseen_ids(tsets, proj, seen).len(),
{
    broadcast use vstd::set::group_set_axioms;

    let key = ProjectionKey { set_id: id, projection: proj };
    let before = unseen_ids(tsets, proj, seen);
    let after = unseen_ids(tsets, proj, seen.insert(key));
    lemma_unseen_finite(tsets, proj, seen);
    assert(before.contains(id));
    assert(after.subset_of(before.remove(id)));
    assert(before.remove(id).len() == before.len() - 1);
    lemma_len_subset(after, before.remove(id));
}

/// Walk one set's child references: mark each unseen (child, projection)
/// key as seen and collect the child's already-in-hand definition, in
/// order. A child id the backend does not know is a structural error.
pub open spec fn collect_children(
    tsets: Seq<TransitiveSetDef>,
    proj: u64,
    children: Seq<u64>,
    seen: Set<ProjectionKey>,
) -> Result<(Seq<TransitiveSetDef>, Set<ProjectionKey>), u64>
    decreases children.len(),
{
    if children.len() == 0 {
        Ok((Seq::empty(), seen))
    } else {
        let key = ProjectionKey { set_id: children[0], projection: proj };
        if seen.contains(key) {
            collect_children(tsets, proj, children.skip(1), seen)
        } else {
            match find_tset(tsets, children[0]) {
                None => Err(children[0]),
                Some(cdef) => match collect_children(tsets, proj, children.skip(1), seen.insert(key)) {
                    Err(e) => Err(e),
                    Ok(r) => Ok((seq![cdef] + r.0, r.1)),
                },
            }
        }
    }
}

/// What a successful child walk does to the seen set and the measure.
pub proof fn lemma_collect_children_seen(
    tsets: Seq<TransitiveSetDef>,
    proj: u64,
    children: Seq<u64>,
    seen: Set<ProjectionKey>,
)
    ensures
        match collect_children(tsets, proj, children, seen) {
            Ok(r) => seen.subset_of(r.1)
                && unseen_ids(tsets, proj, r.1).len() <= unseen_ids(tsets, proj, seen).len()
                && (r.0.len() == 0 ==> r.1 == seen)
                && (r.0.len() > 0 ==> unseen_ids(tsets, proj, r.1).len() < unseen_ids(tsets, proj, seen).len()),
            Err(_) => true,
        },
    decreases children.len(),
{
    broadcast use vstd::set::group_set_axioms;

    if children.len() == 0 {
    } else {
        let key = ProjectionKey { set_id: children[0], projection: proj };
        if seen.contains(key) {
            lemma_collect_children_seen(tsets, proj, children.skip(1), seen);
        } else {
            match find_tset(tsets, children[0]) {
                None => {},
                Some(cdef) => {
                    lemma_find_tset_in_ids(tsets, children[0]);
                    lemma_unseen_insert(tsets, proj, seen, children[0]);
                    lemma_collect_children_seen(tsets, proj, children.skip(1), seen.insert(key));
                },
            }
        }
    }
}

/// Expand materialized sets through their child structure, purely in
/// memory: pop a set, append its projection inputs to the accumulator,
/// and enqueue every not-yet-seen child. Terminates because every
/// enqueued child marks a fresh backend key as seen.
pub open spec fn expand(
    tsets: Seq<TransitiveSetDef>,
    proj: u64,
    local: Seq<TransitiveSetDef>,
    seen: Set<ProjectionKey>,
    acc: Seq<ArtifactGroup>,
) -> Result<(Seq<ArtifactGroup>, Set<ProjectionKey>), u64>
    decreases unseen_ids(tsets, proj, seen).len(), local.len(),
        via expand_decreases
{
    if local.len() == 0 {
        Ok((acc, seen))
    } else {
        let def = local[0];
        let inputs = match find_projection(def.projections@, proj) {
            Some(s) => s,
            None => Seq::empty(),
        };
        match collect_children(tsets, proj, def.children@, seen) {
            Err(c) => Err(c),
            Ok(r) => expand(tsets, proj, local.skip(1) + r.0, r.1, acc + inputs),
        }
    }
}

#[via_fn]
proof fn expand_decreases(
    tsets: Seq<TransitiveSetDef>,
    proj: u64,
    local: Seq<TransitiveSetDef>,
    seen: Set<ProjectionKey>,
    acc: Seq<ArtifactGroup>,
) {
    if local.len() > 0 {
        let def = local[0];
        lemma_collect_children_seen(tsets, proj, def.children@, seen);
        match collect_children(tsets, proj, def.children@, seen) {
            Err(_) => {},
            Ok(r) => {
                if r.0.len() == 0 {
                    assert((local.skip(1) + r.0).len() < local.len());
                }
            },
        }
    }
}

/// A successful expansion only grows the seen set.
pub proof fn lemma_expand_seen_mono(
    tsets: Seq<TransitiveSetDef>,
    proj: u64,
    local: Seq<TransitiveSetDef>,
    seen: Set<ProjectionKey>,
    acc: Seq<ArtifactGroup>,
)
    ensures
        match expand(tsets, proj, local, seen, acc) {
            Ok(r) => seen.subset_of(r.1),
            Err(_) => true,
        },
    decreases unseen_ids(tsets, proj, seen).len(), local.len(),
{
    if local.len() == 0 {
    } else {
        let def = local[0];
        let inputs = match find_projection(def.projections@, proj) {
            Some(s) => s,
            None => Seq::<ArtifactGroup>::empty(),
        };
        lemma_collect_children_seen(tsets, proj, def.children@, seen);
        match collect_children(tsets, proj, def.children@, seen) {
            Err(_) => {},
            Ok(r) => {
                if r.0.len() == 0 {
                    assert((local.skip(1) + r.0).len() < local.len());
                }
                lemma_expand_seen_mono(tsets, proj, local.skip(1) + r.0, r.1, acc + inputs);
            },
        }
    }
}

/// One step of the resolution machine, over the first queue entry:
/// an unowned artifact is skipped; a target-owned artifact is upserted
/// into the output; a non-target owner is an error; an unseen projection
/// is marked, materialized (one call, recorded), and expanded, its
/// re-discovered groups re-enqueued at the back tagged with the original
/// owning target; a seen projection is skipped entirely.
pub open spec fn step(
    tsets: Seq<TransitiveSetDef>,
    template_name: Seq<char>,
    s: ResolveState,
) -> ResolveStep {
    if s.queue.len() == 0 {
        ResolveStep::Done { out: s.out, calls: s.calls }
    } else {
        let target = s.queue[0].0;
        let group = s.queue[0].1;
        let rest = s.queue.skip(1);
        match group {
            ArtifactGroup::Artifact(a) => match a.owner {
                None => ResolveStep::Next(ResolveState { queue: rest, seen: s.seen, out: s.out, calls: s.calls }),
                Some(ArtifactOwner::Target(l)) => ResolveStep::Next(ResolveState {
                    queue: rest,
                    seen: s.seen,
                    out: upsert(s.out, l.id, a),
                    calls: s.calls,
                }),
                Some(ArtifactOwner::NonTarget(_)) => ResolveStep::Fail(ResolveFailure::NonTargetBound {
                    template_name,
                    target,
                    artifact: a,
                }),
            },
            ArtifactGroup::TransitiveSetProjection(key) => {
                if s.seen.contains(key) {
                    ResolveStep::Next(ResolveState { queue: rest, seen: s.seen, out: s.out, calls: s.calls })
                } else {
                    match find_tset(tsets, key.set_id) {
                        None => ResolveStep::Fail(ResolveFailure::UnknownSet { key }),
                        Some(def) => match expand(tsets, key.projection, seq![def], s.seen.insert(key), Seq::empty()) {
                            Err(c) => ResolveStep::Fail(ResolveFailure::BadChild { set_id: c }),
                            Ok(r) => ResolveStep::Next(ResolveState {
                                queue: rest + r.0.map_values(|g: ArtifactGroup| (target, g)),
                                seen: r.1,
                                out: s.out,
                                calls: s.calls.push(key),
                            }),
                        },
                    }
                }
            },
        }
    }
}

/// Law: an artifact without an owner is silently skipped — the step
/// drops it from the queue and leaves the output, the seen set and the
/// call record untouched; it is never an error.
pub proof fn lemma_unowned_artifact_skipped(
    tsets: Seq<TransitiveSetDef>,
    template_name: Seq<char>,
    s: ResolveState,
    a: Artifact,
)
    requires
        s.queue.len() > 0,
        s.queue[0].1 == ArtifactGroup::Artifact(a),
        a.owner is None,
    ensures
        step(tsets, template_name, s) == ResolveStep::Next(ResolveState {
            queue: s.queue.skip(1),
            seen: s.seen,
            out: s.out,
            calls: s.calls,
        }),
{
}

/// Law: an artifact whose owner is not a target label fails the whole
/// resolution with an error naming the template key, the scanning target
/// and the artifact.
pub proof fn lemma_non_target_owner_fails(
    tsets: Seq<TransitiveSetDef>,
    template_name: Seq<char>,
    s: ResolveState,
    a: Artifact,
)
    requires
        s.queue.len() > 0,
        s.queue[0].1 == ArtifactGroup::Artifact(a),
        a.owner matches Some(ArtifactOwner::NonTarget(_)),
    ensures
        step(tsets, template_name, s) == ResolveStep::Fail(ResolveFailure::NonTargetBound {
            template_name,
            target: s.queue[0].0,
            artifact: a,
        }),
{
}

/// Law: the call discipline at a projection reference. A reference to an
/// already-seen (set, projection) pair is skipped entirely: no call, no
/// new state beyond dropping the entry. The first reference to an unseen
/// pair marks it seen and issues exactly one materialization call,
/// recorded at the end of the call sequence.
pub proof fn lemma_projection_call_discipline(
    tsets: Seq<TransitiveSetDef>,
    template_name: Seq<char>,
    s: ResolveState,
    key: ProjectionKey,
)
    requires
        s.queue.len() > 0,
        s.queue[0].1 == ArtifactGroup::TransitiveSetProjection(key),
    ensures
        s.seen.contains(key) ==> step(tsets, template_name, s) == ResolveStep::Next(ResolveState {
            queue: s.queue.skip(1),
            seen: s.seen,
            out: s.out,
            calls: s.calls,
        }),
        !s.seen.contains(key) ==> match step(tsets, template_name, s) {
            ResolveStep::Next(t) => t.calls == s.calls.push(key) && t.seen.contains(key)
                && t.out == s.out,
            ResolveStep::Fail(_) => true,
            ResolveStep::Done { .. } => false,
        },
{
    broadcast use vstd::set::group_set_axioms;

    if !s.seen.contains(key) {
        match find_tset(tsets, key.set_id) {
            None => {},
            Some(def) => {
                lemma_expand_seen_mono(tsets, key.projection, seq![def], s.seen.insert(key), Seq::empty());
            },
        }
    }
}

/// The machine after up to `n` steps: `Next` means still running.
pub open spec fn run(
    tsets: Seq<TransitiveSetDef>,
    template_name: Seq<char>,
    s: ResolveState,
    n: nat,
) -> ResolveStep
    decreases n,
{
    if n == 0 {
        ResolveStep::Next(s)
    } else {
        match step(tsets, template_name, s) {
            ResolveStep::Next(s2) => run(tsets, template_name, s2, (n - 1) as nat),
            r => r,
        }
    }
}

/// Unrolling one more step at the end of a run.
pub proof fn lemma_run_snoc(
    tsets: Seq<TransitiveSetDef>,
    template_name: Seq<char>,
    s: ResolveState,
    n: nat,
)
    ensures
        run(tsets, template_name, s, n + 1) == (match run(tsets, template_name, s, n) {
            ResolveStep::Next(t) => step(tsets, template_name, t),
            r => r,
        }),
    decreases n,
{
    if n == 0 {
        assert(run(tsets, template_name, s, 0) == ResolveStep::Next(s));
        assert(run(tsets, template_name, s, 1) == (match step(tsets, template_name, s) {
            ResolveStep::Next(s2) => run(tsets, template_name, s2, 0),
            r => r,
        }));
    } else {
        match step(tsets, template_name, s) {
            ResolveStep::Next(s2) => {
                lemma_run_snoc(tsets, template_name, s2, (n - 1) as nat);
                assert(run(tsets, template_name, s, n + 1) == run(tsets, template_name, s2, (n - 1) as nat + 1));
                assert(run(tsets, template_name, s, n) == run(tsets, template_name, s2, (n - 1) as nat));
            },
            _ => {
                assert(run(tsets, template_name, s, n + 1) == step(tsets, template_name, s));
                assert(run(tsets, template_name, s, n) == step(tsets, template_name, s));
            },
        }
    }
}

/// Once a run has finished or failed, more steps change nothing.
pub proof fn lemma_run_stable(
    tsets: Seq<TransitiveSetDef>,
    template_name: Seq<char>,
    s: ResolveState,
    n: nat,
    m: nat,
)
    requires
        n <= m,
        !(run(tsets, template_name, s, n) is Next),
    ensures
        run(tsets, template_name, s, m) == run(tsets, template_name, s, n),
    decreases m,
{
    if m > n {
        lemma_run_stable(tsets, template_name, s, n, (m - 1) as nat);
        lemma_run_snoc(tsets, template_name, s, (m - 1) as nat);
    }
}

/// Law: resolution is deterministic. Any two complete runs from the same
/// state — the same backend, template key, targets and provider data —
/// reach the same outcome: the same ordered output and the same ordered
/// sequence of materialization calls. Resolving twice against an
/// unchanged backend therefore yields an identical result.
pub proof fn lemma_resolution_deterministic(
    tsets: Seq<TransitiveSetDef>,
    template_name: Seq<char>,
    s: ResolveState,
    n: nat,
    m: nat,
)
    requires
        !(run(tsets, template_name, s, n) is Next),
        !(run(tsets, template_name, s, m) is Next),
    ensures
        run(tsets, template_name, s, n) == run(tsets, template_name, s, m),
{
    if n <= m {
        lemma_run_stable(tsets, template_name, s, n, m);
    } else {
        lemma_run_stable(tsets, template_name, s, m, n);
    }
}

/// The projection indices mentioned by projection entries of a group list.
pub open spec fn groups_proj_seq(gs: Seq<ArtifactGroup>) -> Seq<u64>
    decreases gs.len(),
{
    if gs.len() == 0 {
        Seq::empty()
    } else {
        (match gs[0] {
            ArtifactGroup::TransitiveSetProjection(k) => seq![k.projection],
            ArtifactGroup::Artifact(_) => Seq::empty(),
        }) + groups_proj_seq(gs.skip(1))
    }
}

/// The projection indices mentioned by a work queue.
pub open spec fn queue_proj_seq(q: Seq<(TargetLabel, ArtifactGroup)>) -> Seq<u64>
    decreases q.len(),
{
    if q.len() == 0 {
        Seq::empty()
    } else {
        (match q[0].1 {
            ArtifactGroup::TransitiveSetProjection(k) => seq![k.projection],
            ArtifactGroup::Artifact(_) => Seq::empty(),
        }) + queue_proj_seq(q.skip(1))
    }
}

/// The projection indices mentioned inside a set's projection values.
pub open spec fn pv_proj_seq(pvs: Seq<ProjectionValue>) -> Seq<u64>
    decreases pvs.len(),
{
    if pvs.len() == 0 {
        Seq::empty()
    } else {
        groups_proj_seq(pvs[0].inputs@) + pv_proj_seq(pvs.skip(1))
    }
}

/// The projection indices mentioned anywhere inside the backend's sets.
pub open spec fn tsets_proj_seq(tsets: Seq<TransitiveSetDef>) -> Seq<u64>
    decreases tsets.len(),
{
    if tsets.len() == 0 {
        Seq::empty()
    } else {
        pv_proj_seq(tsets[0].projections@) + tsets_proj_seq(tsets.skip(1))
    }
}

pub open spec fn ids_seq(tsets: Seq<TransitiveSetDef>) -> Seq<u64> {
    tsets.map_values(|d: TransitiveSetDef| d.set_id)
}

/// All (set id, projection index) pairs over the two given alphabets.
pub open spec fn pair_seq(ids: Seq<u64>, projs: Seq<u64>) -> Seq<ProjectionKey>
    decreases ids.len(),
{
    if ids.len() == 0 {
        Seq::empty()
    } else {
        projs.map_values(|p: u64| ProjectionKey { set_id: ids[0], projection: p })
            + pair_seq(ids.skip(1), projs)
    }
}

pub proof fn lemma_pair_seq_contains(ids: Seq<u64>, projs: Seq<u64>, k: ProjectionKey)
    ensures
        pair_seq(ids, projs).contains(k) <==> (ids.contains(k.set_id) && projs.contains(k.projection)),
    decreases ids.len(),
{
    if ids.len() == 0 {
    } else {
        lemma_pair_seq_contains(ids.skip(1), projs, k);
        let row = projs.map_values(|p: u64| ProjectionKey { set_id: ids[0], projection: p });
        let rest = pair_seq(ids.skip(1), projs);
        if pair_seq(ids, projs).contains(k) {
            let i = choose|i: int| 0 <= i < pair_seq(ids, projs).len() && pair_seq(ids, projs)[i] == k;
            if i < row.len() {
                assert(row[i] == k);
                assert(projs[i] == k.projection);
                assert(ids[0] == k.set_id);
            } else {
                assert(rest[i - row.len()] == k);
                assert(rest.contains(k));
                let j = choose|j: int| 0 <= j < ids.skip(1).len() && ids.skip(1)[j] == k.set_id;
                assert(ids[j + 1] == k.set_id);
            }
        }
        if ids.contains(k.set_id) && projs.contains(k.projection) {
            let a = choose|a: int| 0 <= a < ids.len() && ids[a] == k.set_id;
            let p = choose|p: int| 0 <= p < projs.len() && projs[p] == k.projection;
            if a == 0 {
                assert(row[p] == k);
                assert(pair_seq(ids, projs)[p] == k);
            } else {
                assert(ids.skip(1)[a - 1] == k.set_id);
                assert(ids.skip(1).contains(k.set_id));
                assert(rest.contains(k));
                let j = choose|j: int| 0 <= j < rest.len() && rest[j] == k;
                assert(pair_seq(ids, projs)[row.len() + j] == k);
            }
        }
    }
}

/// The finite space every key ever marked seen during a resolution lives
/// in: backend set ids crossed with the projection indices mentioned by
/// the initial queue or by the backend's sets.
pub open spec fn resolve_key_space(tsets: Seq<TransitiveSetDef>, q0: Seq<(TargetLabel, ArtifactGroup)>) -> Set<ProjectionKey> {
    pair_seq(ids_seq(tsets), queue_proj_seq(q0) + tsets_proj_seq(tsets)).to_set()
}

/// The outer termination measure: key-space pairs not yet seen.
pub open spec fn unseen_pairs(tsets: Seq<TransitiveSetDef>, q0: Seq<(TargetLabel, ArtifactGroup)>, seen: Set<ProjectionKey>) -> nat {
    resolve_key_space(tsets, q0).filter(|k: ProjectionKey| !seen.contains(k)).len()
}

pub proof fn lemma_unseen_pairs_finite(tsets: Seq<TransitiveSetDef>, q0: Seq<(TargetLabel, ArtifactGroup)>, seen: Set<ProjectionKey>)
    ensures
        resolve_key_space(tsets, q0).finite(),
        resolve_key_space(tsets, q0).filter(|k: ProjectionKey| !seen.contains(k)).finite(),
{
    broadcast use vstd::seq_lib::seq_to_set_is_finite;

    resolve_key_space(tsets, q0).lemma_len_filter(|k: ProjectionKey| !seen.contains(k));
}

/// Marking one in-space, fresh key seen — and possibly more — strictly
/// shrinks the outer measure.
pub proof fn lemma_unseen_pairs_insert(
    tsets: Seq<TransitiveSetDef>,
    q0: Seq<(TargetLabel, ArtifactGroup)>,
    seen1: Set<ProjectionKey>,
    seen2: Set<ProjectionKey>,
    k: ProjectionKey,
)
    requires
        resolve_key_space(tsets, q0).contains(k),
        !seen1.contains(k),
        seen1.insert(k).subset_of(seen2),
    ensures
        unseen_pairs(tsets, q0, seen2) < unseen_pairs(tsets, q0, seen1),
{
    broadcast use vstd::set::group_set_axioms;

    let space = resolve_key_space(tsets, q0);
    let before = space.filter(|x: ProjectionKey| !seen1.contains(x));
    let after = space.filter(|x: ProjectionKey| !seen2.contains(x));
    lemma_unseen_pairs_finite(tsets, q0, seen1);
    assert(before.contains(k));
    assert(after.subset_of(before.remove(k)));
    assert(before.remove(k).len() == before.len() - 1);
    lemma_len_subset(after, before.remove(k));
}

/// Membership of one sequence inside a concatenation.
pub proof fn lemma_contains_side<A>(a: Seq<A>, b: Seq<A>, x: A)
    requires
        a.contains(x) || b.contains(x),
    ensures
        (a + b).contains(x),
{
    if a.contains(x) {
        let i = choose|i: int| 0 <= i < a.len() && a[i] == x;
        assert((a + b)[i] == x);
    } else {
        let i = choose|i: int| 0 <= i < b.len() && b[i] == x;
        assert((a + b)[a.len() + i] == x);
    }
}

/// Every projection entry of a queue contributes its index.
pub proof fn lemma_queue_proj_covers(q: Seq<(TargetLabel, ArtifactGroup)>, i: int, k: ProjectionKey)
    requires
        0 <= i < q.len(),
        q[i].1 == ArtifactGroup::TransitiveSetProjection(k),
    ensures
        queue_proj_seq(q).contains(k.projection),
    decreases q.len(),
{
    let head = match q[0].1 {
        ArtifactGroup::TransitiveSetProjection(kk) => seq![kk.projection],
        ArtifactGroup::Artifact(_) => Seq::<u64>::empty(),
    };
    if i == 0 {
        assert(head[0] == k.projection);
        lemma_contains_side(head, queue_proj_seq(q.skip(1)), k.projection);
    } else {
        lemma_queue_proj_covers(q.skip(1), i - 1, k);
        lemma_contains_side(head, queue_proj_seq(q.skip(1)), k.projection);
    }
}

/// Likewise for a plain group list.
pub proof fn lemma_groups_proj_covers(gs: Seq<ArtifactGroup>, i: int, k: ProjectionKey)
    requires
        0 <= i < gs.len(),
        gs[i] == ArtifactGroup::TransitiveSetProjection(k),
    ensures
        groups_proj_seq(gs).contains(k.projection),
    decreases gs.len(),
{
    let head = match gs[0] {
        ArtifactGroup::TransitiveSetProjection(kk) => seq![kk.projection],
        ArtifactGroup::Artifact(_) => Seq::<u64>::empty(),
    };
    if i == 0 {
        assert(head[0] == k.projection);
        lemma_contains_side(head, groups_proj_seq(gs.skip(1)), k.projection);
    } else {
        lemma_groups_proj_covers(gs.skip(1), i - 1, k);
        lemma_contains_side(head, groups_proj_seq(gs.skip(1)), k.projection);
    }
}

/// A projection index mentioned inside a member set's projection values
/// is mentioned by the backend.
pub proof fn lemma_tsets_proj_covers(tsets: Seq<TransitiveSetDef>, d: TransitiveSetDef, proj: u64, p: u64)
    requires
        tsets.contains(d),
        exists|pv: Seq<ArtifactGroup>| find_projection(d.projections@, proj) == Some(pv) && groups_proj_seq(pv).contains(p),
    ensures
        tsets_proj_seq(tsets).contains(p),
    decreases tsets.len(),
{
    let pv = choose|pv: Seq<ArtifactGroup>| find_projection(d.projections@, proj) == Some(pv) && groups_proj_seq(pv).contains(p);
    if tsets[0] == d {
        lemma_pv_proj_covers(d.projections@, proj, pv, p);
        lemma_contains_side(pv_proj_seq(tsets[0].projections@), tsets_proj_seq(tsets.skip(1)), p);
    } else {
        let i = choose|i: int| 0 <= i < tsets.len() && tsets[i] == d;
        assert(tsets.skip(1)[i - 1] == d);
        assert(tsets.skip(1).contains(d));
        lemma_tsets_proj_covers(tsets.skip(1), d, proj, p);
        lemma_contains_side(pv_proj_seq(tsets[0].projections@), tsets_proj_seq(tsets.skip(1)), p);
    }
}

proof fn lemma_pv_proj_covers(pvs: Seq<ProjectionValue>, proj: u64, pv: Seq<ArtifactGroup>, p: u64)
    requires
        find_projection(pvs, proj) == Some(pv),
        groups_proj_seq(pv).contains(p),
    ensures
        pv_proj_seq(pvs).contains(p),
    decreases pvs.len(),
{
    if pvs.len() == 0 {
    } else if pvs[0].projection == proj {
        lemma_contains_side(groups_proj_seq(pvs[0].inputs@), pv_proj_seq(pvs.skip(1)), p);
    } else {
        lemma_pv_proj_covers(pvs.skip(1), proj, pv, p);
        lemma_contains_side(groups_proj_seq(pvs[0].inputs@), pv_proj_seq(pvs.skip(1)), p);
    }
}

/// A found set is a member of the backend's table.
pub proof fn lemma_find_tset_member(tsets: Seq<TransitiveSetDef>, id: u64)
    ensures
        match find_tset(tsets, id) {
            Some(d) => tsets.contains(d),
            None => true,
        },
    decreases tsets.len(),
{
    if tsets.len() > 0 && tsets[0].set_id != id {
        lemma_find_tset_member(tsets.skip(1), id);
        match find_tset(tsets.skip(1), id) {
            Some(d) => {
                let i = choose|i: int| 0 <= i < tsets.skip(1).len() && tsets.skip(1)[i] == d;
                assert(tsets[i + 1] == d);
            },
            None => {},
        }
    }
}

/// The children a walk collects are members of the backend's table.
pub proof fn lemma_collect_children_members(
    tsets: Seq<TransitiveSetDef>,
    proj: u64,
    children: Seq<u64>,
    seen: Set<ProjectionKey>,
)
    ensures
        match collect_children(tsets, proj, children, seen) {
            Ok(r) => forall|i: int| 0 <= i < r.0.len() ==> tsets.contains(#[trigger] r.0[i]),
            Err(_) => true,
        },
    decreases children.len(),
{
    if children.len() == 0 {
    } else {
        let key = ProjectionKey { set_id: children[0], projection: proj };
        if seen.contains(key) {
            lemma_collect_children_members(tsets, proj, children.skip(1), seen);
        } else {
            match find_tset(tsets, children[0]) {
                None => {},
                Some(cdef) => {
                    lemma_find_tset_member(tsets, children[0]);
                    lemma_collect_children_members(tsets, proj, children.skip(1), seen.insert(key));
                },
            }
        }
    }
}

/// Every group a successful expansion accumulates beyond its starting
/// accumulator comes from a member set's projection value, so any
/// projection index it mentions is mentioned by the backend.
pub proof fn lemma_expand_groups(
    tsets: Seq<TransitiveSetDef>,
    proj: u64,
    local: Seq<TransitiveSetDef>,
    seen: Set<ProjectionKey>,
    acc: Seq<ArtifactGroup>,
)
    requires
        forall|i: int| 0 <= i < local.len() ==> tsets.contains(#[trigger] local[i]),
        forall|i: int, k: ProjectionKey|
            0 <= i < acc.len() && acc[i] == ArtifactGroup::TransitiveSetProjection(k)
                ==> tsets_proj_seq(tsets).contains(k.projection),
    ensures
        match expand(tsets, proj, local, seen, acc) {
            Ok(r) => forall|i: int, k: ProjectionKey|
                0 <= i < r.0.len() && r.0[i] == ArtifactGroup::TransitiveSetProjection(k)
                    ==> tsets_proj_seq(tsets).contains(k.projection),
            Err(_) => true,
        },
    decreases unseen_ids(tsets, proj, seen).len(), local.len(),
{
    if local.len() == 0 {
    } else {
        let def = local[0];
        let inputs = match find_projection(def.projections@, proj) {
            Some(s) => s,
            None => Seq::<ArtifactGroup>::empty(),
        };
        lemma_collect_children_seen(tsets, proj, def.children@, seen);
        lemma_collect_children_members(tsets, proj, def.children@, seen);
        match collect_children(tsets, proj, def.children@, seen) {
            Err(_) => {},
            Ok(r) => {
                if r.0.len() == 0 {
                    assert((local.skip(1) + r.0).len() < local.len());
                }
                assert forall|i: int, k: ProjectionKey|
                    0 <= i < (acc + inputs).len()
                        && (acc + inputs)[i] == ArtifactGroup::TransitiveSetProjection(k)
                    implies tsets_proj_seq(tsets).contains(k.projection) by {
                    if i < acc.len() {
                        assert(acc[i] == ArtifactGroup::TransitiveSetProjection(k));
                    } else {
                        assert(inputs[i - acc.len()] == ArtifactGroup::TransitiveSetProjection(k));
                        assert(find_projection(def.projections@, proj) == Some(inputs));
                        lemma_groups_proj_covers(inputs, i - acc.len(), k);
                        lemma_tsets_proj_covers(tsets, def, proj, k.projection);
                    }
                }
                assert(forall|i: int| 0 <= i < (local.skip(1) + r.0).len()
                    ==> tsets.contains(#[trigger] (local.skip(1) + r.0)[i]));
                lemma_expand_groups(tsets, proj, local.skip(1) + r.0, r.1, acc + inputs);
            },
        }
    }
}

/// The running invariant behind the dedup bound: every call already made
/// is marked seen, and no key was ever called twice.
pub open spec fn calls_inv(s: ResolveState) -> bool {
    (forall|i: int| 0 <= i < s.calls.len() ==> s.seen.contains(#[trigger] s.calls[i]))
        && (forall|i: int, j: int| 0 <= i < j < s.calls.len() ==> s.calls[i] != s.calls[j])
}

proof fn lemma_step_preserves_calls_inv(
    tsets: Seq<TransitiveSetDef>,
    template_name: Seq<char>,
    s: ResolveState,
)
    requires
        calls_inv(s),
    ensures
        match step(tsets, template_name, s) {
            ResolveStep::Next(t) => calls_inv(t),
            _ => true,
        },
{
    broadcast use vstd::set::group_set_axioms;

    if s.queue.len() > 0 {
        match s.queue[0].1 {
            ArtifactGroup::Artifact(_) => {},
            ArtifactGroup::TransitiveSetProjection(key) => {
                if !s.seen.contains(key) {
                    match find_tset(tsets, key.set_id) {
                        None => {},
                        Some(def) => {
                            lemma_expand_seen_mono(tsets, key.projection, seq![def], s.seen.insert(key), Seq::empty());
                        },
                    }
                }
            },
        }
    }
}

proof fn lemma_run_calls_inv(
    tsets: Seq<TransitiveSetDef>,
    template_name: Seq<char>,
    s: ResolveState,
    n: nat,
)
    requires
        calls_inv(s),
    ensures
        match run(tsets, template_name, s, n) {
            ResolveStep::Next(t) => calls_inv(t),
            ResolveStep::Done { calls, .. } => forall|i: int, j: int|
                0 <= i < j < calls.len() ==> calls[i] != calls[j],
            ResolveStep::Fail(_) => true,
        },
    decreases n,
{
    if n == 0 {
    } else {
        lemma_step_preserves_calls_inv(tsets, template_name, s);
        match step(tsets, template_name, s) {
            ResolveStep::Next(s2) => lemma_run_calls_inv(tsets, template_name, s2, (n - 1) as nat),
            _ => {},
        }
    }
}

/// Law: the dedup bound. However many artifact-group entries — across
/// targets and across nested sets — reference the same (set, projection)
/// pair, a complete resolution materializes each distinct pair at most
/// once: the recorded call sequence has no repeated key.
pub proof fn lemma_materialization_bounded(
    tsets: Seq<TransitiveSetDef>,
    template_name: Seq<char>,
    queue: Seq<(TargetLabel, ArtifactGroup)>,
    n: nat,
)
    ensures
        match run(tsets, template_name, initial_state(queue), n) {
            ResolveStep::Done { calls, .. } => forall|i: int, j: int|
                0 <= i < j < calls.len() ==> calls[i] != calls[j],
            _ => true,
        },
{
    lemma_run_calls_inv(tsets, template_name, initial_state(queue), n);
}

} // verus!
