//! The query-function registry: one domain function ("classpath") layered
//! over a caller-assembled table of generic functions, extension entries
//! shadowing generic ones.

use vstd::prelude::*;
use indexmap::IndexMap;
use crate::TargetLabel;
use crate::types::{Artifact, QueryEvalError};
use crate::target_set::{LabelSet, TargetSet};
use crate::delegate::GraphDelegate;

verus! {

/// A binary operator of the query language.
#[derive(Clone, Copy, Debug, PartialEq, Eq, Structural)]
pub enum QueryBinaryOp {
    Union,
    Intersect,
    Except,
}

/// What a registry lookup resolves to: an extension entry or a generic
/// one, by position in its table.
#[derive(Clone, Copy, Debug, PartialEq, Eq, Structural)]
pub enum ResolvedFunction {
    Extension { index: usize },
    Generic { index: usize },
}

/// The first position of a name in a table, if any.
pub open spec fn name_index(table: Seq<String>, name: Seq<char>) -> Option<int>
    decreases table.len(),
{
    if table.len() == 0 {
        None
    } else if table[0]@ == name {
        Some(0int)
    } else {
        match name_index(table.skip(1), name) {
            Some(i) => Some(i + 1),
            None => None,
        }
    }
}

/// The first position of an operator in a table, if any.
pub open spec fn op_index(table: Seq<QueryBinaryOp>, op: QueryBinaryOp) -> Option<int>
    decreases table.len(),
{
    if table.len() == 0 {
        None
    } else if table[0] == op {
        Some(0int)
    } else {
        match op_index(table.skip(1), op) {
            Some(i) => Some(i + 1),
            None => None,
        }
    }
}

/// The assembled function registry: the extension's own function and
/// operator names, then the generic tables the caller supplies. Lookups
/// check the extension first and fall back to the generic tables.
pub struct QueryFunctionsTable {
    pub extra_functions: Vec<String>,
    pub extra_ops: Vec<QueryBinaryOp>,
    pub default_functions: Vec<String>,
    pub default_ops: Vec<QueryBinaryOp>,
}

impl QueryFunctionsTable {
    /// Resolves a function name: the extension shadows the generic table.
    pub fn get(&self, name: &str) -> (r: Option<ResolvedFunction>)
        ensures
            match r {
                Some(ResolvedFunction::Extension { index }) =>
                    name_index(self.extra_functions@, name@) == Some(index as int),
                Some(ResolvedFunction::Generic { index }) =>
                    name_index(self.extra_functions@, name@) is None
                    && name_index(self.default_functions@, name@) == Some(index as int),
                None => name_index(self.extra_functions@, name@) is None
                    && name_index(self.default_functions@, name@) is None,
            },
    {
        match find_name(&self.extra_functions, name) {
            Some(i) => Some(ResolvedFunction::Extension { index: i }),
            None => match find_name(&self.default_functions, name) {
                Some(i) => Some(ResolvedFunction::Generic { index: i }),
                None => None,
            },
        }
    }

    /// Resolves a binary operator, extension first.
    pub fn get_op(&self, op: QueryBinaryOp) -> (r: Option<ResolvedFunction>)
        ensures
            match r {
                Some(ResolvedFunction::Extension { index }) =>
                    op_index(self.extra_ops@, op) == Some(index as int),
                Some(ResolvedFunction::Generic { index }) =>
                    op_index(self.extra_ops@, op) is None
                    && op_index(self.default_ops@, op) == Some(index as int),
                None => op_index(self.extra_ops@, op) is None
                    && op_index(self.default_ops@, op) is None,
            },
    {
        match find_op(&self.extra_ops, op) {
            Some(i) => Some(ResolvedFunction::Extension { index: i }),
            None => match find_op(&self.default_ops, op) {
                Some(i) => Some(ResolvedFunction::Generic { index: i }),
                None => None,
            },
        }
    }
}

fn find_name(table: &Vec<String>, name: &str) -> (r: Option<usize>)
    ensures
        match r {
            Some(i) => name_index(table@, name@) == Some(i as int),
            None => name_index(table@, name@) is None,
        },
{
    let owned: String = name.to_owned();
    let mut i: usize = 0;
    proof {
        assert(table@.skip(0) =~= table@);
    }
    while i < table.len()
        invariant
            i <= table@.len(),
            owned@ == name@,
            match name_index(table@.skip(i as int), name@) {
                Some(k) => name_index(table@, name@) == Some(k + i),
                None => name_index(table@, name@) is None,
            },
        decreases table@.len() - i,
    {
        let ghost pre = table@.skip(i as int);
        assert(pre[0] == table@[i as int]);
        assert(pre.skip(1) =~= table@.skip(i as int + 1));
        if table[i] == owned {
            return Some(i);
        }
        i = i + 1;
    }
    assert(table@.skip(table@.len() as int).len() == 0);
    None
}

fn find_op(table: &Vec<QueryBinaryOp>, op: QueryBinaryOp) -> (r: Option<usize>)
    ensures
        match r {
            Some(i) => op_index(table@, op) == Some(i as int),
            None => op_index(table@, op) is None,
        },
{
    let mut i: usize = 0;
    proof {
        assert(table@.skip(0) =~= table@);
    }
    while i < table.len()
        invariant
            i <= table@.len(),
            match op_index(table@.skip(i as int), op) {
                Some(k) => op_index(table@, op) == Some(k + i),
                None => op_index(table@, op) is None,
            },
        decreases table@.len() - i,
    {
        let ghost pre = table@.skip(i as int);
        assert(pre[0] == table@[i as int]);
        assert(pre.skip(1) =~= table@.skip(i as int + 1));
        if table[i] == op {
            return Some(i);
        }
        i = i + 1;
    }
    assert(table@.skip(table@.len() as int).len() == 0);
    None
}

impl<'a> crate::environment::ConfiguredGraphQueryEnvironment<'a> {
    /// Builds the registry for this environment: the "classpath"
    /// extension in front of the generic tables the caller assembled.
    pub fn functions(default_functions: Vec<String>, default_ops: Vec<QueryBinaryOp>) -> (r: QueryFunctionsTable)
        ensures
            r.extra_functions@.len() == 1 && r.extra_functions@[0]@ == "classpath"@,
            r.extra_ops@.len() == 0,
            r.default_functions == default_functions,
            r.default_ops == default_ops,
    {
        let mut extra_functions: Vec<String> = Vec::new();
        extra_functions.push("classpath".to_owned());
        QueryFunctionsTable {
            extra_functions,
            extra_ops: Vec::new(),
            default_functions,
            default_ops,
        }
    }
}

/// The extension's own query functions.
pub struct ConfiguredGraphFunctions;

impl ConfiguredGraphFunctions {
    /// The `classpath` query function. An absent depth selects the
    /// template key "classpath_including_targets_with_no_output"; a depth
    /// of exactly one selects "first_order_classpath"; any other depth is
    /// rejected as invalid. The selected key's placeholder resolution
    /// yields the resulting target-label set.
    pub fn classpath(delegate: &GraphDelegate, targets: &TargetSet, depth: Option<u64>)
        -> (r: Result<LabelSet, QueryEvalError>)
        ensures
            (match depth {
                Some(d) => d != 1 ==> (r matches Err(QueryEvalError::InvalidDepth { depth: bad }) && bad == d),
                None => true,
            }),
            depth == Some(1u64) ==> resolves_classpath(delegate, targets, "first_order_classpath"@, r),
            depth is None ==> resolves_classpath(delegate, targets, "classpath_including_targets_with_no_output"@, r),
    {
        let run_first_order_classpath = match depth {
            Some(d) => {
                if d != 1 {
                    return Err(QueryEvalError::InvalidDepth { depth: d });
                }
                true
            },
            None => false,
        };
        if run_first_order_classpath {
            delegate.get_targets_from_template_placeholder_info("first_order_classpath", targets)
        } else {
            delegate.get_targets_from_template_placeholder_info("classpath_including_targets_with_no_output", targets)
        }
    }
}

/// What a classpath lookup through a given template key returns: exactly
/// what the target-set variant of the placeholder resolution returns for
/// that key.
pub open spec fn resolves_classpath(
    delegate: &GraphDelegate,
    targets: &TargetSet,
    key: Seq<char>,
    r: Result<LabelSet, QueryEvalError>,
) -> bool {
    match r {
        Ok(ls) => ls.wf() && exists|n: nat|
            (#[trigger] crate::resolve_spec::run(delegate.tsets@, key,
                crate::resolve_spec::initial_state(crate::delegate::initial_queue(
                    delegate.placeholders@, targets.labels(), key)), n))
            matches crate::resolve_spec::ResolveStep::Done { out, calls }
            && ls.labels@ == crate::delegate::distinct_labels(Seq::empty(), out),
        Err(e) => (exists|n: nat|
            (#[trigger] crate::resolve_spec::run(delegate.tsets@, key,
                crate::resolve_spec::initial_state(crate::delegate::initial_queue(
                    delegate.placeholders@, targets.labels(), key)), n))
            == crate::resolve_spec::ResolveStep::Fail(crate::delegate::fail_view(e)))
            && (e is NonTargetBoundArtifact || e is UnknownTransitiveSet || e is InvalidSetStructure),
    }
}

/// The entry point behind an "audit classpath"-style caller: the ordered
/// owning-label-to-artifact map for the "classpath" template key.
pub fn classpath(delegate: &GraphDelegate, targets: &TargetSet)
    -> (r: Result<IndexMap<u64, Artifact>, QueryEvalError>)
    ensures
        match r {
            Ok(m) => exists|n: nat|
                (#[trigger] crate::resolve_spec::run(delegate.tsets@, "classpath"@,
                    crate::resolve_spec::initial_state(crate::delegate::initial_queue(
                        delegate.placeholders@, targets.labels(), "classpath"@)), n))
                matches crate::resolve_spec::ResolveStep::Done { out, calls }
                && out == crate::label_map::label_map_entries(m),
            Err(e) => (exists|n: nat|
                (#[trigger] crate::resolve_spec::run(delegate.tsets@, "classpath"@,
                    crate::resolve_spec::initial_state(crate::delegate::initial_queue(
                        delegate.placeholders@, targets.labels(), "classpath"@)), n))
                == crate::resolve_spec::ResolveStep::Fail(crate::delegate::fail_view(e)))
                && (e is NonTargetBoundArtifact || e is UnknownTransitiveSet || e is InvalidSetStructure),
        },
{
    delegate.get_from_template_placeholder_info("classpath", targets)
}

} // verus!
