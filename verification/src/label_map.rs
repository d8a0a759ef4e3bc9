//! The ordered label-to-artifact output map, backed by an insertion-order
//! preserving map from an outside crate. The map's contents are named by
//! an uninterpreted sequence of entries; each operation the resolver uses
//! is a trusted wrapper whose contract states, over that sequence, what
//! the crate documents.

use vstd::prelude::*;
use indexmap::IndexMap;
use crate::types::Artifact;
use crate::resolve_spec::upsert;

verus! {

#[verifier::external_type_specification]
#[verifier::external_body]
#[verifier::reject_recursive_types(K)]
#[verifier::reject_recursive_types(V)]
#[verifier::reject_recursive_types(S)]
pub struct ExIndexMap<K, V, S>(IndexMap<K, V, S>);

/// The entries an ordered map holds, in iteration order.
pub uninterp spec fn label_map_entries(m: IndexMap<u64, Artifact>) -> Seq<(u64, Artifact)>;

/// Relies on indexmap::IndexMap::new: an empty map.
#[verifier::external_body]
pub fn label_map_new() -> (r: IndexMap<u64, Artifact>)
    ensures
        label_map_entries(r) == Seq::<(u64, Artifact)>::empty(),
{
    IndexMap::new()
}

/// Relies on indexmap::IndexMap::insert: if an equivalent key already
/// exists, the key keeps its place in the order and its value is
/// updated; otherwise the pair is inserted last in order.
#[verifier::external_body]
pub fn label_map_insert(m: &mut IndexMap<u64, Artifact>, k: u64, v: Artifact)
    ensures
        label_map_entries(*final(m)) == upsert(label_map_entries(*old(m)), k, v),
{
    m.insert(k, v);
}

/// Relies on indexmap::IndexMap::len: the number of entries.
#[verifier::external_body]
pub fn label_map_len(m: &IndexMap<u64, Artifact>) -> (r: usize)
    ensures
        r == label_map_entries(*m).len(),
{
    m.len()
}

/// Relies on indexmap::IndexMap::iter: yields the entries in their
/// order, which is insertion order.
#[verifier::external_body]
pub fn label_map_entries_vec(m: &IndexMap<u64, Artifact>) -> (r: Vec<(u64, Artifact)>)
    ensures
        r@ == label_map_entries(*m),
{
    m.iter().map(|(k, v)| (*k, *v)).collect()
}

} // verus!
