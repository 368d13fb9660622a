//! The lookup table from a flow's identifier to the place of its state.
use hashbrown::HashMap;
use vstd::prelude::*;

verus! {

/// A hashbrown map from flow identifier to position, opaque to the proofs.
#[verifier::external_body]
pub struct FlowIndex {
    table: HashMap<u32, usize>,
}

/// The entries that an index holds: each key with the value last inserted for it.
pub uninterp spec fn entries_of(index: FlowIndex) -> Map<u32, usize>;

/// `HashMap::new` makes a map without entries.
#[verifier::external_body]
pub(crate) fn index_new() -> (index: FlowIndex)
    ensures
        entries_of(index) =~= Map::empty(),
{
    FlowIndex { table: HashMap::new() }
}

/// `HashMap::get` returns the value stored for `key`, and `None` when the map
/// has no entry for it.
#[verifier::external_body]
pub(crate) fn index_get(index: &FlowIndex, key: u32) -> (found: Option<usize>)
    ensures
        found == (if entries_of(*index).contains_key(key) {
            Some(entries_of(*index)[key])
        } else {
            None
        }),
{
    index.table.get(&key).copied()
}

/// `HashMap::insert` stores `value` for `key`, replacing what was stored for
/// that key before, and leaves every other entry as it was.
#[verifier::external_body]
pub(crate) fn index_insert(index: &mut FlowIndex, key: u32, value: usize)
    ensures
        entries_of(*final(index)) == entries_of(*old(index)).insert(key, value),
{
    index.table.insert(key, value);
}

} // verus!
