//! The hash tables of `rustc_hash` that hold the sizes of legs.
//!
//! `rustc_hash::FxHashMap<K, V>` is the standard `HashMap` with the hasher
//! builder `rustc_hash::FxBuildHasher`. That builder has no state and starts
//! every hasher from the same value, so equal keys hash alike and such a map
//! behaves as a finite map from keys to values. The contracts in this file
//! rest on that. They are stated of the calls into the two crates and are
//! not proved.

use rustc_hash::{FxBuildHasher, FxHashMap};
use vstd::prelude::*;

verus! {

/// `rustc_hash::FxBuildHasher`, carried as an opaque type.
#[verifier::external_type_specification]
#[verifier::external_body]
pub struct ExFxBuildHasher(FxBuildHasher);

/// A table of sizes by label.
pub type LabelSizes = FxHashMap<String, u64>;

/// What a table of sizes by label holds: the size under the text of each
/// label. Two `String` keys are the same key exactly where their texts are
/// equal.
pub uninterp spec fn label_sizes(table: LabelSizes) -> Map<Seq<char>, u64>;

/// Calls `HashMap::get` on a table of sizes by leg, which is an
/// `FxHashMap`. The contract claims that the call gives the size stored
/// under `leg`, and `None` where the table has no such key.
#[verifier::external_body]
pub(crate) fn size_of_leg(size_dict: &FxHashMap<usize, u64>, leg: usize) -> (size: Option<u64>)
    ensures
        size == (if size_dict@.contains_key(leg) {
            Some(size_dict@[leg])
        } else {
            None
        }),
{
    size_dict.get(&leg).copied()
}

/// Calls `FxHashMap::default`, the `Default` of the standard `HashMap` with
/// the hasher builder of `rustc_hash`. The contract claims that the new
/// table holds nothing.
#[verifier::external_body]
pub(crate) fn empty_label_sizes() -> (table: LabelSizes)
    ensures
        forall|label: Seq<char>| !label_sizes(table).contains_key(label),
{
    FxHashMap::default()
}

/// Calls `HashMap::insert` on a table of sizes by label, which is an
/// `FxHashMap`. The contract claims that afterwards `label` has `size`, in
/// place of a size that it had before, and that every other label has what
/// it had.
#[verifier::external_body]
pub(crate) fn set_label_size(table: &mut LabelSizes, label: String, size: u64)
    ensures
        label_sizes(*final(table)) == label_sizes(*old(table)).insert(label@, size),
{
    table.insert(label, size);
}

} // verus!
