//! The two converters between path encodings.
//!
//! Both read a path once, from the first step to the last, and keep a table
//! of the identifiers that have changed their meaning. Neither validates the
//! path: what they return is defined for every path, well formed or not. The
//! converters that validate first are in [`crate::path_check`].

use std::collections::HashMap;
use vstd::prelude::*;
use crate::path_laws::lemma_assign_keeps_first_reference;
use crate::path_model::{
    first_reference, name_before, slot_before, steps_of, to_assign, to_slot_reuse,
    written_before,
};

verus! {

broadcast use vstd::std_specs::hash::group_hash_axioms;

/// Looks `id` up in `table`; an identifier without an entry stands for itself.
fn resolve(table: &HashMap<usize, usize>, id: usize) -> (r: usize)
    ensures
        r == (if table@.contains_key(id) { table@[id] } else { id }),
{
    match table.get(&id) {
        Some(v) => *v,
        None => id,
    }
}

/// Converts an assign-encoded path over `tensor_len` leaves to the slot-reuse
/// encoding: every operand is replaced by the slot in which that node sits.
/// The path has as many steps as before, and the identifier of a leaf is
/// never rewritten.
pub fn ssa_to_replace_path(mut ssa_path: Vec<(usize, usize)>, tensor_len: usize) -> (replace_path:
    Vec<(usize, usize)>)
    ensures
        replace_path.len() == ssa_path.len(),
        steps_of(replace_path@) == to_slot_reuse(steps_of(ssa_path@), tensor_len as int),
        forall|k: int|
            0 <= k < ssa_path.len() ==> {
                &&& ssa_path[k].0 < tensor_len ==> (#[trigger] replace_path[k]).0 == ssa_path[k].0
                &&& ssa_path[k].1 < tensor_len ==> replace_path[k].1 == ssa_path[k].1
            },
{
    let ghost given = steps_of(ssa_path@);
    let ghost n = tensor_len as int;
    let len: usize = ssa_path.len();
    let mut id_update: HashMap<usize, usize> = HashMap::new();
    let mut k: usize = 0;
    while k < len
        invariant
            k <= len,
            n == tensor_len,
            len == ssa_path.len(),
            len == given.len(),
            forall|x: usize| id_update@.contains_key(x) <==> n <= x < n + k,
            forall|x: usize|
                n <= x < n + k ==> #[trigger] id_update@[x] == slot_before(
                    given,
                    n,
                    x - n,
                    given[x - n].0,
                ),
            forall|j: int|
                0 <= j < k ==> #[trigger] steps_of(ssa_path@)[j] == to_slot_reuse(given, n)[j],
            forall|j: int| k <= j < len ==> #[trigger] steps_of(ssa_path@)[j] == given[j],
        decreases len - k,
    {
        let (i, j) = ssa_path[k];
        let left_id = resolve(&id_update, i);
        let right_id = resolve(&id_update, j);
        assert(given[k as int] == (i as int, j as int)) by {
            assert(steps_of(ssa_path@)[k as int] == given[k as int]);
        }
        if k <= usize::MAX - tensor_len {
            id_update.insert(tensor_len + k, left_id);
        }
        let ghost before = ssa_path@;
        ssa_path.set(k, (left_id, right_id));
        proof {
            assert forall|j: int| 0 <= j < k + 1 implies #[trigger] steps_of(ssa_path@)[j]
                == to_slot_reuse(given, n)[j] by {
                if j < k {
                    assert(steps_of(before)[j] == to_slot_reuse(given, n)[j]);
                }
            }
            assert forall|j: int| k + 1 <= j < len implies #[trigger] steps_of(ssa_path@)[j]
                == given[j] by {
                assert(steps_of(before)[j] == given[j]);
            }
        }
        k += 1;
    }
    assert(steps_of(ssa_path@) =~= to_slot_reuse(given, n));
    assert forall|k: int| 0 <= k < len implies {
        &&& given[k].0 < n ==> (#[trigger] ssa_path[k]).0 == given[k].0
        &&& given[k].1 < n ==> ssa_path[k].1 == given[k].1
    } by {
        assert(steps_of(ssa_path@)[k] == to_slot_reuse(given, n)[k]);
    }
    ssa_path
}

/// Converts a slot-reuse path over `tensor_len` leaves to the assign
/// encoding: every operand is replaced by the identifier of the node that
/// sits in that slot. Step `k` is given the identifier `tensor_len + k`, so
/// these identifiers have to fit the machine word. The path has as many steps
/// as before, and an identifier is not rewritten where a step is the first
/// to refer to it.
pub fn replace_to_ssa_path(mut replace_path: Vec<(usize, usize)>, tensor_len: usize) -> (ssa_path:
    Vec<(usize, usize)>)
    requires
        tensor_len + replace_path.len() <= usize::MAX,
    ensures
        ssa_path.len() == replace_path.len(),
        steps_of(ssa_path@) == to_assign(steps_of(replace_path@), tensor_len as int),
        forall|k: int|
            0 <= k < replace_path.len() ==> {
                &&& first_reference(steps_of(replace_path@), k, replace_path[k].0 as int) ==> (
                #[trigger] ssa_path[k]).0 == replace_path[k].0
                &&& first_reference(steps_of(replace_path@), k, replace_path[k].1 as int)
                    ==> ssa_path[k].1 == replace_path[k].1
            },
{
    let ghost given = steps_of(replace_path@);
    let ghost n = tensor_len as int;
    let len: usize = replace_path.len();
    let mut id_update: HashMap<usize, usize> = HashMap::new();
    let mut k: usize = 0;
    while k < len
        invariant
            k <= len,
            n == tensor_len,
            n + len <= usize::MAX,
            len == replace_path.len(),
            len == given.len(),
            forall|x: usize|
                id_update@.contains_key(x) <==> #[trigger] written_before(given, k as int, x as int),
            forall|x: usize|
                !written_before(given, k as int, x as int) ==> #[trigger] name_before(
                    given,
                    n,
                    k as int,
                    x as int,
                ) == x,
            forall|x: usize|
                id_update@.contains_key(x) ==> #[trigger] id_update@[x] == name_before(
                    given,
                    n,
                    k as int,
                    x as int,
                ),
            forall|j: int|
                0 <= j < k ==> #[trigger] steps_of(replace_path@)[j] == to_assign(given, n)[j],
            forall|j: int| k <= j < len ==> #[trigger] steps_of(replace_path@)[j] == given[j],
        decreases len - k,
    {
        let (i, j) = replace_path[k];
        let left_id = resolve(&id_update, i);
        let right_id = resolve(&id_update, j);
        assert(given[k as int] == (i as int, j as int)) by {
            assert(steps_of(replace_path@)[k as int] == given[k as int]);
        }
        let ghost table = id_update@;
        id_update.insert(i, tensor_len + k);
        let ghost before = replace_path@;
        replace_path.set(k, (left_id, right_id));
        proof {
            assert forall|x: usize|
                id_update@.contains_key(x) <==> #[trigger] written_before(
                    given,
                    k + 1,
                    x as int,
                ) by {
                assert(table.contains_key(x) <==> written_before(given, k as int, x as int));
            }
            assert forall|x: usize| !written_before(given, k + 1, x as int) implies #[trigger]
                name_before(given, n, k + 1, x as int) == x by {
                assert(name_before(given, n, k as int, x as int) == x);
            }
            assert forall|x: usize| id_update@.contains_key(x) implies #[trigger] id_update@[x]
                == name_before(given, n, k + 1, x as int) by {
                if x != i {
                    assert(table.contains_key(x));
                    assert(table[x] == name_before(given, n, k as int, x as int));
                }
            }
            assert forall|j: int| 0 <= j < k + 1 implies #[trigger] steps_of(replace_path@)[j]
                == to_assign(given, n)[j] by {
                if j < k {
                    assert(steps_of(before)[j] == to_assign(given, n)[j]);
                }
            }
            assert forall|j: int| k + 1 <= j < len implies #[trigger] steps_of(replace_path@)[j]
                == given[j] by {
                assert(steps_of(before)[j] == given[j]);
            }
        }
        k += 1;
    }
    assert(steps_of(replace_path@) =~= to_assign(given, n));
    assert forall|k: int| 0 <= k < len implies {
        &&& first_reference(given, k, given[k].0) ==> (#[trigger] replace_path[k]).0 == given[k].0
        &&& first_reference(given, k, given[k].1) ==> replace_path[k].1 == given[k].1
    } by {
        lemma_assign_keeps_first_reference(given, n, k);
        assert(steps_of(replace_path@)[k] == to_assign(given, n)[k]);
    }
    replace_path
}

/// The assign-encoded form of a path that is given in the assign encoding
/// where `is_ssa` holds, and in the slot-reuse encoding where it does not.
pub fn as_ssa_path(path: Vec<(usize, usize)>, tensor_len: usize, is_ssa: bool) -> (ssa_path: Vec<
    (usize, usize),
>)
    requires
        !is_ssa ==> tensor_len + path.len() <= usize::MAX,
    ensures
        ssa_path.len() == path.len(),
        is_ssa ==> ssa_path@ == path@,
        !is_ssa ==> steps_of(ssa_path@) == to_assign(steps_of(path@), tensor_len as int),
{
    if !is_ssa {
        replace_to_ssa_path(path, tensor_len)
    } else {
        path
    }
}

} // verus!
