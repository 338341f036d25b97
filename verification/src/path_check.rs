//! Validation of paths, and converters that validate before they convert.

use std::collections::HashSet;
use vstd::prelude::*;
use crate::path_codec::{replace_to_ssa_path, ssa_to_replace_path};
use crate::path_model::{
    first_reference, retired_before, steps_of, to_assign, to_slot_reuse, well_formed_assign,
    well_formed_slot_reuse,
};

verus! {

broadcast use vstd::std_specs::hash::group_hash_axioms;

/// Why a path was not converted.
#[derive(Clone, Copy, Debug, PartialEq, Eq)]
pub enum PathError {
    /// The path is not well formed in the encoding it was given in.
    Malformed,
    /// The identifiers of the steps do not fit the machine word.
    IdentifierOverflow,
}

/// Whether `x < n + k`, computed without the sum.
fn exists_before(x: usize, n: usize, k: usize) -> (b: bool)
    ensures
        b == (x < n + k),
{
    x < n || x - n < k
}

/// Whether `path` is a well-formed assign-encoded path over `tensor_len`
/// leaves.
pub fn is_well_formed_ssa_path(path: &[(usize, usize)], tensor_len: usize) -> (ok: bool)
    ensures
        ok == well_formed_assign(steps_of(path@), tensor_len as int),
{
    let ghost steps = steps_of(path@);
    let ghost n = tensor_len as int;
    let len: usize = path.len();
    if tensor_len == 0 || len != tensor_len - 1 {
        return false;
    }
    let mut used: HashSet<usize> = HashSet::new();
    let mut k: usize = 0;
    while k < len
        invariant
            k <= len,
            n == tensor_len,
            len == path.len(),
            len == n - 1,
            steps == steps_of(path@),
            forall|x: usize| used@.contains(x) <==> !first_reference(steps, k as int, x as int),
            forall|j: int|
                0 <= j < k ==> {
                    &&& 0 <= (#[trigger] steps[j]).0 < n + j
                    &&& 0 <= steps[j].1 < n + j
                    &&& steps[j].0 != steps[j].1
                    &&& first_reference(steps, j, steps[j].0)
                    &&& first_reference(steps, j, steps[j].1)
                },
        decreases len - k,
    {
        let (l, r) = path[k];
        assert(steps[k as int] == (l as int, r as int));
        if !exists_before(l, tensor_len, k) || !exists_before(r, tensor_len, k) || l == r {
            return false;
        }
        let ghost seen = used@;
        let l_is_new = used.insert(l);
        let r_is_new = used.insert(r);
        if !l_is_new || !r_is_new {
            proof {
                let x = if !l_is_new { l } else { r };
                assert(seen.contains(x));
                let j = choose|j: int| 0 <= j < k && ((#[trigger] steps[j]).0 == x || steps[j].1 == x);
                assert(steps[j].0 == steps[k as int].0 || steps[j].0 == steps[k as int].1
                    || steps[j].1 == steps[k as int].0 || steps[j].1 == steps[k as int].1);
            }
            return false;
        }
        proof {
            assert forall|x: usize| used@.contains(x) <==> !first_reference(
                steps,
                k + 1,
                x as int,
            ) by {
                if seen.contains(x) {
                    let j = choose|j: int|
                        0 <= j < k && ((#[trigger] steps[j]).0 == x || steps[j].1 == x);
                    assert(steps[j].0 == x || steps[j].1 == x);
                } else if x == l || x == r {
                    assert(steps[k as int].0 == x || steps[k as int].1 == x);
                } else {
                    assert(first_reference(steps, k as int, x as int));
                }
            }
        }
        k += 1;
    }
    proof {
        assert forall|i: int, j: int| 0 <= i < j < steps.len() implies {
            &&& (#[trigger] steps[i]).0 != (#[trigger] steps[j]).0
            &&& steps[i].0 != steps[j].1
            &&& steps[i].1 != steps[j].0
            &&& steps[i].1 != steps[j].1
        } by {
            assert(first_reference(steps, j, steps[j].0));
            assert(first_reference(steps, j, steps[j].1));
        }
    }
    true
}

/// Whether `path` is a well-formed slot-reuse path over `tensor_len` leaves.
pub fn is_well_formed_replace_path(path: &[(usize, usize)], tensor_len: usize) -> (ok: bool)
    ensures
        ok == well_formed_slot_reuse(steps_of(path@), tensor_len as int),
{
    let ghost steps = steps_of(path@);
    let ghost n = tensor_len as int;
    let len: usize = path.len();
    if tensor_len == 0 || len != tensor_len - 1 {
        return false;
    }
    let mut retired: HashSet<usize> = HashSet::new();
    let mut k: usize = 0;
    while k < len
        invariant
            k <= len,
            n == tensor_len,
            len == path.len(),
            len == n - 1,
            steps == steps_of(path@),
            forall|x: usize| retired@.contains(x) <==> retired_before(steps, k as int, x as int),
            forall|j: int|
                0 <= j < k ==> {
                    &&& 0 <= (#[trigger] steps[j]).0 < n
                    &&& 0 <= steps[j].1 < n
                    &&& steps[j].0 != steps[j].1
                    &&& !retired_before(steps, j, steps[j].0)
                    &&& !retired_before(steps, j, steps[j].1)
                },
        decreases len - k,
    {
        let (l, r) = path[k];
        assert(steps[k as int] == (l as int, r as int));
        if l >= tensor_len || r >= tensor_len || l == r {
            return false;
        }
        if retired.contains(&l) || retired.contains(&r) {
            proof {
                let x = if retired@.contains(l) { l } else { r };
                let j = choose|j: int| 0 <= j < k && (#[trigger] steps[j]).1 == x;
                assert(steps[j].1 == steps[k as int].0 || steps[j].1 == steps[k as int].1);
            }
            return false;
        }
        let ghost gone = retired@;
        retired.insert(r);
        proof {
            assert forall|x: usize| retired@.contains(x) <==> retired_before(
                steps,
                k + 1,
                x as int,
            ) by {
                if gone.contains(x) {
                    let j = choose|j: int| 0 <= j < k && (#[trigger] steps[j]).1 == x;
                    assert(steps[j].1 == x);
                } else if x == r {
                    assert(steps[k as int].1 == x);
                } else {
                    assert(!retired_before(steps, k as int, x as int));
                }
            }
        }
        k += 1;
    }
    proof {
        assert forall|i: int, j: int| 0 <= i < j < steps.len() implies {
            &&& (#[trigger] steps[i]).1 != (#[trigger] steps[j]).0
            &&& steps[i].1 != steps[j].1
        } by {
            assert(!retired_before(steps, j, steps[j].0));
            assert(!retired_before(steps, j, steps[j].1));
        }
    }
    true
}

/// Converts an assign-encoded path to the slot-reuse encoding, or refuses it
/// where it is not well formed.
pub fn checked_ssa_to_replace_path(ssa_path: Vec<(usize, usize)>, tensor_len: usize) -> (r: Result<
    Vec<(usize, usize)>,
    PathError,
>)
    ensures
        r is Ok <==> well_formed_assign(steps_of(ssa_path@), tensor_len as int),
        r matches Ok(replace_path) ==> {
            &&& replace_path.len() == ssa_path.len()
            &&& steps_of(replace_path@) == to_slot_reuse(steps_of(ssa_path@), tensor_len as int)
        },
        r matches Err(e) ==> e == PathError::Malformed,
{
    if !is_well_formed_ssa_path(ssa_path.as_slice(), tensor_len) {
        return Err(PathError::Malformed);
    }
    Ok(ssa_to_replace_path(ssa_path, tensor_len))
}

/// Converts a slot-reuse path to the assign encoding. Refuses a path whose
/// step identifiers would not fit the machine word, and one that is not well
/// formed.
pub fn checked_replace_to_ssa_path(replace_path: Vec<(usize, usize)>, tensor_len: usize) -> (r:
    Result<Vec<(usize, usize)>, PathError>)
    ensures
        r is Ok <==> {
            &&& tensor_len + replace_path.len() <= usize::MAX
            &&& well_formed_slot_reuse(steps_of(replace_path@), tensor_len as int)
        },
        r matches Ok(ssa_path) ==> {
            &&& ssa_path.len() == replace_path.len()
            &&& steps_of(ssa_path@) == to_assign(steps_of(replace_path@), tensor_len as int)
        },
        r matches Err(e) ==> match e {
            PathError::IdentifierOverflow => tensor_len + replace_path.len() > usize::MAX,
            PathError::Malformed => {
                &&& tensor_len + replace_path.len() <= usize::MAX
                &&& !well_formed_slot_reuse(steps_of(replace_path@), tensor_len as int)
            },
        },
{
    if replace_path.len() > usize::MAX - tensor_len {
        return Err(PathError::IdentifierOverflow);
    }
    if !is_well_formed_replace_path(replace_path.as_slice(), tensor_len) {
        return Err(PathError::Malformed);
    }
    Ok(replace_to_ssa_path(replace_path, tensor_len))
}

} // verus!
