//! Mathematical model of merge paths and of their two encodings.
//!
//! A path over `n` leaves is a sequence of steps `(left, right)`; each step
//! merges two nodes into a new one. The leaves are the nodes `0 .. n`.
//!
//! In the assign encoding (an SSA path) step `k` gives its result the fresh
//! identifier `n + k`. In the slot-reuse encoding (a replace path) the result
//! of a step takes over the identifier of its left operand, and the
//! identifier of its right operand is retired.

use vstd::prelude::*;

verus! {

/// The steps of a path as pairs of mathematical integers.
pub open spec fn steps_of(path: Seq<(usize, usize)>) -> Seq<(int, int)> {
    Seq::new(path.len(), |k: int| (path[k].0 as int, path[k].1 as int))
}

/// The slot that holds node `x` just before step `k` of the assign-encoded
/// `path`: a leaf sits in its own slot, and the result of step `j` sits in
/// the slot of that step's left operand.
pub open spec fn slot_before(path: Seq<(int, int)>, n: int, k: int, x: int) -> int
    decreases k,
{
    if n <= x < n + k {
        slot_before(path, n, x - n, path[x - n].0)
    } else {
        x
    }
}

/// The slot-reuse encoding of the assign-encoded `path` over `n` leaves.
pub open spec fn to_slot_reuse(path: Seq<(int, int)>, n: int) -> Seq<(int, int)> {
    Seq::new(
        path.len(),
        |k: int| (slot_before(path, n, k, path[k].0), slot_before(path, n, k, path[k].1)),
    )
}

/// Whether one of the first `k` steps of `path` has `x` as its left operand.
pub open spec fn written_before(path: Seq<(int, int)>, k: int, x: int) -> bool
    decreases k,
{
    k > 0 && (path[k - 1].0 == x || written_before(path, k - 1, x))
}

/// The assign identifier of the node that occupies slot `x` just before step
/// `k` of the slot-reuse `path`: the result of the latest earlier step whose
/// left operand was written as `x`, or `x` itself where there is none.
pub open spec fn name_before(path: Seq<(int, int)>, n: int, k: int, x: int) -> int
    decreases k,
{
    if k <= 0 {
        x
    } else if path[k - 1].0 == x {
        n + k - 1
    } else {
        name_before(path, n, k - 1, x)
    }
}

/// The assign encoding of the slot-reuse `path` over `n` leaves.
pub open spec fn to_assign(path: Seq<(int, int)>, n: int) -> Seq<(int, int)> {
    Seq::new(
        path.len(),
        |k: int| (name_before(path, n, k, path[k].0), name_before(path, n, k, path[k].1)),
    )
}

/// Every operand of step `k` is a node that exists before that step: a
/// leaf, or the result of an earlier step.
pub open spec fn refers_back(path: Seq<(int, int)>, n: int) -> bool {
    forall|k: int|
        0 <= k < path.len() ==> 0 <= (#[trigger] path[k]).0 < n + k && 0 <= path[k].1 < n + k
}

/// No node is an operand twice, neither within a step nor in two steps.
pub open spec fn consumes_once(path: Seq<(int, int)>) -> bool {
    &&& forall|k: int| 0 <= k < path.len() ==> (#[trigger] path[k]).0 != path[k].1
    &&& forall|j: int, k: int|
        0 <= j < k < path.len() ==> {
            &&& (#[trigger] path[j]).0 != (#[trigger] path[k]).0
            &&& path[j].0 != path[k].1
            &&& path[j].1 != path[k].0
            &&& path[j].1 != path[k].1
        }
}

/// A well-formed assign-encoded path over `n` leaves: `n - 1` steps, each
/// on two nodes that exist before it, and no node used twice. The `2n - 2`
/// operands are then the nodes `0 .. 2n - 2`, each once; the result of the
/// last step is left over.
pub open spec fn well_formed_assign(path: Seq<(int, int)>, n: int) -> bool {
    &&& path.len() == n - 1
    &&& refers_back(path, n)
    &&& consumes_once(path)
}

/// Every operand is the identifier of a leaf.
pub open spec fn within_leaves(path: Seq<(int, int)>, n: int) -> bool {
    forall|k: int|
        0 <= k < path.len() ==> 0 <= (#[trigger] path[k]).0 < n && 0 <= path[k].1 < n
}

/// Whether one of the first `k` steps of `path` has `x` as its right operand.
pub open spec fn retired_before(path: Seq<(int, int)>, k: int, x: int) -> bool {
    exists|j: int| 0 <= j < k && (#[trigger] path[j]).1 == x
}

/// The two operands of a step differ, and the right operand of a step is
/// never an operand of a later step.
pub open spec fn retires_right(path: Seq<(int, int)>) -> bool {
    &&& forall|k: int| 0 <= k < path.len() ==> (#[trigger] path[k]).0 != path[k].1
    &&& forall|j: int, k: int|
        0 <= j < k < path.len() ==> {
            &&& (#[trigger] path[j]).1 != (#[trigger] path[k]).0
            &&& path[j].1 != path[k].1
        }
}

/// A well-formed slot-reuse path over `n` leaves: `n - 1` steps, each on
/// two different slots that are still in use.
pub open spec fn well_formed_slot_reuse(path: Seq<(int, int)>, n: int) -> bool {
    &&& path.len() == n - 1
    &&& within_leaves(path, n)
    &&& retires_right(path)
}

/// Step `k` is the first step of `path` that has `x` as an operand, if it
/// has: no earlier step refers to `x`.
pub open spec fn first_reference(path: Seq<(int, int)>, k: int, x: int) -> bool {
    forall|j: int| 0 <= j < k ==> (#[trigger] path[j]).0 != x && path[j].1 != x
}

} // verus!
