//! What holds of the two encodings: each converter undoes the other on
//! well-formed paths, well-formed paths convert to well-formed paths, and a
//! leaf keeps its identifier where it is referred to for the first time.

use vstd::prelude::*;
use vstd::set_lib::{lemma_int_range, lemma_len_subset, lemma_subset_equality, set_int_range};
use crate::path_model::{
    consumes_once, first_reference, name_before, refers_back, retires_right, slot_before,
    steps_of, to_assign, to_slot_reuse, well_formed_assign, well_formed_slot_reuse,
    within_leaves, written_before,
};

verus! {

/// A node that is the left operand of one of the first `k` steps is the left
/// operand of some step `j < k`.
proof fn lemma_written_step(path: Seq<(int, int)>, k: int, x: int) -> (j: int)
    requires
        written_before(path, k, x),
    ensures
        0 <= j < k,
        path[j].0 == x,
    decreases k,
{
    if path[k - 1].0 == x {
        k - 1
    } else {
        lemma_written_step(path, k - 1, x)
    }
}

/// The slot of a node is the identifier of a leaf.
proof fn lemma_slot_is_leaf(path: Seq<(int, int)>, n: int, k: int, x: int)
    requires
        refers_back(path, n),
        0 <= k <= path.len(),
        0 <= x < n + k,
    ensures
        0 <= slot_before(path, n, k, x) < n,
    decreases k,
{
    if n <= x {
        lemma_slot_is_leaf(path, n, x - n, path[x - n].0);
    }
}

/// Of two nodes in the same slot, the older one has been merged, as a left
/// operand, into a node of that slot.
proof fn lemma_slot_chain(path: Seq<(int, int)>, n: int, k: int, x: int, y: int)
    requires
        refers_back(path, n),
        consumes_once(path),
        0 <= k <= path.len(),
        x < y < n + k,
        slot_before(path, n, k, x) == slot_before(path, n, k, y),
    ensures
        written_before(path, k, x),
    decreases k,
{
    if k > 0 {
        if y < n + k - 1 {
            lemma_slot_chain(path, n, k - 1, x, y);
        } else {
            let a = path[k - 1].0;
            if x != a {
                if x < a {
                    lemma_slot_chain(path, n, k - 1, x, a);
                } else {
                    lemma_slot_chain(path, n, k - 1, a, x);
                    let j = lemma_written_step(path, k - 1, a);
                    assert(path[j].0 != path[k - 1].0);
                }
            }
        }
    }
}

/// A node that no step before `k` has as an operand is the newest node of
/// its slot before step `k`.
proof fn lemma_unused_is_newest(path: Seq<(int, int)>, n: int, k: int, x: int, y: int)
    requires
        refers_back(path, n),
        consumes_once(path),
        0 <= k <= path.len(),
        first_reference(path, k, x),
        x < y < n + k,
    ensures
        slot_before(path, n, k, x) != slot_before(path, n, k, y),
{
    if slot_before(path, n, k, x) == slot_before(path, n, k, y) {
        lemma_slot_chain(path, n, k, x, y);
        let j = lemma_written_step(path, k, x);
        assert(path[j].0 != x);
    }
}

/// In the slot-reuse form of `path`, the name of the slot of `x` before step
/// `k` is `x`, where `x` is the newest node of its slot.
proof fn lemma_name_of_slot(path: Seq<(int, int)>, n: int, k: int, x: int)
    requires
        0 <= k <= path.len(),
        x < n + k,
        forall|y: int|
            x < y < n + k ==> slot_before(path, n, k, x) != #[trigger] slot_before(path, n, k, y),
    ensures
        name_before(to_slot_reuse(path, n), n, k, slot_before(path, n, k, x)) == x,
    decreases k,
{
    if k > 0 {
        let y = n + k - 1;
        assert(to_slot_reuse(path, n)[k - 1].0 == slot_before(path, n, k, y));
        if x < y {
            assert(slot_before(path, n, k, x) != slot_before(path, n, k, y));
            assert forall|z: int| x < z < n + (k - 1) implies slot_before(path, n, k - 1, x)
                != #[trigger] slot_before(path, n, k - 1, z) by {
                assert(slot_before(path, n, k, x) != slot_before(path, n, k, z));
            }
            lemma_name_of_slot(path, n, k - 1, x);
        }
    }
}

/// Converting a well-formed assign-encoded path to the slot-reuse encoding
/// and back gives the path again.
pub proof fn lemma_assign_round_trip(path: Seq<(int, int)>, n: int)
    requires
        well_formed_assign(path, n),
    ensures
        to_assign(to_slot_reuse(path, n), n) == path,
{
    let there = to_slot_reuse(path, n);
    let back = to_assign(there, n);
    assert forall|k: int| 0 <= k < path.len() implies back[k] == path[k] by {
        let l = path[k].0;
        let r = path[k].1;
        assert(first_reference(path, k, l) && first_reference(path, k, r)) by {
            assert forall|j: int| 0 <= j < k implies (#[trigger] path[j]).0 != l && path[j].1 != l
                && path[j].0 != r && path[j].1 != r by {
                assert(path[j].0 != path[k].0);
            }
        }
        assert forall|y: int| l < y < n + k implies slot_before(path, n, k, l)
            != #[trigger] slot_before(path, n, k, y) by {
            lemma_unused_is_newest(path, n, k, l, y);
        }
        assert forall|y: int| r < y < n + k implies slot_before(path, n, k, r)
            != #[trigger] slot_before(path, n, k, y) by {
            lemma_unused_is_newest(path, n, k, r, y);
        }
        lemma_name_of_slot(path, n, k, l);
        lemma_name_of_slot(path, n, k, r);
    }
    assert(back =~= path);
}

/// The name of a slot before step `k` is the slot itself, where no earlier
/// step has written it, and else the identifier of an earlier step that has.
proof fn lemma_name_range(path: Seq<(int, int)>, n: int, k: int, x: int)
    requires
        0 <= k,
    ensures
        !written_before(path, k, x) ==> name_before(path, n, k, x) == x,
        written_before(path, k, x) ==> n <= name_before(path, n, k, x) < n + k && path[name_before(
            path,
            n,
            k,
            x,
        ) - n].0 == x,
    decreases k,
{
    if k > 0 && path[k - 1].0 != x {
        lemma_name_range(path, n, k - 1, x);
    }
}

/// In the assign form of a slot-reuse `path`, the node that is named for
/// slot `x` before step `k` sits in slot `x`.
proof fn lemma_slot_of_name(path: Seq<(int, int)>, n: int, k: int, x: int)
    requires
        within_leaves(path, n),
        0 <= k <= path.len(),
        x < n,
    ensures
        slot_before(to_assign(path, n), n, k, name_before(path, n, k, x)) == x,
    decreases k,
{
    if k > 0 {
        let named = to_assign(path, n);
        lemma_slot_of_name(path, n, k - 1, x);
        if path[k - 1].0 == x {
            assert(named[k - 1].0 == name_before(path, n, k - 1, x));
        } else {
            lemma_name_range(path, n, k - 1, x);
        }
    }
}

/// Converting a well-formed slot-reuse path to the assign encoding and back
/// gives the path again.
pub proof fn lemma_slot_reuse_round_trip(path: Seq<(int, int)>, n: int)
    requires
        well_formed_slot_reuse(path, n),
    ensures
        to_slot_reuse(to_assign(path, n), n) == path,
{
    let there = to_assign(path, n);
    let back = to_slot_reuse(there, n);
    assert forall|k: int| 0 <= k < path.len() implies back[k] == path[k] by {
        lemma_slot_of_name(path, n, k, path[k].0);
        lemma_slot_of_name(path, n, k, path[k].1);
    }
    assert(back =~= path);
}

/// Paths with the same steps are the same path.
pub proof fn lemma_steps_determine_path(first: Seq<(usize, usize)>, second: Seq<(usize, usize)>)
    requires
        steps_of(first) == steps_of(second),
    ensures
        first == second,
{
    assert(first.len() == steps_of(first).len());
    assert(second.len() == steps_of(second).len());
    assert forall|k: int| 0 <= k < first.len() implies first[k] == second[k] by {
        assert(steps_of(first)[k] == steps_of(second)[k]);
    }
    assert(first =~= second);
}

/// What [`replace_to_ssa_path`](crate::path_codec::replace_to_ssa_path) makes
/// of what [`ssa_to_replace_path`](crate::path_codec::ssa_to_replace_path)
/// has made of a well-formed assign-encoded path is that path.
pub proof fn lemma_ssa_path_round_trip(
    ssa_path: Seq<(usize, usize)>,
    replace_path: Seq<(usize, usize)>,
    back: Seq<(usize, usize)>,
    tensor_len: usize,
)
    requires
        well_formed_assign(steps_of(ssa_path), tensor_len as int),
        steps_of(replace_path) == to_slot_reuse(steps_of(ssa_path), tensor_len as int),
        steps_of(back) == to_assign(steps_of(replace_path), tensor_len as int),
    ensures
        back == ssa_path,
{
    lemma_assign_round_trip(steps_of(ssa_path), tensor_len as int);
    lemma_steps_determine_path(back, ssa_path);
}

/// What [`ssa_to_replace_path`](crate::path_codec::ssa_to_replace_path) makes
/// of what [`replace_to_ssa_path`](crate::path_codec::replace_to_ssa_path)
/// has made of a well-formed slot-reuse path is that path.
pub proof fn lemma_replace_path_round_trip(
    replace_path: Seq<(usize, usize)>,
    ssa_path: Seq<(usize, usize)>,
    back: Seq<(usize, usize)>,
    tensor_len: usize,
)
    requires
        well_formed_slot_reuse(steps_of(replace_path), tensor_len as int),
        steps_of(ssa_path) == to_assign(steps_of(replace_path), tensor_len as int),
        steps_of(back) == to_slot_reuse(steps_of(ssa_path), tensor_len as int),
    ensures
        back == replace_path,
{
    lemma_slot_reuse_round_trip(steps_of(replace_path), tensor_len as int);
    lemma_steps_determine_path(back, replace_path);
}

/// The slot of a node does not depend on the step from which it is seen.
proof fn lemma_slot_stable(path: Seq<(int, int)>, n: int, j: int, k: int, x: int)
    requires
        x < n + j,
        x < n + k,
    ensures
        slot_before(path, n, j, x) == slot_before(path, n, k, x),
{
}

/// The slot-reuse form of a well-formed assign-encoded path is well formed.
pub proof fn lemma_slot_reuse_form_well_formed(path: Seq<(int, int)>, n: int)
    requires
        well_formed_assign(path, n),
    ensures
        well_formed_slot_reuse(to_slot_reuse(path, n), n),
{
    let slots = to_slot_reuse(path, n);
    assert forall|k: int| 0 <= k < slots.len() implies 0 <= (#[trigger] slots[k]).0 < n && 0
        <= slots[k].1 < n by {
        lemma_slot_is_leaf(path, n, k, path[k].0);
        lemma_slot_is_leaf(path, n, k, path[k].1);
    }
    assert forall|k: int| 0 <= k < slots.len() implies (#[trigger] slots[k]).0 != slots[k].1 by {
        lemma_operands_in_different_slots(path, n, k, path[k].0, k, path[k].1);
    }
    assert forall|j: int, k: int| 0 <= j < k < slots.len() implies (#[trigger] slots[j]).1 != (
    #[trigger] slots[k]).0 && slots[j].1 != slots[k].1 by {
        assert(path[j].1 != path[k].0 && path[j].1 != path[k].1);
        lemma_operands_in_different_slots(path, n, j, path[j].1, k, path[k].0);
        lemma_operands_in_different_slots(path, n, j, path[j].1, k, path[k].1);
    }
}

/// Two different operands of one step do not sit in the same slot, nor do
/// the right operand of a step and an operand of a later step.
proof fn lemma_operands_in_different_slots(
    path: Seq<(int, int)>,
    n: int,
    j: int,
    a: int,
    k: int,
    b: int,
)
    requires
        refers_back(path, n),
        consumes_once(path),
        0 <= j <= k < path.len(),
        path[j].0 == a || path[j].1 == a,
        j < k ==> path[j].1 == a,
        path[k].0 == b || path[k].1 == b,
        a != b,
    ensures
        slot_before(path, n, j, a) != slot_before(path, n, k, b),
{
    lemma_slot_stable(path, n, j, k, a);
    if slot_before(path, n, k, a) == slot_before(path, n, k, b) {
        if a < b {
            lemma_slot_chain(path, n, k, a, b);
            let i = lemma_written_step(path, k, a);
            if i != j {
                assert(path[i].0 != path[j].0 && path[i].0 != path[j].1);
            } else {
                assert(path[j].0 != path[j].1);
            }
            assert(false);
        } else {
            lemma_slot_chain(path, n, k, b, a);
            let i = lemma_written_step(path, k, b);
            assert(path[i].0 != path[k].0);
            assert(false);
        }
    }
}

/// Where step `j` has written slot `x`, the name of `x` before a later step
/// is that of step `j` or of a step after it.
proof fn lemma_name_latest(path: Seq<(int, int)>, n: int, k: int, j: int)
    requires
        0 <= j < k,
    ensures
        n + j <= name_before(path, n, k, path[j].0) < n + k,
    decreases k,
{
    if path[k - 1].0 != path[j].0 {
        lemma_name_latest(path, n, k - 1, j);
    }
}

/// Two operands of a well-formed slot-reuse path, of step `j` and of step
/// `k`, and different where `j` is `k`, are given different names.
proof fn lemma_operands_named_apart(
    path: Seq<(int, int)>,
    n: int,
    j: int,
    a: int,
    k: int,
    b: int,
)
    requires
        within_leaves(path, n),
        retires_right(path),
        0 <= j <= k < path.len(),
        path[j].0 == a || path[j].1 == a,
        path[k].0 == b || path[k].1 == b,
        j == k ==> a != b,
    ensures
        name_before(path, n, j, a) != name_before(path, n, k, b),
{
    lemma_name_range(path, n, j, a);
    lemma_name_range(path, n, k, b);
    if name_before(path, n, j, a) == name_before(path, n, k, b) {
        assert(a == b);
        assert(j < k);
        assert(path[j].1 != path[k].0 && path[j].1 != path[k].1);
        assert(path[j].0 == a);
        lemma_name_latest(path, n, k, j);
        assert(false);
    }
}

/// The assign form of a well-formed slot-reuse path is well formed.
pub proof fn lemma_assign_form_well_formed(path: Seq<(int, int)>, n: int)
    requires
        well_formed_slot_reuse(path, n),
    ensures
        well_formed_assign(to_assign(path, n), n),
{
    let named = to_assign(path, n);
    assert forall|k: int| 0 <= k < named.len() implies 0 <= (#[trigger] named[k]).0 < n + k && 0
        <= named[k].1 < n + k by {
        lemma_name_range(path, n, k, path[k].0);
        lemma_name_range(path, n, k, path[k].1);
    }
    assert forall|k: int| 0 <= k < named.len() implies (#[trigger] named[k]).0 != named[k].1 by {
        lemma_operands_named_apart(path, n, k, path[k].0, k, path[k].1);
    }
    assert forall|j: int, k: int| 0 <= j < k < named.len() implies {
        &&& (#[trigger] named[j]).0 != (#[trigger] named[k]).0
        &&& named[j].0 != named[k].1
        &&& named[j].1 != named[k].0
        &&& named[j].1 != named[k].1
    } by {
        lemma_operands_named_apart(path, n, j, path[j].0, k, path[k].0);
        lemma_operands_named_apart(path, n, j, path[j].0, k, path[k].1);
        lemma_operands_named_apart(path, n, j, path[j].1, k, path[k].0);
        lemma_operands_named_apart(path, n, j, path[j].1, k, path[k].1);
    }
}

/// Converting to the slot-reuse encoding never rewrites the identifier of a
/// leaf.
pub proof fn lemma_slot_reuse_keeps_leaves(path: Seq<(int, int)>, n: int, k: int)
    requires
        0 <= k < path.len(),
    ensures
        path[k].0 < n ==> to_slot_reuse(path, n)[k].0 == path[k].0,
        path[k].1 < n ==> to_slot_reuse(path, n)[k].1 == path[k].1,
{
}

/// A slot keeps its name as long as no step has referred to it.
proof fn lemma_first_reference_unwritten(path: Seq<(int, int)>, k: int, x: int)
    requires
        0 <= k <= path.len(),
        first_reference(path, k, x),
    ensures
        !written_before(path, k, x),
    decreases k,
{
    if k > 0 {
        assert(path[k - 1].0 != x);
        lemma_first_reference_unwritten(path, k - 1, x);
    }
}

/// Converting to the assign encoding does not rewrite an identifier where a
/// step is the first to refer to it.
pub proof fn lemma_assign_keeps_first_reference(path: Seq<(int, int)>, n: int, k: int)
    requires
        0 <= k < path.len(),
    ensures
        first_reference(path, k, path[k].0) ==> to_assign(path, n)[k].0 == path[k].0,
        first_reference(path, k, path[k].1) ==> to_assign(path, n)[k].1 == path[k].1,
{
    if first_reference(path, k, path[k].0) {
        lemma_first_reference_unwritten(path, k, path[k].0);
        lemma_name_range(path, n, k, path[k].0);
    }
    if first_reference(path, k, path[k].1) {
        lemma_first_reference_unwritten(path, k, path[k].1);
        lemma_name_range(path, n, k, path[k].1);
    }
}

/// The operands of the steps in the order in which they are written.
spec fn operands(path: Seq<(int, int)>) -> Seq<int> {
    Seq::new(
        2 * path.len(),
        |i: int|
            if i % 2 == 0 {
                path[i / 2].0
            } else {
                path[i / 2].1
            },
    )
}

/// In a well-formed assign-encoded path over `n` leaves every node but the
/// result of the last step, that is each of `0 .. 2n - 2`, is an operand of
/// exactly one step.
pub proof fn lemma_node_consumed_once(path: Seq<(int, int)>, n: int, x: int) -> (k: int)
    requires
        well_formed_assign(path, n),
        0 <= x < 2 * n - 2,
    ensures
        0 <= k < path.len(),
        path[k].0 == x || path[k].1 == x,
        forall|j: int|
            0 <= j < path.len() && ((#[trigger] path[j]).0 == x || path[j].1 == x) ==> j == k,
{
    let ops = operands(path);
    assert forall|i: int, j: int| 0 <= i < ops.len() && 0 <= j < ops.len() && i != j implies ops[i]
        != ops[j] by {
        let a = i / 2;
        let b = j / 2;
        if a < b {
            assert(path[a].0 != path[b].0);
        } else if b < a {
            assert(path[b].0 != path[a].0);
        } else {
            assert(path[a].0 != path[a].1);
        }
    }
    ops.unique_seq_to_set();
    let nodes = set_int_range(0, 2 * n - 2);
    lemma_int_range(0, 2 * n - 2);
    assert forall|y: int| ops.to_set().contains(y) implies nodes.contains(y) by {
        let i = choose|i: int| 0 <= i < ops.len() && ops[i] == y;
        assert(0 <= path[i / 2].0 < n + i / 2);
    }
    lemma_len_subset(ops.to_set(), nodes);
    lemma_subset_equality(ops.to_set(), nodes);
    assert(nodes.contains(x));
    let i = choose|i: int| 0 <= i < ops.len() && ops[i] == x;
    let k = i / 2;
    assert forall|j: int|
        0 <= j < path.len() && ((#[trigger] path[j]).0 == x || path[j].1 == x) implies j == k by {
        if j < k {
            assert(path[j].0 != path[k].0);
        } else if k < j {
            assert(path[k].0 != path[j].0);
        }
    }
    k
}

/// In a well-formed assign-encoded path the result of the last step is no
/// operand.
pub proof fn lemma_result_not_consumed(path: Seq<(int, int)>, n: int, k: int)
    requires
        well_formed_assign(path, n),
        0 <= k < path.len(),
    ensures
        path[k].0 != 2 * n - 2,
        path[k].1 != 2 * n - 2,
{
}

/// In a well-formed slot-reuse path over `n` leaves every slot but the left
/// one of the last step is retired by exactly one step: the result of the
/// path is left in that one slot.
pub proof fn lemma_slot_retired_once(path: Seq<(int, int)>, n: int, x: int) -> (k: int)
    requires
        well_formed_slot_reuse(path, n),
        path.len() > 0,
        0 <= x < n,
        x != path.last().0,
    ensures
        0 <= k < path.len(),
        path[k].1 == x,
        forall|j: int| 0 <= j < path.len() && (#[trigger] path[j]).1 == x ==> j == k,
{
    let last = path.len() - 1;
    let rights = Seq::new(path.len(), |k: int| path[k].1);
    assert forall|i: int, j: int|
        0 <= i < rights.len() && 0 <= j < rights.len() && i != j implies rights[i]
        != rights[j] by {
        if i < j {
            assert(path[i].1 != path[j].1);
        } else {
            assert(path[j].1 != path[i].1);
        }
    }
    rights.unique_seq_to_set();
    let others = set_int_range(0, n).remove(path[last].0);
    lemma_int_range(0, n);
    assert forall|y: int| rights.to_set().contains(y) implies others.contains(y) by {
        let i = choose|i: int| 0 <= i < rights.len() && rights[i] == y;
        assert(0 <= path[i].1 < n);
        if i < last {
            assert(path[i].1 != path[last].0);
        }
    }
    lemma_len_subset(rights.to_set(), others);
    lemma_subset_equality(rights.to_set(), others);
    assert(others.contains(x));
    let k = choose|k: int| 0 <= k < rights.len() && rights[k] == x;
    assert forall|j: int| 0 <= j < path.len() && (#[trigger] path[j]).1 == x implies j == k by {
        if j < k {
            assert(path[j].1 != path[k].1);
        } else if k < j {
            assert(path[k].1 != path[j].1);
        }
    }
    k
}

} // verus!
