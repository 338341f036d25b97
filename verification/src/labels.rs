//! Normalisation of legs: every leg identifier is replaced by its label, the
//! decimal text of the identifier, and the sizes of the legs are tabled by
//! label.

use rustc_hash::FxHashMap;
use vstd::pervasive::unreached;
use vstd::prelude::*;
use crate::decimal::{
    decimal, decimal_label, decimal_value, lemma_decimal_injective, lemma_decimal_value,
};
use crate::fx_tables::{empty_label_sizes, label_sizes, set_label_size, size_of_leg};

verus! {

/// The legs of each tensor.
pub open spec fn groups_of(tensors: Seq<Vec<usize>>) -> Seq<Seq<usize>> {
    Seq::new(tensors.len(), |t: int| tensors[t]@)
}

/// Whether position `(t, l)` lies in `groups`: leg `l` of tensor `t`.
pub open spec fn is_position(groups: Seq<Seq<usize>>, t: int, l: int) -> bool {
    0 <= t < groups.len() && 0 <= l < groups[t].len()
}

/// Whether position `(i, j)` comes before position `(t, l)` in the order in
/// which the legs are read: tensor by tensor, and leg by leg in a tensor.
pub open spec fn reads_before(i: int, j: int, t: int, l: int) -> bool {
    i < t || (i == t && j < l)
}

/// Whether the leg `x` stands at a position of `groups` before `(t, l)`.
pub open spec fn occurs_before(groups: Seq<Seq<usize>>, t: int, l: int, x: usize) -> bool {
    exists|i: int, j: int|
        is_position(groups, i, j) && reads_before(i, j, t, l) && #[trigger] groups[i][j] == x
}

/// Whether the leg `x` stands anywhere in `groups`.
pub open spec fn occurs(groups: Seq<Seq<usize>>, x: usize) -> bool {
    occurs_before(groups, groups.len() as int, 0, x)
}

/// Whether `sizes` has a size for every leg at a position of `groups` before
/// `(t, l)`.
pub open spec fn sized_before(
    groups: Seq<Seq<usize>>,
    sizes: Map<usize, u64>,
    t: int,
    l: int,
) -> bool {
    forall|i: int, j: int|
        is_position(groups, i, j) && reads_before(i, j, t, l) ==> sizes.contains_key(
            #[trigger] groups[i][j],
        )
}

/// Whether `sizes` has a size for every leg of `groups`.
pub open spec fn all_sized(groups: Seq<Seq<usize>>, sizes: Map<usize, u64>) -> bool {
    sized_before(groups, sizes, groups.len() as int, 0)
}

/// The labels of a list of legs, in the same order.
pub open spec fn labels_of(legs: Seq<usize>) -> Seq<Seq<char>> {
    Seq::new(legs.len(), |l: int| decimal(legs[l] as nat))
}

/// The labels of the legs of each tensor, in the same order.
pub open spec fn group_labels(groups: Seq<Seq<usize>>) -> Seq<Seq<Seq<char>>> {
    Seq::new(groups.len(), |t: int| labels_of(groups[t]))
}

/// The sizes by label of the legs that stand in `groups` before `(t, l)`:
/// one entry for each such leg, under its label, with the size that `sizes`
/// has for the leg.
pub open spec fn sizes_by_label_before(
    groups: Seq<Seq<usize>>,
    sizes: Map<usize, u64>,
    t: int,
    l: int,
) -> Map<Seq<char>, u64> {
    Map::new(
        |label: Seq<char>|
            exists|x: usize| #[trigger] occurs_before(groups, t, l, x) && decimal(x as nat) == label,
        |label: Seq<char>| sizes[decimal_value(label) as usize],
    )
}

/// The sizes by label of the legs of `groups`.
pub open spec fn sizes_by_label(groups: Seq<Seq<usize>>, sizes: Map<usize, u64>) -> Map<
    Seq<char>,
    u64,
> {
    sizes_by_label_before(groups, sizes, groups.len() as int, 0)
}

/// Whether `labels`, `exposed_labels` and `table` are the normal form of the
/// tensors `groups` with the exposed legs `exposed` and the sizes `sizes`.
pub open spec fn is_normal_form(
    groups: Seq<Seq<usize>>,
    exposed: Seq<usize>,
    sizes: Map<usize, u64>,
    labels: Seq<Seq<Seq<char>>>,
    exposed_labels: Seq<Seq<char>>,
    table: Map<Seq<char>, u64>,
) -> bool {
    &&& labels == group_labels(groups)
    &&& exposed_labels == labels_of(exposed)
    &&& table == sizes_by_label(groups, sizes)
}

/// A leg that has no size in the table of sizes.
#[derive(Clone, Copy, Debug, PartialEq, Eq)]
pub struct UnknownIdentifier {
    /// The leg without a size.
    pub id: usize,
}

/// Reading one more leg adds that leg to those read.
proof fn lemma_occurs_next_leg(groups: Seq<Seq<usize>>, t: int, l: int, x: usize)
    requires
        is_position(groups, t, l),
    ensures
        occurs_before(groups, t, l + 1, x) <==> occurs_before(groups, t, l, x) || groups[t][l] == x,
{
    if occurs_before(groups, t, l + 1, x) && groups[t][l] != x {
        let (i, j) = choose|i: int, j: int|
            is_position(groups, i, j) && reads_before(i, j, t, l + 1) && #[trigger] groups[i][j]
                == x;
        assert(is_position(groups, i, j) && reads_before(i, j, t, l) && groups[i][j] == x);
    }
    if occurs_before(groups, t, l, x) {
        let (i, j) = choose|i: int, j: int|
            is_position(groups, i, j) && reads_before(i, j, t, l) && #[trigger] groups[i][j] == x;
        assert(is_position(groups, i, j) && reads_before(i, j, t, l + 1) && groups[i][j] == x);
    }
    if groups[t][l] == x {
        assert(is_position(groups, t, l) && reads_before(t, l, t, l + 1) && groups[t][l] == x);
    }
}

/// The end of a tensor is the start of the next.
proof fn lemma_occurs_next_tensor(groups: Seq<Seq<usize>>, t: int, x: usize)
    requires
        0 <= t < groups.len(),
    ensures
        occurs_before(groups, t, groups[t].len() as int, x) <==> occurs_before(
            groups,
            t + 1,
            0,
            x,
        ),
{
    let end = groups[t].len() as int;
    if occurs_before(groups, t, end, x) {
        let (i, j) = choose|i: int, j: int|
            is_position(groups, i, j) && reads_before(i, j, t, end) && #[trigger] groups[i][j] == x;
        assert(is_position(groups, i, j) && reads_before(i, j, t + 1, 0) && groups[i][j] == x);
    }
    if occurs_before(groups, t + 1, 0, x) {
        let (i, j) = choose|i: int, j: int|
            is_position(groups, i, j) && reads_before(i, j, t + 1, 0) && #[trigger] groups[i][j]
                == x;
        assert(is_position(groups, i, j) && reads_before(i, j, t, end) && groups[i][j] == x);
    }
}

/// Tabling the size of the leg at `(t, l)` under its label takes the table
/// of the legs before `(t, l)` to that of the legs before `(t, l + 1)`.
proof fn lemma_table_next_leg(groups: Seq<Seq<usize>>, sizes: Map<usize, u64>, t: int, l: int)
    requires
        is_position(groups, t, l),
    ensures
        sizes_by_label_before(groups, sizes, t, l + 1) == sizes_by_label_before(
            groups,
            sizes,
            t,
            l,
        ).insert(decimal(groups[t][l] as nat), sizes[groups[t][l]]),
{
    let leg = groups[t][l];
    let before = sizes_by_label_before(groups, sizes, t, l);
    let after = sizes_by_label_before(groups, sizes, t, l + 1);
    let grown = before.insert(decimal(leg as nat), sizes[leg]);
    lemma_decimal_value(leg as nat);
    assert forall|label: Seq<char>| after.contains_key(label) <==> grown.contains_key(label) by {
        if after.contains_key(label) {
            let x = choose|x: usize| #[trigger]
                occurs_before(groups, t, l + 1, x) && decimal(x as nat) == label;
            lemma_occurs_next_leg(groups, t, l, x);
            if x != leg {
                assert(occurs_before(groups, t, l, x) && decimal(x as nat) == label);
            }
        }
        if before.contains_key(label) {
            let x = choose|x: usize| #[trigger]
                occurs_before(groups, t, l, x) && decimal(x as nat) == label;
            lemma_occurs_next_leg(groups, t, l, x);
            assert(occurs_before(groups, t, l + 1, x) && decimal(x as nat) == label);
        }
        if label == decimal(leg as nat) {
            lemma_occurs_next_leg(groups, t, l, leg);
            assert(occurs_before(groups, t, l + 1, leg) && decimal(leg as nat) == label);
        }
    }
    assert(after =~= grown);
}

/// The table of the legs up to the end of tensor `t` is that of the legs
/// before tensor `t + 1`.
proof fn lemma_table_next_tensor(groups: Seq<Seq<usize>>, sizes: Map<usize, u64>, t: int)
    requires
        0 <= t < groups.len(),
    ensures
        sizes_by_label_before(groups, sizes, t, groups[t].len() as int) == sizes_by_label_before(
            groups,
            sizes,
            t + 1,
            0,
        ),
{
    let end = groups[t].len() as int;
    let here = sizes_by_label_before(groups, sizes, t, end);
    let there = sizes_by_label_before(groups, sizes, t + 1, 0);
    assert forall|label: Seq<char>| here.contains_key(label) <==> there.contains_key(label) by {
        if here.contains_key(label) {
            let x = choose|x: usize| #[trigger]
                occurs_before(groups, t, end, x) && decimal(x as nat) == label;
            lemma_occurs_next_tensor(groups, t, x);
            assert(occurs_before(groups, t + 1, 0, x) && decimal(x as nat) == label);
        }
        if there.contains_key(label) {
            let x = choose|x: usize| #[trigger]
                occurs_before(groups, t + 1, 0, x) && decimal(x as nat) == label;
            lemma_occurs_next_tensor(groups, t, x);
            assert(occurs_before(groups, t, end, x) && decimal(x as nat) == label);
        }
    }
    assert(here =~= there);
}

/// The labels of `legs`, in the same order.
fn labels_of_legs(legs: &[usize]) -> (labels: Vec<String>)
    ensures
        labels.deep_view() == labels_of(legs@),
{
    let mut labels: Vec<String> = Vec::new();
    let mut l: usize = 0;
    while l < legs.len()
        invariant
            l <= legs.len(),
            labels.len() == l,
            forall|j: int| 0 <= j < l ==> (#[trigger] labels[j])@ == decimal(legs[j] as nat),
        decreases legs.len() - l,
    {
        labels.push(decimal_label(legs[l]));
        l += 1;
    }
    assert(labels.deep_view() =~= labels_of(legs@));
    labels
}

/// The first leg of `inputs`, tensor by tensor, that has no size in
/// `size_dict`; `None` where every leg has one.
pub fn first_unknown_leg(inputs: &[Vec<usize>], size_dict: &FxHashMap<usize, u64>) -> (found:
    Option<usize>)
    ensures
        found is None <==> all_sized(groups_of(inputs@), size_dict@),
        found matches Some(x) ==> exists|t: int, l: int|
            {
                &&& is_position(groups_of(inputs@), t, l)
                &&& #[trigger] groups_of(inputs@)[t][l] == x
                &&& !size_dict@.contains_key(x)
                &&& sized_before(groups_of(inputs@), size_dict@, t, l)
            },
{
    let ghost groups = groups_of(inputs@);
    let ghost sizes = size_dict@;
    let mut t: usize = 0;
    while t < inputs.len()
        invariant
            t <= inputs.len(),
            groups == groups_of(inputs@),
            sizes == size_dict@,
            sized_before(groups, sizes, t as int, 0),
        decreases inputs.len() - t,
    {
        let tensor = &inputs[t];
        let mut l: usize = 0;
        while l < tensor.len()
            invariant
                t < inputs.len(),
                l <= tensor.len(),
                tensor@ == groups[t as int],
                groups == groups_of(inputs@),
                sizes == size_dict@,
                sized_before(groups, sizes, t as int, l as int),
            decreases tensor.len() - l,
        {
            let leg = tensor[l];
            if size_of_leg(size_dict, leg).is_none() {
                proof {
                    assert(is_position(groups, t as int, l as int));
                    assert(groups[t as int][l as int] == leg);
                    assert(reads_before(t as int, l as int, groups.len() as int, 0));
                }
                return Some(leg);
            }
            l += 1;
        }
        t += 1;
    }
    None
}

/// Replaces every leg by its label and tables the sizes by label.
///
/// Returns the labels of the legs of each tensor of `inputs`, the labels of
/// the legs in `outputs`, and a table with the size of every leg of `inputs`
/// under its label. Every leg of `inputs` must have a size in `size_dict`;
/// [`checked_tensor_legs_to_digit`] tests that first. Two positions get the
/// same label exactly where they hold the same leg.
pub fn tensor_legs_to_digit(
    inputs: &[Vec<usize>],
    outputs: &[usize],
    size_dict: &FxHashMap<usize, u64>,
) -> (res: (Vec<Vec<String>>, Vec<String>, FxHashMap<String, u64>))
    requires
        all_sized(groups_of(inputs@), size_dict@),
    ensures
        is_normal_form(
            groups_of(inputs@),
            outputs@,
            size_dict@,
            res.0.deep_view(),
            res.1.deep_view(),
            label_sizes(res.2),
        ),
        forall|t1: int, l1: int, t2: int, l2: int|
            is_position(groups_of(inputs@), t1, l1) && is_position(groups_of(inputs@), t2, l2) ==> (
            (#[trigger] res.0[t1][l1])@ == (#[trigger] res.0[t2][l2])@ <==> inputs[t1][l1]
                == inputs[t2][l2]),
{
    let ghost groups = groups_of(inputs@);
    let ghost sizes = size_dict@;
    let mut new_inputs: Vec<Vec<String>> = Vec::new();
    let mut new_size_dict = empty_label_sizes();
    assert(label_sizes(new_size_dict) =~= sizes_by_label_before(groups, sizes, 0, 0));
    let mut t: usize = 0;
    while t < inputs.len()
        invariant
            t <= inputs.len(),
            groups == groups_of(inputs@),
            sizes == size_dict@,
            all_sized(groups, sizes),
            new_inputs.len() == t,
            forall|i: int|
                0 <= i < t ==> (#[trigger] new_inputs[i]).deep_view() == labels_of(groups[i]),
            label_sizes(new_size_dict) == sizes_by_label_before(groups, sizes, t as int, 0),
        decreases inputs.len() - t,
    {
        let tensor = &inputs[t];
        let mut new_tensor: Vec<String> = Vec::with_capacity(tensor.len());
        let mut l: usize = 0;
        while l < tensor.len()
            invariant
                t < inputs.len(),
                l <= tensor.len(),
                tensor@ == groups[t as int],
                groups == groups_of(inputs@),
                sizes == size_dict@,
                all_sized(groups, sizes),
                new_tensor.len() == l,
                forall|j: int|
                    0 <= j < l ==> (#[trigger] new_tensor[j])@ == decimal(tensor[j] as nat),
                label_sizes(new_size_dict) == sizes_by_label_before(
                    groups,
                    sizes,
                    t as int,
                    l as int,
                ),
            decreases tensor.len() - l,
        {
            let leg = tensor[l];
            let string_value = decimal_label(leg);
            new_tensor.push(string_value.clone());
            proof {
                assert(is_position(groups, t as int, l as int));
                assert(groups[t as int][l as int] == leg);
                assert(reads_before(t as int, l as int, groups.len() as int, 0));
                lemma_table_next_leg(groups, sizes, t as int, l as int);
            }
            match size_of_leg(size_dict, leg) {
                Some(size) => set_label_size(&mut new_size_dict, string_value, size),
                None => unreached(),
            }
            l += 1;
        }
        proof {
            lemma_table_next_tensor(groups, sizes, t as int);
            assert(new_tensor.deep_view() =~= labels_of(groups[t as int]));
        }
        new_inputs.push(new_tensor);
        t += 1;
    }
    let new_outputs = labels_of_legs(outputs);
    assert(new_inputs.deep_view() =~= group_labels(groups));
    assert forall|t1: int, l1: int, t2: int, l2: int|
        is_position(groups, t1, l1) && is_position(groups, t2, l2) implies ((
    #[trigger] new_inputs[t1][l1])@ == (#[trigger] new_inputs[t2][l2])@ <==> inputs[t1][l1]
        == inputs[t2][l2]) by {
        assert(new_inputs[t1].deep_view()[l1] == labels_of(groups[t1])[l1]);
        assert(new_inputs[t2].deep_view()[l2] == labels_of(groups[t2])[l2]);
        if decimal(groups[t1][l1] as nat) == decimal(groups[t2][l2] as nat) {
            lemma_decimal_injective(groups[t1][l1] as nat, groups[t2][l2] as nat);
        }
    }
    (new_inputs, new_outputs, new_size_dict)
}

/// Replaces every leg by its label and tables the sizes by label, as
/// [`tensor_legs_to_digit`] does, or reports the first leg of `inputs` that
/// has no size in `size_dict`.
pub fn checked_tensor_legs_to_digit(
    inputs: &[Vec<usize>],
    outputs: &[usize],
    size_dict: &FxHashMap<usize, u64>,
) -> (res: Result<(Vec<Vec<String>>, Vec<String>, FxHashMap<String, u64>), UnknownIdentifier>)
    ensures
        res is Ok <==> all_sized(groups_of(inputs@), size_dict@),
        res matches Ok(normal) ==> is_normal_form(
            groups_of(inputs@),
            outputs@,
            size_dict@,
            normal.0.deep_view(),
            normal.1.deep_view(),
            label_sizes(normal.2),
        ),
        res matches Err(unknown) ==> exists|t: int, l: int|
            {
                &&& is_position(groups_of(inputs@), t, l)
                &&& #[trigger] groups_of(inputs@)[t][l] == unknown.id
                &&& !size_dict@.contains_key(unknown.id)
                &&& sized_before(groups_of(inputs@), size_dict@, t, l)
            },
{
    match first_unknown_leg(inputs, size_dict) {
        Some(id) => Err(UnknownIdentifier { id }),
        None => Ok(tensor_legs_to_digit(inputs, outputs, size_dict)),
    }
}

} // verus!
