//! What holds of the normal form: a label stands for one leg, the table has
//! one entry for each leg, and the normal form is determined by the tensors
//! and the sizes.

use vstd::prelude::*;
use crate::decimal::{decimal, lemma_decimal_injective, lemma_decimal_value};
use crate::labels::{
    group_labels, is_normal_form, is_position, labels_of, occurs, occurs_before, sizes_by_label,
};

verus! {

/// Two legs have the same label exactly where they are the same leg.
pub proof fn lemma_label_names_one_leg(a: usize, b: usize)
    ensures
        decimal(a as nat) == decimal(b as nat) <==> a == b,
{
    if decimal(a as nat) == decimal(b as nat) {
        lemma_decimal_injective(a as nat, b as nat);
    }
}

/// Two positions of the tensors hold the same label exactly where they hold
/// the same leg, whichever tensors they are in.
pub proof fn lemma_same_leg_same_label(
    groups: Seq<Seq<usize>>,
    t1: int,
    l1: int,
    t2: int,
    l2: int,
)
    requires
        is_position(groups, t1, l1),
        is_position(groups, t2, l2),
    ensures
        group_labels(groups)[t1][l1] == group_labels(groups)[t2][l2] <==> groups[t1][l1]
            == groups[t2][l2],
{
    lemma_label_names_one_leg(groups[t1][l1], groups[t2][l2]);
}

/// An exposed leg has the label that the same leg has in a tensor.
pub proof fn lemma_exposed_label(
    groups: Seq<Seq<usize>>,
    exposed: Seq<usize>,
    e: int,
    t: int,
    l: int,
)
    requires
        0 <= e < exposed.len(),
        is_position(groups, t, l),
    ensures
        labels_of(exposed)[e] == group_labels(groups)[t][l] <==> exposed[e] == groups[t][l],
{
    lemma_label_names_one_leg(exposed[e], groups[t][l]);
}

/// The table holds, under the label of each leg of the tensors, the size of
/// that leg.
pub proof fn lemma_table_has_leg(groups: Seq<Seq<usize>>, sizes: Map<usize, u64>, x: usize)
    requires
        occurs(groups, x),
    ensures
        sizes_by_label(groups, sizes).contains_key(decimal(x as nat)),
        sizes_by_label(groups, sizes)[decimal(x as nat)] == sizes[x],
{
    lemma_decimal_value(x as nat);
    assert(occurs_before(groups, groups.len() as int, 0, x) && decimal(x as nat) == decimal(
        x as nat,
    ));
}

/// Every key of the table is the label of exactly one leg, and that leg
/// stands in the tensors.
pub proof fn lemma_table_key_is_label(
    groups: Seq<Seq<usize>>,
    sizes: Map<usize, u64>,
    label: Seq<char>,
) -> (x: usize)
    requires
        sizes_by_label(groups, sizes).contains_key(label),
    ensures
        occurs(groups, x),
        decimal(x as nat) == label,
        forall|y: usize| decimal(y as nat) == label ==> y == x,
{
    let x = choose|x: usize| #[trigger]
        occurs_before(groups, groups.len() as int, 0, x) && decimal(x as nat) == label;
    assert forall|y: usize| decimal(y as nat) == label implies y == x by {
        lemma_label_names_one_leg(x, y);
    }
    x
}

/// The same tensors, exposed legs and sizes have one normal form only: what
/// is computed from them twice is the same.
pub proof fn lemma_normal_form_unique(
    groups: Seq<Seq<usize>>,
    exposed: Seq<usize>,
    sizes: Map<usize, u64>,
    first: (Seq<Seq<Seq<char>>>, Seq<Seq<char>>, Map<Seq<char>, u64>),
    second: (Seq<Seq<Seq<char>>>, Seq<Seq<char>>, Map<Seq<char>, u64>),
)
    requires
        is_normal_form(groups, exposed, sizes, first.0, first.1, first.2),
        is_normal_form(groups, exposed, sizes, second.0, second.1, second.2),
    ensures
        first == second,
{
}

} // verus!
