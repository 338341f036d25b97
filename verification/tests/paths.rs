use rustengra::{
    as_ssa_path,
    checked_replace_to_ssa_path, checked_ssa_to_replace_path, is_well_formed_replace_path,
    is_well_formed_ssa_path, replace_to_ssa_path, ssa_to_replace_path, PathError,
};

#[test]
fn ssa_to_replace_small_path() {
    let ssa_path = vec![(0, 3), (4, 1), (2, 5)];
    let replace_path = ssa_to_replace_path(ssa_path, 4);
    assert_eq!(replace_path, vec![(0, 3), (0, 1), (2, 0)]);
}

#[test]
fn replace_to_ssa_small_path() {
    let replace_path = vec![(0, 3), (0, 1), (2, 0)];
    let ssa_path = replace_to_ssa_path(replace_path, 4);
    assert_eq!(ssa_path, vec![(0, 3), (4, 1), (2, 5)]);
}

#[test]
fn ssa_chain_resolves_through_several_steps() {
    let ssa_path = vec![(0, 1), (6, 2), (7, 3), (8, 4), (9, 5)];
    let replace_path = ssa_to_replace_path(ssa_path, 6);
    assert_eq!(replace_path, vec![(0, 1), (0, 2), (0, 3), (0, 4), (0, 5)]);
}

#[test]
fn ssa_result_as_right_operand() {
    let ssa_path = vec![(1, 2), (0, 3), (4, 5)];
    assert!(is_well_formed_ssa_path(&ssa_path, 4));
    let replace_path = ssa_to_replace_path(ssa_path, 4);
    assert_eq!(replace_path, vec![(1, 2), (0, 3), (1, 0)]);
}

#[test]
fn replace_names_latest_write() {
    let replace_path = vec![(4, 5), (1, 4), (3, 1), (0, 2), (3, 0)];
    assert!(is_well_formed_replace_path(&replace_path, 6));
    let ssa_path = replace_to_ssa_path(replace_path, 6);
    assert_eq!(ssa_path, vec![(4, 5), (1, 6), (3, 7), (0, 2), (8, 9)]);
}

#[test]
fn round_trip_from_ssa() {
    let paths: Vec<(Vec<(usize, usize)>, usize)> = vec![
        (vec![], 1),
        (vec![(0, 1)], 2),
        (vec![(1, 0)], 2),
        (vec![(0, 3), (4, 1), (2, 5)], 4),
        (vec![(1, 2), (0, 3), (4, 5)], 4),
        (vec![(0, 1), (6, 2), (7, 3), (8, 4), (9, 5)], 6),
        (vec![(4, 5), (1, 6), (3, 7), (0, 2), (8, 9)], 6),
        (vec![(2, 3), (0, 1), (5, 4)], 4),
    ];
    for (path, n) in paths {
        assert!(is_well_formed_ssa_path(&path, n));
        let there = ssa_to_replace_path(path.clone(), n);
        assert!(is_well_formed_replace_path(&there, n));
        let back = replace_to_ssa_path(there, n);
        assert_eq!(back, path);
    }
}

#[test]
fn round_trip_from_replace() {
    let paths: Vec<(Vec<(usize, usize)>, usize)> = vec![
        (vec![], 1),
        (vec![(0, 1)], 2),
        (vec![(1, 0)], 2),
        (vec![(0, 3), (0, 1), (2, 0)], 4),
        (vec![(4, 5), (1, 4), (3, 1), (0, 2), (3, 0)], 6),
        (vec![(0, 2), (3, 0), (4, 3), (5, 4), (1, 5)], 6),
        (vec![(1, 3), (4, 1), (5, 4), (0, 2), (5, 0)], 6),
    ];
    for (path, n) in paths {
        assert!(is_well_formed_replace_path(&path, n));
        let there = replace_to_ssa_path(path.clone(), n);
        assert!(is_well_formed_ssa_path(&there, n));
        let back = ssa_to_replace_path(there, n);
        assert_eq!(back, path);
    }
}

#[test]
fn round_trip_of_a_long_chain() {
    let n: usize = 2000;
    let mut ssa_path = Vec::new();
    ssa_path.push((0, 1));
    for k in 1..n - 1 {
        ssa_path.push((k + 1, n + k - 1));
    }
    assert!(is_well_formed_ssa_path(&ssa_path, n));
    let replace_path = ssa_to_replace_path(ssa_path.clone(), n);
    assert_eq!(replace_path[0], (0, 1));
    for k in 1..n - 1 {
        assert_eq!(replace_path[k], (k + 1, if k == 1 { 0 } else { k }));
    }
    assert_eq!(replace_to_ssa_path(replace_path, n), ssa_path);
}

#[test]
fn converters_keep_the_length() {
    for len in 0..6usize {
        let path: Vec<(usize, usize)> = (0..len).map(|k| (k, k + 1)).collect();
        assert_eq!(ssa_to_replace_path(path.clone(), 3).len(), len);
        assert_eq!(replace_to_ssa_path(path, 3).len(), len);
    }
}

#[test]
fn ssa_to_replace_keeps_leaves() {
    let ssa_path = vec![(3, 1), (0, 2), (4, 5)];
    let replace_path = ssa_to_replace_path(ssa_path.clone(), 4);
    for k in 0..ssa_path.len() {
        if ssa_path[k].0 < 4 {
            assert_eq!(replace_path[k].0, ssa_path[k].0);
        }
        if ssa_path[k].1 < 4 {
            assert_eq!(replace_path[k].1, ssa_path[k].1);
        }
    }
    assert_eq!(replace_path, vec![(3, 1), (0, 2), (3, 0)]);
}

#[test]
fn replace_to_ssa_keeps_first_references() {
    let replace_path = vec![(2, 0), (3, 1), (2, 3)];
    let ssa_path = replace_to_ssa_path(replace_path, 4);
    assert_eq!(ssa_path[0], (2, 0));
    assert_eq!(ssa_path[1], (3, 1));
    assert_eq!(ssa_path[2], (4, 5));
}

#[test]
fn ssa_forward_reference_stands_for_itself() {
    let ssa_path = vec![(5, 0), (4, 1)];
    let replace_path = ssa_to_replace_path(ssa_path, 4);
    assert_eq!(replace_path, vec![(5, 0), (5, 1)]);
}

#[test]
fn ssa_to_replace_with_largest_leaf_count() {
    let ssa_path = vec![(0, 1), (usize::MAX, 2), (3, 0)];
    let replace_path = ssa_to_replace_path(ssa_path, usize::MAX);
    assert_eq!(replace_path, vec![(0, 1), (0, 2), (3, 0)]);
}

#[test]
fn replace_to_ssa_renames_right_operand_too() {
    let replace_path = vec![(0, 1), (2, 0)];
    let ssa_path = replace_to_ssa_path(replace_path, 3);
    assert_eq!(ssa_path, vec![(0, 1), (2, 3)]);
}

#[test]
fn replace_to_ssa_on_a_reused_retired_slot() {
    let replace_path = vec![(0, 1), (1, 0), (1, 1)];
    let ssa_path = replace_to_ssa_path(replace_path, 4);
    assert_eq!(ssa_path, vec![(0, 1), (1, 4), (5, 5)]);
}

#[test]
fn well_formed_ssa_paths() {
    assert!(is_well_formed_ssa_path(&[], 1));
    assert!(is_well_formed_ssa_path(&[(0, 1)], 2));
    assert!(is_well_formed_ssa_path(&[(0, 3), (4, 1), (2, 5)], 4));
}

#[test]
fn ssa_path_of_wrong_length() {
    assert!(!is_well_formed_ssa_path(&[], 0));
    assert!(!is_well_formed_ssa_path(&[], 2));
    assert!(!is_well_formed_ssa_path(&[(0, 1)], 0));
    assert!(!is_well_formed_ssa_path(&[(0, 1)], 3));
    assert!(!is_well_formed_ssa_path(&[(0, 3), (4, 1), (2, 5)], 5));
    assert!(!is_well_formed_ssa_path(&[(0, 1)], usize::MAX));
}

#[test]
fn ssa_path_with_forward_reference() {
    assert!(!is_well_formed_ssa_path(&[(0, 2)], 2));
    assert!(!is_well_formed_ssa_path(&[(4, 3), (0, 1), (2, 5)], 4));
    assert!(!is_well_formed_ssa_path(&[(0, 3), (1, 5), (2, 4)], 4));
}

#[test]
fn ssa_path_with_node_used_twice() {
    assert!(!is_well_formed_ssa_path(&[(0, 0)], 2));
    assert!(!is_well_formed_ssa_path(&[(0, 1), (0, 2)], 3));
    assert!(!is_well_formed_ssa_path(&[(0, 1), (2, 1)], 3));
    assert!(!is_well_formed_ssa_path(&[(0, 3), (4, 1), (4, 2)], 4));
}

#[test]
fn well_formed_replace_paths() {
    assert!(is_well_formed_replace_path(&[], 1));
    assert!(is_well_formed_replace_path(&[(1, 0)], 2));
    assert!(is_well_formed_replace_path(&[(0, 3), (0, 1), (2, 0)], 4));
}

#[test]
fn replace_path_of_wrong_length() {
    assert!(!is_well_formed_replace_path(&[], 0));
    assert!(!is_well_formed_replace_path(&[], 2));
    assert!(!is_well_formed_replace_path(&[(0, 1)], 3));
    assert!(!is_well_formed_replace_path(&[(0, 3), (0, 1), (2, 0)], 5));
}

#[test]
fn replace_path_beyond_the_leaves() {
    assert!(!is_well_formed_replace_path(&[(0, 2)], 2));
    assert!(!is_well_formed_replace_path(&[(0, 3), (4, 1), (2, 5)], 4));
}

#[test]
fn replace_path_with_retired_slot() {
    assert!(!is_well_formed_replace_path(&[(1, 1)], 2));
    assert!(!is_well_formed_replace_path(&[(0, 1), (1, 2)], 3));
    assert!(!is_well_formed_replace_path(&[(0, 1), (2, 1)], 3));
}

#[test]
fn checked_ssa_to_replace_converts_well_formed_path() {
    let converted = checked_ssa_to_replace_path(vec![(0, 3), (4, 1), (2, 5)], 4);
    assert_eq!(converted, Ok(vec![(0, 3), (0, 1), (2, 0)]));
}

#[test]
fn checked_ssa_to_replace_refuses_malformed_path() {
    assert_eq!(
        checked_ssa_to_replace_path(vec![(0, 3), (4, 1), (4, 2)], 4),
        Err(PathError::Malformed)
    );
    assert_eq!(checked_ssa_to_replace_path(vec![(0, 1)], 4), Err(PathError::Malformed));
    assert_eq!(checked_ssa_to_replace_path(vec![(0, 1)], usize::MAX), Err(PathError::Malformed));
}

#[test]
fn checked_replace_to_ssa_converts_well_formed_path() {
    let converted = checked_replace_to_ssa_path(vec![(0, 3), (0, 1), (2, 0)], 4);
    assert_eq!(converted, Ok(vec![(0, 3), (4, 1), (2, 5)]));
}

#[test]
fn checked_replace_to_ssa_refuses_malformed_path() {
    assert_eq!(
        checked_replace_to_ssa_path(vec![(0, 3), (0, 3), (2, 0)], 4),
        Err(PathError::Malformed)
    );
    assert_eq!(checked_replace_to_ssa_path(vec![], 0), Err(PathError::Malformed));
    assert_eq!(checked_replace_to_ssa_path(vec![], usize::MAX), Err(PathError::Malformed));
}

#[test]
fn checked_replace_to_ssa_refuses_identifier_overflow() {
    assert_eq!(
        checked_replace_to_ssa_path(vec![(0, 1)], usize::MAX),
        Err(PathError::IdentifierOverflow)
    );
    assert_eq!(
        checked_replace_to_ssa_path(vec![(0, 1), (0, 2)], usize::MAX - 1),
        Err(PathError::IdentifierOverflow)
    );
}

#[test]
fn as_ssa_path_keeps_an_ssa_path() {
    let path = vec![(0, 3), (0, 1), (2, 0)];
    assert_eq!(as_ssa_path(path.clone(), 4, true), path);
    assert_eq!(as_ssa_path(path.clone(), usize::MAX, true), path);
}

#[test]
fn as_ssa_path_converts_a_replace_path() {
    let path = vec![(0, 3), (0, 1), (2, 0)];
    assert_eq!(as_ssa_path(path, 4, false), vec![(0, 3), (4, 1), (2, 5)]);
}
