use rustc_hash::FxHashMap;
use rustengra::decimal::decimal_label;
use rustengra::{
    checked_tensor_legs_to_digit, first_unknown_leg, tensor_legs_to_digit, UnknownIdentifier,
};

fn sizes_of_eight_legs() -> FxHashMap<usize, u64> {
    FxHashMap::from_iter([(0, 4), (1, 5), (2, 6), (3, 7), (4, 8), (5, 9), (6, 10), (7, 11)])
}

#[test]
fn test_tensor_inputs_to_string() {
    let inputs = vec![vec![0, 1, 3, 2], vec![5, 4, 3, 2], vec![5, 4, 6, 7]];
    let outputs = vec![6, 7];
    let size_dict = FxHashMap::from_iter([
        (0, 4),
        (1, 5),
        (2, 6),
        (3, 7),
        (4, 8),
        (5, 9),
        (6, 10),
        (7, 11),
    ]);

    let (new_inputs, new_outputs, new_size_dict) =
        tensor_legs_to_digit(&inputs, &outputs, &size_dict);

    assert_eq!(
        new_inputs,
        vec![
            vec!["0", "1", "3", "2"],
            vec!["5", "4", "3", "2"],
            vec!["5", "4", "6", "7"]
        ]
    );
    assert_eq!(new_outputs, vec!["6", "7"]);
    assert_eq!(
        new_size_dict,
        FxHashMap::from_iter([
            (String::from("0"), 4),
            (String::from("1"), 5),
            (String::from("2"), 6),
            (String::from("3"), 7),
            (String::from("4"), 8),
            (String::from("5"), 9),
            (String::from("6"), 10),
            (String::from("7"), 11),
        ])
    );
}

#[test]
fn decimal_label_of_small_numbers() {
    assert_eq!(decimal_label(0), "0");
    assert_eq!(decimal_label(7), "7");
    assert_eq!(decimal_label(9), "9");
    assert_eq!(decimal_label(10), "10");
    assert_eq!(decimal_label(51), "51");
    assert_eq!(decimal_label(100), "100");
    assert_eq!(decimal_label(407), "407");
    assert_eq!(decimal_label(1234567890), "1234567890");
}

#[test]
fn decimal_label_of_largest_number() {
    assert_eq!(decimal_label(usize::MAX), usize::MAX.to_string());
}

#[test]
fn decimal_label_is_the_usual_text() {
    for id in 0..3000usize {
        assert_eq!(decimal_label(id), id.to_string());
    }
    let mut id: usize = 1;
    while id < usize::MAX / 10 {
        assert_eq!(decimal_label(id), id.to_string());
        assert_eq!(decimal_label(id - 1), (id - 1).to_string());
        assert_eq!(decimal_label(id + 1), (id + 1).to_string());
        id *= 10;
    }
}

#[test]
fn distinct_legs_have_distinct_labels() {
    let legs: Vec<usize> = vec![0, 1, 10, 100, 11, 101, 110, 19, 91, 9, 90, 900];
    for a in &legs {
        for b in &legs {
            assert_eq!(decimal_label(*a) == decimal_label(*b), a == b);
        }
    }
}

#[test]
fn a_leg_has_one_label_in_every_tensor() {
    let inputs = vec![vec![12, 3], vec![3, 12, 40], vec![40]];
    let outputs = vec![40, 12];
    let size_dict = FxHashMap::from_iter([(12, 2), (3, 3), (40, 5)]);
    let (new_inputs, new_outputs, _) = tensor_legs_to_digit(&inputs, &outputs, &size_dict);
    assert_eq!(new_inputs[0][0], new_inputs[1][1]);
    assert_eq!(new_inputs[0][1], new_inputs[1][0]);
    assert_eq!(new_inputs[1][2], new_inputs[2][0]);
    assert_eq!(new_outputs[0], new_inputs[2][0]);
    assert_eq!(new_outputs[1], new_inputs[0][0]);
    assert_ne!(new_inputs[0][0], new_inputs[0][1]);
    assert_eq!(new_inputs, vec![vec!["12", "3"], vec!["3", "12", "40"], vec!["40"]]);
    assert_eq!(new_outputs, vec!["40", "12"]);
}

#[test]
fn normal_form_is_the_same_each_time() {
    let inputs = vec![vec![0, 1, 3, 2], vec![5, 4, 3, 2], vec![5, 4, 6, 7]];
    let outputs = vec![6, 7];
    let size_dict = sizes_of_eight_legs();
    let first = tensor_legs_to_digit(&inputs, &outputs, &size_dict);
    let second = tensor_legs_to_digit(&inputs, &outputs, &size_dict);
    assert_eq!(first.0, second.0);
    assert_eq!(first.1, second.1);
    assert_eq!(first.2, second.2);
}

#[test]
fn table_has_one_entry_for_each_leg_of_the_tensors() {
    let inputs = vec![vec![7, 7, 30], vec![30, 7]];
    let outputs = vec![7];
    let size_dict = FxHashMap::from_iter([(7, 2), (30, 9), (8, 100)]);
    let (_, _, new_size_dict) = tensor_legs_to_digit(&inputs, &outputs, &size_dict);
    assert_eq!(new_size_dict.len(), 2);
    assert_eq!(new_size_dict.get("7"), Some(&2));
    assert_eq!(new_size_dict.get("30"), Some(&9));
    assert_eq!(new_size_dict.get("8"), None);
}

#[test]
fn exposed_legs_need_no_size() {
    let inputs = vec![vec![1]];
    let outputs = vec![99, 1];
    let size_dict = FxHashMap::from_iter([(1, 3)]);
    let (new_inputs, new_outputs, new_size_dict) =
        tensor_legs_to_digit(&inputs, &outputs, &size_dict);
    assert_eq!(new_inputs, vec![vec!["1"]]);
    assert_eq!(new_outputs, vec!["99", "1"]);
    assert_eq!(new_size_dict, FxHashMap::from_iter([(String::from("1"), 3)]));
}

#[test]
fn no_tensors_give_an_empty_table() {
    let inputs: Vec<Vec<usize>> = vec![];
    let outputs: Vec<usize> = vec![];
    let size_dict = sizes_of_eight_legs();
    let (new_inputs, new_outputs, new_size_dict) =
        tensor_legs_to_digit(&inputs, &outputs, &size_dict);
    assert!(new_inputs.is_empty());
    assert!(new_outputs.is_empty());
    assert!(new_size_dict.is_empty());
}

#[test]
fn tensor_without_legs_keeps_its_place() {
    let inputs = vec![vec![], vec![2], vec![]];
    let outputs: Vec<usize> = vec![];
    let size_dict = sizes_of_eight_legs();
    let (new_inputs, _, new_size_dict) = tensor_legs_to_digit(&inputs, &outputs, &size_dict);
    let none: Vec<String> = vec![];
    assert_eq!(new_inputs, vec![none.clone(), vec![String::from("2")], none]);
    assert_eq!(new_size_dict, FxHashMap::from_iter([(String::from("2"), 6)]));
}

#[test]
fn first_unknown_leg_of_sized_tensors() {
    let inputs = vec![vec![0, 1, 3, 2], vec![5, 4, 3, 2], vec![5, 4, 6, 7]];
    assert_eq!(first_unknown_leg(&inputs, &sizes_of_eight_legs()), None);
    let none: Vec<Vec<usize>> = vec![];
    assert_eq!(first_unknown_leg(&none, &FxHashMap::default()), None);
}

#[test]
fn first_unknown_leg_in_reading_order() {
    let inputs = vec![vec![0, 1], vec![5, 44, 3, 33], vec![22, 6]];
    assert_eq!(first_unknown_leg(&inputs, &sizes_of_eight_legs()), Some(44));
    let inputs = vec![vec![0, 1], vec![], vec![22, 44]];
    assert_eq!(first_unknown_leg(&inputs, &sizes_of_eight_legs()), Some(22));
    assert_eq!(first_unknown_leg(&inputs, &FxHashMap::default()), Some(0));
}

#[test]
fn checked_normal_form_of_sized_tensors() {
    let inputs = vec![vec![0, 1, 3, 2], vec![5, 4, 3, 2], vec![5, 4, 6, 7]];
    let outputs = vec![6, 7];
    let size_dict = sizes_of_eight_legs();
    let checked = checked_tensor_legs_to_digit(&inputs, &outputs, &size_dict);
    assert_eq!(checked, Ok(tensor_legs_to_digit(&inputs, &outputs, &size_dict)));
}

#[test]
fn checked_normal_form_reports_unknown_leg() {
    let inputs = vec![vec![0, 1, 3, 2], vec![5, 4, 13, 2], vec![5, 4, 6, 17]];
    let outputs = vec![6, 7];
    let size_dict = sizes_of_eight_legs();
    let checked = checked_tensor_legs_to_digit(&inputs, &outputs, &size_dict);
    assert_eq!(checked, Err(UnknownIdentifier { id: 13 }));
}
