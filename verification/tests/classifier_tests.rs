use decision_tree::classifier::{
    calculate_data_clearance, calculate_enthropy_by_attribute, calculate_gain, split_by_attribute,
    DecisionTreeeClassifier, NodeType,
};
use decision_tree::data::Data;
use decision_tree::entropy::{calculate_enthropy, calculate_split_enthropy};
use decision_tree::fixed::SCALE;
use decision_tree::{BuildError, PredictError, Prob};

fn rec(attrs: &[&str], label: &str) -> (Vec<String>, String) {
    (
        attrs.iter().map(|s| s.to_string()).collect(),
        label.to_string(),
    )
}

fn strings(vals: &[&str]) -> Vec<String> {
    vals.iter().map(|s| s.to_string()).collect()
}

#[test]
fn entropy_single_label_zero() {
    let data: Data = vec![rec(&["a"], "e"), rec(&["b"], "e"), rec(&["c"], "e")];
    assert_eq!(calculate_enthropy(&data), 0);
}

#[test]
fn entropy_balanced_one_bit() {
    let data: Data = vec![
        rec(&["a"], "e"),
        rec(&["b"], "p"),
        rec(&["c"], "e"),
        rec(&["d"], "p"),
    ];
    assert_eq!(calculate_enthropy(&data), SCALE);
}

#[test]
fn entropy_four_even_labels_two_bits() {
    let data: Data = vec![
        rec(&["a"], "e"),
        rec(&["b"], "p"),
        rec(&["c"], "q"),
        rec(&["d"], "r"),
    ];
    assert_eq!(calculate_enthropy(&data), 2 * SCALE);
}

#[test]
fn split_information_of_even_split_is_one_bit() {
    // split information comes back scaled by the record count: one bit of
    // split information over two records is 2 * SCALE
    let data: Data = vec![rec(&["a"], "e"), rec(&["b"], "p")];
    assert_eq!(calculate_split_enthropy(&data, 0), 2 * (SCALE as u128));
}

#[test]
fn split_information_positive_with_two_groups() {
    // two groups of uneven sizes: the split information must not truncate
    // to zero, however small the groups' entropy contributions are
    let data: Data = vec![
        rec(&["a"], "e"),
        rec(&["b"], "e"),
        rec(&["b"], "p"),
        rec(&["b"], "p"),
    ];
    assert!(calculate_split_enthropy(&data, 0) >= SCALE as u128);
}

#[test]
fn gain_single_group_zero() {
    // every record shows the same value for attribute 0: one partition
    // group, so the gain ratio is zero by the floor, not a division error
    let data: Data = vec![rec(&["a"], "e"), rec(&["a"], "p"), rec(&["a"], "e")];
    assert_eq!(calculate_gain(&data, 0), 0);
}

#[test]
fn gain_of_perfect_separator_is_one() {
    // attribute 0 separates the labels perfectly on a 50/50 dataset:
    // gain = 1 bit, split information = 1 bit, ratio = 1.0 = SCALE
    let data: Data = vec![
        rec(&["a"], "e"),
        rec(&["a"], "e"),
        rec(&["b"], "p"),
        rec(&["b"], "p"),
    ];
    assert_eq!(calculate_gain(&data, 0), SCALE as i128);
}

#[test]
fn weighted_entropy_of_perfect_separator_is_zero() {
    let data: Data = vec![rec(&["a"], "e"), rec(&["b"], "p")];
    assert_eq!(calculate_enthropy_by_attribute(&data, 0), 0);
}

#[test]
fn split_by_attribute_groups_by_value() {
    let data: Data = vec![
        rec(&["a"], "e"),
        rec(&["b"], "p"),
        rec(&["a"], "p"),
        rec(&["c"], "e"),
    ];
    let groups = split_by_attribute(&data, 0);
    assert_eq!(groups.len(), 3);
    assert_eq!(groups[0].0, "a");
    assert_eq!(groups[0].1, vec![rec(&["a"], "e"), rec(&["a"], "p")]);
    assert_eq!(groups[1].0, "b");
    assert_eq!(groups[1].1, vec![rec(&["b"], "p")]);
    assert_eq!(groups[2].0, "c");
    assert_eq!(groups[2].1, vec![rec(&["c"], "e")]);
}

#[test]
fn clearance_majority_label() {
    let data: Data = vec![
        rec(&["a"], "e"),
        rec(&["b"], "p"),
        rec(&["c"], "e"),
        rec(&["d"], "e"),
    ];
    let (count, label) = calculate_data_clearance(&data);
    assert_eq!(count, 3);
    assert_eq!(label, "e");
}

#[test]
fn three_records_tree_and_predictions() {
    let data: Data = vec![rec(&["a"], "e"), rec(&["a"], "e"), rec(&["b"], "p")];
    let classifier = DecisionTreeeClassifier::from_data(&data).unwrap();
    // the only attribute is selected, and it splits into groups "a" and "b"
    assert!(matches!(classifier.root.node_type, NodeType::Stage));
    assert_eq!(classifier.root.attribute, Some(0));
    let children = classifier.root.children.as_ref().unwrap();
    assert_eq!(children.len(), 2);
    assert_eq!(children[0].0, "a");
    assert_eq!(children[1].0, "b");
    // group "a": two positive records -> probability 1; group "b" -> 0
    let pa = classifier.predict(&strings(&["a"])).unwrap();
    assert_eq!(pa, Prob { num: 2, den: 2 });
    let pb = classifier.predict(&strings(&["b"])).unwrap();
    assert_eq!(pb, Prob { num: 0, den: 1 });
    // a category never seen during training fails explicitly
    assert_eq!(
        classifier.predict(&strings(&["c"])),
        Err(PredictError::UnseenCategory)
    );
}

#[test]
fn pure_dataset_builds_single_leaf() {
    // 100 records all labeled "e": clearance 1.0 >= 0.99, so the root is a
    // leaf of probability 1 no matter how the attribute values split
    let mut data: Data = Vec::new();
    for i in 0..100 {
        let v = if i % 2 == 0 { "x" } else { "y" };
        data.push(rec(&[v], "e"));
    }
    let classifier = DecisionTreeeClassifier::from_data(&data).unwrap();
    match classifier.root.node_type {
        NodeType::Leaf(p) => assert_eq!(p, Prob { num: 100, den: 100 }),
        NodeType::Stage => panic!("expected a leaf"),
    }
    assert!(classifier.root.children.is_none());
    assert!(classifier.root.attribute.is_none());
}

#[test]
fn selector_prefers_perfect_separator() {
    // attribute 0 separates the labels perfectly; attribute 1 is
    // uncorrelated, so attribute 0 has the strictly greater gain ratio
    let data: Data = vec![
        rec(&["a", "x"], "e"),
        rec(&["a", "y"], "e"),
        rec(&["b", "x"], "p"),
        rec(&["b", "y"], "p"),
    ];
    let g0 = calculate_gain(&data, 0);
    let g1 = calculate_gain(&data, 1);
    assert!(g0 > g1);
    let classifier = DecisionTreeeClassifier::from_data(&data).unwrap();
    assert_eq!(classifier.root.attribute, Some(0));
}

#[test]
fn predict_twice_same_result() {
    let data: Data = vec![rec(&["a"], "e"), rec(&["a"], "e"), rec(&["b"], "p")];
    let classifier = DecisionTreeeClassifier::from_data(&data).unwrap();
    let record = strings(&["a"]);
    let first = classifier.predict(&record);
    let second = classifier.predict(&record);
    assert_eq!(first, second);
}

#[test]
fn empty_dataset_fails() {
    let data: Data = Vec::new();
    match DecisionTreeeClassifier::from_data(&data) {
        Err(e) => assert_eq!(e, BuildError::EmptyDataset),
        Ok(_) => panic!("expected an error"),
    }
}

#[test]
fn inconsistent_shapes_fail() {
    let data: Data = vec![rec(&["a", "x"], "e"), rec(&["b"], "p")];
    match DecisionTreeeClassifier::from_data(&data) {
        Err(e) => assert_eq!(e, BuildError::InconsistentRecordShape),
        Ok(_) => panic!("expected an error"),
    }
}

#[test]
fn short_record_fails_with_index_error() {
    let data: Data = vec![
        rec(&["a", "x"], "e"),
        rec(&["a", "y"], "e"),
        rec(&["b", "x"], "p"),
        rec(&["b", "y"], "p"),
    ];
    let classifier = DecisionTreeeClassifier::from_data(&data).unwrap();
    // the root splits on attribute 0; an empty record is too short for it
    let empty: Vec<String> = Vec::new();
    assert_eq!(
        classifier.predict(&empty),
        Err(PredictError::AttributeIndexOutOfRange)
    );
}
