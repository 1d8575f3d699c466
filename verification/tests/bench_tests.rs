use decision_tree::bench::{bench_classifier, split_data};
use decision_tree::classifier::DecisionTreeeClassifier;
use decision_tree::data::Data;
use decision_tree::Prob;

fn rec(attrs: &[&str], label: &str) -> (Vec<String>, String) {
    (
        attrs.iter().map(|s| s.to_string()).collect(),
        label.to_string(),
    )
}

#[test]
fn split_data_partitions_by_flags() {
    let data: Data = vec![
        rec(&["a"], "e"),
        rec(&["b"], "p"),
        rec(&["c"], "e"),
        rec(&["d"], "p"),
    ];
    let flags = vec![true, false, false, true];
    let (train, test) = split_data(&flags, &data);
    assert_eq!(train, vec![rec(&["a"], "e"), rec(&["d"], "p")]);
    assert_eq!(test, vec![rec(&["b"], "p"), rec(&["c"], "e")]);
}

#[test]
fn bench_counts_confusion_matrix() {
    let train: Data = vec![rec(&["a"], "e"), rec(&["a"], "e"), rec(&["b"], "p")];
    let classifier = DecisionTreeeClassifier::from_data(&train).unwrap();
    // "a" predicts 1.0, "b" predicts 0.0; threshold one half
    let test: Data = vec![
        rec(&["a"], "e"), // predicted positive, labeled "e": true positive
        rec(&["b"], "p"), // predicted negative, labeled "p": true negative
        rec(&["a"], "p"), // predicted positive, labeled "p": false positive
        rec(&["b"], "e"), // predicted negative, labeled "e": false negative
    ];
    let threshold = Prob { num: 1, den: 2 };
    let counts = bench_classifier(&classifier, &test, threshold).unwrap();
    assert_eq!(counts, (1, 1, 1, 1));
}

#[test]
fn bench_fails_on_unseen_category() {
    let train: Data = vec![rec(&["a"], "e"), rec(&["a"], "e"), rec(&["b"], "p")];
    let classifier = DecisionTreeeClassifier::from_data(&train).unwrap();
    let test: Data = vec![rec(&["z"], "e")];
    let threshold = Prob { num: 1, den: 2 };
    assert!(bench_classifier(&classifier, &test, threshold).is_err());
}
