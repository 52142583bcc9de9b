use sequences::knn::{
    split_training_test_data, take_smallest, take_smallest_opt, ClassificationResult,
    ClassificationResultQuality as Q, ClassifierData,
};
use sequences::sequence::{LabelledSequences, Sequence};
use sequences::sequence_element::SequenceElement::Size;

fn data(entries: &[(&str, usize)]) -> Vec<ClassifierData> {
    entries
        .iter()
        .map(|(l, d)| ClassifierData { label: l.to_string(), distance: *d })
        .collect()
}

fn quality(entries: &[(&str, usize)], label: &str) -> Q {
    ClassificationResult::from_classifier_data(&data(entries)).determine_quality(label)
}

#[test]
fn take_smallest_empty() {
    let res = take_smallest(vec![], 1);
    assert!(res.is_empty());

    let res = take_smallest(vec![], 12);
    assert!(res.is_empty());
}

#[test]
fn take_smallest_keeps_the_nearest_in_order() {
    let res = take_smallest(data(&[("a", 5), ("b", 1), ("c", 3), ("d", 1), ("e", 9)]), 3);
    let labels: Vec<_> = res.iter().map(|c| c.label.as_str()).collect();
    assert_eq!(vec!["b", "d", "c"], labels);
    let res = take_smallest(data(&[("a", 5), ("b", 1)]), 5);
    assert_eq!(2, res.len());
    let res = take_smallest(data(&[("a", 2), ("b", 2)]), 1);
    assert_eq!("a", res[0].label);
}

#[test]
fn take_smallest_opt_skips_missing() {
    let input = vec![
        None,
        Some(ClassifierData { label: "a".to_string(), distance: 4 }),
        None,
        Some(ClassifierData { label: "b".to_string(), distance: 2 }),
    ];
    let res = take_smallest_opt(input, 1);
    assert_eq!(1, res.len());
    assert_eq!("b", res[0].label);
    assert!(take_smallest_opt(vec![None, None], 2).is_empty());
}

#[test]
fn qualities() {
    assert_eq!(Q::NoResult, quality(&[], "a"));
    assert_eq!(Q::Exact, quality(&[("a", 1), ("a", 3)], "a"));
    assert_eq!(Q::Wrong, quality(&[("b", 1), ("c", 3)], "a"));
    assert_eq!(Q::Majority, quality(&[("a", 1), ("a", 2), ("b", 3)], "a"));
    // Half of the labels is no majority; the tie is broken by the smaller distance.
    assert_eq!(Q::PluralityThenMinDist, quality(&[("a", 1), ("b", 3)], "a"));
    assert_eq!(Q::Plurality, quality(&[("a", 1), ("a", 2), ("b", 3), ("c", 3), ("d", 0)], "a"));
    // Tie on the count, but the smallest distance is with the true label.
    assert_eq!(
        Q::PluralityThenMinDist,
        quality(&[("a", 1), ("a", 5), ("b", 2), ("b", 2), ("c", 7)], "a")
    );
    // Tie on the count and the other label is nearer.
    assert_eq!(Q::Contains, quality(&[("a", 3), ("a", 5), ("b", 2), ("b", 2), ("c", 7)], "a"));
    assert_eq!(Q::Contains, quality(&[("a", 3), ("b", 2), ("b", 2), ("c", 7), ("d", 1)], "a"));
}

#[test]
fn result_is_only_one_label() {
    let r = ClassificationResult::from_classifier_data(&data(&[("x", 4), ("x", 1)]));
    assert!(r.is("x"));
    assert!(!r.is("y"));
    let r = ClassificationResult::from_classifier_data(&data(&[("x", 4), ("y", 1)]));
    assert!(!r.is("x"));
}

#[test]
fn quality_names_in_order() {
    let names: Vec<String> = Q::iter_variants().iter().map(|q| q.to_string()).collect();
    assert_eq!(
        vec!["NoResult", "Wrong", "Contains", "PluralityThenMinDist", "Plurality", "Majority", "Exact"],
        names
    );
}

fn seq(n: u8) -> Sequence {
    Sequence::new(vec![Size(n)], format!("s{}", n))
}

#[test]
fn split_for_folds() {
    let data = vec![
        LabelledSequences {
            true_domain: "a.com".to_string(),
            mapped_domain: "a".to_string(),
            sequences: vec![seq(1), seq(2), seq(3)],
        },
        LabelledSequences {
            true_domain: "b.com".to_string(),
            mapped_domain: "b".to_string(),
            sequences: vec![seq(4)],
        },
    ];
    let (training, test) = split_training_test_data(&data, 1);
    assert_eq!(2, training.len());
    let ids: Vec<&str> = training[0].sequences.iter().map(|s| s.id()).collect();
    assert_eq!(vec!["s1", "s3"], ids);
    // fold 1 modulo 1 sequence leaves out the only one
    assert!(training[1].sequences.is_empty());
    // only the domain with more than one sequence gives a test entry
    assert_eq!(1, test.len());
    assert_eq!("a.com", test[0].true_domain);
    assert_eq!("s2", test[0].sequence.id());

    let (_, test) = split_training_test_data(&data, 0);
    assert_eq!(2, test.len());
    assert_eq!("s4", test[1].sequence.id());
}

#[test]
fn knn_votes_with_the_k_nearest_labels() {
    let labels: Vec<String> = ["a", "b", "a", "c"].iter().map(|s| s.to_string()).collect();
    let distances = vec![vec![1, 5, 2, 9], vec![7, 1, 8, 2], vec![3, 3, 3, 3]];
    let res = sequences::knn::knn(&labels, &distances, 2);
    assert_eq!(3, res.len());
    // two nearest: a(1), a(2)
    assert_eq!(Q::Exact, res[0].determine_quality("a"));
    // two nearest: b(1), c(2): a tie that the smaller distance breaks
    assert_eq!(Q::PluralityThenMinDist, res[1].determine_quality("b"));
    assert_eq!(Q::Wrong, res[1].determine_quality("a"));
    // equal distances keep the order: a, b; a tie on count and distance
    assert_eq!(Q::Contains, res[2].determine_quality("a"));
    assert_eq!(Q::Wrong, res[2].determine_quality("c"));
}

#[test]
fn knn_with_threshold_drops_far_neighbours() {
    let labels: Vec<String> = ["a", "b", "a"].iter().map(|s| s.to_string()).collect();
    let distances = vec![vec![4, 1, 2], vec![9, 9, 9]];
    let thresholds = vec![vec![5, 1, 5], vec![9, 9, 9]];
    let res = sequences::knn::knn_with_threshold(&labels, &distances, &thresholds, 3);
    // b is at the threshold and left out: a(2), a(4)
    assert_eq!(Q::Exact, res[0].determine_quality("a"));
    // nothing is below its threshold
    assert_eq!(Q::NoResult, res[1].determine_quality("a"));
}

#[test]
fn knn_vote_joins_tied_labels_in_order() {
    let labels: Vec<String> = ["a", "b", "b", "c"].iter().map(|s| s.to_string()).collect();
    let rows = vec![vec![1, 2, 3, 4], vec![1, 1, 5, 6], vec![9, 9, 9, 0]];
    let votes = sequences::knn::knn_vote(&labels, &rows, 3);
    assert_eq!(vec!["b".to_string(), "b".to_string(), "a - b - c".to_string()], votes);
    let labels: Vec<String> = ["c", "a", "b"].iter().map(|s| s.to_string()).collect();
    assert_eq!(vec!["a - b - c".to_string()], sequences::knn::knn_vote(&labels, &[vec![1, 2, 3]], 3));
    assert_eq!(vec!["c".to_string()], sequences::knn::knn_vote(&labels, &[vec![1, 2, 3]], 1));
    assert_eq!(vec!["a - c".to_string()], sequences::knn::knn_vote(&labels, &[vec![1, 2, 3]], 2));
}
