use sequences::knn::{ClassificationResult, ClassificationResultQuality as Q, ClassifierData};
use sequences::evaluation_plan::{flatten_test_data, ks_to_test, split_labels};
use sequences::sequence::{LabelledSequence, LabelledSequences, Sequence};
use sequences::sequence_element::SequenceElement::Size;
use sequences::stats_collector::{quality_index, StatsCollector, RESULT_SLOTS};

fn slot(q: Q, with_reason: bool) -> usize {
    2 * quality_index(q) + if with_reason { 1 } else { 0 }
}

fn sample() -> StatsCollector {
    let mut c = StatsCollector::new();
    c.update(5, "a.com".to_string(), "a.com".to_string(), Q::Exact, None);
    c.update(5, "a.com".to_string(), "b.com".to_string(), Q::Wrong, Some("cdn".to_string()));
    c.update(5, "b.com".to_string(), "b.com".to_string(), Q::Majority, None);
    c.update(1, "a.com".to_string(), "a.com".to_string(), Q::Contains, Some("cdn".to_string()));
    c.update(5, "a.com".to_string(), "a.com".to_string(), Q::Exact, Some("other".to_string()));
    c
}

#[test]
fn stats_collector_new_is_empty() {
    let c = StatsCollector::new();
    assert_eq!(c.total_updates(), 0);
    assert!(c.stats_rows().is_empty());
    assert!(c.count_correct().is_empty());
    assert!(c.global_counts().is_empty());
}

#[test]
fn stats_collector_quality_index_order() {
    assert_eq!(quality_index(Q::NoResult), 0);
    assert_eq!(quality_index(Q::Wrong), 1);
    assert_eq!(quality_index(Q::Contains), 2);
    assert_eq!(quality_index(Q::PluralityThenMinDist), 3);
    assert_eq!(quality_index(Q::Plurality), 4);
    assert_eq!(quality_index(Q::Majority), 5);
    assert_eq!(quality_index(Q::Exact), 6);
}

#[test]
fn stats_collector_rows_by_k_then_first_occurrence() {
    let c = sample();
    assert_eq!(c.total_updates(), 5);
    let rows = c.stats_rows();
    let keys: Vec<(u8, &str)> = rows.iter().map(|r| (r.k, r.label.as_str())).collect();
    assert_eq!(keys, vec![(1, "a.com"), (5, "a.com"), (5, "b.com")]);

    let mut expected = vec![0usize; RESULT_SLOTS];
    expected[slot(Q::Contains, true)] = 1;
    assert_eq!(rows[0].results, expected);
    assert_eq!(rows[0].reasons, 1);

    let mut expected = vec![0usize; RESULT_SLOTS];
    expected[slot(Q::Exact, false)] = 1;
    expected[slot(Q::Exact, true)] = 1;
    expected[slot(Q::Wrong, true)] = 1;
    assert_eq!(rows[1].results, expected);
    assert_eq!(rows[1].reasons, 2);

    let mut expected = vec![0usize; RESULT_SLOTS];
    expected[slot(Q::Majority, false)] = 1;
    assert_eq!(rows[2].results, expected);
    assert_eq!(rows[2].reasons, 0);
}

#[test]
fn stats_collector_global_counts() {
    let c = sample();
    let global = c.global_counts();
    assert_eq!(global.len(), 2);
    assert_eq!(global[0].0, 1);
    assert_eq!(global[1].0, 5);
    let mut expected = vec![0usize; RESULT_SLOTS];
    expected[slot(Q::Exact, false)] = 1;
    expected[slot(Q::Exact, true)] = 1;
    expected[slot(Q::Wrong, true)] = 1;
    expected[slot(Q::Majority, false)] = 1;
    assert_eq!(global[1].1, expected);
    assert_eq!(global[0].1.iter().sum::<usize>(), 1);
}

#[test]
fn stats_collector_count_correct() {
    let c = sample();
    let counts = c.count_correct();
    assert_eq!(counts.len(), 2);
    assert_eq!(counts[0].0, 1);
    assert_eq!(counts[1].0, 5);
    // k = 5: a.com has results Exact, Wrong, Exact; b.com has Majority.
    let hist = &counts[1].1;
    assert_eq!(hist.len(), 7);
    let h = |q: Q| hist[quality_index(q)].clone();
    let expect = |pairs: &[(usize, usize)]| {
        let mut v = vec![0usize; 11];
        for &(i, n) in pairs {
            v[i] = n;
        }
        v
    };
    // every result is at least NoResult: a.com has 3, b.com has 1
    assert_eq!(h(Q::NoResult), expect(&[(3, 1), (1, 1)]));
    assert_eq!(h(Q::Wrong), expect(&[(3, 1), (1, 1)]));
    assert_eq!(h(Q::Contains), expect(&[(2, 1), (1, 1)]));
    assert_eq!(h(Q::Majority), expect(&[(2, 1), (1, 1)]));
    assert_eq!(h(Q::Exact), expect(&[(2, 1), (0, 1)]));
    // k = 1: a.com has one Contains result
    let hist1 = &counts[0].1;
    assert_eq!(hist1[quality_index(Q::Contains)], expect(&[(1, 1)]));
    assert_eq!(hist1[quality_index(Q::Plurality)], expect(&[(0, 1)]));
}

#[test]
fn stats_collector_evaluate_rates_and_counts() {
    let result = |labels: &[&str]| {
        let data: Vec<ClassifierData> =
            labels.iter().enumerate().map(|(i, l)| ClassifierData { label: l.to_string(), distance: i }).collect();
        ClassificationResult::from_classifier_data(&data)
    };
    let results = vec![result(&["a.com", "a.com"]), result(&["b.com", "c.com"]), result(&[])];
    let labels = vec![
        ("a.com".to_string(), "a.com".to_string()),
        ("x.com".to_string(), "b.com".to_string()),
        ("y.com".to_string(), "y.com".to_string()),
    ];
    let reasons = vec![None, Some("cdn".to_string()), None];
    let mut c = StatsCollector::new();
    c.evaluate(3, &results, &labels, &reasons);
    assert_eq!(c.total_updates(), 3);
    let rows = c.stats_rows();
    assert_eq!(rows.len(), 3);
    assert_eq!(rows[0].label, "a.com");
    assert_eq!(rows[0].results[slot(Q::Exact, false)], 1);
    assert_eq!(rows[1].label, "x.com");
    assert_eq!(rows[1].results[slot(Q::PluralityThenMinDist, true)], 1);
    assert_eq!(rows[1].reasons, 1);
    assert_eq!(rows[2].results[slot(Q::NoResult, false)], 1);
}

#[test]
fn evaluation_plan_ks_and_labels() {
    assert_eq!(ks_to_test(7, None), vec![1, 3, 5, 7]);
    assert_eq!(ks_to_test(8, None), vec![1, 3, 5, 7]);
    assert_eq!(ks_to_test(0, None), Vec::<usize>::new());
    assert_eq!(ks_to_test(9, Some(4)), vec![4]);
    let seq = |n: u8| Sequence::new(vec![Size(n)], format!("s{}", n));
    let data = vec![
        LabelledSequences { true_domain: "a.com".to_string(), mapped_domain: "b.com".to_string(), sequences: vec![seq(1), seq(2)] },
        LabelledSequences { true_domain: "c.com".to_string(), mapped_domain: "c.com".to_string(), sequences: vec![] },
        LabelledSequences { true_domain: "d.com".to_string(), mapped_domain: "d.com".to_string(), sequences: vec![seq(3)] },
    ];
    let (labels, sequences) = flatten_test_data(data);
    assert_eq!(
        labels,
        vec![
            ("a.com".to_string(), "b.com".to_string()),
            ("a.com".to_string(), "b.com".to_string()),
            ("d.com".to_string(), "d.com".to_string()),
        ]
    );
    let ids: Vec<&str> = sequences.iter().map(|s| s.id()).collect();
    assert_eq!(ids, vec!["s1", "s2", "s3"]);
    let test = vec![LabelledSequence { true_domain: "x".to_string(), mapped_domain: "y".to_string(), sequence: seq(9) }];
    let (labels, sequences) = split_labels(test);
    assert_eq!(labels, vec![("x".to_string(), "y".to_string())]);
    assert_eq!(sequences[0].id(), "s9");
}
