use sequences::sequence::Sequence;
use sequences::sequence_element::SequenceElement::{Gap, Size};
use sequences::stats::{reverse_cum_sum, sequence_stats, sort};

#[test]
fn test_reverse_cum_sum() {
    assert_eq!(Vec::<usize>::new(), reverse_cum_sum(&[]));
    assert_eq!(vec![1], reverse_cum_sum(&[1]));
    assert_eq!(vec![1, 1], reverse_cum_sum(&[0, 1]));
    assert_eq!(vec![1, 0], reverse_cum_sum(&[1, 0]));
    assert_eq!(vec![1, 1, 0], reverse_cum_sum(&[0, 1, 0]));
    assert_eq!(
        vec![10, 9, 8, 7, 6, 5, 4, 3, 2, 1],
        reverse_cum_sum(&[1, 1, 1, 1, 1, 1, 1, 1, 1, 1])
    );
}

#[test]
fn reverse_cum_sum_first_is_total() {
    let counts = [3, 0, 5, 2];
    let r = reverse_cum_sum(&counts);
    assert_eq!(vec![10, 7, 7, 2], r);
    assert_eq!(r[0], counts.iter().sum::<usize>());
}

#[test]
fn sort_orders_ascending() {
    assert_eq!(vec![1, 2, 2, 9], sort(&vec![9, 2, 1, 2]));
    assert_eq!(Vec::<usize>::new(), sort(&vec![]));
}

#[test]
fn stats_of_distance_rows() {
    let rows = vec![vec![1, 5, 3], vec![], vec![4, 4]];
    let (avg, median, avg_avg, avg_median) = sequence_stats(&rows);
    assert_eq!(vec![3, 0, 4], avg);
    assert_eq!(vec![3, 0, 4], median);
    assert_eq!(2, avg_avg);
    assert_eq!(2, avg_median);
}

#[test]
fn median_of_even_row_takes_upper_middle() {
    let rows = vec![vec![10, 1, 7, 3]];
    let (avg, median, avg_avg, avg_median) = sequence_stats(&rows);
    assert_eq!(vec![5], avg);
    assert_eq!(vec![7], median);
    assert_eq!(5, avg_avg);
    assert_eq!(7, avg_median);
}

#[test]
fn stats_of_sequences_leave_out_the_same_sequence() {
    let a = vec![
        Sequence::new(vec![Size(1)], "a".to_string()),
        Sequence::new(vec![Size(2), Gap(3)], "b".to_string()),
    ];
    let b = vec![
        Sequence::new(vec![Size(1)], "a".to_string()),
        Sequence::new(vec![Size(1)], "other".to_string()),
        Sequence::new(vec![Size(2), Gap(3)], "b".to_string()),
    ];
    // distances of a[i] to b[j]
    let d = vec![vec![0, 4, 8], vec![8, 6, 0]];
    let (avg, median, avg_avg, avg_median) = sequences::stats::sequence_stats_of(&a, &b, &d);
    // row 0 leaves out b[0] (the same sequence): [4, 8]; row 1 leaves out b[2]: [8, 6]
    assert_eq!(vec![6, 7], avg);
    assert_eq!(vec![8, 8], median);
    assert_eq!(6, avg_avg);
    assert_eq!(8, avg_median);
}
