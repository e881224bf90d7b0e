use wasimlarth::kmeans::{cluster_counts, majority_map, max_or_zero, parse_args, relabel, ArgError};
use wasimlarth::metrics::{class_counts, count_correct, ClassCounts};

fn strings(items: &[&str]) -> Vec<String> {
    items.iter().map(|s| s.to_string()).collect()
}

#[test]
fn majority_map_picks_most_frequent_label() {
    let clusters = vec![0, 0, 0, 1, 1, 2];
    let labels = vec![1, 1, 0, 2, 2, 0];
    assert_eq!(majority_map(&clusters, &labels, 3), vec![1, 2, 0]);
}

#[test]
fn majority_map_breaks_ties_towards_smaller_label() {
    let clusters = vec![0, 0, 0, 0];
    let labels = vec![3, 1, 3, 1];
    assert_eq!(majority_map(&clusters, &labels, 1), vec![1]);
}

#[test]
fn majority_map_gives_empty_cluster_label_zero() {
    let clusters = vec![0, 0, 2];
    let labels = vec![4, 4, 5];
    assert_eq!(majority_map(&clusters, &labels, 3), vec![4, 0, 5]);
}

#[test]
fn majority_map_counts_only_zipped_positions() {
    // The last label is not paired with any cluster but still widens the label range.
    let clusters = vec![0, 1];
    let labels = vec![2, 2, 7];
    assert_eq!(majority_map(&clusters, &labels, 2), vec![2, 2]);
    // Extra clusters beyond the labels are ignored as well.
    let clusters = vec![0, 0, 1, 1];
    let labels = vec![3, 3];
    assert_eq!(majority_map(&clusters, &labels, 2), vec![3, 0]);
}

#[test]
fn majority_map_with_no_points() {
    assert_eq!(majority_map(&[], &[], 2), vec![0, 0]);
    assert_eq!(majority_map(&[], &[], 0), Vec::<usize>::new());
}

#[test]
fn relabel_applies_mapping() {
    let clusters = vec![2, 0, 1, 2];
    let mapping = vec![7, 8, 9];
    assert_eq!(relabel(&clusters, &mapping), vec![9, 7, 8, 9]);
    assert_eq!(relabel(&[], &mapping), Vec::<usize>::new());
}

#[test]
fn majority_mapping_beats_every_other_mapping() {
    let clusters = vec![0, 0, 1, 1, 1, 2, 2, 0];
    let labels = vec![1, 1, 0, 0, 1, 2, 0, 2];
    let best = majority_map(&clusters, &labels, 3);
    let best_correct = count_correct(&labels, &relabel(&clusters, &best));
    assert_eq!(best, vec![1, 0, 0]);
    assert_eq!(best_correct, 5);
    for a in 0..4 {
        for b in 0..4 {
            for c in 0..4 {
                let other = vec![a, b, c];
                assert!(count_correct(&labels, &relabel(&clusters, &other)) <= best_correct);
            }
        }
    }
}

#[test]
fn cluster_counts_counts_points() {
    let assign = vec![1, 0, 1, 3, 1];
    let counts = cluster_counts(&assign, 4);
    assert_eq!(counts, vec![1, 3, 0, 1]);
    assert_eq!(counts.iter().sum::<usize>(), assign.len());
    assert_eq!(cluster_counts(&[], 2), vec![0, 0]);
}

#[test]
fn count_correct_over_zipped_positions() {
    assert_eq!(count_correct(&[1, 2, 3, 4], &[1, 0, 3]), 2);
    assert_eq!(count_correct(&[], &[1]), 0);
    assert_eq!(count_correct(&[5, 5], &[5, 5]), 2);
}

#[test]
fn class_counts_confusion() {
    let y_true = vec![0, 1, 1, 2, 2];
    let y_pred = vec![0, 1, 2, 2, 0];
    let counts = class_counts(&y_true, &y_pred);
    assert_eq!(
        counts,
        vec![
            ClassCounts { tp: 1, fp: 1, fn_: 0 },
            ClassCounts { tp: 1, fp: 0, fn_: 1 },
            ClassCounts { tp: 1, fp: 1, fn_: 1 },
        ]
    );
    let tp_total: usize = counts.iter().map(|c| c.tp).sum();
    assert_eq!(tp_total, count_correct(&y_true, &y_pred));
}

#[test]
fn class_counts_covers_largest_label_of_either_side() {
    let counts = class_counts(&[0, 0], &[0, 3]);
    assert_eq!(counts.len(), 4);
    assert_eq!(counts[3], ClassCounts { tp: 0, fp: 1, fn_: 0 });
    assert_eq!(counts[0], ClassCounts { tp: 1, fp: 0, fn_: 1 });
    // Labels beyond the zipped range widen the classes but are not counted.
    let counts = class_counts(&[0, 5], &[0]);
    assert_eq!(counts.len(), 6);
    assert_eq!(counts[5], ClassCounts { tp: 0, fp: 0, fn_: 0 });
    assert_eq!(class_counts(&[], &[]), vec![ClassCounts { tp: 0, fp: 0, fn_: 0 }]);
}

#[test]
fn class_counts_marginals() {
    let y_true = vec![2, 0, 1, 2, 1, 1];
    let y_pred = vec![2, 1, 1, 0, 1, 2];
    let counts = class_counts(&y_true, &y_pred);
    for (c, cc) in counts.iter().enumerate() {
        let predicted = y_pred.iter().filter(|&&p| p == c).count();
        let actual = y_true.iter().filter(|&&t| t == c).count();
        assert_eq!(cc.tp + cc.fp, predicted);
        assert_eq!(cc.tp + cc.fn_, actual);
    }
}

#[test]
fn max_or_zero_values() {
    assert_eq!(max_or_zero(&[]), 0);
    assert_eq!(max_or_zero(&[3, 9, 2]), 9);
}

#[test]
fn kmeans_args_defaults() {
    let args = strings(&["kmeans"]);
    assert_eq!(parse_args(&args), Ok((String::new(), 3, 20, 10)));
    assert_eq!(parse_args(&[]), Ok((String::new(), 3, 20, 10)));
}

#[test]
fn kmeans_args_all_options() {
    let args = strings(&[
        "kmeans", "--dataset", "data/x.csv", "--k", "5", "--max-iters", "+7", "extra", "--trials", "2",
    ]);
    assert_eq!(parse_args(&args), Ok(("data/x.csv".to_string(), 5, 7, 2)));
}

#[test]
fn kmeans_args_later_option_wins() {
    let args = strings(&["kmeans", "--k", "4", "--k", "6"]);
    assert_eq!(parse_args(&args), Ok((String::new(), 6, 20, 10)));
}

#[test]
fn kmeans_args_program_name_is_not_an_option() {
    let args = strings(&["--k", "8"]);
    // "--k" at index 0 is the program name; "8" is then an ignored argument.
    assert_eq!(parse_args(&args), Ok((String::new(), 3, 20, 10)));
}

#[test]
fn kmeans_args_missing_value() {
    let args = strings(&["kmeans", "--trials"]);
    assert_eq!(parse_args(&args), Err(ArgError::MissingValue));
    let args = strings(&["kmeans", "--dataset"]);
    assert_eq!(parse_args(&args), Err(ArgError::MissingValue));
}

#[test]
fn kmeans_args_invalid_number() {
    let args = strings(&["kmeans", "--k", "three"]);
    assert_eq!(parse_args(&args), Err(ArgError::InvalidNumber));
    let args = strings(&["kmeans", "--max-iters", "-1"]);
    assert_eq!(parse_args(&args), Err(ArgError::InvalidNumber));
}
