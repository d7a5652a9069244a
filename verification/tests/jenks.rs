use jenks_breaks::{compute_natural_breaks, ssd_numerator, JenksError};

#[test]
fn scenario_nine_points_three_classes() {
    let data: Vec<i64> = vec![1, 2, 3, 4, 5, 6, 7, 8, 9];
    assert_eq!(compute_natural_breaks(&data, 3), Ok(vec![3, 6]));
}

#[test]
fn scenario_two_plateaus_two_classes() {
    let data: Vec<i64> = vec![1, 1, 1, 5, 5, 5];
    assert_eq!(compute_natural_breaks(&data, 2), Ok(vec![3]));
    // the achieved total variance is zero: both classes deviate not at all
    assert_eq!(ssd_numerator(&data, 0, 3), 0);
    assert_eq!(ssd_numerator(&data, 3, 6), 0);
}

#[test]
fn zero_classes_rejected() {
    let data: Vec<i64> = vec![1, 2, 3];
    assert_eq!(compute_natural_breaks(&data, 0), Err(JenksError::ZeroClasses));
    assert_eq!(
        JenksError::ZeroClasses.message(),
        "Number of classes must be a positive integer."
    );
}

#[test]
fn empty_data_one_class_rejected() {
    // with no observations, even a single class exceeds the data
    let data: Vec<i64> = vec![];
    assert_eq!(compute_natural_breaks(&data, 1), Err(JenksError::TooManyClasses));
}

#[test]
fn too_many_classes_rejected() {
    let data: Vec<i64> = vec![1, 2, 3];
    assert_eq!(compute_natural_breaks(&data, 5), Err(JenksError::TooManyClasses));
    assert_eq!(
        JenksError::TooManyClasses.message(),
        "Number of classes cannot exceed number of data points."
    );
}

#[test]
fn unsorted_input_rejected() {
    let data: Vec<i64> = vec![3, 1, 2];
    assert_eq!(compute_natural_breaks(&data, 2), Err(JenksError::UnsortedInput));
    assert_eq!(JenksError::UnsortedInput.message(), "The input array must be sorted.");
}

#[test]
fn one_class_no_breaks() {
    let data: Vec<i64> = vec![2, 4, 4, 10];
    assert_eq!(compute_natural_breaks(&data, 1), Ok(vec![]));
}

#[test]
fn ssd_matches_two_pass_computation() {
    // hold the prefix-sum shortcut against a brute-force deviation sum:
    // with S the total and n the count, n * ssd_numerator == sum of
    // (n * x - S)^2, i.e. n^2 times the sum of squared deviations from
    // the mean S / n.
    let data: Vec<i64> = vec![1, 2, 3, 4, 5, 6, 7, 8, 9];
    let n = data.len() as i128;
    let total: i128 = data.iter().map(|v| *v as i128).sum();
    let brute: i128 = data
        .iter()
        .map(|v| {
            let e = n * (*v as i128) - total;
            e * e
        })
        .sum();
    assert_eq!(n * ssd_numerator(&data, 0, data.len()), brute);
    // mean 5, squared deviations sum to 60, numerator is width times that
    assert_eq!(ssd_numerator(&data, 0, 9), 540);
}

#[test]
fn each_observation_its_own_class() {
    let data: Vec<i64> = vec![10, 20, 30];
    assert_eq!(compute_natural_breaks(&data, 3), Ok(vec![1, 2]));
    // every singleton class has zero internal deviation
    assert_eq!(ssd_numerator(&data, 0, 1), 0);
    assert_eq!(ssd_numerator(&data, 1, 2), 0);
    assert_eq!(ssd_numerator(&data, 2, 3), 0);
}

#[test]
fn determinism_two_calls() {
    let data: Vec<i64> = vec![1, 2, 2, 3, 7, 8, 9, 9];
    let first = compute_natural_breaks(&data, 3);
    let second = compute_natural_breaks(&data, 3);
    assert_eq!(first, second);
}

#[test]
fn more_classes_never_worse() {
    // the achieved total within-class variance never grows when the class
    // count grows; each class's variance is ssd_numerator / width
    let data: Vec<i64> = vec![1, 2, 2, 3, 7, 8, 9, 20, 21];
    let n = data.len();
    let mut last = f64::INFINITY;
    for k in 1..=n {
        let breaks = compute_natural_breaks(&data, k).unwrap();
        let mut cuts: Vec<usize> = vec![0];
        cuts.extend(breaks.iter().copied());
        cuts.push(n);
        let mut total = 0.0_f64;
        for t in 0..cuts.len() - 1 {
            let (a, b) = (cuts[t], cuts[t + 1]);
            total += ssd_numerator(&data, a, b) as f64 / (b - a) as f64;
        }
        assert!(total <= last + 1e-9);
        last = total;
    }
}

#[test]
fn full_capacity_input() {
    // the largest supported shape: 20 observations at the magnitude bounds
    let mut data: Vec<i64> = Vec::new();
    for _ in 0..10 {
        data.push(-1_000_000);
    }
    for _ in 0..10 {
        data.push(1_000_000);
    }
    assert_eq!(compute_natural_breaks(&data, 2), Ok(vec![10]));
    assert_eq!(ssd_numerator(&data, 0, 10), 0);
    assert_eq!(ssd_numerator(&data, 10, 20), 0);
}

#[test]
fn leftmost_tie_break_kept() {
    // four equal observations, two classes: every split is equally good,
    // and the scan keeps the first (leftmost) one
    let data: Vec<i64> = vec![4, 4, 4, 4];
    assert_eq!(compute_natural_breaks(&data, 2), Ok(vec![1]));
}
