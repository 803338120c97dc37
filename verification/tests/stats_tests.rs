use time_back::stats::{calculate_avg, calculate_median, calculate_sum};

fn secs(v: &[u64]) -> Vec<u64> {
    v.iter().map(|s| s * 1000).collect()
}

fn as_float_secs(rows: &[(String, u64)]) -> Vec<(&str, f64)> {
    rows.iter().map(|(k, v)| (k.as_str(), *v as f64 / 2000.0)).collect()
}

#[test]
fn should_calculate_median_with_no_data() {
    let data: Vec<(String, Vec<u64>)> = Vec::new();
    let vec: Vec<(&str, f64)> = vec![];
    assert_eq!(vec, as_float_secs(&calculate_median(&data)));
}

#[test]
fn should_calculate_median_with_single_data_odd() {
    let data = vec![("time_back".to_string(), secs(&[1, 15, 40, 2, 4]))];
    let vec = vec![("time_back", 4.0)];
    assert_eq!(vec, as_float_secs(&calculate_median(&data)));
}

#[test]
fn should_calculate_median_with_single_data_even() {
    let data = vec![("time_back".to_string(), secs(&[5, 1, 15, 40, 2, 4]))];
    let vec = vec![("time_back", 4.5)];
    assert_eq!(vec, as_float_secs(&calculate_median(&data)));
}

#[test]
fn should_calculate_median_with_multiple_odd_data() {
    let data = vec![
        ("time_back".to_string(), secs(&[5, 1, 15, 40, 2, 4])),
        ("something-else".to_string(), secs(&[4, 10, 1, 20, 41])),
    ];
    let vec = vec![("something-else", 10.), ("time_back", 4.5)];
    assert_eq!(vec, as_float_secs(&calculate_median(&data)));
}

#[test]
fn sum_orders_descending() {
    let data = vec![
        ("small".to_string(), vec![1000, 2000]),
        ("big".to_string(), vec![4000, 5000]),
    ];
    let r = calculate_sum(&data);
    assert_eq!(r.len(), 2);
    assert_eq!(r[0], ("big".to_string(), 9000));
    assert_eq!(r[1], ("small".to_string(), 3000));
}

#[test]
fn sum_of_empty_group_list_is_empty() {
    let data: Vec<(String, Vec<u64>)> = Vec::new();
    assert!(calculate_sum(&data).is_empty());
}

#[test]
fn avg_divisor_is_the_file_count_for_every_label() {
    // One label seen in two files, one seen in only one of five scanned
    // files: both rows carry the full file count as divisor.
    let data = vec![
        ("often".to_string(), vec![1000, 3000]),
        ("rare".to_string(), vec![10_000]),
    ];
    let r = calculate_avg(&data, 5);
    assert_eq!(r.len(), 2);
    for row in &r {
        assert_eq!(row.2, 5);
    }
    assert_eq!(r[0], ("rare".to_string(), 10_000, 5));
    assert_eq!(r[1], ("often".to_string(), 4000, 5));
    assert_eq!(r[1].1 as f64 / r[1].2 as f64 / 1000.0, 0.8);
}

#[test]
fn median_saturates_on_huge_values() {
    let data = vec![("huge".to_string(), vec![u64::MAX, u64::MAX])];
    let r = calculate_median(&data);
    assert_eq!(r[0].1, u64::MAX);
}
