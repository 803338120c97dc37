use time_back::history::{aggregate_history, group_history};

#[test]
fn groups_collect_durations_per_label_across_files() {
    let files = vec![
        "{\"a\":1000,\"b\":2000}".to_string(),
        "{\"b\":3000}".to_string(),
    ];
    let groups = group_history(&files);
    assert_eq!(groups.len(), 2);
    assert_eq!(groups[0], ("a".to_string(), vec![1000]));
    assert_eq!(groups[1], ("b".to_string(), vec![2000, 3000]));
}

#[test]
fn unparseable_files_are_skipped_but_counted() {
    let files = vec![
        "{\"a\":1000}".to_string(),
        "corrupt".to_string(),
        "{\"a\":3000}".to_string(),
    ];
    let agg = aggregate_history(&files);
    assert_eq!(agg.file_count, 3);
    assert_eq!(agg.groups, vec![("a".to_string(), vec![1000, 3000])]);
    assert_eq!(agg.sums, vec![("a".to_string(), 4000)]);
    // The average divides by every file scanned, the corrupt one included.
    assert_eq!(agg.avgs, vec![("a".to_string(), 4000, 3)]);
}

#[test]
fn aggregate_orders_each_statistic_descending() {
    let files = vec![
        "{\"time_back\":5000,\"something-else\":4000}".to_string(),
        "{\"time_back\":1000,\"something-else\":10000}".to_string(),
        "{\"time_back\":15000,\"something-else\":1000}".to_string(),
        "{\"time_back\":40000,\"something-else\":20000}".to_string(),
        "{\"time_back\":2000,\"something-else\":41000}".to_string(),
        "{\"time_back\":4000}".to_string(),
    ];
    let agg = aggregate_history(&files);
    assert_eq!(agg.file_count, 6);
    // Medians: time_back over six values -> 4.5 s doubled; something-else
    // over five values -> 10 s doubled; descending by value.
    assert_eq!(
        agg.medians,
        vec![("something-else".to_string(), 20000), ("time_back".to_string(), 9000)]
    );
    // Sums descending: 67 s for time_back, 76 s for something-else.
    assert_eq!(
        agg.sums,
        vec![("something-else".to_string(), 76000), ("time_back".to_string(), 67000)]
    );
    for row in &agg.avgs {
        assert_eq!(row.2, 6);
    }
}

#[test]
fn no_files_give_an_empty_aggregate() {
    let files: Vec<String> = Vec::new();
    let agg = aggregate_history(&files);
    assert_eq!(agg.file_count, 0);
    assert!(agg.groups.is_empty());
    assert!(agg.sums.is_empty());
    assert!(agg.avgs.is_empty());
    assert!(agg.medians.is_empty());
}
