use time_back::codec::{encode_snapshot, parse_snapshot};
use time_back::store::{labels_unique, AggregateStore};

fn sorted_pairs(store: &AggregateStore) -> Vec<(String, u64)> {
    let mut p = store.pairs();
    p.sort();
    p
}

#[test]
fn increment_inserts_and_accumulates() {
    let mut s = AggregateStore::new();
    assert!(s.pairs().is_empty());
    s.increment(&"firefox".to_string(), 50);
    s.increment(&"firefox".to_string(), 50);
    s.increment(&"code".to_string(), 50);
    assert_eq!(
        sorted_pairs(&s),
        vec![("code".to_string(), 50), ("firefox".to_string(), 100)]
    );
}

#[test]
fn increment_saturates_at_the_top() {
    let mut s = AggregateStore::new();
    s.increment(&"k".to_string(), u64::MAX - 1);
    s.increment(&"k".to_string(), 10);
    assert_eq!(s.pairs(), vec![("k".to_string(), u64::MAX)]);
}

#[test]
fn many_writers_worth_of_increments_lose_nothing() {
    // The sum of every notional writer's increments is the final value.
    let mut s = AggregateStore::new();
    let writers: u64 = 8;
    let per_writer: u64 = 1000;
    for w in 0..writers {
        for _ in 0..per_writer {
            s.increment(&"shared".to_string(), 1);
        }
        let now: u64 = s
            .pairs()
            .into_iter()
            .find(|(k, _)| k == "shared")
            .map(|(_, v)| v)
            .unwrap();
        assert_eq!(now, (w + 1) * per_writer);
    }
}

#[test]
fn snapshot_round_trips_through_the_file_format() {
    let mut s = AggregateStore::new();
    s.increment(&"firefox".to_string(), 1500);
    s.increment(&"a \"quoted\" app".to_string(), 250);
    let text = encode_snapshot(&s.pairs());
    let loaded = parse_snapshot(&text).expect("own encoding must parse");
    assert!(labels_unique(&loaded));
    let reloaded = AggregateStore::from_pairs(&loaded);
    assert_eq!(sorted_pairs(&s), sorted_pairs(&reloaded));
}

#[test]
fn labels_unique_spots_a_duplicate() {
    let good = vec![("a".to_string(), 1), ("b".to_string(), 2)];
    let bad = vec![("a".to_string(), 1), ("a".to_string(), 2)];
    assert!(labels_unique(&good));
    assert!(!labels_unique(&bad));
}
