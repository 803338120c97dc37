use time_back::codec::{encode_snapshot, parse_snapshot};

fn pairs(v: &[(&str, u64)]) -> Vec<(String, u64)> {
    v.iter().map(|(k, n)| (k.to_string(), *n)).collect()
}

#[test]
fn encodes_a_plain_snapshot() {
    let p = pairs(&[("firefox", 1500), ("code", 42)]);
    assert_eq!(encode_snapshot(&p), "{\"firefox\":1500,\"code\":42}");
}

#[test]
fn encodes_the_empty_snapshot() {
    let p: Vec<(String, u64)> = Vec::new();
    assert_eq!(encode_snapshot(&p), "{}");
}

#[test]
fn round_trips_a_plain_snapshot() {
    let p = pairs(&[("firefox", 1500), ("code", 42), ("", 7)]);
    let text = encode_snapshot(&p);
    assert_eq!(parse_snapshot(&text), Some(p));
}

#[test]
fn round_trips_labels_needing_escapes() {
    let p = vec![
        ("quote\"inside".to_string(), 1),
        ("back\\slash".to_string(), 2),
        ("both\"\\ and unicode \u{e9}\u{4e16}".to_string(), u64::MAX),
    ];
    let text = encode_snapshot(&p);
    assert_eq!(parse_snapshot(&text), Some(p));
}

#[test]
fn round_trips_the_empty_snapshot() {
    let p: Vec<(String, u64)> = Vec::new();
    let text = encode_snapshot(&p);
    assert_eq!(parse_snapshot(&text), Some(p));
}

#[test]
fn parses_a_handwritten_snapshot() {
    let r = parse_snapshot("{\"a\":1,\"b\":22}").unwrap();
    assert_eq!(r, pairs(&[("a", 1), ("b", 22)]));
}

#[test]
fn rejects_malformed_snapshots() {
    for bad in [
        "",
        "{",
        "}",
        "{}}",
        "not json",
        "{\"a\":}",
        "{\"a\"1}",
        "{\"a\":1",
        "{\"a\":1,}",
        "{a:1}",
        "{\"a\":-1}",
        "{\"a\":1 }",
        "{\"unterminated:1}",
        "{\"a\":18446744073709551616}",
    ] {
        assert_eq!(parse_snapshot(bad), None, "accepted {:?}", bad);
    }
}

#[test]
fn parses_the_largest_value() {
    let r = parse_snapshot("{\"a\":18446744073709551615}").unwrap();
    assert_eq!(r, pairs(&[("a", u64::MAX)]));
}
