use mev_builders::flatmap::FlatAggregate;
use mev_builders::stats_json::{parse_stats_json, stats_to_json};
use mev_builders::StatsError;

#[test]
fn renders_entries_in_given_order() {
    let pairs = vec![("a".to_string(), 1u64), ("b".to_string(), 2u64)];
    assert_eq!(stats_to_json(&pairs), "{\n  \"a\": 1,\n  \"b\": 2\n}");
    let empty: Vec<(String, u64)> = Vec::new();
    assert_eq!(stats_to_json(&empty), "{}");
}

#[test]
fn escapes_quotes_backslashes_and_controls() {
    let pairs = vec![("a\"b\\c\nd".to_string(), 3u64)];
    assert_eq!(stats_to_json(&pairs), "{\n  \"a\\\"b\\\\c\\u000ad\": 3\n}");
}

#[test]
fn round_trip_reproduces_the_mapping() {
    let mut total = FlatAggregate::new();
    total.add("beaverbuild.org", 982345);
    total.add("Titan (titanbuilder.xyz)", 874560);
    total.add("", 17);
    total.add("odd \"key\" with \\ and \t tab", 5);
    let pairs = total.sorted_entries_desc();
    let text = stats_to_json(&pairs);
    let back = parse_stats_json(&text).expect("written stats parse back");
    assert_eq!(back.get("beaverbuild.org"), Some(982345));
    assert_eq!(back.get("Titan (titanbuilder.xyz)"), Some(874560));
    assert_eq!(back.get(""), Some(17));
    assert_eq!(back.get("odd \"key\" with \\ and \t tab"), Some(5));
    assert_eq!(back.get("missing"), None);
}

#[test]
fn parses_foreign_layouts() {
    let m = parse_stats_json("  { \"a\" : 1 , \"b\":22 }  ").unwrap();
    assert_eq!(m.get("a"), Some(1));
    assert_eq!(m.get("b"), Some(22));
    let m2 = parse_stats_json("{}").unwrap();
    assert_eq!(m2.get("a"), None);
    let m3 = parse_stats_json("{\"\\u0041\": 1, \"\\t\": 2}").unwrap();
    assert_eq!(m3.get("A"), Some(1));
    assert_eq!(m3.get("\t"), Some(2));
}

#[test]
fn duplicate_keys_keep_the_last_value() {
    let m = parse_stats_json("{\"a\": 1, \"a\": 9}").unwrap();
    assert_eq!(m.get("a"), Some(9));
}

#[test]
fn malformed_documents_are_parse_failures() {
    for bad in [
        "",
        "[]",
        "{",
        "{\"a\": }",
        "{\"a\": 1,}",
        "{\"a\": -1}",
        "{\"a\": 1} trailing",
        "{\"a\\q\": 1}",
        "{\"a\": 18446744073709551616}",
        "{\"a\": 1 \"b\": 2}",
    ] {
        assert!(
            matches!(parse_stats_json(bad), Err(StatsError::JsonParseFailure)),
            "should fail to parse: {bad}"
        );
    }
    // the largest representable count still parses
    let m = parse_stats_json("{\"a\": 18446744073709551615}").unwrap();
    assert_eq!(m.get("a"), Some(u64::MAX));
}

#[test]
fn flat_accumulation_sums_per_key() {
    let mut total = FlatAggregate::new();
    total.add("A", 10);
    let mut day = FlatAggregate::new();
    day.add("A", 5);
    day.add("B", 2);
    total.add_all(&day);
    assert_eq!(total.get("A"), Some(15));
    assert_eq!(total.get("B"), Some(2));
    let pairs = total.sorted_entries_desc();
    assert_eq!(pairs[0].0, "A");
    assert_eq!(pairs[0].1, 15);
    assert_eq!(pairs[1].0, "B");
}

#[test]
fn equal_counts_keep_insertion_order() {
    let mut total = FlatAggregate::new();
    total.add("early", 4);
    total.add("later", 4);
    total.add("big", 9);
    let pairs = total.sorted_entries_desc();
    let keys: Vec<&str> = pairs.iter().map(|p| p.0.as_str()).collect();
    assert_eq!(keys, vec!["big", "early", "later"]);
}
