use mev_builders::consistency::{BuilderJson, ConsistencyChecker};
use mev_builders::flatmap::FlatAggregate;

fn record(name: &str, identifier: &str, extra: Option<&str>) -> BuilderJson {
    BuilderJson {
        name: name.to_string(),
        identifier: identifier.to_string(),
        website: format!("https://{identifier}.example"),
        searcher_rpc: format!("https://rpc.{identifier}.example"),
        mev_share_rpc: None,
        extra_data: extra.map(|e| e.to_string()),
        signing: "Optional".to_string(),
        account_required: false,
    }
}

#[test]
fn set_differences_are_reported() {
    // directory keys {A, B}, stats keys {B, C}
    let builders = vec![
        record("Alpha", "alpha", Some("A")),
        record("Beta", "beta", Some("B")),
    ];
    let mut stats = FlatAggregate::new();
    stats.add("B", 12);
    stats.add("C", 7);
    let checker = ConsistencyChecker::new();
    let report = checker.check_consistency(&builders, &stats);

    assert_eq!(report.stats_not_in_builders.len(), 1);
    assert_eq!(report.stats_not_in_builders[0].0, "C");
    assert_eq!(report.stats_not_in_builders[0].1, 7);

    assert_eq!(report.builders_not_in_stats.len(), 1);
    assert_eq!(report.builders_not_in_stats[0].name, "Alpha");
    assert_eq!(report.builders_not_in_stats[0].identifier, "alpha");
    assert_eq!(report.builders_not_in_stats[0].extra_data.as_deref(), Some("A"));

    assert!(report.builders_without_extra_data.is_empty());
    assert!(report.has_issues());
}

#[test]
fn matched_datasets_have_no_issues() {
    let builders = vec![record("Alpha", "alpha", Some("A"))];
    let mut stats = FlatAggregate::new();
    stats.add("A", 3);
    let report = ConsistencyChecker::new().check_consistency(&builders, &stats);
    assert!(report.stats_not_in_builders.is_empty());
    assert!(report.builders_not_in_stats.is_empty());
    assert!(report.builders_without_extra_data.is_empty());
    assert!(!report.has_issues());
}

#[test]
fn missing_stats_keys_come_out_sorted_ascending() {
    let builders: Vec<BuilderJson> = Vec::new();
    let mut stats = FlatAggregate::new();
    stats.add("zeta", 1);
    stats.add("alpha", 2);
    stats.add("mid", 3);
    let report = ConsistencyChecker::new().check_consistency(&builders, &stats);
    let keys: Vec<&str> = report.stats_not_in_builders.iter().map(|p| p.0.as_str()).collect();
    assert_eq!(keys, vec!["alpha", "mid", "zeta"]);
}

#[test]
fn records_without_extra_data_are_listed_in_order() {
    let builders = vec![
        record("NoKey1", "nokey1", None),
        record("Keyed", "keyed", Some("K")),
        record("NoKey2", "nokey2", None),
    ];
    let stats = FlatAggregate::new();
    let report = ConsistencyChecker::new().check_consistency(&builders, &stats);
    let names: Vec<&str> =
        report.builders_without_extra_data.iter().map(|i| i.name.as_str()).collect();
    assert_eq!(names, vec!["NoKey1", "NoKey2"]);
    // an unmatched keyed record is still an issue
    assert_eq!(report.builders_not_in_stats.len(), 1);
    assert!(report.has_issues());
}

#[test]
fn default_checker_behaves_like_new() {
    let checker: ConsistencyChecker = Default::default();
    let report = checker.check_consistency(&Vec::new(), &FlatAggregate::new());
    assert!(!report.has_issues());
}
