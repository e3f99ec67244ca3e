use mev_builders::aggregate::{
    aggregate_builders, doc_weight_fits, BuilderInfo, ChildBuilder, RelayBuilder,
};
use mev_builders::merge::{merge_hierarchical_data, merge_weight_fits};
use mev_builders::StatsError;

fn parent(key: &str, blocks: u64, children: Option<Vec<(&str, u64)>>) -> RelayBuilder {
    RelayBuilder {
        info: BuilderInfo { extra_data: key.to_string(), num_blocks: blocks },
        children: children.map(|cs| {
            cs.into_iter()
                .map(|(k, b)| ChildBuilder { extra_data: k.to_string(), num_blocks: b })
                .collect()
        }),
    }
}

#[test]
fn one_parent_one_child_aggregates_flat_and_tree() {
    let doc = vec![parent("A", 10, Some(vec![("B", 5)]))];
    assert!(doc_weight_fits(&doc));
    let (tree, flat) = aggregate_builders(doc);
    assert_eq!(flat.get("A"), Some(10));
    assert_eq!(flat.get("B"), Some(5));
    assert_eq!(flat.get("C"), None);
    assert_eq!(tree.len(), 1);
    assert_eq!(tree[0].name, "A");
    assert_eq!(tree[0].blocks, 10);
    assert_eq!(tree[0].children.len(), 1);
    assert_eq!(tree[0].children[0].name, "B");
    assert_eq!(tree[0].children[0].blocks, 5);
}

#[test]
fn keys_are_trimmed_and_shared_between_parents_and_children() {
    let doc = vec![
        parent("  acme  ", 7, Some(vec![(" sub ", 2)])),
        parent("sub", 3, None),
    ];
    assert!(doc_weight_fits(&doc));
    let (tree, flat) = aggregate_builders(doc);
    // the child "sub" and the unrelated parent "sub" share one key
    assert_eq!(flat.get("acme"), Some(7));
    assert_eq!(flat.get("sub"), Some(5));
    assert_eq!(tree[0].name, "acme");
    assert_eq!(tree[0].children[0].name, "sub");
}

#[test]
fn empty_keys_participate() {
    let doc = vec![parent("", 4, None), parent("   ", 6, None)];
    let (_, flat) = aggregate_builders(doc);
    assert_eq!(flat.get(""), Some(10));
}

#[test]
fn aggregate_sorts_both_levels_descending() {
    let doc = vec![
        parent("low", 1, None),
        parent("high", 9, Some(vec![("c1", 2), ("c2", 8), ("c3", 5)])),
        parent("mid", 4, None),
    ];
    let (tree, _) = aggregate_builders(doc);
    assert_eq!(
        tree.iter().map(|b| b.name.as_str()).collect::<Vec<_>>(),
        vec!["high", "mid", "low"]
    );
    assert_eq!(
        tree[0].children.iter().map(|c| c.blocks).collect::<Vec<_>>(),
        vec![8, 5, 2]
    );
}

#[test]
fn doc_weight_overflow_is_detected() {
    let doc = vec![parent("a", u64::MAX, None), parent("b", 1, None)];
    assert!(!doc_weight_fits(&doc));
}

#[test]
fn merge_sums_shared_keys_in_either_order() {
    let (day1, _) = aggregate_builders(vec![parent("A", 10, None)]);
    let (day2, _) = aggregate_builders(vec![parent("A", 15, None)]);
    let (day1b, _) = aggregate_builders(vec![parent("A", 10, None)]);
    let (day2b, _) = aggregate_builders(vec![parent("A", 15, None)]);

    let forward = vec![day1, day2];
    assert!(merge_weight_fits(&forward));
    let merged = merge_hierarchical_data(forward).unwrap();
    assert_eq!(merged.len(), 1);
    assert_eq!(merged[0].name, "A");
    assert_eq!(merged[0].blocks, 25);

    let backward = vec![day2b, day1b];
    let merged_rev = merge_hierarchical_data(backward).unwrap();
    assert_eq!(merged_rev[0].name, "A");
    assert_eq!(merged_rev[0].blocks, 25);
}

#[test]
fn merge_of_empty_day_list_is_no_data_available() {
    assert!(matches!(
        merge_hierarchical_data(Vec::new()),
        Err(StatsError::NoDataAvailable)
    ));
}

#[test]
fn merge_of_single_day_keeps_totals() {
    let (day, _) = aggregate_builders(vec![
        parent("A", 10, Some(vec![("x", 1), ("y", 2)])),
        parent("B", 20, None),
    ]);
    let merged = merge_hierarchical_data(vec![day]).unwrap();
    assert_eq!(merged.len(), 2);
    assert_eq!(merged[0].name, "B");
    assert_eq!(merged[0].blocks, 20);
    assert_eq!(merged[1].name, "A");
    assert_eq!(merged[1].blocks, 10);
    assert_eq!(
        merged[1].children.iter().map(|c| (c.name.as_str(), c.blocks)).collect::<Vec<_>>(),
        vec![("y", 2), ("x", 1)]
    );
}

#[test]
fn merge_with_itself_doubles_counts() {
    let (day1, _) = aggregate_builders(vec![parent("A", 10, Some(vec![("x", 3)]))]);
    let (day2, _) = aggregate_builders(vec![parent("A", 10, Some(vec![("x", 3)]))]);
    let merged = merge_hierarchical_data(vec![day1, day2]).unwrap();
    assert_eq!(merged[0].blocks, 20);
    assert_eq!(merged[0].children[0].blocks, 6);
}

#[test]
fn merge_collects_children_across_days_and_parents() {
    let (day1, _) = aggregate_builders(vec![parent("A", 1, Some(vec![("x", 1)]))]);
    let (day2, _) = aggregate_builders(vec![parent("A", 2, Some(vec![("z", 9), ("x", 4)]))]);
    let merged = merge_hierarchical_data(vec![day1, day2]).unwrap();
    assert_eq!(merged.len(), 1);
    assert_eq!(merged[0].blocks, 3);
    assert_eq!(
        merged[0].children.iter().map(|c| (c.name.as_str(), c.blocks)).collect::<Vec<_>>(),
        vec![("z", 9), ("x", 5)]
    );
}

#[test]
fn equal_counts_keep_encounter_order() {
    let doc = vec![
        parent("first", 5, Some(vec![("ca", 2), ("cb", 2), ("cc", 2)])),
        parent("second", 5, None),
        parent("third", 5, None),
    ];
    let (tree, _) = aggregate_builders(doc);
    assert_eq!(
        tree.iter().map(|b| b.name.as_str()).collect::<Vec<_>>(),
        vec!["first", "second", "third"]
    );
    assert_eq!(
        tree[0].children.iter().map(|c| c.name.as_str()).collect::<Vec<_>>(),
        vec!["ca", "cb", "cc"]
    );
}
