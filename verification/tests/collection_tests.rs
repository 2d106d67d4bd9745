use schema_builder_library::collection::{
    pattern_matches, separate_collection_types, CollectionKind,
};

/// Each listed collection is described by its name and a number that the
/// sorting must carry along unchanged.
fn listed() -> Vec<(String, CollectionKind, (String, u32))> {
    [
        ("orders", CollectionKind::Collection),
        ("__sql_schemas", CollectionKind::Collection),
        ("orders_by_day", CollectionKind::View),
        ("metrics", CollectionKind::Timeseries),
        ("archive", CollectionKind::Collection),
        ("top_customers", CollectionKind::View),
    ]
    .iter()
    .enumerate()
    .map(|(i, (n, k))| (n.to_string(), *k, (n.to_string(), i as u32)))
    .collect()
}

fn names(v: &[(String, u32)]) -> Vec<&str> {
    v.iter().map(|(n, _)| n.as_str()).collect()
}

fn strings(patterns: &[&str]) -> Vec<String> {
    patterns.iter().map(|p| p.to_string()).collect()
}

#[test]
fn glob_patterns_match_as_glob_does() {
    assert_eq!(pattern_matches("d*g", "doog"), Some(true));
    assert_eq!(pattern_matches("c?t", "cart"), Some(false));
    assert_eq!(pattern_matches("__*", "__sql_schemas"), Some(true));
    assert_eq!(pattern_matches("a**b", "ab"), None);
}

#[test]
fn without_lists_sorts_by_kind_and_skips_dunder_names() {
    let r = separate_collection_types("sales".to_string(), &vec![], &vec![], listed());
    assert_eq!(r.db, "sales");
    assert_eq!(names(&r.collections), vec!["orders", "archive"]);
    assert_eq!(names(&r.views), vec!["orders_by_day", "top_customers"]);
    assert_eq!(names(&r.timeseries), vec!["metrics"]);
    assert_eq!(r.collections, vec![("orders".to_string(), 0), ("archive".to_string(), 4)]);
    assert_eq!(r.views[1], ("top_customers".to_string(), 5));
}

#[test]
fn exclude_patterns_match_the_namespace() {
    let r = separate_collection_types(
        "sales".to_string(),
        &vec![],
        &strings(&["sales.orders*"]),
        listed(),
    );
    assert_eq!(names(&r.collections), vec!["archive"]);
    assert_eq!(names(&r.views), vec!["top_customers"]);
    assert_eq!(names(&r.timeseries), vec!["metrics"]);
}

#[test]
fn exclude_patterns_of_another_database_do_not_apply() {
    let r = separate_collection_types(
        "sales".to_string(),
        &vec![],
        &strings(&["hr.*"]),
        listed(),
    );
    assert_eq!(names(&r.collections), vec!["orders", "archive"]);
}

#[test]
fn include_patterns_keep_only_what_they_match() {
    let r = separate_collection_types(
        "sales".to_string(),
        &strings(&["sales.orders*", "sales.metrics"]),
        &vec![],
        listed(),
    );
    assert_eq!(names(&r.collections), vec!["orders"]);
    assert_eq!(names(&r.views), vec!["orders_by_day"]);
    assert_eq!(names(&r.timeseries), vec!["metrics"]);
}

#[test]
fn include_patterns_can_keep_dunder_names() {
    let r = separate_collection_types("sales".to_string(), &strings(&["sales.*"]), &vec![], listed());
    assert_eq!(names(&r.collections), vec!["orders", "__sql_schemas", "archive"]);
}

#[test]
fn exclude_wins_over_include() {
    let r = separate_collection_types(
        "sales".to_string(),
        &strings(&["sales.*"]),
        &strings(&["*archive"]),
        listed(),
    );
    assert_eq!(names(&r.collections), vec!["orders", "__sql_schemas"]);
}

#[test]
fn invalid_patterns_match_nothing() {
    let r = separate_collection_types(
        "sales".to_string(),
        &vec![],
        &strings(&["sales.a**b"]),
        listed(),
    );
    assert_eq!(names(&r.collections), vec!["orders", "archive"]);
    let r = separate_collection_types(
        "sales".to_string(),
        &strings(&["sales.a**b"]),
        &vec![],
        listed(),
    );
    assert!(r.collections.is_empty() && r.views.is_empty() && r.timeseries.is_empty());
}
