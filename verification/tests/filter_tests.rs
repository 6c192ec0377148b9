use csv_filter::collections::ValueSet;
use csv_filter::config::{ColumnFilter, FilterConfig};
use csv_filter::filter::{
    build_output_record, get_output_columns, record_matches_filter_config, route_record,
};
use csv_filter::headers::create_headers_map;
use csv_filter::routing::output_owner;

fn plain(name: &str, included: bool) -> ColumnFilter {
    ColumnFilter {
        column: name.to_string(),
        included,
        values: None,
        min: None,
        max: None,
    }
}

fn value_filter(name: &str, included: bool, values: &[&str]) -> ColumnFilter {
    let mut set: ValueSet = hashbrown::HashSet::default();
    for v in values {
        set.insert(v.to_string());
    }
    ColumnFilter {
        column: name.to_string(),
        included,
        values: Some(set),
        min: None,
        max: None,
    }
}

fn range_filter(name: &str, included: bool, min: Option<&str>, max: Option<&str>) -> ColumnFilter {
    ColumnFilter {
        column: name.to_string(),
        included,
        values: None,
        min: min.map(|m| m.to_string()),
        max: max.map(|m| m.to_string()),
    }
}

fn row(fields: &[&str]) -> Vec<String> {
    fields.iter().map(|f| f.to_string()).collect()
}

#[test]
fn header_index_maps_names_to_positions() {
    let headers = create_headers_map(&row(&["id", "category", "amount"]));
    assert_eq!(headers.get(&"id".to_string()), Some(0));
    assert_eq!(headers.get(&"category".to_string()), Some(1));
    assert_eq!(headers.get(&"amount".to_string()), Some(2));
    assert_eq!(headers.get(&"missing".to_string()), None);
    assert_eq!(headers.width(), 3);
}

#[test]
fn header_index_keeps_the_later_position_of_a_repeated_name() {
    let headers = create_headers_map(&row(&["id", "x", "id"]));
    assert_eq!(headers.get(&"id".to_string()), Some(2));
    assert_eq!(headers.get(&"x".to_string()), Some(1));
}

#[test]
fn unconstrained_rule_admits_every_record() {
    let headers = create_headers_map(&row(&["id", "category"]));
    let config = FilterConfig {
        filters: vec![plain("id", true), plain("category", true)],
        output: "f1.csv".to_string(),
        sort_columns: None,
    };
    assert!(record_matches_filter_config(&row(&["1", "A"]), &config, &headers));
    assert!(record_matches_filter_config(&row(&["", ""]), &config, &headers));
}

#[test]
fn rule_with_no_filters_admits_every_record() {
    let headers = create_headers_map(&row(&["id"]));
    let config = FilterConfig {
        filters: vec![],
        output: "f1.csv".to_string(),
        sort_columns: None,
    };
    assert!(record_matches_filter_config(&row(&["1"]), &config, &headers));
}

#[test]
fn value_set_admits_only_exact_members() {
    let headers = create_headers_map(&row(&["id", "category"]));
    let config = FilterConfig {
        filters: vec![plain("id", true), value_filter("category", false, &["A", "B"])],
        output: "f1.csv".to_string(),
        sort_columns: None,
    };
    assert!(record_matches_filter_config(&row(&["1", "A"]), &config, &headers));
    assert!(record_matches_filter_config(&row(&["2", "B"]), &config, &headers));
    assert!(!record_matches_filter_config(&row(&["3", "C"]), &config, &headers));
    // membership is case-sensitive
    assert!(!record_matches_filter_config(&row(&["4", "a"]), &config, &headers));
}

#[test]
fn range_bounds_are_inclusive_and_lexicographic() {
    let headers = create_headers_map(&row(&["id", "amount"]));
    let config = FilterConfig {
        filters: vec![plain("id", true), range_filter("amount", false, Some("10"), Some("30"))],
        output: "f1.csv".to_string(),
        sort_columns: None,
    };
    assert!(record_matches_filter_config(&row(&["1", "10"]), &config, &headers));
    assert!(record_matches_filter_config(&row(&["2", "25"]), &config, &headers));
    assert!(record_matches_filter_config(&row(&["3", "30"]), &config, &headers));
    assert!(!record_matches_filter_config(&row(&["4", "05"]), &config, &headers));
    assert!(!record_matches_filter_config(&row(&["5", "31"]), &config, &headers));
    // lexicographic, not numeric: "9" > "30"
    assert!(!record_matches_filter_config(&row(&["6", "9"]), &config, &headers));
}

#[test]
fn filter_on_absent_column_is_skipped() {
    let headers = create_headers_map(&row(&["id"]));
    let config = FilterConfig {
        filters: vec![plain("id", true), value_filter("ghost_column", false, &["X"])],
        output: "f1.csv".to_string(),
        sort_columns: None,
    };
    assert!(record_matches_filter_config(&row(&["1"]), &config, &headers));
}

#[test]
fn output_columns_follow_declaration_order() {
    let config = FilterConfig {
        filters: vec![plain("category", true), plain("amount", false), plain("id", true)],
        output: "f1.csv".to_string(),
        sort_columns: None,
    };
    assert_eq!(get_output_columns(&config), row(&["category", "id"]));
}

#[test]
fn projection_follows_declaration_order_not_input_order() {
    // input order: amount, id, category — the rule asks for category then id
    let headers = create_headers_map(&row(&["amount", "id", "category"]));
    let config = FilterConfig {
        filters: vec![plain("category", true), plain("id", true)],
        output: "f1.csv".to_string(),
        sort_columns: None,
    };
    let out = build_output_record(&row(&["10", "7", "A"]), &config, &headers).unwrap();
    assert_eq!(out, row(&["A", "7"]));
}

#[test]
fn projection_fails_on_missing_output_column() {
    let headers = create_headers_map(&row(&["id"]));
    let config = FilterConfig {
        filters: vec![plain("id", true), plain("category", true)],
        output: "f1.csv".to_string(),
        sort_columns: None,
    };
    let err = build_output_record(&row(&["1"]), &config, &headers).unwrap_err();
    assert_eq!(err.column, "category");
}

#[test]
fn routes_rows_by_value_filter_into_projected_output() {
    // input has columns id,category,amount; the rule keeps id,category and
    // admits categories A and B; rows A, C, B give exactly the A and B rows.
    let headers = create_headers_map(&row(&["id", "category", "amount"]));
    let config = FilterConfig {
        filters: vec![
            plain("id", true),
            value_filter("category", true, &["A", "B"]),
            plain("amount", false),
        ],
        output: "f1.csv".to_string(),
        sort_columns: None,
    };
    assert_eq!(get_output_columns(&config), row(&["id", "category"]));
    let configs = vec![config];
    let rows = vec![row(&["1", "A", "10"]), row(&["2", "C", "20"]), row(&["3", "B", "30"])];
    let mut written: Vec<Vec<String>> = Vec::new();
    for r in &rows {
        for (idx, out) in route_record(r, &configs, &headers).unwrap() {
            assert_eq!(idx, 0);
            written.push(out);
        }
    }
    assert_eq!(written, vec![row(&["1", "A"]), row(&["3", "B"])]);
}

#[test]
fn routes_one_row_to_several_rules() {
    let headers = create_headers_map(&row(&["id", "category"]));
    let configs = vec![
        FilterConfig {
            filters: vec![plain("id", true)],
            output: "f1.csv".to_string(),
            sort_columns: None,
        },
        FilterConfig {
            filters: vec![plain("category", true), value_filter("id", false, &["1"])],
            output: "f2.csv".to_string(),
            sort_columns: None,
        },
    ];
    let routed = route_record(&row(&["1", "A"]), &configs, &headers).unwrap();
    assert_eq!(routed.len(), 2);
    assert_eq!(routed[0], (0, row(&["1"])));
    assert_eq!(routed[1], (1, row(&["A"])));
    let routed = route_record(&row(&["2", "B"]), &configs, &headers).unwrap();
    assert_eq!(routed.len(), 1);
    assert_eq!(routed[0], (0, row(&["2"])));
}

#[test]
fn routing_reports_schema_error_of_admitted_rule() {
    let headers = create_headers_map(&row(&["id"]));
    let configs = vec![FilterConfig {
        filters: vec![plain("absent", true)],
        output: "f1.csv".to_string(),
        sort_columns: None,
    }];
    let err = route_record(&row(&["1"]), &configs, &headers).unwrap_err();
    assert_eq!(err.column, "absent");
}

#[test]
fn later_rule_owns_a_shared_output_identifier() {
    let configs = vec![
        FilterConfig {
            filters: vec![plain("id", true)],
            output: "f1.csv".to_string(),
            sort_columns: None,
        },
        FilterConfig {
            filters: vec![plain("category", true)],
            output: "f1.csv".to_string(),
            sort_columns: None,
        },
    ];
    assert_eq!(output_owner(&configs, &"f1.csv".to_string()), Some(1));
    assert_eq!(output_owner(&configs, &"f2.csv".to_string()), None);
}
