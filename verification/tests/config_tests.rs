use csv_filter::collections::ValueSet;
use csv_filter::config::{prepare_configs, validate_config, ColumnFilter, ConfigError, FilterConfig};

fn col(name: &str, included: bool) -> ColumnFilter {
    ColumnFilter {
        column: name.to_string(),
        included,
        values: None,
        min: None,
        max: None,
    }
}

#[test]
fn validation_accepts_minimal_rule() {
    let config = FilterConfig {
        filters: vec![col("id", true)],
        output: "f1.csv".to_string(),
        sort_columns: None,
    };
    assert!(validate_config(&config).is_ok());
}

#[test]
fn validation_accepts_sort_columns_that_are_included() {
    let config = FilterConfig {
        filters: vec![col("id", true), col("amount", true), col("category", false)],
        output: "f1.csv".to_string(),
        sort_columns: Some(vec!["amount".to_string(), "id".to_string()]),
    };
    assert!(validate_config(&config).is_ok());
}

#[test]
fn validation_fails_when_no_column_is_included() {
    let config = FilterConfig {
        filters: vec![col("id", false), col("category", false)],
        output: "f1.csv".to_string(),
        sort_columns: None,
    };
    match validate_config(&config) {
        Err(ConfigError::NoOutputColumns { output }) => assert_eq!(output, "f1.csv"),
        _ => panic!("expected NoOutputColumns"),
    }
}

#[test]
fn validation_fails_when_rule_has_no_filters_at_all() {
    let config = FilterConfig {
        filters: vec![],
        output: "f2.csv".to_string(),
        sort_columns: None,
    };
    match validate_config(&config) {
        Err(ConfigError::NoOutputColumns { output }) => assert_eq!(output, "f2.csv"),
        _ => panic!("expected NoOutputColumns"),
    }
}

#[test]
fn validation_fails_when_values_and_range_are_both_defined() {
    let mut set: ValueSet = hashbrown::HashSet::default();
    set.insert("A".to_string());
    let bad = ColumnFilter {
        column: "category".to_string(),
        included: true,
        values: Some(set),
        min: Some("A".to_string()),
        max: None,
    };
    let config = FilterConfig {
        filters: vec![bad],
        output: "f1.csv".to_string(),
        sort_columns: None,
    };
    match validate_config(&config) {
        Err(ConfigError::ValuesAndRange { output }) => assert_eq!(output, "f1.csv"),
        _ => panic!("expected ValuesAndRange"),
    }
}

#[test]
fn validation_fails_when_sort_column_is_not_included() {
    let config = FilterConfig {
        filters: vec![col("id", true), col("amount", false)],
        output: "f1.csv".to_string(),
        sort_columns: Some(vec!["amount".to_string()]),
    };
    match validate_config(&config) {
        Err(ConfigError::SortColumnNotIncluded { output, column }) => {
            assert_eq!(output, "f1.csv");
            assert_eq!(column, "amount");
        },
        _ => panic!("expected SortColumnNotIncluded"),
    }
}

#[test]
fn validation_fails_when_sort_column_is_unknown() {
    let config = FilterConfig {
        filters: vec![col("col1", true), col("col2", true)],
        output: "f1.csv".to_string(),
        sort_columns: Some(vec!["col1".to_string(), "col3".to_string()]),
    };
    match validate_config(&config) {
        Err(ConfigError::SortColumnNotIncluded { output, column }) => {
            assert_eq!(output, "f1.csv");
            assert_eq!(column, "col3");
        },
        _ => panic!("expected SortColumnNotIncluded"),
    }
}

#[test]
fn prepare_configs_reverses_the_declared_order() {
    let configs = vec![
        FilterConfig {
            filters: vec![col("id", true)],
            output: "f1.csv".to_string(),
            sort_columns: None,
        },
        FilterConfig {
            filters: vec![col("id", true)],
            output: "f2.csv".to_string(),
            sort_columns: None,
        },
    ];
    let prepared = prepare_configs(configs).unwrap();
    assert_eq!(prepared.len(), 2);
    assert_eq!(prepared[0].output, "f2.csv");
    assert_eq!(prepared[1].output, "f1.csv");
}

#[test]
fn prepare_configs_reports_the_first_invalid_rule() {
    let configs = vec![
        FilterConfig {
            filters: vec![col("id", true)],
            output: "ok.csv".to_string(),
            sort_columns: None,
        },
        FilterConfig {
            filters: vec![col("id", false)],
            output: "bad.csv".to_string(),
            sort_columns: None,
        },
    ];
    match prepare_configs(configs) {
        Err(ConfigError::NoOutputColumns { output }) => assert_eq!(output, "bad.csv"),
        _ => panic!("expected NoOutputColumns"),
    }
}

#[test]
fn path_text_round_trips_utf8_paths() {
    let path = std::path::PathBuf::from("output/f1.csv");
    assert_eq!(csv_filter::util::path_to_string(&path), "output/f1.csv");
}
