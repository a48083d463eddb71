use std::time::Duration;

use leech2::config::{parse_duration, FieldConfig, TableConfig};

#[test]
fn test_parse_duration_seconds() {
    assert_eq!(Duration::from_secs(parse_duration("30s").unwrap()), Duration::from_secs(30));
}

#[test]
fn test_parse_duration_minutes() {
    assert_eq!(Duration::from_secs(parse_duration("5m").unwrap()), Duration::from_secs(300));
}

#[test]
fn test_parse_duration_hours() {
    assert_eq!(Duration::from_secs(parse_duration("12h").unwrap()), Duration::from_secs(43200));
}

#[test]
fn test_parse_duration_days() {
    assert_eq!(Duration::from_secs(parse_duration("7d").unwrap()), Duration::from_secs(604800));
}

#[test]
fn test_parse_duration_weeks() {
    assert_eq!(Duration::from_secs(parse_duration("2w").unwrap()), Duration::from_secs(1209600));
}

#[test]
fn test_parse_duration_invalid_suffix() {
    assert!(parse_duration("10x").is_err());
}

#[test]
fn test_parse_duration_invalid_number() {
    assert!(parse_duration("abcs").is_err());
}

#[test]
fn test_parse_duration_empty() {
    assert!(parse_duration("").is_err());
}

#[test]
fn parse_duration_plus_sign_and_overflow() {
    assert_eq!(parse_duration("+3m").unwrap(), 180);
    assert!(parse_duration("s").is_err());
    assert!(parse_duration("+s").is_err());
    assert!(parse_duration("-3m").is_err());
    assert_eq!(parse_duration("18446744073709551615s").unwrap(), u64::MAX);
    assert!(parse_duration("18446744073709551616s").is_err());
    assert!(parse_duration("18446744073709551615m").is_err());
}

fn field(name: &str, ty: &str, pk: bool, format: Option<&str>) -> FieldConfig {
    FieldConfig {
        name: name.to_string(),
        field_type: ty.to_string(),
        primary_key: pk,
        format: format.map(|f| f.to_string()),
    }
}

#[test]
fn table_config_accessors() {
    let tc = TableConfig {
        source: "t.csv".to_string(),
        header: false,
        fields: vec![
            field("name", "TEXT", false, None),
            field("id", "INTEGER", true, None),
            field("day", "DATE", true, Some("%d/%m/%Y")),
        ],
    };
    assert_eq!(tc.field_names(), vec!["name", "id", "day"]);
    assert_eq!(tc.primary_key(), vec!["id", "day"]);
    assert_eq!(tc.field_types(), vec!["TEXT", "INTEGER", "DATE"]);
    assert_eq!(tc.field_formats(), vec![None, None, Some("%d/%m/%Y".to_string())]);
}
