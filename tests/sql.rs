use leech2::sql::{quote_ident, quote_literal, SqlType};

#[test]
fn test_sql_type_from_config() {
    assert_eq!(SqlType::from_config("TEXT", None).unwrap(), SqlType::Text);
    assert_eq!(SqlType::from_config("INTEGER", None).unwrap(), SqlType::Integer);
    assert_eq!(SqlType::from_config("FLOAT", None).unwrap(), SqlType::Float);
    assert_eq!(SqlType::from_config("BOOLEAN", None).unwrap(), SqlType::Boolean);
    assert_eq!(SqlType::from_config("BINARY", None).unwrap(), SqlType::Binary);
    assert_eq!(SqlType::from_config("integer", None).unwrap(), SqlType::Integer);
    assert_eq!(SqlType::from_config("Boolean", None).unwrap(), SqlType::Boolean);
    assert_eq!(SqlType::from_config("binary", None).unwrap(), SqlType::Binary);
    assert_eq!(SqlType::from_config("DATE", None).unwrap(), SqlType::Date("%Y-%m-%d".to_string()));
    assert_eq!(SqlType::from_config("TIME", None).unwrap(), SqlType::Time("%H:%M:%S".to_string()));
    assert_eq!(
        SqlType::from_config("DATETIME", None).unwrap(),
        SqlType::DateTime("%Y-%m-%d %H:%M:%S".to_string())
    );
    assert_eq!(SqlType::from_config("date", None).unwrap(), SqlType::Date("%Y-%m-%d".to_string()));
    assert_eq!(
        SqlType::from_config("datetime", None).unwrap(),
        SqlType::DateTime("%Y-%m-%d %H:%M:%S".to_string())
    );
    assert_eq!(
        SqlType::from_config("DATE", Some("%d/%m/%Y")).unwrap(),
        SqlType::Date("%d/%m/%Y".to_string())
    );
    assert_eq!(SqlType::from_config("TIME", Some("%H:%M")).unwrap(), SqlType::Time("%H:%M".to_string()));
    assert_eq!(
        SqlType::from_config("DATETIME", Some("%Y-%m-%dT%H:%M:%S")).unwrap(),
        SqlType::DateTime("%Y-%m-%dT%H:%M:%S".to_string())
    );
    assert!(SqlType::from_config("VARCHAR", None).is_err());
    assert!(SqlType::from_config("INT", None).is_err());
    assert!(SqlType::from_config("BLOB", None).is_err());
    assert!(SqlType::from_config("unknown", None).is_err());
}

#[test]
fn test_quote_ident() {
    assert_eq!(quote_ident("simple"), "\"simple\"");
    assert_eq!(quote_ident("has\"quote"), "\"has\"\"quote\"");
    assert_eq!(quote_ident(""), "\"\"");
}

#[test]
fn test_quote_literal_text() {
    assert_eq!(quote_literal("hello", &SqlType::Text).unwrap(), "'hello'");
    assert_eq!(quote_literal("", &SqlType::Text).unwrap(), "''");
}

#[test]
fn test_quote_literal_text_with_quotes() {
    assert_eq!(quote_literal("it's a test", &SqlType::Text).unwrap(), "'it''s a test'");
    assert_eq!(quote_literal("a''b", &SqlType::Text).unwrap(), "'a''''b'");
}

#[test]
fn test_quote_literal_integer() {
    assert_eq!(quote_literal("42", &SqlType::Integer).unwrap(), "42");
    assert_eq!(quote_literal("-100", &SqlType::Integer).unwrap(), "-100");
    assert!(quote_literal("not_a_number", &SqlType::Integer).is_err());
}

#[test]
fn test_quote_literal_float() {
    assert_eq!(quote_literal("3.14", &SqlType::Float).unwrap(), "3.14");
    assert_eq!(quote_literal("-0.5", &SqlType::Float).unwrap(), "-0.5");
    assert!(quote_literal("not_a_float", &SqlType::Float).is_err());
}

#[test]
fn test_quote_literal_boolean() {
    assert_eq!(quote_literal("true", &SqlType::Boolean).unwrap(), "TRUE");
    assert_eq!(quote_literal("True", &SqlType::Boolean).unwrap(), "TRUE");
    assert_eq!(quote_literal("1", &SqlType::Boolean).unwrap(), "TRUE");
    assert_eq!(quote_literal("t", &SqlType::Boolean).unwrap(), "TRUE");
    assert_eq!(quote_literal("yes", &SqlType::Boolean).unwrap(), "TRUE");
    assert_eq!(quote_literal("false", &SqlType::Boolean).unwrap(), "FALSE");
    assert_eq!(quote_literal("False", &SqlType::Boolean).unwrap(), "FALSE");
    assert_eq!(quote_literal("0", &SqlType::Boolean).unwrap(), "FALSE");
    assert_eq!(quote_literal("f", &SqlType::Boolean).unwrap(), "FALSE");
    assert_eq!(quote_literal("no", &SqlType::Boolean).unwrap(), "FALSE");
    assert!(quote_literal("maybe", &SqlType::Boolean).is_err());
}

#[test]
fn test_quote_literal_binary() {
    assert_eq!(quote_literal("48656C6C6F", &SqlType::Binary).unwrap(), "'\\x48656C6C6F'");
    assert_eq!(quote_literal("DEADBEEF", &SqlType::Binary).unwrap(), "'\\xDEADBEEF'");
    assert_eq!(quote_literal("deadbeef", &SqlType::Binary).unwrap(), "'\\xdeadbeef'");
    assert_eq!(quote_literal("", &SqlType::Binary).unwrap(), "'\\x'");
    assert!(quote_literal("ABC", &SqlType::Binary).is_err());
    assert!(quote_literal("GHIJ", &SqlType::Binary).is_err());
}

#[test]
fn test_quote_literal_date() {
    let ty = SqlType::Date("%Y-%m-%d".to_string());
    assert_eq!(quote_literal("2024-01-15", &ty).unwrap(), "'2024-01-15'");
    assert_eq!(quote_literal("1970-01-01", &ty).unwrap(), "'1970-01-01'");
    assert!(quote_literal("not-a-date", &ty).is_err());
    assert!(quote_literal("2024-13-01", &ty).is_err());
    assert!(quote_literal("15/01/2024", &ty).is_err());
    let ty_custom = SqlType::Date("%d/%m/%Y".to_string());
    assert_eq!(quote_literal("15/01/2024", &ty_custom).unwrap(), "'15/01/2024'");
    assert!(quote_literal("2024-01-15", &ty_custom).is_err());
}

#[test]
fn test_quote_literal_time() {
    let ty = SqlType::Time("%H:%M:%S".to_string());
    assert_eq!(quote_literal("10:30:00", &ty).unwrap(), "'10:30:00'");
    assert_eq!(quote_literal("23:59:59", &ty).unwrap(), "'23:59:59'");
    assert!(quote_literal("not-a-time", &ty).is_err());
    assert!(quote_literal("25:00:00", &ty).is_err());
    let ty_custom = SqlType::Time("%H:%M".to_string());
    assert_eq!(quote_literal("10:30", &ty_custom).unwrap(), "'10:30'");
    assert!(quote_literal("10:30:00", &ty_custom).is_err());
}

#[test]
fn test_quote_literal_datetime() {
    let ty = SqlType::DateTime("%Y-%m-%d %H:%M:%S".to_string());
    assert_eq!(quote_literal("2024-01-15 10:30:00", &ty).unwrap(), "'2024-01-15 10:30:00'");
    assert_eq!(quote_literal("1705312200", &ty).unwrap(), "'1705312200'");
    assert_eq!(quote_literal("0", &ty).unwrap(), "'0'");
    assert!(quote_literal("not-a-datetime", &ty).is_err());
    assert!(quote_literal("2024-13-01 10:30:00", &ty).is_err());
    let ty_custom = SqlType::DateTime("%Y-%m-%dT%H:%M:%S".to_string());
    assert_eq!(quote_literal("2024-01-15T10:30:00", &ty_custom).unwrap(), "'2024-01-15T10:30:00'");
    assert!(quote_literal("2024-01-15 10:30:00", &ty_custom).is_err());
}

#[test]
fn integer_and_float_edges() {
    assert_eq!(quote_literal("+7", &SqlType::Integer).unwrap(), "+7");
    assert!(quote_literal("9223372036854775807", &SqlType::Integer).is_ok());
    assert!(quote_literal("9223372036854775808", &SqlType::Integer).is_err());
    assert!(quote_literal("-9223372036854775808", &SqlType::Integer).is_ok());
    assert!(quote_literal("-9223372036854775809", &SqlType::Integer).is_err());
    assert!(quote_literal("-", &SqlType::Integer).is_err());
    for ok in ["1e10", "1.", ".5", "-inf", "NaN", "Infinity", "+2.5E-3"] {
        assert!(quote_literal(ok, &SqlType::Float).is_ok(), "{}", ok);
    }
    for bad in [".", "e5", "1e", "1.2.3", "", "in"] {
        assert!(quote_literal(bad, &SqlType::Float).is_err(), "{}", bad);
    }
}
