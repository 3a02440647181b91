//! Parsing of patterns, operators and parameters, the helper
//! functions, and line mode.

use regop::{distance, parse_int, process, Capture, Operator, Param};

fn capture(s: &str) -> Capture {
    Capture::from_str(s).unwrap()
}

fn operator(s: &str) -> Operator {
    Operator::from_str(s).unwrap()
}

#[test]
fn test_process_lines_mode() {
    let captures = vec![capture(r"value: (?<num>\d+)")];
    let operators = vec![operator("<num>:inc")];
    let content = b"value: 5";

    let result = process(true, &captures, &operators, content).unwrap();
    assert_eq!(result, Some(b"value: 6".to_vec()));
}

#[test]
fn test_invalid_operator_format() {
    let result = Operator::from_str("invalid");
    assert!(result.is_err());
}

#[test]
fn test_invalid_regex() {
    let result = Capture::from_str("[invalid");
    assert!(result.is_err());
}

#[test]
fn test_missing_parameter_for_replace() {
    let result = Operator::from_str("<test>:rep");
    assert!(result.is_err());
}

#[test]
fn test_missing_parameter_for_swap() {
    let result = Operator::from_str("<test>:swap");
    assert!(result.is_err());
}

#[test]
fn test_parse_int_success() {
    assert_eq!(parse_int(b"42").unwrap(), 42);
    assert_eq!(parse_int(b"-10").unwrap(), -10);
}

#[test]
fn test_parse_int_failure() {
    assert!(parse_int(b"not_a_number").is_err());
}

#[test]
fn test_distance_function() {
    assert_eq!(distance(0, 5, 10, 15), Some(5));
    assert_eq!(distance(10, 15, 0, 5), Some(5));
    assert_eq!(distance(0, 10, 5, 15), None); // Overlapping
    assert_eq!(distance(5, 15, 0, 10), None); // Overlapping
}

#[test]
fn test_param_from_str() {
    // Test integer parsing
    let param = Param::from_raw(b"42");
    assert!(matches!(param, Param::Int(42)));

    // Test string parsing
    let param = Param::from_raw(b"hello");
    assert!(matches!(param, Param::Text(_)));

    // Test capture parsing
    let param = Param::from_raw(b"<capture>");
    assert!(matches!(param, Param::Group(_)));
}

#[test]
fn test_missing_parameter_for_mul() {
    let result = Operator::from_str("<test>:mul");
    assert!(result.is_err());
    assert!(result
        .unwrap_err()
        .message()
        .contains("parameter required in 'mul' operator"));
}

#[test]
fn test_missing_parameter_for_div() {
    let result = Operator::from_str("<test>:div");
    assert!(result.is_err());
    assert!(result
        .unwrap_err()
        .message()
        .contains("parameter required in 'div' operator"));
}

#[test]
fn test_missing_parameter_for_append() {
    let result = Operator::from_str("<test>:append");
    assert!(result.is_err());
    assert!(result
        .unwrap_err()
        .message()
        .contains("parameter required in 'append' operator"));
}

#[test]
fn test_missing_parameter_for_prepend() {
    let result = Operator::from_str("<test>:prepend");
    assert!(result.is_err());
    assert!(result
        .unwrap_err()
        .message()
        .contains("parameter required in 'prepend' operator"));
}
