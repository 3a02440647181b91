//! The library's stated properties, exercised on concrete values, and
//! the edges of the grammar and the engine.

use regop::{format_int, parse_int, process, regop, Capture, ErrorKind, Operator};

fn capture(s: &str) -> Capture {
    Capture::from_str(s).unwrap()
}

fn operator(s: &str) -> Operator {
    Operator::from_str(s).unwrap()
}

#[test]
fn test_inc_then_dec_round_trip() {
    let captures = vec![capture(r"(?<num>-?\d+)")];
    let inc = vec![operator("<num>:inc:17")];
    let dec = vec![operator("<num>:dec:17")];

    let once = regop(&captures, &inc, b"n = -42").unwrap().unwrap();
    assert_eq!(once, b"n = -25".to_vec());
    let back = regop(&captures, &dec, &once).unwrap().unwrap();
    assert_eq!(back, b"n = -42".to_vec());
}

#[test]
fn test_round_trip_canonicalizes_leading_zeros() {
    let captures = vec![capture(r"(?<num>\d+)")];
    let inc = vec![operator("<num>:inc:5")];
    let dec = vec![operator("<num>:dec:5")];

    let once = regop(&captures, &inc, b"007").unwrap().unwrap();
    assert_eq!(once, b"12".to_vec());
    let back = regop(&captures, &dec, &once).unwrap().unwrap();
    assert_eq!(back, b"7".to_vec());
}

#[test]
fn test_swap_twice_restores_document() {
    let captures = vec![capture(r"(?<major>\d+)\.(?<minor>\d+)\.(?<patch>\d+)")];
    let operators = vec![operator("<major>:swap:<patch>")];

    let once = regop(&captures, &operators, b"10.2.345").unwrap().unwrap();
    assert_eq!(once, b"345.2.10".to_vec());
    let twice = regop(&captures, &operators, &once).unwrap().unwrap();
    assert_eq!(twice, b"10.2.345".to_vec());
}

#[test]
fn test_swap_twice_restores_two_pairs() {
    let captures = vec![capture(r"(?<left>\w+)=(?<right>\w+)")];
    let operators = vec![operator("<left>:swap:<right>")];

    let once = regop(&captures, &operators, b"ab=1 cdef=23").unwrap().unwrap();
    assert_eq!(once, b"1=ab 23=cdef".to_vec());
    let twice = regop(&captures, &operators, &once).unwrap().unwrap();
    assert_eq!(twice, b"ab=1 cdef=23".to_vec());
}

#[test]
fn test_disambiguation_prefers_nearest() {
    let captures = vec![capture(r"(?<v>\d+)"), capture(r"(?<t>X)")];
    let operators = vec![operator("<t>:rep:<v>")];
    let content = b"1  X 2";

    let result = regop(&captures, &operators, content).unwrap();
    assert_eq!(result, Some(b"1  2 2".to_vec()));
}

#[test]
fn test_disambiguation_tie_takes_first() {
    let captures = vec![capture(r"(?<v>\d+)"), capture(r"(?<t>X)")];
    let operators = vec![operator("<t>:rep:<v>")];
    let content = b"1 X 2";

    let result = regop(&captures, &operators, content).unwrap();
    assert_eq!(result, Some(b"1 1 2".to_vec()));
}

#[test]
fn test_unknown_operator_error() {
    let result = Operator::from_str("<test>:frobnicate");
    assert!(result.is_err());
    let e = result.unwrap_err();
    assert_eq!(e.kind, ErrorKind::UnknownOperator);
    assert!(e.message().contains("not a valid operator"));
}

#[test]
fn test_unresolved_group_reference_error() {
    let captures = vec![capture(r"value = (?<value>\d+)")];
    let operators = vec![operator("<value>:rep:<missing>")];
    let content = b"value = 10";

    let result = regop(&captures, &operators, content);
    assert!(result.is_err());
    let e = result.unwrap_err();
    assert_eq!(e.kind, ErrorKind::UnresolvedGroupReference);
    assert!(e.message().contains("used as value but not found"));
}

#[test]
fn test_invalid_number_error() {
    let captures = vec![capture(r"value = (?<value>\w+)")];
    let operators = vec![operator("<value>:inc")];
    let content = b"value = ten";

    let result = regop(&captures, &operators, content);
    assert!(result.is_err());
    assert_eq!(result.unwrap_err().kind, ErrorKind::InvalidNumber);
}

#[test]
fn test_invalid_pattern_kind() {
    let result = Capture::from_str("(?<unclosed");
    assert!(result.is_err());
    assert_eq!(result.unwrap_err().kind, ErrorKind::InvalidPattern);
}

#[test]
fn test_lines_mode_changes_each_line() {
    let captures = vec![capture(r"value: (?<num>\d+)")];
    let operators = vec![operator("<num>:inc")];
    let content = b"value: 1\nplain\nvalue: 2";

    let result = process(true, &captures, &operators, content).unwrap();
    assert_eq!(result, Some(b"value: 2\nplain\nvalue: 3".to_vec()));
}

#[test]
fn test_lines_mode_duplicate_lines() {
    let captures = vec![capture(r"value: (?<num>\d+)")];
    let operators = vec![operator("<num>:inc")];
    let content = b"value: 5\nvalue: 5";

    let result = process(true, &captures, &operators, content).unwrap();
    assert_eq!(result, Some(b"value: 6\nvalue: 6".to_vec()));
}

#[test]
fn test_lines_mode_keeps_trailing_newline() {
    let captures = vec![capture(r"value: (?<num>\d+)")];
    let operators = vec![operator("<num>:inc")];
    let content = b"value: 5\n";

    let result = process(true, &captures, &operators, content).unwrap();
    assert_eq!(result, Some(b"value: 6\n".to_vec()));
}

#[test]
fn test_lines_mode_no_change() {
    let captures = vec![capture(r"value: (?<num>\d+)")];
    let operators = vec![operator("<num>:inc")];
    let content = b"nothing\nhere";

    let result = process(true, &captures, &operators, content).unwrap();
    assert_eq!(result, None);
}

#[test]
fn test_whole_mode_matches_line_mode_on_one_line() {
    let captures = vec![capture(r"(?<num>\d+)")];
    let operators = vec![operator("<num>:mul:2")];
    let content = b"n is 21";

    let whole = process(false, &captures, &operators, content).unwrap();
    let lined = process(true, &captures, &operators, content).unwrap();
    assert_eq!(whole, Some(b"n is 42".to_vec()));
    assert_eq!(whole, lined);
}

#[test]
fn test_format_int_values() {
    assert_eq!(format_int(0), b"0".to_vec());
    assert_eq!(format_int(7), b"7".to_vec());
    assert_eq!(format_int(-7), b"-7".to_vec());
    assert_eq!(format_int(120456), b"120456".to_vec());
    assert_eq!(format_int(isize::MIN), format!("{}", isize::MIN).into_bytes());
}

#[test]
fn test_parse_int_edges() {
    assert_eq!(parse_int(b"+5").unwrap(), 5);
    assert_eq!(parse_int(b"007").unwrap(), 7);
    assert_eq!(parse_int(format!("{}", isize::MIN).as_bytes()).unwrap(), isize::MIN);
    assert_eq!(parse_int(format!("{}", isize::MAX).as_bytes()).unwrap(), isize::MAX);
    assert!(parse_int(b"").is_err());
    assert!(parse_int(b"-").is_err());
    assert!(parse_int(b"1 2").is_err());
    assert!(parse_int(b"999999999999999999999999999999").is_err());
}

#[test]
fn test_parse_format_round_trip() {
    for v in [0isize, 1, -1, 42, -42, 1000000, isize::MAX, isize::MIN] {
        assert_eq!(parse_int(&format_int(v)).unwrap(), v);
    }
}

#[test]
fn test_capture_reports_group_names() {
    let cap = capture(r"(?<major>\d+)\.(?<minor>\d+)");
    let names: Vec<&[u8]> = cap.names.iter().map(|n| n.as_slice()).collect();
    assert!(names.contains(&b"major".as_slice()));
    assert!(names.contains(&b"minor".as_slice()));
    assert_eq!(names.len(), 2);
}

#[test]
fn test_division_truncates() {
    let captures = vec![capture(r"(?<a>-?\d+) by (?<b>-?\d+)")];
    let operators = vec![operator("<a>:div:<b>")];

    let result = regop(&captures, &operators, b"-7 by 2").unwrap();
    assert_eq!(result, Some(b"-3 by 2".to_vec()));
}

#[test]
fn test_swap_with_literal_text_parameter() {
    let captures = vec![
        capture(r"one=(?<one>\w+)"),
        capture(r"two=(?<two>\w+)"),
    ];
    let operators = vec![operator("<one>:swap:two")];
    let content = b"one=A two=B";

    let result = regop(&captures, &operators, content).unwrap();
    assert_eq!(result, Some(b"one=B two=A".to_vec()));
}

#[test]
fn test_empty_document() {
    let captures = vec![capture(r"(?<num>\d+)")];
    let operators = vec![operator("<num>:inc")];

    assert_eq!(regop(&captures, &operators, b"").unwrap(), None);
    assert_eq!(process(true, &captures, &operators, b"").unwrap(), None);
}

#[test]
fn test_swap_with_no_matches_is_noop() {
    let captures = vec![capture(r"(?<a>AAA)"), capture(r"(?<b>BBB)")];
    let operators = vec![operator("<a>:swap:<b>")];

    let result = regop(&captures, &operators, b"nothing to see").unwrap();
    assert_eq!(result, None);
}

#[test]
fn test_swap_group_with_itself_overlaps() {
    let captures = vec![capture(r"(?<a>\d+)")];
    let operators = vec![operator("<a>:swap:<a>")];

    let result = regop(&captures, &operators, b"123");
    assert!(result.is_err());
    assert_eq!(result.unwrap_err().kind, ErrorKind::OverlappingEdits);
}

#[test]
fn test_operator_grammar_is_anchored() {
    let result = Operator::from_str("prefix<a>:inc");
    assert!(result.is_err());
    assert_eq!(result.unwrap_err().kind, ErrorKind::InvalidOperatorSyntax);
}

#[test]
fn test_operator_parameter_stops_at_colon() {
    let captures = vec![capture(r"v=(?<v>\w+)")];
    let operators = vec![operator("<v>:rep:left:right")];

    let result = regop(&captures, &operators, b"v=old").unwrap();
    assert_eq!(result, Some(b"v=left".to_vec()));
}

#[test]
fn test_operator_defaults() {
    let inc = operator("<n>:inc");
    assert!(matches!(inc.value, regop::Param::Int(1)));
    let del = operator("<n>:del");
    assert!(matches!(del.value, regop::Param::Int(0)));
}
