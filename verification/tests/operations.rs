//! Whole-document transforms: one operator at a time, against real
//! regular expressions.

use regop::{regop, Capture, Operator};

fn capture(s: &str) -> Capture {
    Capture::from_str(s).unwrap()
}

fn operator(s: &str) -> Operator {
    Operator::from_str(s).unwrap()
}

#[test]
fn test_inc_operation() {
    let captures = vec![capture(r"version = (?<version>\d+)")];
    let operators = vec![operator("<version>:inc")];
    let content = b"version = 5";

    let result = regop(&captures, &operators, content).unwrap();
    assert_eq!(result, Some(b"version = 6".to_vec()));
}

#[test]
fn test_inc_operation_with_value() {
    let captures = vec![capture(r"version = (?<version>\d+)")];
    let operators = vec![operator("<version>:inc:10")];
    let content = b"version = 5";

    let result = regop(&captures, &operators, content).unwrap();
    assert_eq!(result, Some(b"version = 15".to_vec()));
}

#[test]
fn test_dec_operation() {
    let captures = vec![capture(r"version = (?<version>\d+)")];
    let operators = vec![operator("<version>:dec")];
    let content = b"version = 10";

    let result = regop(&captures, &operators, content).unwrap();
    assert_eq!(result, Some(b"version = 9".to_vec()));
}

#[test]
fn test_dec_operation_with_value() {
    let captures = vec![capture(r"version = (?<version>\d+)")];
    let operators = vec![operator("<version>:dec:3")];
    let content = b"version = 10";

    let result = regop(&captures, &operators, content).unwrap();
    assert_eq!(result, Some(b"version = 7".to_vec()));
}

#[test]
fn test_replace_operation() {
    let captures = vec![capture(r"name = (?<name>\w+)")];
    let operators = vec![operator("<name>:rep:new_name")];
    let content = b"name = old_name";

    let result = regop(&captures, &operators, content).unwrap();
    assert_eq!(result, Some(b"name = new_name".to_vec()));
}

#[test]
fn test_replace_operation_with_number() {
    let captures = vec![capture(r"count = (?<count>\d+)")];
    let operators = vec![operator("<count>:rep:42")];
    let content = b"count = 10";

    let result = regop(&captures, &operators, content).unwrap();
    assert_eq!(result, Some(b"count = 42".to_vec()));
}

#[test]
fn test_del_operation() {
    let captures = vec![capture(r"temp = (?<temp>\w+)")];
    let operators = vec![operator("<temp>:del")];
    let content = b"temp = value";

    let result = regop(&captures, &operators, content).unwrap();
    assert_eq!(result, Some(b"temp = ".to_vec()));
}

#[test]
fn test_swap_operation() {
    let captures = vec![
        capture(r"first = (?<first>\w+)"),
        capture(r"second = (?<second>\w+)"),
    ];
    let operators = vec![operator("<first>:swap:<second>")];
    let content = b"first = A\nsecond = B";

    let result = regop(&captures, &operators, content).unwrap();
    assert_eq!(result, Some(b"first = B\nsecond = A".to_vec()));
}

#[test]
fn test_swap_operation_same_regex() {
    let captures = vec![capture(r"(?<major>\d+)\.(?<minor>\d+)\.(?<patch>\d+)")];
    let operators = vec![operator("<major>:swap:<patch>")];
    let content = b"1.2.3";

    let result = regop(&captures, &operators, content).unwrap();
    assert_eq!(result, Some(b"3.2.1".to_vec()));
}

#[test]
fn test_multiple_operations() {
    let captures = vec![capture(
        r"version = (?<major>\d+)\.(?<minor>\d+)\.(?<patch>\d+)",
    )];
    let operators = vec![
        operator("<major>:inc"),
        operator("<minor>:dec:2"),
        operator("<patch>:rep:0"),
    ];
    let content = b"version = 1.5.9";

    let result = regop(&captures, &operators, content).unwrap();
    assert_eq!(result, Some(b"version = 2.3.0".to_vec()));
}

#[test]
fn test_capture_as_value() {
    let captures = vec![capture(r"(?<major>\d+)\.(?<minor>\d+)\.(?<patch>\d+)")];
    let operators = vec![operator("<major>:rep:<patch>")];
    let content = b"1.2.3";

    let result = regop(&captures, &operators, content).unwrap();
    assert_eq!(result, Some(b"3.2.3".to_vec()));
}

#[test]
fn test_no_matches() {
    let captures = vec![capture(r"version = (?<version>\d+)")];
    let operators = vec![operator("<version>:inc")];
    let content = b"no matches here";

    let result = regop(&captures, &operators, content).unwrap();
    assert_eq!(result, None);
}

#[test]
fn test_multiple_matches() {
    let captures = vec![capture(r"(?<num>\d+)")];
    let operators = vec![operator("<num>:inc")];
    let content = b"1 and 2 and 3";

    let result = regop(&captures, &operators, content).unwrap();
    assert_eq!(result, Some(b"2 and 3 and 4".to_vec()));
}

#[test]
fn test_swap_mismatched_count() {
    let captures = vec![
        capture(r"first = (?<first>\w+)"),
        capture(r"second = (?<second>\w+)"),
    ];
    let operators = vec![operator("<first>:swap:<second>")];
    let content = b"first = A\nfirst = B\nsecond = C";

    let result = regop(&captures, &operators, content);
    assert!(result.is_err());
    assert!(result
        .unwrap_err()
        .message()
        .contains("different number of matches"));
}

#[test]
fn test_negative_numbers() {
    let captures = vec![capture(r"value = (?<value>-?\d+)")];
    let operators = vec![operator("<value>:inc:5")];
    let content = b"value = -10";

    let result = regop(&captures, &operators, content).unwrap();
    assert_eq!(result, Some(b"value = -5".to_vec()));
}

#[test]
fn test_zero_operations() {
    let captures = vec![capture(r"value = (?<value>\d+)")];
    let operators = vec![operator("<value>:inc:0")];
    let content = b"value = 5";

    let result = regop(&captures, &operators, content).unwrap();
    assert_eq!(result, Some(b"value = 5".to_vec()));
}

#[test]
fn test_large_numbers() {
    let captures = vec![capture(r"value = (?<value>\d+)")];
    let operators = vec![operator("<value>:inc:1000000")];
    let content = b"value = 999999";

    let result = regop(&captures, &operators, content).unwrap();
    assert_eq!(result, Some(b"value = 1999999".to_vec()));
}

#[test]
fn test_empty_string_replacement() {
    let captures = vec![capture(r"text = (?<text>\w*)")];
    let operators = vec![operator("<text>:del")];
    let content = b"text = hello";

    let result = regop(&captures, &operators, content).unwrap();
    assert_eq!(result, Some(b"text = ".to_vec()));
}

#[test]
fn test_special_characters_in_replacement() {
    let captures = vec![capture(r"text = (?<text>\w+)")];
    let operators = vec![operator("<text>:rep:hello@world.com")];
    let content = b"text = old";

    let result = regop(&captures, &operators, content).unwrap();
    assert_eq!(result, Some(b"text = hello@world.com".to_vec()));
}

#[test]
fn test_unicode_support() {
    let captures = vec![capture(r"name = (?<name>\w+)")];
    let operators = vec![operator("<name>:rep:jos\u{e9}")];
    let content = b"name = john";

    let result = regop(&captures, &operators, content).unwrap();
    assert_eq!(result, Some("name = jos\u{e9}".as_bytes().to_vec()));
}

#[test]
fn test_mixed_operations_order() {
    let captures = vec![capture(r"(?<a>\d+) (?<b>\d+) (?<c>\d+)")];
    let operators = vec![
        operator("<c>:inc:1"),
        operator("<a>:dec:1"),
        operator("<b>:rep:99"),
    ];
    let content = b"5 10 15";

    let result = regop(&captures, &operators, content).unwrap();
    assert_eq!(result, Some(b"4 99 16".to_vec()));
}

#[test]
fn test_capture_group_not_found() {
    let captures = vec![capture(r"version = (?<version>\d+)")];
    let operators = vec![operator("<nonexistent>:inc")];
    let content = b"version = 5";

    let result = regop(&captures, &operators, content).unwrap();
    assert_eq!(result, None);
}

#[test]
fn test_multiple_regex_patterns() {
    let captures = vec![
        capture(r"version = (?<version>\d+)"),
        capture(r"count = (?<count>\d+)"),
    ];
    let operators = vec![operator("<version>:inc"), operator("<count>:dec")];
    let content = b"version = 1\ncount = 10";

    let result = regop(&captures, &operators, content).unwrap();
    assert_eq!(result, Some(b"version = 2\ncount = 9".to_vec()));
}

#[test]
fn test_overlapping_matches_error() {
    let captures = vec![capture(r"(?<all>\w+(?<part>\w+))")];
    let operators = vec![operator("<all>:rep:new"), operator("<part>:rep:part")];
    let content = b"hello";

    let result = regop(&captures, &operators, content);
    assert!(result.is_err());
    assert!(result.unwrap_err().message().contains("overlap"));
}

#[test]
fn test_string_increment_with_capture() {
    let captures = vec![capture(r"(?<a>\d+) plus (?<b>\d+)")];
    let operators = vec![operator("<a>:inc:<b>")];
    let content = b"5 plus 3";

    let result = regop(&captures, &operators, content).unwrap();
    assert_eq!(result, Some(b"8 plus 3".to_vec()));
}

#[test]
fn test_dec_with_string_capture() {
    let captures = vec![capture(r"(?<a>\d+) minus (?<b>\d+)")];
    let operators = vec![operator("<a>:dec:<b>")];
    let content = b"10 minus 3";

    let result = regop(&captures, &operators, content).unwrap();
    assert_eq!(result, Some(b"7 minus 3".to_vec()));
}

#[test]
fn test_whitespace_handling() {
    let captures = vec![capture(r"value\s*=\s*(?<value>\d+)")];
    let operators = vec![operator("<value>:inc")];
    let content = b"value   =   5";

    let result = regop(&captures, &operators, content).unwrap();
    assert_eq!(result, Some(b"value   =   6".to_vec()));
}

#[test]
fn test_case_sensitive_regex() {
    let captures = vec![capture(r"Version = (?<version>\d+)")];
    let operators = vec![operator("<version>:inc")];
    let content = b"version = 5";

    let result = regop(&captures, &operators, content).unwrap();
    assert_eq!(result, None);
}

#[test]
fn test_replace_with_space() {
    let captures = vec![capture(r"text = (?<text>\w+)")];
    let operators = vec![operator("<text>:rep: ")];
    let content = b"text = hello";

    let result = regop(&captures, &operators, content).unwrap();
    assert_eq!(result, Some(b"text =  ".to_vec()));
}

#[test]
fn test_mul_operation() {
    let captures = vec![capture(r"value = (?<value>\d+)")];
    let operators = vec![operator("<value>:mul:3")];
    let content = b"value = 5";

    let result = regop(&captures, &operators, content).unwrap();
    assert_eq!(result, Some(b"value = 15".to_vec()));
}

#[test]
fn test_mul_operation_with_capture() {
    let captures = vec![capture(r"(?<a>\d+) times (?<b>\d+)")];
    let operators = vec![operator("<a>:mul:<b>")];
    let content = b"4 times 6";

    let result = regop(&captures, &operators, content).unwrap();
    assert_eq!(result, Some(b"24 times 6".to_vec()));
}

#[test]
fn test_div_operation() {
    let captures = vec![capture(r"value = (?<value>\d+)")];
    let operators = vec![operator("<value>:div:2")];
    let content = b"value = 10";

    let result = regop(&captures, &operators, content).unwrap();
    assert_eq!(result, Some(b"value = 5".to_vec()));
}

#[test]
fn test_div_operation_with_capture() {
    let captures = vec![capture(r"(?<a>\d+) divided by (?<b>\d+)")];
    let operators = vec![operator("<a>:div:<b>")];
    let content = b"20 divided by 4";

    let result = regop(&captures, &operators, content).unwrap();
    assert_eq!(result, Some(b"5 divided by 4".to_vec()));
}

#[test]
fn test_div_by_zero_error() {
    let captures = vec![capture(r"value = (?<value>\d+)")];
    let operators = vec![operator("<value>:div:0")];
    let content = b"value = 10";

    let result = regop(&captures, &operators, content);
    assert!(result.is_err());
    assert!(result.unwrap_err().message().contains("division by zero"));
}

#[test]
fn test_append_operation() {
    let captures = vec![capture(r"name = (?<name>\w+)")];
    let operators = vec![operator("<name>:append:_suffix")];
    let content = b"name = test";

    let result = regop(&captures, &operators, content).unwrap();
    assert_eq!(result, Some(b"name = test_suffix".to_vec()));
}

#[test]
fn test_append_operation_with_number() {
    let captures = vec![capture(r"version = (?<version>\d+)")];
    let operators = vec![operator("<version>:append:42")];
    let content = b"version = 1";

    let result = regop(&captures, &operators, content).unwrap();
    assert_eq!(result, Some(b"version = 142".to_vec()));
}

#[test]
fn test_prepend_operation() {
    let captures = vec![capture(r"name = (?<name>\w+)")];
    let operators = vec![operator("<name>:prepend:prefix_")];
    let content = b"name = test";

    let result = regop(&captures, &operators, content).unwrap();
    assert_eq!(result, Some(b"name = prefix_test".to_vec()));
}

#[test]
fn test_prepend_operation_with_number() {
    let captures = vec![capture(r"version = (?<version>\d+)")];
    let operators = vec![operator("<version>:prepend:v")];
    let content = b"version = 123";

    let result = regop(&captures, &operators, content).unwrap();
    assert_eq!(result, Some(b"version = v123".to_vec()));
}

#[test]
fn test_upper_operation() {
    let captures = vec![capture(r"text = (?<text>\w+)")];
    let operators = vec![operator("<text>:upper")];
    let content = b"text = hello";

    let result = regop(&captures, &operators, content).unwrap();
    assert_eq!(result, Some(b"text = HELLO".to_vec()));
}

#[test]
fn test_upper_operation_mixed_case() {
    let captures = vec![capture(r"name = (?<name>[A-Za-z]+)")];
    let operators = vec![operator("<name>:upper")];
    let content = b"name = JohnDoe";

    let result = regop(&captures, &operators, content).unwrap();
    assert_eq!(result, Some(b"name = JOHNDOE".to_vec()));
}

#[test]
fn test_lower_operation() {
    let captures = vec![capture(r"text = (?<text>\w+)")];
    let operators = vec![operator("<text>:lower")];
    let content = b"text = HELLO";

    let result = regop(&captures, &operators, content).unwrap();
    assert_eq!(result, Some(b"text = hello".to_vec()));
}

#[test]
fn test_lower_operation_mixed_case() {
    let captures = vec![capture(r"name = (?<name>[A-Za-z]+)")];
    let operators = vec![operator("<name>:lower")];
    let content = b"name = JohnDoe";

    let result = regop(&captures, &operators, content).unwrap();
    assert_eq!(result, Some(b"name = johndoe".to_vec()));
}

#[test]
fn test_multiple_new_operations() {
    let captures = vec![capture(r"(?<text>\w+) = (?<value>\d+)")];
    let operators = vec![operator("<text>:upper"), operator("<value>:mul:2")];
    let content = b"count = 5";

    let result = regop(&captures, &operators, content).unwrap();
    assert_eq!(result, Some(b"COUNT = 10".to_vec()));
}

#[test]
fn test_mul_overflow_protection() {
    let captures = vec![capture(r"value = (?<value>\d+)")];
    let operators = vec![operator("<value>:mul:1000000000000")];
    let content = b"value = 1000000000000";

    let result = regop(&captures, &operators, content).unwrap();
    assert!(result.is_some());
}
