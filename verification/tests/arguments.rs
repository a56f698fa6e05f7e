use bf_interpreter::args::{parse_args, parse_memory_size};

fn strings(items: &[&str]) -> Vec<String> {
    items.iter().map(|s| s.to_string()).collect()
}

#[test]
fn two_operands_are_read() {
    let args = parse_args(strings(&["bf", "hello.bf", "30000"])).unwrap();
    assert_eq!(args.path, "hello.bf");
    assert_eq!(args.memory_size, 30000);
}

#[test]
fn wrong_operand_counts_are_refused() {
    assert!(parse_args(strings(&[])).is_none());
    assert!(parse_args(strings(&["bf"])).is_none());
    assert!(parse_args(strings(&["bf", "hello.bf"])).is_none());
    assert!(parse_args(strings(&["bf", "hello.bf", "1", "2"])).is_none());
}

#[test]
fn malformed_memory_size_is_refused() {
    assert!(parse_args(strings(&["bf", "hello.bf", "many"])).is_none());
    assert!(parse_args(strings(&["bf", "hello.bf", "-1"])).is_none());
    assert!(parse_args(strings(&["bf", "hello.bf", ""])).is_none());
}

#[test]
fn memory_size_is_decimal() {
    assert_eq!(parse_memory_size("0"), Some(0));
    assert_eq!(parse_memory_size("007"), Some(7));
    assert_eq!(parse_memory_size("+12"), Some(12));
    assert_eq!(parse_memory_size("30000"), Some(30000));
    assert_eq!(parse_memory_size(&usize::MAX.to_string()), Some(usize::MAX));
    assert_eq!(parse_memory_size(""), None);
    assert_eq!(parse_memory_size("+"), None);
    assert_eq!(parse_memory_size("++1"), None);
    assert_eq!(parse_memory_size("-0"), None);
    assert_eq!(parse_memory_size(" 1"), None);
    assert_eq!(parse_memory_size("1 "), None);
    assert_eq!(parse_memory_size("1_000"), None);
    assert_eq!(parse_memory_size("12a"), None);
    assert_eq!(parse_memory_size("\u{0661}"), None);
    assert_eq!(parse_memory_size("99999999999999999999999999"), None);
}

#[test]
fn memory_size_agrees_with_the_standard_parser() {
    let max = usize::MAX.to_string();
    let mut over = max.clone();
    over.pop();
    over.push('9');
    let over_by_digit = format!("{}0", max);
    for text in ["0", "1", "+5", "18446744073709551615", "18446744073709551616", "x", "+", "", "-3", "0000000000000000000000000001"] {
        assert_eq!(parse_memory_size(text), text.parse::<usize>().ok());
    }
    for text in [max, over, over_by_digit] {
        assert_eq!(parse_memory_size(&text), text.parse::<usize>().ok());
    }
}
