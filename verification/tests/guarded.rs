use rulescan::guarded::{calculate, get_first, parse_decimal, parse_number, process_data};

#[test]
fn parse_number_reads_decimal_numerals() {
    assert_eq!(parse_number("42"), 42);
    assert_eq!(parse_number("0"), 0);
    assert_eq!(parse_number("-17"), -17);
    assert_eq!(parse_number("+8"), 8);
    assert_eq!(parse_number("2147483647"), i32::MAX);
    assert_eq!(parse_number("-2147483648"), i32::MIN);
}

#[test]
fn parse_decimal_agrees_with_the_standard_library() {
    let inputs = [
        "", "+", "-", "0", "-0", "+0", "007", "-007", "42", "+42", "-42", "++1", "--1", "+-1",
        "1-", "1+", " 1", "1 ", "1_000", "1a", "a1", "0x10", "1.0", "1e3", "٣", "１", "²",
        "2147483647", "2147483648", "+2147483647", "+2147483648", "-2147483648", "-2147483649",
        "00000000002147483647", "-00000000002147483648", "4294967296", "99999999999999999999",
        "-99999999999999999999", "9223372036854775807", "9223372036854775808",
        "21474836470", "214748364", "-", "−5", "5\n", "\t5",
    ];
    for s in inputs {
        assert_eq!(parse_decimal(s), s.parse::<i32>().ok(), "on {:?}", s);
    }
}

#[test]
fn parse_decimal_agrees_with_the_standard_library_near_the_limits() {
    for n in (i32::MAX as i64 - 30)..(i32::MAX as i64 + 30) {
        for s in [n.to_string(), (-n).to_string(), format!("+{}", n), format!("0{}", n)] {
            assert_eq!(parse_decimal(&s), s.parse::<i32>().ok(), "on {:?}", s);
        }
    }
    for n in -1000..1000 {
        assert_eq!(parse_decimal(&n.to_string()), Some(n));
    }
}

#[test]
fn parse_decimal_refuses_what_is_no_numeral() {
    assert_eq!(parse_decimal(""), None);
    assert_eq!(parse_decimal("-"), None);
    assert_eq!(parse_decimal("+"), None);
    assert_eq!(parse_decimal("12x"), None);
    assert_eq!(parse_decimal("2147483648"), None);
    assert_eq!(parse_decimal("-2147483649"), None);
}

#[test]
fn get_first_gives_the_first_element() {
    assert_eq!(get_first(vec![7]), 7);
    assert_eq!(get_first(vec!["a".to_string(), "b".to_string()]), "a");
    assert_eq!(get_first(vec![3, 2, 1]), 3);
}

#[test]
fn calculate_adds() {
    assert_eq!(calculate(2, 3), 5);
    assert_eq!(calculate(-2, 2), 0);
    assert_eq!(calculate(i32::MAX, i32::MIN), -1);
    assert_eq!(calculate(i32::MAX - 1, 1), i32::MAX);
}

#[test]
fn process_data_gives_upper_case() {
    assert_eq!(process_data(Some("hello".to_string())), "HELLO");
    assert_eq!(process_data(Some("Grüße, Jürgen".to_string())), "GRÜSSE, JÜRGEN");
    assert_eq!(process_data(Some(String::new())), "");
    assert_eq!(process_data(Some("a1-b".to_string())), "A1-B");
}
