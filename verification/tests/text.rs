use task_tracker::text::{chars_of, contains_exec, parse_i64, parse_u32, split_chars, str_equal, str_less};

fn chars(s: &str) -> Vec<char> {
    s.chars().collect()
}

#[test]
fn parse_signed() {
    assert_eq!(parse_i64(&chars("42")), Some(42));
    assert_eq!(parse_i64(&chars("+7")), Some(7));
    assert_eq!(parse_i64(&chars("-0")), Some(0));
    assert_eq!(parse_i64(&chars("-15")), Some(-15));
    assert_eq!(parse_i64(&chars("9223372036854775807")), Some(i64::MAX));
    assert_eq!(parse_i64(&chars("-9223372036854775808")), Some(i64::MIN));
    assert_eq!(parse_i64(&chars("9223372036854775808")), None);
    assert_eq!(parse_i64(&chars("")), None);
    assert_eq!(parse_i64(&chars("+")), None);
    assert_eq!(parse_i64(&chars("-")), None);
    assert_eq!(parse_i64(&chars("1a")), None);
    assert_eq!(parse_i64(&chars(" 1")), None);
}

#[test]
fn parse_unsigned() {
    assert_eq!(parse_u32(&chars("4294967295")), Some(u32::MAX));
    assert_eq!(parse_u32(&chars("4294967296")), None);
    assert_eq!(parse_u32(&chars("+3")), Some(3));
    assert_eq!(parse_u32(&chars("-3")), None);
    assert_eq!(parse_u32(&chars("-0")), None);
    assert_eq!(parse_u32(&chars("007")), Some(7));
}

#[test]
fn parse_agrees_with_std() {
    for s in ["12", "+12", "-12", "", "+", "-", "x", "99999999999999999999", "4294967296", "-0", "0"] {
        assert_eq!(parse_i64(&chars(s)), s.parse::<i64>().ok(), "i64 {s:?}");
        assert_eq!(parse_u32(&chars(s)), s.parse::<u32>().ok(), "u32 {s:?}");
    }
}

#[test]
fn split_like_std() {
    for s in ["days:3", "nth:2:Mon", "", ":", "a::b:", "none"] {
        let parts: Vec<String> = split_chars(&chars(s), ':').into_iter().map(|p| p.into_iter().collect()).collect();
        let expected: Vec<String> = s.split(':').map(|p| p.to_string()).collect();
        assert_eq!(parts, expected);
    }
}

#[test]
fn order_and_equality() {
    assert!(str_less("2024-01-01", "2024-01-02"));
    assert!(!str_less("2024-01-02", "2024-01-01"));
    assert!(!str_less("abc", "abc"));
    assert!(str_less("ab", "abc"));
    assert!(str_less("Z", "a"));
    assert!(str_equal("done", "done"));
    assert!(!str_equal("done", "Done"));
    assert_eq!(chars_of("héllo"), vec!['h', 'é', 'l', 'l', 'o']);
}

#[test]
fn substring_search() {
    assert!(contains_exec(&chars("buy milk"), &chars("milk")));
    assert!(contains_exec(&chars("buy milk"), &chars("")));
    assert!(!contains_exec(&chars("buy milk"), &chars("milks")));
    assert!(!contains_exec(&chars(""), &chars("a")));
    assert!(contains_exec(&chars("aaab"), &chars("aab")));
}
