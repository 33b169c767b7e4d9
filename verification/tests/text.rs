use tunly::text::{find_substr, parse_u64, str_eq, str_starts_with, strip_quotes, trim_str, u64_to_dec, u128_to_dec};

#[test]
fn decimal_formatting() {
    assert_eq!(u64_to_dec(0), "0");
    assert_eq!(u64_to_dec(7), "7");
    assert_eq!(u64_to_dec(1700000300), "1700000300");
    assert_eq!(u64_to_dec(u64::MAX), "18446744073709551615");
    assert_eq!(u128_to_dec(340282366920938463463374607431768211455), "340282366920938463463374607431768211455");
}

#[test]
fn decimal_parsing() {
    assert_eq!(parse_u64("0"), Some(0));
    assert_eq!(parse_u64("1700000300"), Some(1700000300));
    assert_eq!(parse_u64("18446744073709551615"), Some(u64::MAX));
    assert_eq!(parse_u64("18446744073709551616"), None);
    assert_eq!(parse_u64(""), None);
    assert_eq!(parse_u64("12a"), None);
    assert_eq!(parse_u64("-1"), None);
}

#[test]
fn trimming_and_quotes() {
    assert_eq!(trim_str("  x y\t"), "x y");
    assert_eq!(trim_str("\r\n"), "");
    assert_eq!(strip_quotes("\"abc\""), "abc");
    assert_eq!(strip_quotes("\"\"\"a\""), "a");
    assert_eq!(strip_quotes("\"\"\"\""), "");
    assert_eq!(strip_quotes("plain"), "plain");
}

#[test]
fn searching_and_comparing() {
    assert!(str_eq("same", "same"));
    assert!(!str_eq("same", "Same"));
    assert!(str_starts_with("prefix-rest", "prefix"));
    assert!(!str_starts_with("pre", "prefix"));
    assert_eq!(find_substr("a://b/c", "://"), Some(1));
    assert_eq!(find_substr("abc", "zz"), None);
}
