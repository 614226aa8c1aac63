use asmo::text::{
    contains_char, first_word, parse_i32, parse_u64, parse_usize, same_text, split_once,
    split_runs, strip_prefix, trim, Delim,
};

#[test]
fn unsigned_parse_follows_std() {
    assert_eq!(parse_u64("42"), Some(42));
    assert_eq!(parse_u64("+42"), Some(42));
    assert_eq!(parse_u64("0"), Some(0));
    assert_eq!(parse_u64(""), None);
    assert_eq!(parse_u64("+"), None);
    assert_eq!(parse_u64("-1"), None);
    assert_eq!(parse_u64("12a"), None);
    assert_eq!(parse_u64(" 1"), None);
    assert_eq!(parse_u64("18446744073709551615"), Some(u64::MAX));
    assert_eq!(parse_u64("18446744073709551616"), None);
    assert_eq!(parse_usize("17"), Some(17));
}

#[test]
fn signed_parse_follows_std() {
    assert_eq!(parse_i32("-5"), Some(-5));
    assert_eq!(parse_i32("+5"), Some(5));
    assert_eq!(parse_i32("-"), None);
    assert_eq!(parse_i32("2147483647"), Some(i32::MAX));
    assert_eq!(parse_i32("2147483648"), None);
    assert_eq!(parse_i32("-2147483648"), Some(i32::MIN));
    assert_eq!(parse_i32("-2147483649"), None);
    assert_eq!(parse_i32("-+1"), None);
}

#[test]
fn runs_drop_empty_pieces() {
    assert_eq!(split_runs("/cores//*/usage/", Delim::Char('/')), vec!["cores", "*", "usage"]);
    assert_eq!(split_runs(" a\tbb  c\n", Delim::Whitespace), vec!["a", "bb", "c"]);
    assert!(split_runs("   ", Delim::Whitespace).is_empty());
}

#[test]
fn trim_and_prefixes() {
    assert_eq!(trim("  level: 85 \r"), "level: 85");
    assert_eq!(trim(" \t "), "");
    assert_eq!(strip_prefix("mBrightness=0.5", "mBrightness="), Some("0.5"));
    assert_eq!(strip_prefix("mBright", "mBrightness="), None);
    assert_eq!(split_once("eth0: 1 2", Delim::Char(':')), Some(("eth0", " 1 2")));
    assert_eq!(split_once("level: 85", Delim::Whitespace), Some(("level:", "85")));
    assert_eq!(split_once("noblank", Delim::Whitespace), None);
    assert_eq!(first_word("  1234.56 789.0"), "1234.56");
    assert_eq!(first_word(""), "");
    assert!(same_text("abc", "abc"));
    assert!(!same_text("abc", "abd"));
    assert!(contains_char("a,b", ','));
    assert!(!contains_char("ab", ','));
}
