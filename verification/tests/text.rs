use combathelper::text::{
    char_is_whitespace, i32_to_decimal, split_whitespace, str_eq, str_starts_with, str_to_i32,
    u128_to_decimal,
};

#[test]
fn decimals_match_to_string() {
    for x in [0i32, 7, -7, 10, 99, 100, -100, 12345, i32::MAX, i32::MIN] {
        assert_eq!(i32_to_decimal(x), x.to_string());
    }
    assert_eq!(u128_to_decimal(0), "0");
    assert_eq!(u128_to_decimal(u64::MAX as u128), u64::MAX.to_string());
    assert_eq!(u128_to_decimal(u128::MAX), u128::MAX.to_string());
}

#[test]
fn parsing_matches_str_parse() {
    for s in [
        "0", "42", "-42", "+42", "007", "-0", "", "+", "-", "--1", "1-", "12a", " 1", "1 ",
        "2147483647", "2147483648", "-2147483648", "-2147483649", "99999999999999999999", "٣",
    ] {
        assert_eq!(str_to_i32(s), s.parse::<i32>().ok(), "on {:?}", s);
    }
}

#[test]
fn parsing_reads_back_decimals() {
    for x in [0i32, 1, -1, 15, i32::MAX, i32::MIN] {
        assert_eq!(str_to_i32(&i32_to_decimal(x)), Some(x));
    }
}

#[test]
fn words_match_split_whitespace() {
    for s in [
        "",
        "   ",
        "show",
        "  heal  Goblin   5  ",
        "a\tb\nc\u{3000}d\u{85}e",
        "x\u{a0}y z",
        "unicode wörds ✓",
    ] {
        let mine: Vec<&str> = split_whitespace(s);
        let std: Vec<&str> = s.split_whitespace().collect();
        assert_eq!(mine, std, "on {:?}", s);
    }
}

#[test]
fn whitespace_matches_char_is_whitespace() {
    for u in 0u32..0x3100 {
        if let Some(c) = char::from_u32(u) {
            assert_eq!(char_is_whitespace(c), c.is_whitespace(), "on {:x}", u);
        }
    }
}

#[test]
fn string_comparisons() {
    assert!(str_eq("abc", "abc"));
    assert!(!str_eq("abc", "abd"));
    assert!(!str_eq("ab", "abc"));
    assert!(str_starts_with("initiative", "init"));
    assert!(str_starts_with("load", ""));
    assert!(!str_starts_with("lo", "load"));
    assert!(!str_starts_with("order", "ol"));
}
