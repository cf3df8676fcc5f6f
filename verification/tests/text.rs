use webrtc_relay::text::{
    contains, eq_ignore_ascii_case, parse_u32, parse_u8, same_text, split_once, starts_with,
};

#[test]
fn text_is_split_at_the_first_separator() {
    assert_eq!(split_once("a=b=c", '='), Some(("a", "b=c")));
    assert_eq!(split_once("=", '='), Some(("", "")));
    assert_eq!(split_once("abc", '='), None);
    assert_eq!(split_once("", '='), None);
    assert_eq!(split_once("naïve=ü", '='), Some(("naïve", "ü")));
}

#[test]
fn split_parts_give_the_text_back() {
    let (before, after) = split_once("96 H264/90000", ' ').unwrap();
    assert_eq!(format!("{before} {after}"), "96 H264/90000");
    assert!(!before.contains(' '));
}

#[test]
fn numbers_are_read_as_unsigned_decimals() {
    assert_eq!(parse_u8("0"), Some(0));
    assert_eq!(parse_u8("255"), Some(255));
    assert_eq!(parse_u8("256"), None);
    assert_eq!(parse_u8("+96"), Some(96));
    assert_eq!(parse_u8("0000000000000000000096"), Some(96));
    assert_eq!(parse_u8(""), None);
    assert_eq!(parse_u8("+"), None);
    assert_eq!(parse_u8("++1"), None);
    assert_eq!(parse_u8("-1"), None);
    assert_eq!(parse_u8(" 1"), None);
    assert_eq!(parse_u8("1 "), None);
    assert_eq!(parse_u8("1_0"), None);
    assert_eq!(parse_u32("4294967295"), Some(4294967295));
    assert_eq!(parse_u32("4294967296"), None);
    assert_eq!(parse_u32("99999999999999999999999999"), None);
}

#[test]
fn numbers_agree_with_the_standard_parser() {
    for text in [
        "0", "7", "10", "007", "255", "256", "300", "+5", "-5", "-0", "+", "", "1a", "a1", "٣", "1.0",
        "18446744073709551617",
    ] {
        assert_eq!(parse_u8(text), text.parse::<u8>().ok(), "{text}");
        assert_eq!(parse_u32(text), text.parse::<u32>().ok(), "{text}");
    }
}

#[test]
fn text_is_compared_and_searched() {
    assert!(same_text("fmtp", "fmtp"));
    assert!(!same_text("fmtp", "fmt"));
    assert!(!same_text("fmtp", "FMTP"));
    assert!(starts_with("640c1f", "64"));
    assert!(!starts_with("6", "64"));
    assert!(starts_with("x", ""));
    assert!(contains("a;packetization-mode=1;b", "packetization-mode=1"));
    assert!(!contains("packetization-mode=0", "packetization-mode=1"));
    assert!(contains("abab", "bab"));
    assert!(!contains("ab", "abc"));
    assert!(contains("", ""));
}

#[test]
fn case_is_ignored_for_ascii_letters_only() {
    assert!(eq_ignore_ascii_case("h264", "H264"));
    assert!(eq_ignore_ascii_case("aV1", "Av1"));
    assert!(!eq_ignore_ascii_case("H264", "H265"));
    assert!(!eq_ignore_ascii_case("H26", "H264"));
    assert!(!eq_ignore_ascii_case("Ä", "ä"));
    // '[' and '{' are as far apart as a letter and its lower case
    assert!(!eq_ignore_ascii_case("[", "{"));
}
