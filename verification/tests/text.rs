use renote::repo::fork_branch_name;
use renote::repo::release_commit_message;
use renote::text::contains_str;
use renote::text::first_line;
use renote::text::parse_u64;
use renote::text::split_lines;
use renote::text::starts_with_str;
use renote::text::str_lex_leq;
use renote::text::u64_to_dec;
use renote::time::since_date_string;

#[test]
fn decimal_rendering() {
    assert_eq!(u64_to_dec(0), "0");
    assert_eq!(u64_to_dec(7), "7");
    assert_eq!(u64_to_dec(12345), "12345");
    assert_eq!(u64_to_dec(u64::MAX), "18446744073709551615");
}

#[test]
fn decimal_parsing() {
    assert_eq!(parse_u64("0"), Some(0));
    assert_eq!(parse_u64("042"), Some(42));
    assert_eq!(parse_u64("+42"), Some(42));
    assert_eq!(parse_u64("18446744073709551615"), Some(u64::MAX));
    assert_eq!(parse_u64("18446744073709551616"), None);
    assert_eq!(parse_u64(""), None);
    assert_eq!(parse_u64("+"), None);
    assert_eq!(parse_u64("1x"), None);
}

#[test]
fn line_handling() {
    assert_eq!(first_line("fix X\nmore"), "fix X");
    assert_eq!(first_line("fix X\r\nmore"), "fix X");
    assert_eq!(first_line("no newline"), "no newline");
    assert_eq!(first_line(""), "");
    assert_eq!(split_lines("a\nb\n"), vec!["a", "b"]);
    assert_eq!(split_lines("a\r\nb"), vec!["a", "b"]);
    assert_eq!(split_lines(""), Vec::<String>::new());
}

#[test]
fn prefix_and_substring_tests() {
    assert!(starts_with_str("2222222200", "22222222"));
    assert!(!starts_with_str("2222222200", "11111111"));
    assert!(contains_str("https://g/o/r/pull/9", "pull"));
    assert!(!contains_str("https://g/o/r/issues/9", "pull"));
}

#[test]
fn lexicographic_order() {
    assert!(str_lex_leq("amy", "zed"));
    assert!(!str_lex_leq("zed", "amy"));
    assert!(str_lex_leq("amy", "amy"));
    assert!(str_lex_leq("am", "amy"));
}

#[test]
fn release_messages() {
    assert_eq!(release_commit_message("", "v1.5.1"), "release: v1.5.1");
    assert_eq!(release_commit_message("custom", "v1.5.1"), "custom");
    assert_eq!(fork_branch_name("v1.5.1"), "pr-v1.5.1");
}

#[test]
fn since_date_rendering() {
    // the previous tag's commit time wins when representable
    assert_eq!(
        since_date_string(Some(0), 1_000_000_000, 14),
        Some("1970-01-01T00:00:00Z".to_string())
    );
    assert_eq!(
        since_date_string(Some(1431648000), 1_000_000_000, 14),
        Some("2015-05-15T00:00:00Z".to_string())
    );
    // otherwise the bound falls back to a day count before now
    assert_eq!(
        since_date_string(None, 14 * 86400, 14),
        Some("1970-01-01T00:00:00Z".to_string())
    );
    assert_eq!(
        since_date_string(Some(i64::MIN), 14 * 86400, 14),
        Some("1970-01-01T00:00:00Z".to_string())
    );
}
