use dnssync::text::{
    find_str, split_char, str_contains, str_ends_with, str_eq, str_eq_ignore_ascii_case,
    to_ascii_lower, to_ascii_upper, trim_str,
};

#[test]
fn case_insensitive_equality_folds_ascii_only() {
    assert!(str_eq_ignore_ascii_case("Host.Example.COM", "host.example.com"));
    assert!(str_eq_ignore_ascii_case("AAAA", "aaaa"));
    assert!(!str_eq_ignore_ascii_case("host", "hos"));
    assert!(!str_eq_ignore_ascii_case("host", "host.example"));
}

#[test]
fn upper_and_lower_change_only_ascii_letters() {
    assert_eq!(to_ascii_upper("cname-1.example"), "CNAME-1.EXAMPLE");
    assert_eq!(to_ascii_lower("MX 10"), "mx 10");
    assert_eq!(to_ascii_upper(""), "");
}

#[test]
fn substring_search_finds_first_occurrence() {
    assert_eq!(find_str("Managed by DNSSync instance:a", "instance:"), Some(19));
    assert_eq!(find_str("abcabc", "abc"), Some(0));
    assert_eq!(find_str("abc", "abcd"), None);
    assert!(str_contains("Managed by DNSSync", "DNSSync"));
    assert!(!str_contains("managed by hand", "DNSSync"));
}

#[test]
fn suffix_test_is_exact() {
    assert!(str_ends_with("host.svc.example.com", "svc.example.com"));
    assert!(!str_ends_with("host.svcexample.com", "vc.example.comx"));
    assert!(str_ends_with("example.com", "example.com"));
    assert!(!str_ends_with("com", "example.com"));
}

#[test]
fn trimming_removes_surrounding_whitespace_only() {
    assert_eq!(trim_str("  a b \t\n"), "a b");
    assert_eq!(trim_str("abc"), "abc");
    assert_eq!(trim_str(" \t "), "");
}

#[test]
fn splitting_keeps_empty_pieces() {
    let pieces = split_char("10.0.0.1\nfd00::1\n", '\n');
    assert_eq!(pieces, vec!["10.0.0.1".to_string(), "fd00::1".to_string(), "".to_string()]);
    assert_eq!(split_char("", ','), vec!["".to_string()]);
    assert_eq!(str_eq("a", "a"), true);
    assert_eq!(str_eq("a", "A"), false);
}
