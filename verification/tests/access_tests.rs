use trans_proxy::access::{glob_match, IpWhitelist};

#[test]
fn supports_exact_match() {
    assert!(glob_match("192.168.1.10", "192.168.1.10"));
    assert!(!glob_match("192.168.1.10", "192.168.1.11"));
}

#[test]
fn supports_wildcard_match() {
    assert!(glob_match("192.168.1.*", "192.168.1.10"));
    assert!(glob_match("10.0.?.5", "10.0.1.5"));
    assert!(!glob_match("10.0.?.5", "10.0.10.5"));
}

#[test]
fn supports_ipv6_match() {
    assert!(glob_match("2001:db8::*", "2001:db8::1"));
    assert!(!glob_match("2001:db9::*", "2001:db8::1"));
}

#[test]
fn star_matches_everything_including_empty() {
    assert!(glob_match("*", ""));
    assert!(glob_match("*", "10.0.0.1"));
    assert!(glob_match("**", "abc"));
}

#[test]
fn empty_pattern_matches_only_empty_value() {
    assert!(glob_match("", ""));
    assert!(!glob_match("", "a"));
}

#[test]
fn star_in_the_middle_backtracks() {
    assert!(glob_match("10.*.5", "10.0.0.5"));
    assert!(glob_match("a*b*c", "axxbyyc"));
    assert!(!glob_match("a*b*c", "axxbyy"));
    assert!(glob_match("*.5", "1.5.5"));
}

#[test]
fn question_mark_needs_exactly_one_character() {
    assert!(!glob_match("?", ""));
    assert!(glob_match("?", "x"));
    assert!(!glob_match("?", "xy"));
    assert!(glob_match("?", "é"));
    assert!(glob_match("a?c", "aöc"));
}

#[test]
fn pattern_star_stays_a_wildcard_against_a_star_in_the_value() {
    assert!(glob_match("*a", "*ba"));
    assert!(glob_match("*a", "xba"));
    assert!(glob_match("a*", "a*"));
    assert!(!glob_match("*a", "*b"));
}

#[test]
fn empty_whitelist_allows_everyone() {
    let list = IpWhitelist::new(Vec::new());
    assert!(list.is_allowed("192.168.1.20"));
    assert!(list.is_allowed("::1"));
    assert!(list.patterns().is_empty());
}

#[test]
fn whitelist_allows_only_matching_clients() {
    let list = IpWhitelist::new(vec![
        "192.168.1.*".to_string(),
        "10.0.0.5".to_string(),
        "2001:db8::*".to_string(),
    ]);
    assert!(list.is_allowed("192.168.1.20"));
    assert!(list.is_allowed("10.0.0.5"));
    assert!(list.is_allowed("2001:db8::42"));
    assert!(!list.is_allowed("10.0.0.6"));
    assert!(!list.is_allowed("192.168.2.1"));
    assert_eq!(list.patterns().len(), 3);
    assert_eq!(list.patterns()[1], "10.0.0.5");
}
