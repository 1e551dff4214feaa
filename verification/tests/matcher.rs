use gatekeeper::config::MatchRule;
use gatekeeper::policy::matcher::{path_matches, policy_matches};

#[test]
fn exact_match() {
    assert!(path_matches("/api/v1/users", "/api/v1/users"));
}

#[test]
fn trailing_wildcard_one_segment() {
    assert!(path_matches("/api/*", "/api/users"));
}

#[test]
fn trailing_wildcard_multiple_segments() {
    assert!(path_matches("/api/*", "/api/users/123/profile"));
}

#[test]
fn trailing_wildcard_requires_at_least_one_segment() {
    assert!(!path_matches("/api/*", "/api"));
    assert!(!path_matches("/api/*", "/api/"));
}

#[test]
fn mid_wildcard_matches_exactly_one_segment() {
    assert!(path_matches("/api/*/users", "/api/v1/users"));
    assert!(!path_matches("/api/*/users", "/api/v1/v2/users"));
}

#[test]
fn different_prefix_no_match() {
    assert!(!path_matches("/api/*", "/v2/users"));
}

#[test]
fn root_matches_root() {
    assert!(path_matches("/", "/"));
}

#[test]
fn root_does_not_match_non_root() {
    assert!(!path_matches("/", "/api"));
}

#[test]
fn healthz_exact() {
    assert!(path_matches("/healthz", "/healthz"));
    assert!(!path_matches("/healthz", "/healthz/extra"));
}

fn make_rule(path: &str, methods: Option<Vec<&str>>) -> MatchRule {
    MatchRule {
        path: path.to_string(),
        methods: methods.map(|ms| ms.iter().map(|m| m.to_string()).collect()),
    }
}

#[test]
fn policy_matches_with_methods() {
    let rule = make_rule("/api/*", Some(vec!["GET", "POST"]));
    assert!(policy_matches(&rule, "/api/users", "GET"));
    assert!(policy_matches(&rule, "/api/users", "POST"));
    assert!(!policy_matches(&rule, "/api/users", "DELETE"));
}

#[test]
fn policy_matches_any_method() {
    let rule = make_rule("/api/*", None);
    assert!(policy_matches(&rule, "/api/users", "GET"));
    assert!(policy_matches(&rule, "/api/users", "DELETE"));
    assert!(policy_matches(&rule, "/api/users", "PATCH"));
}

#[test]
fn policy_no_match_wrong_path() {
    let rule = make_rule("/api/*", None);
    assert!(!policy_matches(&rule, "/v2/users", "GET"));
}

#[test]
fn policy_matches_method_case_insensitive() {
    let rule = make_rule("/api/*", Some(vec!["get"]));
    assert!(policy_matches(&rule, "/api/users", "GET"));
}

#[test]
fn methods_are_compared_in_upper_case() {
    let rule = make_rule("/*", Some(vec!["stra\u{df}e"]));
    assert!(policy_matches(&rule, "/x", "STRASSE"));
    assert!(!policy_matches(&rule, "/x", "STRASE"));
    let none = make_rule("/*", Some(vec![]));
    assert!(!policy_matches(&none, "/x", "GET"));
}

#[test]
fn repeated_and_outer_slashes_do_not_matter() {
    assert!(path_matches("api//users/", "/api/users"));
    assert!(path_matches("/api/users", "//api/users//"));
    assert!(path_matches("", "/"));
}

#[test]
fn a_lone_wildcard_matches_all_but_the_root() {
    assert!(path_matches("*", "/a"));
    assert!(path_matches("/*", "/a/b/c"));
    assert!(!path_matches("/*", "/"));
}

#[test]
fn two_wildcards_at_the_end() {
    assert!(!path_matches("/api/*/*", "/api/a"));
    assert!(path_matches("/api/*/*", "/api/a/b"));
    assert!(path_matches("/api/*/*", "/api/a/b/c"));
}

#[test]
fn a_wildcard_within_a_segment_is_a_literal() {
    assert!(!path_matches("/api/v*", "/api/v1"));
    assert!(path_matches("/api/v*", "/api/v*"));
}

#[test]
fn every_pattern_matches_itself() {
    for pattern in ["/", "/a/b", "/a/*", "/*/b", "*", "/a/*/*"] {
        assert!(path_matches(pattern, pattern), "{pattern}");
    }
}

#[test]
fn more_methods_lose_no_match() {
    let rule = make_rule("/a/*", Some(vec!["GET", "stra\u{df}e"]));
    let wider = make_rule("/a/*", Some(vec!["PUT", "STRASSE", "get"]));
    let all = make_rule("/a/*", None);
    for method in ["GET", "get", "gEt", "stra\u{df}e", "STRASSE"] {
        assert!(policy_matches(&rule, "/a/b", method), "{method}");
        assert!(policy_matches(&wider, "/a/b", method), "{method}");
        assert!(policy_matches(&all, "/a/b", method), "{method}");
    }
    assert!(!policy_matches(&rule, "/a/b", "PUT"));
}

#[test]
fn case_does_not_matter_beside_other_letters() {
    let rule = make_rule("/a", Some(vec!["g\u{e9}t-\u{fb01}x"]));
    for method in ["g\u{e9}t-\u{fb01}x", "G\u{e9}T-\u{fb01}X", "g\u{c9}T-FIx"] {
        assert!(policy_matches(&rule, "/a", method), "{method}");
    }
    assert!(!policy_matches(&rule, "/a", "get-fix"));
}
