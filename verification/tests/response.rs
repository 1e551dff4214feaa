use gatekeeper::algorithm::Decision;
use gatekeeper::headers::MAX_NAMES;
use gatekeeper::response::{
    build_429_response, inject_rate_limit_headers, reset_time, Response,
};
use gatekeeper::time::{Deadline, Duration, Instant};
use http::HeaderMap;

const NOW: Instant = Instant { nanos: 10_000_000_000 };
const UNIX: Duration = Duration { secs: 1_700_000_000, nanos: 700_000_000 };

fn after(seconds: u128) -> Deadline {
    Deadline { nanos: NOW.nanos as u128 + seconds * 1_000_000_000 }
}

fn make_decision() -> Decision {
    Decision {
        allowed: false,
        remaining: 0,
        limit: 10,
        reset_at: after(5),
        retry_after: Some(Duration::from_secs(3)),
    }
}

fn plain(decision: Option<Decision>) -> Response {
    Response { status: 200, headers: HeaderMap::new(), body: String::new(), decision }
}

fn text<'a>(resp: &'a Response, name: &str) -> &'a str {
    resp.headers.get(name).unwrap().to_str().unwrap()
}

#[test]
fn build_429_has_correct_status() {
    let d = make_decision();
    let resp = build_429_response(&d, "test");
    assert_eq!(resp.status, 429);
    assert!(resp.headers.get("retry-after").is_some());
}

#[test]
fn build_429_has_decision_in_extensions() {
    let d = make_decision();
    let resp = build_429_response(&d, "test");
    assert!(resp.decision.is_some());
    assert_eq!(resp.decision, Some(d));
}

#[test]
fn header_layer_injects_on_response_with_decision() {
    let d = Decision {
        allowed: true,
        remaining: 7,
        limit: 10,
        reset_at: after(10),
        retry_after: None,
    };
    let mut resp = plain(Some(d));
    assert!(inject_rate_limit_headers(&mut resp, NOW, UNIX));
    assert!(resp.headers.get("x-ratelimit-limit").is_some());
    assert!(resp.headers.get("x-ratelimit-remaining").is_some());
    assert!(resp.headers.get("x-ratelimit-reset").is_some());
    assert_eq!(text(&resp, "x-ratelimit-limit"), "10");
    assert_eq!(text(&resp, "x-ratelimit-remaining"), "7");
    assert_eq!(text(&resp, "x-ratelimit-reset"), "1700000010");
    assert!(resp.headers.get("retry-after").is_none());
}

#[test]
fn header_layer_no_op_without_decision() {
    let mut resp = plain(None);
    assert!(inject_rate_limit_headers(&mut resp, NOW, UNIX));
    assert!(resp.headers.get("x-ratelimit-limit").is_none());
    assert!(resp.headers.get("x-ratelimit-remaining").is_none());
    assert!(resp.headers.get("x-ratelimit-reset").is_none());
    assert!(resp.headers.is_empty());
}

#[test]
fn a_denied_requester_reads_why() {
    let resp = build_429_response(&make_decision(), "api");
    assert_eq!(
        resp.body,
        "{\"error\":\"rate_limit_exceeded\",\"limit\":10,\"message\":\"Too many requests. Retry \
         after 3 seconds.\",\"policy\":\"api\",\"retry_after\":3}"
    );
    assert_eq!(text(&resp, "content-type"), "application/json");
    assert_eq!(text(&resp, "retry-after"), "3");
    assert_eq!(resp.headers.len(), 2);
}

#[test]
fn the_wait_is_a_second_at_least() {
    let mut d = make_decision();
    d.retry_after = Some(Duration { secs: 0, nanos: 100 });
    assert_eq!(text(&build_429_response(&d, "p"), "retry-after"), "1");
    d.retry_after = None;
    assert_eq!(text(&build_429_response(&d, "p"), "retry-after"), "1");
    d.retry_after = Some(Duration { secs: 2, nanos: 999_999_999 });
    assert_eq!(text(&build_429_response(&d, "p"), "retry-after"), "2");
    d.retry_after = Some(Duration { secs: u64::MAX, nanos: 0 });
    assert_eq!(text(&build_429_response(&d, "p"), "retry-after"), "18446744073709551615");
}

#[test]
fn names_of_policies_are_quoted() {
    let name = "a\"b\\c\u{8}\u{c}\n\r\t\u{1}\u{1f}/\u{7f}\u{e9}\u{1f600}";
    let resp = build_429_response(&make_decision(), name);
    assert!(resp.body.contains(
        "\"policy\":\"a\\\"b\\\\c\\b\\f\\n\\r\\t\\u0001\\u001f/\u{7f}\u{e9}\u{1f600}\""
    ));
    let value: serde_json::Value = serde_json::from_str(&resp.body).unwrap();
    assert_eq!(value["policy"], name);
    assert_eq!(value["limit"], 10);
    assert_eq!(value["retry_after"], 3);
    assert_eq!(value["error"], "rate_limit_exceeded");
    assert_eq!(value["message"], "Too many requests. Retry after 3 seconds.");
}

#[test]
fn what_was_told_before_is_replaced() {
    let mut resp = build_429_response(&make_decision(), "p");
    resp.headers.append("x-ratelimit-limit", "1".parse().unwrap());
    resp.headers.append("x-ratelimit-limit", "2".parse().unwrap());
    assert!(inject_rate_limit_headers(&mut resp, NOW, UNIX));
    assert_eq!(resp.headers.get_all("x-ratelimit-limit").iter().count(), 1);
    assert_eq!(text(&resp, "x-ratelimit-limit"), "10");
    assert_eq!(text(&resp, "x-ratelimit-remaining"), "0");
    assert_eq!(text(&resp, "x-ratelimit-reset"), "1700000005");
    assert_eq!(text(&resp, "retry-after"), "3");
    assert_eq!(text(&resp, "content-type"), "application/json");
    assert_eq!(resp.status, 429);
}

#[test]
fn a_reset_that_has_passed_is_now() {
    let mut d = make_decision();
    d.reset_at = Deadline { nanos: 3 };
    assert_eq!(reset_time(&d, NOW, UNIX), Some(1_700_000_000));
    d.reset_at = Deadline { nanos: NOW.nanos as u128 + 300_000_000 };
    assert_eq!(reset_time(&d, NOW, UNIX), Some(1_700_000_001));
}

#[test]
fn a_reset_beyond_all_time_has_no_number() {
    let mut d = make_decision();
    d.reset_at = Deadline { nanos: u128::MAX };
    assert_eq!(reset_time(&d, NOW, UNIX), None);
    d.reset_at = after((1 << 64) - 1_700_000_001);
    assert_eq!(reset_time(&d, NOW, UNIX), Some(u64::MAX));
    d.reset_at = after((1 << 64) - 1_700_000_000);
    assert_eq!(reset_time(&d, NOW, UNIX), None);
}

#[test]
fn a_map_takes_more_names_than_it_has_room_for() {
    for names in [MAX_NAMES - 3, MAX_NAMES, 10_000, 20_000] {
        let mut resp = plain(Some(make_decision()));
        for i in 0..names {
            let name: http::HeaderName = format!("n{i}").parse().unwrap();
            resp.headers.insert(name, "x".parse().unwrap());
        }
        assert!(inject_rate_limit_headers(&mut resp, NOW, UNIX));
        assert_eq!(resp.headers.keys_len(), names + 4);
    }
}

#[test]
fn a_full_map_is_reported() {
    let mut resp = plain(Some(make_decision()));
    for i in 0..24_576 {
        let name: http::HeaderName = format!("n{i}").parse().unwrap();
        resp.headers.insert(name, "x".parse().unwrap());
    }
    assert!(!inject_rate_limit_headers(&mut resp, NOW, UNIX));
    assert_eq!(resp.headers.keys_len(), 24_576);
    resp.decision = None;
    assert!(inject_rate_limit_headers(&mut resp, NOW, UNIX));
}
