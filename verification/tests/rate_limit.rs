use gatekeeper::algorithm::token_bucket::TokenBucket;
use gatekeeper::algorithm::{Decision, LimiterError};
use gatekeeper::binary64::Binary64;
use gatekeeper::config::FailMode;
use gatekeeper::identity::ip::IpExtractor;
use gatekeeper::middleware::access_control::AllowlistBypassed;
use gatekeeper::middleware::rate_limit::{respond, RateLimitLayer, Verdict};
use gatekeeper::network::{IpAddr, SocketAddr};
use gatekeeper::policy::ResolvedPolicy;
use gatekeeper::request::Request;
use gatekeeper::store::memory::MemoryStore;
use gatekeeper::store::StoreError;
use gatekeeper::time::{Deadline, Duration, Instant};
use http::HeaderMap;

const NOW: Instant = Instant { nanos: 1_000_000 };

fn make_layer(capacity: u64) -> RateLimitLayer<TokenBucket, IpExtractor> {
    let limiter = TokenBucket::new(capacity, Binary64 { bits: 0 });
    RateLimitLayer::new(limiter, IpExtractor, FailMode::Open, 1)
}

fn req_with_addr(ip: [u8; 4]) -> Request {
    Request {
        method: "GET".to_string(),
        path: "/".to_string(),
        path_and_query: Some("/".to_string()),
        headers: HeaderMap::new(),
        peer: Some(SocketAddr { ip: IpAddr::V4(u32::from_be_bytes(ip)), port: 1234 }),
        bypass: None,
    }
}

/// The status of the response, that of a forwarded request being 200, and its decision.
fn outcome(verdict: Verdict) -> (u16, Option<Decision>) {
    match verdict {
        Verdict::Skipped => (200, None),
        Verdict::Allowed(decision) => (200, Some(decision)),
        Verdict::Denied(resp) => (resp.status, resp.decision),
        Verdict::FailedOpen(_) => (200, None),
        Verdict::FailedClosed(_, resp) => (resp.status, resp.decision),
        Verdict::Endless => panic!("endless wait"),
    }
}

#[test]
fn allows_request_within_limit() {
    let mut store = MemoryStore::new(1000);
    let layer = make_layer(10);
    let (status, decision) = outcome(layer.call(&req_with_addr([127, 0, 0, 1]), &mut store, NOW));
    assert_eq!(status, 200);
    assert!(decision.is_some());
}

#[test]
fn returns_429_when_exhausted() {
    let mut store = MemoryStore::new(1000);
    let layer = make_layer(2);
    let req = req_with_addr([10, 0, 0, 1]);
    assert_eq!(outcome(layer.call(&req, &mut store, NOW)).0, 200);
    assert_eq!(outcome(layer.call(&req, &mut store, NOW)).0, 200);
    assert_eq!(outcome(layer.call(&req, &mut store, NOW)).0, 429);
}

#[test]
fn different_ips_have_separate_buckets() {
    let mut store = MemoryStore::new(1000);
    let layer = make_layer(1);
    assert_eq!(outcome(layer.call(&req_with_addr([10, 0, 0, 1]), &mut store, NOW)).0, 200);
    assert_eq!(outcome(layer.call(&req_with_addr([10, 0, 0, 2]), &mut store, NOW)).0, 200);
}

fn decision(allowed: bool) -> Decision {
    Decision {
        allowed,
        remaining: 0,
        limit: 10,
        reset_at: Deadline { nanos: 5 },
        retry_after: Some(Duration { secs: 3, nanos: 5 }),
    }
}

fn broken() -> LimiterError {
    LimiterError::Store(StoreError::Unavailable("x".to_string()))
}

#[test]
fn an_allowed_request_goes_on() {
    match respond(Ok(decision(true)), FailMode::Closed, "p") {
        Verdict::Allowed(d) => assert_eq!(d, decision(true)),
        _ => panic!("not allowed"),
    }
}

#[test]
fn a_denied_request_is_told_the_policy() {
    match respond(Ok(decision(false)), FailMode::Open, "say \"p\"") {
        Verdict::Denied(resp) => {
            assert_eq!(resp.status, 429);
            assert_eq!(resp.decision, Some(decision(false)));
            let value: serde_json::Value = serde_json::from_str(&resp.body).unwrap();
            assert_eq!(value["policy"], "say \"p\"");
        }
        _ => panic!("not denied"),
    }
}

#[test]
fn a_failure_lets_through_or_not() {
    match respond(Err(broken()), FailMode::Open, "p") {
        Verdict::FailedOpen(error) => assert_eq!(error, broken()),
        _ => panic!("not let through"),
    }
    match respond(Err(broken()), FailMode::Closed, "p") {
        Verdict::FailedClosed(error, resp) => {
            assert_eq!(error, broken());
            assert_eq!(resp.status, 503);
            assert_eq!(resp.body, "service unavailable");
            assert!(resp.headers.is_empty());
            assert!(resp.decision.is_none());
        }
        _ => panic!("let through"),
    }
    assert!(matches!(
        respond(Err(LimiterError::Endless), FailMode::Open, "p"),
        Verdict::Endless
    ));
}

#[test]
fn requests_are_counted_by_status() {
    let verdict = |result, mode| respond(result, mode, "p");
    assert_eq!(verdict(Ok(decision(true)), FailMode::Open).metric_status(), Some("allowed"));
    assert_eq!(verdict(Ok(decision(false)), FailMode::Open).metric_status(), Some("denied"));
    assert_eq!(verdict(Err(broken()), FailMode::Open).metric_status(), Some("error"));
    assert_eq!(verdict(Err(broken()), FailMode::Closed).metric_status(), None);
    assert_eq!(Verdict::Skipped.metric_status(), None);
    assert_eq!(Verdict::Endless.metric_status(), None);
}

#[test]
fn a_marked_request_is_not_counted() {
    let mut store = MemoryStore::new(1000);
    let layer = make_layer(1);
    let mut req = req_with_addr([10, 0, 0, 1]);
    req.bypass = Some(AllowlistBypassed);
    for _ in 0..5 {
        assert!(matches!(layer.call(&req, &mut store, NOW), Verdict::Skipped));
    }
    assert_eq!(store.bucket_count(), 0);
}

#[test]
fn unknown_requesters_share_a_bucket() {
    let mut store = MemoryStore::new(1000);
    let layer = make_layer(1);
    let mut req = req_with_addr([10, 0, 0, 1]);
    req.peer = None;
    assert_eq!(outcome(layer.call(&req, &mut store, NOW)).0, 200);
    assert_eq!(outcome(layer.call(&req, &mut store, NOW)).0, 429);
    assert!(store.lookup("unknown").is_some());
}

#[test]
fn buckets_are_named_after_policy_and_requester() {
    let mut store = MemoryStore::new(1000);
    let policy = |name: &str| ResolvedPolicy {
        name: name.to_string(),
        limiter: TokenBucket::new(1, Binary64 { bits: 0 }),
        extractor: IpExtractor,
        cost: 1,
        bypass: false,
    };
    let req = req_with_addr([10, 0, 0, 1]);
    for name in ["a", "b", "a:ip"] {
        let layer = RateLimitLayer::for_policy(&policy(name), FailMode::Open);
        assert_eq!(outcome(layer.call(&req, &mut store, NOW)).0, 200);
        match layer.call(&req, &mut store, NOW) {
            Verdict::Denied(resp) => assert!(resp.body.contains(&format!("\"policy\":\"{name}\""))),
            _ => panic!("not denied"),
        }
    }
    assert_eq!(store.bucket_count(), 3);
    assert!(store.lookup("1:a:ip:10.0.0.1").is_some());
    assert!(store.lookup("4:a:ip:ip:10.0.0.1").is_some());
    let plain = make_layer(1);
    assert_eq!(outcome(plain.call(&req, &mut store, NOW)).0, 200);
    assert!(store.lookup("ip:10.0.0.1").is_some());
}

#[test]
fn an_endless_wait_is_a_verdict() {
    let mut store = MemoryStore::new(1000);
    let limiter = TokenBucket::new(1, Binary64 { bits: 1e-300f64.to_bits() });
    let layer = RateLimitLayer::new(limiter, IpExtractor, FailMode::Open, 2);
    let verdict = layer.call(&req_with_addr([1, 2, 3, 4]), &mut store, NOW);
    assert!(matches!(verdict, Verdict::Endless));
}
