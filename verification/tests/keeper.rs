use gatekeeper::binary64::Binary64;
use gatekeeper::config::{
    AccessConfig, Config, DefaultsConfig, FailMode, MatchRule, MemoryStoreConfig, PolicyConfig,
    ProxyConfig, ServerConfig, StoreConfig,
};
use gatekeeper::keeper::Keeper;
use gatekeeper::middleware::rate_limit::Verdict;
use gatekeeper::network::{IpAddr, SocketAddr};
use gatekeeper::request::Request;
use gatekeeper::response::{inject_rate_limit_headers, Response};
use gatekeeper::time::{Duration, Instant};
use http::HeaderMap;

fn number(x: f64) -> Binary64 {
    Binary64 { bits: x.to_bits() }
}

fn make_policy(name: &str, path: &str, capacity: Option<u64>, bypass: Option<bool>) -> PolicyConfig {
    PolicyConfig {
        name: name.to_string(),
        match_rule: MatchRule { path: path.to_string(), methods: None },
        algorithm: None,
        capacity,
        refill_rate: Some(number(0.0)),
        cost: Some(1),
        identify_by: None,
        bypass,
    }
}

struct Server {
    keeper: Keeper,
    now: u64,
}

fn spawn(capacity: u64, rate: f64, policy: Vec<PolicyConfig>, access: AccessConfig) -> Server {
    let config = Config {
        server: ServerConfig {
            listen: SocketAddr { ip: IpAddr::V4(0x7f00_0001), port: 0 },
            upstream_url: "http://127.0.0.1:1".to_string(),
            proxy: ProxyConfig::default(),
        },
        defaults: DefaultsConfig {
            algorithm: "token_bucket".to_string(),
            capacity,
            refill_rate: number(rate),
            cost: 1,
            fail_mode: FailMode::Open,
        },
        store: StoreConfig { memory: MemoryStoreConfig::default() },
        access,
        policy,
    };
    Server { keeper: Keeper::new(&config), now: 1_000_000_000 }
}

impl Server {
    /// Sends a request from the local host; what is forwarded is answered with 200.
    fn send(&mut self, method: &str, path: &str, api_key: Option<&str>) -> Response {
        let mut headers = HeaderMap::new();
        if let Some(key) = api_key {
            headers.insert("x-api-key", key.parse().unwrap());
        }
        let mut req = Request {
            method: method.to_string(),
            path: path.to_string(),
            path_and_query: Some(path.to_string()),
            headers,
            peer: Some(SocketAddr { ip: IpAddr::V4(0x7f00_0001), port: 5000 }),
            bypass: None,
        };
        self.now += 1_000_000;
        let now = Instant { nanos: self.now };
        let ok = |decision| Response {
            status: 200,
            headers: HeaderMap::new(),
            body: "upstream-ok".to_string(),
            decision,
        };
        let mut resp = match self.keeper.call(&mut req, now) {
            Err(resp) => resp,
            Ok(Verdict::Allowed(decision)) => ok(Some(decision)),
            Ok(Verdict::Denied(resp)) => resp,
            Ok(Verdict::FailedClosed(_, resp)) => resp,
            Ok(_) => ok(None),
        };
        let unix = Duration::from_secs(1_700_000_000);
        assert!(inject_rate_limit_headers(&mut resp, now, unix));
        resp
    }
}

fn read(resp: &Response, name: &str) -> u64 {
    resp.headers.get(name).unwrap().to_str().unwrap().parse().unwrap()
}

#[test]
fn policy_applies_different_limits_by_path() {
    let policy = make_policy("reports", "/api/reports/*", Some(2), None);
    let mut server = spawn(100, 0.01, vec![policy], AccessConfig::default());
    let r1 = server.send("GET", "/api/reports/q1", None);
    assert_eq!(r1.status, 200, "1st reports request should be allowed");
    let r2 = server.send("GET", "/api/reports/q1", None);
    assert_eq!(r2.status, 200, "2nd reports request should be allowed");
    let r3 = server.send("GET", "/api/reports/q1", None);
    assert_eq!(r3.status, 429, "3rd reports request should be rate-limited");
    let r4 = server.send("GET", "/", None);
    assert_eq!(r4.status, 200, "default path should still be allowed");
}

#[test]
fn bypass_policy_skips_rate_limiting() {
    let policy = make_policy("webhooks", "/webhooks/*", None, Some(true));
    let mut server = spawn(1, 0.01, vec![policy], AccessConfig::default());
    for i in 1..=5 {
        let r = server.send("POST", "/webhooks/event", None);
        assert_eq!(r.status, 200, "webhooks request {i} should bypass rate limit");
    }
}

#[test]
fn denylist_blocks_ip() {
    let access = AccessConfig {
        denylist_ips: vec!["127.0.0.1/32".to_string()],
        ..Default::default()
    };
    let mut server = spawn(100, 10.0, vec![], access);
    let resp = server.send("GET", "/", None);
    assert_eq!(resp.status, 403, "127.0.0.1 is in denylist, should get 403");
}

#[test]
fn denylist_blocks_api_key() {
    let access = AccessConfig {
        denylist_keys: vec!["sk-bad".to_string()],
        ..Default::default()
    };
    let mut server = spawn(100, 10.0, vec![], access);
    let resp = server.send("GET", "/", Some("sk-bad"));
    assert_eq!(resp.status, 403, "sk-bad key should be denied");
    let resp = server.send("GET", "/", None);
    assert_eq!(resp.status, 200, "request without key should be allowed");
}

#[test]
fn allowlist_bypasses_rate_limit() {
    let access = AccessConfig {
        allowlist_ips: vec!["127.0.0.0/8".to_string()],
        ..Default::default()
    };
    let mut server = spawn(1, 0.001, vec![], access);
    for i in 1..=5 {
        let resp = server.send("GET", "/", None);
        assert_eq!(resp.status, 200, "allowlisted request {i} should bypass rate limit");
    }
}

#[test]
fn rate_limits_by_ip() {
    let mut server = spawn(3, 0.01, vec![], AccessConfig::default());
    for i in 1..=3 {
        let resp = server.send("GET", "/", None);
        assert_eq!(resp.status, 200, "request {i} should be allowed");
    }
    let resp = server.send("GET", "/", None);
    assert_eq!(resp.status, 429, "4th request should be rate-limited");
    let json: serde_json::Value = serde_json::from_str(&resp.body).unwrap();
    assert_eq!(json["error"], "rate_limit_exceeded");
}

#[test]
fn response_includes_rate_limit_headers() {
    let mut server = spawn(100, 10.0, vec![], AccessConfig::default());
    let resp = server.send("GET", "/", None);
    assert_eq!(resp.status, 200);
    assert_eq!(read(&resp, "x-ratelimit-limit"), 100, "x-ratelimit-limit should be 100");
    assert_eq!(read(&resp, "x-ratelimit-remaining"), 99, "x-ratelimit-remaining should be 99");
    assert!(resp.headers.get("x-ratelimit-reset").is_some(), "x-ratelimit-reset header missing");
}

#[test]
fn denied_response_includes_retry_after() {
    let mut server = spawn(1, 0.01, vec![], AccessConfig::default());
    let first = server.send("GET", "/", None);
    assert_eq!(first.status, 200, "first request should succeed");
    let denied = server.send("GET", "/", None);
    assert_eq!(denied.status, 429, "second request should be rate-limited");
    assert!(denied.headers.get("retry-after").is_some());
    assert_eq!(read(&denied, "retry-after"), 99);
}

#[test]
fn idle_buckets_are_evicted() {
    let mut server = spawn(1, 0.0, vec![], AccessConfig::default());
    assert_eq!(server.send("GET", "/", None).status, 200);
    assert_eq!(server.send("GET", "/", None).status, 429);
    let now = Instant { nanos: server.now };
    server.keeper.evict(now, Duration::from_secs(5));
    assert_eq!(server.send("GET", "/", None).status, 429);
    let later = Instant { nanos: server.now + 6_000_000_000 };
    server.keeper.evict(later, Duration::from_secs(5));
    assert_eq!(server.send("GET", "/", None).status, 200);
}

#[test]
fn an_exempt_requester_is_still_kept_out_by_key() {
    let access = AccessConfig {
        allowlist_ips: vec!["127.0.0.0/8".to_string()],
        denylist_keys: vec!["sk-bad".to_string()],
        ..Default::default()
    };
    let mut server = spawn(1, 0.0, vec![], access);
    assert_eq!(server.send("GET", "/", Some("sk-bad")).status, 403);
    assert_eq!(server.send("GET", "/", Some("sk-good")).status, 200);
    assert_eq!(server.send("GET", "/", None).status, 200);
}

#[test]
fn the_keeper_names_its_algorithm() {
    let server = spawn(1, 1.0, vec![], AccessConfig::default());
    assert_eq!(server.keeper.algorithm_name(), "token_bucket");
}
