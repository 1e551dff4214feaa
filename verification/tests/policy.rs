use gatekeeper::binary64::Binary64;
use gatekeeper::config::{
    AccessConfig, Config, DefaultsConfig, FailMode, MatchRule, MemoryStoreConfig, PolicyConfig,
    ProxyConfig, ServerConfig, StoreConfig,
};
use gatekeeper::network::{IpAddr, SocketAddr};
use gatekeeper::policy::PolicyEngine;
use gatekeeper::time::{Duration, Instant};

fn make_config(policies: Vec<PolicyConfig>) -> Config {
    Config {
        server: ServerConfig {
            listen: SocketAddr { ip: IpAddr::V4(0x7f00_0001), port: 8080 },
            upstream_url: "http://localhost:3000".to_string(),
            proxy: ProxyConfig::default(),
        },
        defaults: DefaultsConfig {
            algorithm: "token_bucket".to_string(),
            capacity: 100,
            refill_rate: Binary64 { bits: 10.0f64.to_bits() },
            cost: 1,
            fail_mode: FailMode::default(),
        },
        store: StoreConfig {
            memory: MemoryStoreConfig {
                max_entries: 1000,
                eviction_interval: Duration::from_secs(60),
            },
        },
        access: AccessConfig::default(),
        policy: policies,
    }
}

fn make_policy(
    name: &str,
    path: &str,
    methods: Option<Vec<&str>>,
    bypass: Option<bool>,
) -> PolicyConfig {
    PolicyConfig {
        name: name.to_string(),
        match_rule: MatchRule {
            path: path.to_string(),
            methods: methods.map(|ms| ms.iter().map(|m| m.to_string()).collect()),
        },
        algorithm: None,
        capacity: None,
        refill_rate: None,
        cost: None,
        identify_by: None,
        bypass,
    }
}

#[test]
fn resolves_matching_policy() {
    let policies = vec![make_policy("api", "/api/*", None, None)];
    let engine = PolicyEngine::new(&make_config(policies));
    let resolved = engine.resolve("/api/users", "GET");
    assert_eq!(resolved.name, "api");
}

#[test]
fn falls_back_to_default() {
    let engine = PolicyEngine::new(&make_config(vec![make_policy("api", "/api/*", None, None)]));
    let resolved = engine.resolve("/v2/users", "GET");
    assert_eq!(resolved.name, "__default__");
}

#[test]
fn first_match_wins() {
    let policies = vec![
        make_policy("first", "/api/*", None, None),
        make_policy("second", "/api/users", None, None),
    ];
    let engine = PolicyEngine::new(&make_config(policies));
    let resolved = engine.resolve("/api/users", "GET");
    assert_eq!(resolved.name, "first");
}

#[test]
fn bypass_policy() {
    let policies = vec![make_policy("health", "/health", None, Some(true))];
    let engine = PolicyEngine::new(&make_config(policies));
    let resolved = engine.resolve("/health", "GET");
    assert_eq!(resolved.name, "health");
    assert!(resolved.bypass);
}

#[test]
fn no_policies_uses_default() {
    let engine = PolicyEngine::new(&make_config(vec![]));
    let resolved = engine.resolve("/anything", "POST");
    assert_eq!(resolved.name, "__default__");
    assert!(!resolved.bypass);
    assert_eq!(resolved.cost, 1);
    assert_eq!(engine.fallback().name, "__default__");
}

#[test]
fn a_policy_is_passed_over_for_its_methods() {
    let policies = vec![
        make_policy("writes", "/api/*", Some(vec!["POST", "PUT"]), None),
        make_policy("reads", "/api/*", Some(vec!["GET"]), None),
    ];
    let engine = PolicyEngine::new(&make_config(policies));
    assert_eq!(engine.resolve("/api/x", "put").name, "writes");
    assert_eq!(engine.resolve("/api/x", "GET").name, "reads");
    assert_eq!(engine.resolve("/api/x", "DELETE").name, "__default__");
}

#[test]
fn what_a_policy_leaves_out_is_taken_from_the_defaults() {
    let mut own = make_policy("own", "/own", None, None);
    own.capacity = Some(7);
    own.refill_rate = Some(Binary64 { bits: 2.0f64.to_bits() });
    own.cost = Some(3);
    let engine = PolicyEngine::new(&make_config(vec![own, make_policy("same", "/same", None, None)]));
    let now = Instant { nanos: 0 };

    let own = engine.resolve("/own", "GET");
    assert_eq!(own.cost, 3);
    let full = gatekeeper::store::BucketState { tokens: Binary64::from_whole(0), last_update: now };
    let decision = own.limiter.decide(full, own.cost, false, now).decision.unwrap();
    assert_eq!(decision.limit, 7);
    assert_eq!(decision.retry_after, Some(Duration { secs: 1, nanos: 500_000_000 }));

    let same = engine.resolve("/same", "GET");
    assert_eq!(same.cost, 1);
    assert!(!same.bypass);
    let decision = same.limiter.decide(full, same.cost, false, now).decision.unwrap();
    assert_eq!(decision.limit, 100);
    assert_eq!(decision.retry_after, Some(Duration { secs: 0, nanos: 100_000_000 }));
}
