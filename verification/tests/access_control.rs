use gatekeeper::config::AccessConfig;
use gatekeeper::middleware::access_control::{
    build_403_response, AccessControl, AccessControlLayer, AllowlistBypassed,
};
use gatekeeper::network::{IpAddr, Network, SocketAddr};
use gatekeeper::request::Request;
use http::HeaderMap;

fn ip(text: &str) -> IpAddr {
    let bytes: Vec<u8> = text.split('.').map(|part| part.parse().unwrap()).collect();
    IpAddr::V4(u32::from_be_bytes([bytes[0], bytes[1], bytes[2], bytes[3]]))
}

fn req_with_ip(ip_str: &str) -> Request {
    Request {
        method: "GET".to_string(),
        path: "/".to_string(),
        path_and_query: Some("/".to_string()),
        headers: HeaderMap::new(),
        peer: Some(SocketAddr { ip: ip(ip_str), port: 12345 }),
        bypass: None,
    }
}

fn req_with_ip_and_key(ip_str: &str, key: &str) -> Request {
    let mut req = req_with_ip(ip_str);
    req.headers.insert("x-api-key", key.parse().unwrap());
    req
}

fn make_layer(config: AccessConfig) -> AccessControlLayer {
    let ac = AccessControl::from_config(&config);
    AccessControlLayer::new(ac)
}

/// The status of the answer, that of a forwarded request being 200, and whether it was marked.
fn call(layer: &AccessControlLayer, mut req: Request) -> (u16, bool) {
    match layer.call(&mut req) {
        Some(resp) => (resp.status, req.bypass.is_some()),
        None => (200, req.bypass.is_some()),
    }
}

#[test]
fn denies_by_ip() {
    let layer = make_layer(AccessConfig {
        denylist_ips: vec!["192.168.1.1/32".to_string()],
        ..Default::default()
    });
    assert_eq!(call(&layer, req_with_ip("192.168.1.1")), (403, false));
}

#[test]
fn denies_by_cidr() {
    let layer = make_layer(AccessConfig {
        denylist_ips: vec!["10.0.0.0/8".to_string()],
        ..Default::default()
    });
    assert_eq!(call(&layer, req_with_ip("10.5.6.7")), (403, false));
}

#[test]
fn denies_by_api_key() {
    let layer = make_layer(AccessConfig {
        denylist_keys: vec!["bad-key".to_string()],
        ..Default::default()
    });
    assert_eq!(call(&layer, req_with_ip_and_key("1.2.3.4", "bad-key")), (403, false));
}

#[test]
fn allows_by_ip_inserts_bypass_marker() {
    let layer = make_layer(AccessConfig {
        allowlist_ips: vec!["10.0.0.0/8".to_string()],
        ..Default::default()
    });
    let (status, marked) = call(&layer, req_with_ip("10.1.2.3"));
    assert_eq!(status, 200);
    assert!(marked, "AllowlistBypassed marker should be present");
}

#[test]
fn allows_by_api_key() {
    let layer = make_layer(AccessConfig {
        allowlist_keys: vec!["good-key".to_string()],
        ..Default::default()
    });
    assert_eq!(call(&layer, req_with_ip_and_key("5.5.5.5", "good-key")), (200, true));
}

#[test]
fn passes_through_when_not_listed() {
    let layer = make_layer(AccessConfig {
        denylist_ips: vec!["1.2.3.4/32".to_string()],
        allowlist_ips: vec!["10.0.0.0/8".to_string()],
        ..Default::default()
    });
    let (status, marked) = call(&layer, req_with_ip("5.5.5.5"));
    assert_eq!(status, 200);
    assert!(!marked, "No bypass marker when not in allowlist");
}

#[test]
fn denylist_takes_precedence_over_allowlist() {
    let layer = make_layer(AccessConfig {
        denylist_ips: vec!["10.0.0.0/8".to_string()],
        allowlist_ips: vec!["10.0.0.0/8".to_string()],
        ..Default::default()
    });
    assert_eq!(call(&layer, req_with_ip("10.1.2.3")), (403, false));
}

#[test]
fn empty_access_control_passes_through() {
    let layer = make_layer(AccessConfig::default());
    assert_eq!(call(&layer, req_with_ip("1.2.3.4")), (200, false));
}

#[test]
fn who_is_kept_out_is_told_so() {
    let resp = build_403_response();
    assert_eq!(resp.status, 403);
    assert_eq!(resp.body, "{\"error\":\"forbidden\",\"message\":\"Access denied\"}");
    assert_eq!(resp.headers.len(), 1);
    assert_eq!(resp.headers.get("content-type").unwrap(), "application/json");
    assert!(resp.decision.is_none());
    let value: serde_json::Value = serde_json::from_str(&resp.body).unwrap();
    assert_eq!(value["error"], "forbidden");
    assert_eq!(value["message"], "Access denied");
}

#[test]
fn what_is_no_network_is_left_out() {
    let ac = AccessControl::from_config(&AccessConfig {
        denylist_ips: vec!["nonsense".to_string(), "10.0.0.0/99".to_string()],
        allowlist_ips: vec!["x".to_string(), "10.0.0.0/8".to_string()],
        ..Default::default()
    });
    assert!(!ac.is_empty());
    assert!(!ac.is_denied(Some(ip("10.1.1.1")), None));
    assert!(ac.is_allowed(Some(ip("10.1.1.1")), None));
    let none = AccessControl::from_config(&AccessConfig {
        denylist_ips: vec!["nonsense".to_string()],
        ..Default::default()
    });
    assert!(none.is_empty());
}

#[test]
fn the_lists_hold_networks_and_keys() {
    let ac = AccessControl::new(
        vec![Network::V4 { addr: 0x0102_0300, prefix: 24 }],
        vec!["bad".to_string()],
        vec![Network::V6 { addr: 1, prefix: 128 }],
        vec!["good".to_string(), "better".to_string()],
    );
    assert!(ac.is_denied(Some(ip("1.2.3.9")), None));
    assert!(ac.is_denied(None, Some("bad")));
    assert!(ac.is_denied(Some(ip("9.9.9.9")), Some("bad")));
    assert!(!ac.is_denied(Some(ip("1.2.4.9")), Some("good")));
    assert!(!ac.is_denied(None, None));
    assert!(ac.is_allowed(Some(IpAddr::V6(1)), None));
    assert!(ac.is_allowed(None, Some("better")));
    assert!(!ac.is_allowed(Some(ip("0.0.0.1")), Some("best")));
}

#[test]
fn a_key_that_is_no_text_is_no_key() {
    let layer = make_layer(AccessConfig {
        denylist_keys: vec!["bad".to_string()],
        ..Default::default()
    });
    let mut req = req_with_ip("1.2.3.4");
    req.headers.insert("x-api-key", http::HeaderValue::from_bytes(b"bad\xfe").unwrap());
    assert_eq!(call(&layer, req), (200, false));
    let mut anonymous = req_with_ip_and_key("1.2.3.4", "bad");
    anonymous.peer = None;
    assert_eq!(call(&layer, anonymous), (403, false));
}

#[test]
fn a_mark_stays() {
    let layer = make_layer(AccessConfig {
        denylist_keys: vec!["bad".to_string()],
        ..Default::default()
    });
    let mut req = req_with_ip("1.2.3.4");
    req.bypass = Some(AllowlistBypassed);
    assert_eq!(call(&layer, req), (200, true));
}
