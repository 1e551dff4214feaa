use gatekeeper::identity::ip::IpExtractor;
use gatekeeper::identity::{Identity, IdentityExtractor, IdentityKind};
use gatekeeper::network::{IpAddr, Network, SocketAddr};
use gatekeeper::request::Request;
use http::{HeaderMap, HeaderValue};

fn empty_req() -> Request {
    Request {
        method: "GET".to_string(),
        path: "/".to_string(),
        path_and_query: Some("/".to_string()),
        headers: HeaderMap::new(),
        peer: None,
        bypass: None,
    }
}

fn key(req: &Request) -> Option<String> {
    IpExtractor.extract(req).map(|identity| identity.key)
}

#[test]
fn extracts_from_x_forwarded_for() {
    let mut req = empty_req();
    req.headers.insert("x-forwarded-for", "203.0.113.50, 10.0.0.1".parse().unwrap());
    let identity = IpExtractor.extract(&req).unwrap();
    assert_eq!(identity.key, "ip:203.0.113.50");
}

#[test]
fn extracts_from_x_real_ip() {
    let mut req = empty_req();
    req.headers.insert("x-real-ip", "198.51.100.10".parse().unwrap());
    let identity = IpExtractor.extract(&req).unwrap();
    assert_eq!(identity.key, "ip:198.51.100.10");
}

#[test]
fn x_forwarded_for_takes_precedence() {
    let mut req = empty_req();
    req.headers.insert("x-forwarded-for", "203.0.113.50".parse().unwrap());
    req.headers.insert("x-real-ip", "198.51.100.10".parse().unwrap());
    let identity = IpExtractor.extract(&req).unwrap();
    assert_eq!(identity.key, "ip:203.0.113.50");
}

#[test]
fn falls_back_to_connect_info() {
    let mut req = empty_req();
    req.peer = Some(SocketAddr { ip: IpAddr::V4(0xc0a8_0101), port: 1234 });
    let identity = IpExtractor.extract(&req).unwrap();
    assert_eq!(identity.key, "ip:192.168.1.1");
    assert_eq!(
        identity,
        Identity { key: "ip:192.168.1.1".to_string(), kind: IdentityKind::Ip }
    );
}

#[test]
fn returns_none_without_any_source() {
    let req = empty_req();
    assert!(IpExtractor.extract(&req).is_none());
    assert_eq!(IpExtractor.extractor_name(), "ip");
}

#[test]
fn blanks_are_trimmed() {
    let mut req = empty_req();
    req.headers.insert("x-forwarded-for", " \t 1.2.3.4 \t , 5.6.7.8".parse().unwrap());
    assert_eq!(key(&req).unwrap(), "ip:1.2.3.4");
    req.headers.insert("x-forwarded-for", "  a b  ".parse().unwrap());
    assert_eq!(key(&req).unwrap(), "ip:a b");
}

#[test]
fn an_empty_first_address_is_passed_over() {
    let mut req = empty_req();
    req.headers.insert("x-forwarded-for", " , 5.6.7.8".parse().unwrap());
    assert_eq!(key(&req), None);
    req.headers.insert("x-real-ip", " 9.9.9.9 ".parse().unwrap());
    assert_eq!(key(&req).unwrap(), "ip:9.9.9.9");
    req.headers.insert("x-real-ip", "  ".parse().unwrap());
    assert_eq!(key(&req), None);
    req.peer = Some(SocketAddr { ip: IpAddr::V4(0x0102_0304), port: 1 });
    assert_eq!(key(&req).unwrap(), "ip:1.2.3.4");
}

#[test]
fn a_value_that_is_no_text_is_passed_over() {
    let mut req = empty_req();
    req.headers.insert("x-forwarded-for", HeaderValue::from_bytes(b"1.2.3.4\xff").unwrap());
    req.headers.insert("x-real-ip", "9.9.9.9".parse().unwrap());
    assert_eq!(key(&req).unwrap(), "ip:9.9.9.9");
}

#[test]
fn of_several_fields_the_first_counts() {
    let mut req = empty_req();
    req.headers.append("x-forwarded-for", "1.1.1.1".parse().unwrap());
    req.headers.append("x-forwarded-for", "2.2.2.2".parse().unwrap());
    assert_eq!(key(&req).unwrap(), "ip:1.1.1.1");
}

#[test]
fn addresses_are_written_in_the_usual_notation() {
    assert_eq!(IpAddr::V4(0).write(), "0.0.0.0");
    assert_eq!(IpAddr::V4(u32::MAX).write(), "255.255.255.255");
    assert_eq!(IpAddr::V4(0x0a00_c801).write(), "10.0.200.1");
    assert_eq!(IpAddr::V6(0).write(), "::");
    assert_eq!(IpAddr::V6(1).write(), "::1");
    assert_eq!(IpAddr::V6(0xffff_0102_0304).write(), "::ffff:1.2.3.4");
    assert_eq!(
        IpAddr::V6(0x2001_0db8_0000_0000_0000_8a2e_0370_7334).write(),
        "2001:db8::8a2e:370:7334"
    );
}

#[test]
fn networks_contain_their_addresses() {
    let ten = Network::parse("10.1.2.3/8").unwrap();
    assert_eq!(ten, Network::V4 { addr: 0x0a01_0203, prefix: 8 });
    assert!(ten.contains(IpAddr::V4(0x0aff_ffff)));
    assert!(!ten.contains(IpAddr::V4(0x0b00_0000)));
    assert!(!ten.contains(IpAddr::V6(0x0a00_0000)));
    let all = Network::parse("0.0.0.0/0").unwrap();
    assert!(all.contains(IpAddr::V4(0xffff_ffff)));
    let host = Network::parse("1.2.3.4/32").unwrap();
    assert!(host.contains(IpAddr::V4(0x0102_0304)));
    assert!(!host.contains(IpAddr::V4(0x0102_0305)));
    let six = Network::parse("2001:db8::/32").unwrap();
    assert!(six.contains(IpAddr::V6(0x2001_0db8_ffff_0000_0000_0000_0000_0001)));
    assert!(!six.contains(IpAddr::V6(0x2001_0db9_0000_0000_0000_0000_0000_0000)));
    assert!(!six.contains(IpAddr::V4(0x2001_0db8)));
    assert_eq!(Network::parse("10.0.0.0/33"), None);
    assert_eq!(Network::parse("nonsense"), None);
}
