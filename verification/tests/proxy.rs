use gatekeeper::network::{IpAddr, SocketAddr};
use gatekeeper::proxy::http_proxy::{rewrite_headers, strip_hop_by_hop, HttpProxy};
use gatekeeper::proxy::ProxyError;
use gatekeeper::request::Request;
use http::{HeaderMap, HeaderValue};

const LOCAL: IpAddr = IpAddr::V4(0x7f00_0001);

fn request(path_and_query: Option<&str>) -> Request {
    Request {
        method: "GET".to_string(),
        path: "/".to_string(),
        path_and_query: path_and_query.map(|text| text.to_string()),
        headers: HeaderMap::new(),
        peer: Some(SocketAddr { ip: LOCAL, port: 4000 }),
        bypass: None,
    }
}

fn text<'a>(headers: &'a HeaderMap, name: &str) -> &'a str {
    headers.get(name).unwrap().to_str().unwrap()
}

#[test]
fn the_path_is_put_behind_the_upstream() {
    let proxy = HttpProxy::new("http://backend:8000//".to_string());
    let sent = proxy.prepare(request(Some("/a/b?c=d")), Some(LOCAL)).unwrap();
    assert_eq!(sent.uri, "http://backend:8000/a/b?c=d");
    assert_eq!(text(&sent.headers, "host"), "backend:8000");
    assert_eq!(text(&sent.headers, "x-forwarded-for"), "127.0.0.1");
    let sent = proxy.prepare(request(None), None).unwrap();
    assert_eq!(sent.uri, "http://backend:8000/");
    assert!(sent.headers.get("x-forwarded-for").is_none());
    assert_eq!(proxy.protocol_name(), "http");
}

#[test]
fn without_an_authority_the_host_stays() {
    let proxy = HttpProxy::new("".to_string());
    let mut req = request(Some("/x"));
    req.headers.insert("host", "here".parse().unwrap());
    let sent = proxy.prepare(req, None).unwrap();
    assert_eq!(sent.uri, "/x");
    assert_eq!(text(&sent.headers, "host"), "here");
}

#[test]
fn a_bad_address_is_reported() {
    let proxy = HttpProxy::new("http://back end".to_string());
    let error = match proxy.prepare(request(Some("/x")), None) {
        Err(error) => error,
        Ok(_) => panic!("accepted"),
    };
    assert_eq!(
        error,
        ProxyError::InvalidUri("http://back end/x: invalid uri character".to_string())
    );
    assert_eq!(
        error.message(),
        "invalid upstream URI: http://back end/x: invalid uri character"
    );
    let error = ProxyError::Request("timed out".to_string());
    assert_eq!(error.message(), "upstream request failed: timed out");
}

#[test]
fn the_client_is_added_to_those_noted() {
    let proxy = HttpProxy::new("http://b".to_string());
    let mut req = request(Some("/"));
    req.headers.append("x-forwarded-for", "1.1.1.1, 2.2.2.2".parse().unwrap());
    req.headers.append("x-forwarded-for", "3.3.3.3".parse().unwrap());
    let sent = proxy.prepare(req, Some(LOCAL)).unwrap();
    assert_eq!(text(&sent.headers, "x-forwarded-for"), "1.1.1.1, 2.2.2.2, 127.0.0.1");
    assert_eq!(sent.headers.get_all("x-forwarded-for").iter().count(), 1);
    let mut req = request(Some("/"));
    req.headers.insert("x-forwarded-for", HeaderValue::from_bytes(b"\xff").unwrap());
    let sent = proxy.prepare(req, Some(IpAddr::V6(1))).unwrap();
    assert_eq!(text(&sent.headers, "x-forwarded-for"), ", ::1");
}

fn all_hop_by_hop() -> HeaderMap {
    let mut headers = HeaderMap::new();
    for name in [
        "connection",
        "keep-alive",
        "proxy-authenticate",
        "proxy-authorization",
        "te",
        "trailer",
        "transfer-encoding",
        "upgrade",
    ] {
        headers.append(name, "x".parse().unwrap());
        headers.append(name, "y".parse().unwrap());
    }
    headers.insert("accept", "z".parse().unwrap());
    headers
}

#[test]
fn what_concerns_one_connection_is_not_passed_on() {
    let mut headers = all_hop_by_hop();
    strip_hop_by_hop(&mut headers);
    assert_eq!(headers.len(), 1);
    assert_eq!(text(&headers, "accept"), "z");
    let mut req = request(Some("/"));
    req.headers = all_hop_by_hop();
    let sent = HttpProxy::new("http://b".to_string()).prepare(req, Some(LOCAL)).unwrap();
    assert_eq!(sent.headers.len(), 3);
    assert_eq!(text(&sent.headers, "accept"), "z");
}

#[test]
fn a_host_that_is_no_value_is_reported() {
    let mut headers = HeaderMap::new();
    let r = rewrite_headers(&mut headers, None, Some("a\nb".to_string()));
    let reason = "invalid Host header: failed to parse header value";
    assert_eq!(r, Err(ProxyError::Request(reason.to_string())));
    let r = rewrite_headers(&mut headers, None, Some("a\tb\u{e9}".to_string()));
    assert_eq!(r, Ok(()));
    assert_eq!(headers.get("host").unwrap().as_bytes(), "a\tb\u{e9}".as_bytes());
    assert!(rewrite_headers(&mut headers, None, Some("\u{7f}".to_string())).is_err());
}

#[test]
fn too_many_headers_are_reported() {
    let mut req = request(Some("/"));
    for i in 0..24_576 {
        let name: http::HeaderName = format!("n{i}").parse().unwrap();
        req.headers.insert(name, "x".parse().unwrap());
    }
    let proxy = HttpProxy::new("http://b".to_string());
    match proxy.prepare(req, Some(LOCAL)) {
        Err(error) => {
            assert_eq!(error, ProxyError::TooManyHeaders);
            assert_eq!(error.message(), "too many headers");
        }
        Ok(_) => panic!("accepted"),
    }
}
