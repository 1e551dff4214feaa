//! What is sent to an upstream that speaks HTTP, and what is passed on of its answer.

use crate::headers::{get_header, remove_header, set_header, HeaderFault};
#[allow(unused_imports)]
use crate::headers::{
    field, field_is_read_as_written, fields_of, has_room, is_value, is_visible, is_visible_text,
    with_field,
};
use crate::network::IpAddr;
#[allow(unused_imports)]
use crate::network::is_address_text;
use crate::proxy::ProxyError;
use crate::request::Request;
use crate::text::trim_end_slashes;
#[allow(unused_imports)]
use crate::text::{only_slashes_at_the_end_are_cut, trimmed_end};
use crate::uri::parse_uri;
#[allow(unused_imports)]
use crate::uri::{optional_text, uri_of};
use http::{HeaderMap, HeaderValue};
use vstd::prelude::*;
#[allow(unused_imports)]
use vstd::string::*;

verus! {

/// Passes requests on to an upstream.
#[derive(Clone, Debug)]
pub struct HttpProxy {
    upstream_url: String,
}

/// What is sent to the upstream, but for the method and the body.
pub struct Outgoing {
    pub uri: String,
    pub headers: HeaderMap<HeaderValue>,
}

/// The fields that concern one connection and are not passed on.
pub open spec fn hop_by_hop() -> Set<Seq<char>> {
    set![
        "connection"@,
        "keep-alive"@,
        "proxy-authenticate"@,
        "proxy-authorization"@,
        "te"@,
        "trailer"@,
        "transfer-encoding"@,
        "upgrade"@,
    ]
}

/// The fields that are passed on.
pub open spec fn end_to_end(fields: Map<Seq<char>, Seq<Seq<u8>>>) -> Map<Seq<char>, Seq<Seq<u8>>> {
    fields.remove_keys(hop_by_hop())
}

/// Takes out the fields that concern one connection.
pub fn strip_hop_by_hop(headers: &mut HeaderMap<HeaderValue>)
    ensures
        fields_of(*final(headers)) == end_to_end(fields_of(*old(headers))),
{
    proof {
        reveal_strlit("connection");
        reveal_strlit("keep-alive");
        reveal_strlit("proxy-authenticate");
        reveal_strlit("proxy-authorization");
        reveal_strlit("te");
        reveal_strlit("trailer");
        reveal_strlit("transfer-encoding");
        reveal_strlit("upgrade");
    }
    remove_header(headers, "connection");
    remove_header(headers, "keep-alive");
    remove_header(headers, "proxy-authenticate");
    remove_header(headers, "proxy-authorization");
    remove_header(headers, "te");
    remove_header(headers, "trailer");
    remove_header(headers, "transfer-encoding");
    remove_header(headers, "upgrade");
    assert(fields_of(*headers) =~= end_to_end(fields_of(*old(headers))));
}

/// The addresses that a request came by, with that of the client added: the value of
/// `x-forwarded-for`.
pub open spec fn forwarded_by(
    fields: Map<Seq<char>, Seq<Seq<u8>>>,
    client: Seq<char>,
) -> Seq<char> {
    match field(fields, "x-forwarded-for"@) {
        Some(Some(existing)) => existing + ", "@ + client,
        Some(None) => ", "@ + client,
        None => client,
    }
}

/// The fields with the address of the client noted, where it is known.
pub open spec fn with_client(
    fields: Map<Seq<char>, Seq<Seq<u8>>>,
    client_ip: Option<IpAddr>,
) -> Map<Seq<char>, Seq<Seq<u8>>> {
    match client_ip {
        Some(ip) => with_field(fields, "x-forwarded-for"@, forwarded_by(fields, ip.text())),
        None => fields,
    }
}

/// The fields with the host set to an authority, where there is one.
pub open spec fn with_host(
    fields: Map<Seq<char>, Seq<Seq<u8>>>,
    authority: Option<Seq<char>>,
) -> Map<Seq<char>, Seq<Seq<u8>>> {
    match authority {
        Some(authority) => with_field(fields, "host"@, authority),
        None => fields,
    }
}

/// The fields that are sent to the upstream.
pub open spec fn outgoing_fields(
    fields: Map<Seq<char>, Seq<Seq<u8>>>,
    client_ip: Option<IpAddr>,
    authority: Option<Seq<char>>,
) -> Map<Seq<char>, Seq<Seq<u8>>> {
    with_host(with_client(end_to_end(fields), client_ip), authority)
}

fn note_client(headers: &mut HeaderMap<HeaderValue>, ip: IpAddr) -> (r: bool)
    ensures
        !r ==> !has_room(fields_of(*old(headers)), 0),
        r ==> fields_of(*final(headers)) == with_client(fields_of(*old(headers)), Some(ip)),
{
    proof {
        reveal_strlit("x-forwarded-for");
        reveal_strlit(", ");
    }
    let ghost fields = fields_of(*headers);
    let ip_text: String = ip.write();
    let existing: Option<Option<String>> = get_header(headers, "x-forwarded-for");
    let new_value: String = match existing {
        Some(existing) => {
            let mut s: String = match existing {
                Some(text) => text,
                None => String::new(),
            };
            s.append(", ");
            s.append(ip_text.as_str());
            s
        },
        None => ip_text,
    };
    proof {
        assert(new_value@ =~= forwarded_by(fields, ip.text()));
        assert(is_value(new_value@)) by {
            if let Some(Some(text)) = field(fields, "x-forwarded-for"@) {
                let first = fields["x-forwarded-for"@][0];
                assert forall|i: int| 0 <= i < text.len() implies ' ' <= #[trigger] text[i]
                    && text[i] != '\u{7f}' || text[i] == '\t' by {
                    assert(is_visible(first[i]));
                }
            }
        }
    }
    set_header(headers, "x-forwarded-for", new_value.as_str()).is_ok()
}

/// Makes the fields of a request those that are sent to the upstream, of which the authority is
/// known. The map may refuse to grow, but not as long as there is room for one more name.
pub fn rewrite_headers(
    headers: &mut HeaderMap<HeaderValue>,
    client_ip: Option<IpAddr>,
    authority: Option<String>,
) -> (r: Result<(), ProxyError>)
    ensures
        match r {
            Ok(_) => {
                &&& (authority matches Some(authority) ==> is_value(authority@))
                &&& fields_of(*final(headers)) == outgoing_fields(
                    fields_of(*old(headers)),
                    client_ip,
                    optional_text(authority),
                )
            },
            Err(ProxyError::TooManyHeaders) => !has_room(fields_of(*old(headers)), 1),
            Err(error) => {
                &&& authority matches Some(authority) && !is_value(authority@)
                &&& error matches ProxyError::Request(reason) && reason@
                    == "invalid Host header: failed to parse header value"@
            },
        },
{
    let ghost fields = fields_of(*headers);
    strip_hop_by_hop(headers);
    proof {
        if fields.dom().finite() {
            assert(end_to_end(fields).dom().subset_of(fields.dom()));
            vstd::set_lib::lemma_len_subset(end_to_end(fields).dom(), fields.dom());
        }
    }
    if let Some(ip) = client_ip {
        if !note_client(headers, ip) {
            return Err(ProxyError::TooManyHeaders);
        }
    }
    if let Some(authority) = authority {
        proof {
            reveal_strlit("host");
        }
        match set_header(headers, "host", authority.as_str()) {
            Ok(_) => {},
            Err(HeaderFault::Full) => {
                return Err(ProxyError::TooManyHeaders);
            },
            Err(HeaderFault::Invalid(error)) => {
                let mut reason: String = "invalid Host header: ".to_owned();
                reason.append(error.as_str());
                proof {
                    reveal_strlit("invalid Host header: ");
                    reveal_strlit("failed to parse header value");
                    reveal_strlit("invalid Host header: failed to parse header value");
                    assert(reason@ =~= "invalid Host header: failed to parse header value"@);
                }
                return Err(ProxyError::Request(reason));
            },
        }
    }
    Ok(())
}

/// Where a request goes: its path and query, at the upstream.
pub open spec fn target(upstream_url: Seq<char>, path_and_query: Option<Seq<char>>) -> Seq<char> {
    trimmed_end(upstream_url, set!['/']) + match path_and_query {
        Some(path_and_query) => path_and_query,
        None => "/"@,
    }
}

impl HttpProxy {
    pub closed spec fn upstream_url(self) -> Seq<char> {
        self.upstream_url@
    }

    pub fn new(upstream_url: String) -> (r: Self)
        ensures
            r.upstream_url() == upstream_url@,
    {
        HttpProxy { upstream_url }
    }

    /// Where a request goes.
    pub open spec fn target_of(self, req: Request) -> Seq<char> {
        target(self.upstream_url(), optional_text(req.path_and_query))
    }

    /// Prepares a request for the upstream, unless its headers are too many.
    pub fn prepare(&self, req: Request, client_ip: Option<IpAddr>) -> (r: Result<
        Outgoing,
        ProxyError,
    >)
        ensures
            match uri_of(self.target_of(req)) {
                Ok(authority) => match r {
                    Ok(outgoing) => outgoing.uri@ == self.target_of(req) && fields_of(
                        outgoing.headers,
                    ) == outgoing_fields(fields_of(req.headers), client_ip, authority),
                    Err(error) => error == ProxyError::TooManyHeaders && !has_room(
                        fields_of(req.headers),
                        1,
                    ),
                },
                Err(error) => r matches Err(ProxyError::InvalidUri(reason)) && reason@
                    == self.target_of(req) + ": "@ + error,
            },
    {
        let mut uri: String = trim_end_slashes(self.upstream_url.as_str());
        match &req.path_and_query {
            Some(path_and_query) => {
                uri.append(path_and_query.as_str());
            },
            None => {
                uri.append("/");
            },
        }
        match parse_uri(uri.as_str()) {
            Ok(authority) => {
                let mut headers: HeaderMap<HeaderValue> = req.headers;
                match rewrite_headers(&mut headers, client_ip, authority) {
                    Ok(_) => Ok(Outgoing { uri, headers }),
                    Err(error) => Err(error),
                }
            },
            Err(error) => {
                uri.append(": ");
                uri.append(error.as_str());
                Err(ProxyError::InvalidUri(uri))
            },
        }
    }

    pub fn protocol_name(&self) -> (r: &'static str)
        ensures
            r@ == "http"@,
    {
        "http"
    }
}

/// What concerns one connection reaches neither the upstream nor, from there, the requester.
pub proof fn hop_by_hop_is_not_passed_on(
    fields: Map<Seq<char>, Seq<Seq<u8>>>,
    client_ip: Option<IpAddr>,
    authority: Option<Seq<char>>,
    name: Seq<char>,
)
    requires
        hop_by_hop().contains(name),
    ensures
        !end_to_end(fields).contains_key(name),
        !outgoing_fields(fields, client_ip, authority).contains_key(name),
{
    reveal_strlit("connection");
    reveal_strlit("keep-alive");
    reveal_strlit("proxy-authenticate");
    reveal_strlit("proxy-authorization");
    reveal_strlit("te");
    reveal_strlit("trailer");
    reveal_strlit("transfer-encoding");
    reveal_strlit("upgrade");
    reveal_strlit("x-forwarded-for");
    reveal_strlit("host");
    assert(name.len() != "host"@.len());
    assert(name.len() != "x-forwarded-for"@.len());
}

/// All other fields are passed on as they are, but for the two that are set.
pub proof fn other_fields_are_passed_on(
    fields: Map<Seq<char>, Seq<Seq<u8>>>,
    client_ip: Option<IpAddr>,
    authority: Option<Seq<char>>,
    name: Seq<char>,
)
    requires
        !hop_by_hop().contains(name),
        name != "x-forwarded-for"@,
        name != "host"@,
    ensures
        outgoing_fields(fields, client_ip, authority).contains_key(name) == fields.contains_key(
            name,
        ),
        fields.contains_key(name) ==> outgoing_fields(fields, client_ip, authority)[name]
            == fields[name],
{
}

/// The upstream reads the address of the client, after those that the request came by, and its
/// own authority as the host.
pub proof fn upstream_reads_client_and_host(
    fields: Map<Seq<char>, Seq<Seq<u8>>>,
    ip: IpAddr,
    authority: Seq<char>,
)
    requires
        is_address_text(ip.text()),
        is_visible_text(authority),
    ensures
        ({
            let sent = outgoing_fields(fields, Some(ip), Some(authority));
            &&& field(sent, "x-forwarded-for"@) == Some(
                Some(forwarded_by(end_to_end(fields), ip.text())),
            )
            &&& field(sent, "host"@) == Some(Some(authority))
        }),
{
    reveal_strlit("x-forwarded-for");
    reveal_strlit("host");
    reveal_strlit(", ");
    assert("x-forwarded-for"@.len() != "host"@.len());
    let kept = end_to_end(fields);
    let value = forwarded_by(kept, ip.text());
    assert(is_visible_text(value)) by {
        if let Some(Some(text)) = field(kept, "x-forwarded-for"@) {
            let first = kept["x-forwarded-for"@][0];
            assert forall|i: int| 0 <= i < text.len() implies ' ' <= #[trigger] text[i] <= '~'
                || text[i] == '\t' by {
                assert(is_visible(first[i]));
            }
        }
    }
    let noted = with_client(kept, Some(ip));
    field_is_read_as_written(kept, "x-forwarded-for"@, value, "host"@);
    field_is_read_as_written(noted, "host"@, authority, "x-forwarded-for"@);
}

/// Whether a name is one of those that concern one connection.
pub proof fn hop_by_hop_names(name: Seq<char>)
    ensures
        hop_by_hop().contains(name) <==> name == "connection"@ || name == "keep-alive"@ || name
            == "proxy-authenticate"@ || name == "proxy-authorization"@ || name == "te"@ || name
            == "trailer"@ || name == "transfer-encoding"@ || name == "upgrade"@,
{
}

/// What came in under any other name than the eight that concern one connection, and the two that
/// are set, is sent as it is; and of what came back, all but the eight is passed on.
pub proof fn all_but_ten_names_are_sent_as_they_are(
    fields: Map<Seq<char>, Seq<Seq<u8>>>,
    client_ip: Option<IpAddr>,
    authority: Option<Seq<char>>,
    name: Seq<char>,
)
    requires
        name != "connection"@,
        name != "keep-alive"@,
        name != "proxy-authenticate"@,
        name != "proxy-authorization"@,
        name != "te"@,
        name != "trailer"@,
        name != "transfer-encoding"@,
        name != "upgrade"@,
    ensures
        end_to_end(fields).contains_key(name) == fields.contains_key(name),
        fields.contains_key(name) ==> end_to_end(fields)[name] == fields[name],
        name != "x-forwarded-for"@ && name != "host"@ ==> outgoing_fields(
            fields,
            client_ip,
            authority,
        ).contains_key(name) == fields.contains_key(name),
        name != "x-forwarded-for"@ && name != "host"@ && fields.contains_key(name)
            ==> outgoing_fields(fields, client_ip, authority)[name] == fields[name],
{
}

/// None of the eight names that concern one connection is sent, nor passed on.
pub proof fn eight_names_are_dropped(
    fields: Map<Seq<char>, Seq<Seq<u8>>>,
    client_ip: Option<IpAddr>,
    authority: Option<Seq<char>>,
    name: Seq<char>,
)
    requires
        name == "connection"@ || name == "keep-alive"@ || name == "proxy-authenticate"@ || name
            == "proxy-authorization"@ || name == "te"@ || name == "trailer"@ || name
            == "transfer-encoding"@ || name == "upgrade"@,
    ensures
        !end_to_end(fields).contains_key(name),
        !outgoing_fields(fields, client_ip, authority).contains_key(name),
{
    hop_by_hop_is_not_passed_on(fields, client_ip, authority, name);
}

/// The upstream reads the address of the client alone where none was noted, else behind what was
/// noted, and nothing new where the client is not known; and its own authority as the host, where
/// it has one.
pub proof fn upstream_reads_who_asked(
    fields: Map<Seq<char>, Seq<Seq<u8>>>,
    client: Option<IpAddr>,
    authority: Option<Seq<char>>,
)
    requires
        client matches Some(ip) ==> is_address_text(ip.text()),
        authority matches Some(authority) ==> is_visible_text(authority),
    ensures
        ({
            let sent = outgoing_fields(fields, client, authority);
            let noted = field(fields, "x-forwarded-for"@);
            let told = field(sent, "x-forwarded-for"@);
            &&& client matches Some(ip) ==> (noted is None ==> told == Some(Some(ip.text())))
            &&& client matches Some(ip) ==> (noted matches Some(Some(text)) ==> told == Some(
                Some(text + ", "@ + ip.text()),
            ))
            &&& client matches Some(ip) ==> (noted == Some(None::<Seq<char>>) ==> told == Some(
                Some(", "@ + ip.text()),
            ))
            &&& client is None ==> told == noted
            &&& authority matches Some(authority) ==> field(sent, "host"@) == Some(Some(authority))
            &&& authority is None ==> field(sent, "host"@) == field(fields, "host"@)
        }),
{
    reveal_strlit("x-forwarded-for");
    reveal_strlit("host");
    reveal_strlit(", ");
    reveal_strlit("connection");
    reveal_strlit("keep-alive");
    reveal_strlit("proxy-authenticate");
    reveal_strlit("proxy-authorization");
    reveal_strlit("te");
    reveal_strlit("trailer");
    reveal_strlit("transfer-encoding");
    reveal_strlit("upgrade");
    let (forwarded, host) = ("x-forwarded-for"@, "host"@);
    assert(forwarded.len() == 15 && host.len() == 4);
    assert(!hop_by_hop().contains(forwarded) && !hop_by_hop().contains(host)) by {
        hop_by_hop_names(forwarded);
        hop_by_hop_names(host);
        assert("connection"@.len() == 10 && "keep-alive"@.len() == 10 && "te"@.len() == 2);
        assert("proxy-authenticate"@.len() == 18 && "proxy-authorization"@.len() == 19);
        assert("trailer"@.len() == 7 && "transfer-encoding"@.len() == 17);
        assert("upgrade"@.len() == 7);
    }
    let kept = end_to_end(fields);
    assert(field(kept, forwarded) == field(fields, forwarded));
    assert(field(kept, host) == field(fields, host));
    let noted = with_client(kept, client);
    if let Some(ip) = client {
        let value = forwarded_by(kept, ip.text());
        assert(is_visible_text(value)) by {
            if let Some(Some(text)) = field(kept, forwarded) {
                let first = kept[forwarded][0];
                assert forall|i: int| 0 <= i < text.len() implies ' ' <= #[trigger] text[i] <= '~'
                    || text[i] == '\t' by {
                    assert(is_visible(first[i]));
                }
            }
        }
        field_is_read_as_written(kept, forwarded, value, host);
    }
    if let Some(authority) = authority {
        field_is_read_as_written(noted, host, authority, forwarded);
    }
}

/// A request goes to the upstream without the slashes at its end, followed by the path and query,
/// or by a slash where there is none.
pub proof fn target_is_upstream_and_path(url: Seq<char>, slashes: nat, path: Option<Seq<char>>)
    requires
        url.len() == 0 || url[url.len() - 1] != '/',
    ensures
        ({
            let upstream = url + Seq::new(slashes, |i: int| '/');
            &&& path matches Some(path) ==> target(upstream, Some(path)) == url + path
            &&& path is None ==> target(upstream, path) == url.push('/')
        }),
{
    let upstream = url + Seq::new(slashes, |i: int| '/');
    only_slashes_at_the_end_are_cut(upstream, url.len() as int);
    assert(upstream.take(url.len() as int) =~= url);
    reveal_strlit("/");
    assert(url + "/"@ =~= url.push('/'));
}

/// A proxy sends a request to its upstream, at the path and query of the request.
pub proof fn requests_go_to_the_upstream(proxy: HttpProxy, req: Request)
    ensures
        req.path_and_query matches Some(path) ==> proxy.target_of(req) == target(
            proxy.upstream_url(),
            Some(path@),
        ),
        req.path_and_query is None ==> proxy.target_of(req) == target(proxy.upstream_url(), None),
{
}

} // verus!
