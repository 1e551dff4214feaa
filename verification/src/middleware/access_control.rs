//! Who is kept out, and who is let in without a limit.

use crate::config::AccessConfig;
use crate::headers::{get_header, new_headers, set_header};
#[allow(unused_imports)]
use crate::headers::{field_text, fields_of};
use crate::json::{write_object, JsonValue};
#[allow(unused_imports)]
use crate::json::{members_text_grows, quoted, quoted_plain};
use crate::network::{IpAddr, Network};
#[allow(unused_imports)]
use crate::network::network_of;
use crate::request::Request;
#[allow(unused_imports)]
use crate::response::json_fields;
use crate::response::Response;
use crate::text::same_text;
use http::{HeaderMap, HeaderValue};
use vstd::prelude::*;
#[allow(unused_imports)]
use vstd::string::*;

verus! {

/// Put on a request that is allowlisted, and so not to be limited.
#[derive(Clone, Copy, Debug, PartialEq, Eq, Structural)]
pub struct AllowlistBypassed;

/// Networks and keys: those that are kept out, and those that are let in without a limit.
#[derive(Debug)]
pub struct AccessControl {
    denylist_ips: Vec<Network>,
    denylist_keys: Vec<String>,
    allowlist_ips: Vec<Network>,
    allowlist_keys: Vec<String>,
}

/// The networks that a list names. What is no notation of a network is left out.
pub open spec fn networks(list: Seq<String>) -> Seq<Network>
    decreases list.len(),
{
    if list.len() == 0 {
        Seq::empty()
    } else {
        match network_of(list.last()@) {
            Some(network) => networks(list.drop_last()).push(network),
            None => networks(list.drop_last()),
        }
    }
}

/// Whether a list holds a text.
pub open spec fn holds(list: Seq<String>, text: Seq<char>) -> bool {
    exists|i: int| 0 <= i < list.len() && (#[trigger] list[i])@ == text
}

/// Whether one of the networks has an address.
pub open spec fn one_has(networks: Seq<Network>, ip: IpAddr) -> bool {
    exists|i: int| 0 <= i < networks.len() && (#[trigger] networks[i]).has(ip)
}

/// Whether an address or a key, where they are known, is on a pair of lists.
pub open spec fn is_on(
    ips: Seq<Network>,
    keys: Seq<String>,
    ip: Option<IpAddr>,
    api_key: Option<Seq<char>>,
) -> bool {
    ||| (api_key matches Some(key) && holds(keys, key))
    ||| (ip matches Some(ip) && one_has(ips, ip))
}

/// Whether all the networks are well formed.
pub open spec fn all_wf(networks: Seq<Network>) -> bool {
    forall|i: int| 0 <= i < networks.len() ==> (#[trigger] networks[i]).wf()
}

fn parse_networks(list: &Vec<String>) -> (r: Vec<Network>)
    ensures
        r@ == networks(list@),
        all_wf(r@),
{
    let mut r: Vec<Network> = Vec::new();
    let mut i: usize = 0;
    while i < list.len()
        invariant
            i <= list@.len(),
            r@ == networks(list@.take(i as int)),
            all_wf(r@),
        decreases list@.len() - i,
    {
        assert(list@.take(i + 1).drop_last() =~= list@.take(i as int));
        if let Some(network) = Network::parse(list[i].as_str()) {
            r.push(network);
        }
        i = i + 1;
    }
    assert(list@.take(i as int) =~= list@);
    r
}

fn list_holds(list: &Vec<String>, text: &str) -> (r: bool)
    ensures
        r == holds(list@, text@),
{
    let mut i: usize = 0;
    while i < list.len()
        invariant
            i <= list@.len(),
            forall|j: int| 0 <= j < i ==> (#[trigger] list@[j])@ != text@,
        decreases list@.len() - i,
    {
        if same_text(list[i].as_str(), text) {
            assert(list@[i as int]@ == text@);
            return true;
        }
        i = i + 1;
    }
    false
}

fn one_contains(networks: &Vec<Network>, ip: IpAddr) -> (r: bool)
    requires
        all_wf(networks@),
    ensures
        r == one_has(networks@, ip),
{
    let mut i: usize = 0;
    while i < networks.len()
        invariant
            i <= networks@.len(),
            all_wf(networks@),
            forall|j: int| 0 <= j < i ==> !(#[trigger] networks@[j]).has(ip),
        decreases networks@.len() - i,
    {
        if networks[i].contains(ip) {
            assert(networks@[i as int].has(ip));
            return true;
        }
        i = i + 1;
    }
    false
}

fn find(
    ips: &Vec<Network>,
    keys: &Vec<String>,
    ip: Option<IpAddr>,
    api_key: Option<&str>,
) -> (r: bool)
    requires
        all_wf(ips@),
    ensures
        r == is_on(ips@, keys@, ip, key_text(api_key)),
{
    if let Some(key) = api_key {
        if list_holds(keys, key) {
            return true;
        }
    }
    match ip {
        Some(ip) => one_contains(ips, ip),
        None => false,
    }
}

/// The text of a key, if there is one.
pub open spec fn key_text(api_key: Option<&str>) -> Option<Seq<char>> {
    match api_key {
        Some(key) => Some(key@),
        None => None,
    }
}

impl AccessControl {
    /// The networks that are kept out.
    pub closed spec fn denied_ips(self) -> Seq<Network> {
        self.denylist_ips@
    }

    /// The keys that are kept out.
    pub closed spec fn denied_keys(self) -> Seq<String> {
        self.denylist_keys@
    }

    /// The networks that are let in without a limit.
    pub closed spec fn allowed_ips(self) -> Seq<Network> {
        self.allowlist_ips@
    }

    /// The keys that are let in without a limit.
    pub closed spec fn allowed_keys(self) -> Seq<String> {
        self.allowlist_keys@
    }

    #[verifier::type_invariant]
    spec fn wf(self) -> bool {
        all_wf(self.denylist_ips@) && all_wf(self.allowlist_ips@)
    }

    /// Whether a requester is kept out.
    pub open spec fn denies(self, ip: Option<IpAddr>, api_key: Option<Seq<char>>) -> bool {
        is_on(self.denied_ips(), self.denied_keys(), ip, api_key)
    }

    /// Whether a requester is on the lists of those let in without a limit.
    pub open spec fn allows(self, ip: Option<IpAddr>, api_key: Option<Seq<char>>) -> bool {
        is_on(self.allowed_ips(), self.allowed_keys(), ip, api_key)
    }

    /// Whether nobody is on any list.
    pub open spec fn empty(self) -> bool {
        &&& self.denied_ips().len() == 0
        &&& self.denied_keys().len() == 0
        &&& self.allowed_ips().len() == 0
        &&& self.allowed_keys().len() == 0
    }

    pub fn new(
        denylist_ips: Vec<Network>,
        denylist_keys: Vec<String>,
        allowlist_ips: Vec<Network>,
        allowlist_keys: Vec<String>,
    ) -> (r: Self)
        requires
            all_wf(denylist_ips@),
            all_wf(allowlist_ips@),
        ensures
            r.denied_ips() == denylist_ips@,
            r.denied_keys() == denylist_keys@,
            r.allowed_ips() == allowlist_ips@,
            r.allowed_keys() == allowlist_keys@,
    {
        AccessControl { denylist_ips, denylist_keys, allowlist_ips, allowlist_keys }
    }

    pub fn from_config(config: &AccessConfig) -> (r: Self)
        ensures
            r.denied_ips() == networks(config.denylist_ips@),
            r.denied_keys() == config.denylist_keys@,
            r.allowed_ips() == networks(config.allowlist_ips@),
            r.allowed_keys() == config.allowlist_keys@,
    {
        AccessControl::new(
            parse_networks(&config.denylist_ips),
            config.denylist_keys.clone(),
            parse_networks(&config.allowlist_ips),
            config.allowlist_keys.clone(),
        )
    }

    pub fn is_empty(&self) -> (r: bool)
        ensures
            r == self.empty(),
    {
        self.denylist_ips.len() == 0 && self.denylist_keys.len() == 0 && self.allowlist_ips.len()
            == 0 && self.allowlist_keys.len() == 0
    }

    pub fn is_denied(&self, ip: Option<IpAddr>, api_key: Option<&str>) -> (r: bool)
        ensures
            r == self.denies(ip, key_text(api_key)),
    {
        proof {
            use_type_invariant(self);
        }
        find(&self.denylist_ips, &self.denylist_keys, ip, api_key)
    }

    pub fn is_allowed(&self, ip: Option<IpAddr>, api_key: Option<&str>) -> (r: bool)
        ensures
            r == self.allows(ip, key_text(api_key)),
    {
        proof {
            use_type_invariant(self);
        }
        find(&self.allowlist_ips, &self.allowlist_keys, ip, api_key)
    }
}

/// What a requester that is kept out reads.
pub open spec fn forbidden_text() -> Seq<char> {
    "{\"error\":\"forbidden\",\"message\":\"Access denied\"}"@
}

/// Whether a response tells a requester that it is kept out.
pub open spec fn is_forbidden(resp: Response) -> bool {
    &&& resp.status == 403
    &&& fields_of(resp.headers) == json_fields()
    &&& resp.body@ == forbidden_text()
    &&& resp.decision is None
}

proof fn lemma_forbidden_text()
    ensures
        seq!['{'] + (quoted("error"@) + seq![':'] + quoted("forbidden"@) + seq![','] + (quoted(
            "message"@,
        ) + seq![':'] + quoted("Access denied"@))) + seq!['}'] == forbidden_text(),
{
    reveal_strlit("error");
    reveal_strlit("forbidden");
    reveal_strlit("message");
    reveal_strlit("Access denied");
    reveal_strlit("{\"error\":\"forbidden\",\"message\":\"Access denied\"}");
    quoted_plain("error"@);
    quoted_plain("forbidden"@);
    quoted_plain("message"@);
    quoted_plain("Access denied"@);
    assert(seq!['{'] + (quoted("error"@) + seq![':'] + quoted("forbidden"@) + seq![','] + (quoted(
        "message"@,
    ) + seq![':'] + quoted("Access denied"@))) + seq!['}'] =~= forbidden_text());
}

/// Tells a requester that it is kept out.
pub fn build_403_response() -> (r: Response)
    ensures
        is_forbidden(r),
{
    let error: JsonValue = JsonValue::Text("forbidden".to_owned());
    let message: JsonValue = JsonValue::Text("Access denied".to_owned());
    let mut members: Vec<(&'static str, JsonValue)> = Vec::new();
    proof {
        members_text_grows(members@, "error", error);
        members_text_grows(members@.push(("error", error)), "message", message);
        lemma_forbidden_text();
        reveal_strlit("error");
        reveal_strlit("message");
        reveal_strlit("content-type");
        reveal_strlit("application/json");
    }
    members.push(("error", error));
    members.push(("message", message));
    let body: String = write_object(members);
    let mut headers: HeaderMap<HeaderValue> = new_headers();
    let _ = set_header(&mut headers, "content-type", "application/json");
    Response { status: 403, headers, body, decision: None }
}

/// Holds each request against the lists.
#[derive(Debug)]
pub struct AccessControlLayer {
    access_control: AccessControl,
}

/// The address that a connection comes from.
pub open spec fn peer_ip(req: Request) -> Option<IpAddr> {
    match req.peer {
        Some(peer) => Some(peer.ip),
        None => None,
    }
}

/// The key that a request brings.
pub open spec fn api_key(req: Request) -> Option<Seq<char>> {
    field_text(fields_of(req.headers), "x-api-key"@)
}

impl AccessControlLayer {
    pub closed spec fn lists(self) -> AccessControl {
        self.access_control
    }

    /// Whether a request is kept out.
    pub open spec fn denies(self, req: Request) -> bool {
        self.lists().denies(peer_ip(req), api_key(req))
    }

    /// Whether a request is let in without a limit: it is on the one list and not on the other.
    pub open spec fn exempts(self, req: Request) -> bool {
        !self.denies(req) && self.lists().allows(peer_ip(req), api_key(req))
    }

    pub fn new(access_control: AccessControl) -> (r: Self)
        ensures
            r.lists() == access_control,
    {
        AccessControlLayer { access_control }
    }

    /// Answers a request that is kept out, and marks one that is not to be limited.
    pub fn call(&self, req: &mut Request) -> (r: Option<Response>)
        ensures
            r is Some == self.denies(*old(req)),
            r matches Some(resp) ==> is_forbidden(resp),
            *final(req) == if self.exempts(*old(req)) {
                Request { bypass: Some(AllowlistBypassed), ..*old(req) }
            } else {
                *old(req)
            },
    {
        if self.access_control.is_empty() {
            return None;
        }
        let ip: Option<IpAddr> = match &req.peer {
            Some(peer) => Some(peer.ip),
            None => None,
        };
        proof {
            reveal_strlit("x-api-key");
        }
        let header: Option<Option<String>> = get_header(&req.headers, "x-api-key");
        let api_key: Option<&str> = match &header {
            Some(Some(key)) => Some(key.as_str()),
            _ => None,
        };
        if self.access_control.is_denied(ip, api_key) {
            return Some(build_403_response());
        }
        if self.access_control.is_allowed(ip, api_key) {
            req.bypass = Some(AllowlistBypassed);
        }
        None
    }
}

/// Who is kept out is kept out though it is on the other list too.
pub proof fn denylist_takes_precedence(layer: AccessControlLayer, req: Request)
    requires
        layer.lists().denies(peer_ip(req), api_key(req)),
        layer.lists().allows(peer_ip(req), api_key(req)),
    ensures
        layer.denies(req),
        !layer.exempts(req),
{
}

/// Empty lists keep nobody out and exempt nobody.
pub proof fn empty_lists_change_nothing(layer: AccessControlLayer, req: Request)
    requires
        layer.lists().empty(),
    ensures
        !layer.denies(req),
        !layer.exempts(req),
{
}

/// An address in a denied network is denied, whatever key comes with it.
pub proof fn denied_networks_are_denied(
    lists: AccessControl,
    i: int,
    ip: IpAddr,
    api_key: Option<Seq<char>>,
)
    requires
        0 <= i < lists.denied_ips().len(),
        lists.denied_ips()[i].has(ip),
    ensures
        lists.denies(Some(ip), api_key),
{
}

/// A denied key is denied, wherever it comes from.
pub proof fn denied_keys_are_denied(lists: AccessControl, i: int, ip: Option<IpAddr>)
    requires
        0 <= i < lists.denied_keys().len(),
    ensures
        lists.denies(ip, Some(lists.denied_keys()[i]@)),
{
}

/// Nobody else is denied.
pub proof fn nobody_else_is_denied(
    lists: AccessControl,
    ip: Option<IpAddr>,
    api_key: Option<Seq<char>>,
)
    requires
        ip matches Some(ip) ==> forall|i: int|
            0 <= i < lists.denied_ips().len() ==> !(#[trigger] lists.denied_ips()[i]).has(ip),
        api_key matches Some(key) ==> forall|i: int|
            0 <= i < lists.denied_keys().len() ==> (#[trigger] lists.denied_keys()[i])@ != key,
    ensures
        !lists.denies(ip, api_key),
{
}

/// An address in an allowed network is allowed, whatever key comes with it.
pub proof fn allowed_networks_are_allowed(
    lists: AccessControl,
    i: int,
    ip: IpAddr,
    api_key: Option<Seq<char>>,
)
    requires
        0 <= i < lists.allowed_ips().len(),
        lists.allowed_ips()[i].has(ip),
    ensures
        lists.allows(Some(ip), api_key),
{
}

/// An allowed key is allowed, wherever it comes from.
pub proof fn allowed_keys_are_allowed(lists: AccessControl, i: int, ip: Option<IpAddr>)
    requires
        0 <= i < lists.allowed_keys().len(),
    ensures
        lists.allows(ip, Some(lists.allowed_keys()[i]@)),
{
}

/// Nobody else is allowed.
pub proof fn nobody_else_is_allowed(
    lists: AccessControl,
    ip: Option<IpAddr>,
    api_key: Option<Seq<char>>,
)
    requires
        ip matches Some(ip) ==> forall|i: int|
            0 <= i < lists.allowed_ips().len() ==> !(#[trigger] lists.allowed_ips()[i]).has(ip),
        api_key matches Some(key) ==> forall|i: int|
            0 <= i < lists.allowed_keys().len() ==> (#[trigger] lists.allowed_keys()[i])@ != key,
    ensures
        !lists.allows(ip, api_key),
{
}

/// A request is denied, and exempt, by the address of its connection and its `x-api-key`; one that
/// is denied is not exempt.
pub proof fn requests_are_listed_by_peer_and_key(layer: AccessControlLayer, req: Request)
    ensures
        ({
            let ip = if req.peer is Some {
                Some(req.peer->Some_0.ip)
            } else {
                None
            };
            let key = field_text(fields_of(req.headers), "x-api-key"@);
            &&& layer.denies(req) == layer.lists().denies(ip, key)
            &&& layer.exempts(req) == (layer.lists().allows(ip, key) && !layer.lists().denies(
                ip,
                key,
            ))
        }),
{
}

/// Every network that a list names is read from it, in whatever place.
pub proof fn named_networks_are_read(list: Seq<String>, i: int)
    requires
        0 <= i < list.len(),
    ensures
        network_of(list[i]@) matches Some(network) ==> networks(list).contains(network),
    decreases list.len(),
{
    let rest = list.drop_last();
    if let Some(network) = network_of(list[i]@) {
        if i == list.len() - 1 {
            let all = networks(list);
            assert(all[all.len() - 1] == network);
        } else {
            named_networks_are_read(rest, i);
            assert(rest[i] == list[i]);
            let j = choose|j: int| 0 <= j < networks(rest).len() && networks(rest)[j] == network;
            assert(networks(list)[j] == network);
        }
    }
}

/// No network is read that a list does not name.
pub proof fn no_other_networks_are_read(list: Seq<String>, network: Network)
    requires
        networks(list).contains(network),
    ensures
        exists|i: int| 0 <= i < list.len() && network_of((#[trigger] list[i])@) == Some(network),
    decreases list.len(),
{
    if list.len() > 0 {
        let rest = list.drop_last();
        let j = choose|j: int| 0 <= j < networks(list).len() && networks(list)[j] == network;
        if network_of(list.last()@) == Some(network) {
            assert(network_of(list[list.len() - 1]@) == Some(network));
        } else {
            assert(networks(rest)[j] == network);
            no_other_networks_are_read(rest, network);
            let i = choose|i: int|
                0 <= i < rest.len() && network_of((#[trigger] rest[i])@) == Some(network);
            assert(network_of(list[i]@) == Some(network));
        }
    }
}

/// Who is kept out is answered with the status 403 and told so in JSON.
pub proof fn forbidden_is_told(resp: Response)
    requires
        is_forbidden(resp),
    ensures
        resp.status == 403,
        resp.body@ == "{\"error\":\"forbidden\",\"message\":\"Access denied\"}"@,
        field_text(fields_of(resp.headers), "content-type"@) == Some("application/json"@),
        forall|name: Seq<char>| #[trigger]
            fields_of(resp.headers).contains_key(name) <==> name == "content-type"@,
        resp.decision is None,
{
    reveal_strlit("application/json");
    crate::headers::field_is_read_as_written(
        crate::headers::no_fields(),
        "content-type"@,
        "application/json"@,
        "content-type"@,
    );
}

/// Lists are empty if nothing is on any of the four.
pub proof fn lists_are_empty_if_all_four_are(lists: AccessControl)
    ensures
        lists.empty() <==> lists.denied_ips().len() == 0 && lists.denied_keys().len() == 0
            && lists.allowed_ips().len() == 0 && lists.allowed_keys().len() == 0,
{
}

} // verus!
