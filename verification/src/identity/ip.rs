//! Identification by address.

use crate::headers::get_header;
#[allow(unused_imports)]
use crate::headers::{field_text, fields_of};
use crate::identity::{Identity, IdentityExtractor, IdentityKind};
use crate::request::Request;
#[allow(unused_imports)]
use crate::text::{before_comma, first_part_is_found, only_outer_blanks_are_trimmed, trimmed};
use crate::text::{cut_at_comma, trim};
use vstd::prelude::*;
#[allow(unused_imports)]
use vstd::string::*;

verus! {

/// Goes by the address that a proxy in front has noted, else by that of the connection.
#[derive(Clone, Copy, Debug, PartialEq, Eq, Structural)]
pub struct IpExtractor;

/// A text, unless it is empty.
pub open spec fn unless_empty(s: Seq<char>) -> Option<Seq<char>> {
    if s.len() > 0 {
        Some(s)
    } else {
        None
    }
}

/// The first address in `x-forwarded-for`.
pub open spec fn forwarded_for(req: Request) -> Option<Seq<char>> {
    match field_text(fields_of(req.headers), "x-forwarded-for"@) {
        Some(text) => unless_empty(trimmed(before_comma(text))),
        None => None,
    }
}

/// The address in `x-real-ip`.
pub open spec fn real_ip(req: Request) -> Option<Seq<char>> {
    match field_text(fields_of(req.headers), "x-real-ip"@) {
        Some(text) => unless_empty(trimmed(text)),
        None => None,
    }
}

/// The address that a request is counted for: of those noted in the headers the first, else that
/// of the connection.
pub open spec fn client_address(req: Request) -> Option<Seq<char>> {
    match (forwarded_for(req), real_ip(req), req.peer) {
        (Some(address), _, _) => Some(address),
        (None, Some(address), _) => Some(address),
        (None, None, Some(peer)) => Some(peer.ip.text()),
        (None, None, None) => None,
    }
}

/// The key of an address.
pub open spec fn ip_key(address: Seq<char>) -> Seq<char> {
    "ip:"@ + address
}

fn identify(address: &str) -> (r: Identity)
    ensures
        r.key@ == ip_key(address@),
        r.kind == IdentityKind::Ip,
{
    let mut key: String = "ip:".to_owned();
    key.append(address);
    Identity { key, kind: IdentityKind::Ip }
}

impl IdentityExtractor for IpExtractor {
    open spec fn key_of(&self, req: Request) -> Option<Seq<char>> {
        match client_address(req) {
            Some(address) => Some(ip_key(address)),
            None => None,
        }
    }

    fn extract(&self, req: &Request) -> (r: Option<Identity>)
        ensures
            r matches Some(identity) ==> identity.kind == IdentityKind::Ip,
    {
        proof {
            reveal_strlit("x-forwarded-for");
            reveal_strlit("x-real-ip");
        }
        if let Some(Some(text)) = get_header(&req.headers, "x-forwarded-for") {
            let first: String = trim(cut_at_comma(text.as_str()).as_str());
            if !first.as_str().is_empty() {
                return Some(identify(first.as_str()));
            }
        }
        if let Some(Some(text)) = get_header(&req.headers, "x-real-ip") {
            let ip: String = trim(text.as_str());
            if !ip.as_str().is_empty() {
                return Some(identify(ip.as_str()));
            }
        }
        match &req.peer {
            Some(peer) => Some(identify(peer.ip.write().as_str())),
            None => None,
        }
    }

    fn extractor_name(&self) -> (r: &'static str)
        ensures
            r@ == "ip"@,
    {
        "ip"
    }
}

/// What `x-forwarded-for` notes takes precedence over all else, and `x-real-ip` over the
/// connection.
pub proof fn forwarded_for_takes_precedence(req: Request)
    ensures
        forwarded_for(req) matches Some(address) ==> client_address(req) == Some(address),
        forwarded_for(req) is None ==> (real_ip(req) matches Some(address) ==> client_address(req)
            == Some(address)),
{
}

/// Different addresses have different keys.
pub proof fn keys_tell_addresses_apart(a: Seq<char>, b: Seq<char>)
    requires
        ip_key(a) == ip_key(b),
    ensures
        a == b,
{
    let prefix = "ip:"@;
    assert(a =~= ip_key(a).skip(prefix.len() as int));
    assert(b =~= ip_key(b).skip(prefix.len() as int));
}

/// Whether the characters from `lo` to `hi` are what stands between blanks in a text up to `end`.
pub open spec fn stands_between_blanks(text: Seq<char>, lo: int, hi: int, end: int) -> bool {
    &&& 0 <= lo < hi <= end <= text.len()
    &&& forall|i: int| 0 <= i < lo ==> (#[trigger] text[i]) == ' ' || text[i] == '\t'
    &&& forall|i: int| hi <= i < end ==> (#[trigger] text[i]) == ' ' || text[i] == '\t'
    &&& text[lo] != ' ' && text[lo] != '\t'
    &&& text[hi - 1] != ' ' && text[hi - 1] != '\t'
}

/// Whether a text ends, or has its first comma, at `end`.
pub open spec fn ends_at_comma(text: Seq<char>, end: int) -> bool {
    &&& 0 <= end <= text.len()
    &&& forall|i: int| 0 <= i < end ==> #[trigger] text[i] != ','
    &&& end == text.len() || text[end] == ','
}

proof fn lemma_first_address(text: Seq<char>, lo: int, hi: int, end: int)
    requires
        ends_at_comma(text, end),
        stands_between_blanks(text, lo, hi, end),
    ensures
        trimmed(before_comma(text)) == text.subrange(lo, hi),
{
    first_part_is_found(text, end);
    let part = text.take(end);
    assert forall|i: int| 0 <= i < lo implies (#[trigger] part[i]) == ' ' || part[i] == '\t' by {
        assert(part[i] == text[i]);
    }
    assert forall|i: int| hi <= i < part.len() implies (#[trigger] part[i]) == ' ' || part[i]
        == '\t' by {
        assert(part[i] == text[i]);
    }
    only_outer_blanks_are_trimmed(part, lo, hi);
    assert(part.subrange(lo, hi) =~= text.subrange(lo, hi));
}

/// A request is counted for the first address in `x-forwarded-for`: all that stands before the
/// first comma, but for blanks around it.
pub proof fn first_forwarded_address_counts(
    req: Request,
    text: Seq<char>,
    lo: int,
    hi: int,
    end: int,
)
    requires
        field_text(fields_of(req.headers), "x-forwarded-for"@) == Some(text),
        ends_at_comma(text, end),
        stands_between_blanks(text, lo, hi, end),
    ensures
        IpExtractor.key_of(req) == Some("ip:"@ + text.subrange(lo, hi)),
{
    lemma_first_address(text, lo, hi, end);
}

/// Two values of `x-forwarded-for` without commas and outer blanks that differ have different
/// keys.
pub proof fn different_forwarded_addresses_differ(
    a: Request,
    b: Request,
    x: Seq<char>,
    y: Seq<char>,
)
    requires
        field_text(fields_of(a.headers), "x-forwarded-for"@) == Some(x),
        field_text(fields_of(b.headers), "x-forwarded-for"@) == Some(y),
        ends_at_comma(x, x.len() as int),
        ends_at_comma(y, y.len() as int),
        stands_between_blanks(x, 0, x.len() as int, x.len() as int),
        stands_between_blanks(y, 0, y.len() as int, y.len() as int),
        x != y,
    ensures
        IpExtractor.key_of(a) is Some,
        IpExtractor.key_of(a) != IpExtractor.key_of(b),
{
    first_forwarded_address_counts(a, x, 0, x.len() as int, x.len() as int);
    first_forwarded_address_counts(b, y, 0, y.len() as int, y.len() as int);
    assert(x.subrange(0, x.len() as int) =~= x);
    assert(y.subrange(0, y.len() as int) =~= y);
    let (k, l) = ("ip:"@ + x, "ip:"@ + y);
    if k == l {
        let n = "ip:"@.len() as int;
        assert(x =~= k.skip(n));
        assert(y =~= l.skip(n));
    }
}

/// Whether `x-forwarded-for` notes no address: it is missing or no text, or nothing but blanks
/// stands before its first comma.
pub open spec fn notes_no_address(text: Option<Seq<char>>, end: int) -> bool {
    text matches Some(text) ==> ends_at_comma(text, end) && forall|i: int|
        0 <= i < end ==> (#[trigger] text[i]) == ' ' || text[i] == '\t'
}

proof fn lemma_no_address(text: Option<Seq<char>>, end: int)
    requires
        notes_no_address(text, end),
    ensures
        text matches Some(text) ==> trimmed(before_comma(text)).len() == 0,
{
    if let Some(text) = text {
        first_part_is_found(text, end);
        let part = text.take(end);
        assert forall|i: int| 0 <= i < part.len() implies (#[trigger] part[i]) == ' ' || part[i]
            == '\t' by {
            assert(part[i] == text[i]);
        }
        only_outer_blanks_are_trimmed(part, part.len() as int, part.len() as int);
    }
}

/// Where `x-forwarded-for` notes no address, a request is counted for all of `x-real-ip`, but for
/// blanks around it.
pub proof fn real_address_counts_next(req: Request, end: int, text: Seq<char>, lo: int, hi: int)
    requires
        notes_no_address(field_text(fields_of(req.headers), "x-forwarded-for"@), end),
        field_text(fields_of(req.headers), "x-real-ip"@) == Some(text),
        stands_between_blanks(text, lo, hi, text.len() as int),
    ensures
        IpExtractor.key_of(req) == Some("ip:"@ + text.subrange(lo, hi)),
{
    lemma_no_address(field_text(fields_of(req.headers), "x-forwarded-for"@), end);
    only_outer_blanks_are_trimmed(text, lo, hi);
}

/// Where neither notes an address, a request is counted for that of the connection, and for none
/// where that is not known.
pub proof fn connection_counts_last(req: Request, end: int)
    requires
        notes_no_address(field_text(fields_of(req.headers), "x-forwarded-for"@), end),
        field_text(fields_of(req.headers), "x-real-ip"@) matches Some(text) ==> forall|i: int|
            0 <= i < text.len() ==> (#[trigger] text[i]) == ' ' || text[i] == '\t',
    ensures
        req.peer matches Some(peer) ==> IpExtractor.key_of(req) == Some("ip:"@ + peer.ip.text()),
        req.peer is None ==> IpExtractor.key_of(req) is None,
{
    lemma_no_address(field_text(fields_of(req.headers), "x-forwarded-for"@), end);
    if let Some(text) = field_text(fields_of(req.headers), "x-real-ip"@) {
        only_outer_blanks_are_trimmed(text, text.len() as int, text.len() as int);
    }
}

} // verus!
