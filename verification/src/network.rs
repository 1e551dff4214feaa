//! Addresses and networks of the internet protocol.

#[allow(unused_imports)]
use crate::text::{decimal, decimal_holds_digits};
use crate::text::to_decimal;
use vstd::prelude::*;
#[allow(unused_imports)]
use vstd::string::*;
#[allow(unused_imports)]
use vstd::arithmetic::power2::{lemma_pow2_pos, pow2};

verus! {

/// An address, as a number.
#[derive(Clone, Copy, Debug, PartialEq, Eq, Structural)]
pub enum IpAddr {
    V4(u32),
    V6(u128),
}

/// The notation of an address of version 4: its bytes, in decimal.
pub open spec fn v4_text(addr: u32) -> Seq<char> {
    decimal(addr as nat / 0x100_0000) + "."@ + decimal(addr as nat / 0x1_0000 % 0x100) + "."@
        + decimal(addr as nat / 0x100 % 0x100) + "."@ + decimal(addr as nat % 0x100)
}

/// The notation of an address of version 6.
pub uninterp spec fn v6_text(addr: u128) -> Seq<char>;

/// Whether a text holds hexadecimal digits, colons and full stops, and not nothing.
pub open spec fn is_address_text(s: Seq<char>) -> bool {
    &&& s.len() > 0
    &&& forall|i: int|
        0 <= i < s.len() ==> '0' <= #[trigger] s[i] <= '9' || 'a' <= s[i] <= 'f' || s[i] == ':'
            || s[i] == '.'
}

/// The `Display` of the `Ipv6Addr` that `Ipv6Net::addr` gives: the notation of RFC 5952, a
/// function of the address alone, made of hexadecimal digits in lower case, colons and, where an
/// address of version 4 is embedded, full stops.
#[verifier::external_body]
fn write_v6(addr: u128) -> (r: String)
    ensures
        r@ == v6_text(addr),
        is_address_text(r@),
{
    ipnet::Ipv6Net::new(addr.into(), 128).unwrap().addr().to_string()
}

impl IpAddr {
    /// The notation of the address.
    pub open spec fn text(self) -> Seq<char> {
        match self {
            IpAddr::V4(addr) => v4_text(addr),
            IpAddr::V6(addr) => v6_text(addr),
        }
    }

    /// Writes the address.
    pub fn write(self) -> (r: String)
        ensures
            r@ == self.text(),
            is_address_text(r@),
    {
        match self {
            IpAddr::V4(addr) => {
                let mut s: String = to_decimal((addr / 0x100_0000) as u128);
                s.append(".");
                s.append(to_decimal((addr / 0x1_0000 % 0x100) as u128).as_str());
                s.append(".");
                s.append(to_decimal((addr / 0x100 % 0x100) as u128).as_str());
                s.append(".");
                s.append(to_decimal((addr % 0x100) as u128).as_str());
                proof {
                    decimal_holds_digits((addr / 0x100_0000) as nat);
                    decimal_holds_digits((addr / 0x1_0000 % 0x100) as nat);
                    decimal_holds_digits((addr / 0x100 % 0x100) as nat);
                    decimal_holds_digits((addr % 0x100) as nat);
                    reveal_strlit(".");
                }
                s
            },
            IpAddr::V6(addr) => write_v6(addr),
        }
    }
}

/// An address and a port.
#[derive(Clone, Copy, Debug, PartialEq, Eq, Structural)]
pub struct SocketAddr {
    pub ip: IpAddr,
    pub port: u16,
}

/// The addresses that have their first `prefix` bits in common with `addr`.
#[allow(inconsistent_fields)]
#[derive(Clone, Copy, Debug, PartialEq, Eq, Structural)]
pub enum Network {
    V4 { addr: u32, prefix: u8 },
    V6 { addr: u128, prefix: u8 },
}

impl Network {
    /// Whether the prefix is no longer than an address.
    pub open spec fn wf(self) -> bool {
        match self {
            Network::V4 { addr, prefix } => prefix <= 32,
            Network::V6 { addr, prefix } => prefix <= 128,
        }
    }

    /// Whether an address belongs to the network: it is of the same version, and has the first
    /// bits in common with it.
    pub open spec fn has(self, ip: IpAddr) -> bool {
        match (self, ip) {
            (Network::V4 { addr, prefix }, IpAddr::V4(ip)) => {
                let rest = pow2((32 - prefix) as nat);
                addr as nat / rest == ip as nat / rest
            },
            (Network::V6 { addr, prefix }, IpAddr::V6(ip)) => {
                let rest = pow2((128 - prefix) as nat);
                addr as nat / rest == ip as nat / rest
            },
            _ => false,
        }
    }

    pub fn contains(&self, ip: IpAddr) -> (r: bool)
        requires
            self.wf(),
        ensures
            r == self.has(ip),
    {
        match (*self, ip) {
            (Network::V4 { addr, prefix }, IpAddr::V4(ip)) => v4_contains(addr, prefix, ip),
            (Network::V6 { addr, prefix }, IpAddr::V6(ip)) => v6_contains(addr, prefix, ip),
            _ => false,
        }
    }

    /// Reads a network in the notation `address/prefix`.
    pub fn parse(text: &str) -> (r: Option<Network>)
        ensures
            r == network_of(text@),
            r matches Some(network) ==> network.wf(),
    {
        parse_network(text)
    }
}

/// `Ipv4Net::contains`: whether an address lies between the first and the last address of the
/// network, that is, whether the two agree in the bits of the prefix.
#[verifier::external_body]
fn v4_contains(addr: u32, prefix: u8, ip: u32) -> (r: bool)
    requires
        prefix <= 32,
    ensures
        r == (Network::V4 { addr, prefix }).has(IpAddr::V4(ip)),
{
    let host = ipnet::Ipv4Net::new(ip.into(), 32).unwrap().addr();
    ipnet::Ipv4Net::new(addr.into(), prefix).unwrap().contains(&host)
}

/// `Ipv6Net::contains`: as `Ipv4Net::contains`, for addresses of 128 bits.
#[verifier::external_body]
fn v6_contains(addr: u128, prefix: u8, ip: u128) -> (r: bool)
    requires
        prefix <= 128,
    ensures
        r == (Network::V6 { addr, prefix }).has(IpAddr::V6(ip)),
{
    let host = ipnet::Ipv6Net::new(ip.into(), 128).unwrap().addr();
    ipnet::Ipv6Net::new(addr.into(), prefix).unwrap().contains(&host)
}

/// The network that `ipnet` reads in a text, if the text is the notation of one.
pub uninterp spec fn network_of(text: Seq<char>) -> Option<Network>;

/// `<IpNet as FromStr>::from_str`: a function of the text alone. The parser reads no prefix that
/// is longer than an address.
#[verifier::external_body]
fn parse_network(text: &str) -> (r: Option<Network>)
    ensures
        r == network_of(text@),
        r matches Some(network) ==> network.wf(),
{
    match text.parse::<ipnet::IpNet>() {
        Ok(ipnet::IpNet::V4(net)) => Some(
            Network::V4 { addr: net.addr().into(), prefix: net.prefix_len() },
        ),
        Ok(ipnet::IpNet::V6(net)) => Some(
            Network::V6 { addr: net.addr().into(), prefix: net.prefix_len() },
        ),
        Err(_) => None,
    }
}

/// A network has the addresses of its version in one block, whose size is two to the power of the
/// bits that the prefix leaves, and which begins at a multiple of its size.
pub proof fn network_is_a_block(addr: u32, prefix: u8, ip: u32, base: nat)
    requires
        prefix <= 32,
        base % pow2((32 - prefix) as nat) == 0,
        base <= addr < base + pow2((32 - prefix) as nat),
    ensures
        (Network::V4 { addr, prefix }).has(IpAddr::V4(ip)) <==> base <= ip < base + pow2(
            (32 - prefix) as nat,
        ),
{
    let size = pow2((32 - prefix) as nat);
    lemma_pow2_pos((32 - prefix) as nat);
    lemma_block(addr as nat, ip as nat, base, size);
}

/// The same of addresses of 128 bits.
pub proof fn long_network_is_a_block(addr: u128, prefix: u8, ip: u128, base: nat)
    requires
        prefix <= 128,
        base % pow2((128 - prefix) as nat) == 0,
        base <= addr < base + pow2((128 - prefix) as nat),
    ensures
        (Network::V6 { addr, prefix }).has(IpAddr::V6(ip)) <==> base <= ip < base + pow2(
            (128 - prefix) as nat,
        ),
{
    let size = pow2((128 - prefix) as nat);
    lemma_pow2_pos((128 - prefix) as nat);
    lemma_block(addr as nat, ip as nat, base, size);
}

/// A network has no address of the other version.
pub proof fn versions_do_not_mix(short: u32, long: u128, prefix: u8)
    ensures
        !(Network::V4 { addr: short, prefix }).has(IpAddr::V6(long)),
        !(Network::V6 { addr: long, prefix }).has(IpAddr::V4(short)),
{
}

proof fn lemma_block(a: nat, b: nat, base: nat, size: nat)
    requires
        size > 0,
        base % size == 0,
        base <= a < base + size,
    ensures
        a / size == b / size <==> base <= b < base + size,
{
    let q = base / size;
    vstd::arithmetic::div_mod::lemma_fundamental_div_mod(base as int, size as int);
    vstd::arithmetic::div_mod::lemma_fundamental_div_mod(b as int, size as int);
    assert(a == q * size + (a - base)) by (nonlinear_arith)
        requires
            base == size * q,
    ;
    vstd::arithmetic::div_mod::lemma_fundamental_div_mod_converse(
        a as int,
        size as int,
        q as int,
        a - base,
    );
    if base <= b < base + size {
        assert(b == q * size + (b - base)) by (nonlinear_arith)
            requires
                base == size * q,
        ;
        vstd::arithmetic::div_mod::lemma_fundamental_div_mod_converse(
            b as int,
            size as int,
            q as int,
            b - base,
        );
    }
}

/// An address of version 4 is written as its four bytes.
pub proof fn address_is_written_byte_by_byte(a: u8, b: u8, c: u8, d: u8)
    ensures
        IpAddr::V4((a * 0x100_0000 + b * 0x1_0000 + c * 0x100 + d) as u32).text() == decimal(
            a as nat,
        ) + "."@ + decimal(b as nat) + "."@ + decimal(c as nat) + "."@ + decimal(d as nat),
{
    let n = (a * 0x100_0000 + b * 0x1_0000 + c * 0x100 + d) as nat;
    assert(n / 0x100_0000 == a as nat);
    assert(n / 0x1_0000 % 0x100 == b as nat);
    assert(n / 0x100 % 0x100 == c as nat);
    assert(n % 0x100 == d as nat);
}

} // verus!
