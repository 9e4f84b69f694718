//! Addresses as numbers.

use vstd::prelude::*;
use vstd::slice::slice_subrange;
use crate::big_endian::{be_bytes, be_bytes_of, be_value, be_value_of};
use crate::big_endian::{lemma_be_bytes_len, lemma_be_round_trip, lemma_be_value_bound};
use crate::little_endian::pow256;

verus! {

/// An IP address, as the number its bytes spell in network order.
#[derive(Clone, Copy, PartialEq, Eq, Structural, Debug)]
pub enum IpAddr {
    V4(u32),
    V6(u128),
}

/// An IP address and a port.
#[derive(Clone, Copy, PartialEq, Eq, Structural, Debug)]
pub struct SocketAddr {
    pub ip: IpAddr,
    pub port: u16,
}

/// A target host: a name to resolve or an address.
pub enum Host {
    Name(String),
    Ip(IpAddr),
}

/// What a target host is.
#[verifier::ext_equal]
pub enum HostView {
    Name(Seq<char>),
    Ip(IpAddr),
}

impl View for Host {
    type V = HostView;

    open spec fn view(&self) -> HostView {
        match self {
            Host::Name(s) => HostView::Name(s@),
            Host::Ip(ip) => HostView::Ip(*ip),
        }
    }
}

/// The number that four octets spell in network order.
pub open spec fn v4_number(a: u8, b: u8, c: u8, d: u8) -> int {
    ((a * 256 + b) * 256 + c) * 256 + d
}

/// The number that eight 16-bit segments spell in network order.
pub open spec fn v6_number(s: Seq<u16>) -> int {
    ((((((s[0] * 0x1_0000 + s[1]) * 0x1_0000 + s[2]) * 0x1_0000 + s[3]) * 0x1_0000 + s[4])
        * 0x1_0000 + s[5]) * 0x1_0000 + s[6]) * 0x1_0000 + s[7]
}

impl IpAddr {
    /// The IPv4 address `a.b.c.d`.
    pub fn v4(a: u8, b: u8, c: u8, d: u8) -> (ip: IpAddr)
        ensures
            ip is V4,
            ip->V4_0 == v4_number(a, b, c, d),
    {
        IpAddr::V4(((a as u32 * 256 + b as u32) * 256 + c as u32) * 256 + d as u32)
    }

    /// The IPv6 address with the given segments.
    pub fn v6(s: [u16; 8]) -> (ip: IpAddr)
        ensures
            ip is V6,
            ip->V6_0 == v6_number(s@),
    {
        let hi: u128 = ((s[0] as u128 * 0x1_0000 + s[1] as u128) * 0x1_0000 + s[2] as u128)
            * 0x1_0000 + s[3] as u128;
        let lo: u128 = ((s[4] as u128 * 0x1_0000 + s[5] as u128) * 0x1_0000 + s[6] as u128)
            * 0x1_0000 + s[7] as u128;
        IpAddr::V6(hi * 0x1_0000_0000_0000_0000 + lo)
    }

    /// Whether this is an IPv4 address.
    pub fn is_ipv4(&self) -> (r: bool)
        ensures
            r == (self is V4),
    {
        match self {
            IpAddr::V4(_) => true,
            IpAddr::V6(_) => false,
        }
    }
}

impl SocketAddr {
    /// The address with the given port.
    pub fn new(ip: IpAddr, port: u16) -> (a: SocketAddr)
        ensures
            a.ip == ip,
            a.port == port,
    {
        SocketAddr { ip, port }
    }

    /// Whether the address is an IPv4 address.
    pub fn is_ipv4(&self) -> (r: bool)
        ensures
            r == (self.ip is V4),
    {
        self.ip.is_ipv4()
    }
}

/// The bytes of an address in network order: four or sixteen.
pub open spec fn ip_bytes(ip: IpAddr) -> Seq<u8> {
    match ip {
        IpAddr::V4(n) => be_bytes(n as nat, 4),
        IpAddr::V6(n) => be_bytes(n as nat, 16),
    }
}

/// Number of bytes of an address.
pub open spec fn ip_len(ip: IpAddr) -> nat {
    match ip {
        IpAddr::V4(_) => 4,
        IpAddr::V6(_) => 16,
    }
}

/// The IPv4 address in four bytes.
pub open spec fn v4_at(s: Seq<u8>, at: int) -> IpAddr {
    IpAddr::V4(be_value(s.subrange(at, at + 4)) as u32)
}

/// The IPv6 address in sixteen bytes.
pub open spec fn v6_at(s: Seq<u8>, at: int) -> IpAddr {
    IpAddr::V6(be_value(s.subrange(at, at + 16)) as u128)
}

/// An address is as long as its family says and reads back from its bytes.
pub proof fn lemma_ip_bytes(ip: IpAddr)
    ensures
        ip_bytes(ip).len() == ip_len(ip),
        ip is V4 ==> be_value(ip_bytes(ip)) as u32 == ip->V4_0,
        ip is V6 ==> be_value(ip_bytes(ip)) as u128 == ip->V6_0,
{
    reveal_with_fuel(pow256, 17);
    match ip {
        IpAddr::V4(n) => {
            lemma_be_bytes_len(n as nat, 4);
            lemma_be_round_trip(n as nat, 4);
        },
        IpAddr::V6(n) => {
            lemma_be_bytes_len(n as nat, 16);
            lemma_be_round_trip(n as nat, 16);
        },
    }
}

impl IpAddr {
    /// The bytes of the address in network order.
    pub fn octets(&self) -> (out: Vec<u8>)
        ensures
            out@ == ip_bytes(*self),
            out@.len() == ip_len(*self),
    {
        match self {
            IpAddr::V4(n) => be_bytes_of(*n as u128, 4),
            IpAddr::V6(n) => be_bytes_of(*n, 16),
        }
    }

    /// The IPv4 address in the four bytes from `at`.
    pub(crate) fn v4_from(s: &[u8], at: usize) -> (ip: IpAddr)
        requires
            at + 4 <= s.len(),
        ensures
            ip == v4_at(s@, at as int),
    {
        let part: &[u8] = slice_subrange(s, at, at + 4);
        proof {
            reveal_with_fuel(pow256, 5);
            lemma_be_value_bound(part@);
        }
        IpAddr::V4(be_value_of(part) as u32)
    }

    /// The IPv6 address in the sixteen bytes from `at`.
    pub(crate) fn v6_from(s: &[u8], at: usize) -> (ip: IpAddr)
        requires
            at + 16 <= s.len(),
        ensures
            ip == v6_at(s@, at as int),
    {
        IpAddr::V6(be_value_of(slice_subrange(s, at, at + 16)))
    }
}

/// The bytes of an IPv4 address are its octets in their order, and its number is
/// made of them.
pub proof fn lemma_v4_octets(a: u8, b: u8, c: u8, d: u8, ip: u32)
    requires
        ip == v4_number(a, b, c, d),
    ensures
        ip == a * 0x100_0000 + b * 0x1_0000 + c * 0x100 + d,
        ip_bytes(IpAddr::V4(ip)) == seq![a, b, c, d],
{
    reveal_with_fuel(be_bytes, 5);
    assert(ip_bytes(IpAddr::V4(ip)) =~= seq![a, b, c, d]);
}

/// Four octets are read as the address that they spell in their order.
pub proof fn lemma_v4_reads_octets(s: Seq<u8>, at: int)
    requires
        0 <= at,
        at + 4 <= s.len(),
    ensures
        v4_at(s, at) == IpAddr::V4(
            (s[at] * 0x100_0000 + s[at + 1] * 0x1_0000 + s[at + 2] * 0x100 + s[at + 3]) as u32,
        ),
{
    reveal_with_fuel(be_value, 5);
    let t = s.subrange(at, at + 4);
    assert(t.drop_last().drop_last().drop_last().drop_last().len() == 0);
}

/// Octet `i` of an IPv6 address counts multiples of `256` to the number of
/// octets behind it.
pub proof fn lemma_v6_octets(ip: u128, i: int)
    requires
        0 <= i < 16,
    ensures
        ip_bytes(IpAddr::V6(ip)).len() == 16,
        ip_bytes(IpAddr::V6(ip))[i] == (ip as int / pow256((15 - i) as nat) as int) % 256,
{
    crate::big_endian::lemma_be_digits(ip as nat, 16, i);
}

/// Sixteen bytes are read as the IPv6 address whose octets they are.
pub proof fn lemma_v6_reads_octets(ip: u128, s: Seq<u8>, at: int)
    requires
        0 <= at,
        at + 16 <= s.len(),
        s.subrange(at, at + 16) == ip_bytes(IpAddr::V6(ip)),
    ensures
        v6_at(s, at) == IpAddr::V6(ip),
{
    lemma_ip_bytes(IpAddr::V6(ip));
}

/// The number of an IPv6 address is that of its segments, each worth `0x10000`
/// times the next.
pub proof fn lemma_v6_segments(s: Seq<u16>)
    requires
        s.len() == 8,
    ensures
        v6_number(s) == s[0] * 0x1_0000_0000_0000_0000_0000_0000_0000 + s[1]
            * 0x1_0000_0000_0000_0000_0000_0000 + s[2] * 0x1_0000_0000_0000_0000_0000 + s[3]
            * 0x1_0000_0000_0000_0000 + s[4] * 0x1_0000_0000_0000 + s[5] * 0x1_0000_0000 + s[6]
            * 0x1_0000 + s[7],
{
}

} // verus!
