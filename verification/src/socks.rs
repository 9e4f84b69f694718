//! The SOCKS5 side of the client.

use vstd::prelude::*;
use vstd::slice::{slice_subrange, slice_to_vec};
use vstd::utf8::{decode_utf8, encode_utf8, valid_utf8};
use crate::cipher::{be16, be16_at};
use crate::error::SnellError;
use crate::net::{ip_bytes, ip_len, lemma_ip_bytes, v4_at, v6_at};
use crate::net::{Host, HostView, IpAddr, SocketAddr};
use crate::text::{ascii_text, string_from_ascii, string_from_utf8};
use crate::v6::mode::Mode;

verus! {

pub const SOCKS_VERSION: u8 = 0x05;

pub const SOCKS_CONNECT: u8 = 0x01;

pub const SOCKS_UDP_ASSOCIATE: u8 = 0x03;

pub const ATYP_V4: u8 = 0x01;

pub const ATYP_NAME: u8 = 0x03;

pub const ATYP_V6: u8 = 0x04;

/// Reply to a greeting: no authentication.
pub const METHOD_REPLY: [u8; 2] = [0x05, 0x00];

/// Reply to a connect request: success, bound to 0.0.0.0:0.
pub const CONNECT_REPLY: [u8; 10] = [0x05, 0x00, 0x00, 0x01, 0, 0, 0, 0, 0, 0];

/// Number of method bytes behind a greeting that starts with these two bytes.
pub open spec fn methods_of(version: u8, count: u8) -> Result<usize, SnellError> {
    if version == SOCKS_VERSION {
        Ok(count as usize)
    } else {
        Err(SnellError::SocksVersion { version })
    }
}

/// Number of method bytes that follow the two bytes of a greeting.
pub fn greeting_methods(greeting: &[u8; 2]) -> (out: Result<usize, SnellError>)
    ensures
        out == methods_of(greeting@[0], greeting@[1]),
{
    if greeting[0] != SOCKS_VERSION {
        return Err(SnellError::SocksVersion { version: greeting[0] });
    }
    Ok(greeting[1] as usize)
}

/// Length of the address field that starts with its type byte at `at`, as far
/// as `s` tells: up to and with the port, or up to a length byte not yet there.
pub open spec fn addr_field_len(s: Seq<u8>, at: int) -> Result<int, SnellError> {
    if s[at] == ATYP_V4 {
        Ok(7)
    } else if s[at] == ATYP_V6 {
        Ok(19)
    } else if s[at] == ATYP_NAME {
        if s.len() < at + 2 {
            Ok(2)
        } else {
            Ok(2 + s[at + 1] + 2)
        }
    } else {
        Err(SnellError::AddressType { type_byte: s[at] })
    }
}

/// Host and port of a complete address field at `at`, or why it holds none.
pub open spec fn addr_field(s: Seq<u8>, at: int) -> Result<(HostView, u16), SnellError> {
    if s[at] == ATYP_V4 {
        Ok((HostView::Ip(v4_at(s, at + 1)), be16_at(s, at + 5) as u16))
    } else if s[at] == ATYP_V6 {
        Ok((HostView::Ip(v6_at(s, at + 1)), be16_at(s, at + 17) as u16))
    } else {
        let n = s[at + 1] as int;
        let name = s.subrange(at + 2, at + 2 + n);
        if valid_utf8(name) {
            Ok((HostView::Name(decode_utf8(name)), be16_at(s, at + 2 + n) as u16))
        } else {
            Err(SnellError::HostEncoding)
        }
    }
}

fn addr_len(s: &[u8], at: usize) -> (out: Result<usize, SnellError>)
    requires
        at < s.len(),
    ensures
        match addr_field_len(s@, at as int) {
            Ok(n) => out is Ok && out->Ok_0 == n,
            Err(e) => out is Err && out->Err_0 == e,
        },
        out is Ok ==> out->Ok_0 <= 259,
{
    if s[at] == ATYP_V4 {
        Ok(7)
    } else if s[at] == ATYP_V6 {
        Ok(19)
    } else if s[at] == ATYP_NAME {
        if s.len() - at < 2 {
            Ok(2)
        } else {
            Ok(4 + s[at + 1] as usize)
        }
    } else {
        Err(SnellError::AddressType { type_byte: s[at] })
    }
}

fn parse_addr(s: &[u8], at: usize) -> (out: Result<(Host, u16), SnellError>)
    requires
        at < s.len(),
        addr_field_len(s@, at as int) is Ok,
        at + addr_field_len(s@, at as int)->Ok_0 <= s@.len(),
        s@[at as int] == ATYP_NAME ==> at + 2 <= s@.len(),
    ensures
        match addr_field(s@, at as int) {
            Ok((h, port)) => out is Ok && out->Ok_0.0@ == h && out->Ok_0.1 == port,
            Err(e) => out is Err && out->Err_0 == e,
        },
{
    let total: usize = s.len();
    if s[at] == ATYP_V4 {
        let port: u16 = s[at + 5] as u16 * 256 + s[at + 6] as u16;
        Ok((Host::Ip(IpAddr::v4_from(s, at + 1)), port))
    } else if s[at] == ATYP_V6 {
        let port: u16 = s[at + 17] as u16 * 256 + s[at + 18] as u16;
        Ok((Host::Ip(IpAddr::v6_from(s, at + 1)), port))
    } else {
        let n: usize = s[at + 1] as usize;
        let end: usize = at + 2 + n;
        let port: u16 = s[end] as u16 * 256 + s[end + 1] as u16;
        match string_from_utf8(slice_to_vec(slice_subrange(s, at + 2, end))) {
            Some(name) => Ok((Host::Name(name), port)),
            None => Err(SnellError::HostEncoding),
        }
    }
}

/// A decoded SOCKS request.
pub struct SocksRequest {
    pub command: u8,
    pub host: Host,
    pub port: u16,
}

/// Length of the request of which `buf` is the front, as far as `buf` tells:
/// with that many bytes either the request is complete or more is known.
pub open spec fn request_need(buf: Seq<u8>) -> Result<int, SnellError> {
    if buf.len() < 4 {
        Ok(4)
    } else if buf[0] != SOCKS_VERSION {
        Err(SnellError::SocksVersion { version: buf[0] })
    } else {
        match addr_field_len(buf, 3) {
            Ok(n) => Ok(3 + n),
            Err(e) => Err(e),
        }
    }
}

/// How many bytes of a request to have before looking again.
pub fn socks_request_need(buf: &[u8]) -> (out: Result<usize, SnellError>)
    ensures
        match request_need(buf@) {
            Ok(n) => out is Ok && out->Ok_0 == n,
            Err(e) => out is Err && out->Err_0 == e,
        },
{
    if buf.len() < 4 {
        return Ok(4);
    }
    if buf[0] != SOCKS_VERSION {
        return Err(SnellError::SocksVersion { version: buf[0] });
    }
    match addr_len(buf, 3) {
        Ok(n) => Ok(3 + n),
        Err(e) => Err(e),
    }
}

/// What a complete request says: command, host and port.
pub open spec fn parsed_socks_request(buf: Seq<u8>) -> Result<(u8, HostView, u16), SnellError> {
    match request_need(buf) {
        Err(e) => Err(e),
        Ok(n) => if buf.len() < n {
            Err(SnellError::Truncated)
        } else {
            match addr_field(buf, 3) {
                Ok((h, port)) => Ok((buf[1], h, port)),
                Err(e) => Err(e),
            }
        },
    }
}

/// Decodes a request. It must be complete.
pub fn parse_socks_request(buf: &[u8]) -> (out: Result<SocksRequest, SnellError>)
    ensures
        match request_need(buf@) {
            Err(e) => out is Err && out->Err_0 == e,
            Ok(n) => if buf@.len() < n {
                out is Err && out->Err_0 == SnellError::Truncated
            } else {
                match addr_field(buf@, 3) {
                    Ok((h, port)) => out is Ok && out->Ok_0.command == buf@[1]
                        && out->Ok_0.host@ == h && out->Ok_0.port == port,
                    Err(e) => out is Err && out->Err_0 == e,
                }
            },
        },
        match parsed_socks_request(buf@) {
            Ok((command, h, port)) => out is Ok && out->Ok_0.command == command
                && out->Ok_0.host@ == h && out->Ok_0.port == port,
            Err(e) => out is Err && out->Err_0 == e,
        },
{
    let need: usize = match socks_request_need(buf) {
        Ok(n) => n,
        Err(e) => return Err(e),
    };
    if buf.len() < need {
        return Err(SnellError::Truncated);
    }
    match parse_addr(buf, 3) {
        Ok((host, port)) => Ok(SocksRequest { command: buf[1], host, port }),
        Err(e) => Err(e),
    }
}

/// What a SOCKS client asks for.
#[derive(Clone, Copy, PartialEq, Eq, Structural, Debug)]
pub enum SocksAction {
    /// A connection to the target.
    Connect,
    /// A relay for datagrams; the target in the request does not matter.
    UdpAssociate,
}

/// What a SOCKS command asks for in `mode`.
pub open spec fn socks_action_of(mode: Mode, command: u8) -> Result<SocksAction, SnellError> {
    if command == SOCKS_CONNECT {
        Ok(SocksAction::Connect)
    } else if command == SOCKS_UDP_ASSOCIATE && mode is Unshaped {
        Ok(SocksAction::UdpAssociate)
    } else {
        Err(SnellError::UnknownCommand { command })
    }
}

/// What a SOCKS command asks for. Datagrams are relayed in the unshaped mode
/// alone.
pub fn socks_action(mode: Mode, command: u8) -> (out: Result<SocksAction, SnellError>)
    ensures
        out == socks_action_of(mode, command),
{
    if command == SOCKS_CONNECT {
        Ok(SocksAction::Connect)
    } else if command == SOCKS_UDP_ASSOCIATE && mode == Mode::Unshaped {
        Ok(SocksAction::UdpAssociate)
    } else {
        Err(SnellError::UnknownCommand { command })
    }
}

/// Bytes of an address and a port.
pub open spec fn addr_bytes(a: SocketAddr) -> Seq<u8> {
    seq![
        if a.ip is V4 {
            ATYP_V4
        } else {
            ATYP_V6
        },
    ] + ip_bytes(a.ip) + be16(a.port as nat)
}

fn push_addr(out: &mut Vec<u8>, a: SocketAddr)
    ensures
        final(out)@ == old(out)@ + addr_bytes(a),
{
    let ghost before = out@;
    out.push(
        if a.is_ipv4() {
            ATYP_V4
        } else {
            ATYP_V6
        },
    );
    let ip: Vec<u8> = a.ip.octets();
    out.extend_from_slice(ip.as_slice());
    out.push((a.port / 256) as u8);
    out.push((a.port % 256) as u8);
    assert(out@ =~= before + addr_bytes(a));
}

/// Bytes of the reply to an associate request.
pub open spec fn associate_bytes(bound: SocketAddr) -> Seq<u8> {
    seq![0x05u8, 0x00, 0x00] + addr_bytes(bound)
}

/// Reply to an associate request: success, with the address of the relay
/// socket, which is an IPv4 address.
pub fn associate_reply(bound: SocketAddr) -> (out: Result<Vec<u8>, SnellError>)
    ensures
        if bound.ip is V4 {
            out is Ok && out->Ok_0@ == associate_bytes(bound)
        } else {
            out is Err && out->Err_0 == SnellError::UnexpectedIpv6
        },
{
    if !bound.is_ipv4() {
        return Err(SnellError::UnexpectedIpv6);
    }
    let mut out: Vec<u8> = Vec::new();
    out.push(0x05);
    out.push(0x00);
    out.push(0x00);
    assert(out@ =~= seq![0x05u8, 0x00, 0x00]);
    push_addr(&mut out, bound);
    Ok(out)
}

/// A datagram from a SOCKS client.
pub struct SocksDatagram {
    pub host: Host,
    pub port: u16,
    pub payload: Vec<u8>,
}

/// What a datagram from a SOCKS client says; `None` for a fragment or a
/// malformed one.
pub open spec fn parsed_datagram(buf: Seq<u8>) -> Option<(HostView, u16, Seq<u8>)> {
    if buf.len() < 4 || buf[2] != 0 {
        None
    } else {
        match addr_field_len(buf, 3) {
            Err(_) => None,
            Ok(n) => if buf.len() < 3 + n || (buf[3] == ATYP_NAME && buf.len() < 5) {
                None
            } else {
                match addr_field(buf, 3) {
                    Ok((h, port)) => Some((h, port, buf.skip(3 + n))),
                    Err(_) => None,
                }
            },
        }
    }
}

/// Decodes a datagram from a SOCKS client.
pub fn parse_socks5_udp(buf: &[u8]) -> (out: Option<SocksDatagram>)
    ensures
        match parsed_datagram(buf@) {
            Some((h, port, payload)) => out is Some && out->Some_0.host@ == h && out->Some_0.port
                == port && out->Some_0.payload@ == payload,
            None => out is None,
        },
{
    if buf.len() < 4 || buf[2] != 0 {
        return None;
    }
    let n: usize = match addr_len(buf, 3) {
        Ok(n) => n,
        Err(_) => return None,
    };
    if buf.len() < 3 + n || (buf[3] == ATYP_NAME && buf.len() < 5) {
        return None;
    }
    match parse_addr(buf, 3) {
        Ok((host, port)) => {
            let payload: &[u8] = slice_subrange(buf, 3 + n, buf.len());
            assert(payload@ =~= buf@.skip(3 + n));
            Some(SocksDatagram { host, port, payload: slice_to_vec(payload) })
        },
        Err(_) => None,
    }
}

/// Bytes of a datagram from `src` for a SOCKS client.
pub open spec fn datagram_bytes(src: SocketAddr, payload: Seq<u8>) -> Seq<u8> {
    seq![0u8, 0, 0] + addr_bytes(src) + payload
}

/// Wraps a datagram from `src` for a SOCKS client.
pub fn socks_datagram(src: SocketAddr, payload: &[u8]) -> (out: Vec<u8>)
    ensures
        out@ == datagram_bytes(src, payload@),
{
    let mut out: Vec<u8> = Vec::new();
    out.push(0);
    out.push(0);
    out.push(0);
    assert(out@ =~= seq![0u8, 0, 0]);
    push_addr(&mut out, src);
    out.extend_from_slice(payload);
    assert(out@ =~= datagram_bytes(src, payload@));
    out
}

/// A wrapped datagram reads back as it was wrapped.
pub proof fn lemma_datagram_round_trip(src: SocketAddr, payload: Seq<u8>)
    ensures
        parsed_datagram(datagram_bytes(src, payload)) == Some(
            (HostView::Ip(src.ip), src.port, payload),
        ),
{
    let f = datagram_bytes(src, payload);
    let n = ip_len(src.ip) as int;
    lemma_ip_bytes(src.ip);
    assert(f.subrange(4, 4 + n) =~= ip_bytes(src.ip));
    assert(f.skip(6 + n) =~= payload);
    assert(be16_at(f, 4 + n) == src.port);
}

/// The decimal digits of a byte.
pub open spec fn decimal(n: int) -> Seq<u8> {
    if n < 10 {
        seq![(0x30 + n) as u8]
    } else if n < 100 {
        seq![(0x30 + n / 10) as u8, (0x30 + n % 10) as u8]
    } else {
        seq![(0x30 + n / 100) as u8, (0x30 + n / 10 % 10) as u8, (0x30 + n % 10) as u8]
    }
}

/// The dotted form of an IPv4 address.
pub open spec fn dotted(ip: u32) -> Seq<u8> {
    decimal(ip as int / 0x100_0000) + seq![0x2eu8] + decimal(ip as int / 0x1_0000 % 256)
        + seq![0x2eu8] + decimal(ip as int / 0x100 % 256) + seq![0x2eu8] + decimal(
        ip as int % 256,
    )
}

fn push_decimal(out: &mut Vec<u8>, n: u8)
    requires
        forall|i: int| 0 <= i < old(out)@.len() ==> old(out)@[i] < 128,
    ensures
        final(out)@ == old(out)@ + decimal(n as int),
        forall|i: int| 0 <= i < final(out)@.len() ==> final(out)@[i] < 128,
{
    let ghost before = out@;
    if n >= 100 {
        out.push(0x30 + n / 100);
    }
    if n >= 10 {
        out.push(0x30 + n / 10 % 10);
    }
    out.push(0x30 + n % 10);
    assert(out@ =~= before + decimal(n as int));
}

/// The dotted form of an IPv4 address.
pub fn ipv4_text(ip: u32) -> (s: String)
    ensures
        s@ == ascii_text(dotted(ip)),
{
    let mut out: Vec<u8> = Vec::new();
    push_decimal(&mut out, (ip / 0x100_0000) as u8);
    out.push(0x2e);
    push_decimal(&mut out, (ip / 0x1_0000 % 256) as u8);
    out.push(0x2e);
    push_decimal(&mut out, (ip / 0x100 % 256) as u8);
    out.push(0x2e);
    push_decimal(&mut out, (ip % 256) as u8);
    assert(out@ =~= dotted(ip));
    string_from_ascii(out)
}

/// A greeting of version 5 announces as many methods as its second byte says;
/// any other version is refused by name.
pub proof fn lemma_greetings(version: u8, count: u8)
    ensures
        version == 5 ==> methods_of(version, count) == Ok::<usize, SnellError>(count as usize),
        version != 5 ==> methods_of(version, count) == Err::<usize, SnellError>(
            (SnellError::SocksVersion { version }),
        ),
{
}

/// What every command byte means in every mode.
pub proof fn lemma_socks_commands(mode: Mode, command: u8)
    ensures
        socks_action_of(mode, command) == Ok::<SocksAction, SnellError>(SocksAction::Connect)
            <==> command == 1,
        socks_action_of(mode, command) == Ok::<SocksAction, SnellError>(SocksAction::UdpAssociate)
            <==> (command == 3 && mode == Mode::Unshaped),
        socks_action_of(mode, command) is Err ==> socks_action_of(mode, command)->Err_0 == (
        SnellError::UnknownCommand { command }),
{
}

/// Bytes of a request or a datagram header for a named target.
pub open spec fn named_target(front: Seq<u8>, name: Seq<u8>, port: u16) -> Seq<u8> {
    front + seq![0x03u8, name.len() as u8] + name + seq![(port / 256) as u8, (port % 256) as u8]
}

/// Bytes of a request or a datagram header for an address.
pub open spec fn address_target(front: Seq<u8>, ip: IpAddr, port: u16) -> Seq<u8> {
    front + seq![
        if ip is V4 {
            0x01u8
        } else {
            0x04u8
        },
    ] + ip_bytes(ip) + seq![(port / 256) as u8, (port % 256) as u8]
}

proof fn lemma_named_target(front: Seq<u8>, name: Seq<char>, port: u16, more: Seq<u8>)
    requires
        front.len() == 3,
        encode_utf8(name).len() <= 255,
    ensures
        ({
            let nb = encode_utf8(name);
            let w = named_target(front, nb, port) + more;
            &&& w.len() >= 7 + nb.len()
            &&& w[0] == front[0] && w[1] == front[1] && w[2] == front[2] && w[3] == 3
            &&& addr_field_len(w, 3) == Ok::<int, SnellError>(4 + nb.len() as int)
            &&& addr_field(w, 3) == Ok::<(HostView, u16), SnellError>((HostView::Name(name), port))
            &&& w.skip(7 + nb.len() as int) == more
        }),
{
    let nb = encode_utf8(name);
    let n = nb.len() as int;
    let w = named_target(front, nb, port) + more;
    assert(w.subrange(5, 5 + n) =~= nb);
    assert(w[5 + n] == (port / 256) as u8);
    assert(w[6 + n] == (port % 256) as u8);
    assert(w.skip(7 + n) =~= more);
    vstd::utf8::encode_utf8_valid_utf8(name);
    vstd::utf8::encode_utf8_decode_utf8(name);
}

proof fn lemma_address_target(front: Seq<u8>, ip: IpAddr, port: u16, more: Seq<u8>)
    requires
        front.len() == 3,
    ensures
        ({
            let n = ip_len(ip) as int;
            let w = address_target(front, ip, port) + more;
            &&& w.len() >= 6 + n
            &&& w[0] == front[0] && w[1] == front[1] && w[2] == front[2]
            &&& w[3] == if ip is V4 { 1u8 } else { 4u8 }
            &&& addr_field_len(w, 3) == Ok::<int, SnellError>(3 + n)
            &&& addr_field(w, 3) == Ok::<(HostView, u16), SnellError>((HostView::Ip(ip), port))
            &&& w.skip(6 + n) == more
        }),
{
    let n = ip_len(ip) as int;
    lemma_ip_bytes(ip);
    let w = address_target(front, ip, port) + more;
    assert(w.subrange(4, 4 + n) =~= ip_bytes(ip));
    assert(w[4 + n] == (port / 256) as u8);
    assert(w[5 + n] == (port % 256) as u8);
    assert(w.skip(6 + n) =~= more);
}

/// The request for a named target says just that: version 5, the command, a zero,
/// the type 3, the length of the name, the name, the port in network order. What
/// follows it does not matter.
pub proof fn lemma_named_request_reads_back(
    command: u8,
    name: Seq<char>,
    port: u16,
    more: Seq<u8>,
)
    requires
        encode_utf8(name).len() <= 255,
    ensures
        parsed_socks_request(
            named_target(seq![0x05u8, command, 0x00], encode_utf8(name), port) + more,
        ) == Ok::<(u8, HostView, u16), SnellError>((command, HostView::Name(name), port)),
{
    lemma_named_target(seq![0x05u8, command, 0x00], name, port, more);
}

/// The request for an address of either family says just that.
pub proof fn lemma_address_request_reads_back(
    command: u8,
    ip: IpAddr,
    port: u16,
    more: Seq<u8>,
)
    ensures
        parsed_socks_request(address_target(seq![0x05u8, command, 0x00], ip, port) + more) == Ok::<
            (u8, HostView, u16),
            SnellError,
        >((command, HostView::Ip(ip), port)),
{
    lemma_address_target(seq![0x05u8, command, 0x00], ip, port, more);
}

/// A datagram to a named target says just that: three zeros, the type 3, the
/// length of the name, the name, the port in network order, the payload.
pub proof fn lemma_named_datagram_reads_back(name: Seq<char>, port: u16, payload: Seq<u8>)
    requires
        encode_utf8(name).len() <= 255,
    ensures
        parsed_datagram(named_target(seq![0u8, 0, 0], encode_utf8(name), port) + payload) == Some(
            (HostView::Name(name), port, payload),
        ),
{
    lemma_named_target(seq![0u8, 0, 0], name, port, payload);
}

/// A datagram to an address of either family says just that.
pub proof fn lemma_address_datagram_reads_back(ip: IpAddr, port: u16, payload: Seq<u8>)
    ensures
        parsed_datagram(address_target(seq![0u8, 0, 0], ip, port) + payload) == Some(
            (HostView::Ip(ip), port, payload),
        ),
{
    lemma_address_target(seq![0u8, 0, 0], ip, port, payload);
}

/// A fragment of a datagram is dropped, whatever else it holds.
pub proof fn lemma_fragments_are_dropped(buf: Seq<u8>)
    requires
        buf.len() >= 3,
        buf[2] != 0,
    ensures
        parsed_datagram(buf) is None,
{
}

/// A reader that asks how much it needs gets to the end of a request and not
/// past it: with a part of the request it is asked for more, up to the whole.
pub proof fn lemma_request_need_leads_to_the_end(whole: Seq<u8>, have: int)
    requires
        parsed_socks_request(whole) is Ok,
        request_need(whole) == Ok::<int, SnellError>(whole.len() as int),
        0 <= have < whole.len(),
    ensures
        request_need(whole.take(have)) is Ok,
        have < request_need(whole.take(have))->Ok_0 <= whole.len(),
        parsed_socks_request(whole.take(have)) == Err::<(u8, HostView, u16), SnellError>(
            SnellError::Truncated,
        ),
{
}

/// What a client gets: zeros, the family byte of the source, its address and port
/// in network order, the payload.
pub proof fn lemma_datagram_layout(src: SocketAddr, payload: Seq<u8>)
    ensures
        datagram_bytes(src, payload) == address_target(seq![0u8, 0, 0], src.ip, src.port) + payload,
        addr_bytes(src) == address_target(Seq::empty(), src.ip, src.port),
{
    assert(addr_bytes(src) =~= address_target(Seq::empty(), src.ip, src.port));
    assert(datagram_bytes(src, payload) =~= address_target(seq![0u8, 0, 0], src.ip, src.port)
        + payload);
}

/// The decimal text of a byte spells the byte, in digits of which the first is
/// no zero but for the byte zero.
pub proof fn lemma_decimal(n: int)
    requires
        0 <= n < 256,
    ensures
        ({
            let d = decimal(n);
            &&& 1 <= d.len() <= 3
            &&& forall|i: int| 0 <= i < d.len() ==> 0x30 <= #[trigger] d[i] <= 0x39
            &&& d.len() > 1 ==> d[0] != 0x30
            &&& d.len() == 1 ==> n == d[0] - 0x30
            &&& d.len() == 2 ==> n == 10 * (d[0] - 0x30) + (d[1] - 0x30)
            &&& d.len() == 3 ==> n == 100 * (d[0] - 0x30) + 10 * (d[1] - 0x30) + (d[2] - 0x30)
        }),
{
}

/// The text of an IPv4 address is the decimal text of its octets, each without a
/// leading zero, with dots between them.
pub proof fn lemma_dotted(a: u8, b: u8, c: u8, d: u8, ip: u32)
    requires
        ip == ((a * 256 + b) * 256 + c) * 256 + d,
    ensures
        dotted(ip) == decimal(a as int) + seq!['.' as u8] + decimal(b as int) + seq!['.' as u8]
            + decimal(c as int) + seq!['.' as u8] + decimal(d as int),
{
    let n = ip as int;
    assert(n / 0x100_0000 == a);
    assert(n / 0x1_0000 == a * 256 + b);
    assert(n / 0x100 == (a * 256 + b) * 256 + c);
    assert(n / 0x1_0000 % 256 == b);
    assert(n / 0x100 % 256 == c);
    assert(n % 256 == d);
    assert('.' as u8 == 0x2e);
    let by_number = dotted(ip);
    assert(by_number == decimal(a as int) + seq![0x2eu8] + decimal(b as int) + seq![0x2eu8]
        + decimal(c as int) + seq![0x2eu8] + decimal(d as int));
}

/// Two bytes with the same decimal text are the same byte, and no text has a
/// leading zero.
pub proof fn lemma_decimal_texts(m: u8, n: u8)
    ensures
        decimal(m as int) == decimal(n as int) ==> m == n,
        decimal(n as int).len() > 1 ==> decimal(n as int)[0] != '0' as u8,
        n < 10 ==> decimal(n as int) == seq![('0' as u8 + n) as u8],
{
    lemma_decimal(m as int);
    lemma_decimal(n as int);
}

/// What is no request, and why: another version, an unknown address type, or a
/// name that is not UTF-8.
pub proof fn lemma_broken_socks_requests(buf: Seq<u8>)
    requires
        buf.len() >= 4,
    ensures
        buf[0] != 5 ==> parsed_socks_request(buf) == Err::<(u8, HostView, u16), SnellError>(
            (SnellError::SocksVersion { version: buf[0] }),
        ),
        buf[0] == 5 && buf[3] != 1 && buf[3] != 3 && buf[3] != 4 ==> parsed_socks_request(buf)
            == Err::<(u8, HostView, u16), SnellError>(
            (SnellError::AddressType { type_byte: buf[3] }),
        ),
        buf[0] == 5 && buf[3] == 3 && buf.len() >= 7 + buf[4] && !valid_utf8(
            buf.subrange(5, 5 + buf[4] as int),
        ) ==> parsed_socks_request(buf) == Err::<(u8, HostView, u16), SnellError>(
            SnellError::HostEncoding,
        ),
{
}

/// A datagram that is too short for its address, has an unknown address type or a
/// name that is not UTF-8 is dropped.
pub proof fn lemma_broken_datagrams(buf: Seq<u8>)
    ensures
        buf.len() < 4 ==> parsed_datagram(buf) is None,
        buf.len() >= 4 && buf[3] != 1 && buf[3] != 3 && buf[3] != 4 ==> parsed_datagram(
            buf,
        ) is None,
        buf.len() >= 4 && buf[3] == 1 && buf.len() < 10 ==> parsed_datagram(buf) is None,
        buf.len() >= 4 && buf[3] == 4 && buf.len() < 22 ==> parsed_datagram(buf) is None,
        buf.len() >= 5 && buf[3] == 3 && buf.len() < 7 + buf[4] ==> parsed_datagram(buf) is None,
        buf.len() >= 5 && buf[3] == 3 && buf.len() >= 7 + buf[4] && !valid_utf8(
            buf.subrange(5, 5 + buf[4] as int),
        ) ==> parsed_datagram(buf) is None,
{
}

/// The reply to an associate request: version 5, success, a zero, and the relay's
/// address with its type and its port in network order.
pub proof fn lemma_associate_reply(ip: u32, port: u16)
    ensures
        associate_bytes((SocketAddr { ip: IpAddr::V4(ip), port })) == seq![0x05u8, 0x00, 0x00, 0x01]
            + ip_bytes(IpAddr::V4(ip)) + seq![(port / 256) as u8, (port % 256) as u8],
{
    assert(associate_bytes((SocketAddr { ip: IpAddr::V4(ip), port })) =~= seq![
        0x05u8,
        0x00,
        0x00,
        0x01,
    ] + ip_bytes(IpAddr::V4(ip)) + seq![(port / 256) as u8, (port % 256) as u8]);
}

/// The two fixed replies: the first chooses method 0, no authentication; the second
/// reads, in the form of a datagram header behind its first bytes, as the address
/// 0.0.0.0 with port 0.
pub proof fn lemma_fixed_replies()
    ensures
        METHOD_REPLY@ == seq![0x05u8, 0x00],
        CONNECT_REPLY@ == associate_bytes((SocketAddr { ip: IpAddr::V4(0), port: 0 })),
{
    lemma_associate_reply(0, 0);
    crate::net::lemma_v4_octets(0, 0, 0, 0, 0);
    assert(METHOD_REPLY@ =~= seq![0x05u8, 0x00]);
    assert(CONNECT_REPLY@ =~= associate_bytes((SocketAddr { ip: IpAddr::V4(0), port: 0 })));
}

} // verus!
