//! Datagrams inside a session: one datagram is one chunk.
//!
//! ```text
//! request   01  host length  host  port  payload
//!           01  00  04|06  address  port  payload
//! response  04|06  address  port  payload
//! ```

use vstd::prelude::*;
use vstd::slice::{slice_subrange, slice_to_vec};
use vstd::utf8::{decode_utf8, encode_utf8, valid_utf8};
use crate::cipher::{be16, be16_at};
use crate::error::SnellError;
use crate::net::{ip_bytes, ip_len, lemma_ip_bytes, v4_at, v6_at};
use crate::net::{Host, HostView, IpAddr, SocketAddr};
use crate::text::string_from_utf8;

verus! {

/// Command byte of a datagram request.
pub const UDP_CMD_FORWARD: u8 = 0x01;

/// Type byte of an IPv4 address.
pub const UDP_ADDR_V4: u8 = 0x04;

/// Type byte of an IPv6 address.
pub const UDP_ADDR_V6: u8 = 0x06;

/// A decoded datagram request.
pub struct UdpRequest {
    pub host: Host,
    pub port: u16,
    pub payload: Vec<u8>,
}

/// What a datagram request says.
#[verifier::ext_equal]
pub struct UdpRequestView {
    pub host: HostView,
    pub port: u16,
    pub payload: Seq<u8>,
}

impl View for UdpRequest {
    type V = UdpRequestView;

    open spec fn view(&self) -> UdpRequestView {
        UdpRequestView { host: self.host@, port: self.port, payload: self.payload@ }
    }
}

/// The address, port and rest behind a type byte at the front of `s`.
pub open spec fn typed_addr(s: Seq<u8>) -> Result<(SocketAddr, Seq<u8>), SnellError> {
    if s.len() < 1 {
        Err(SnellError::RequestTooShort)
    } else if s[0] == UDP_ADDR_V4 {
        if s.len() < 7 {
            Err(SnellError::TruncatedHost)
        } else {
            Ok((SocketAddr { ip: v4_at(s, 1), port: be16_at(s, 5) as u16 }, s.skip(7)))
        }
    } else if s[0] == UDP_ADDR_V6 {
        if s.len() < 19 {
            Err(SnellError::TruncatedHost)
        } else {
            Ok((SocketAddr { ip: v6_at(s, 1), port: be16_at(s, 17) as u16 }, s.skip(19)))
        }
    } else {
        Err(SnellError::AddressType { type_byte: s[0] })
    }
}

fn parse_typed_addr(s: &[u8]) -> (out: Result<(SocketAddr, Vec<u8>), SnellError>)
    ensures
        match typed_addr(s@) {
            Ok((a, rest)) => out is Ok && out->Ok_0.0 == a && out->Ok_0.1@ == rest,
            Err(e) => out is Err && out->Err_0 == e,
        },
{
    if s.len() < 1 {
        return Err(SnellError::RequestTooShort);
    }
    if s[0] == UDP_ADDR_V4 {
        if s.len() < 7 {
            return Err(SnellError::TruncatedHost);
        }
        let port: u16 = s[5] as u16 * 256 + s[6] as u16;
        let rest: &[u8] = slice_subrange(s, 7, s.len());
        assert(rest@ =~= s@.skip(7));
        Ok((SocketAddr::new(IpAddr::v4_from(s, 1), port), slice_to_vec(rest)))
    } else if s[0] == UDP_ADDR_V6 {
        if s.len() < 19 {
            return Err(SnellError::TruncatedHost);
        }
        let port: u16 = s[17] as u16 * 256 + s[18] as u16;
        let rest: &[u8] = slice_subrange(s, 19, s.len());
        assert(rest@ =~= s@.skip(19));
        Ok((SocketAddr::new(IpAddr::v6_from(s, 1), port), slice_to_vec(rest)))
    } else {
        Err(SnellError::AddressType { type_byte: s[0] })
    }
}

/// What the bytes of a datagram request say, or why they are none.
pub open spec fn parsed_udp_request(f: Seq<u8>) -> Result<UdpRequestView, SnellError> {
    if f.len() < 2 {
        Err(SnellError::RequestTooShort)
    } else if f[0] != UDP_CMD_FORWARD {
        Err(SnellError::UnknownCommand { command: f[0] })
    } else if f[1] == 0 {
        match typed_addr(f.skip(2)) {
            Ok((a, payload)) => Ok(
                UdpRequestView { host: HostView::Ip(a.ip), port: a.port, payload },
            ),
            Err(e) => Err(e),
        }
    } else {
        let n = f[1] as int;
        if f.len() < 2 + n + 2 {
            Err(SnellError::TruncatedHost)
        } else if !valid_utf8(f.subrange(2, 2 + n)) {
            Err(SnellError::HostEncoding)
        } else {
            Ok(
                UdpRequestView {
                    host: HostView::Name(decode_utf8(f.subrange(2, 2 + n))),
                    port: be16_at(f, 2 + n) as u16,
                    payload: f.skip(2 + n + 2),
                },
            )
        }
    }
}

/// Decodes a datagram request.
pub fn parse_udp_request(frame: &[u8]) -> (out: Result<UdpRequest, SnellError>)
    ensures
        match parsed_udp_request(frame@) {
            Ok(v) => out is Ok && out->Ok_0@ == v,
            Err(e) => out is Err && out->Err_0 == e,
        },
{
    if frame.len() < 2 {
        return Err(SnellError::RequestTooShort);
    }
    if frame[0] != UDP_CMD_FORWARD {
        return Err(SnellError::UnknownCommand { command: frame[0] });
    }
    let n: usize = frame[1] as usize;
    if n == 0 {
        let rest: &[u8] = slice_subrange(frame, 2, frame.len());
        assert(rest@ =~= frame@.skip(2));
        return match parse_typed_addr(rest) {
            Ok((a, payload)) => Ok(
                UdpRequest { host: Host::Ip(a.ip), port: a.port, payload },
            ),
            Err(e) => Err(e),
        };
    }
    if frame.len() < 2 + n + 2 {
        return Err(SnellError::TruncatedHost);
    }
    let host: String = match string_from_utf8(slice_to_vec(slice_subrange(frame, 2, 2 + n))) {
        Some(h) => h,
        None => return Err(SnellError::HostEncoding),
    };
    let port: u16 = frame[2 + n] as u16 * 256 + frame[3 + n] as u16;
    let payload: Vec<u8> = slice_to_vec(slice_subrange(frame, 4 + n, frame.len()));
    let out = UdpRequest { host: Host::Name(host), port, payload };
    proof {
        assert(payload@ =~= frame@.skip(4 + n));
        assert(out@ =~= parsed_udp_request(frame@)->Ok_0);
    }
    Ok(out)
}

/// Bytes of a datagram request to a named target.
pub open spec fn udp_request_bytes(host: Seq<u8>, port: u16, payload: Seq<u8>) -> Seq<u8> {
    seq![UDP_CMD_FORWARD, host.len() as u8] + host + be16(port as nat) + payload
}

/// Encodes a datagram request to a named target. The name is not empty and fits
/// its length byte.
pub fn encode_udp_request(host: &str, port: u16, payload: &[u8]) -> (out: Vec<u8>)
    requires
        1 <= encode_utf8(host@).len() <= 255,
    ensures
        out@ == udp_request_bytes(encode_utf8(host@), port, payload@),
{
    let hb: &[u8] = host.as_bytes();
    let mut out: Vec<u8> = Vec::new();
    out.push(UDP_CMD_FORWARD);
    out.push(hb.len() as u8);
    out.extend_from_slice(hb);
    out.push((port / 256) as u8);
    out.push((port % 256) as u8);
    out.extend_from_slice(payload);
    assert(out@ =~= udp_request_bytes(encode_utf8(host@), port, payload@));
    out
}

/// A datagram request reads back as it was encoded.
pub proof fn lemma_udp_request_round_trip(host: Seq<char>, port: u16, payload: Seq<u8>)
    requires
        1 <= encode_utf8(host).len() <= 255,
    ensures
        parsed_udp_request(udp_request_bytes(encode_utf8(host), port, payload)) == Ok::<
            UdpRequestView,
            SnellError,
        >((UdpRequestView { host: HostView::Name(host), port, payload })),
{
    let hb = encode_utf8(host);
    let n = hb.len() as int;
    let f = udp_request_bytes(hb, port, payload);
    assert(f.subrange(2, 2 + n) =~= hb);
    assert(f.skip(4 + n) =~= payload);
    assert(be16_at(f, 2 + n) == port);
    vstd::utf8::encode_utf8_valid_utf8(host);
    vstd::utf8::encode_utf8_decode_utf8(host);
}

/// Bytes of a datagram response from `src`.
pub open spec fn udp_response_bytes(src: SocketAddr, payload: Seq<u8>) -> Seq<u8> {
    seq![
        if src.ip is V4 {
            UDP_ADDR_V4
        } else {
            UDP_ADDR_V6
        },
    ] + ip_bytes(src.ip) + be16(src.port as nat) + payload
}

/// Encodes a datagram response: the source address goes in front.
pub fn encode_udp_response(src: SocketAddr, payload: &[u8]) -> (out: Vec<u8>)
    ensures
        out@ == udp_response_bytes(src, payload@),
{
    let mut out: Vec<u8> = Vec::new();
    out.push(
        if src.is_ipv4() {
            UDP_ADDR_V4
        } else {
            UDP_ADDR_V6
        },
    );
    let ip: Vec<u8> = src.ip.octets();
    out.extend_from_slice(ip.as_slice());
    out.push((src.port / 256) as u8);
    out.push((src.port % 256) as u8);
    out.extend_from_slice(payload);
    assert(out@ =~= udp_response_bytes(src, payload@));
    out
}

/// Decodes a datagram response: source address and payload.
pub fn parse_udp_response(frame: &[u8]) -> (out: Result<(SocketAddr, Vec<u8>), SnellError>)
    ensures
        match typed_addr(frame@) {
            Ok((a, rest)) => out is Ok && out->Ok_0.0 == a && out->Ok_0.1@ == rest,
            Err(e) => out is Err && out->Err_0 == e,
        },
{
    parse_typed_addr(frame)
}

/// A datagram response reads back as it was encoded.
pub proof fn lemma_udp_response_round_trip(src: SocketAddr, payload: Seq<u8>)
    ensures
        typed_addr(udp_response_bytes(src, payload)) == Ok::<(SocketAddr, Seq<u8>), SnellError>(
            (src, payload),
        ),
{
    let f = udp_response_bytes(src, payload);
    let n = ip_len(src.ip) as int;
    lemma_ip_bytes(src.ip);
    assert(f.subrange(1, 1 + n) =~= ip_bytes(src.ip));
    assert(f.skip(3 + n) =~= payload);
    assert(be16_at(f, 1 + n) == src.port);
}

/// A datagram request to a named target says what stands in it: a one, the length
/// of the name, the name, the port in network order, the payload.
pub proof fn lemma_named_udp_request_fields(host: Seq<char>, port: u16, payload: Seq<u8>)
    requires
        1 <= encode_utf8(host).len() <= 255,
    ensures
        ({
            let hb = encode_utf8(host);
            let wire = seq![0x01u8, hb.len() as u8] + hb + seq![
                (port / 256) as u8,
                (port % 256) as u8,
            ] + payload;
            &&& parsed_udp_request(wire) == Ok::<UdpRequestView, SnellError>(
                (UdpRequestView { host: HostView::Name(host), port, payload }),
            )
            &&& udp_request_bytes(hb, port, payload) == wire
        }),
{
    let hb = encode_utf8(host);
    let n = hb.len() as int;
    let wire = seq![0x01u8, hb.len() as u8] + hb + seq![(port / 256) as u8, (port % 256) as u8]
        + payload;
    assert(wire.subrange(2, 2 + n) =~= hb);
    assert(wire[2 + n] == (port / 256) as u8);
    assert(wire[3 + n] == (port % 256) as u8);
    assert(wire.skip(4 + n) =~= payload);
    vstd::utf8::encode_utf8_valid_utf8(host);
    vstd::utf8::encode_utf8_decode_utf8(host);
    assert(udp_request_bytes(hb, port, payload) =~= wire);
}

/// A datagram request to an address has an empty name in front of the family
/// byte, the address and the port in network order; a response has the same
/// fields without the first two.
pub proof fn lemma_addressed_udp_fields(a: SocketAddr, payload: Seq<u8>)
    ensures
        ({
            let fields = seq![
                if a.ip is V4 {
                    0x04u8
                } else {
                    0x06u8
                },
            ] + ip_bytes(a.ip) + seq![(a.port / 256) as u8, (a.port % 256) as u8] + payload;
            &&& parsed_udp_request(seq![0x01u8, 0x00] + fields) == Ok::<
                UdpRequestView,
                SnellError,
            >((UdpRequestView { host: HostView::Ip(a.ip), port: a.port, payload }))
            &&& typed_addr(fields) == Ok::<(SocketAddr, Seq<u8>), SnellError>((a, payload))
            &&& udp_response_bytes(a, payload) == fields
        }),
{
    let fields = seq![
        if a.ip is V4 {
            0x04u8
        } else {
            0x06u8
        },
    ] + ip_bytes(a.ip) + seq![(a.port / 256) as u8, (a.port % 256) as u8] + payload;
    lemma_ip_bytes(a.ip);
    let n = ip_len(a.ip) as int;
    assert(fields.subrange(1, 1 + n) =~= ip_bytes(a.ip));
    assert(fields[1 + n] == (a.port / 256) as u8);
    assert(fields[2 + n] == (a.port % 256) as u8);
    assert(fields.skip(3 + n) =~= payload);
    assert((seq![0x01u8, 0x00] + fields).skip(2) =~= fields);
    assert(udp_response_bytes(a, payload) =~= fields);
}

/// What is no datagram request, and why.
pub proof fn lemma_broken_udp_requests(f: Seq<u8>)
    ensures
        f.len() < 2 ==> parsed_udp_request(f) == Err::<UdpRequestView, SnellError>(
            SnellError::RequestTooShort,
        ),
        f.len() >= 2 && f[0] != 1 ==> parsed_udp_request(f) == Err::<UdpRequestView, SnellError>(
            (SnellError::UnknownCommand { command: f[0] }),
        ),
        f.len() >= 2 && f[0] == 1 && f[1] > 0 && f.len() < 4 + f[1] ==> parsed_udp_request(f)
            == Err::<UdpRequestView, SnellError>(SnellError::TruncatedHost),
        f.len() >= 3 && f[0] == 1 && f[1] == 0 && f[2] != 4 && f[2] != 6 ==> parsed_udp_request(f)
            == Err::<UdpRequestView, SnellError>((SnellError::AddressType { type_byte: f[2] })),
        f.len() >= 3 && f[0] == 1 && f[1] == 0 && f[2] == 4 && f.len() < 9 ==> parsed_udp_request(f)
            == Err::<UdpRequestView, SnellError>(SnellError::TruncatedHost),
        f.len() >= 3 && f[0] == 1 && f[1] == 0 && f[2] == 6 && f.len() < 21 ==> parsed_udp_request(
            f,
        ) == Err::<UdpRequestView, SnellError>(SnellError::TruncatedHost),
{
}

/// A datagram request whose name is not UTF-8 is refused as such.
pub proof fn lemma_badly_encoded_udp_requests(host: Seq<u8>, more: Seq<u8>)
    requires
        0 < host.len() <= 255,
        more.len() >= 2,
        !valid_utf8(host),
    ensures
        parsed_udp_request(seq![0x01u8, host.len() as u8] + host + more) == Err::<
            UdpRequestView,
            SnellError,
        >(SnellError::HostEncoding),
{
    let wire = seq![0x01u8, host.len() as u8] + host + more;
    assert(wire.subrange(2, 2 + host.len() as int) =~= host);
}

/// What is no datagram response, and why.
pub proof fn lemma_broken_udp_responses(f: Seq<u8>)
    ensures
        f.len() == 0 ==> typed_addr(f) == Err::<(SocketAddr, Seq<u8>), SnellError>(
            SnellError::RequestTooShort,
        ),
        f.len() > 0 && f[0] != 4 && f[0] != 6 ==> typed_addr(f) == Err::<
            (SocketAddr, Seq<u8>),
            SnellError,
        >((SnellError::AddressType { type_byte: f[0] })),
        0 < f.len() < 7 && f[0] == 4 ==> typed_addr(f) == Err::<
            (SocketAddr, Seq<u8>),
            SnellError,
        >(SnellError::TruncatedHost),
        0 < f.len() < 19 && f[0] == 6 ==> typed_addr(f) == Err::<
            (SocketAddr, Seq<u8>),
            SnellError,
        >(SnellError::TruncatedHost),
{
}

} // verus!
