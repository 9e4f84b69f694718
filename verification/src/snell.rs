//! Requests, replies and chunks of the plain session.

use vstd::prelude::*;
use vstd::slice::{slice_subrange, slice_to_vec};
use vstd::utf8::{decode_utf8, encode_utf8, valid_utf8};
use crate::bytes::to_array;
use crate::cipher::{after_open, be16, be16_at, opened_header, sealed_chunk};
use crate::cipher::{CipherState, SnellCipher, HDR_CT_LEN};
use crate::crypto::gcm_open;
use crate::error::SnellError;
use crate::stream::{frames_of, lemma_read_one, read_all, self_delimiting, written, Step};
use crate::stream::{lemma_write_end, lemma_write_start, lemma_write_step, MAX_CHUNK};
use crate::interleave::{lemma_unswap_undoes_swap, swapped, unswap, unswapped};
use crate::text::string_from_utf8;

pub use crate::errcode;
pub use crate::server::{MSG_DNS_FAILED, MSG_IPV4_DISABLED, MSG_IPV6_DISABLED};
pub use crate::uot::{encode_udp_request, encode_udp_response};
pub use crate::uot::{parse_udp_request, parse_udp_response, UdpRequest};

verus! {

pub const CMD_PING: u8 = 0x00;

pub const CMD_CONNECT: u8 = 0x01;

pub const CMD_CONNECT_V2: u8 = 0x05;

pub const CMD_CONNECT_UDP: u8 = 0x06;

pub const RESP_TUNNEL: u8 = 0x00;

pub const RESP_PONG: u8 = 0x01;

pub const RESP_ERROR: u8 = 0x02;

/// Version byte that starts every request.
pub const REQUEST_VERSION: u8 = 0x01;

/// A decoded request.
pub struct SnellRequest {
    pub command: u8,
    pub host: String,
    pub port: u16,
    /// Application data bundled with the request in its chunk.
    pub trailing: Vec<u8>,
}

/// What a request says.
#[verifier::ext_equal]
pub struct RequestView {
    pub command: u8,
    pub host: Seq<char>,
    pub port: u16,
    pub trailing: Seq<u8>,
}

impl View for SnellRequest {
    type V = RequestView;

    open spec fn view(&self) -> RequestView {
        RequestView {
            command: self.command,
            host: self.host@,
            port: self.port,
            trailing: self.trailing@,
        }
    }
}

/// What the bytes of a request say, or why they are no request.
///
/// ```text
/// 01  command  client id length  client id  host length  host  port  trailing
/// ```
///
/// A ping is complete with its first three bytes.
pub open spec fn parsed_request(data: Seq<u8>) -> Result<RequestView, SnellError> {
    if data.len() < 3 {
        Err(SnellError::RequestTooShort)
    } else if data[0] != REQUEST_VERSION {
        Err(SnellError::UnsupportedVersion { version: data[0] })
    } else if data[1] == CMD_PING {
        Ok(
            RequestView {
                command: CMD_PING,
                host: Seq::empty(),
                port: 0,
                trailing: Seq::empty(),
            },
        )
    } else {
        let id_len = data[2] as int;
        if data.len() < 3 + id_len {
            Err(SnellError::TruncatedClientId { need: data[2] as usize })
        } else if data.len() < 6 + id_len {
            Err(SnellError::TruncatedHandshake)
        } else {
            let host_len = data[3 + id_len] as int;
            let at = 4 + id_len;
            if data.len() < at + host_len + 2 {
                Err(SnellError::TruncatedHost)
            } else if !valid_utf8(data.subrange(at, at + host_len)) {
                Err(SnellError::HostEncoding)
            } else {
                Ok(
                    RequestView {
                        command: data[1],
                        host: decode_utf8(data.subrange(at, at + host_len)),
                        port: be16_at(data, at + host_len) as u16,
                        trailing: data.skip(at + host_len + 2),
                    },
                )
            }
        }
    }
}

/// Decodes the request in an opened chunk.
pub fn parse_request(data: &[u8]) -> (out: Result<SnellRequest, SnellError>)
    ensures
        match parsed_request(data@) {
            Ok(v) => out is Ok && out->Ok_0@ == v,
            Err(e) => out is Err && out->Err_0 == e,
        },
{
    if data.len() < 3 {
        return Err(SnellError::RequestTooShort);
    }
    if data[0] != REQUEST_VERSION {
        return Err(SnellError::UnsupportedVersion { version: data[0] });
    }
    let command: u8 = data[1];
    let id_len: usize = data[2] as usize;
    if command == CMD_PING {
        let out = SnellRequest { command, host: String::new(), port: 0, trailing: Vec::new() };
        assert(out@ =~= parsed_request(data@)->Ok_0);
        return Ok(out);
    }
    if data.len() < 3 + id_len {
        return Err(SnellError::TruncatedClientId { need: id_len });
    }
    if data.len() < 6 + id_len {
        return Err(SnellError::TruncatedHandshake);
    }
    let host_len: usize = data[3 + id_len] as usize;
    let at: usize = 4 + id_len;
    if data.len() < at + host_len + 2 {
        return Err(SnellError::TruncatedHost);
    }
    let end: usize = at + host_len;
    let host: String = match string_from_utf8(slice_to_vec(slice_subrange(data, at, end))) {
        Some(h) => h,
        None => return Err(SnellError::HostEncoding),
    };
    let port: u16 = data[end] as u16 * 256 + data[end + 1] as u16;
    let trailing: Vec<u8> = slice_to_vec(slice_subrange(data, end + 2, data.len()));
    let out = SnellRequest { command, host, port, trailing };
    proof {
        assert(trailing@ =~= data@.skip(end + 2));
        assert(out@ =~= parsed_request(data@)->Ok_0);
    }
    Ok(out)
}

/// Bytes of a request without client id.
pub open spec fn request_bytes(command: u8, host: Seq<u8>, port: u16) -> Seq<u8> {
    seq![REQUEST_VERSION, command, 0u8, host.len() as u8] + host + be16(port as nat)
}

/// Encodes a request without client id. The host must fit its length byte.
pub fn encode_request(command: u8, host: &str, port: u16) -> (out: Vec<u8>)
    requires
        encode_utf8(host@).len() <= 255,
    ensures
        out@ == request_bytes(command, encode_utf8(host@), port),
{
    let hb: &[u8] = host.as_bytes();
    let mut out: Vec<u8> = Vec::new();
    out.push(REQUEST_VERSION);
    out.push(command);
    out.push(0);
    out.push(hb.len() as u8);
    out.extend_from_slice(hb);
    out.push((port / 256) as u8);
    out.push((port % 256) as u8);
    assert(out@ =~= request_bytes(command, encode_utf8(host@), port));
    out
}

/// A request reads back as it was encoded, with whatever data follows it.
pub proof fn lemma_request_round_trip(
    command: u8,
    host: Seq<char>,
    port: u16,
    trailing: Seq<u8>,
)
    requires
        command != CMD_PING,
        encode_utf8(host).len() <= 255,
    ensures
        parsed_request(request_bytes(command, encode_utf8(host), port) + trailing) == Ok::<
            RequestView,
            SnellError,
        >((RequestView { command, host, port, trailing })),
{
    let hb = encode_utf8(host);
    let data = request_bytes(command, hb, port) + trailing;
    assert(data.subrange(4, 4 + hb.len() as int) =~= hb);
    assert(data.skip(4 + hb.len() as int + 2) =~= trailing);
    vstd::utf8::encode_utf8_valid_utf8(host);
    vstd::utf8::encode_utf8_decode_utf8(host);
    assert(be16_at(data, 4 + hb.len() as int) == port);
}

/// What a client finds behind the reply byte of the first chunk it gets.
pub open spec fn tunnel_data(first: Seq<u8>) -> Result<Seq<u8>, SnellError> {
    if first.len() > 0 && first[0] == RESP_TUNNEL {
        Ok(first.skip(1))
    } else {
        Err(
            SnellError::UnexpectedReply {
                reply: if first.len() > 0 {
                    Some(first[0])
                } else {
                    None
                },
            },
        )
    }
}

/// The data of the target in the first chunk that a client gets: that chunk must
/// open the tunnel.
pub fn open_tunnel(first: &[u8]) -> (out: Result<&[u8], SnellError>)
    ensures
        match tunnel_data(first@) {
            Ok(d) => out is Ok && out->Ok_0@ == d,
            Err(e) => out is Err && out->Err_0 == e,
        },
{
    if first.len() == 0 {
        return Err(SnellError::UnexpectedReply { reply: None });
    }
    if first[0] != RESP_TUNNEL {
        return Err(SnellError::UnexpectedReply { reply: Some(first[0]) });
    }
    let rest: &[u8] = slice_subrange(first, 1, first.len());
    assert(rest@ =~= first@.skip(1));
    Ok(rest)
}

/// Takes one chunk off the front of `input` with a cipher in state `c`. A zero
/// chunk has no body.
pub open spec fn read_chunk_of(c: CipherState, input: Seq<u8>) -> Step<CipherState> {
    let h = HDR_CT_LEN as int;
    if input.len() < h {
        Step { result: Err(SnellError::Truncated), used: 0, next: c }
    } else {
        let mid = after_open(c, Seq::empty(), input.take(h));
        match opened_header(c, Seq::empty(), input.take(h)) {
            Err(e) => Step { result: Err(e), used: 0, next: mid },
            Ok((junk_len, payload_len)) => if payload_len == 0 {
                Step { result: Ok(None), used: h as nat, next: mid }
            } else {
                let total = h + junk_len + payload_len + 16;
                if input.len() < total {
                    Step { result: Err(SnellError::Truncated), used: 0, next: mid }
                } else {
                    let ct = unswapped(input.subrange(h, total), junk_len as int);
                    let end = after_open(mid, Seq::empty(), ct);
                    match gcm_open(mid.key, mid.nonce(0), Seq::empty(), ct) {
                        Some(p) => Step { result: Ok(Some(p)), used: total as nat, next: end },
                        None => Step { result: Err(SnellError::PayloadAuth), used: 0, next: end },
                    }
                }
            },
        }
    }
}

/// The step of a reader of plain chunks.
pub open spec fn chunk_step() -> spec_fn(CipherState, Seq<u8>) -> Step<CipherState> {
    |c: CipherState, input: Seq<u8>| read_chunk_of(c, input)
}

/// A chunk is read without looking past its end.
pub proof fn lemma_chunks_self_delimiting()
    ensures
        self_delimiting(chunk_step()),
{
    let step = chunk_step();
    assert forall|c: CipherState, a: Seq<u8>, b: Seq<u8>|
        #![trigger step(c, a + b)]
        (step(c, a).result is Ok && step(c, a).result->Ok_0 is Some) implies {
        &&& step(c, a + b) == step(c, a)
        &&& 0 < step(c, a).used <= a.len()
    } by {
        let h = HDR_CT_LEN as int;
        assert((a + b).take(h) =~= a.take(h));
        match opened_header(c, Seq::empty(), a.take(h)) {
            Ok((junk_len, payload_len)) => {
                let total = h + junk_len + payload_len + 16;
                if total <= a.len() {
                    assert((a + b).subrange(h, total) =~= a.subrange(h, total));
                }
            },
            Err(_) => {},
        }
    }
}

/// No front part of a chunk passes for a chunk: short of its last byte the
/// reader reports that the input ended.
pub proof fn lemma_incomplete_chunk_is_noticed(c: CipherState, input: Seq<u8>, m: int)
    requires
        read_chunk_of(c, input).result is Ok,
        0 <= m < read_chunk_of(c, input).used,
    ensures
        read_chunk_of(c, input.take(m)).result == Err::<Option<Seq<u8>>, SnellError>(
            SnellError::Truncated,
        ),
{
    let h = HDR_CT_LEN as int;
    if m >= h {
        assert(input.take(m).take(h) =~= input.take(h));
    }
}

/// A sender may put junk between header and payload and exchange bytes of the
/// two: if header and ciphertext open under the cipher then the reader hands out
/// the payload.
pub proof fn lemma_interleaved_chunk_reads_back(
    c: CipherState,
    junk: Seq<u8>,
    payload: Seq<u8>,
    header: Seq<u8>,
    ct: Seq<u8>,
)
    requires
        junk.len() <= 0xffff,
        0 < payload.len() <= 0xffff,
        header.len() == HDR_CT_LEN,
        ct.len() == payload.len() + 16,
        opened_header(c, Seq::empty(), header) == Ok::<(usize, usize), SnellError>(
            (junk.len() as usize, payload.len() as usize),
        ),
        after_open(c, Seq::empty(), header) == c.after(1),
        gcm_open(c.key, c.after(1).nonce(0), Seq::empty(), ct) == Some(payload),
    ensures
        read_chunk_of(c, header + swapped(junk, ct)) == (Step::<CipherState> {
            result: Ok(Some(payload)),
            used: (header + swapped(junk, ct)).len(),
            next: c.after(1).after(1),
        }),
{
    let wire = header + swapped(junk, ct);
    let h = HDR_CT_LEN as int;
    assert(wire.take(h) =~= header);
    assert(wire.subrange(h, wire.len() as int) =~= swapped(junk, ct));
    lemma_unswap_undoes_swap(junk, ct);
}

/// Opens the body of a chunk whose header announced `junk_len` and
/// `payload_len`: undoes the byte swap with the junk, then opens the payload.
pub fn open_chunk_body(
    body: &[u8],
    junk_len: usize,
    payload_len: usize,
    cipher: &mut SnellCipher,
) -> (out: Result<Vec<u8>, SnellError>)
    requires
        body@.len() == junk_len + payload_len + 16,
    ensures
        ({
            let ct = unswapped(body@, junk_len as int);
            &&& match gcm_open(old(cipher)@.key, old(cipher)@.nonce(0), Seq::empty(), ct) {
                Some(p) => out is Ok && out->Ok_0@ == p,
                None => out is Err && out->Err_0 == SnellError::PayloadAuth,
            }
            &&& final(cipher)@ == after_open(old(cipher)@, Seq::empty(), ct)
        }),
{
    let ct: Vec<u8> = unswap(body, junk_len);
    cipher.open_payload(ct.as_slice())
}

/// Takes one chunk off the front of `input`: its payload, or `None` for the zero
/// chunk that ends the session, and the bytes it spans.
pub fn read_chunk(input: &[u8], cipher: &mut SnellCipher) -> (out: Result<
    (Option<Vec<u8>>, usize),
    SnellError,
>)
    ensures
        ({
            let one = read_chunk_of(old(cipher)@, input@);
            &&& match one.result {
                Ok(Some(p)) => out is Ok && out->Ok_0.0 is Some && out->Ok_0.0->Some_0@ == p
                    && out->Ok_0.1 == one.used,
                Ok(None) => out is Ok && out->Ok_0.0 is None && out->Ok_0.1 == one.used,
                Err(e) => out is Err && out->Err_0 == e,
            }
            &&& final(cipher)@ == one.next
        }),
{
    if input.len() < HDR_CT_LEN {
        return Err(SnellError::Truncated);
    }
    let head: &[u8] = slice_subrange(input, 0, HDR_CT_LEN);
    assert(head@ =~= input@.take(HDR_CT_LEN as int));
    let hdr: [u8; 23] = to_array::<23>(head);
    match cipher.open_header(&hdr) {
        Err(e) => Err(e),
        Ok(None) => Ok((None, HDR_CT_LEN)),
        Ok(Some((junk_len, payload_len))) => {
            let n: usize = junk_len + payload_len + 16;
            if input.len() - HDR_CT_LEN < n {
                return Err(SnellError::Truncated);
            }
            let body: &[u8] = slice_subrange(input, HDR_CT_LEN, HDR_CT_LEN + n);
            match open_chunk_body(body, junk_len, payload_len, cipher) {
                Ok(p) => Ok((Some(p), HDR_CT_LEN + n)),
                Err(e) => Err(e),
            }
        },
    }
}

/// The next plain chunk and the cipher state behind it.
pub open spec fn chunk_frame() -> spec_fn(CipherState, Seq<u8>) -> (Seq<u8>, CipherState) {
    |c: CipherState, part: Seq<u8>|
        (sealed_chunk(c, Seq::empty(), Seq::empty(), part), c.after(2))
}

/// Wire bytes of `data` as plain chunks of at most `cap` payload bytes.
pub open spec fn chunks_of(c: CipherState, data: Seq<u8>, cap: nat) -> Seq<u8> {
    frames_of(chunk_frame(), c, data, cap)
}

/// Smaller of the asked for and the largest chunk size.
pub open spec fn chunk_cap(max_bytes: usize) -> nat {
    if max_bytes <= MAX_CHUNK {
        max_bytes as nat
    } else {
        MAX_CHUNK as nat
    }
}

/// Seals one plain chunk that reads back as `part`.
fn write_one_chunk(cipher: &mut SnellCipher, part: &[u8]) -> (out: Result<Vec<u8>, SnellError>)
    requires
        0 < part@.len() <= MAX_CHUNK,
    ensures
        out is Ok,
        out->Ok_0@ == chunk_frame()(old(cipher)@, part@).0,
        final(cipher)@ == chunk_frame()(old(cipher)@, part@).1,
        read_all(chunk_step(), old(cipher)@, out->Ok_0@) == Some((part@, final(cipher)@)),
{
    let ghost c0 = cipher@;
    let wire: Vec<u8> = match cipher.seal(part) {
        Ok(w) => w,
        Err(e) => return Err(e),
    };
    proof {
        let h = HDR_CT_LEN as int;
        let body = wire@.subrange(h, wire@.len() as int);
        assert(body =~= wire@.skip(h));
        assert(unswapped(body, 0) =~= body);
        assert(read_chunk_of(c0, wire@).result == Ok::<Option<Seq<u8>>, SnellError>(Some(part@)));
        lemma_read_one(chunk_step(), c0, wire@, part@);
    }
    Ok(wire)
}

/// Cuts `data` into plain chunks of at most `max_bytes`, and never more than the
/// protocol limit. The bytes read back, chunk by chunk, as `data`; empty data
/// gives no bytes.
pub fn write_chunk_sized(cipher: &mut SnellCipher, data: &[u8], max_bytes: usize) -> (out: Result<
    Vec<u8>,
    SnellError,
>)
    requires
        max_bytes > 0,
    ensures
        out is Ok,
        out->Ok_0@ == chunks_of(old(cipher)@, data@, chunk_cap(max_bytes)),
        read_all(chunk_step(), old(cipher)@, out->Ok_0@) == Some((data@, final(cipher)@)),
{
    let cap: usize = if max_bytes <= MAX_CHUNK {
        max_bytes
    } else {
        MAX_CHUNK
    };
    let ghost c0 = cipher@;
    let mut out: Vec<u8> = Vec::new();
    let mut pos: usize = 0;
    proof {
        lemma_write_start(chunk_frame(), chunk_step(), c0, data@, cap as nat);
        lemma_chunks_self_delimiting();
        assert(out@ =~= Seq::<u8>::empty());
    }
    while pos < data.len()
        invariant
            pos <= data@.len(),
            0 < cap <= MAX_CHUNK,
            self_delimiting(chunk_step()),
            written(
                chunk_frame(),
                chunk_step(),
                c0,
                cipher@,
                data@,
                cap as nat,
                pos as int,
                out@,
            ),
        decreases data@.len() - pos,
    {
        let n: usize = if data.len() - pos <= cap {
            data.len() - pos
        } else {
            cap
        };
        let ghost c = cipher@;
        let part: &[u8] = slice_subrange(data, pos, pos + n);
        let one: Vec<u8> = match write_one_chunk(cipher, part) {
            Ok(w) => w,
            Err(e) => return Err(e),
        };
        proof {
            lemma_write_step(
                chunk_frame(),
                chunk_step(),
                c0,
                c,
                data@,
                cap as nat,
                pos as int,
                n as int,
                out@,
                one@,
            );
        }
        let ghost before = out@;
        out.extend_from_slice(one.as_slice());
        assert(out@ =~= before + one@);
        pos = pos + n;
    }
    proof {
        lemma_write_end(chunk_frame(), chunk_step(), c0, cipher@, data@, cap as nat, out@);
    }
    Ok(out)
}

/// Cuts `data` into plain chunks of the largest size.
pub fn write_chunk(cipher: &mut SnellCipher, data: &[u8]) -> (out: Result<Vec<u8>, SnellError>)
    ensures
        out is Ok,
        out->Ok_0@ == chunks_of(old(cipher)@, data@, MAX_CHUNK as nat),
        read_all(chunk_step(), old(cipher)@, out->Ok_0@) == Some((data@, final(cipher)@)),
{
    write_chunk_sized(cipher, data, MAX_CHUNK)
}

/// The zero chunk is read as the end of the session, whatever follows it.
pub proof fn lemma_zero_chunk_ends(c: CipherState, zero: Seq<u8>, more: Seq<u8>)
    requires
        zero.len() == HDR_CT_LEN,
        opened_header(c, Seq::empty(), zero) == Ok::<(usize, usize), SnellError>((0, 0)),
    ensures
        read_chunk_of(c, zero + more).result == Ok::<Option<Seq<u8>>, SnellError>(None),
        read_chunk_of(c, zero + more).used == HDR_CT_LEN,
{
    assert((zero + more).take(HDR_CT_LEN as int) =~= zero);
}

/// A request says what stands in it: version 1, the command, the length of the
/// client id, the client id, the length of the host, the host, the port in
/// network order, and data for the target.
pub proof fn lemma_request_fields(
    command: u8,
    id: Seq<u8>,
    host: Seq<char>,
    port: u16,
    trailing: Seq<u8>,
)
    requires
        command != 0,
        id.len() <= 255,
        encode_utf8(host).len() <= 255,
    ensures
        ({
            let hb = encode_utf8(host);
            let wire = seq![0x01u8, command, id.len() as u8] + id + seq![hb.len() as u8] + hb
                + seq![(port / 256) as u8, (port % 256) as u8] + trailing;
            parsed_request(wire) == Ok::<RequestView, SnellError>(
                (RequestView { command, host, port, trailing }),
            )
        }),
{
    let hb = encode_utf8(host);
    let wire = seq![0x01u8, command, id.len() as u8] + id + seq![hb.len() as u8] + hb + seq![
        (port / 256) as u8,
        (port % 256) as u8,
    ] + trailing;
    let at = 4 + id.len() as int;
    let end = at + hb.len() as int;
    assert(wire[3 + id.len() as int] == hb.len());
    assert(wire.subrange(at, end) =~= hb);
    assert(wire[end] == (port / 256) as u8);
    assert(wire[end + 1] == (port % 256) as u8);
    assert(wire.skip(end + 2) =~= trailing);
    vstd::utf8::encode_utf8_valid_utf8(host);
    vstd::utf8::encode_utf8_decode_utf8(host);
}

/// A ping is told by its first three bytes, whatever follows them.
pub proof fn lemma_pings(id_len: u8, more: Seq<u8>)
    ensures
        parsed_request(seq![0x01u8, 0x00, id_len] + more) == Ok::<RequestView, SnellError>(
            (RequestView { command: 0, host: Seq::empty(), port: 0, trailing: Seq::empty() }),
        ),
{
}

/// What is no request, and why: too short for a head, of another version, or cut
/// off in the client id, in front of the host or in the host.
pub proof fn lemma_broken_requests(data: Seq<u8>)
    ensures
        data.len() < 3 ==> parsed_request(data) == Err::<RequestView, SnellError>(
            SnellError::RequestTooShort,
        ),
        data.len() >= 3 && data[0] != 1 ==> parsed_request(data) == Err::<RequestView, SnellError>(
            (SnellError::UnsupportedVersion { version: data[0] }),
        ),
        data.len() >= 3 && data[0] == 1 && data[1] != 0 ==> {
            let id = data[2] as int;
            &&& data.len() < 3 + id ==> parsed_request(data) == Err::<RequestView, SnellError>(
                (SnellError::TruncatedClientId { need: data[2] as usize }),
            )
            &&& 3 + id <= data.len() < 6 + id ==> parsed_request(data) == Err::<
                RequestView,
                SnellError,
            >(SnellError::TruncatedHandshake)
            &&& 6 + id <= data.len() < 6 + id + data[3 + id] ==> parsed_request(data) == Err::<
                RequestView,
                SnellError,
            >(SnellError::TruncatedHost)
        },
{
}

/// A request goes out as version 1, the command, an empty client id, the length
/// of the host, the host and the port in network order.
pub proof fn lemma_request_layout(command: u8, host: Seq<u8>, port: u16)
    requires
        host.len() <= 255,
    ensures
        request_bytes(command, host, port) == seq![0x01u8, command, 0, host.len() as u8] + host
            + seq![(port / 256) as u8, (port % 256) as u8],
{
}

/// A first chunk that starts with a zero opens the tunnel, and the rest of it is
/// data; any other is refused with its first byte.
pub proof fn lemma_first_replies(b: u8, data: Seq<u8>)
    ensures
        tunnel_data(seq![0x00u8] + data) == Ok::<Seq<u8>, SnellError>(data),
        b != 0 ==> tunnel_data(seq![b] + data) == Err::<Seq<u8>, SnellError>(
            (SnellError::UnexpectedReply { reply: Some(b) }),
        ),
        tunnel_data(Seq::empty()) == Err::<Seq<u8>, SnellError>(
            (SnellError::UnexpectedReply { reply: None }),
        ),
{
    assert((seq![0x00u8] + data).skip(1) =~= data);
}

/// Chunks carry what was asked for, but never more than 16383 bytes.
pub proof fn lemma_chunk_cap(n: usize)
    ensures
        chunk_cap(n) <= n,
        chunk_cap(n) <= 16383,
        chunk_cap(n) == n || chunk_cap(n) == 16383,
{
}

/// What a reader makes of a chunk that is cut off, forged, of an unknown type, or
/// whose payload is forged. A forged part uses up no nonce.
pub proof fn lemma_broken_chunks(c: CipherState, input: Seq<u8>)
    ensures
        input.len() < 23 ==> read_chunk_of(c, input).result == Err::<Option<Seq<u8>>, SnellError>(
            SnellError::Truncated,
        ) && read_chunk_of(c, input).next == c,
        input.len() >= 23 ==> ({
            let step = read_chunk_of(c, input);
            match gcm_open(c.key, c.nonce(0), Seq::empty(), input.take(23)) {
                None => step.result == Err::<Option<Seq<u8>>, SnellError>(SnellError::HeaderAuth)
                    && step.next == c,
                Some(h) => {
                    let junk = h[3] * 256 + h[4];
                    let len = h[5] * 256 + h[6];
                    &&& h[0] != 4 ==> step.result == Err::<Option<Seq<u8>>, SnellError>(
                        (SnellError::HeaderType { type_byte: h[0] }),
                    )
                    &&& h[0] == 4 && len > 0 && input.len() < 39 + junk + len ==> step.result
                        == Err::<Option<Seq<u8>>, SnellError>(SnellError::Truncated)
                    &&& h[0] == 4 && len == 0 ==> step.result == Ok::<
                        Option<Seq<u8>>,
                        SnellError,
                    >(None) && step.used == 23
                    &&& step.result matches Ok(Some(p)) ==> step.used == 39 + junk + len
                },
            }
        }),
{
}

/// A request whose host is not UTF-8 is refused as such.
pub proof fn lemma_badly_encoded_requests(command: u8, id: Seq<u8>, host: Seq<u8>, more: Seq<u8>)
    requires
        command != 0,
        id.len() <= 255,
        host.len() <= 255,
        more.len() >= 2,
        !valid_utf8(host),
    ensures
        parsed_request(
            seq![0x01u8, command, id.len() as u8] + id + seq![host.len() as u8] + host + more,
        ) == Err::<RequestView, SnellError>(SnellError::HostEncoding),
{
    let wire = seq![0x01u8, command, id.len() as u8] + id + seq![host.len() as u8] + host + more;
    let at = 4 + id.len() as int;
    assert(wire[3 + id.len() as int] == host.len());
    assert(wire.subrange(at, at + host.len() as int) =~= host);
}

/// A writer of plain chunks seals each part as a chunk without prefix and junk and
/// uses up two nonces for it.
pub proof fn lemma_plain_chunks(c: CipherState, part: Seq<u8>, rest: Seq<u8>)
    requires
        0 < part.len() <= 16383,
    ensures
        chunks_of(c, Seq::empty(), MAX_CHUNK as nat) == Seq::<u8>::empty(),
        chunks_of(c, part, MAX_CHUNK as nat) == sealed_chunk(c, Seq::empty(), Seq::empty(), part),
        part.len() == 16383 ==> chunks_of(c, part + rest, MAX_CHUNK as nat) == sealed_chunk(
            c,
            Seq::empty(),
            Seq::empty(),
            part,
        ) + chunks_of(c.after(2), rest, MAX_CHUNK as nat),
{
    if part.len() == 16383 {
        crate::stream::lemma_cutting(chunk_frame(), c, part, rest, MAX_CHUNK as nat);
    }
}

} // verus!
