//! Plaintext frames: no salt, no key derivation, no encryption.
//!
//! ```text
//! 04  junk length  payload length  junk  payload
//! ```
//!
//! Both lengths are big-endian in two bytes. Frames are written without junk;
//! an empty frame ends the session.

use vstd::prelude::*;
use vstd::slice::{slice_subrange, slice_to_vec};
use crate::cipher::{be16, be16_at};
use crate::error::SnellError;
use crate::interleave::{lemma_unswap_undoes_swap, swapped, unswap, unswapped};
use crate::stream::{frames_of, lemma_read_one, read_all, self_delimiting, written, Step};
use crate::stream::{lemma_write_end, lemma_write_start, lemma_write_step, MAX_CHUNK};

verus! {

/// Type byte of a plaintext frame.
pub const RAW_TYPE: u8 = 0x04;

/// Bytes of a plaintext frame header.
pub const RAW_HDR_LEN: usize = 5;

/// Wire bytes of one frame without junk. A payload longer than 65535 bytes
/// leaves only the low 16 bits of its length in the header.
pub open spec fn raw_frame(payload: Seq<u8>) -> Seq<u8> {
    seq![RAW_TYPE, 0u8, 0u8] + be16(payload.len() % 0x1_0000) + payload
}

/// Encodes one frame without junk.
pub fn encode_unsafe_raw(payload: &[u8]) -> (out: Vec<u8>)
    ensures
        out@ == raw_frame(payload@),
{
    let n: usize = payload.len() % 0x1_0000;
    let mut out: Vec<u8> = Vec::new();
    out.push(RAW_TYPE);
    out.push(0);
    out.push(0);
    out.push((n / 256) as u8);
    out.push((n % 256) as u8);
    out.extend_from_slice(payload);
    assert(out@ =~= raw_frame(payload@));
    out
}

/// What the frame at the front of `buf` holds once the byte swap with its junk
/// is undone, and the bytes it spans; `None` for another type byte or an
/// incomplete frame.
pub open spec fn decoded_raw(buf: Seq<u8>) -> Option<(Seq<u8>, nat)> {
    if buf.len() < 5 || buf[0] != RAW_TYPE {
        None
    } else {
        let junk_len = be16_at(buf, 1) as int;
        let total = 5 + junk_len + be16_at(buf, 3);
        if buf.len() < total {
            None
        } else {
            Some((unswapped(buf.subrange(5, total), junk_len), total as nat))
        }
    }
}

/// Decodes the frame at the front of `buf`, undoing the byte swap with its junk.
pub fn decode_unsafe_raw(buf: &[u8]) -> (out: Option<(Vec<u8>, usize)>)
    ensures
        match decoded_raw(buf@) {
            Some((payload, used)) => out is Some && out->Some_0.0@ == payload && out->Some_0.1
                == used,
            None => out is None,
        },
{
    if buf.len() < RAW_HDR_LEN || buf[0] != RAW_TYPE {
        return None;
    }
    let junk_len: usize = buf[1] as usize * 256 + buf[2] as usize;
    let payload_len: usize = buf[3] as usize * 256 + buf[4] as usize;
    let total: usize = RAW_HDR_LEN + junk_len + payload_len;
    if buf.len() < total {
        return None;
    }
    Some((unswap(slice_subrange(buf, RAW_HDR_LEN, total), junk_len), total))
}

/// A frame that fits its length field decodes to its payload, and whatever
/// follows it is left alone.
pub proof fn lemma_raw_round_trip(payload: Seq<u8>, more: Seq<u8>)
    requires
        payload.len() <= 0xffff,
    ensures
        decoded_raw(raw_frame(payload) + more) == Some((payload, raw_frame(payload).len())),
{
    let buf = raw_frame(payload) + more;
    let total = 5 + payload.len() as int;
    assert(be16_at(buf, 1) == 0);
    assert(be16_at(buf, 3) == payload.len());
    assert(unswapped(buf.subrange(5, total), 0) =~= payload);
}

/// A frame whose sender swapped bytes with its junk decodes to its payload.
pub proof fn lemma_raw_swapped_round_trip(junk: Seq<u8>, payload: Seq<u8>)
    requires
        junk.len() <= 0xffff,
        payload.len() <= 0xffff,
    ensures
        ({
            let wire = seq![RAW_TYPE] + be16(junk.len()) + be16(payload.len()) + swapped(
                junk,
                payload,
            );
            decoded_raw(wire) == Some((payload, wire.len()))
        }),
{
    let wire = seq![RAW_TYPE] + be16(junk.len()) + be16(payload.len()) + swapped(junk, payload);
    assert(be16_at(wire, 1) == junk.len());
    assert(be16_at(wire, 3) == payload.len());
    assert(wire.subrange(5, wire.len() as int) =~= swapped(junk, payload));
    lemma_unswap_undoes_swap(junk, payload);
}

/// Junk and payload length that a frame header announces; `None` for the empty
/// frame that ends the session.
pub open spec fn raw_header(hdr: Seq<u8>) -> Result<Option<(usize, usize)>, SnellError> {
    if hdr[0] != RAW_TYPE {
        Err(SnellError::RawType { type_byte: hdr[0] })
    } else if be16_at(hdr, 3) == 0 {
        Ok(None)
    } else {
        Ok(Some((be16_at(hdr, 1) as usize, be16_at(hdr, 3) as usize)))
    }
}

/// Reads a frame header: junk and payload length, or `None` for the empty frame.
pub fn parse_raw_header(hdr: &[u8; 5]) -> (out: Result<Option<(usize, usize)>, SnellError>)
    ensures
        out == raw_header(hdr@),
        out matches Ok(Some((j, p))) ==> j <= 0xffff && p <= 0xffff,
{
    if hdr[0] != RAW_TYPE {
        return Err(SnellError::RawType { type_byte: hdr[0] });
    }
    let junk_len: usize = hdr[1] as usize * 256 + hdr[2] as usize;
    let payload_len: usize = hdr[3] as usize * 256 + hdr[4] as usize;
    if payload_len == 0 {
        Ok(None)
    } else {
        Ok(Some((junk_len, payload_len)))
    }
}

/// Takes one frame off the front of `input`. Junk is skipped. An input that ends
/// before a whole header, like an empty frame, ends the session.
pub open spec fn read_raw_of(input: Seq<u8>) -> Step<()> {
    if input.len() < 5 {
        Step { result: Ok(None), used: input.len(), next: () }
    } else {
        match raw_header(input) {
            Err(e) => Step { result: Err(e), used: 0, next: () },
            Ok(None) => Step { result: Ok(None), used: 5, next: () },
            Ok(Some((junk_len, payload_len))) => {
                let total = 5 + junk_len + payload_len;
                if input.len() < total {
                    Step { result: Err(SnellError::Truncated), used: 0, next: () }
                } else {
                    Step {
                        result: Ok(Some(input.subrange(5 + junk_len, total))),
                        used: total as nat,
                        next: (),
                    }
                }
            },
        }
    }
}

/// The step of a reader of plaintext frames.
pub open spec fn raw_step() -> spec_fn((), Seq<u8>) -> Step<()> {
    |u: (), input: Seq<u8>| read_raw_of(input)
}

/// A payload frame is read without looking past its end.
pub proof fn lemma_raw_self_delimiting()
    ensures
        self_delimiting(raw_step()),
{
    let step = raw_step();
    assert forall|u: (), a: Seq<u8>, b: Seq<u8>|
        #![trigger step(u, a + b)]
        (step(u, a).result is Ok && step(u, a).result->Ok_0 is Some) implies {
        &&& step(u, a + b) == step(u, a)
        &&& 0 < step(u, a).used <= a.len()
    } by {
        let junk_len = be16_at(a, 1) as int;
        let total = 5 + junk_len + be16_at(a, 3);
        assert((a + b).subrange(5 + junk_len, total) =~= a.subrange(5 + junk_len, total));
    }
}

/// Takes one frame off the front of `input`: its payload, or `None` at the end
/// of the session, and the bytes it spans.
pub fn read_unsafe_raw(input: &[u8]) -> (out: Result<(Option<Vec<u8>>, usize), SnellError>)
    ensures
        match read_raw_of(input@).result {
            Ok(Some(p)) => out is Ok && out->Ok_0.0 is Some && out->Ok_0.0->Some_0@ == p
                && out->Ok_0.1 == read_raw_of(input@).used,
            Ok(None) => out is Ok && out->Ok_0.0 is None && out->Ok_0.1 == read_raw_of(
                input@,
            ).used,
            Err(e) => out is Err && out->Err_0 == e,
        },
{
    if input.len() < RAW_HDR_LEN {
        return Ok((None, input.len()));
    }
    let hdr: [u8; 5] = [input[0], input[1], input[2], input[3], input[4]];
    match parse_raw_header(&hdr) {
        Err(e) => Err(e),
        Ok(None) => Ok((None, RAW_HDR_LEN)),
        Ok(Some((junk_len, payload_len))) => {
            let start: usize = RAW_HDR_LEN + junk_len;
            let total: usize = start + payload_len;
            if input.len() < total {
                return Err(SnellError::Truncated);
            }
            Ok((Some(slice_to_vec(slice_subrange(input, start, total))), total))
        },
    }
}

/// The next frame of a plaintext session.
pub open spec fn raw_frames() -> spec_fn((), Seq<u8>) -> (Seq<u8>, ()) {
    |u: (), part: Seq<u8>| (raw_frame(part), ())
}

/// Cuts `data` into frames. The bytes read back, frame by frame, as `data`;
/// empty data gives no bytes.
pub fn write_unsafe_raw(data: &[u8]) -> (out: Vec<u8>)
    ensures
        out@ == frames_of(raw_frames(), (), data@, MAX_CHUNK as nat),
        read_all(raw_step(), (), out@) == Some((data@, ())),
{
    let mut out: Vec<u8> = Vec::new();
    let mut pos: usize = 0;
    proof {
        lemma_write_start(raw_frames(), raw_step(), (), data@, MAX_CHUNK as nat);
        lemma_raw_self_delimiting();
        assert(out@ =~= Seq::<u8>::empty());
    }
    while pos < data.len()
        invariant
            pos <= data@.len(),
            self_delimiting(raw_step()),
            written(
                raw_frames(),
                raw_step(),
                (),
                (),
                data@,
                MAX_CHUNK as nat,
                pos as int,
                out@,
            ),
        decreases data@.len() - pos,
    {
        let n: usize = if data.len() - pos <= MAX_CHUNK {
            data.len() - pos
        } else {
            MAX_CHUNK
        };
        let part: &[u8] = slice_subrange(data, pos, pos + n);
        let one: Vec<u8> = encode_unsafe_raw(part);
        proof {
            assert(one@.subrange(5, one@.len() as int) =~= part@);
            lemma_read_one(raw_step(), (), one@, part@);
            lemma_write_step(
                raw_frames(),
                raw_step(),
                (),
                (),
                data@,
                MAX_CHUNK as nat,
                pos as int,
                n as int,
                out@,
                one@,
            );
        }
        let ghost before = out@;
        out.extend_from_slice(one.as_slice());
        assert(out@ =~= before + one@);
        pos = pos + n;
    }
    proof {
        lemma_write_end(raw_frames(), raw_step(), (), (), data@, MAX_CHUNK as nat, out@);
    }
    out
}

/// The empty frame that ends a session.
pub fn write_unsafe_raw_zero() -> (out: Vec<u8>)
    ensures
        out@ == raw_frame(Seq::empty()),
        read_raw_of(out@).result == Ok::<Option<Seq<u8>>, SnellError>(None),
        read_raw_of(out@).used == out@.len(),
{
    let none: [u8; 0] = [];
    assert(none@ =~= Seq::<u8>::empty());
    encode_unsafe_raw(none.as_slice())
}

/// A plaintext frame is the byte 4, a junk length of zero, the payload length in
/// two bytes with the higher one first, and the payload.
pub proof fn lemma_raw_layout(payload: Seq<u8>)
    requires
        payload.len() <= 0xffff,
    ensures
        raw_frame(payload) == seq![
            0x04u8,
            0x00,
            0x00,
            (payload.len() / 256) as u8,
            (payload.len() % 256) as u8,
        ] + payload,
{
    assert(raw_frame(payload) =~= seq![
        0x04u8,
        0x00,
        0x00,
        (payload.len() / 256) as u8,
        (payload.len() % 256) as u8,
    ] + payload);
}

/// A session's reader skips the junk of a frame, hands out its payload and leaves
/// alone what follows. A frame without payload, or an input too short for a
/// header, ends the session.
pub proof fn lemma_raw_frames_read(junk: Seq<u8>, payload: Seq<u8>, more: Seq<u8>)
    requires
        junk.len() <= 0xffff,
        payload.len() <= 0xffff,
    ensures
        ({
            let head = seq![
                0x04u8,
                (junk.len() / 256) as u8,
                (junk.len() % 256) as u8,
                (payload.len() / 256) as u8,
                (payload.len() % 256) as u8,
            ];
            let step = read_raw_of(head + junk + payload + more);
            &&& payload.len() > 0 ==> step.result == Ok::<Option<Seq<u8>>, SnellError>(
                Some(payload),
            ) && step.used == 5 + junk.len() + payload.len()
            &&& payload.len() == 0 ==> step.result == Ok::<Option<Seq<u8>>, SnellError>(None)
                && step.used == 5
        }),
        more.len() < 5 ==> read_raw_of(more).result == Ok::<Option<Seq<u8>>, SnellError>(None),
{
    let head = seq![
        0x04u8,
        (junk.len() / 256) as u8,
        (junk.len() % 256) as u8,
        (payload.len() / 256) as u8,
        (payload.len() % 256) as u8,
    ];
    let w = head + junk + payload + more;
    assert(w[0] == 4 && w[1] == head[1] && w[2] == head[2] && w[3] == head[3] && w[4] == head[4]);
    assert(be16_at(w, 1) == junk.len());
    assert(be16_at(w, 3) == payload.len());
    let at = 5 + junk.len() as int;
    assert(w.subrange(at, at + payload.len() as int) =~= payload);
}

/// A frame of another type is refused with its type byte, and one that is cut off
/// is reported.
pub proof fn lemma_broken_raw_frames(input: Seq<u8>)
    requires
        input.len() >= 5,
    ensures
        input[0] != 4 ==> read_raw_of(input).result == Err::<Option<Seq<u8>>, SnellError>(
            (SnellError::RawType { type_byte: input[0] }),
        ) && decoded_raw(input) is None,
        ({
            let total = 5 + (input[1] * 256 + input[2]) + (input[3] * 256 + input[4]);
            &&& input[0] == 4 && input[3] * 256 + input[4] > 0 && input.len() < total
                ==> read_raw_of(input).result == Err::<Option<Seq<u8>>, SnellError>(
                SnellError::Truncated,
            )
            &&& input[0] == 4 ==> (decoded_raw(input) is Some <==> input.len() >= total)
        }),
{
}

} // verus!
