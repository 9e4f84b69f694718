//! Wire bytes of a shaped session.
//!
//! Data is cut into records, each with a prefix and a junk region of filler. A
//! zero record ends the session. A reader that gets its bytes piecemeal opens
//! the head of a record first and learns from it how long the body is.

use vstd::prelude::*;
use vstd::slice::{slice_subrange, slice_to_vec};
use crate::bytes::to_array;
use crate::cipher::{sealed_header, SnellCipher, HDR_CT_LEN};
use crate::error::SnellError;
use crate::stream::{frame_count, lemma_frame_count_step, lemma_frame_count_zero};
use crate::stream::{frames_of, lemma_read_one, read_all, self_delimiting, written, Step};
use crate::stream::{lemma_write_end, lemma_write_start, lemma_write_step, MAX_CHUNK};
use super::filler::filler_of;
use super::profile::Profile;
use super::record::{after_body, after_head, body_len_of, head_len_of, opened_body, opened_head};
use super::record::{lemma_records_self_delimiting, lemma_zero_record_reads_back};
use super::record::{read_record_of, record_step, seal_record_shaped, shaped_record, RecordState};
use super::sizing::{plan_interleave_of, prefix_len_of};

verus! {

/// What the head of a record announces.
#[derive(Clone, Copy, PartialEq, Eq, Structural, Debug)]
pub struct RecordHead {
    /// Index of the record.
    pub chunk: u64,
    /// Bytes of its junk region.
    pub junk_len: usize,
    /// Bytes of its payload; 0 ends the session.
    pub payload_len: usize,
}

impl RecordHead {
    /// Lengths that fit a record header.
    pub open spec fn wf(&self) -> bool {
        self.junk_len <= 0xffff && self.payload_len <= 0xffff
    }

    /// Bytes of the body that follows the head.
    pub fn body_len(&self) -> (n: usize)
        requires
            self.wf(),
        ensures
            n == body_len_of(self.junk_len as nat, self.payload_len as nat),
    {
        if self.payload_len == 0 {
            self.junk_len
        } else {
            self.junk_len + self.payload_len + 16
        }
    }
}

/// Bytes of the head of record `chunk`: its prefix and its sealed header.
pub fn record_head_len(profile: &Profile, chunk: u64) -> (n: usize)
    ensures
        n == head_len_of(profile@, chunk),
{
    profile.prefix_len(chunk) + HDR_CT_LEN
}

/// Opens the head of the next record and counts the record.
pub fn open_record_head(
    head: &[u8],
    cipher: &mut SnellCipher,
    profile: &Profile,
    chunk: &mut u64,
) -> (out: Result<RecordHead, SnellError>)
    requires
        *old(chunk) < u64::MAX,
        head@.len() == head_len_of(profile@, *old(chunk)),
    ensures
        ({
            let st = RecordState { cipher: old(cipher)@, chunk: *old(chunk) as nat };
            let end = after_head(profile@, st, head@);
            &&& out == match opened_head(profile@, st, head@) {
                Ok((junk_len, payload_len)) => Ok::<RecordHead, SnellError>(
                    (RecordHead { chunk: *old(chunk), junk_len, payload_len }),
                ),
                Err(e) => Err(e),
            }
            &&& out is Ok ==> out->Ok_0.wf()
            &&& final(cipher)@ == end.cipher
            &&& *final(chunk) == end.chunk
        }),
{
    let k: u64 = *chunk;
    let np: usize = profile.prefix_len(k);
    let prefix: &[u8] = slice_subrange(head, 0, np);
    let rest: &[u8] = slice_subrange(head, np, head.len());
    proof {
        assert(prefix@ =~= head@.take(np as int));
        assert(rest@ =~= head@.skip(np as int));
    }
    let hdr: [u8; 23] = to_array::<23>(rest);
    match cipher.open_header_raw_with_aad(&hdr, prefix) {
        Ok((junk_len, payload_len)) => {
            *chunk = k + 1;
            Ok(RecordHead { chunk: k, junk_len, payload_len })
        },
        Err(e) => Err(e),
    }
}

/// Opens the body of a record whose head was opened: its payload, or `None` for
/// a zero record, whose junk is dropped.
pub fn open_record_body(
    body: &[u8],
    head: &RecordHead,
    cipher: &mut SnellCipher,
    profile: &Profile,
) -> (out: Result<Option<Vec<u8>>, SnellError>)
    requires
        head.wf(),
        body@.len() == body_len_of(head.junk_len as nat, head.payload_len as nat),
    ensures
        if head.payload_len == 0 {
            &&& out is Ok && out->Ok_0 is None
            &&& final(cipher)@ == old(cipher)@
        } else {
            let j = head.junk_len as int;
            &&& match opened_body(profile@, old(cipher)@, head.chunk, j, body@) {
                Some(p) => out is Ok && out->Ok_0 is Some && out->Ok_0->Some_0@ == p,
                None => out is Err && out->Err_0 == SnellError::PayloadAuth,
            }
            &&& final(cipher)@ == after_body(profile@, old(cipher)@, head.chunk, j, body@)
        },
{
    if head.payload_len == 0 {
        return Ok(None);
    }
    let mut junk: Vec<u8> = slice_to_vec(slice_subrange(body, 0, head.junk_len));
    let mut ct: Vec<u8> = slice_to_vec(
        slice_subrange(body, head.junk_len, body.len()),
    );
    proof {
        assert(junk@ =~= body@.take(head.junk_len as int));
        assert(ct@ =~= body@.skip(head.junk_len as int));
    }
    profile.mix(head.chunk, junk.as_mut_slice(), ct.as_mut_slice());
    match cipher.open_payload_with_aad(ct.as_slice(), junk.as_slice()) {
        Ok(p) => Ok(Some(p)),
        Err(e) => Err(e),
    }
}

/// Takes one record off the front of `input`: its payload, or `None` for the
/// zero record that ends the session, and the bytes it spans.
pub fn read_record(
    input: &[u8],
    cipher: &mut SnellCipher,
    profile: &Profile,
    chunk: &mut u64,
) -> (out: Result<(Option<Vec<u8>>, usize), SnellError>)
    requires
        *old(chunk) < u64::MAX,
    ensures
        ({
            let st = RecordState { cipher: old(cipher)@, chunk: *old(chunk) as nat };
            let one = read_record_of(profile@, st, input@);
            &&& match one.result {
                Ok(Some(p)) => out is Ok && out->Ok_0.0 is Some && out->Ok_0.0->Some_0@ == p
                    && out->Ok_0.1 == one.used,
                Ok(None) => out is Ok && out->Ok_0.0 is None && out->Ok_0.1 == one.used,
                Err(e) => out is Err && out->Err_0 == e,
            }
            &&& final(cipher)@ == one.next.cipher
            &&& *final(chunk) == one.next.chunk
        }),
{
    let n: usize = record_head_len(profile, *chunk);
    if input.len() < n {
        return Err(SnellError::Truncated);
    }
    let first: &[u8] = slice_subrange(input, 0, n);
    assert(first@ =~= input@.take(n as int));
    let head: RecordHead = match open_record_head(first, cipher, profile, chunk) {
        Ok(h) => h,
        Err(e) => return Err(e),
    };
    let m: usize = head.body_len();
    if input.len() - n < m {
        return Err(SnellError::Truncated);
    }
    let body: &[u8] = slice_subrange(input, n, n + m);
    match open_record_body(body, &head, cipher, profile) {
        Ok(p) => Ok((p, n + m)),
        Err(e) => Err(e),
    }
}

/// Wire bytes of the next record of a session with payload `part`.
pub open spec fn next_record(s: Seq<u64>, st: RecordState, part: Seq<u8>) -> Seq<u8> {
    let k = st.chunk as u64;
    let il = plan_interleave_of(s, k, part.len(), k == 0);
    shaped_record(
        s,
        st.cipher,
        k,
        filler_of(s, k, prefix_len_of(s, k)),
        filler_of(s, k, il),
        part,
    )
}

/// The next record of a session and the state behind it.
pub open spec fn record_frame(s: Seq<u64>) -> spec_fn(RecordState, Seq<u8>) -> (
    Seq<u8>,
    RecordState,
) {
    |st: RecordState, part: Seq<u8>| (next_record(s, st, part), st.after_record())
}

/// Wire bytes of `data` as records of at most `MAX_CHUNK` payload bytes.
pub open spec fn records_of(s: Seq<u64>, st: RecordState, data: Seq<u8>) -> Seq<u8> {
    frames_of(record_frame(s), st, data, MAX_CHUNK as nat)
}

/// Seals the next record of a session: `part` between filler.
fn write_one_record(cipher: &mut SnellCipher, profile: &Profile, chunk: &mut u64, part: &[u8]) -> (out:
    Result<Vec<u8>, SnellError>)
    requires
        *old(chunk) < u64::MAX,
        0 < part@.len() <= MAX_CHUNK,
    ensures
        ({
            let st = RecordState { cipher: old(cipher)@, chunk: *old(chunk) as nat };
            let end = RecordState { cipher: final(cipher)@, chunk: *final(chunk) as nat };
            &&& out is Ok
            &&& out->Ok_0@ == next_record(profile@, st, part@)
            &&& end == st.after_record()
            &&& read_all(record_step(profile@), st, out->Ok_0@) == Some((part@, end))
        }),
{
    let ghost st = RecordState { cipher: cipher@, chunk: *chunk as nat };
    let k: u64 = *chunk;
    let il: usize = profile.plan_interleave(k, part.len(), k == 0);
    let np: usize = profile.prefix_len(k);
    let mut prefix: Vec<u8> = vec![0u8; np];
    let mut junk: Vec<u8> = vec![0u8; il];
    profile.fill_filler(k, prefix.as_mut_slice());
    profile.fill_filler(k, junk.as_mut_slice());
    let rec: Vec<u8> = match seal_record_shaped(
        cipher,
        profile,
        k,
        part,
        prefix.as_slice(),
        junk.as_slice(),
    ) {
        Ok(r) => r,
        Err(e) => return Err(e),
    };
    *chunk = k + 1;
    proof {
        lemma_read_one(record_step(profile@), st, rec@, part@);
    }
    Ok(rec)
}

/// Cuts `data` into records with prefix and junk of filler. The bytes read back,
/// record by record, as `data`; empty data gives no bytes.
pub fn write_records(
    cipher: &mut SnellCipher,
    profile: &Profile,
    chunk: &mut u64,
    data: &[u8],
) -> (out: Result<Vec<u8>, SnellError>)
    requires
        *old(chunk) + frame_count(data@.len(), MAX_CHUNK as nat) <= u64::MAX,
    ensures
        ({
            let st = RecordState { cipher: old(cipher)@, chunk: *old(chunk) as nat };
            let end = RecordState { cipher: final(cipher)@, chunk: *final(chunk) as nat };
            &&& out is Ok
            &&& out->Ok_0@ == records_of(profile@, st, data@)
            &&& read_all(record_step(profile@), st, out->Ok_0@) == Some((data@, end))
            &&& end.chunk == st.chunk + frame_count(data@.len(), MAX_CHUNK as nat)
        }),
{
    let ghost st0 = RecordState { cipher: cipher@, chunk: *chunk as nat };
    let mut out: Vec<u8> = Vec::new();
    let mut pos: usize = 0;
    proof {
        lemma_write_start(
            record_frame(profile@),
            record_step(profile@),
            st0,
            data@,
            MAX_CHUNK as nat,
        );
        lemma_records_self_delimiting(profile@);
        assert(out@ =~= Seq::<u8>::empty());
    }
    while pos < data.len()
        invariant
            pos <= data@.len(),
            *chunk + frame_count((data@.len() - pos) as nat, MAX_CHUNK as nat) <= u64::MAX,
            *chunk + frame_count((data@.len() - pos) as nat, MAX_CHUNK as nat) == st0.chunk
                + frame_count(data@.len(), MAX_CHUNK as nat),
            self_delimiting(record_step(profile@)),
            written(
                record_frame(profile@),
                record_step(profile@),
                st0,
                (RecordState { cipher: cipher@, chunk: *chunk as nat }),
                data@,
                MAX_CHUNK as nat,
                pos as int,
                out@,
            ),
        decreases data@.len() - pos,
    {
        let n: usize = if data.len() - pos <= MAX_CHUNK {
            data.len() - pos
        } else {
            MAX_CHUNK
        };
        let ghost st = RecordState { cipher: cipher@, chunk: *chunk as nat };
        proof {
            lemma_frame_count_step((data@.len() - pos) as nat, n as nat, MAX_CHUNK as nat);
        }
        let part: &[u8] = slice_subrange(data, pos, pos + n);
        let rec: Vec<u8> = match write_one_record(cipher, profile, chunk, part) {
            Ok(r) => r,
            Err(e) => return Err(e),
        };
        proof {
            lemma_write_step(
                record_frame(profile@),
                record_step(profile@),
                st0,
                st,
                data@,
                MAX_CHUNK as nat,
                pos as int,
                n as int,
                out@,
                rec@,
            );
        }
        let ghost before = out@;
        out.extend_from_slice(rec.as_slice());
        assert(out@ =~= before + rec@);
        pos = pos + n;
    }
    proof {
        let st = RecordState { cipher: cipher@, chunk: *chunk as nat };
        lemma_frame_count_zero(MAX_CHUNK as nat);
        lemma_write_end(
            record_frame(profile@),
            record_step(profile@),
            st0,
            st,
            data@,
            MAX_CHUNK as nat,
            out@,
        );
    }
    Ok(out)
}

/// Wire bytes of the zero record that ends a session.
pub open spec fn zero_record(s: Seq<u64>, st: RecordState) -> Seq<u8> {
    let k = st.chunk as u64;
    let il = plan_interleave_of(s, k, 0, k == 0);
    let prefix = filler_of(s, k, prefix_len_of(s, k));
    prefix + sealed_header(st.cipher, prefix, il, 0) + filler_of(s, k, il)
}

/// The zero record that ends a session, junk included. It reads back as the end
/// of the session, and no byte of it is left over.
pub fn write_zero_record(cipher: &mut SnellCipher, profile: &Profile, chunk: &mut u64) -> (out:
    Result<Vec<u8>, SnellError>)
    requires
        *old(chunk) < u64::MAX,
    ensures
        ({
            let st = RecordState { cipher: old(cipher)@, chunk: *old(chunk) as nat };
            let end = RecordState { cipher: final(cipher)@, chunk: *final(chunk) as nat };
            &&& out is Ok
            &&& out->Ok_0@ == zero_record(profile@, st)
            &&& end == st.after_header()
            &&& read_record_of(profile@, st, out->Ok_0@) == (Step::<RecordState> {
                result: Ok(None),
                used: out->Ok_0@.len(),
                next: end,
            })
        }),
{
    let ghost st = RecordState { cipher: cipher@, chunk: *chunk as nat };
    let k: u64 = *chunk;
    let il: usize = profile.plan_interleave(k, 0, k == 0);
    let np: usize = profile.prefix_len(k);
    let mut prefix: Vec<u8> = vec![0u8; np];
    let mut junk: Vec<u8> = vec![0u8; il];
    profile.fill_filler(k, prefix.as_mut_slice());
    profile.fill_filler(k, junk.as_mut_slice());
    let header: Vec<u8> = match cipher.seal_zero_with_junk(prefix.as_slice(), il) {
        Ok(h) => h,
        Err(e) => return Err(e),
    };
    *chunk = k + 1;
    let mut out: Vec<u8> = Vec::new();
    out.extend_from_slice(prefix.as_slice());
    out.extend_from_slice(header.as_slice());
    out.extend_from_slice(junk.as_slice());
    proof {
        lemma_zero_record_reads_back(profile@, st, prefix@, header@, junk@);
        assert(out@ =~= prefix@ + header@ + junk@);
    }
    Ok(out)
}

/// The record that carries `part` as number `k` of a direction: a prefix of
/// filler, as long as `k` asks for, and junk of filler, as long as `k` and the
/// payload ask for; the sizing of the first record alone is that of a first
/// record.
pub proof fn lemma_next_record(s: Seq<u64>, st: RecordState, part: Seq<u8>)
    requires
        st.chunk <= u64::MAX,
    ensures
        ({
            let k = st.chunk as u64;
            let prefix = filler_of(s, k, prefix_len_of(s, k));
            let planned = if st.chunk == 0 {
                plan_interleave_of(s, 0, part.len(), true)
            } else {
                plan_interleave_of(s, k, part.len(), false)
            };
            next_record(s, st, part) == shaped_record(
                s,
                st.cipher,
                k,
                prefix,
                filler_of(s, k, planned),
                part,
            )
        }),
        record_frame(s)(st, part) == (next_record(s, st, part), st.after_record()),
{
}

/// The zero record as number `k` of a direction: a prefix of filler, a header that
/// announces no payload, and as much junk of filler as it announces.
pub proof fn lemma_zero_record(s: Seq<u64>, st: RecordState)
    requires
        st.chunk <= u64::MAX,
    ensures
        ({
            let k = st.chunk as u64;
            let prefix = filler_of(s, k, prefix_len_of(s, k));
            let planned = if st.chunk == 0 {
                plan_interleave_of(s, 0, 0, true)
            } else {
                plan_interleave_of(s, k, 0, false)
            };
            zero_record(s, st) == prefix + sealed_header(st.cipher, prefix, planned, 0) + filler_of(
                s,
                k,
                planned,
            )
        }),
{
}

} // verus!
