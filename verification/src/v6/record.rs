//! Shaped records.
//!
//! ```text
//! record(k) = prefix            prefix_len(k) bytes, bound to the header
//!             sealed header     23 bytes
//!             junk region       mixed with the payload ciphertext
//!             sealed payload    payload length + 16, bound to the junk
//! ```
//!
//! `k` counts the records of one direction. A zero record, which ends the
//! session, has no sealed payload.

use vstd::prelude::*;
use vstd::slice::{slice_subrange, slice_to_vec};
use crate::cipher::{CipherState, SnellCipher, HDR_CT_LEN, MAX_U16};
use crate::cipher::{after_open, opened_header, opens_to, sealed_chunk, sealed_header};
use crate::crypto::{gcm_open, gcm_seal, GCM_MAX};
use crate::error::SnellError;
use crate::stream::{self_delimiting, Step};
use super::mix::{lemma_mix_involution, mixed};
use super::profile::Profile;
use super::sizing::prefix_len_of;

verus! {

/// State of one direction of a shaped session.
#[verifier::ext_equal]
pub struct RecordState {
    pub cipher: CipherState,
    pub chunk: nat,
}

impl RecordState {
    /// The state behind one more record with payload.
    pub open spec fn after_record(self) -> RecordState {
        RecordState { cipher: self.cipher.after(2), chunk: self.chunk + 1 }
    }

    /// The state behind a zero record, or behind a header.
    pub open spec fn after_header(self) -> RecordState {
        RecordState { cipher: self.cipher.after(1), chunk: self.chunk + 1 }
    }
}

/// Wire bytes of record `k`.
pub open spec fn shaped_record(
    s: Seq<u64>,
    c: CipherState,
    k: u64,
    prefix: Seq<u8>,
    junk: Seq<u8>,
    payload: Seq<u8>,
) -> Seq<u8> {
    let ct = gcm_seal(c.key, c.nonce(1), junk, payload);
    prefix + sealed_header(c, prefix, junk.len(), payload.len()) + mixed(s, k, junk, ct) + mixed(
        s,
        k,
        ct,
        junk,
    )
}

/// Bytes in front of a record's body: the prefix and the sealed header.
pub open spec fn head_len_of(s: Seq<u64>, k: u64) -> nat {
    prefix_len_of(s, k) + HDR_CT_LEN as nat
}

/// Bytes of the body that a header announces: a zero record has only junk.
pub open spec fn body_len_of(junk_len: nat, payload_len: nat) -> nat {
    if payload_len == 0 {
        junk_len
    } else {
        junk_len + payload_len + 16
    }
}

/// Junk and payload length that the head of a record announces.
pub open spec fn opened_head(s: Seq<u64>, st: RecordState, head: Seq<u8>) -> Result<
    (usize, usize),
    SnellError,
> {
    let n = prefix_len_of(s, st.chunk as u64) as int;
    opened_header(st.cipher, head.take(n), head.skip(n))
}

/// The state after an attempt to open the head of a record.
pub open spec fn after_head(s: Seq<u64>, st: RecordState, head: Seq<u8>) -> RecordState {
    let n = prefix_len_of(s, st.chunk as u64) as int;
    RecordState {
        cipher: after_open(st.cipher, head.take(n), head.skip(n)),
        chunk: if opened_head(s, st, head) is Ok {
            st.chunk + 1
        } else {
            st.chunk
        },
    }
}

/// What the body of record `k` opens to with a cipher in state `c`.
pub open spec fn opened_body(
    s: Seq<u64>,
    c: CipherState,
    k: u64,
    junk_len: int,
    body: Seq<u8>,
) -> Option<Seq<u8>> {
    let j = body.take(junk_len);
    let ct = body.skip(junk_len);
    gcm_open(c.key, c.nonce(0), mixed(s, k, j, ct), mixed(s, k, ct, j))
}

/// The state after an attempt to open the body of record `k`.
pub open spec fn after_body(
    s: Seq<u64>,
    c: CipherState,
    k: u64,
    junk_len: int,
    body: Seq<u8>,
) -> CipherState {
    if opened_body(s, c, k, junk_len, body) is Some {
        c.after(1)
    } else {
        c
    }
}

/// Takes one record off the front of `input`.
pub open spec fn read_record_of(s: Seq<u64>, st: RecordState, input: Seq<u8>) -> Step<RecordState> {
    let k = st.chunk as u64;
    let n = head_len_of(s, k) as int;
    if input.len() < n {
        Step { result: Err(SnellError::Truncated), used: 0, next: st }
    } else {
        let head = input.take(n);
        let mid = after_head(s, st, head);
        match opened_head(s, st, head) {
            Err(e) => Step { result: Err(e), used: 0, next: mid },
            Ok((junk_len, payload_len)) => {
                let total = n + body_len_of(junk_len as nat, payload_len as nat);
                if input.len() < total {
                    Step { result: Err(SnellError::Truncated), used: 0, next: mid }
                } else if payload_len == 0 {
                    Step { result: Ok(None), used: total as nat, next: mid }
                } else {
                    let body = input.subrange(n, total);
                    let end = RecordState {
                        cipher: after_body(s, mid.cipher, k, junk_len as int, body),
                        chunk: mid.chunk,
                    };
                    match opened_body(s, mid.cipher, k, junk_len as int, body) {
                        Some(p) => Step { result: Ok(Some(p)), used: total as nat, next: end },
                        None => Step { result: Err(SnellError::PayloadAuth), used: 0, next: end },
                    }
                }
            },
        }
    }
}

/// The step of a reader with the profile of seeds `s`.
pub open spec fn record_step(s: Seq<u64>) -> spec_fn(RecordState, Seq<u8>) -> Step<RecordState> {
    |st: RecordState, input: Seq<u8>| read_record_of(s, st, input)
}

/// A record is read without looking past its end.
pub proof fn lemma_records_self_delimiting(s: Seq<u64>)
    ensures
        self_delimiting(record_step(s)),
{
    let step = record_step(s);
    assert forall|st: RecordState, a: Seq<u8>, b: Seq<u8>|
        #![trigger step(st, a + b)]
        (step(st, a).result is Ok && step(st, a).result->Ok_0 is Some) implies {
        &&& step(st, a + b) == step(st, a)
        &&& 0 < step(st, a).used <= a.len()
    } by {
        let k = st.chunk as u64;
        let n = head_len_of(s, k) as int;
        assert((a + b).take(n) =~= a.take(n));
        match opened_head(s, st, a.take(n)) {
            Ok((junk_len, payload_len)) => {
                let total = n + body_len_of(junk_len as nat, payload_len as nat);
                assert((a + b).subrange(n, total) =~= a.subrange(n, total));
            },
            Err(_) => {},
        }
    }
}

/// No front part of a record passes for a record: short of its last byte the
/// reader reports that the input ended.
pub proof fn lemma_incomplete_record_is_noticed(
    s: Seq<u64>,
    st: RecordState,
    input: Seq<u8>,
    m: int,
)
    requires
        read_record_of(s, st, input).result is Ok,
        0 <= m < read_record_of(s, st, input).used,
    ensures
        read_record_of(s, st, input.take(m)).result == Err::<Option<Seq<u8>>, SnellError>(
            SnellError::Truncated,
        ),
{
    let n = head_len_of(s, st.chunk as u64) as int;
    if m >= n {
        assert(input.take(m).take(n) =~= input.take(n));
    }
}

/// A record without junk is the plain chunk with the prefix in front.
pub proof fn lemma_empty_junk_is_plain(
    s: Seq<u64>,
    c: CipherState,
    k: u64,
    prefix: Seq<u8>,
    payload: Seq<u8>,
)
    ensures
        shaped_record(s, c, k, prefix, Seq::empty(), payload) == prefix + sealed_chunk(
            c,
            prefix,
            Seq::empty(),
            payload,
        ),
{
    let ct = gcm_seal(c.key, c.nonce(1), Seq::<u8>::empty(), payload);
    assert(mixed(s, k, Seq::<u8>::empty(), ct) =~= Seq::<u8>::empty());
    assert(mixed(s, k, ct, Seq::<u8>::empty()) =~= ct);
    assert(shaped_record(s, c, k, prefix, Seq::empty(), payload) =~= prefix + sealed_chunk(
        c,
        prefix,
        Seq::empty(),
        payload,
    ));
}

/// Whatever parts a record is put together from, if its header and its payload
/// ciphertext open under the cipher then the reader takes the record off the
/// stream and hands out the payload.
pub proof fn lemma_record_reads_back(
    s: Seq<u64>,
    st: RecordState,
    prefix: Seq<u8>,
    junk: Seq<u8>,
    payload: Seq<u8>,
    header: Seq<u8>,
    ct: Seq<u8>,
)
    requires
        prefix.len() == prefix_len_of(s, st.chunk as u64),
        0 < payload.len() <= MAX_U16,
        junk.len() <= MAX_U16,
        header.len() == HDR_CT_LEN,
        ct.len() == payload.len() + 16,
        opens_to(st.cipher, prefix, junk, payload, header, ct),
    ensures
        ({
            let k = st.chunk as u64;
            let wire = prefix + header + mixed(s, k, junk, ct) + mixed(s, k, ct, junk);
            read_record_of(s, st, wire) == (Step::<RecordState> {
                result: Ok(Some(payload)),
                used: wire.len(),
                next: st.after_record(),
            })
        }),
{
    let k = st.chunk as u64;
    let j1 = mixed(s, k, junk, ct);
    let c1 = mixed(s, k, ct, junk);
    let wire = prefix + header + j1 + c1;
    let n = head_len_of(s, k) as int;
    let np = prefix_len_of(s, k) as int;
    let head = wire.take(n);
    assert(head.take(np) =~= prefix);
    assert(head.skip(np) =~= header);
    let total = n + body_len_of(junk.len(), payload.len());
    assert(total == wire.len());
    let body = wire.subrange(n, total);
    assert(body.take(junk.len() as int) =~= j1);
    assert(body.skip(junk.len() as int) =~= c1);
    lemma_mix_involution(s, k, junk, ct);
}

/// A zero record with its junk behind it is taken off whole and ends the session.
pub proof fn lemma_zero_record_reads_back(
    s: Seq<u64>,
    st: RecordState,
    prefix: Seq<u8>,
    header: Seq<u8>,
    junk: Seq<u8>,
)
    requires
        prefix.len() == prefix_len_of(s, st.chunk as u64),
        junk.len() <= MAX_U16,
        header.len() == HDR_CT_LEN,
        opened_header(st.cipher, prefix, header) == Ok::<(usize, usize), SnellError>(
            (junk.len() as usize, 0),
        ),
        after_open(st.cipher, prefix, header) == st.cipher.after(1),
    ensures
        read_record_of(s, st, prefix + header + junk) == (Step::<RecordState> {
            result: Ok(None),
            used: (prefix + header + junk).len(),
            next: st.after_header(),
        }),
{
    let wire = prefix + header + junk;
    let n = head_len_of(s, st.chunk as u64) as int;
    let np = prefix_len_of(s, st.chunk as u64) as int;
    assert(wire.take(n).take(np) =~= prefix);
    assert(wire.take(n).skip(np) =~= header);
}

/// Why a record with these parts cannot be sealed.
pub open spec fn seal_refusal(prefix: Seq<u8>, junk: Seq<u8>, payload: Seq<u8>) -> Option<
    SnellError,
> {
    if payload.len() > MAX_U16 {
        Some(SnellError::PlaintextTooLarge { len: payload.len() as usize })
    } else if junk.len() > MAX_U16 {
        Some(SnellError::JunkTooLarge { len: junk.len() as usize })
    } else if prefix.len() > GCM_MAX {
        Some(SnellError::Seal)
    } else {
        None
    }
}

/// Seals one record without junk. The content of `prefix` is free; its length
/// must be that of the record index for a peer to read the record.
pub fn seal_record(cipher: &mut SnellCipher, plaintext: &[u8], prefix: &[u8]) -> (out: Result<
    Vec<u8>,
    SnellError,
>)
    ensures
        match out {
            Ok(wire) => {
                &&& seal_refusal(prefix@, Seq::empty(), plaintext@) is None
                &&& wire@ == prefix@ + sealed_chunk(
                    old(cipher)@,
                    prefix@,
                    Seq::empty(),
                    plaintext@,
                )
                &&& final(cipher)@ == old(cipher)@.after(2)
            },
            Err(e) => {
                &&& seal_refusal(prefix@, Seq::empty(), plaintext@) == Some(e)
                &&& final(cipher)@ == old(cipher)@
            },
        },
{
    let body: Vec<u8> = match cipher.seal_with_aad(plaintext, prefix) {
        Ok(b) => b,
        Err(e) => return Err(e),
    };
    let mut out: Vec<u8> = Vec::new();
    out.extend_from_slice(prefix);
    out.extend_from_slice(body.as_slice());
    assert(out@ =~= prefix@ + body@);
    Ok(out)
}

/// Seals record `chunk` with a junk region, mixed with the payload ciphertext.
/// A reader in the cipher's state takes it off the stream again, provided the
/// prefix has the length of the record index and the payload is not empty.
pub fn seal_record_shaped(
    cipher: &mut SnellCipher,
    profile: &Profile,
    chunk: u64,
    plaintext: &[u8],
    prefix: &[u8],
    junk: &[u8],
) -> (out: Result<Vec<u8>, SnellError>)
    ensures
        match out {
            Ok(wire) => {
                &&& seal_refusal(prefix@, junk@, plaintext@) is None
                &&& wire@ == shaped_record(
                    profile@,
                    old(cipher)@,
                    chunk,
                    prefix@,
                    junk@,
                    plaintext@,
                )
                &&& wire@.len() == prefix@.len() + HDR_CT_LEN + junk@.len() + plaintext@.len() + 16
                &&& final(cipher)@ == old(cipher)@.after(2)
                &&& prefix@.len() == prefix_len_of(profile@, chunk) && plaintext@.len() > 0
                    ==> read_record_of(
                    profile@,
                    (RecordState { cipher: old(cipher)@, chunk: chunk as nat }),
                    wire@,
                ) == (Step::<RecordState> {
                    result: Ok(Some(plaintext@)),
                    used: wire@.len(),
                    next: (RecordState { cipher: old(cipher)@, chunk: chunk as nat }).after_record(),
                })
            },
            Err(e) => {
                &&& seal_refusal(prefix@, junk@, plaintext@) == Some(e)
                &&& final(cipher)@ == old(cipher)@
            },
        },
{
    let ghost c0 = cipher@;
    let sealed: Vec<u8> = match cipher.seal_with_junk(plaintext, prefix, junk) {
        Ok(b) => b,
        Err(e) => return Err(e),
    };
    let header: &[u8] = slice_subrange(sealed.as_slice(), 0, HDR_CT_LEN);
    let mut region: Vec<u8> = slice_to_vec(junk);
    let mut ct: Vec<u8> = slice_to_vec(
        slice_subrange(sealed.as_slice(), HDR_CT_LEN + junk.len(), sealed.len()),
    );
    let ghost ct0 = ct@;
    proof {
        assert(ct0 =~= sealed@.skip(HDR_CT_LEN + junk@.len()));
        assert(header@ =~= sealed@.take(HDR_CT_LEN as int));
        lemma_parts_of_chunk(c0, prefix@, junk@, plaintext@, sealed@);
    }
    profile.mix(chunk, region.as_mut_slice(), ct.as_mut_slice());
    let mut out: Vec<u8> = Vec::new();
    out.extend_from_slice(prefix);
    out.extend_from_slice(header);
    out.extend_from_slice(region.as_slice());
    out.extend_from_slice(ct.as_slice());
    proof {
        let st = RecordState { cipher: c0, chunk: chunk as nat };
        if prefix@.len() == prefix_len_of(profile@, chunk) && plaintext@.len() > 0 {
            lemma_record_reads_back(profile@, st, prefix@, junk@, plaintext@, header@, ct0);
        }
        assert(out@ =~= prefix@ + header@ + mixed(profile@, chunk, junk@, ct0) + mixed(
            profile@,
            chunk,
            ct0,
            junk@,
        ));
    }
    Ok(out)
}

/// The parts of a sealed chunk found again by position.
proof fn lemma_parts_of_chunk(
    c: CipherState,
    prefix: Seq<u8>,
    junk: Seq<u8>,
    payload: Seq<u8>,
    wire: Seq<u8>,
)
    requires
        wire == sealed_chunk(c, prefix, junk, payload),
        wire.len() == HDR_CT_LEN + junk.len() + payload.len() + 16,
        sealed_header(c, prefix, junk.len(), payload.len()).len() == HDR_CT_LEN,
    ensures
        wire.take(HDR_CT_LEN as int) == sealed_header(c, prefix, junk.len(), payload.len()),
        wire.skip(HDR_CT_LEN + junk.len()) == gcm_seal(c.key, c.nonce(1), junk, payload),
{
    assert(wire.take(HDR_CT_LEN as int) =~= sealed_header(c, prefix, junk.len(), payload.len()));
    assert(wire.skip(HDR_CT_LEN + junk.len()) =~= gcm_seal(c.key, c.nonce(1), junk, payload));
}

/// Every record moves a direction on by one record; one with payload uses up two
/// nonces, one without uses up one.
pub proof fn lemma_record_states(st: RecordState)
    requires
        st.cipher.counter + 2 < 0x1_0000_0000_0000_0000_0000_0000,
    ensures
        st.after_record().chunk == st.chunk + 1,
        st.after_record().cipher.key == st.cipher.key,
        st.after_record().cipher.counter == st.cipher.counter + 2,
        st.after_header().chunk == st.chunk + 1,
        st.after_header().cipher.key == st.cipher.key,
        st.after_header().cipher.counter == st.cipher.counter + 1,
{
}

/// How long the pieces of a record are: the head is prefix and a header of 23
/// bytes; the body is the junk and, if there is a payload, the payload and a tag
/// of 16.
pub proof fn lemma_record_lengths(s: Seq<u64>, k: u64, junk_len: nat, payload_len: nat)
    ensures
        head_len_of(s, k) == prefix_len_of(s, k) + 23,
        payload_len == 0 ==> body_len_of(junk_len, payload_len) == junk_len,
        payload_len > 0 ==> body_len_of(junk_len, payload_len) == junk_len + payload_len + 16,
{
}

/// The parts of record `k` in their order: prefix, header bound to the prefix,
/// junk and payload ciphertext bound to the junk, with bytes exchanged between
/// those two. Header and payload are sealed under nonces in a row.
pub proof fn lemma_record_layout(
    s: Seq<u64>,
    c: CipherState,
    k: u64,
    prefix: Seq<u8>,
    junk: Seq<u8>,
    payload: Seq<u8>,
)
    requires
        junk.len() <= 0xffff,
        payload.len() <= 0xffff,
    ensures
        ({
            let header = gcm_seal(
                c.key,
                c.nonce(0),
                prefix,
                seq![
                    0x04u8,
                    0x00,
                    0x00,
                    (junk.len() / 256) as u8,
                    (junk.len() % 256) as u8,
                    (payload.len() / 256) as u8,
                    (payload.len() % 256) as u8,
                ],
            );
            let ct = gcm_seal(c.key, c.after(1).nonce(0), junk, payload);
            shaped_record(s, c, k, prefix, junk, payload) == prefix + header + mixed(
                s,
                k,
                junk,
                ct,
            ) + mixed(s, k, ct, junk)
        }),
{
    crate::cipher::lemma_two_steps(c);
    crate::cipher::lemma_header_layout(junk.len(), payload.len());
}

/// What a reader makes of a record that is cut off or forged. A forged part uses
/// up no nonce, and a forged head does not count as a record.
pub proof fn lemma_broken_records(s: Seq<u64>, st: RecordState, input: Seq<u8>)
    requires
        st.chunk <= u64::MAX,
    ensures
        ({
            let k = st.chunk as u64;
            let np = prefix_len_of(s, k) as int;
            let step = read_record_of(s, st, input);
            &&& input.len() < np + 23 ==> step.result == Err::<Option<Seq<u8>>, SnellError>(
                SnellError::Truncated,
            ) && step.next == st
            &&& input.len() >= np + 23 ==> match gcm_open(
                st.cipher.key,
                st.cipher.nonce(0),
                input.take(np),
                input.subrange(np, np + 23),
            ) {
                None => step.result == Err::<Option<Seq<u8>>, SnellError>(SnellError::HeaderAuth)
                    && step.next == st,
                Some(h) => {
                    let junk = h[3] * 256 + h[4];
                    let len = h[5] * 256 + h[6];
                    &&& h[0] != 4 ==> step.result == Err::<Option<Seq<u8>>, SnellError>(
                        (SnellError::HeaderType { type_byte: h[0] }),
                    ) && step.next.chunk == st.chunk
                    &&& h[0] == 4 ==> step.next.chunk == st.chunk + 1
                    &&& h[0] == 4 && len == 0 && input.len() < np + 23 + junk ==> step.result
                        == Err::<Option<Seq<u8>>, SnellError>(SnellError::Truncated)
                    &&& h[0] == 4 && len == 0 && input.len() >= np + 23 + junk ==> step.result
                        == Ok::<Option<Seq<u8>>, SnellError>(None) && step.used == np + 23 + junk
                    &&& h[0] == 4 && len > 0 && input.len() < np + 39 + junk + len ==> step.result
                        == Err::<Option<Seq<u8>>, SnellError>(SnellError::Truncated)
                    &&& step.result matches Ok(Some(p)) ==> step.used == np + 39 + junk + len
                },
            }
        }),
{
    let np = prefix_len_of(s, st.chunk as u64) as int;
    if input.len() >= np + 23 {
        let head = input.take(np + 23);
        assert(head.take(np) =~= input.take(np));
        assert(head.skip(np) =~= input.subrange(np, np + 23));
    }
}

/// What cannot be sealed, and why: a payload or a junk region beyond 65535 bytes,
/// in this order.
pub proof fn lemma_refused_records(prefix: Seq<u8>, junk: Seq<u8>, payload: Seq<u8>)
    requires
        prefix.len() <= 0xffff,
        junk.len() <= usize::MAX,
        payload.len() <= usize::MAX,
    ensures
        payload.len() > 65535 ==> seal_refusal(prefix, junk, payload) == Some(
            (SnellError::PlaintextTooLarge { len: payload.len() as usize }),
        ),
        payload.len() <= 65535 && junk.len() > 65535 ==> seal_refusal(prefix, junk, payload)
            == Some((SnellError::JunkTooLarge { len: junk.len() as usize })),
        payload.len() <= 65535 && junk.len() <= 65535 ==> seal_refusal(
            prefix,
            junk,
            payload,
        ) is None,
{
}

} // verus!
