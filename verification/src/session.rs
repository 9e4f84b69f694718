//! Both directions of a session, in any mode.
//!
//! The shaped mode sends records, the unshaped mode plain chunks, the raw mode
//! plaintext frames. A reader gets a frame in two pieces: a head of known
//! length, then a body whose length the head tells.

use vstd::prelude::*;
use vstd::slice::{slice_subrange, slice_to_vec};
use crate::bytes::to_array;
use crate::cipher::{after_open, fresh_cipher, key_material, opened_header, sealed_header};
use crate::cipher::{lemma_header_layout, sealed_chunk, CipherState, SnellCipher, HDR_CT_LEN};
use crate::crypto::{argon2_takes, gcm_open, gcm_seal, ARGON2_MAX_LEN};
use crate::error::SnellError;
use crate::interleave::{lemma_unswap_undoes_swap, swapped, unswapped};
use crate::obfs::{accept_salt, disguise_in, fresh_handshake_salt, Obfs};
use crate::relay::{copy_t2c_adaptive, lemma_relayed_chunks, relayed, AdaptiveSizer, RelayStep};
use crate::salt_cache::SaltCache;
use crate::snell::{chunk_cap, chunk_frame, chunk_step, chunks_of, open_chunk_body};
use crate::snell::{read_chunk_of, write_chunk};
use crate::stream::{frame_count, frames_of, lemma_cutting, read_all, MAX_CHUNK};
use crate::v6::filler::filler_of;
use crate::v6::frame::{carried_salt, carries_salt, frame_len_of, lemma_first_frame_round_trip};
use crate::v6::io::{open_record_body, open_record_head, record_head_len, records_of, RecordHead};
use crate::v6::io::{next_record, record_frame, write_records, write_zero_record, zero_record};
use crate::v6::mix::mixed;
use crate::v6::mode::Mode;
use crate::v6::profile::Profile;
use crate::v6::record::{after_body, after_head, body_len_of, head_len_of, opened_body, opened_head};
use crate::v6::record::{read_record_of, record_step, RecordState};
use crate::v6::sizing::prefix_len_of;
use crate::v6::unsafe_raw::{parse_raw_header, raw_frame, raw_frames, raw_header, raw_step};
use crate::v6::unsafe_raw::{lemma_raw_layout, write_unsafe_raw, write_unsafe_raw_zero};

verus! {

/// The chunk number under which the filler of the first frame is drawn.
pub const FIRST_FRAME_CHUNK: u64 = 0xffff_ffff;

/// Bytes in front of the first frame of a direction.
pub open spec fn handshake_len_of(mode: Mode, s: Seq<u64>) -> nat {
    match mode {
        Mode::Default => frame_len_of(s),
        Mode::Unshaped => 16,
        Mode::UnsafeRaw => 0,
    }
}

/// Bytes to read in front of the first frame of a direction.
pub fn handshake_len(mode: Mode, profile: &Profile) -> (n: usize)
    ensures
        n == handshake_len_of(mode, profile@),
{
    match mode {
        Mode::Default => profile.frame_len(),
        Mode::Unshaped => 16,
        Mode::UnsafeRaw => 0,
    }
}

/// The salt that the handshake bytes of a direction carry; `None` in the raw
/// mode, which has none.
pub open spec fn handshake_salt_of(mode: Mode, s: Seq<u64>, wire: Seq<u8>) -> Option<Seq<u8>> {
    match mode {
        Mode::Default => Some(carried_salt(s, wire)),
        Mode::Unshaped => Some(wire),
        Mode::UnsafeRaw => None,
    }
}

/// The bytes of a first frame in which no salt byte stands: filler.
pub open spec fn first_frame_base(s: Seq<u64>) -> Seq<u8> {
    filler_of(s, FIRST_FRAME_CHUNK, frame_len_of(s))
}

/// Bytes that carry `data` in a direction.
pub open spec fn sent_by(st: SessionState, data: Seq<u8>) -> Seq<u8> {
    match st {
        SessionState::Shaped { seeds, at } => records_of(seeds, at, data),
        SessionState::Unshaped { cipher } => chunks_of(cipher, data, MAX_CHUNK as nat),
        SessionState::Raw => frames_of(raw_frames(), (), data, MAX_CHUNK as nat),
    }
}

/// Bytes that end a direction.
pub open spec fn ending_of(st: SessionState) -> Seq<u8> {
    match st {
        SessionState::Shaped { seeds, at } => zero_record(seeds, at),
        SessionState::Unshaped { cipher } => sealed_header(cipher, Seq::empty(), 0, 0),
        SessionState::Raw => raw_frame(Seq::empty()),
    }
}

/// Announces `salt` at the start of a direction. The other side reads it back.
pub fn handshake_bytes(mode: Mode, profile: &Profile, salt: &[u8; 16]) -> (out: Vec<u8>)
    ensures
        out@.len() == handshake_len_of(mode, profile@),
        mode is Default ==> carries_salt(profile@, salt@, first_frame_base(profile@), out@),
        handshake_salt_of(mode, profile@, out@) == match mode {
            Mode::UnsafeRaw => None,
            _ => Some(salt@),
        },
{
    match mode {
        Mode::Default => {
            let n: usize = profile.frame_len();
            let mut filler: Vec<u8> = vec![0u8; n];
            profile.fill_filler(FIRST_FRAME_CHUNK, filler.as_mut_slice());
            match profile.encode_first_frame(salt, Some(filler.as_slice())) {
                Ok(wire) => {
                    proof {
                        lemma_first_frame_round_trip(profile@, salt@, filler@, wire@);
                    }
                    wire
                },
                Err(_) => filler,
            }
        },
        Mode::Unshaped => slice_to_vec(salt.as_slice()),
        Mode::UnsafeRaw => Vec::new(),
    }
}

/// Reads the salt off the start of a direction.
pub fn read_handshake(mode: Mode, profile: &Profile, wire: &[u8]) -> (out: Result<
    Option<[u8; 16]>,
    SnellError,
>)
    ensures
        if wire@.len() == handshake_len_of(mode, profile@) {
            &&& out is Ok
            &&& match handshake_salt_of(mode, profile@, wire@) {
                Some(salt) => out->Ok_0 is Some && out->Ok_0->Some_0@ == salt,
                None => out->Ok_0 is None,
            }
        } else {
            out is Err && out->Err_0 == (SnellError::FrameLength {
                found: wire.len(),
                expected: handshake_len_of(mode, profile@) as usize,
            })
        },
{
    let n: usize = handshake_len(mode, profile);
    if wire.len() != n {
        return Err(SnellError::FrameLength { found: wire.len(), expected: n });
    }
    match mode {
        Mode::Default => match profile.decode_first_frame(wire) {
            Ok(salt) => Ok(Some(salt)),
            Err(e) => Err(e),
        },
        Mode::Unshaped => Ok(Some(to_array::<16>(wire))),
        Mode::UnsafeRaw => Ok(None),
    }
}

/// State of one direction.
#[verifier::ext_equal]
pub enum SessionState {
    Shaped { seeds: Seq<u64>, at: RecordState },
    Unshaped { cipher: CipherState },
    Raw,
}

/// One direction of a session, at either end.
pub enum Session {
    Shaped { cipher: SnellCipher, profile: Profile, chunk: u64 },
    Unshaped { cipher: SnellCipher },
    Raw,
}

impl View for Session {
    type V = SessionState;

    open spec fn view(&self) -> SessionState {
        match self {
            Session::Shaped { cipher, profile, chunk } => SessionState::Shaped {
                seeds: profile@,
                at: RecordState { cipher: cipher@, chunk: *chunk as nat },
            },
            Session::Unshaped { cipher } => SessionState::Unshaped { cipher: cipher@ },
            Session::Raw => SessionState::Raw,
        }
    }
}

/// A direction in `mode` at its start.
pub open spec fn started(mode: Mode, seeds: Seq<u64>, cipher: CipherState) -> SessionState {
    match mode {
        Mode::Default => SessionState::Shaped { seeds, at: RecordState { cipher, chunk: 0 } },
        Mode::Unshaped => SessionState::Unshaped { cipher },
        Mode::UnsafeRaw => SessionState::Raw,
    }
}

/// The direction that the handshake bytes `wire` open under a pre-shared key, as
/// both its ends have it.
pub open spec fn direction_of(
    mode: Mode,
    seeds: Seq<u64>,
    psk: Seq<u8>,
    wire: Seq<u8>,
) -> SessionState {
    match handshake_salt_of(mode, seeds, wire) {
        Some(salt) => started(mode, seeds, fresh_cipher(key_material(psk, salt))),
        None => SessionState::Raw,
    }
}

/// Opens a direction from its writing end: the bytes that announce it and its
/// session. They carry a salt, drawn afresh, and the session goes on with the
/// cipher of that salt, which is all the reading end needs to follow. No server
/// takes the first of them for a disguise.
///
/// Nothing is said of how the salt is distributed: that is up to chance.
pub fn open_upward(mode: Mode, profile: &Profile, psk: &[u8]) -> (out: Result<
    (Vec<u8>, Session),
    SnellError,
>)
    ensures
        match out {
            Ok((wire, session)) => {
                &&& wire@.len() == handshake_len_of(mode, profile@)
                &&& wire@.len() > 0 ==> disguise_in(mode, wire@[0]) == Obfs::Plain
                &&& mode is Default ==> carries_salt(
                    profile@,
                    carried_salt(profile@, wire@),
                    first_frame_base(profile@),
                    wire@,
                )
                &&& handshake_salt_of(mode, profile@, wire@) matches Some(salt) ==> argon2_takes(
                    psk@,
                    salt,
                )
                &&& session@ == direction_of(mode, profile@, psk@, wire@)
            },
            Err(e) => {
                &&& mode !is UnsafeRaw
                &&& psk@.len() > ARGON2_MAX_LEN
                &&& e == SnellError::KeyDerivation
            },
        },
{
    if mode == Mode::UnsafeRaw {
        return Ok((Vec::new(), Session::Raw));
    }
    match fresh_handshake_salt(psk) {
        Ok((salt, cipher)) => {
            let wire: Vec<u8> = handshake_bytes(mode, profile, &salt);
            match Session::new(mode, profile, Some(cipher)) {
                Ok(session) => Ok((wire, session)),
                Err(e) => Err(e),
            }
        },
        Err(e) => Err(e),
    }
}

/// Opens a direction from its reading end, by the handshake bytes that came in.
pub fn open_downward(mode: Mode, profile: &Profile, psk: &[u8], wire: &[u8]) -> (out: Result<
    Session,
    SnellError,
>)
    ensures
        if wire@.len() != handshake_len_of(mode, profile@) {
            out is Err && out->Err_0 == (SnellError::FrameLength {
                found: wire.len(),
                expected: handshake_len_of(mode, profile@) as usize,
            })
        } else if handshake_salt_of(mode, profile@, wire@) matches Some(salt) && !argon2_takes(
            psk@,
            salt,
        ) {
            out is Err && out->Err_0 == SnellError::KeyDerivation
        } else {
            out is Ok && out->Ok_0@ == direction_of(mode, profile@, psk@, wire@)
        },
{
    match read_handshake(mode, profile, wire) {
        Ok(Some(salt)) => match SnellCipher::new(psk, salt.as_slice()) {
            Ok(cipher) => Session::new(mode, profile, Some(cipher)),
            Err(e) => Err(e),
        },
        Ok(None) => Session::new(mode, profile, None),
        Err(e) => Err(e),
    }
}

/// Opens a direction from its reading end at time `now`, unless its salt was seen
/// before. A session without a salt leaves the cache alone.
pub fn accept_upward(
    salts: &mut SaltCache,
    mode: Mode,
    profile: &Profile,
    psk: &[u8],
    wire: &[u8],
    now: u64,
) -> (out: Result<Session, SnellError>)
    requires
        old(salts)@.wf(),
    ensures
        final(salts)@.wf(),
        if wire@.len() != handshake_len_of(mode, profile@) {
            &&& final(salts)@ == old(salts)@
            &&& out is Err && out->Err_0 == (SnellError::FrameLength {
                found: wire.len(),
                expected: handshake_len_of(mode, profile@) as usize,
            })
        } else {
            match handshake_salt_of(mode, profile@, wire@) {
                Some(salt) => {
                    &&& final(salts)@ == old(salts)@.after_check(salt, now)
                    &&& if old(salts)@.is_replay(salt, now) {
                        out is Err && out->Err_0 == SnellError::SaltReplay
                    } else if !argon2_takes(psk@, salt) {
                        out is Err && out->Err_0 == SnellError::KeyDerivation
                    } else {
                        out is Ok && out->Ok_0@ == direction_of(mode, profile@, psk@, wire@)
                    }
                },
                None => {
                    &&& final(salts)@ == old(salts)@
                    &&& out is Ok && out->Ok_0@ is Raw
                },
            }
        },
{
    match read_handshake(mode, profile, wire) {
        Ok(Some(salt)) => match accept_salt(salts, psk, &salt, now) {
            Ok(cipher) => Session::new(mode, profile, Some(cipher)),
            Err(e) => Err(e),
        },
        Ok(None) => Session::new(mode, profile, None),
        Err(e) => Err(e),
    }
}

/// What the head of a frame announces.
#[derive(Clone, Copy, PartialEq, Eq, Structural, Debug)]
pub struct FrameHead {
    /// Number of the frame; 0 where frames are not numbered.
    pub chunk: u64,
    pub junk_len: usize,
    /// 0 ends the session.
    pub payload_len: usize,
}

impl FrameHead {
    /// Lengths that fit a header.
    pub open spec fn wf(self) -> bool {
        self.junk_len <= 0xffff && self.payload_len <= 0xffff
    }
}

/// Bytes of the head of the next frame.
pub open spec fn frame_head_len(s: SessionState) -> nat {
    match s {
        SessionState::Shaped { seeds, at } => head_len_of(seeds, at.chunk as u64),
        SessionState::Unshaped { cipher } => HDR_CT_LEN as nat,
        SessionState::Raw => 5,
    }
}

/// What the head of the next frame announces.
pub open spec fn head_of(st: SessionState, head: Seq<u8>) -> Result<FrameHead, SnellError> {
    match st {
        SessionState::Shaped { seeds, at } => if at.chunk == u64::MAX {
            Err(SnellError::Exhausted)
        } else {
            match opened_head(seeds, at, head) {
                Ok((junk_len, payload_len)) => Ok(
                    FrameHead { chunk: at.chunk as u64, junk_len, payload_len },
                ),
                Err(e) => Err(e),
            }
        },
        SessionState::Unshaped { cipher } => match opened_header(cipher, Seq::empty(), head) {
            Ok((junk_len, payload_len)) => Ok(FrameHead { chunk: 0, junk_len, payload_len }),
            Err(e) => Err(e),
        },
        SessionState::Raw => match raw_header(head) {
            Ok(Some((junk_len, payload_len))) => Ok(FrameHead { chunk: 0, junk_len, payload_len }),
            Ok(None) => Ok(FrameHead { chunk: 0, junk_len: 0, payload_len: 0 }),
            Err(e) => Err(e),
        },
    }
}

/// What the body behind a head holds; `None` for the end of the session.
pub open spec fn body_of(st: SessionState, h: FrameHead, body: Seq<u8>) -> Result<
    Option<Seq<u8>>,
    SnellError,
> {
    if h.payload_len == 0 {
        Ok(None)
    } else {
        let opened = match st {
            SessionState::Shaped { seeds, at } => opened_body(
                seeds,
                at.cipher,
                h.chunk,
                h.junk_len as int,
                body,
            ),
            SessionState::Unshaped { cipher } => gcm_open(
                cipher.key,
                cipher.nonce(0),
                Seq::empty(),
                unswapped(body, h.junk_len as int),
            ),
            SessionState::Raw => Some(body.skip(h.junk_len as int)),
        };
        match opened {
            Some(p) => Ok(Some(p)),
            None => Err(SnellError::PayloadAuth),
        }
    }
}

/// What one turn of a relay sends: `data`, or the end if there is none. Plain
/// chunks are kept to the size asked for.
pub open spec fn relayed_by(st: SessionState, size: usize, data: Seq<u8>) -> Seq<u8> {
    if data.len() == 0 {
        ending_of(st)
    } else {
        match st {
            SessionState::Unshaped { cipher } => relayed(cipher, size, data),
            _ => sent_by(st, data),
        }
    }
}

/// Bytes of the body behind a head.
pub open spec fn frame_body_len(s: SessionState, h: FrameHead) -> nat {
    match s {
        SessionState::Shaped { seeds, at } => body_len_of(h.junk_len as nat, h.payload_len as nat),
        SessionState::Unshaped { cipher } => if h.payload_len == 0 {
            0
        } else {
            (h.junk_len + h.payload_len + 16) as nat
        },
        SessionState::Raw => if h.payload_len == 0 {
            0
        } else {
            (h.junk_len + h.payload_len) as nat
        },
    }
}

/// A reader that opens a record in two pieces gets what the record holds: the
/// head tells how long the body is, and the body opens to the payload.
pub proof fn lemma_record_pieces(seeds: Seq<u64>, at: RecordState, input: Seq<u8>, p: Seq<u8>)
    requires
        read_record_of(seeds, at, input).result == Ok::<Option<Seq<u8>>, SnellError>(Some(p)),
    ensures
        ({
            let st = SessionState::Shaped { seeds, at };
            let n = frame_head_len(st) as int;
            let head = input.take(n);
            let mid = after_head(seeds, at, head);
            let used = read_record_of(seeds, at, input).used as int;
            &&& n <= input.len()
            &&& opened_head(seeds, at, head) is Ok
            &&& ({
                let (junk_len, payload_len) = opened_head(seeds, at, head)->Ok_0;
                let h = FrameHead { chunk: at.chunk as u64, junk_len, payload_len };
                let body = input.subrange(n, used);
                &&& payload_len > 0
                &&& frame_body_len(st, h) == used - n
                &&& opened_body(seeds, mid.cipher, h.chunk, junk_len as int, body) == Some(p)
            })
        }),
{
}

/// A reader that opens a plain chunk in two pieces gets what the chunk holds.
pub proof fn lemma_chunk_pieces(cipher: CipherState, input: Seq<u8>, p: Seq<u8>)
    requires
        read_chunk_of(cipher, input).result == Ok::<Option<Seq<u8>>, SnellError>(Some(p)),
    ensures
        ({
            let st = SessionState::Unshaped { cipher };
            let n = frame_head_len(st) as int;
            let head = input.take(n);
            let mid = after_open(cipher, Seq::empty(), head);
            let used = read_chunk_of(cipher, input).used as int;
            &&& n <= input.len()
            &&& opened_header(cipher, Seq::empty(), head) is Ok
            &&& ({
                let (junk_len, payload_len) = opened_header(cipher, Seq::empty(), head)->Ok_0;
                let h = FrameHead { chunk: 0, junk_len, payload_len };
                let ct = unswapped(input.subrange(n, used), junk_len as int);
                &&& payload_len > 0
                &&& frame_body_len(st, h) == used - n
                &&& gcm_open(mid.key, mid.nonce(0), Seq::empty(), ct) == Some(p)
            })
        }),
{
}

impl Session {
    /// One direction of a session in `mode`, at its start. The raw mode has no use
    /// for a cipher; without one the other modes have no session.
    pub fn new(mode: Mode, profile: &Profile, cipher: Option<SnellCipher>) -> (out: Result<
        Session,
        SnellError,
    >)
        ensures
            match mode {
                Mode::Default => match cipher {
                    Some(c) => out is Ok && out->Ok_0@ == started(mode, profile@, c@),
                    None => out is Err && out->Err_0 == SnellError::MissingCipher,
                },
                Mode::Unshaped => match cipher {
                    Some(c) => out is Ok && out->Ok_0@ == started(mode, profile@, c@),
                    None => out is Err && out->Err_0 == SnellError::MissingCipher,
                },
                Mode::UnsafeRaw => out is Ok && out->Ok_0@ is Raw,
            },
    {
        match (mode, cipher) {
            (Mode::Default, Some(cipher)) => Ok(
                Session::Shaped { cipher, profile: *profile, chunk: 0 },
            ),
            (Mode::Unshaped, Some(cipher)) => Ok(Session::Unshaped { cipher }),
            (Mode::UnsafeRaw, _) => Ok(Session::Raw),
            _ => Err(SnellError::MissingCipher),
        }
    }

    /// Bytes that carry `data`, in as many frames as it takes. They read back,
    /// frame by frame, as `data`.
    pub fn send(&mut self, data: &[u8]) -> (out: Result<Vec<u8>, SnellError>)
        ensures
            out is Ok ==> out->Ok_0@ == sent_by(old(self)@, data@),
            match old(self)@ {
                SessionState::Shaped { seeds, at } => if at.chunk + frame_count(
                    data@.len(),
                    MAX_CHUNK as nat,
                ) > u64::MAX {
                    &&& out is Err && out->Err_0 == SnellError::Exhausted
                    &&& final(self)@ == old(self)@
                } else {
                    &&& out is Ok
                    &&& out->Ok_0@ == records_of(seeds, at, data@)
                    &&& final(self)@ is Shaped
                    &&& final(self)@->seeds == seeds
                    &&& read_all(record_step(seeds), at, out->Ok_0@) == Some(
                        (data@, final(self)@->at),
                    )
                },
                SessionState::Unshaped { cipher } => {
                    &&& out is Ok
                    &&& out->Ok_0@ == chunks_of(cipher, data@, MAX_CHUNK as nat)
                    &&& final(self)@ is Unshaped
                    &&& read_all(chunk_step(), cipher, out->Ok_0@) == Some(
                        (data@, final(self)@->cipher),
                    )
                },
                SessionState::Raw => {
                    &&& out is Ok
                    &&& out->Ok_0@ == frames_of(raw_frames(), (), data@, MAX_CHUNK as nat)
                    &&& final(self)@ is Raw
                    &&& read_all(raw_step(), (), out->Ok_0@) == Some((data@, ()))
                },
            },
    {
        match self {
            Session::Shaped { cipher, profile, chunk } => {
                let mut frames: u64 = (data.len() / MAX_CHUNK) as u64;
                if data.len() % MAX_CHUNK != 0 {
                    frames = frames + 1;
                }
                assert(frames == frame_count(data@.len(), MAX_CHUNK as nat));
                if frames > u64::MAX - *chunk {
                    return Err(SnellError::Exhausted);
                }
                write_records(cipher, profile, chunk, data)
            },
            Session::Unshaped { cipher } => write_chunk(cipher, data),
            Session::Raw => Ok(write_unsafe_raw(data)),
        }
    }

    /// Bytes that end the session.
    pub fn finish(&mut self) -> (out: Result<Vec<u8>, SnellError>)
        ensures
            out is Ok ==> out->Ok_0@ == ending_of(old(self)@),
            match old(self)@ {
                SessionState::Shaped { seeds, at } => if at.chunk == u64::MAX {
                    &&& out is Err && out->Err_0 == SnellError::Exhausted
                    &&& final(self)@ == old(self)@
                } else {
                    &&& out is Ok
                    &&& out->Ok_0@ == zero_record(seeds, at)
                    &&& final(self)@ == (SessionState::Shaped { seeds, at: at.after_header() })
                },
                SessionState::Unshaped { cipher } => {
                    &&& out is Ok
                    &&& out->Ok_0@ == sealed_header(cipher, Seq::empty(), 0, 0)
                    &&& final(self)@ == (SessionState::Unshaped { cipher: cipher.after(1) })
                },
                SessionState::Raw => {
                    &&& out is Ok
                    &&& out->Ok_0@ == raw_frame(Seq::empty())
                    &&& final(self)@ is Raw
                },
            },
    {
        match self {
            Session::Shaped { cipher, profile, chunk } => {
                if *chunk == u64::MAX {
                    return Err(SnellError::Exhausted);
                }
                write_zero_record(cipher, profile, chunk)
            },
            Session::Unshaped { cipher } => cipher.seal_zero(),
            Session::Raw => Ok(write_unsafe_raw_zero()),
        }
    }

    /// Bytes of the head of the next frame.
    pub fn head_len(&self) -> (n: usize)
        ensures
            n == frame_head_len(self@),
    {
        match self {
            Session::Shaped { cipher: _, profile, chunk } => record_head_len(profile, *chunk),
            Session::Unshaped { cipher: _ } => HDR_CT_LEN,
            Session::Raw => 5,
        }
    }

    /// Whether an input that ends in front of a frame ends the session in good
    /// order: only the raw mode has no authenticated end to wait for.
    pub fn end_of_input_ends(&self) -> (r: bool)
        ensures
            r == (self@ is Raw),
    {
        match self {
            Session::Raw => true,
            _ => false,
        }
    }

    /// Opens the head of the next frame.
    pub fn open_head(&mut self, head: &[u8]) -> (out: Result<FrameHead, SnellError>)
        requires
            head@.len() == frame_head_len(old(self)@),
        ensures
            out is Ok ==> out->Ok_0.wf(),
            out == head_of(old(self)@, head@),
            match old(self)@ {
                SessionState::Shaped { seeds, at } => if at.chunk == u64::MAX {
                    &&& out is Err && out->Err_0 == SnellError::Exhausted
                    &&& final(self)@ == old(self)@
                } else {
                    &&& out == match opened_head(seeds, at, head@) {
                        Ok((junk_len, payload_len)) => Ok::<FrameHead, SnellError>(
                            (FrameHead { chunk: at.chunk as u64, junk_len, payload_len }),
                        ),
                        Err(e) => Err(e),
                    }
                    &&& final(self)@ == (SessionState::Shaped {
                        seeds,
                        at: after_head(seeds, at, head@),
                    })
                },
                SessionState::Unshaped { cipher } => {
                    &&& out == match opened_header(cipher, Seq::empty(), head@) {
                        Ok((junk_len, payload_len)) => Ok::<FrameHead, SnellError>(
                            (FrameHead { chunk: 0, junk_len, payload_len }),
                        ),
                        Err(e) => Err(e),
                    }
                    &&& final(self)@ == (SessionState::Unshaped {
                        cipher: after_open(cipher, Seq::empty(), head@),
                    })
                },
                SessionState::Raw => {
                    &&& out == match raw_header(head@) {
                        Ok(Some((junk_len, payload_len))) => Ok::<FrameHead, SnellError>(
                            (FrameHead { chunk: 0, junk_len, payload_len }),
                        ),
                        Ok(None) => Ok((FrameHead { chunk: 0, junk_len: 0, payload_len: 0 })),
                        Err(e) => Err(e),
                    }
                    &&& final(self)@ is Raw
                },
            },
    {
        match self {
            Session::Shaped { cipher, profile, chunk } => {
                if *chunk == u64::MAX {
                    return Err(SnellError::Exhausted);
                }
                match open_record_head(head, cipher, profile, chunk) {
                    Ok(h) => Ok(
                        FrameHead {
                            chunk: h.chunk,
                            junk_len: h.junk_len,
                            payload_len: h.payload_len,
                        },
                    ),
                    Err(e) => Err(e),
                }
            },
            Session::Unshaped { cipher } => {
                let hdr: [u8; 23] = to_array::<23>(head);
                let none: [u8; 0] = [];
                assert(none@ =~= Seq::<u8>::empty());
                match cipher.open_header_raw_with_aad(&hdr, none.as_slice()) {
                    Ok((junk_len, payload_len)) => Ok(
                        FrameHead { chunk: 0, junk_len, payload_len },
                    ),
                    Err(e) => Err(e),
                }
            },
            Session::Raw => {
                let hdr: [u8; 5] = to_array::<5>(head);
                match parse_raw_header(&hdr) {
                    Ok(Some((junk_len, payload_len))) => Ok(
                        FrameHead { chunk: 0, junk_len, payload_len },
                    ),
                    Ok(None) => Ok(FrameHead { chunk: 0, junk_len: 0, payload_len: 0 }),
                    Err(e) => Err(e),
                }
            },
        }
    }

    /// Bytes of the body behind a head.
    pub fn body_len(&self, head: &FrameHead) -> (n: usize)
        requires
            head.wf(),
        ensures
            n == frame_body_len(self@, *head),
    {
        match self {
            Session::Shaped { .. } => if head.payload_len == 0 {
                head.junk_len
            } else {
                head.junk_len + head.payload_len + 16
            },
            Session::Unshaped { cipher: _ } => if head.payload_len == 0 {
                0
            } else {
                head.junk_len + head.payload_len + 16
            },
            Session::Raw => if head.payload_len == 0 {
                0
            } else {
                head.junk_len + head.payload_len
            },
        }
    }

    /// Opens the body of a frame whose head was opened: its payload, or `None`
    /// for the end of the session.
    pub fn open_body(&mut self, head: &FrameHead, body: &[u8]) -> (out: Result<
        Option<Vec<u8>>,
        SnellError,
    >)
        requires
            head.wf(),
            body@.len() == frame_body_len(old(self)@, *head),
        ensures
            match body_of(old(self)@, *head, body@) {
                Ok(Some(p)) => out is Ok && out->Ok_0 is Some && out->Ok_0->Some_0@ == p,
                Ok(None) => out is Ok && out->Ok_0 is None,
                Err(e) => out is Err && out->Err_0 == e,
            },
            head.payload_len == 0 ==> out is Ok && out->Ok_0 is None && final(self)@ == old(self)@,
            head.payload_len > 0 ==> match old(self)@ {
                SessionState::Shaped { seeds, at } => {
                    let j = head.junk_len as int;
                    &&& match opened_body(seeds, at.cipher, head.chunk, j, body@) {
                        Some(p) => out is Ok && out->Ok_0 is Some && out->Ok_0->Some_0@ == p,
                        None => out is Err && out->Err_0 == SnellError::PayloadAuth,
                    }
                    &&& final(self)@ == (SessionState::Shaped {
                        seeds,
                        at: RecordState {
                            cipher: after_body(seeds, at.cipher, head.chunk, j, body@),
                            chunk: at.chunk,
                        },
                    })
                },
                SessionState::Unshaped { cipher } => {
                    let ct = unswapped(body@, head.junk_len as int);
                    &&& match gcm_open(cipher.key, cipher.nonce(0), Seq::empty(), ct) {
                        Some(p) => out is Ok && out->Ok_0 is Some && out->Ok_0->Some_0@ == p,
                        None => out is Err && out->Err_0 == SnellError::PayloadAuth,
                    }
                    &&& final(self)@ == (SessionState::Unshaped {
                        cipher: after_open(cipher, Seq::empty(), ct),
                    })
                },
                SessionState::Raw => {
                    &&& out is Ok && out->Ok_0 is Some
                    &&& out->Ok_0->Some_0@ == body@.skip(head.junk_len as int)
                    &&& final(self)@ is Raw
                },
            },
    {
        if head.payload_len == 0 {
            return Ok(None);
        }
        match self {
            Session::Shaped { cipher, profile, chunk: _ } => {
                let h = RecordHead {
                    chunk: head.chunk,
                    junk_len: head.junk_len,
                    payload_len: head.payload_len,
                };
                open_record_body(body, &h, cipher, profile)
            },
            Session::Unshaped { cipher } => match open_chunk_body(
                body,
                head.junk_len,
                head.payload_len,
                cipher,
            ) {
                Ok(p) => Ok(Some(p)),
                Err(e) => Err(e),
            },
            Session::Raw => {
                let rest: &[u8] = slice_subrange(body, head.junk_len, body.len());
                assert(rest@ =~= body@.skip(head.junk_len as int));
                Ok(Some(slice_to_vec(rest)))
            },
        }
    }

    /// One turn of a relay into this direction. `data` is what a read of at most
    /// `sizer.next_size()` bytes brought; nothing read ends the session. Plain
    /// chunks are kept to the size asked for.
    pub fn relay(&mut self, sizer: &mut AdaptiveSizer, data: &[u8]) -> (out: Result<
        RelayStep,
        SnellError,
    >)
        requires
            old(sizer)@.wf(),
        ensures
            final(sizer)@.wf(),
            final(sizer)@ == if data@.len() == 0 {
                old(sizer)@
            } else {
                old(sizer)@.after_read(data@.len())
            },
            out is Ok ==> out->Ok_0.done == (data@.len() == 0),
            out is Ok ==> out->Ok_0.wire@ == relayed_by(old(self)@, old(sizer)@.size, data@),
            match old(self)@ {
                SessionState::Shaped { seeds, at } => if at.chunk + frame_count(
                    data@.len(),
                    MAX_CHUNK as nat,
                ) > u64::MAX || (at.chunk == u64::MAX && data@.len() == 0) {
                    &&& out is Err && out->Err_0 == SnellError::Exhausted
                    &&& final(self)@ == old(self)@
                } else {
                    &&& out is Ok
                    &&& data@.len() == 0 ==> {
                        &&& out->Ok_0.wire@ == zero_record(seeds, at)
                        &&& final(self)@ == (SessionState::Shaped { seeds, at: at.after_header() })
                    }
                    &&& data@.len() > 0 ==> {
                        &&& out->Ok_0.wire@ == records_of(seeds, at, data@)
                        &&& final(self)@ is Shaped
                        &&& final(self)@->seeds == seeds
                        &&& read_all(record_step(seeds), at, out->Ok_0.wire@) == Some(
                            (data@, final(self)@->at),
                        )
                    }
                },
                SessionState::Unshaped { cipher } => {
                    &&& out is Ok
                    &&& data@.len() == 0 ==> {
                        &&& out->Ok_0.wire@ == sealed_header(cipher, Seq::empty(), 0, 0)
                        &&& final(self)@ == (SessionState::Unshaped { cipher: cipher.after(1) })
                    }
                    &&& data@.len() > 0 ==> {
                        &&& out->Ok_0.wire@ == chunks_of(cipher, data@, chunk_cap(old(sizer)@.size))
                        &&& final(self)@ is Unshaped
                        &&& read_all(chunk_step(), cipher, out->Ok_0.wire@) == Some(
                            (data@, final(self)@->cipher),
                        )
                    }
                },
                SessionState::Raw => {
                    &&& out is Ok
                    &&& data@.len() == 0 ==> out->Ok_0.wire@ == raw_frame(Seq::empty())
                    &&& data@.len() > 0 ==> {
                        &&& out->Ok_0.wire@ == frames_of(
                            raw_frames(),
                            (),
                            data@,
                            MAX_CHUNK as nat,
                        )
                        &&& read_all(raw_step(), (), out->Ok_0.wire@) == Some((data@, ()))
                    }
                    &&& final(self)@ is Raw
                },
            },
    {
        if let Session::Unshaped { cipher } = self {
            return copy_t2c_adaptive(sizer, cipher, data);
        }
        if data.len() == 0 {
            return match self.finish() {
                Ok(wire) => Ok(RelayStep { wire, done: true }),
                Err(e) => Err(e),
            };
        }
        if data.len() >= sizer.next_size() {
            sizer.on_full();
        } else {
            sizer.on_partial();
        }
        match self.send(data) {
            Ok(wire) => Ok(RelayStep { wire, done: false }),
            Err(e) => Err(e),
        }
    }
}

/// What the two directions of a session start with: the shaped mode with its first
/// frame, the unshaped mode with the 16 bytes of the salt, the raw mode with
/// nothing.
pub proof fn lemma_handshakes(s: Seq<u64>, wire: Seq<u8>)
    ensures
        handshake_len_of(Mode::Default, s) == frame_len_of(s),
        handshake_len_of(Mode::Unshaped, s) == 16,
        handshake_len_of(Mode::UnsafeRaw, s) == 0,
        handshake_salt_of(Mode::Default, s, wire) == Some(carried_salt(s, wire)),
        handshake_salt_of(Mode::Unshaped, s, wire) == Some(wire),
        handshake_salt_of(Mode::UnsafeRaw, s, wire) is None,
{
}

/// A direction starts with the cipher of its salt, no nonce used and no record
/// counted; in the raw mode there is nothing to start with.
pub proof fn lemma_started_directions(s: Seq<u64>, psk: Seq<u8>, wire: Seq<u8>)
    ensures
        direction_of(Mode::Default, s, psk, wire) == (SessionState::Shaped {
            seeds: s,
            at: RecordState {
                cipher: CipherState {
                    key: key_material(psk, carried_salt(s, wire)).take(16),
                    counter: 0,
                },
                chunk: 0,
            },
        }),
        direction_of(Mode::Unshaped, s, psk, wire) == (SessionState::Unshaped {
            cipher: CipherState { key: key_material(psk, wire).take(16), counter: 0 },
        }),
        direction_of(Mode::UnsafeRaw, s, psk, wire) is Raw,
{
}

/// How many bytes a reader asks for: of a head, the prefix of the record and 23
/// bytes, 23 bytes, or 5; of a body, what its head announces, with a tag of 16
/// where there is encryption. Only the shaped mode has junk behind an end.
pub proof fn lemma_frame_lengths(
    seeds: Seq<u64>,
    at: RecordState,
    cipher: CipherState,
    h: FrameHead,
)
    requires
        at.chunk <= u64::MAX,
    ensures
        frame_head_len(SessionState::Shaped { seeds, at }) == prefix_len_of(
            seeds,
            at.chunk as u64,
        ) + 23,
        frame_head_len(SessionState::Unshaped { cipher }) == 23,
        frame_head_len(SessionState::Raw) == 5,
        h.payload_len > 0 ==> {
            &&& frame_body_len(SessionState::Shaped { seeds, at }, h) == h.junk_len + h.payload_len
                + 16
            &&& frame_body_len(SessionState::Unshaped { cipher }, h) == h.junk_len + h.payload_len
                + 16
            &&& frame_body_len(SessionState::Raw, h) == h.junk_len + h.payload_len
        },
        h.payload_len == 0 ==> {
            &&& frame_body_len(SessionState::Shaped { seeds, at }, h) == h.junk_len
            &&& frame_body_len(SessionState::Unshaped { cipher }, h) == 0
            &&& frame_body_len(SessionState::Raw, h) == 0
        },
{
}

/// What a direction sends: in the shaped mode the data as records, in the unshaped
/// mode as plain chunks, in the raw mode as plaintext frames, of at most 16383
/// bytes each. Data that fits one of them goes into one.
pub proof fn lemma_sent_frames(
    seeds: Seq<u64>,
    at: RecordState,
    cipher: CipherState,
    data: Seq<u8>,
)
    requires
        0 < data.len() <= 16383,
    ensures
        sent_by(SessionState::Shaped { seeds, at }, data) == next_record(seeds, at, data),
        sent_by(SessionState::Unshaped { cipher }, data) == sealed_chunk(
            cipher,
            Seq::empty(),
            Seq::empty(),
            data,
        ),
        sent_by(SessionState::Raw, data) == seq![
            0x04u8,
            0x00,
            0x00,
            (data.len() / 256) as u8,
            (data.len() % 256) as u8,
        ] + data,
{
    lemma_raw_layout(data);
}

/// Longer data begins with a full frame, behind which the rest is sent as if it
/// came next.
pub proof fn lemma_sent_in_a_row(
    seeds: Seq<u64>,
    at: RecordState,
    cipher: CipherState,
    full: Seq<u8>,
    rest: Seq<u8>,
)
    requires
        full.len() == 16383,
    ensures
        sent_by(SessionState::Shaped { seeds, at }, full + rest) == next_record(seeds, at, full)
            + sent_by(SessionState::Shaped { seeds, at: at.after_record() }, rest),
        sent_by(SessionState::Unshaped { cipher }, full + rest) == sealed_chunk(
            cipher,
            Seq::empty(),
            Seq::empty(),
            full,
        ) + sent_by(SessionState::Unshaped { cipher: cipher.after(2) }, rest),
        sent_by(SessionState::Raw, full + rest) == raw_frame(full) + sent_by(
            SessionState::Raw,
            rest,
        ),
{
    lemma_cutting(record_frame(seeds), at, full, rest, MAX_CHUNK as nat);
    lemma_cutting(chunk_frame(), cipher, full, rest, MAX_CHUNK as nat);
    lemma_cutting(raw_frames(), (), full, rest, MAX_CHUNK as nat);
}

/// What ends a direction: a zero record, a header without lengths, or an empty
/// plaintext frame.
pub proof fn lemma_endings(seeds: Seq<u64>, at: RecordState, cipher: CipherState)
    ensures
        ending_of(SessionState::Shaped { seeds, at }) == zero_record(seeds, at),
        ending_of(SessionState::Unshaped { cipher }) == gcm_seal(
            cipher.key,
            cipher.nonce(0),
            Seq::empty(),
            seq![0x04u8, 0x00, 0x00, 0x00, 0x00, 0x00, 0x00],
        ),
        ending_of(SessionState::Raw) == seq![0x04u8, 0x00, 0x00, 0x00, 0x00],
{
    lemma_header_layout(0, 0);
    lemma_raw_layout(Seq::empty());
    assert(seq![0x04u8, 0x00, 0x00, 0x00, 0x00] + Seq::<u8>::empty() =~= seq![
        0x04u8,
        0x00,
        0x00,
        0x00,
        0x00,
    ]);
}

/// The filler of a first frame is that of chunk number `0xffff_ffff`, over the
/// whole frame.
pub proof fn lemma_first_frame_filler(s: Seq<u64>)
    ensures
        first_frame_base(s) == filler_of(s, 0xffff_ffff, frame_len_of(s)),
{
}

/// What a head of 23 sealed bytes announces, in the encrypted modes: it opens under
/// the next nonce, in the shaped mode bound to the prefix of the record in front of
/// it, to the byte 4 and two lengths.
pub proof fn lemma_sealed_heads(
    seeds: Seq<u64>,
    at: RecordState,
    cipher: CipherState,
    prefix: Seq<u8>,
    sealed: Seq<u8>,
)
    requires
        at.chunk < u64::MAX,
        prefix.len() == prefix_len_of(seeds, at.chunk as u64),
    ensures
        match gcm_open(at.cipher.key, at.cipher.nonce(0), prefix, sealed) {
            None => head_of(SessionState::Shaped { seeds, at }, prefix + sealed) == Err::<
                FrameHead,
                SnellError,
            >(SnellError::HeaderAuth),
            Some(p) => p[0] == 4 ==> head_of(SessionState::Shaped { seeds, at }, prefix + sealed)
                == Ok::<FrameHead, SnellError>(
                (FrameHead {
                    chunk: at.chunk as u64,
                    junk_len: (p[3] * 256 + p[4]) as usize,
                    payload_len: (p[5] * 256 + p[6]) as usize,
                }),
            ),
        },
        match gcm_open(cipher.key, cipher.nonce(0), Seq::empty(), sealed) {
            None => head_of(SessionState::Unshaped { cipher }, sealed) == Err::<
                FrameHead,
                SnellError,
            >(SnellError::HeaderAuth),
            Some(p) => p[0] == 4 ==> head_of(SessionState::Unshaped { cipher }, sealed) == Ok::<
                FrameHead,
                SnellError,
            >(
                (FrameHead {
                    chunk: 0,
                    junk_len: (p[3] * 256 + p[4]) as usize,
                    payload_len: (p[5] * 256 + p[6]) as usize,
                }),
            ),
        },
{
    let np = prefix.len() as int;
    assert((prefix + sealed).take(np) =~= prefix);
    assert((prefix + sealed).skip(np) =~= sealed);
}

/// What a plaintext head announces: the byte 4 and two lengths.
pub proof fn lemma_plaintext_heads(head: Seq<u8>)
    requires
        head.len() == 5,
    ensures
        head[0] != 4 ==> head_of(SessionState::Raw, head) == Err::<FrameHead, SnellError>(
            (SnellError::RawType { type_byte: head[0] }),
        ),
        head[0] == 4 ==> head_of(SessionState::Raw, head) is Ok,
        head[0] == 4 ==> head_of(SessionState::Raw, head)->Ok_0.payload_len == head[3] * 256
            + head[4],
        head[0] == 4 && head[3] * 256 + head[4] > 0 ==> head_of(
            SessionState::Raw,
            head,
        )->Ok_0.junk_len == head[1] * 256 + head[2],
{
}

/// What a body holds. In the shaped mode junk and ciphertext go through the mix of
/// their record, and the ciphertext opens bound to the junk; in the unshaped mode
/// the byte swap with the junk is undone first; in the raw mode the payload stands
/// behind the junk.
pub proof fn lemma_bodies(
    seeds: Seq<u64>,
    at: RecordState,
    cipher: CipherState,
    h: FrameHead,
    junk: Seq<u8>,
    ct: Seq<u8>,
)
    requires
        h.payload_len > 0,
        junk.len() == h.junk_len,
    ensures
        body_of(SessionState::Shaped { seeds, at }, h, junk + ct) == match gcm_open(
            at.cipher.key,
            at.cipher.nonce(0),
            mixed(seeds, h.chunk, junk, ct),
            mixed(seeds, h.chunk, ct, junk),
        ) {
            Some(p) => Ok::<Option<Seq<u8>>, SnellError>(Some(p)),
            None => Err(SnellError::PayloadAuth),
        },
        body_of(SessionState::Unshaped { cipher }, h, swapped(junk, ct)) == match gcm_open(
            cipher.key,
            cipher.nonce(0),
            Seq::empty(),
            ct,
        ) {
            Some(p) => Ok::<Option<Seq<u8>>, SnellError>(Some(p)),
            None => Err(SnellError::PayloadAuth),
        },
        body_of(SessionState::Raw, h, junk + ct) == Ok::<Option<Seq<u8>>, SnellError>(Some(ct)),
{
    let n = junk.len() as int;
    assert((junk + ct).take(n) =~= junk);
    assert((junk + ct).skip(n) =~= ct);
    lemma_unswap_undoes_swap(junk, ct);
}

/// One turn of a relay ends the direction if nothing was read, and else sends what
/// was read: plain chunks of at most the size asked for, records and plaintext
/// frames as they are always cut.
pub proof fn lemma_relay_turns(st: SessionState, cipher: CipherState, size: usize, data: Seq<u8>)
    ensures
        relayed_by(st, size, Seq::empty()) == ending_of(st),
        data.len() > 0 && st !is Unshaped ==> relayed_by(st, size, data) == sent_by(st, data),
        0 < data.len() <= size && data.len() <= 16383 ==> relayed_by(
            SessionState::Unshaped { cipher },
            size,
            data,
        ) == sealed_chunk(cipher, Seq::empty(), Seq::empty(), data),
{
    if 0 < data.len() <= size && data.len() <= 16383 {
        lemma_relayed_chunks(cipher, size, data, Seq::empty());
    }
}

} // verus!
