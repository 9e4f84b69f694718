//! Datagram proxy: sessions started by a sealed packet, data passed through.

use vstd::prelude::*;
use vstd::slice::{slice_subrange, slice_to_vec};
use vstd::utf8::{decode_utf8, encode_utf8, valid_utf8};
use std::collections::HashMap;
use crate::big_endian::{be_value, be_value_of, lemma_be_value_bound, lemma_be_value_injective};
use crate::bytes::to_array;
use crate::cipher::{be16_at, fresh_cipher, key_material, SnellCipher, HDR_CT_LEN};
use crate::cipher::{KDF_M, KDF_P, KDF_T};
use crate::cooldown::{cooldown_check_and_insert, retain_since, CooldownMap, CooldownState};
use crate::cooldown::INIT_COOLDOWN_MS;
use crate::crypto::{aes128gcm_decrypt, aes128gcm_encrypt, argon2id_hash, random_bytes};
use crate::crypto::{argon2_takes, argon2id, gcm_open, gcm_seal, GCM_MAX};
use crate::error::SnellError;
use crate::little_endian::pow256;
use crate::net::IpAddr;
use crate::salt_cache::{SaltCache, SaltCacheState};
use crate::snell::{read_chunk, read_chunk_of};
use crate::text::{ascii_text, string_from_ascii, string_from_utf8};

verus! {

/// Bytes that sealing adds to a datagram: a nonce and a tag.
pub const QUIC_INIT_OVERHEAD: usize = 28;

/// Command byte of a session start.
pub const QUIC_CMD_CONNECT: u8 = 0x01;

/// Most sessions at a time.
pub const MAX_UDP_SESSIONS: usize = 8192;

/// Whether `b` looks like a QUIC Initial packet: long header, fixed bit, type
/// Initial, a version other than that of version negotiation.
pub open spec fn looks_initial(b: Seq<u8>) -> bool {
    &&& b.len() >= 5
    &&& b[0] / 16 == 0x0c
    &&& !(b[1] == 0 && b[2] == 0 && b[3] == 0 && b[4] == 0)
}

/// Whether `b` looks like a QUIC Initial packet.
pub fn is_quic_initial(b: &[u8]) -> (r: bool)
    ensures
        r == looks_initial(b@),
{
    if b.len() < 5 {
        return false;
    }
    // Long header and fixed bit set, both type bits clear.
    b[0] / 16 == 0x0c && !(b[1] == 0 && b[2] == 0 && b[3] == 0 && b[4] == 0)
}

/// An opaque session name.
#[derive(Clone, Copy, PartialEq, Eq, Hash, Debug)]
pub struct SessionToken(pub [u8; 8]);

/// The digit of a nibble, as an ASCII byte.
pub open spec fn hex_digit(n: int) -> u8 {
    if n < 10 {
        (0x30 + n) as u8
    } else {
        (0x61 + n - 10) as u8
    }
}

/// Two lower-case hexadecimal digits for each byte.
pub open spec fn hex_of(bytes: Seq<u8>) -> Seq<u8> {
    Seq::new(
        2 * bytes.len(),
        |i: int|
            if i % 2 == 0 {
                hex_digit(bytes[i / 2] as int / 16)
            } else {
                hex_digit(bytes[i / 2] as int % 16)
            },
    )
}

fn hex(n: u8) -> (d: u8)
    requires
        n < 16,
    ensures
        d == hex_digit(n as int),
        d < 128,
{
    if n < 10 {
        0x30 + n
    } else {
        0x61 + (n - 10)
    }
}

impl SessionToken {
    /// A token of random bytes.
    pub fn new_random() -> SessionToken {
        SessionToken(random_bytes::<8>())
    }

    /// The bytes of the token.
    pub fn as_bytes(&self) -> (b: &[u8; 8])
        ensures
            b@ == self.0@,
    {
        &self.0
    }

    /// The token in lower-case hexadecimal.
    pub fn to_text(&self) -> (s: String)
        ensures
            s@ == ascii_text(hex_of(self.0@)),
            s@.len() == 16,
    {
        let mut out: Vec<u8> = Vec::new();
        let mut i: usize = 0;
        while i < 8
            invariant
                i <= 8,
                out@.len() == 2 * i,
                forall|j: int| 0 <= j < out@.len() ==> out@[j] == hex_of(self.0@)[j],
                forall|j: int| 0 <= j < out@.len() ==> out@[j] < 128,
            decreases 8 - i,
        {
            let b: u8 = self.0[i];
            out.push(hex(b / 16));
            out.push(hex(b % 16));
            i = i + 1;
        }
        assert(out@ =~= hex_of(self.0@));
        string_from_ascii(out)
    }
}

/// The key of a datagram session.
pub struct InitCipher {
    key: [u8; 16],
}

impl View for InitCipher {
    type V = Seq<u8>;

    closed spec fn view(&self) -> Seq<u8> {
        self.key@
    }
}

/// The key of the datagram session with this salt.
pub open spec fn init_key(psk: Seq<u8>, salt: Seq<u8>) -> Seq<u8> {
    key_material(psk, salt).take(16)
}

/// Derives the key of a datagram session once, so that no packet of it needs
/// the costly derivation again.
pub fn derive_init_cipher(psk: &[u8], salt: &[u8]) -> (out: Result<InitCipher, SnellError>)
    ensures
        match out {
            Ok(c) => argon2_takes(psk@, salt@) && c@ == init_key(psk@, salt@),
            Err(e) => !argon2_takes(psk@, salt@) && e == SnellError::KeyDerivation,
        },
{
    match argon2id_hash(KDF_M, KDF_T, KDF_P, psk, salt) {
        Ok(key_mat) => Ok(InitCipher::from_key_material(&key_mat)),
        Err(_) => Err(SnellError::KeyDerivation),
    }
}

impl InitCipher {
    /// The key in derived key material: its first 16 bytes.
    pub fn from_key_material(key_mat: &[u8; 32]) -> (c: InitCipher)
        ensures
            c@ == key_mat@.take(16),
    {
        let first: &[u8] = slice_subrange(key_mat.as_slice(), 0, 16);
        assert(first@ =~= key_mat@.take(16));
        InitCipher { key: to_array::<16>(first) }
    }
}

/// A datagram sealed under `nonce`: the nonce, then the tagged ciphertext.
pub open spec fn sealed_datagram(key: Seq<u8>, nonce: Seq<u8>, msg: Seq<u8>) -> Seq<u8> {
    nonce + gcm_seal(key, nonce, Seq::empty(), msg)
}

/// What a sealed datagram opens to.
pub open spec fn opened_datagram(key: Seq<u8>, wire: Seq<u8>) -> Result<Seq<u8>, SnellError> {
    if wire.len() < QUIC_INIT_OVERHEAD {
        Err(SnellError::DatagramTooShort)
    } else {
        match gcm_open(key, wire.take(12), Seq::empty(), wire.skip(12)) {
            Some(msg) => Ok(msg),
            None => Err(SnellError::PayloadAuth),
        }
    }
}

/// Seals a datagram under the given nonce. It opens back to `plaintext`.
pub fn encrypt_with_nonce(cipher: &InitCipher, nonce: &[u8; 12], plaintext: &[u8]) -> (out: Result<
    Vec<u8>,
    SnellError,
>)
    requires
        plaintext@.len() + 16 <= isize::MAX,
    ensures
        match out {
            Ok(wire) => {
                &&& plaintext@.len() <= GCM_MAX
                &&& wire@ == sealed_datagram(cipher@, nonce@, plaintext@)
                &&& wire@.len() == plaintext@.len() + QUIC_INIT_OVERHEAD
                &&& opened_datagram(cipher@, wire@) == Ok::<Seq<u8>, SnellError>(plaintext@)
            },
            Err(e) => plaintext@.len() > GCM_MAX && e == SnellError::Seal,
        },
{
    let none: [u8; 0] = [];
    assert(none@ =~= Seq::<u8>::empty());
    let ct: Vec<u8> = match aes128gcm_encrypt(&cipher.key, nonce, none.as_slice(), plaintext) {
        Ok(ct) => ct,
        Err(_) => return Err(SnellError::Seal),
    };
    let mut out: Vec<u8> = Vec::new();
    out.extend_from_slice(nonce.as_slice());
    out.extend_from_slice(ct.as_slice());
    proof {
        assert(out@ =~= sealed_datagram(cipher@, nonce@, plaintext@));
        assert(out@.take(12) =~= nonce@);
        assert(out@.skip(12) =~= ct@);
    }
    Ok(out)
}

/// Seals a datagram under a random nonce. Whatever the nonce, it opens back to
/// `plaintext`.
pub fn encrypt_with(cipher: &InitCipher, plaintext: &[u8]) -> (out: Result<Vec<u8>, SnellError>)
    requires
        plaintext@.len() + 16 <= isize::MAX,
    ensures
        match out {
            Ok(wire) => {
                &&& plaintext@.len() <= GCM_MAX
                &&& wire@ == sealed_datagram(cipher@, wire@.take(12), plaintext@)
                &&& wire@.len() == plaintext@.len() + QUIC_INIT_OVERHEAD
                &&& opened_datagram(cipher@, wire@) == Ok::<Seq<u8>, SnellError>(plaintext@)
            },
            Err(e) => plaintext@.len() > GCM_MAX && e == SnellError::Seal,
        },
{
    let nonce: [u8; 12] = random_bytes::<12>();
    let out = encrypt_with_nonce(cipher, &nonce, plaintext);
    proof {
        if out is Ok {
            assert(out->Ok_0@.take(12) =~= nonce@);
        }
    }
    out
}

/// Opens a sealed datagram.
pub fn decrypt_with(cipher: &InitCipher, wire: &[u8]) -> (out: Result<Vec<u8>, SnellError>)
    ensures
        match opened_datagram(cipher@, wire@) {
            Ok(msg) => out is Ok && out->Ok_0@ == msg,
            Err(e) => out is Err && out->Err_0 == e,
        },
{
    if wire.len() < QUIC_INIT_OVERHEAD {
        return Err(SnellError::DatagramTooShort);
    }
    let head: &[u8] = slice_subrange(wire, 0, 12);
    let ct: &[u8] = slice_subrange(wire, 12, wire.len());
    let none: [u8; 0] = [];
    proof {
        assert(none@ =~= Seq::<u8>::empty());
        assert(head@ =~= wire@.take(12));
        assert(ct@ =~= wire@.skip(12));
    }
    let nonce: [u8; 12] = to_array::<12>(head);
    match aes128gcm_decrypt(&cipher.key, &nonce, none.as_slice(), ct) {
        Ok(msg) => Ok(msg),
        Err(_) => Err(SnellError::PayloadAuth),
    }
}

/// What a datagram on the proxy's socket is.
#[derive(Clone, Copy, PartialEq, Eq, Structural, Debug)]
pub enum PacketKind {
    /// Starts a session.
    Init,
    /// Belongs to a session.
    Data,
}

/// The kind of a datagram by its first byte: QUIC packets have the fixed bit
/// `0x40`; a session start has `0x20` and not the fixed bit.
pub open spec fn kind_of(b: Seq<u8>) -> Option<PacketKind> {
    if b.len() == 0 {
        None
    } else if (b[0] / 0x40) % 2 == 1 {
        Some(PacketKind::Data)
    } else if (b[0] / 0x20) % 2 == 1 {
        Some(PacketKind::Init)
    } else {
        None
    }
}

/// The kind of a datagram; `None` for one to be dropped.
pub fn classify(b: &[u8]) -> (k: Option<PacketKind>)
    ensures
        k == kind_of(b@),
{
    if b.len() == 0 {
        None
    } else if (b[0] / 0x40) % 2 == 1 {
        Some(PacketKind::Data)
    } else if (b[0] / 0x20) % 2 == 1 {
        Some(PacketKind::Init)
    } else {
        None
    }
}

/// What the relay loop does with a datagram.
#[derive(Clone, Copy, PartialEq, Eq, Structural, Debug)]
pub enum DatagramAction {
    /// Neither kind: drop it.
    Drop,
    /// Data from an address without a session: report and drop it.
    NoSession,
    /// Data of a session: renew the session and send the datagram to its target.
    Forward,
    /// Start a session, whether or not the address has one.
    Start,
}

/// What a datagram asks for, from an address that has a session or not.
pub open spec fn action_on(b: Seq<u8>, has_session: bool) -> DatagramAction {
    match kind_of(b) {
        None => DatagramAction::Drop,
        Some(PacketKind::Init) => DatagramAction::Start,
        Some(PacketKind::Data) => if has_session {
            DatagramAction::Forward
        } else {
            DatagramAction::NoSession
        },
    }
}

/// What to do with a datagram from an address that has a session or not.
pub fn datagram_action(b: &[u8], has_session: bool) -> (a: DatagramAction)
    ensures
        a == action_on(b@, has_session),
{
    match classify(b) {
        None => DatagramAction::Drop,
        Some(PacketKind::Init) => DatagramAction::Start,
        Some(PacketKind::Data) => if has_session {
            DatagramAction::Forward
        } else {
            DatagramAction::NoSession
        },
    }
}

/// A decoded session start.
pub struct QuicRequest {
    pub user: String,
    pub host: String,
    pub port: u16,
    /// A datagram bundled with the session start.
    pub trailing: Vec<u8>,
}

/// What a session start says.
#[verifier::ext_equal]
pub struct QuicRequestView {
    pub user: Seq<char>,
    pub host: Seq<char>,
    pub port: u16,
    pub trailing: Seq<u8>,
}

impl View for QuicRequest {
    type V = QuicRequestView;

    open spec fn view(&self) -> QuicRequestView {
        QuicRequestView {
            user: self.user@,
            host: self.host@,
            port: self.port,
            trailing: self.trailing@,
        }
    }
}

/// What the bytes of a session start say, or why they are none.
///
/// ```text
/// command  user length  user  host length  host  port  trailing
/// ```
pub open spec fn parsed_quic_request(data: Seq<u8>) -> Result<QuicRequestView, SnellError> {
    if data.len() < 2 {
        Err(SnellError::RequestTooShort)
    } else if data[0] != QUIC_CMD_CONNECT {
        Err(SnellError::UnknownCommand { command: data[0] })
    } else {
        let user_len = data[1] as int;
        if data.len() < 3 + user_len {
            Err(SnellError::TruncatedHandshake)
        } else {
            let host_len = data[2 + user_len] as int;
            let at = 3 + user_len;
            if data.len() < at + host_len + 2 {
                Err(SnellError::TruncatedHost)
            } else if !valid_utf8(data.subrange(2, 2 + user_len)) {
                Err(SnellError::UserEncoding)
            } else if !valid_utf8(data.subrange(at, at + host_len)) {
                Err(SnellError::HostEncoding)
            } else {
                Ok(
                    QuicRequestView {
                        user: decode_utf8(data.subrange(2, 2 + user_len)),
                        host: decode_utf8(data.subrange(at, at + host_len)),
                        port: be16_at(data, at + host_len) as u16,
                        trailing: data.skip(at + host_len + 2),
                    },
                )
            }
        }
    }
}

/// Decodes a session start.
pub fn parse_quic_request(data: &[u8]) -> (out: Result<QuicRequest, SnellError>)
    ensures
        match parsed_quic_request(data@) {
            Ok(v) => out is Ok && out->Ok_0@ == v,
            Err(e) => out is Err && out->Err_0 == e,
        },
{
    if data.len() < 2 {
        return Err(SnellError::RequestTooShort);
    }
    if data[0] != QUIC_CMD_CONNECT {
        return Err(SnellError::UnknownCommand { command: data[0] });
    }
    let user_len: usize = data[1] as usize;
    if data.len() < 3 + user_len {
        return Err(SnellError::TruncatedHandshake);
    }
    let host_len: usize = data[2 + user_len] as usize;
    let at: usize = 3 + user_len;
    let end: usize = at + host_len;
    if data.len() < end + 2 {
        return Err(SnellError::TruncatedHost);
    }
    let user: String = match string_from_utf8(
        slice_to_vec(slice_subrange(data, 2, 2 + user_len)),
    ) {
        Some(u) => u,
        None => return Err(SnellError::UserEncoding),
    };
    let host: String = match string_from_utf8(slice_to_vec(slice_subrange(data, at, end))) {
        Some(h) => h,
        None => return Err(SnellError::HostEncoding),
    };
    let port: u16 = data[end] as u16 * 256 + data[end + 1] as u16;
    let trailing: Vec<u8> = slice_to_vec(slice_subrange(data, end + 2, data.len()));
    let out = QuicRequest { user, host, port, trailing };
    proof {
        assert(trailing@ =~= data@.skip(end + 2));
        assert(out@ =~= parsed_quic_request(data@)->Ok_0);
    }
    Ok(out)
}

/// What the sealed part of a session start says to a holder of the key.
pub open spec fn opened_init(psk: Seq<u8>, salt: Seq<u8>, sealed: Seq<u8>) -> Result<
    QuicRequestView,
    SnellError,
> {
    if !argon2_takes(psk, salt) {
        Err(SnellError::KeyDerivation)
    } else {
        match read_chunk_of(fresh_cipher(key_material(psk, salt)), sealed).result {
            Ok(Some(p)) => parsed_quic_request(p),
            Ok(None) => Err(SnellError::EmptyInit),
            Err(e) => Err(e),
        }
    }
}

/// Opens and decodes the sealed part of a session start, the chunk behind its
/// salt.
pub fn decrypt_init(psk: &[u8], salt: &[u8; 16], sealed: &[u8]) -> (out: Result<
    QuicRequest,
    SnellError,
>)
    ensures
        match opened_init(psk@, salt@, sealed@) {
            Ok(v) => out is Ok && out->Ok_0@ == v,
            Err(e) => out is Err && out->Err_0 == e,
        },
{
    let mut cipher: SnellCipher = match SnellCipher::new(psk, salt.as_slice()) {
        Ok(c) => c,
        Err(e) => return Err(e),
    };
    match read_chunk(sealed, &mut cipher) {
        Ok((Some(p), _)) => parse_quic_request(p.as_slice()),
        Ok((None, _)) => Err(SnellError::EmptyInit),
        Err(e) => Err(e),
    }
}

/// Least length of a session start: salt, sealed header, tag.
pub open spec fn init_min_len() -> int {
    16 + HDR_CT_LEN + 16
}

/// Why a session start is refused before it is opened.
pub open spec fn init_refusal(
    len: nat,
    admitted: bool,
    sessions: nat,
    replay: bool,
) -> Option<SnellError> {
    if len < init_min_len() {
        Some(SnellError::RequestTooShort)
    } else if !admitted {
        Some(SnellError::RateLimited)
    } else if sessions >= MAX_UDP_SESSIONS {
        Some(SnellError::SessionTableFull)
    } else if replay {
        Some(SnellError::SaltReplay)
    } else {
        None
    }
}

/// The cooldowns after a session start of `len` bytes came from `src`.
pub open spec fn cooldown_after_init(
    cooldown: CooldownState,
    len: nat,
    src: IpAddr,
    now: u64,
) -> CooldownState {
    if len >= init_min_len() {
        cooldown.after_check(src, now, INIT_COOLDOWN_MS)
    } else {
        cooldown
    }
}

/// The salts seen after a session start: its salt counts once it gets as far as
/// the test of the salt.
pub open spec fn salts_after_init(
    salts: SaltCacheState,
    packet: Seq<u8>,
    admitted: bool,
    sessions: nat,
    now: u64,
) -> SaltCacheState {
    if packet.len() >= init_min_len() && admitted && sessions < MAX_UDP_SESSIONS {
        salts.after_check(packet.take(16), now)
    } else {
        salts
    }
}

/// Admits or refuses a session start that came from `src` at time `now`
/// (nanoseconds of a clock that does not run backwards), while `sessions`
/// sessions are open. In this order it is refused for being too short, for
/// coming too soon, for want of room, for a replayed salt, and for not opening
/// to a request. So the costly derivation runs only behind all cheap tests.
pub fn admit_init(
    packet: &[u8],
    src: IpAddr,
    now: u64,
    sessions: usize,
    psk: &[u8],
    cooldown: &mut CooldownMap,
    salts: &mut SaltCache,
) -> (out: Result<QuicRequest, SnellError>)
    requires
        old(salts)@.wf(),
    ensures
        final(salts)@.wf(),
        ({
            let long = packet@.len() >= init_min_len();
            let admitted = old(cooldown)@.admits(src, now, INIT_COOLDOWN_MS);
            let room = sessions < MAX_UDP_SESSIONS;
            let salt = packet@.take(16);
            let replay = old(salts)@.is_replay(salt, now);
            &&& match init_refusal(packet@.len(), admitted, sessions as nat, replay) {
                Some(e) => out is Err && out->Err_0 == e,
                None => match opened_init(psk@, salt, packet@.skip(16)) {
                    Ok(v) => out is Ok && out->Ok_0@ == v,
                    Err(e) => out is Err && out->Err_0 == e,
                },
            }
            &&& if !long {
                out is Err && out->Err_0 == SnellError::RequestTooShort
            } else if !admitted {
                out is Err && out->Err_0 == SnellError::RateLimited
            } else if !room {
                out is Err && out->Err_0 == SnellError::SessionTableFull
            } else if replay {
                out is Err && out->Err_0 == SnellError::SaltReplay
            } else {
                match opened_init(psk@, salt, packet@.skip(16)) {
                    Ok(v) => out is Ok && out->Ok_0@ == v,
                    Err(e) => out is Err && out->Err_0 == e,
                }
            }
            &&& final(cooldown)@ == if long {
                old(cooldown)@.after_check(src, now, INIT_COOLDOWN_MS)
            } else {
                old(cooldown)@
            }
            &&& final(cooldown)@ == cooldown_after_init(old(cooldown)@, packet@.len(), src, now)
            &&& final(salts)@ == salts_after_init(
                old(salts)@,
                packet@,
                admitted,
                sessions as nat,
                now,
            )
            &&& final(salts)@ == if long && admitted && room {
                old(salts)@.after_check(salt, now)
            } else {
                old(salts)@
            }
        }),
{
    if packet.len() < 16 + HDR_CT_LEN + 16 {
        return Err(SnellError::RequestTooShort);
    }
    if !cooldown_check_and_insert(cooldown, src, now, INIT_COOLDOWN_MS) {
        return Err(SnellError::RateLimited);
    }
    if sessions >= MAX_UDP_SESSIONS {
        return Err(SnellError::SessionTableFull);
    }
    let head: &[u8] = slice_subrange(packet, 0, 16);
    let rest: &[u8] = slice_subrange(packet, 16, packet.len());
    proof {
        assert(head@ =~= packet@.take(16));
        assert(rest@ =~= packet@.skip(16));
    }
    let salt: [u8; 16] = to_array::<16>(head);
    if !salts.check_and_insert(&salt, now) {
        return Err(SnellError::SaltReplay);
    }
    decrypt_init(psk, &salt, rest)
}

/// A session: its name and when it was last active, in nanoseconds.
pub struct UdpSession {
    pub token: SessionToken,
    pub last_seen: u64,
}

impl UdpSession {
    /// Notes that the session is active at `now`.
    pub fn touch(&mut self, now: u64)
        ensures
            final(self).last_seen == now,
            final(self).token == old(self).token,
    {
        self.last_seen = now;
    }
}

/// The number that the bytes of a token spell.
pub open spec fn token_number(t: SessionToken) -> u128 {
    be_value(t.0@) as u128
}

/// Different tokens have different numbers.
pub proof fn lemma_token_numbers_differ(a: SessionToken, b: SessionToken)
    requires
        a.0@ != b.0@,
    ensures
        token_number(a) != token_number(b),
{
    reveal_with_fuel(pow256, 9);
    lemma_be_value_bound(a.0@);
    lemma_be_value_bound(b.0@);
    if be_value(a.0@) == be_value(b.0@) {
        lemma_be_value_injective(a.0@, b.0@);
    }
}

/// Whether a session last active at `last_seen` outlives a cleanup at `now`
/// (both in nanoseconds) that removes sessions idle for longer than
/// `timeout_secs`.
pub open spec fn survives_gc(last_seen: u64, now: u64, timeout_secs: u64) -> bool {
    last_seen >= now - timeout_secs * 1_000_000_000
}

/// The open sessions, by the numbers of their tokens, with the time each was
/// last active.
pub struct SessionTable {
    seen: HashMap<u128, u64>,
}

impl View for SessionTable {
    type V = Map<u128, u64>;

    closed spec fn view(&self) -> Map<u128, u64> {
        self.seen@
    }
}

/// The sessions with one more entered, or renewed, at time `seen`.
pub open spec fn entered(m: Map<u128, u64>, token: SessionToken, seen: u64) -> Map<u128, u64> {
    m.insert(token_number(token), seen)
}

/// The sessions without one.
pub open spec fn left(m: Map<u128, u64>, token: SessionToken) -> Map<u128, u64> {
    m.remove(token_number(token))
}

/// Whether a session with this token is among the sessions.
pub open spec fn is_open(m: Map<u128, u64>, token: SessionToken) -> bool {
    m.contains_key(token_number(token))
}

/// The sessions that outlive a cleanup.
pub open spec fn after_gc(m: Map<u128, u64>, now: u64, timeout_secs: u64) -> Map<u128, u64> {
    Map::new(
        |k: u128| m.contains_key(k) && survives_gc(m[k], now, timeout_secs),
        |k: u128| m[k],
    )
}

/// A table without sessions.
pub fn new_session_table() -> (t: SessionTable)
    ensures
        t@ == Map::<u128, u64>::empty(),
{
    SessionTable { seen: HashMap::new() }
}

impl SessionTable {
    /// Enters a session, or renews the one with its token.
    pub fn insert(&mut self, session: &UdpSession)
        ensures
            final(self)@ == entered(old(self)@, session.token, session.last_seen),
    {
        broadcast use vstd::std_specs::hash::group_hash_axioms;
        let k: u128 = be_value_of(session.token.0.as_slice());
        self.seen.insert(k, session.last_seen);
    }

    /// Takes a session out.
    pub fn remove(&mut self, token: &SessionToken)
        ensures
            final(self)@ == left(old(self)@, *token),
    {
        broadcast use vstd::std_specs::hash::group_hash_axioms;
        let k: u128 = be_value_of(token.0.as_slice());
        self.seen.remove(&k);
    }

    /// Whether a session with this token is open.
    pub fn contains(&self, token: &SessionToken) -> (r: bool)
        ensures
            r == is_open(self@, *token),
    {
        broadcast use vstd::std_specs::hash::group_hash_axioms;
        let k: u128 = be_value_of(token.0.as_slice());
        self.seen.contains_key(&k)
    }

    /// Number of open sessions.
    pub fn len(&self) -> (n: usize)
        ensures
            n == self@.len(),
    {
        broadcast use vstd::std_specs::hash::group_hash_axioms;
        self.seen.len()
    }
}

/// Removes the sessions that have been idle for longer than `timeout_secs`.
pub fn gc_sessions(table: &mut SessionTable, now: u64, timeout_secs: u64)
    requires
        timeout_secs * 1_000_000_000 <= u64::MAX,
    ensures
        final(table)@ == after_gc(old(table)@, now, timeout_secs),
{
    let cutoff: u64 = now.saturating_sub(timeout_secs * 1_000_000_000);
    let ghost before = table.seen@;
    table.seen = retain_since(&table.seen, cutoff);
    assert(table.seen@ =~= after_gc(before, now, timeout_secs));
}

/// A session renewed within the timeout survives, one idle for longer does not.
pub proof fn lemma_gc_removes_idle_sessions(
    m: Map<u128, u64>,
    k: u128,
    now: u64,
    timeout_secs: u64,
)
    requires
        m.contains_key(k),
        m[k] <= now,
    ensures
        after_gc(m, now, timeout_secs).contains_key(k) <==> now - m[k] <= timeout_secs
            * 1_000_000_000,
{
}

proof fn lemma_byte_bits(b: u8)
    by (bit_vector)
    ensures
        (b / 0x40) % 2 == 1 <==> b & 0x40 != 0,
        (b / 0x20) % 2 == 1 <==> b & 0x20 != 0,
        b / 16 == 0x0c <==> b & 0xf0 == 0xc0,
{
}

/// The kind of a datagram by two bits of its first byte.
pub proof fn lemma_kinds_by_bits(b: Seq<u8>)
    ensures
        b.len() == 0 ==> kind_of(b) is None,
        b.len() > 0 ==> {
            &&& kind_of(b) == Some(PacketKind::Data) <==> b[0] & 0x40 != 0
            &&& kind_of(b) == Some(PacketKind::Init) <==> b[0] & 0x40 == 0 && b[0] & 0x20 != 0
        },
{
    if b.len() > 0 {
        lemma_byte_bits(b[0]);
    }
}

/// Data goes to the session of its address and is reported where there is none;
/// a session start is taken either way; anything else is dropped.
pub proof fn lemma_datagram_actions(b: Seq<u8>, has_session: bool)
    ensures
        action_on(b, has_session) == DatagramAction::Forward <==> has_session && kind_of(b) == Some(
            PacketKind::Data,
        ),
        action_on(b, has_session) == DatagramAction::NoSession <==> !has_session && kind_of(b)
            == Some(PacketKind::Data),
        action_on(b, has_session) == DatagramAction::Start <==> kind_of(b) == Some(
            PacketKind::Init,
        ),
        action_on(b, has_session) == DatagramAction::Drop <==> kind_of(b) is None,
{
}

/// An Initial packet has the form bits `1100` in its first byte and a version
/// that is not zero; what follows the version does not matter.
pub proof fn lemma_initial_packets(first: u8, version: Seq<u8>, more: Seq<u8>)
    requires
        version.len() == 4,
    ensures
        looks_initial(seq![first] + version + more) <==> first & 0xf0 == 0xc0 && version != seq![
            0u8,
            0,
            0,
            0,
        ],
{
    lemma_byte_bits(first);
    let b = seq![first] + version + more;
    assert(b[1] == version[0] && b[2] == version[1] && b[3] == version[2] && b[4] == version[3]);
    if version[0] == 0 && version[1] == 0 && version[2] == 0 && version[3] == 0 {
        assert(version =~= seq![0u8, 0, 0, 0]);
    }
}

/// A token's text has two digits per byte, the high one first, with the letters
/// `a` to `f` for ten to fifteen.
pub proof fn lemma_hex_digits(bytes: Seq<u8>, i: int)
    requires
        0 <= i < bytes.len(),
    ensures
        hex_of(bytes).len() == 2 * bytes.len(),
        ({
            let hi = hex_of(bytes)[2 * i];
            let lo = hex_of(bytes)[2 * i + 1];
            let value = |d: u8| if d >= 'a' as u8 { d - 'a' as u8 + 10 } else { d - '0' as u8 };
            &&& bytes[i] == 16 * value(hi) + value(lo)
            &&& '0' as u8 <= hi <= '9' as u8 || 'a' as u8 <= hi <= 'f' as u8
            &&& '0' as u8 <= lo <= '9' as u8 || 'a' as u8 <= lo <= 'f' as u8
        }),
{
    assert((2 * i) / 2 == i && (2 * i) % 2 == 0);
    assert((2 * i + 1) / 2 == i && (2 * i + 1) % 2 == 1);
}

/// A session start says what stands in it: a one, the length of the user, the
/// user, the length of the host, the host, the port in network order, and a
/// datagram bundled with it.
pub proof fn lemma_session_start_fields(
    user: Seq<char>,
    host: Seq<char>,
    port: u16,
    trailing: Seq<u8>,
)
    requires
        encode_utf8(user).len() <= 255,
        encode_utf8(host).len() <= 255,
    ensures
        ({
            let ub = encode_utf8(user);
            let hb = encode_utf8(host);
            let wire = seq![0x01u8, ub.len() as u8] + ub + seq![hb.len() as u8] + hb + seq![
                (port / 256) as u8,
                (port % 256) as u8,
            ] + trailing;
            parsed_quic_request(wire) == Ok::<QuicRequestView, SnellError>(
                (QuicRequestView { user, host, port, trailing }),
            )
        }),
{
    let ub = encode_utf8(user);
    let hb = encode_utf8(host);
    let wire = seq![0x01u8, ub.len() as u8] + ub + seq![hb.len() as u8] + hb + seq![
        (port / 256) as u8,
        (port % 256) as u8,
    ] + trailing;
    let at = 3 + ub.len() as int;
    let end = at + hb.len() as int;
    assert(wire[2 + ub.len() as int] == hb.len());
    assert(wire.subrange(2, 2 + ub.len() as int) =~= ub);
    assert(wire.subrange(at, end) =~= hb);
    assert(wire[end] == (port / 256) as u8);
    assert(wire[end + 1] == (port % 256) as u8);
    assert(wire.skip(end + 2) =~= trailing);
    vstd::utf8::encode_utf8_valid_utf8(user);
    vstd::utf8::encode_utf8_decode_utf8(user);
    vstd::utf8::encode_utf8_valid_utf8(host);
    vstd::utf8::encode_utf8_decode_utf8(host);
}

/// What is no session start, and why: too short for a head, another command, or
/// cut off in the user or in the host and port.
pub proof fn lemma_broken_session_starts(data: Seq<u8>)
    ensures
        data.len() < 2 ==> parsed_quic_request(data) == Err::<QuicRequestView, SnellError>(
            SnellError::RequestTooShort,
        ),
        data.len() >= 2 && data[0] != 1 ==> parsed_quic_request(data) == Err::<
            QuicRequestView,
            SnellError,
        >((SnellError::UnknownCommand { command: data[0] })),
        data.len() >= 2 && data[0] == 1 ==> {
            let n = data[1] as int;
            &&& data.len() < 3 + n ==> parsed_quic_request(data) == Err::<
                QuicRequestView,
                SnellError,
            >(SnellError::TruncatedHandshake)
            &&& 3 + n <= data.len() < 5 + n + data[2 + n] ==> parsed_quic_request(data) == Err::<
                QuicRequestView,
                SnellError,
            >(SnellError::TruncatedHost)
        },
{
}

/// A sealed session start that opens to a payload says what the payload says; a
/// zero chunk in its place is refused as empty.
pub proof fn lemma_sealed_session_starts(psk: Seq<u8>, salt: Seq<u8>, sealed: Seq<u8>)
    requires
        argon2_takes(psk, salt),
    ensures
        match read_chunk_of(fresh_cipher(key_material(psk, salt)), sealed).result {
            Ok(Some(p)) => opened_init(psk, salt, sealed) == parsed_quic_request(p),
            Ok(None) => opened_init(psk, salt, sealed) == Err::<QuicRequestView, SnellError>(
                SnellError::EmptyInit,
            ),
            Err(e) => opened_init(psk, salt, sealed) == Err::<QuicRequestView, SnellError>(e),
        },
{
}

/// The tests on a session start in their order: 55 bytes at least, outside its
/// cooldown, fewer than 8192 sessions open, a salt not seen lately. Each is
/// reached only where the ones before it pass.
pub proof fn lemma_init_tests(len: nat, admitted: bool, sessions: nat, replay: bool)
    ensures
        init_refusal(len, admitted, sessions, replay) is None <==> len >= 55 && admitted && sessions
            < 8192 && !replay,
        init_refusal(len, admitted, sessions, replay) == Some(SnellError::RequestTooShort) <==> len
            < 55,
        init_refusal(len, admitted, sessions, replay) == Some(SnellError::RateLimited) <==> len
            >= 55 && !admitted,
        init_refusal(len, admitted, sessions, replay) == Some(SnellError::SessionTableFull) <==> len
            >= 55 && admitted && sessions >= 8192,
        init_refusal(len, admitted, sessions, replay) == Some(SnellError::SaltReplay) <==> len >= 55
            && admitted && sessions < 8192 && replay,
{
}

/// A datagram shorter than nonce and tag is refused as such; any other opens
/// under the nonce in its first twelve bytes or fails authentication.
pub proof fn lemma_opened_datagrams(key: Seq<u8>, nonce: Seq<u8>, ct: Seq<u8>)
    requires
        nonce.len() == 12,
    ensures
        ct.len() < 16 ==> opened_datagram(key, nonce + ct) == Err::<Seq<u8>, SnellError>(
            SnellError::DatagramTooShort,
        ),
        ct.len() >= 16 ==> opened_datagram(key, nonce + ct) == match gcm_open(
            key,
            nonce,
            Seq::empty(),
            ct,
        ) {
            Some(msg) => Ok::<Seq<u8>, SnellError>(msg),
            None => Err(SnellError::PayloadAuth),
        },
{
    assert((nonce + ct).take(12) =~= nonce);
    assert((nonce + ct).skip(12) =~= ct);
}

/// A cleanup touches idle sessions only: it adds none and leaves the times of the
/// others.
pub proof fn lemma_gc_keeps_the_rest(m: Map<u128, u64>, k: u128, now: u64, timeout_secs: u64)
    ensures
        after_gc(m, now, timeout_secs).contains_key(k) ==> m.contains_key(k) && after_gc(
            m,
            now,
            timeout_secs,
        )[k] == m[k],
        m.contains_key(k) && m[k] > now ==> after_gc(m, now, timeout_secs).contains_key(k),
{
}

/// A session start that is too short leaves no trace. Any other counts for the
/// cooldown of its address, which is one second, and its salt, the first 16 bytes,
/// is noted if it gets through cooldown and room.
pub proof fn lemma_init_traces(
    cooldown: CooldownState,
    salts: SaltCacheState,
    packet: Seq<u8>,
    src: IpAddr,
    admitted: bool,
    sessions: nat,
    now: u64,
)
    ensures
        packet.len() < 55 ==> {
            &&& cooldown_after_init(cooldown, packet.len(), src, now) == cooldown
            &&& salts_after_init(salts, packet, admitted, sessions, now) == salts
        },
        packet.len() >= 55 ==> {
            &&& cooldown_after_init(cooldown, packet.len(), src, now) == cooldown.after_check(
                src,
                now,
                1000,
            )
            &&& admitted && sessions < 8192 ==> salts_after_init(
                salts,
                packet,
                admitted,
                sessions,
                now,
            ) == salts.after_check(packet.subrange(0, 16), now)
            &&& !admitted || sessions >= 8192 ==> salts_after_init(
                salts,
                packet,
                admitted,
                sessions,
                now,
            ) == salts
        },
{
    if packet.len() >= 55 {
        assert(packet.subrange(0, 16) =~= packet.take(16));
    }
}

/// A session start whose user or host is not UTF-8 is refused for the first of
/// them that is not.
pub proof fn lemma_badly_encoded_session_starts(user: Seq<u8>, host: Seq<u8>, more: Seq<u8>)
    requires
        user.len() <= 255,
        host.len() <= 255,
        more.len() >= 2,
    ensures
        ({
            let wire = seq![0x01u8, user.len() as u8] + user + seq![host.len() as u8] + host + more;
            &&& !valid_utf8(user) ==> parsed_quic_request(wire) == Err::<
                QuicRequestView,
                SnellError,
            >(SnellError::UserEncoding)
            &&& valid_utf8(user) && !valid_utf8(host) ==> parsed_quic_request(wire) == Err::<
                QuicRequestView,
                SnellError,
            >(SnellError::HostEncoding)
        }),
{
    let wire = seq![0x01u8, user.len() as u8] + user + seq![host.len() as u8] + host + more;
    let at = 3 + user.len() as int;
    assert(wire[2 + user.len() as int] == host.len());
    assert(wire.subrange(2, 2 + user.len() as int) =~= user);
    assert(wire.subrange(at, at + host.len() as int) =~= host);
}

/// The key of a datagram session is the first 16 bytes of Argon2id over key and
/// salt, with 8 KiB, three passes and one lane.
pub proof fn lemma_init_key(psk: Seq<u8>, salt: Seq<u8>)
    ensures
        init_key(psk, salt) == argon2id(8, 3, 1, psk, salt).take(16),
{
}

/// A session that was entered is open, with the time it was entered at, until it
/// leaves; other sessions are not touched by that.
pub proof fn lemma_sessions_come_and_go(
    m: Map<u128, u64>,
    a: SessionToken,
    b: SessionToken,
    seen: u64,
)
    ensures
        is_open(entered(m, a, seen), a),
        entered(m, a, seen)[token_number(a)] == seen,
        !is_open(left(m, a), a),
        a.0@ != b.0@ ==> {
            &&& is_open(entered(m, a, seen), b) == is_open(m, b)
            &&& is_open(left(m, a), b) == is_open(m, b)
            &&& is_open(m, b) ==> entered(m, a, seen)[token_number(b)] == m[token_number(b)]
        },
{
    if a.0@ != b.0@ {
        lemma_token_numbers_differ(a, b);
    }
}

} // verus!
