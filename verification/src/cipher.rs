//! Session encryption.
//!
//! - Salt: 16 random bytes, sent first by each side.
//! - Key: the first 16 bytes of Argon2id over key and salt.
//! - Cipher: AES-128-GCM with a 12-byte little-endian counter nonce from 0.
//! - Chunk: sealed header (23 bytes), junk, sealed payload (its length + 16).
//!   The header plaintext is `04 00 00`, the junk length and the payload
//!   length, both big-endian in two bytes.

use vstd::prelude::*;
use crate::crypto::{aes128gcm_decrypt, aes128gcm_encrypt, argon2id_hash, random_bytes};
use crate::crypto::{argon2_takes, argon2id, gcm_open, gcm_seal, GCM_MAX};
use crate::error::SnellError;
use crate::little_endian::{le_bytes, le_value, pow256};
use crate::little_endian::{lemma_le_increment, lemma_le_round_trip, lemma_le_value_bound};
use crate::little_endian::{lemma_le_value_of_bytes, lemma_le_wrap};

verus! {

/// Bytes of a session salt.
pub const SALT_LEN: usize = 16;

/// Bytes of a sealed header: seven plaintext bytes and a 16-byte tag.
pub const HDR_CT_LEN: usize = 23;

/// Memory (KiB), passes and lanes of the key derivation.
pub const KDF_M: u32 = 8;

pub const KDF_T: u32 = 3;

pub const KDF_P: u32 = 1;

/// Largest number of bytes a 16-bit length can announce.
pub const MAX_U16: usize = 0xffff;

/// Number of values of the 12-byte nonce counter.
pub open spec fn nonce_space() -> nat {
    0x1_0000_0000_0000_0000_0000_0000
}

/// What a cipher is: a key and the number of nonces used, modulo the nonce space.
#[verifier::ext_equal]
pub struct CipherState {
    pub key: Seq<u8>,
    pub counter: nat,
}

impl CipherState {
    /// The nonce that `n` further uses lead to.
    pub open spec fn nonce(self, n: nat) -> Seq<u8> {
        le_bytes((self.counter + n) % nonce_space(), 12)
    }

    /// The state after `n` further uses.
    pub open spec fn after(self, n: nat) -> CipherState {
        CipherState { key: self.key, counter: (self.counter + n) % nonce_space() }
    }
}

/// The key material that a pre-shared key and a salt lead to.
pub open spec fn key_material(psk: Seq<u8>, salt: Seq<u8>) -> Seq<u8> {
    argon2id(KDF_M, KDF_T, KDF_P, psk, salt)
}

/// A cipher that has used no nonce yet.
pub open spec fn fresh_cipher(key_mat: Seq<u8>) -> CipherState {
    CipherState { key: key_mat.take(16), counter: 0 }
}

/// The two big-endian bytes of `n`.
pub open spec fn be16(n: nat) -> Seq<u8> {
    seq![(n / 256) as u8, (n % 256) as u8]
}

/// The big-endian number in the two bytes from `at`.
pub open spec fn be16_at(s: Seq<u8>, at: int) -> nat {
    (s[at] * 256 + s[at + 1]) as nat
}

/// Header plaintext for a junk region and a payload of the given lengths.
pub open spec fn header_plain(junk_len: nat, payload_len: nat) -> Seq<u8> {
    seq![0x04u8, 0u8, 0u8] + be16(junk_len) + be16(payload_len)
}

/// Sealed header of the next chunk.
pub open spec fn sealed_header(
    c: CipherState,
    prefix: Seq<u8>,
    junk_len: nat,
    payload_len: nat,
) -> Seq<u8> {
    gcm_seal(c.key, c.nonce(0), prefix, header_plain(junk_len, payload_len))
}

/// The next chunk: `prefix` is bound to the header, `junk` to the payload.
pub open spec fn sealed_chunk(
    c: CipherState,
    prefix: Seq<u8>,
    junk: Seq<u8>,
    payload: Seq<u8>,
) -> Seq<u8> {
    sealed_header(c, prefix, junk.len(), payload.len()) + junk + gcm_seal(
        c.key,
        c.nonce(1),
        junk,
        payload,
    )
}

/// Junk and payload length that a sealed header announces.
pub open spec fn opened_header(c: CipherState, prefix: Seq<u8>, ct: Seq<u8>) -> Result<
    (usize, usize),
    SnellError,
> {
    match gcm_open(c.key, c.nonce(0), prefix, ct) {
        None => Err(SnellError::HeaderAuth),
        Some(pt) => if pt[0] != 0x04 {
            Err(SnellError::HeaderType { type_byte: pt[0] })
        } else {
            Ok((be16_at(pt, 3) as usize, be16_at(pt, 5) as usize))
        },
    }
}

/// The state after an attempt to open `ct`: a nonce is used up only if the
/// ciphertext authenticates.
pub open spec fn after_open(c: CipherState, aad: Seq<u8>, ct: Seq<u8>) -> CipherState {
    if gcm_open(c.key, c.nonce(0), aad, ct) is Some {
        c.after(1)
    } else {
        c
    }
}

/// `header` and `body` are the sealed parts of a chunk that a cipher in state
/// `c` opens to `payload`.
pub open spec fn opens_to(
    c: CipherState,
    prefix: Seq<u8>,
    junk: Seq<u8>,
    payload: Seq<u8>,
    header: Seq<u8>,
    body: Seq<u8>,
) -> bool {
    &&& opened_header(c, prefix, header) == Ok::<(usize, usize), SnellError>(
        (junk.len() as usize, payload.len() as usize),
    )
    &&& after_open(c, prefix, header) == c.after(1)
    &&& gcm_open(c.key, c.after(1).nonce(0), junk, body) == Some(payload)
    &&& after_open(c.after(1), junk, body) == c.after(2)
}

proof fn lemma_header_fields(junk_len: nat, payload_len: nat)
    requires
        junk_len <= 0xffff,
        payload_len <= 0xffff,
    ensures
        header_plain(junk_len, payload_len).len() == 7,
        header_plain(junk_len, payload_len)[0] == 0x04,
        be16_at(header_plain(junk_len, payload_len), 3) == junk_len,
        be16_at(header_plain(junk_len, payload_len), 5) == payload_len,
{
}

/// A session cipher: a key and the nonce of its next use.
pub struct SnellCipher {
    key: [u8; 16],
    nonce: [u8; 12],
}

impl View for SnellCipher {
    type V = CipherState;

    closed spec fn view(&self) -> CipherState {
        CipherState { key: self.key@, counter: le_value(self.nonce@) }
    }
}

impl SnellCipher {
    /// The stored nonce is the one the counter stands for.
    proof fn lemma_nonce(&self)
        ensures
            self.nonce@ == self@.nonce(0),
            self@.counter < nonce_space(),
    {
        lemma_le_value_bound(self.nonce@);
        lemma_le_round_trip(self.nonce@);
        lemma_nonce_space();
        vstd::arithmetic::div_mod::lemma_small_mod(self@.counter, nonce_space());
    }

    /// Derives the session key from a pre-shared key and a salt.
    pub fn new(psk: &[u8], salt: &[u8]) -> (out: Result<SnellCipher, SnellError>)
        ensures
            match out {
                Ok(c) => argon2_takes(psk@, salt@) && c@ == fresh_cipher(
                    key_material(psk@, salt@),
                ),
                Err(e) => !argon2_takes(psk@, salt@) && e == SnellError::KeyDerivation,
            },
    {
        match argon2id_hash(KDF_M, KDF_T, KDF_P, psk, salt) {
            Ok(key_mat) => Ok(SnellCipher::from_key_material(&key_mat)),
            Err(_) => Err(SnellError::KeyDerivation),
        }
    }

    /// The cipher of derived key material, of which the first 16 bytes count.
    pub fn from_key_material(key_mat: &[u8; 32]) -> (c: SnellCipher)
        ensures
            c@ == fresh_cipher(key_mat@),
    {
        let mut key: [u8; 16] = [0;16];
        let mut i: usize = 0;
        while i < 16
            invariant
                i <= 16,
                forall|j: int| 0 <= j < i ==> key@[j] == key_mat@[j],
            decreases 16 - i,
        {
            key[i] = key_mat[i];
            i = i + 1;
        }
        let nonce: [u8; 12] = [0;12];
        assert(key@ =~= key_mat@.take(16));
        proof {
            lemma_le_wrap(Seq::new(12, |j: int| 255u8), nonce@);
        }
        SnellCipher { key, nonce }
    }

    /// Draws a fresh salt and derives the session key from it.
    pub fn with_random_salt(psk: &[u8]) -> (out: Result<([u8; 16], SnellCipher), SnellError>)
        ensures
            match out {
                Ok((salt, c)) => argon2_takes(psk@, salt@) && c@ == fresh_cipher(
                    key_material(psk@, salt@),
                ),
                Err(e) => psk@.len() > 0xffff_ffff && e == SnellError::KeyDerivation,
            },
    {
        let salt: [u8; 16] = random_bytes::<16>();
        match SnellCipher::new(psk, salt.as_slice()) {
            Ok(c) => Ok((salt, c)),
            Err(e) => Err(e),
        }
    }

    /// Moves to the next nonce.
    fn inc(&mut self)
        ensures
            final(self)@ == old(self)@.after(1),
    {
        self.nonce = next_nonce(&self.nonce);
    }

    /// Seals `msg` under the next nonce, bound to `aad`.
    fn seal_one(&mut self, aad: &[u8], msg: &[u8]) -> (out: Result<Vec<u8>, SnellError>)
        requires
            msg@.len() <= MAX_U16,
        ensures
            match out {
                Ok(ct) => {
                    &&& aad@.len() <= GCM_MAX
                    &&& ct@ == gcm_seal(old(self)@.key, old(self)@.nonce(0), aad@, msg@)
                    &&& ct@.len() == msg@.len() + 16
                    &&& gcm_open(old(self)@.key, old(self)@.nonce(0), aad@, ct@) == Some(msg@)
                    &&& final(self)@ == old(self)@.after(1)
                },
                Err(e) => {
                    &&& aad@.len() > GCM_MAX
                    &&& e == SnellError::Seal
                    &&& final(self)@ == old(self)@
                },
            },
    {
        proof {
            self.lemma_nonce();
        }
        match aes128gcm_encrypt(&self.key, &self.nonce, aad, msg) {
            Ok(ct) => {
                self.inc();
                Ok(ct)
            },
            Err(_) => Err(SnellError::Seal),
        }
    }

    /// Opens `ct` under the next nonce, which is used up only on success.
    fn open_one(&mut self, aad: &[u8], ct: &[u8]) -> (out: Option<Vec<u8>>)
        ensures
            match out {
                Some(pt) => {
                    &&& gcm_open(old(self)@.key, old(self)@.nonce(0), aad@, ct@) == Some(pt@)
                    &&& pt@.len() + 16 == ct@.len()
                },
                None => gcm_open(old(self)@.key, old(self)@.nonce(0), aad@, ct@) is None,
            },
            final(self)@ == after_open(old(self)@, aad@, ct@),
    {
        proof {
            self.lemma_nonce();
        }
        match aes128gcm_decrypt(&self.key, &self.nonce, aad, ct) {
            Ok(pt) => {
                self.inc();
                Some(pt)
            },
            Err(_) => None,
        }
    }

    /// Seals a chunk with a junk region: `prefix` is bound to the header and
    /// `junk` to the payload. The chunk opens back to `plaintext`.
    pub fn seal_with_junk(&mut self, plaintext: &[u8], prefix: &[u8], junk: &[u8]) -> (out: Result<
        Vec<u8>,
        SnellError,
    >)
        ensures
            match out {
                Ok(wire) => {
                    &&& plaintext@.len() <= MAX_U16 && junk@.len() <= MAX_U16 && prefix@.len()
                        <= GCM_MAX
                    &&& wire@ == sealed_chunk(old(self)@, prefix@, junk@, plaintext@)
                    &&& wire@.len() == HDR_CT_LEN + junk@.len() + plaintext@.len() + 16
                    &&& wire@.take(HDR_CT_LEN as int) == sealed_header(
                        old(self)@,
                        prefix@,
                        junk@.len(),
                        plaintext@.len(),
                    )
                    &&& wire@.subrange(HDR_CT_LEN as int, HDR_CT_LEN + junk@.len()) == junk@
                    &&& opens_to(
                        old(self)@,
                        prefix@,
                        junk@,
                        plaintext@,
                        wire@.take(HDR_CT_LEN as int),
                        wire@.skip(HDR_CT_LEN + junk@.len()),
                    )
                    &&& final(self)@ == old(self)@.after(2)
                },
                Err(e) => {
                    &&& e == if plaintext@.len() > MAX_U16 {
                        (SnellError::PlaintextTooLarge { len: plaintext.len() })
                    } else if junk@.len() > MAX_U16 {
                        (SnellError::JunkTooLarge { len: junk.len() })
                    } else {
                        SnellError::Seal
                    }
                    &&& plaintext@.len() > MAX_U16 || junk@.len() > MAX_U16 || prefix@.len()
                        > GCM_MAX
                    &&& final(self)@ == old(self)@
                },
            },
    {
        if plaintext.len() > MAX_U16 {
            return Err(SnellError::PlaintextTooLarge { len: plaintext.len() });
        }
        if junk.len() > MAX_U16 {
            return Err(SnellError::JunkTooLarge { len: junk.len() });
        }
        let ghost c0 = self@;
        let hdr: [u8; 7] = [
            0x04,
            0,
            0,
            (junk.len() / 256) as u8,
            (junk.len() % 256) as u8,
            (plaintext.len() / 256) as u8,
            (plaintext.len() % 256) as u8,
        ];
        proof {
            assert(hdr@ =~= header_plain(junk@.len(), plaintext@.len()));
            lemma_header_fields(junk@.len(), plaintext@.len());
        }
        let head: Vec<u8> = match self.seal_one(prefix, hdr.as_slice()) {
            Ok(ct) => ct,
            Err(e) => return Err(e),
        };
        let body: Vec<u8> = match self.seal_one(junk, plaintext) {
            Ok(ct) => ct,
            Err(e) => return Err(e),
        };
        let mut out: Vec<u8> = Vec::new();
        out.extend_from_slice(head.as_slice());
        out.extend_from_slice(junk);
        out.extend_from_slice(body.as_slice());
        proof {
            lemma_two_steps(c0);
            assert(out@.take(HDR_CT_LEN as int) =~= head@);
            assert(out@.skip(HDR_CT_LEN + junk@.len()) =~= body@);
            assert(out@ =~= sealed_chunk(c0, prefix@, junk@, plaintext@));
            assert(out@.subrange(HDR_CT_LEN as int, HDR_CT_LEN + junk@.len()) =~= junk@);
        }
        Ok(out)
    }

    /// Seals a chunk without junk, its header bound to `prefix`.
    pub fn seal_with_aad(&mut self, plaintext: &[u8], prefix: &[u8]) -> (out: Result<
        Vec<u8>,
        SnellError,
    >)
        ensures
            match out {
                Ok(wire) => {
                    &&& plaintext@.len() <= MAX_U16 && prefix@.len() <= GCM_MAX
                    &&& wire@ == sealed_chunk(old(self)@, prefix@, Seq::empty(), plaintext@)
                    &&& wire@.len() == HDR_CT_LEN + plaintext@.len() + 16
                    &&& opens_to(
                        old(self)@,
                        prefix@,
                        Seq::empty(),
                        plaintext@,
                        wire@.take(HDR_CT_LEN as int),
                        wire@.skip(HDR_CT_LEN as int),
                    )
                    &&& final(self)@ == old(self)@.after(2)
                },
                Err(e) => {
                    &&& e == if plaintext@.len() > MAX_U16 {
                        (SnellError::PlaintextTooLarge { len: plaintext.len() })
                    } else {
                        SnellError::Seal
                    }
                    &&& plaintext@.len() > MAX_U16 || prefix@.len() > GCM_MAX
                    &&& final(self)@ == old(self)@
                },
            },
    {
        let none: [u8; 0] = [];
        assert(none@ =~= Seq::<u8>::empty());
        self.seal_with_junk(plaintext, prefix, none.as_slice())
    }

    /// Seals a plain chunk: no junk, nothing bound to the header.
    pub fn seal(&mut self, plaintext: &[u8]) -> (out: Result<Vec<u8>, SnellError>)
        ensures
            match out {
                Ok(wire) => {
                    &&& plaintext@.len() <= MAX_U16
                    &&& wire@ == sealed_chunk(old(self)@, Seq::empty(), Seq::empty(), plaintext@)
                    &&& wire@.len() == HDR_CT_LEN + plaintext@.len() + 16
                    &&& opens_to(
                        old(self)@,
                        Seq::empty(),
                        Seq::empty(),
                        plaintext@,
                        wire@.take(HDR_CT_LEN as int),
                        wire@.skip(HDR_CT_LEN as int),
                    )
                    &&& final(self)@ == old(self)@.after(2)
                },
                Err(e) => {
                    &&& plaintext@.len() > MAX_U16
                    &&& e == (SnellError::PlaintextTooLarge { len: plaintext.len() })
                    &&& final(self)@ == old(self)@
                },
            },
    {
        let none: [u8; 0] = [];
        assert(none@ =~= Seq::<u8>::empty());
        self.seal_with_aad(plaintext, none.as_slice())
    }

    /// Seals the header of a chunk without payload that announces `junk_len`
    /// bytes of junk, bound to `prefix`.
    pub fn seal_zero_with_junk(&mut self, prefix: &[u8], junk_len: usize) -> (out: Result<
        Vec<u8>,
        SnellError,
    >)
        ensures
            match out {
                Ok(wire) => {
                    &&& junk_len <= MAX_U16 && prefix@.len() <= GCM_MAX
                    &&& wire@ == sealed_header(old(self)@, prefix@, junk_len as nat, 0)
                    &&& wire@.len() == HDR_CT_LEN
                    &&& opened_header(old(self)@, prefix@, wire@) == Ok::<
                        (usize, usize),
                        SnellError,
                    >((junk_len, 0))
                    &&& after_open(old(self)@, prefix@, wire@) == old(self)@.after(1)
                    &&& final(self)@ == old(self)@.after(1)
                },
                Err(e) => {
                    &&& e == if junk_len > MAX_U16 {
                        (SnellError::JunkTooLarge { len: junk_len })
                    } else {
                        SnellError::Seal
                    }
                    &&& junk_len > MAX_U16 || prefix@.len() > GCM_MAX
                    &&& final(self)@ == old(self)@
                },
            },
    {
        if junk_len > MAX_U16 {
            return Err(SnellError::JunkTooLarge { len: junk_len });
        }
        let hdr: [u8; 7] = [0x04, 0, 0, (junk_len / 256) as u8, (junk_len % 256) as u8, 0, 0];
        proof {
            assert(hdr@ =~= header_plain(junk_len as nat, 0));
            lemma_header_fields(junk_len as nat, 0);
        }
        self.seal_one(prefix, hdr.as_slice())
    }

    /// Seals the zero chunk that ends a session.
    pub fn seal_zero(&mut self) -> (out: Result<Vec<u8>, SnellError>)
        ensures
            out is Ok,
            out->Ok_0@ == sealed_header(old(self)@, Seq::empty(), 0, 0),
            out->Ok_0@.len() == HDR_CT_LEN,
            opened_header(old(self)@, Seq::empty(), out->Ok_0@) == Ok::<(usize, usize), SnellError>(
                (0, 0),
            ),
            after_open(old(self)@, Seq::empty(), out->Ok_0@) == old(self)@.after(1),
            final(self)@ == old(self)@.after(1),
    {
        let none: [u8; 0] = [];
        assert(none@ =~= Seq::<u8>::empty());
        self.seal_zero_with_junk(none.as_slice(), 0)
    }

    /// Opens a header bound to `prefix`: junk length and payload length.
    pub fn open_header_raw_with_aad(&mut self, ct: &[u8; 23], prefix: &[u8]) -> (out: Result<
        (usize, usize),
        SnellError,
    >)
        ensures
            out == opened_header(old(self)@, prefix@, ct@),
            final(self)@ == after_open(old(self)@, prefix@, ct@),
            out matches Ok((junk_len, payload_len)) ==> junk_len <= MAX_U16 && payload_len
                <= MAX_U16,
    {
        match self.open_one(prefix, ct.as_slice()) {
            None => Err(SnellError::HeaderAuth),
            Some(pt) => {
                if pt[0] != 0x04 {
                    return Err(SnellError::HeaderType { type_byte: pt[0] });
                }
                let junk_len: usize = pt[3] as usize * 256 + pt[4] as usize;
                let payload_len: usize = pt[5] as usize * 256 + pt[6] as usize;
                Ok((junk_len, payload_len))
            },
        }
    }

    /// Opens a plain header: junk and payload length, or `None` for the zero
    /// chunk.
    pub fn open_header(&mut self, ct: &[u8; 23]) -> (out: Result<
        Option<(usize, usize)>,
        SnellError,
    >)
        ensures
            out == match opened_header(old(self)@, Seq::empty(), ct@) {
                Ok((junk_len, payload_len)) => Ok(
                    if payload_len == 0 {
                        None
                    } else {
                        Some((junk_len, payload_len))
                    },
                ),
                Err(e) => Err(e),
            },
            final(self)@ == after_open(old(self)@, Seq::empty(), ct@),
            out matches Ok(Some((junk_len, payload_len))) ==> junk_len <= MAX_U16 && payload_len
                <= MAX_U16,
    {
        let none: [u8; 0] = [];
        assert(none@ =~= Seq::<u8>::empty());
        match self.open_header_raw_with_aad(ct, none.as_slice()) {
            Ok((junk_len, payload_len)) => if payload_len == 0 {
                Ok(None)
            } else {
                Ok(Some((junk_len, payload_len)))
            },
            Err(e) => Err(e),
        }
    }

    /// Opens a payload bound to `junk`.
    pub fn open_payload_with_aad(&mut self, ct: &[u8], junk: &[u8]) -> (out: Result<
        Vec<u8>,
        SnellError,
    >)
        ensures
            match gcm_open(old(self)@.key, old(self)@.nonce(0), junk@, ct@) {
                Some(pt) => out is Ok && out->Ok_0@ == pt && pt.len() + 16 == ct@.len(),
                None => out is Err && out->Err_0 == SnellError::PayloadAuth,
            },
            final(self)@ == after_open(old(self)@, junk@, ct@),
    {
        match self.open_one(junk, ct) {
            Some(pt) => Ok(pt),
            None => Err(SnellError::PayloadAuth),
        }
    }

    /// Opens a payload to which nothing is bound.
    pub fn open_payload(&mut self, ct: &[u8]) -> (out: Result<Vec<u8>, SnellError>)
        ensures
            match gcm_open(old(self)@.key, old(self)@.nonce(0), Seq::empty(), ct@) {
                Some(pt) => out is Ok && out->Ok_0@ == pt && pt.len() + 16 == ct@.len(),
                None => out is Err && out->Err_0 == SnellError::PayloadAuth,
            },
            final(self)@ == after_open(old(self)@, Seq::empty(), ct@),
    {
        let none: [u8; 0] = [];
        assert(none@ =~= Seq::<u8>::empty());
        self.open_payload_with_aad(ct, none.as_slice())
    }
}

/// Two uses of a nonce are one use after another.
pub proof fn lemma_two_steps(c: CipherState)
    ensures
        c.after(1).after(1) == c.after(2),
        c.after(1).nonce(0) == c.nonce(1),
{
    vstd::arithmetic::div_mod::lemma_add_mod_noop(c.counter as int + 1, 1, nonce_space() as int);
    vstd::arithmetic::div_mod::lemma_mod_twice(c.counter as int + 1, nonce_space() as int);
}

/// The nonce that follows `nonce`: its number plus one, modulo the nonce space.
fn next_nonce(nonce: &[u8; 12]) -> (out: [u8; 12])
    ensures
        le_value(out@) == (le_value(nonce@) + 1) % nonce_space(),
{
    let mut out: [u8; 12] = *nonce;
    let mut i: usize = 0;
    proof {
        lemma_nonce_space();
        lemma_le_value_bound(nonce@);
    }
    while i < 12
        invariant
            i <= 12,
            forall|j: int| 0 <= j < i ==> nonce@[j] == 255 && out@[j] == 0,
            forall|j: int| i <= j < 12 ==> nonce@[j] == out@[j],
            le_value(nonce@) < nonce_space(),
            pow256(12) == nonce_space(),
        decreases 12 - i,
    {
        let b: u8 = out[i].wrapping_add(1);
        out[i] = b;
        if b != 0 {
            proof {
                lemma_le_increment(nonce@, out@, i as int);
                lemma_le_value_bound(out@);
                vstd::arithmetic::div_mod::lemma_small_mod(le_value(nonce@) + 1, nonce_space());
            }
            return out;
        }
        i = i + 1;
    }
    proof {
        lemma_le_wrap(nonce@, out@);
    }
    out
}

proof fn lemma_nonce_space()
    ensures
        pow256(12) == nonce_space(),
{
    reveal_with_fuel(pow256, 13);
}

/// The state behind `k` chunks with payload.
pub open spec fn after_chunks(c: CipherState, k: nat) -> CipherState
    decreases k,
{
    if k == 0 {
        c
    } else {
        after_chunks(c, (k - 1) as nat).after(2)
    }
}

/// In a fresh session the header of chunk `k` is sealed under nonce `2k` and its
/// payload under nonce `2k + 1`.
pub proof fn lemma_chunk_nonces(key: Seq<u8>, k: nat)
    requires
        2 * k + 1 < nonce_space(),
    ensures
        after_chunks(CipherState { key, counter: 0 }, k).nonce(0) == le_bytes(2 * k, 12),
        after_chunks(CipherState { key, counter: 0 }, k).nonce(1) == le_bytes(2 * k + 1, 12),
{
    lemma_chunk_counter(key, k);
    vstd::arithmetic::div_mod::lemma_small_mod(2 * k, nonce_space());
    vstd::arithmetic::div_mod::lemma_small_mod(2 * k + 1, nonce_space());
}

proof fn lemma_chunk_counter(key: Seq<u8>, k: nat)
    requires
        2 * k < nonce_space(),
    ensures
        after_chunks(CipherState { key, counter: 0 }, k) == (CipherState { key, counter: 2 * k }),
    decreases k,
{
    if k > 0 {
        lemma_chunk_counter(key, (k - 1) as nat);
        vstd::arithmetic::div_mod::lemma_small_mod(2 * k, nonce_space());
    }
}

/// No two uses of a cipher share a nonce until the whole nonce space is used up.
pub proof fn lemma_nonces_are_distinct(c: CipherState, i: nat, j: nat)
    requires
        i < j < i + nonce_space(),
    ensures
        c.nonce(i) != c.nonce(j),
{
    let a = (c.counter + i) % nonce_space();
    let b = (c.counter + j) % nonce_space();
    let n = nonce_space() as int;
    if a == b {
        let qa = (c.counter + i) as int / n;
        let qb = (c.counter + j) as int / n;
        vstd::arithmetic::div_mod::lemma_fundamental_div_mod((c.counter + i) as int, n);
        vstd::arithmetic::div_mod::lemma_fundamental_div_mod((c.counter + j) as int, n);
        assert(j - i == n * qb - n * qa);
        assert(n * qb - n * qa == n * (qb - qa)) by (nonlinear_arith);
        assert(0 < n * (qb - qa) < n ==> false) by (nonlinear_arith)
            requires
                n > 0,
        ;
    }
    lemma_nonce_space();
    lemma_le_value_of_bytes(a, 12);
    lemma_le_value_of_bytes(b, 12);
}

/// A header plaintext is the byte 4, two zeros, and the two lengths, each in two
/// bytes with the higher one first.
pub proof fn lemma_header_layout(junk_len: nat, payload_len: nat)
    requires
        junk_len <= 0xffff,
        payload_len <= 0xffff,
    ensures
        header_plain(junk_len, payload_len) == seq![
            0x04u8,
            0x00,
            0x00,
            (junk_len / 256) as u8,
            (junk_len % 256) as u8,
            (payload_len / 256) as u8,
            (payload_len % 256) as u8,
        ],
{
    assert(header_plain(junk_len, payload_len) =~= seq![
        0x04u8,
        0x00,
        0x00,
        (junk_len / 256) as u8,
        (junk_len % 256) as u8,
        (payload_len / 256) as u8,
        (payload_len % 256) as u8,
    ]);
}

/// What a reader makes of a header: forged, of an unknown type, or two lengths
/// with the higher byte first. The two bytes behind the type do not matter. The
/// nonce is used up unless the header is forged.
pub proof fn lemma_opened_headers(c: CipherState, prefix: Seq<u8>, ct: Seq<u8>)
    ensures
        match gcm_open(c.key, c.nonce(0), prefix, ct) {
            None => {
                &&& opened_header(c, prefix, ct) == Err::<(usize, usize), SnellError>(
                    SnellError::HeaderAuth,
                )
                &&& after_open(c, prefix, ct) == c
            },
            Some(h) => {
                &&& h[0] != 4 ==> opened_header(c, prefix, ct) == Err::<(usize, usize), SnellError>(
                    (SnellError::HeaderType { type_byte: h[0] }),
                )
                &&& h[0] == 4 ==> opened_header(c, prefix, ct) == Ok::<(usize, usize), SnellError>(
                    ((h[3] * 256 + h[4]) as usize, (h[5] * 256 + h[6]) as usize),
                )
                &&& after_open(c, prefix, ct) == c.after(1)
            },
        },
{
}

/// A session starts with the first 16 bytes of Argon2id over key and salt, with 8
/// KiB, three passes and one lane, and with a nonce of zeros.
pub proof fn lemma_fresh_session(psk: Seq<u8>, salt: Seq<u8>)
    ensures
        ({
            let c = fresh_cipher(key_material(psk, salt));
            &&& c.key == argon2id(8, 3, 1, psk, salt).take(16)
            &&& c.nonce(0) == seq![0u8, 0, 0, 0, 0, 0, 0, 0, 0, 0, 0, 0]
        }),
{
    let c = fresh_cipher(key_material(psk, salt));
    reveal_with_fuel(le_bytes, 13);
    assert(c.nonce(0) =~= seq![0u8, 0, 0, 0, 0, 0, 0, 0, 0, 0, 0, 0]);
}

/// The nonce is the number of uses before it, in twelve bytes with the lowest
/// first.
pub proof fn lemma_nonce_counts_uses(c: CipherState, n: nat)
    requires
        c.counter + n < nonce_space(),
    ensures
        nonce_space() == pow256(12),
        c.nonce(n).len() == 12,
        le_value(c.nonce(n)) == c.counter + n,
        c.after(n).counter == c.counter + n,
        c.after(n).key == c.key,
        c.after(n).nonce(0) == c.nonce(n),
{
    lemma_nonce_space();
    vstd::arithmetic::div_mod::lemma_small_mod(c.counter + n, nonce_space());
    lemma_le_value_of_bytes(c.counter + n, 12);
}

/// Two bytes are read with the higher one first, as they are written.
pub proof fn lemma_be16(n: u16, s: Seq<u8>, at: int)
    requires
        0 <= at,
        at + 2 <= s.len(),
    ensures
        be16(n as nat) == seq![(n / 256) as u8, (n % 256) as u8],
        be16_at(s, at) == 256 * s[at] + s[at + 1],
        be16_at(be16(n as nat), 0) == n,
{
}

/// A chunk is its header, sealed under the next nonce and bound to the prefix, its
/// junk in the clear, and its payload, sealed under the nonce behind that one and
/// bound to the junk.
pub proof fn lemma_chunk_layout(c: CipherState, prefix: Seq<u8>, junk: Seq<u8>, payload: Seq<u8>)
    requires
        junk.len() <= 0xffff,
        payload.len() <= 0xffff,
    ensures
        ({
            let header = seq![
                0x04u8,
                0x00,
                0x00,
                (junk.len() / 256) as u8,
                (junk.len() % 256) as u8,
                (payload.len() / 256) as u8,
                (payload.len() % 256) as u8,
            ];
            &&& sealed_header(c, prefix, junk.len(), payload.len()) == gcm_seal(
                c.key,
                c.nonce(0),
                prefix,
                header,
            )
            &&& sealed_chunk(c, prefix, junk, payload) == gcm_seal(
                c.key,
                c.nonce(0),
                prefix,
                header,
            ) + junk + gcm_seal(c.key, c.after(1).nonce(0), junk, payload)
        }),
{
    lemma_two_steps(c);
    lemma_header_layout(junk.len(), payload.len());
}

/// What it takes for the sealed parts of a chunk to open: the header under the next
/// nonce, bound to the prefix, to the two lengths; the body under the nonce behind
/// that one, bound to the junk, to the payload.
pub proof fn lemma_opening_chunks(
    c: CipherState,
    prefix: Seq<u8>,
    junk: Seq<u8>,
    payload: Seq<u8>,
    header: Seq<u8>,
    body: Seq<u8>,
)
    requires
        opens_to(c, prefix, junk, payload, header, body),
        junk.len() <= 0xffff,
        payload.len() <= 0xffff,
    ensures
        gcm_open(c.key, c.nonce(0), prefix, header) is Some,
        ({
            let h = gcm_open(c.key, c.nonce(0), prefix, header)->Some_0;
            h[0] == 4 && h[3] * 256 + h[4] == junk.len() && h[5] * 256 + h[6] == payload.len()
        }),
        gcm_open(c.key, c.nonce(1), junk, body) == Some(payload),
{
    lemma_two_steps(c);
}

} // verus!
