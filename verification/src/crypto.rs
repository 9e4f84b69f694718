//! The outside cryptography and randomness the protocol rests on.

use vstd::prelude::*;
use aes_gcm::aead::Aead;
use aes_gcm::KeyInit;
use blake2::Digest;
use rand::RngCore;

verus! {

/// Longest message and longest associated data that AES-GCM takes, in bytes.
pub const GCM_MAX: u64 = 0x10_0000_0000;

/// Longest password and longest salt that Argon2 takes, in bytes.
pub const ARGON2_MAX_LEN: u64 = 0xffff_ffff;

/// Shortest salt that Argon2 takes, in bytes.
pub const ARGON2_MIN_SALT: u64 = 8;

/// The AEAD's opaque refusal.
#[verifier::external_type_specification]
#[verifier::external_body]
pub struct ExAeadError(aes_gcm::Error);

/// Argon2's refusal of its parameters or inputs.
#[verifier::external_type_specification]
#[verifier::external_body]
pub struct ExArgon2Error(argon2::Error);

/// The 32-byte BLAKE2b digest (no key, no salt) of a byte string.
pub uninterp spec fn blake2b256(data: Seq<u8>) -> Seq<u8>;

/// The 32 bytes that Argon2id (version 0x13) derives from a password and a salt
/// with the given memory (KiB), passes and lanes.
pub uninterp spec fn argon2id(m: u32, t: u32, p: u32, pwd: Seq<u8>, salt: Seq<u8>) -> Seq<u8>;

/// AES-128-GCM ciphertext with its 16-byte tag behind it.
pub uninterp spec fn gcm_seal(key: Seq<u8>, nonce: Seq<u8>, aad: Seq<u8>, msg: Seq<u8>) -> Seq<u8>;

/// What AES-128-GCM opens a tagged ciphertext to; `None` where it refuses.
pub uninterp spec fn gcm_open(
    key: Seq<u8>,
    nonce: Seq<u8>,
    aad: Seq<u8>,
    ct: Seq<u8>,
) -> Option<Seq<u8>>;

/// Whether Argon2 takes a password and a salt of these lengths.
pub open spec fn argon2_takes(pwd: Seq<u8>, salt: Seq<u8>) -> bool {
    pwd.len() <= ARGON2_MAX_LEN && ARGON2_MIN_SALT <= salt.len() && salt.len() <= ARGON2_MAX_LEN
}

/// Whether AES-GCM takes associated data and a message of these lengths.
pub open spec fn gcm_takes(aad: Seq<u8>, msg: Seq<u8>) -> bool {
    aad.len() <= GCM_MAX && msg.len() <= GCM_MAX
}

/// Calls `blake2::Blake2b::<U32>`: `new`, `update` with `prefix`, `update` with
/// `data`, `finalize`.
///
/// Trusted: the digest is a function of the bytes fed in, in the order they
/// were fed, however they were cut into updates.
#[verifier::external_body]
pub(crate) fn blake2b256_digest(prefix: &[u8], data: &[u8]) -> (out: [u8; 32])
    ensures
        out@ == blake2b256(prefix@ + data@),
{
    let mut h = blake2::Blake2b::<blake2::digest::consts::U32>::new();
    h.update(prefix);
    h.update(data);
    h.finalize().into()
}

/// Calls `argon2::Argon2::hash_password_into` (Argon2id, version 0x13) for 32
/// bytes of output.
///
/// Trusted: with parameters in range it refuses exactly the inputs whose length
/// is out of range, and the output is a function of the arguments alone.
#[verifier::external_body]
pub(crate) fn argon2id_hash(m: u32, t: u32, p: u32, pwd: &[u8], salt: &[u8]) -> (out: Result<
    [u8; 32],
    argon2::Error,
>)
    requires
        1 <= p <= 0xff_ffff,
        8 * p <= m <= 0x10_0000,
        1 <= t,
    ensures
        match out {
            Ok(key) => argon2_takes(pwd@, salt@) && key@ == argon2id(m, t, p, pwd@, salt@),
            Err(_) => !argon2_takes(pwd@, salt@),
        },
{
    let params = argon2::Params::new(m, t, p, Some(32))?;
    let mut key = [0u8; 32];
    argon2::Argon2::new(
        argon2::Algorithm::Argon2id,
        argon2::Version::V0x13,
        params,
    ).hash_password_into(pwd, salt, &mut key)?;
    Ok(key)
}

/// Calls `aes_gcm::Aes128Gcm::encrypt` with associated data.
///
/// Trusted: it refuses exactly the inputs that are too long; otherwise it
/// returns the ciphertext, as long as the message, with the 16-byte tag behind
/// it, a function of the arguments alone, and opening that under the same key,
/// nonce and associated data gives the message back.
#[verifier::external_body]
pub(crate) fn aes128gcm_encrypt(key: &[u8; 16], nonce: &[u8; 12], aad: &[u8], msg: &[u8]) -> (out:
    Result<Vec<u8>, aes_gcm::Error>)
    requires
        msg@.len() + 16 <= isize::MAX,
    ensures
        match out {
            Ok(ct) => {
                &&& gcm_takes(aad@, msg@)
                &&& ct@ == gcm_seal(key@, nonce@, aad@, msg@)
                &&& ct@.len() == msg@.len() + 16
                &&& gcm_open(key@, nonce@, aad@, ct@) == Some(msg@)
            },
            Err(_) => !gcm_takes(aad@, msg@),
        },
{
    let aead = aes_gcm::Aes128Gcm::new(aes_gcm::Key::<aes_gcm::Aes128Gcm>::from_slice(key));
    aead.encrypt(aes_gcm::Nonce::from_slice(nonce), aes_gcm::aead::Payload { msg, aad })
}

/// Calls `aes_gcm::Aes128Gcm::decrypt` with associated data.
///
/// Trusted: whether it opens, and to what, is a function of the arguments
/// alone; an opened message is 16 bytes shorter than the tagged ciphertext.
#[verifier::external_body]
pub(crate) fn aes128gcm_decrypt(key: &[u8; 16], nonce: &[u8; 12], aad: &[u8], ct: &[u8]) -> (out:
    Result<Vec<u8>, aes_gcm::Error>)
    ensures
        match out {
            Ok(msg) => {
                &&& gcm_open(key@, nonce@, aad@, ct@) == Some(msg@)
                &&& msg@.len() + 16 == ct@.len()
            },
            Err(_) => gcm_open(key@, nonce@, aad@, ct@) is None,
        },
{
    let aead = aes_gcm::Aes128Gcm::new(aes_gcm::Key::<aes_gcm::Aes128Gcm>::from_slice(key));
    aead.decrypt(aes_gcm::Nonce::from_slice(nonce), aes_gcm::aead::Payload { msg: ct, aad })
}

/// Calls `rand::thread_rng().fill_bytes` on `N` bytes.
///
/// Nothing is claimed of the bytes: any value can come back.
#[verifier::external_body]
pub(crate) fn random_bytes<const N: usize>() -> (out: [u8; N]) {
    let mut out = [0u8; N];
    rand::thread_rng().fill_bytes(&mut out);
    out
}

} // verus!
