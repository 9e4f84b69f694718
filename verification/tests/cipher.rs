use snell::cipher::{SnellCipher, HDR_CT_LEN, SALT_LEN};
use snell::SnellError;

const TEST_PSK: &[u8] = b"unit-test-psk-with-enough-bytes!";
const TEST_SALT: [u8; SALT_LEN] = [0u8; SALT_LEN];

fn cipher_pair() -> (SnellCipher, SnellCipher) {
    (
        SnellCipher::new(TEST_PSK, &TEST_SALT).unwrap(),
        SnellCipher::new(TEST_PSK, &TEST_SALT).unwrap(),
    )
}

/// Split a sealed chunk into its sealed header and its sealed payload.
fn split(sealed: &[u8]) -> ([u8; HDR_CT_LEN], Vec<u8>) {
    let mut hdr = [0u8; HDR_CT_LEN];
    hdr.copy_from_slice(&sealed[..HDR_CT_LEN]);
    (hdr, sealed[HDR_CT_LEN..].to_vec())
}

#[test]
fn seal_open_roundtrip_basic() {
    let (mut tx, mut rx) = cipher_pair();
    let plaintext = b"hello cipher";
    let sealed = tx.seal(plaintext).unwrap();
    let (hdr, body) = split(&sealed);

    let (interleave, payload_len) = rx.open_header(&hdr).unwrap().unwrap();
    assert_eq!(interleave, 0);
    assert_eq!(payload_len, plaintext.len());
    assert_eq!(body.len(), payload_len + 16);

    let pt = rx.open_payload(&body).unwrap();
    assert_eq!(pt, plaintext);
}

#[test]
fn seal_zero_open_header_returns_none() {
    let (mut tx, mut rx) = cipher_pair();
    let zero = tx.seal_zero().unwrap();
    assert_eq!(zero.len(), HDR_CT_LEN);
    let hdr: [u8; HDR_CT_LEN] = zero.try_into().unwrap();
    let out = rx.open_header(&hdr).unwrap();
    assert!(out.is_none());
}

#[test]
fn failed_open_header_does_not_advance_nonce() {
    let (mut tx, mut rx) = cipher_pair();
    let sealed = tx.seal(b"witness").unwrap();
    let (hdr, body) = split(&sealed);

    let mut tampered = hdr;
    tampered[0] ^= 0xff;
    assert!(rx.open_header(&tampered).is_err());

    let opened = rx.open_header(&hdr).unwrap().unwrap();
    assert_eq!(opened.1, b"witness".len());
    let pt = rx.open_payload(&body).unwrap();
    assert_eq!(pt, b"witness");
}

#[test]
fn failed_open_payload_does_not_advance_nonce() {
    let (mut tx, mut rx) = cipher_pair();
    let sealed = tx.seal(b"payload-witness").unwrap();
    let (hdr, body) = split(&sealed);

    rx.open_header(&hdr).unwrap().unwrap();

    let mut tampered = body.clone();
    tampered[0] ^= 0xff;
    assert!(rx.open_payload(&tampered).is_err());

    let pt = rx.open_payload(&body).unwrap();
    assert_eq!(pt, b"payload-witness");
}

#[test]
fn plaintext_above_protocol_limit_is_rejected() {
    let mut c = SnellCipher::new(TEST_PSK, &TEST_SALT).unwrap();
    let oversize = vec![0u8; 0x10000];
    assert!(c.seal(&oversize).is_err());

    let at_limit = vec![0u8; 0xffff];
    assert!(c.seal(&at_limit).is_ok());
}

#[test]
fn wrong_psk_fails_decryption() {
    let mut tx = SnellCipher::new(TEST_PSK, &TEST_SALT).unwrap();
    let mut rx = SnellCipher::new(b"different-psk-also-long-enough!!", &TEST_SALT).unwrap();
    let sealed = tx.seal(b"secret").unwrap();
    let (hdr, _) = split(&sealed);
    assert!(rx.open_header(&hdr).is_err());
}

#[test]
fn wrong_salt_fails_decryption() {
    let mut tx = SnellCipher::new(TEST_PSK, &TEST_SALT).unwrap();
    let alt_salt = [0xAAu8; SALT_LEN];
    let mut rx = SnellCipher::new(TEST_PSK, &alt_salt).unwrap();
    let sealed = tx.seal(b"secret").unwrap();
    let (hdr, _) = split(&sealed);
    assert!(rx.open_header(&hdr).is_err());
}

#[test]
fn chunks_must_be_opened_in_order() {
    let (mut tx, mut rx) = cipher_pair();
    let _ct1 = tx.seal(b"first").unwrap();
    let ct2 = tx.seal(b"second").unwrap();
    let (hdr2, _) = split(&ct2);
    assert!(rx.open_header(&hdr2).is_err());
}

#[test]
fn with_random_salt_produces_usable_cipher() {
    let (salt, mut tx) = SnellCipher::with_random_salt(TEST_PSK).unwrap();
    assert_eq!(salt.len(), SALT_LEN);
    let mut rx = SnellCipher::new(TEST_PSK, &salt).unwrap();
    let sealed = tx.seal(b"derived").unwrap();
    let (hdr, body) = split(&sealed);
    let (_, payload_len) = rx.open_header(&hdr).unwrap().unwrap();
    assert_eq!(payload_len, b"derived".len());
    let pt = rx.open_payload(&body).unwrap();
    assert_eq!(pt, b"derived");
}

#[test]
fn random_salts_differ() {
    let (a, _) = SnellCipher::with_random_salt(TEST_PSK).unwrap();
    let (b, _) = SnellCipher::with_random_salt(TEST_PSK).unwrap();
    assert_ne!(a, b);
    assert_ne!(a, [0u8; SALT_LEN]);
}

#[test]
fn short_salt_is_refused() {
    assert_eq!(SnellCipher::new(TEST_PSK, &[1u8; 7]).err(), Some(SnellError::KeyDerivation));
    assert!(SnellCipher::new(TEST_PSK, &[1u8; 8]).is_ok());
}

#[test]
fn error_variants_name_the_fault() {
    let (mut tx, mut rx) = cipher_pair();
    assert_eq!(
        tx.seal(&vec![0u8; 0x10000]).err(),
        Some(SnellError::PlaintextTooLarge { len: 0x10000 })
    );
    assert_eq!(
        tx.seal_with_junk(b"x", b"p", &vec![0u8; 0x10000]).err(),
        Some(SnellError::JunkTooLarge { len: 0x10000 })
    );
    assert_eq!(
        tx.seal_zero_with_junk(b"p", 0x10000).err(),
        Some(SnellError::JunkTooLarge { len: 0x10000 })
    );
    assert_eq!(rx.open_header(&[0u8; HDR_CT_LEN]).err(), Some(SnellError::HeaderAuth));
    assert_eq!(rx.open_payload(&[0u8; 40]).err(), Some(SnellError::PayloadAuth));
    assert_eq!(rx.open_payload(&[0u8; 3]).err(), Some(SnellError::PayloadAuth));
}

#[test]
fn header_of_another_type_is_refused() {
    // A sealed seven-byte payload in the place of a header: it authenticates
    // under the second nonce but does not start with the header type.
    let (mut tx, mut rx) = cipher_pair();
    let sealed = tx.seal(&[9u8, 0, 0, 0, 0, 0, 1]).unwrap();
    let (hdr, body) = split(&sealed);
    rx.open_header(&hdr).unwrap().unwrap();
    let as_header: [u8; HDR_CT_LEN] = body.try_into().unwrap();
    assert_eq!(
        rx.open_header(&as_header).err(),
        Some(SnellError::HeaderType { type_byte: 9 })
    );
}

#[test]
fn junk_and_prefix_are_bound_to_the_chunk() {
    let (mut tx, mut rx) = cipher_pair();
    let sealed = tx.seal_with_junk(b"payload", b"prefix", b"junk").unwrap();
    let (hdr, rest) = split(&sealed);
    assert_eq!(&rest[..4], b"junk");
    assert!(rx.open_header_raw_with_aad(&hdr, b"other").is_err());
    assert_eq!(rx.open_header_raw_with_aad(&hdr, b"prefix"), Ok((4, 7)));
    assert!(rx.open_payload_with_aad(&rest[4..], b"jonk").is_err());
    assert_eq!(rx.open_payload_with_aad(&rest[4..], b"junk").unwrap(), b"payload");
}

#[test]
fn zero_header_announces_its_junk() {
    let (mut tx, mut rx) = cipher_pair();
    let zero = tx.seal_zero_with_junk(b"pfx", 300).unwrap();
    let hdr: [u8; HDR_CT_LEN] = zero.try_into().unwrap();
    assert_eq!(rx.open_header_raw_with_aad(&hdr, b"pfx"), Ok((300, 0)));
}

#[test]
fn every_use_of_a_cipher_has_its_own_nonce() {
    // The same plaintext sealed again and again never gives the same bytes.
    let mut tx = SnellCipher::new(TEST_PSK, &TEST_SALT).unwrap();
    let mut seen = Vec::new();
    for _ in 0..300 {
        let wire = tx.seal(b"same").unwrap();
        assert!(!seen.contains(&wire));
        seen.push(wire);
    }
}
