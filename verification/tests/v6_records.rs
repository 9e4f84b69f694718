use snell::cipher::{SnellCipher, HDR_CT_LEN};
use snell::obfs::{disguise_of, Obfs};
use snell::salt_cache::SaltCache;
use snell::session::{accept_upward, handshake_bytes, handshake_len, open_downward};
use snell::session::{open_upward, read_handshake, Session};
use snell::v6::io::{open_record_body, open_record_head, record_head_len};
use snell::v6::{decode_unsafe_raw, encode_unsafe_raw, read_record, read_unsafe_raw};
use snell::v6::{seal_record, seal_record_shaped, write_records, write_unsafe_raw};
use snell::v6::{write_unsafe_raw_zero, write_zero_record, Mode, Profile};
use snell::SnellError;

const PSK_A: &[u8] = b"test-psk-0123456789abcdef";
const PSK: &[u8] = b"io-test-psk-0123456789abcdef";

fn unhex(s: &str) -> Vec<u8> {
    (0..s.len())
        .step_by(2)
        .map(|i| u8::from_str_radix(&s[i..i + 2], 16).unwrap())
        .collect()
}

fn hex(b: &[u8]) -> String {
    b.iter().map(|x| format!("{x:02x}")).collect()
}

/// Reads one record off the front of a stream.
fn take(
    stream: &mut &[u8],
    rx: &mut SnellCipher,
    profile: &Profile,
    k: &mut u64,
) -> Option<Vec<u8>> {
    let (payload, used) = read_record(stream, rx, profile, k).unwrap();
    *stream = &stream[used..];
    payload
}

#[test]
fn empty_junk_matches_the_plain_record() {
    let p = Profile::derive(PSK_A);
    let prefix = vec![0u8; p.prefix_len(0)];
    let mut c1 = SnellCipher::new(PSK_A, &[3u8; 16]).unwrap();
    let mut c2 = SnellCipher::new(PSK_A, &[3u8; 16]).unwrap();
    assert_eq!(
        seal_record_shaped(&mut c1, &p, 0, b"payload", &prefix, &[]).unwrap(),
        seal_record(&mut c2, b"payload", &prefix).unwrap()
    );
}

#[test]
fn shaped_record_permutes_junk_and_ciphertext() {
    let p = Profile::derive(PSK_A);
    let prefix = vec![0u8; p.prefix_len(0)];
    let junk: Vec<u8> = (0..879u32).map(|i| (i % 251) as u8).collect();
    let mut cipher = SnellCipher::new(PSK_A, &[3u8; 16]).unwrap();
    let rec = seal_record_shaped(&mut cipher, &p, 0, &[0u8; 86], &prefix, &junk).unwrap();

    let body = &rec[prefix.len() + HDR_CT_LEN..];
    assert_eq!(body.len(), junk.len() + 86 + 16);
    assert_ne!(&body[..junk.len()], &junk[..], "junk region was not mixed");
    assert_eq!(&body[51..junk.len()], &junk[51..]);
}

#[test]
fn default_records_round_trip_with_prefixes() {
    let profile = Profile::derive(PSK);
    let salt = [7u8; 16];
    let mut tx = SnellCipher::new(PSK, &salt).unwrap();
    let mut k = 0u64;
    let mut wire = write_records(&mut tx, &profile, &mut k, b"first").unwrap();
    wire.extend(write_records(&mut tx, &profile, &mut k, b"second-chunk").unwrap());
    wire.extend(write_zero_record(&mut tx, &profile, &mut k).unwrap());

    let mut s = &wire[..];
    let mut rx = SnellCipher::new(PSK, &salt).unwrap();
    let mut k = 0u64;
    assert_eq!(take(&mut s, &mut rx, &profile, &mut k).unwrap(), b"first");
    assert_eq!(take(&mut s, &mut rx, &profile, &mut k).unwrap(), b"second-chunk");
    assert!(take(&mut s, &mut rx, &profile, &mut k).is_none());
    assert!(s.is_empty());
    assert_eq!(k, 3);
}

#[test]
fn shaped_records_with_junk_round_trip() {
    let profile = Profile::derive(PSK);
    let salt = [9u8; 16];
    let payloads: [&[u8]; 5] = [b"alpha", b"beta", b"gamma", b"delta", b"epsilon"];
    let junk_lens = [0usize, 1, 879, 3, 4096];

    let mut tx = SnellCipher::new(PSK, &salt).unwrap();
    let mut k = 0u64;
    let mut wire = Vec::new();
    for (payload, &jl) in payloads.iter().zip(junk_lens.iter()) {
        let prefix = vec![0xABu8; profile.prefix_len(k)];
        let junk: Vec<u8> = (0..jl).map(|i| (i * 31 + 7) as u8).collect();
        let rec = seal_record_shaped(&mut tx, &profile, k, payload, &prefix, &junk).unwrap();
        wire.extend(rec);
        k += 1;
    }
    wire.extend(write_zero_record(&mut tx, &profile, &mut k).unwrap());

    let mut s = &wire[..];
    let mut rx = SnellCipher::new(PSK, &salt).unwrap();
    let mut k = 0u64;
    for payload in payloads {
        assert_eq!(take(&mut s, &mut rx, &profile, &mut k).unwrap(), payload);
    }
    assert!(take(&mut s, &mut rx, &profile, &mut k).is_none());
    assert!(s.is_empty());
}

#[test]
fn large_data_is_cut_into_records() {
    let profile = Profile::derive(PSK);
    let mut tx = SnellCipher::new(PSK, &[1u8; 16]).unwrap();
    let mut rx = SnellCipher::new(PSK, &[1u8; 16]).unwrap();
    let data: Vec<u8> = (0..40_000u32).map(|i| (i % 253) as u8).collect();
    let (mut kt, mut kr) = (0u64, 0u64);
    let wire = write_records(&mut tx, &profile, &mut kt, &data).unwrap();
    assert_eq!(kt, 3);
    let mut s = &wire[..];
    let mut got = Vec::new();
    while !s.is_empty() {
        got.extend(take(&mut s, &mut rx, &profile, &mut kr).unwrap());
    }
    assert_eq!(got, data);
    assert!(write_records(&mut tx, &profile, &mut kt, &[]).unwrap().is_empty());
}

#[test]
fn records_can_be_read_in_pieces() {
    let profile = Profile::derive(PSK);
    let mut tx = SnellCipher::new(PSK, &[2u8; 16]).unwrap();
    let mut rx = SnellCipher::new(PSK, &[2u8; 16]).unwrap();
    let (mut kt, mut kr) = (0u64, 0u64);
    let wire = write_records(&mut tx, &profile, &mut kt, b"piecemeal").unwrap();
    let n = record_head_len(&profile, kr);
    let head = open_record_head(&wire[..n], &mut rx, &profile, &mut kr).unwrap();
    assert_eq!(head.payload_len, 9);
    assert_eq!(head.body_len(), wire.len() - n);
    let got = open_record_body(&wire[n..], &head, &mut rx, &profile).unwrap();
    assert_eq!(got.unwrap(), b"piecemeal");
}

#[test]
fn damaged_records_are_reported() {
    let profile = Profile::derive(PSK);
    let fresh = || SnellCipher::new(PSK, &[2u8; 16]).unwrap();
    let mut k = 0u64;
    let wire = write_records(&mut fresh(), &profile, &mut k, b"data").unwrap();
    let np = profile.prefix_len(0);

    let mut k = 0u64;
    assert_eq!(
        read_record(&wire[..np], &mut fresh(), &profile, &mut k).err(),
        Some(SnellError::Truncated)
    );
    assert_eq!(k, 0);
    assert_eq!(
        read_record(&wire[..wire.len() - 1], &mut fresh(), &profile, &mut k).err(),
        Some(SnellError::Truncated)
    );
    assert_eq!(k, 1);

    let mut bad = wire.clone();
    bad[0] ^= 1; // the prefix is bound to the header
    let mut k = 0u64;
    assert_eq!(
        read_record(&bad, &mut fresh(), &profile, &mut k).err(),
        Some(SnellError::HeaderAuth)
    );

    let mut bad = wire.clone();
    let last = bad.len() - 1;
    bad[last] ^= 1;
    let mut k = 0u64;
    assert_eq!(
        read_record(&bad, &mut fresh(), &profile, &mut k).err(),
        Some(SnellError::PayloadAuth)
    );
}

#[test]
fn unsafe_raw_frames_round_trip() {
    let mut wire = write_unsafe_raw(b"plaintext-one");
    wire.extend(write_unsafe_raw(b"two"));
    wire.extend(write_unsafe_raw_zero());
    let (one, used) = read_unsafe_raw(&wire).unwrap();
    assert_eq!(one.unwrap(), b"plaintext-one");
    let rest = &wire[used..];
    let (two, used) = read_unsafe_raw(rest).unwrap();
    assert_eq!(two.unwrap(), b"two");
    assert!(read_unsafe_raw(&rest[used..]).unwrap().0.is_none());
}

#[test]
fn unsafe_raw_read_treats_eof_as_end() {
    assert!(read_unsafe_raw(&[]).unwrap().0.is_none());
    assert!(read_unsafe_raw(&[0x04, 0, 0]).unwrap().0.is_none());
}

#[test]
fn unsafe_raw_junk_is_skipped_by_the_reader() {
    let wire = [0x04, 0, 3, 0, 2, 9, 9, 9, b'o', b'k'];
    let (got, used) = read_unsafe_raw(&wire).unwrap();
    assert_eq!(got.unwrap(), b"ok");
    assert_eq!(used, 10);
    assert_eq!(read_unsafe_raw(&wire[..9]).err(), Some(SnellError::Truncated));
    assert_eq!(
        read_unsafe_raw(&[5, 0, 0, 0, 0]).err(),
        Some(SnellError::RawType { type_byte: 5 })
    );
}

#[test]
fn unsafe_raw_matches_golden_blob() {
    let request = unhex("010100093132372e302e302e313039");
    let blob = encode_unsafe_raw(&request);
    assert_eq!(hex(&blob), "040000000f010100093132372e302e302e313039");
    assert_eq!(blob.len(), 20);
}

#[test]
fn unsafe_raw_roundtrips() {
    let payload = b"hello unsafe-raw world";
    let wire = encode_unsafe_raw(payload);
    let (got, consumed) = decode_unsafe_raw(&wire).unwrap();
    assert_eq!(got, payload);
    assert_eq!(consumed, wire.len());
}

#[test]
fn decode_rejects_bad_type_and_truncation() {
    assert!(decode_unsafe_raw(&[0x05, 0, 0, 0, 1, 0xaa]).is_none());
    assert!(decode_unsafe_raw(&[0x04, 0, 0]).is_none());
    assert!(decode_unsafe_raw(&[0x04, 0, 0, 0, 9, 1, 2]).is_none());
}

#[test]
fn decode_undoes_interleave() {
    let payload = b"abcd";
    let interleave = 2usize;
    let mut body = vec![0u8; interleave];
    body.extend_from_slice(payload);
    let n = interleave.min(payload.len());
    for i in (0..n).step_by(2) {
        body.swap(i, interleave + i);
    }
    let mut wire = vec![0x04];
    wire.extend_from_slice(&(interleave as u16).to_be_bytes());
    wire.extend_from_slice(&(payload.len() as u16).to_be_bytes());
    wire.extend_from_slice(&body);

    let (got, consumed) = decode_unsafe_raw(&wire).unwrap();
    assert_eq!(got, payload);
    assert_eq!(consumed, wire.len());
}

#[test]
fn oversized_raw_payload_keeps_the_low_length_bits() {
    let wire = encode_unsafe_raw(&vec![7u8; 0x1_0002]);
    assert_eq!(&wire[..5], &[4, 0, 0, 0, 2]);
    assert_eq!(wire.len(), 5 + 0x1_0002);
}

#[test]
fn mode_parse_and_discriminants() {
    assert_eq!(Mode::parse("default"), Some(Mode::Default));
    assert_eq!(Mode::parse("unshaped"), Some(Mode::Unshaped));
    assert_eq!(Mode::parse(" unsafe-raw "), Some(Mode::UnsafeRaw));
    assert_eq!(Mode::parse("bogus"), None);
    assert_eq!(Mode::default(), Mode::Default);
    assert_eq!(Mode::Default as u8, 0);
    assert_eq!(Mode::Unshaped as u8, 1);
    assert_eq!(Mode::UnsafeRaw as u8, 2);
}

#[test]
fn mode_ignores_case_and_defaults_to_shaped() {
    assert_eq!(Mode::parse("Default"), Some(Mode::Default));
    assert_eq!(Mode::parse("UNSAFE-RAW"), Some(Mode::UnsafeRaw));
    assert_eq!(Mode::parse("\u{a0}unshaped\t"), Some(Mode::Unshaped));
    assert_eq!(Mode::from_setting(None), Some(Mode::Default));
    assert_eq!(Mode::from_setting(Some("")), None);
}

#[test]
fn unshaped_matches_v5_golden_blob() {
    let psk = b"test-psk-0123456789abcdef";
    let salt = unhex("010e1b2835424f5c697683909daab7c4");
    let request = unhex("010100093132372e302e302e313039");

    let mut cipher = SnellCipher::new(psk, &salt).unwrap();
    let mut blob = salt.clone();
    blob.extend_from_slice(&cipher.seal(&request).unwrap());

    assert_eq!(blob.len(), 70);
    let expected = "010e1b2835424f5c697683909daab7c4\
        de5154218416c120ec34987ffadda9fe3656638\
        2a117cfbc0c58ca7c0e612e948a7512f55fcf9ca421fca490d444e46f166f229b7afb";
    assert_eq!(hex(&blob), expected);
}

fn session(mode: Mode, salt: &[u8; 16]) -> Session {
    match mode {
        Mode::Default => Session::Shaped {
            cipher: SnellCipher::new(PSK, salt).unwrap(),
            profile: Profile::derive(PSK),
            chunk: 0,
        },
        Mode::Unshaped => Session::Unshaped { cipher: SnellCipher::new(PSK, salt).unwrap() },
        Mode::UnsafeRaw => Session::Raw,
    }
}

/// Reads one frame in two pieces.
fn receive(s: &mut Session, wire: &mut &[u8]) -> Option<Vec<u8>> {
    let n = s.head_len();
    let head = s.open_head(&wire[..n]).unwrap();
    *wire = &wire[n..];
    let m = s.body_len(&head);
    let got = s.open_body(&head, &wire[..m]).unwrap();
    *wire = &wire[m..];
    got
}

#[test]
fn sessions_carry_data_in_every_mode() {
    for mode in [Mode::Default, Mode::Unshaped, Mode::UnsafeRaw] {
        let salt = [5u8; 16];
        let (mut tx, mut rx) = (session(mode, &salt), session(mode, &salt));
        let data: Vec<u8> = (0..20_000u32).map(|i| (i % 241) as u8).collect();
        let mut wire = tx.send(&data).unwrap();
        wire.extend(tx.send(b"tail").unwrap());
        wire.extend(tx.finish().unwrap());
        let mut s = &wire[..];
        let mut got = Vec::new();
        while let Some(p) = receive(&mut rx, &mut s) {
            got.extend(p);
        }
        assert_eq!(&got[..20_000], &data[..]);
        assert_eq!(&got[20_000..], b"tail");
        assert!(s.is_empty());
        assert_eq!(rx.end_of_input_ends(), mode == Mode::UnsafeRaw);
    }
}

#[test]
fn modes_do_not_understand_each_other() {
    let salt = [5u8; 16];
    let wire = session(Mode::Unshaped, &salt).send(&[b'x'; 500]).unwrap();
    let mut rx = session(Mode::Default, &salt);
    let n = rx.head_len();
    assert_eq!(rx.open_head(&wire[..n]).err(), Some(SnellError::HeaderAuth));
}

#[test]
fn handshakes_carry_the_salt_in_every_mode() {
    let p = Profile::derive(PSK);
    let salt = [0x5Au8; 16];
    let w = handshake_bytes(Mode::Default, &p, &salt);
    assert_eq!(w.len(), handshake_len(Mode::Default, &p));
    assert_eq!(read_handshake(Mode::Default, &p, &w), Ok(Some(salt)));
    let w = handshake_bytes(Mode::Unshaped, &p, &salt);
    assert_eq!(w, salt.to_vec());
    assert_eq!(read_handshake(Mode::Unshaped, &p, &w), Ok(Some(salt)));
    assert!(handshake_bytes(Mode::UnsafeRaw, &p, &salt).is_empty());
    assert_eq!(read_handshake(Mode::UnsafeRaw, &p, &[]), Ok(None));
    assert_eq!(
        read_handshake(Mode::Unshaped, &p, &[0u8; 3]),
        Err(SnellError::FrameLength { found: 3, expected: 16 })
    );
}

#[test]
fn exhausted_record_counter_is_reported() {
    let mut s = Session::Shaped {
        cipher: SnellCipher::new(PSK, &[1u8; 16]).unwrap(),
        profile: Profile::derive(PSK),
        chunk: u64::MAX,
    };
    assert_eq!(s.send(b"x").err(), Some(SnellError::Exhausted));
    assert_eq!(s.finish().err(), Some(SnellError::Exhausted));
    let n = s.head_len();
    assert_eq!(s.open_head(&vec![0u8; n]).err(), Some(SnellError::Exhausted));
}

#[test]
fn record_counter_lasts_to_its_end() {
    let at = |chunk: u64| Session::Shaped {
        cipher: SnellCipher::new(PSK, &[1u8; 16]).unwrap(),
        profile: Profile::derive(PSK),
        chunk,
    };
    // One record carries all of it, whatever its length in bytes.
    assert_eq!(exchange(&mut at(u64::MAX - 15), &mut at(u64::MAX - 15), &[7u8; 100]), [7u8; 100]);
    assert!(at(u64::MAX - 1).send(&[7u8; 0x3fff]).is_ok());
    assert!(at(u64::MAX - 2).send(&[7u8; 0x4000]).is_ok());
    assert_eq!(at(u64::MAX - 1).send(&[7u8; 0x4000]).err(), Some(SnellError::Exhausted));
    assert_eq!(at(u64::MAX).send(&[]), Ok(vec![]));
}

/// Sends `data` from one end of a direction and reads it at the other.
fn exchange(tx: &mut Session, rx: &mut Session, data: &[u8]) -> Vec<u8> {
    let wire = tx.send(data).unwrap();
    let mut rest = &wire[..];
    let mut got = Vec::new();
    while !rest.is_empty() {
        let (head, behind) = rest.split_at(rx.head_len());
        let announced = rx.open_head(head).unwrap();
        let (body, behind) = behind.split_at(rx.body_len(&announced));
        got.extend(rx.open_body(&announced, body).unwrap().unwrap());
        rest = behind;
    }
    got
}

#[test]
fn opened_directions_agree_at_both_ends() {
    let profile = Profile::derive(PSK);
    for mode in [Mode::Default, Mode::Unshaped, Mode::UnsafeRaw] {
        let mut salts = SaltCache::new();
        let (hello, mut tx) = open_upward(mode, &profile, PSK).unwrap();
        assert_eq!(hello.len(), handshake_len(mode, &profile));
        if let Some(&first) = hello.first() {
            assert_eq!(disguise_of(mode, first), Obfs::Plain);
        }
        let mut rx = open_downward(mode, &profile, PSK, &hello).unwrap();
        assert_eq!(exchange(&mut tx, &mut rx, b"hello"), b"hello");

        let (hello, mut tx) = open_upward(mode, &profile, PSK).unwrap();
        let mut rx = accept_upward(&mut salts, mode, &profile, PSK, &hello, 0).unwrap();
        assert_eq!(exchange(&mut tx, &mut rx, b"hello"), b"hello");
        let again = accept_upward(&mut salts, mode, &profile, PSK, &hello, 1);
        match mode {
            Mode::UnsafeRaw => assert!(again.is_ok()),
            _ => assert_eq!(again.err(), Some(SnellError::SaltReplay)),
        }

        let short = [0u8; 3];
        let expected = handshake_len(mode, &profile);
        let fault = SnellError::FrameLength { found: 3, expected };
        assert_eq!(open_downward(mode, &profile, PSK, &short).err(), Some(fault));
        let refused = accept_upward(&mut salts, mode, &profile, PSK, &short, 2);
        assert_eq!(refused.err(), Some(fault));
    }
}

#[test]
fn opened_directions_draw_their_salts() {
    let profile = Profile::derive(PSK);
    for mode in [Mode::Default, Mode::Unshaped] {
        let (a, _) = open_upward(mode, &profile, PSK).unwrap();
        let (b, _) = open_upward(mode, &profile, PSK).unwrap();
        assert_ne!(read_handshake(mode, &profile, &a), read_handshake(mode, &profile, &b));
    }
}

#[test]
fn encrypted_sessions_need_a_cipher() {
    let profile = Profile::derive(PSK);
    let cipher = || Some(SnellCipher::new(PSK, &[1u8; 16]).unwrap());
    for mode in [Mode::Default, Mode::Unshaped] {
        assert_eq!(Session::new(mode, &profile, None).err(), Some(SnellError::MissingCipher));
    }
    let s = Session::new(Mode::Default, &profile, cipher()).unwrap();
    assert!(matches!(s, Session::Shaped { chunk: 0, .. }));
    let s = Session::new(Mode::Unshaped, &profile, cipher()).unwrap();
    assert!(matches!(s, Session::Unshaped { .. }));
    assert!(matches!(Session::new(Mode::UnsafeRaw, &profile, None), Ok(Session::Raw)));
    assert!(matches!(Session::new(Mode::UnsafeRaw, &profile, cipher()), Ok(Session::Raw)));
}
