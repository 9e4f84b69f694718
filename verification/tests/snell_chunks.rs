use snell::cipher::SnellCipher;
use snell::snell::{encode_request, open_tunnel, parse_request, read_chunk};
use snell::snell::{write_chunk, write_chunk_sized};
use snell::snell::{CMD_CONNECT_UDP, CMD_CONNECT_V2, CMD_PING};
use snell::SnellError;

const TEST_PSK: &[u8] = b"unit-test-psk-with-enough-bytes!";
const TEST_SALT: [u8; 16] = [0u8; 16];

fn cipher_pair() -> (SnellCipher, SnellCipher) {
    (
        SnellCipher::new(TEST_PSK, &TEST_SALT).unwrap(),
        SnellCipher::new(TEST_PSK, &TEST_SALT).unwrap(),
    )
}

/// Reads one chunk off the front of a stream.
fn take(stream: &mut &[u8], rx: &mut SnellCipher) -> Option<Vec<u8>> {
    let (payload, used) = read_chunk(stream, rx).unwrap();
    *stream = &stream[used..];
    payload
}

#[test]
fn parse_request_ping_returns_empty_host_and_port() {
    let req = parse_request(&[0x01, CMD_PING, 0]).unwrap();
    assert_eq!(req.command, CMD_PING);
    assert!(req.host.is_empty());
    assert_eq!(req.port, 0);
    assert!(req.trailing.is_empty());
}

#[test]
fn parse_request_connect_v2_with_host_and_port() {
    let data = b"\x01\x05\x00\x07example\x01\xbb";
    let req = parse_request(data).unwrap();
    assert_eq!(req.command, CMD_CONNECT_V2);
    assert_eq!(req.host, "example");
    assert_eq!(req.port, 443);
    assert!(req.trailing.is_empty());
}

#[test]
fn parse_request_skips_client_id_bytes() {
    let data = b"\x01\x05\x04abcd\x04host\x00\x50";
    let req = parse_request(data).unwrap();
    assert_eq!(req.host, "host");
    assert_eq!(req.port, 80);
}

#[test]
fn parse_request_extracts_trailing_app_data() {
    let data = b"\x01\x05\x00\x04host\x00\x50body";
    let req = parse_request(data).unwrap();
    assert_eq!(req.host, "host");
    assert_eq!(req.port, 80);
    assert_eq!(req.trailing, b"body");
}

#[test]
fn parse_request_rejects_buffer_below_minimum() {
    assert!(parse_request(&[]).is_err());
    assert!(parse_request(&[0x01]).is_err());
    assert!(parse_request(&[0x01, CMD_CONNECT_V2]).is_err());
}

#[test]
fn parse_request_rejects_unsupported_version() {
    assert!(parse_request(&[0x02, CMD_CONNECT_V2, 0]).is_err());
    assert!(parse_request(&[0xff, CMD_CONNECT_V2, 0]).is_err());
}

#[test]
fn parse_request_rejects_truncated_client_id() {
    assert!(parse_request(&[0x01, CMD_CONNECT_V2, 10, b'a', b'b']).is_err());
}

#[test]
fn parse_request_rejects_truncated_host_or_port() {
    assert!(parse_request(&[0x01, CMD_CONNECT_V2, 0, 100]).is_err());
    assert!(parse_request(b"\x01\x05\x00\x04host").is_err());
}

#[test]
fn parse_request_rejects_non_utf8_host() {
    let data: &[u8] = &[
        0x01,
        CMD_CONNECT_V2,
        0,
        4,
        0xff,
        0xfe,
        0xfd,
        0xfc,
        0x00,
        0x50,
    ];
    assert!(parse_request(data).is_err());
}

#[test]
fn parse_request_names_each_fault() {
    assert_eq!(parse_request(&[0x01, 0x05]).err(), Some(SnellError::RequestTooShort));
    assert_eq!(
        parse_request(&[0x02, 0x05, 0]).err(),
        Some(SnellError::UnsupportedVersion { version: 2 })
    );
    assert_eq!(
        parse_request(&[0x01, 0x05, 10, b'a']).err(),
        Some(SnellError::TruncatedClientId { need: 10 })
    );
    assert_eq!(
        parse_request(&[0x01, 0x05, 0, 1, 2]).err(),
        Some(SnellError::TruncatedHandshake)
    );
    assert_eq!(
        parse_request(b"\x01\x05\x00\x04host").err(),
        Some(SnellError::TruncatedHost)
    );
    assert_eq!(
        parse_request(&[0x01, 0x05, 0, 1, 0xff, 0, 80]).err(),
        Some(SnellError::HostEncoding)
    );
}

#[test]
fn requests_read_back() {
    let wire = encode_request(CMD_CONNECT_V2, "häuser.example", 8443);
    assert_eq!(&wire[..4], &[1, 5, 0, 15]);
    let req = parse_request(&wire).unwrap();
    assert_eq!(req.command, CMD_CONNECT_V2);
    assert_eq!(req.host, "häuser.example");
    assert_eq!(req.port, 8443);
    assert_eq!(encode_request(CMD_CONNECT_UDP, "", 0), vec![1, 6, 0, 0, 0, 0]);
}

#[test]
fn roundtrip_small_payload() {
    let (mut tx, mut rx) = cipher_pair();
    let payload = b"hello world";
    let wire = write_chunk(&mut tx, payload).unwrap();
    let mut s = &wire[..];
    assert_eq!(take(&mut s, &mut rx).as_deref(), Some(&payload[..]));
    assert!(s.is_empty());
}

#[test]
fn roundtrip_single_byte() {
    let (mut tx, mut rx) = cipher_pair();
    let wire = write_chunk(&mut tx, &[0x42]).unwrap();
    let mut s = &wire[..];
    assert_eq!(take(&mut s, &mut rx), Some(vec![0x42]));
}

#[test]
fn roundtrip_at_max_chunk_boundary() {
    let payload = vec![0xABu8; 0x3fff];
    let (mut tx, mut rx) = cipher_pair();
    let wire = write_chunk(&mut tx, &payload).unwrap();
    let mut s = &wire[..];
    assert_eq!(take(&mut s, &mut rx), Some(payload));
    assert!(s.is_empty());
}

#[test]
fn roundtrip_just_over_max_chunk_splits_into_two() {
    let payload = vec![0xCDu8; 0x3fff + 1];
    let (mut tx, mut rx) = cipher_pair();
    let wire = write_chunk(&mut tx, &payload).unwrap();
    let mut s = &wire[..];
    let first = take(&mut s, &mut rx).unwrap();
    let second = take(&mut s, &mut rx).unwrap();
    assert_eq!(first.len(), 0x3fff);
    assert_eq!(second.len(), 1);

    let mut combined = first;
    combined.extend(second);
    assert_eq!(combined, payload);
}

#[test]
fn roundtrip_multi_chunk_large_payload() {
    let payload: Vec<u8> = (0..50 * 1024).map(|i| (i & 0xff) as u8).collect();
    let (mut tx, mut rx) = cipher_pair();
    let wire = write_chunk(&mut tx, &payload).unwrap();
    let mut s = &wire[..];
    let mut got = Vec::with_capacity(payload.len());
    let mut n = 0;
    while got.len() < payload.len() {
        got.extend(take(&mut s, &mut rx).unwrap());
        n += 1;
    }
    assert_eq!(got, payload);
    assert_eq!(n, 4);
}

#[test]
fn write_chunk_with_empty_input_emits_no_bytes() {
    let mut tx = SnellCipher::new(TEST_PSK, &TEST_SALT).unwrap();
    assert_eq!(write_chunk(&mut tx, &[]).unwrap().len(), 0);
}

#[test]
fn zero_chunk_surfaces_as_none() {
    let (mut tx, mut rx) = cipher_pair();
    let zero = tx.seal_zero().unwrap();
    let mut s = &zero[..];
    assert!(take(&mut s, &mut rx).is_none());
    assert!(s.is_empty());
}

#[test]
fn write_chunk_sized_with_small_cap_splits_into_many() {
    let payload: Vec<u8> = (0..16u8).collect();
    let (mut tx, mut rx) = cipher_pair();
    let wire = write_chunk_sized(&mut tx, &payload, 4).unwrap();
    let mut s = &wire[..];
    let mut got = Vec::new();
    for _ in 0..4 {
        let chunk = take(&mut s, &mut rx).unwrap();
        assert!(chunk.len() <= 4);
        got.extend(chunk);
    }
    assert_eq!(got, payload);
}

#[test]
fn write_chunk_sized_clamps_cap_to_protocol_max() {
    let payload = vec![0x5Au8; 0x3fff + 1];
    let (mut tx, mut rx) = cipher_pair();
    let wire = write_chunk_sized(&mut tx, &payload, 1024 * 1024).unwrap();
    let mut s = &wire[..];
    let first = take(&mut s, &mut rx).unwrap();
    let second = take(&mut s, &mut rx).unwrap();
    assert_eq!(first.len(), 0x3fff);
    assert_eq!(second.len(), 1);
}

#[test]
fn truncated_chunks_are_reported() {
    let (mut tx, mut rx) = cipher_pair();
    let wire = write_chunk(&mut tx, b"cut short").unwrap();
    assert_eq!(read_chunk(&wire[..10], &mut rx).err(), Some(SnellError::Truncated));
    assert_eq!(read_chunk(&wire[..30], &mut rx).err(), Some(SnellError::Truncated));
}

#[test]
fn swapped_junk_is_undone() {
    // A sender that puts junk between header and payload and exchanges every
    // other byte of the two.
    let (mut tx, mut rx) = cipher_pair();
    let sealed = tx.seal(b"interleaved payload").unwrap();
    let mut header_tx = SnellCipher::new(TEST_PSK, &TEST_SALT).unwrap();
    let with_junk = header_tx.seal_with_junk(b"interleaved payload", b"", &[0xEE; 6]).unwrap();
    let mut wire = with_junk[..23].to_vec();
    let mut body = vec![0xEEu8; 6];
    body.extend_from_slice(&sealed[23..]);
    for i in [0usize, 2, 4] {
        body.swap(i, 6 + i);
    }
    wire.extend_from_slice(&body);
    let (got, used) = read_chunk(&wire, &mut rx).unwrap();
    assert_eq!(got.unwrap(), b"interleaved payload");
    assert_eq!(used, wire.len());
}

#[test]
fn first_reply_must_open_the_tunnel() {
    assert_eq!(open_tunnel(&[0x00, 7, 8]), Ok(&[7u8, 8][..]));
    assert_eq!(
        open_tunnel(&[0x02, 0, 0]),
        Err(SnellError::UnexpectedReply { reply: Some(2) })
    );
    assert_eq!(open_tunnel(&[]), Err(SnellError::UnexpectedReply { reply: None }));
}

#[test]
fn every_front_part_of_a_chunk_is_incomplete() {
    let mut tx = SnellCipher::new(TEST_PSK, &TEST_SALT).unwrap();
    let wire = write_chunk(&mut tx, b"complete").unwrap();
    for m in 0..wire.len() {
        let mut rx = SnellCipher::new(TEST_PSK, &TEST_SALT).unwrap();
        assert_eq!(read_chunk(&wire[..m], &mut rx).err(), Some(SnellError::Truncated));
    }
}
