use snell::cipher::{SnellCipher, HDR_CT_LEN, SALT_LEN};
use snell::cooldown::CooldownMap;
use snell::net::IpAddr;
use snell::quic::{admit_init, classify, datagram_action, decrypt_init, decrypt_with};
use snell::quic::{derive_init_cipher, encrypt_with, encrypt_with_nonce, is_quic_initial};
use snell::quic::{gc_sessions, new_session_table, parse_quic_request, DatagramAction};
use snell::quic::{PacketKind, SessionToken, UdpSession, MAX_UDP_SESSIONS, QUIC_CMD_CONNECT};
use snell::salt_cache::SaltCache;
use snell::SnellError;

const PSK: &str = "integration-test-psk-0123456789";

fn build_quic_init(psk: &[u8], host: &str, target_port: u16) -> Vec<u8> {
    let (mut salt, _) = SnellCipher::with_random_salt(psk).unwrap();
    salt[0] = 0x20;
    let mut cipher = SnellCipher::new(psk, &salt).unwrap();
    let host_bytes = host.as_bytes();
    let mut inner = vec![QUIC_CMD_CONNECT, 0u8, host_bytes.len() as u8];
    inner.extend_from_slice(host_bytes);
    inner.extend_from_slice(&target_port.to_be_bytes());
    let chunk = cipher.seal(&inner).unwrap();
    let mut pkt = Vec::with_capacity(SALT_LEN + chunk.len());
    pkt.extend_from_slice(&salt);
    pkt.extend_from_slice(&chunk);
    pkt
}

#[test]
fn detects_quic_initial() {
    let mut p = vec![0u8; 20];
    p[0] = 0xC0;
    p[4] = 0x01;
    assert!(is_quic_initial(&p));
}

#[test]
fn rejects_short() {
    assert!(!is_quic_initial(&[0xC0, 0, 0, 0]));
}

#[test]
fn rejects_short_header_byte() {
    let mut p = vec![0u8; 20];
    p[0] = 0x40;
    assert!(!is_quic_initial(&p));
}

#[test]
fn rejects_non_initial() {
    let mut p = vec![0u8; 20];
    p[0] = 0xD0;
    p[4] = 1;
    assert!(!is_quic_initial(&p));
}

#[test]
fn rejects_version_negotiation() {
    let mut p = vec![0u8; 20];
    p[0] = 0xC0;
    assert!(!is_quic_initial(&p));
}

#[test]
fn encrypt_decrypt_roundtrip() {
    let cipher = derive_init_cipher(b"psk", &[1u8; 16]).unwrap();
    let pt = b"QUIC Initial";
    let wire = encrypt_with(&cipher, pt).unwrap();
    let back = decrypt_with(&cipher, &wire).unwrap();
    assert_eq!(&back, pt);
}

#[test]
fn token_roundtrip() {
    let t = SessionToken::new_random();
    assert_eq!(t.as_bytes().len(), 8);
    assert_eq!(t.to_text().len(), 16);
}

#[test]
fn tokens_are_spelled_in_hexadecimal() {
    let t = SessionToken([0x00, 0x01, 0x0a, 0x1f, 0x80, 0x9c, 0xab, 0xff]);
    assert_eq!(t.to_text(), "00010a1f809cabff");
    assert_ne!(SessionToken::new_random(), SessionToken::new_random());
}

#[test]
fn sealed_datagrams_name_their_faults() {
    let cipher = derive_init_cipher(b"psk", &[1u8; 16]).unwrap();
    let wire = encrypt_with_nonce(&cipher, &[7u8; 12], b"").unwrap();
    assert_eq!(wire.len(), 28);
    assert_eq!(&wire[..12], &[7u8; 12]);
    assert_eq!(decrypt_with(&cipher, &wire[..27]), Err(SnellError::DatagramTooShort));
    let mut bad = wire.clone();
    bad[0] ^= 1;
    assert_eq!(decrypt_with(&cipher, &bad), Err(SnellError::PayloadAuth));
    assert_eq!(
        derive_init_cipher(b"psk", &[1u8; 3]).err(),
        Some(SnellError::KeyDerivation)
    );
    let other = derive_init_cipher(b"psk", &[2u8; 16]).unwrap();
    assert_eq!(decrypt_with(&other, &wire), Err(SnellError::PayloadAuth));
}

#[test]
fn quic_packet_roundtrip_lib_only() {
    let pkt = build_quic_init(PSK.as_bytes(), "example.com", 443);
    assert_eq!(pkt.len(), SALT_LEN + HDR_CT_LEN + (3 + 11 + 2) + 16);
    let salt: [u8; SALT_LEN] = pkt[..SALT_LEN].try_into().unwrap();
    let req = decrypt_init(PSK.as_bytes(), &salt, &pkt[SALT_LEN..]).unwrap();
    assert_eq!(req.host, "example.com");
    assert_eq!(req.port, 443);
    assert_eq!(req.user, "");
}

#[test]
fn quic_parse_request_rejects_bad_command() {
    let mut bad = vec![0x99u8, 0x00, 0x03];
    bad.extend_from_slice(b"abc\x00\x50");
    assert!(parse_quic_request(&bad).is_err());
}

#[test]
fn session_starts_name_their_faults() {
    assert_eq!(parse_quic_request(&[1]).err(), Some(SnellError::RequestTooShort));
    assert_eq!(
        parse_quic_request(&[0x99, 0]).err(),
        Some(SnellError::UnknownCommand { command: 0x99 })
    );
    assert_eq!(parse_quic_request(&[1, 4, 0]).err(), Some(SnellError::TruncatedHandshake));
    assert_eq!(parse_quic_request(&[1, 0, 4, b'a']).err(), Some(SnellError::TruncatedHost));
    assert_eq!(
        parse_quic_request(&[1, 1, 0xff, 0, 0, 80]).err(),
        Some(SnellError::UserEncoding)
    );
    assert_eq!(
        parse_quic_request(&[1, 0, 1, 0xff, 0, 80]).err(),
        Some(SnellError::HostEncoding)
    );
    let req = parse_quic_request(b"\x01\x02me\x01h\x01\xbbrest").unwrap();
    assert_eq!((req.user.as_str(), req.host.as_str(), req.port), ("me", "h", 443));
    assert_eq!(req.trailing, b"rest");
    let mut c = SnellCipher::new(b"psk", &[9u8; 16]).unwrap();
    let zero = c.seal_zero().unwrap();
    assert_eq!(
        decrypt_init(b"psk", &[9u8; 16], &zero).err(),
        Some(SnellError::EmptyInit)
    );
}

#[test]
fn datagrams_are_sorted_by_their_first_byte() {
    assert_eq!(classify(&[0x20, 1]), Some(PacketKind::Init));
    assert_eq!(classify(&[0x40, 1]), Some(PacketKind::Data));
    assert_eq!(classify(&[0xC3, 1]), Some(PacketKind::Data));
    assert_eq!(classify(&[0x05]), None);
    assert_eq!(classify(&[]), None);
    assert_eq!(datagram_action(&[0x20], true), DatagramAction::Start);
    assert_eq!(datagram_action(&[0x40], true), DatagramAction::Forward);
    assert_eq!(datagram_action(&[0x40], false), DatagramAction::NoSession);
    assert_eq!(datagram_action(&[0x00], true), DatagramAction::Drop);
}

#[test]
fn session_starts_are_admitted_in_order_of_cost() {
    let mut cool = CooldownMap::new();
    let mut salts = SaltCache::new();
    let src = IpAddr::v4(203, 0, 113, 7);
    let psk = PSK.as_bytes();
    let pkt = build_quic_init(psk, "example.com", 443);
    let second = 1_000_000_000u64;

    // Too short: not even the cooldown starts.
    assert_eq!(
        admit_init(&pkt[..54], src, second, 0, psk, &mut cool, &mut salts).err(),
        Some(SnellError::RequestTooShort)
    );
    let req = admit_init(&pkt, src, second, 0, psk, &mut cool, &mut salts).unwrap();
    assert_eq!(req.host, "example.com");
    assert_eq!(salts.len(), 1);
    // Same address again within a second.
    assert_eq!(
        admit_init(&pkt, src, second + 999_000_000, 0, psk, &mut cool, &mut salts).err(),
        Some(SnellError::RateLimited)
    );
    // Another address: the table is full, and the salt stays untouched.
    let other = IpAddr::v4(198, 51, 100, 42);
    let fresh = build_quic_init(psk, "example.com", 443);
    assert_eq!(
        admit_init(&fresh, other, 2 * second, MAX_UDP_SESSIONS, psk, &mut cool, &mut salts).err(),
        Some(SnellError::SessionTableFull)
    );
    assert_eq!(salts.len(), 1);
    // A replay from a third address.
    let third = IpAddr::v4(192, 0, 2, 1);
    assert_eq!(
        admit_init(&pkt, third, 2 * second, 0, psk, &mut cool, &mut salts).err(),
        Some(SnellError::SaltReplay)
    );
    // Garbage of the right length.
    assert_eq!(
        admit_init(&[0x20; 80], third, 4 * second, 0, psk, &mut cool, &mut salts).err(),
        Some(SnellError::HeaderAuth)
    );
}

#[test]
fn idle_sessions_are_removed() {
    let second = 1_000_000_000u64;
    let now = 100 * second;
    let mut table = new_session_table();
    assert_eq!(table.len(), 0);
    let session = |n: u8, last_seen: u64| UdpSession { token: SessionToken([n; 8]), last_seen };
    table.insert(&session(1, now));
    table.insert(&session(2, now - 60 * second));
    table.insert(&session(3, now - 60 * second - 1));
    table.insert(&session(4, now));
    table.remove(&SessionToken([4; 8]));
    let mut renewed = session(5, 0);
    table.insert(&renewed);
    renewed.touch(now);
    table.insert(&renewed);
    assert_eq!(table.len(), 4);
    gc_sessions(&mut table, now, 60);
    for (n, open) in [(1u8, true), (2, true), (3, false), (4, false), (5, true)] {
        assert_eq!(table.contains(&SessionToken([n; 8])), open, "{n}");
    }
    // A clock younger than the timeout removes nothing.
    gc_sessions(&mut table, second, 60);
    assert_eq!(table.len(), 3);
}
