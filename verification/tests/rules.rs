use snell::activation::{listen_plan, take_listener_fds, ListenPlan};
use snell::config::{parse_number, server_settings, ServerEnv};
use snell::cooldown::{cooldown_check_and_insert, handshake_allowed, CooldownMap};
use snell::net::IpAddr;
use snell::obfs::{detect_obfs, disguise_of, fresh_handshake_salt, handshake_cipher};
use snell::obfs::{HttpAbsorber, Obfs, HTTP_UPGRADE_REPLY};
use snell::resolver::IpPolicy;
use snell::v6::Mode;
use snell::SnellError;

const MS: u64 = 1_000_000;

#[test]
fn cooldown_admits_first_then_rate_limits_within_window() {
    let mut map = CooldownMap::new();
    let ip = IpAddr::v4(203, 0, 113, 7);
    assert!(cooldown_check_and_insert(&mut map, ip, 0, 1000));
    assert!(!cooldown_check_and_insert(&mut map, ip, 999 * MS, 1000));
    assert!(cooldown_check_and_insert(&mut map, ip, 1000 * MS, 1000));
}

#[test]
fn cooldown_isolates_per_ip() {
    let mut map = CooldownMap::default();
    let a = IpAddr::v4(203, 0, 113, 7);
    let b = IpAddr::v4(198, 51, 100, 42);
    assert!(cooldown_check_and_insert(&mut map, a, 0, 1000));
    assert!(cooldown_check_and_insert(&mut map, b, 0, 1000));
    assert!(!cooldown_check_and_insert(&mut map, a, 1, 1000));
    assert!(!cooldown_check_and_insert(&mut map, b, 1, 1000));
}

#[test]
fn cooldown_zero_window_never_rate_limits() {
    let mut map = CooldownMap::new();
    let ip = IpAddr::v4(203, 0, 113, 7);
    assert!(cooldown_check_and_insert(&mut map, ip, 0, 0));
    assert!(cooldown_check_and_insert(&mut map, ip, 0, 0));
    assert!(cooldown_check_and_insert(&mut map, ip, 0, 0));
}

#[test]
fn cooldown_keeps_the_families_apart() {
    let mut map = CooldownMap::new();
    assert!(cooldown_check_and_insert(&mut map, IpAddr::V4(7), 0, 1000));
    assert!(cooldown_check_and_insert(&mut map, IpAddr::V6(7), 0, 1000));
    assert!(!cooldown_check_and_insert(&mut map, IpAddr::V6(7), 0, 1000));
}

#[test]
fn refused_attempts_do_not_prolong_a_cooldown() {
    let mut map = CooldownMap::new();
    let ip = IpAddr::V6(1);
    assert!(cooldown_check_and_insert(&mut map, ip, 0, 100));
    assert!(!cooldown_check_and_insert(&mut map, ip, 90 * MS, 100));
    assert!(cooldown_check_and_insert(&mut map, ip, 100 * MS, 100));
}

#[test]
fn large_cooldown_tables_forget_old_records() {
    let mut map = CooldownMap::new();
    let minute = 60_000 * MS;
    let day = 24 * 60 * 60 * 1000u128;
    for i in 0..10_000u32 {
        assert!(cooldown_check_and_insert(&mut map, IpAddr::V4(i), minute, day));
    }
    // Still remembered: the table is at its threshold, not above.
    assert!(!cooldown_check_and_insert(&mut map, IpAddr::V4(0), 3 * minute, day));
    // One more record triggers the cleanup.
    assert!(cooldown_check_and_insert(&mut map, IpAddr::V6(0), 3 * minute, day));
    assert!(cooldown_check_and_insert(&mut map, IpAddr::V4(0), 3 * minute, day));
    assert!(!cooldown_check_and_insert(&mut map, IpAddr::V6(0), 3 * minute, day));
}

#[test]
fn cooldown_of_zero_turns_the_handshake_limit_off() {
    let mut map = CooldownMap::new();
    let ip = IpAddr::V4(1);
    assert!(handshake_allowed(&mut map, ip, 0, 0));
    assert!(handshake_allowed(&mut map, ip, 0, 100));
    assert!(!handshake_allowed(&mut map, ip, 0, 100));
    assert!(handshake_allowed(&mut map, ip, 0, 0));
}

#[test]
fn take_listener_fds_returns_numbered_fds_when_pid_matches() {
    assert_eq!(take_listener_fds(Some("4711"), Some("2"), 4711), vec![3, 4]);
}

#[test]
fn take_listener_fds_empty_when_pid_mismatches() {
    assert!(take_listener_fds(Some("1"), Some("3"), 4711).is_empty());
}

#[test]
fn descriptor_count_of_another_process_does_not_matter() {
    for n in ["4294967292", "4294967293", "4294967295"] {
        assert!(take_listener_fds(Some("1"), Some(n), 4711).is_empty());
        assert!(take_listener_fds(None, Some(n), 4711).is_empty());
    }
}

#[test]
fn take_listener_fds_empty_when_unset() {
    assert!(take_listener_fds(None, None, 4711).is_empty());
    assert!(take_listener_fds(Some("4711"), None, 4711).is_empty());
    assert!(take_listener_fds(Some("4711"), Some("two"), 4711).is_empty());
}

#[test]
fn handed_over_sockets_are_adopted() {
    assert_eq!(listen_plan(&[], true), ListenPlan::Bind { with_udp: true });
    assert_eq!(listen_plan(&[3], true), ListenPlan::Adopt { tcp: 3, udp: None });
    assert_eq!(listen_plan(&[3, 4], true), ListenPlan::Adopt { tcp: 3, udp: Some(4) });
    assert_eq!(listen_plan(&[3, 4], false), ListenPlan::Adopt { tcp: 3, udp: None });
}

#[test]
fn numbers_are_decimal_and_bounded() {
    let max = u32::MAX as u128;
    assert_eq!(parse_number("0", max), Some(0));
    assert_eq!(parse_number("+42", max), Some(42));
    assert_eq!(parse_number("007", max), Some(7));
    assert_eq!(parse_number("4294967295", max), Some(max));
    for bad in ["", "+", "-1", "4294967296", "1 ", "0x1", "++1", "1.0"] {
        assert_eq!(parse_number(bad, max), None, "{bad:?}");
        assert!(bad.parse::<u32>().is_err());
    }
    let big = "340282366920938463463374607431768211455";
    assert_eq!(parse_number(big, u128::MAX), Some(u128::MAX));
    assert_eq!(parse_number("340282366920938463463374607431768211456", u128::MAX), None);
}

fn env<'a>(psk: Option<&'a str>) -> ServerEnv<'a> {
    ServerEnv {
        psk,
        mode: None,
        quic: None,
        block_private_targets: None,
        ipv6: None,
        dns_ip_preference: None,
        tcp_fastopen: None,
        tcp_fastopen_out: None,
        tcp_handshake_cooldown_ms: None,
    }
}

#[test]
fn unset_settings_take_their_defaults() {
    let s = server_settings(&env(Some("0123456789abcdef"))).unwrap();
    assert_eq!(s.mode, Mode::Default);
    assert_eq!(s.policy, IpPolicy::Ipv4Only);
    assert!(!s.quic && !s.block_private && s.tfo_listen && !s.tfo_out);
    assert_eq!(s.cooldown_ms, 100);
}

#[test]
fn settings_are_read() {
    let mut e = env(Some("0123456789abcdef"));
    e.mode = Some("Unshaped");
    e.quic = Some("1");
    e.block_private_targets = Some("true");
    e.ipv6 = Some("yes");
    e.tcp_fastopen = Some("0");
    e.tcp_fastopen_out = Some("1");
    e.tcp_handshake_cooldown_ms = Some("0");
    let s = server_settings(&e).unwrap();
    assert_eq!(s.mode, Mode::Unshaped);
    assert_eq!(s.policy, IpPolicy::Default);
    assert!(s.quic && !s.block_private && !s.tfo_listen && s.tfo_out);
    assert_eq!(s.cooldown_ms, 0);
    e.tcp_handshake_cooldown_ms = Some("soon");
    assert_eq!(server_settings(&e).unwrap().cooldown_ms, 100);
}

#[test]
fn bad_settings_stop_the_server() {
    assert_eq!(server_settings(&env(None)), Err(SnellError::MissingPsk));
    assert_eq!(
        server_settings(&env(Some("0123456789abcde"))),
        Err(SnellError::ShortPsk { len: 15 })
    );
    // The length counts bytes.
    assert!(server_settings(&env(Some("ääääääää"))).is_ok());
    let mut e = env(Some("0123456789abcdef"));
    e.mode = Some("bogus");
    assert_eq!(server_settings(&e), Err(SnellError::UnknownMode));
    e.dns_ip_preference = Some("ipv7");
    assert_eq!(server_settings(&e), Err(SnellError::UnknownPreference));
}

#[test]
fn first_byte_tells_the_disguise() {
    assert_eq!(detect_obfs(0x16), Obfs::Tls);
    assert_eq!(detect_obfs(b'G'), Obfs::Http);
    assert_eq!(detect_obfs(0x00), Obfs::Plain);
    assert_eq!(detect_obfs(0xff), Obfs::Plain);
}

#[test]
fn only_the_unshaped_mode_has_disguises() {
    for first in 0..=255u8 {
        assert_eq!(disguise_of(Mode::Unshaped, first), detect_obfs(first));
        assert_eq!(disguise_of(Mode::Default, first), Obfs::Plain);
        assert_eq!(disguise_of(Mode::UnsafeRaw, first), Obfs::Plain);
    }
}

#[test]
fn http_upgrades_are_answered() {
    let lines: Vec<&str> = HTTP_UPGRADE_REPLY.split("\r\n").collect();
    assert_eq!(
        lines,
        [
            "HTTP/1.1 101 Switching Protocols",
            "Upgrade: websocket",
            "Connection: Upgrade",
            "",
            ""
        ]
    );
}

#[test]
fn handshake_salts_keep_clear_of_disguises() {
    let psk = b"0123456789abcdef";
    let mut salt = [7u8; 16];
    assert!(handshake_cipher(psk, &salt).unwrap().is_some());
    salt[0] = 0x16;
    assert!(handshake_cipher(psk, &salt).unwrap().is_none());
    salt[0] = b'G';
    assert!(handshake_cipher(psk, &salt).unwrap().is_none());
    let mut firsts = Vec::new();
    for _ in 0..50 {
        let (salt, mut tx) = fresh_handshake_salt(psk).unwrap();
        assert_eq!(detect_obfs(salt[0]), Obfs::Plain);
        let mut rx = handshake_cipher(psk, &salt).unwrap().unwrap();
        let zero = tx.seal_zero().unwrap().try_into().unwrap();
        assert_eq!(rx.open_header(&zero), Ok(None));
        firsts.push(salt[0]);
    }
    assert!(firsts.iter().any(|&b| b != firsts[0]));
}

#[test]
fn http_requests_end_wherever_they_are_cut() {
    let req = b"GET / HTTP/1.1\r\nHost: example\r\n\r\n";
    for step in 1..req.len() {
        let mut h = HttpAbsorber::new();
        let mut seen = 0;
        for part in req.chunks(step) {
            seen += part.len();
            assert_eq!(
                h.absorb_http_request(part),
                Ok(seen == req.len()),
                "step {step}"
            );
        }
    }
}

#[test]
fn endless_or_broken_http_requests_are_refused() {
    let mut h = HttpAbsorber::new();
    assert_eq!(h.absorb_http_request(&[b'x'; 4096]), Ok(false));
    assert_eq!(h.absorb_http_request(&[b'x'; 4096]), Ok(false));
    assert_eq!(h.absorb_http_request(b"\r"), Err(SnellError::HttpTooLarge));
    let mut h = HttpAbsorber::new();
    assert_eq!(h.absorb_http_request(&[]), Err(SnellError::HttpClosed));
    let mut h = HttpAbsorber::new();
    assert_eq!(h.absorb_http_request(b"\r\n\r"), Ok(false));
    assert_eq!(h.absorb_http_request(b"x\n\r\n\r\nrest"), Ok(true));
}

#[test]
fn case_and_surrounding_space_do_not_matter() {
    for (a, b) in [("UNSHAPED", "unshaped"), (" \tDefault", "default"), ("x", "X")] {
        assert_eq!(Mode::parse(a), Mode::parse(b));
    }
    for p in [
        IpPolicy::Default,
        IpPolicy::PreferIpv4,
        IpPolicy::PreferIpv6,
        IpPolicy::Ipv4Only,
        IpPolicy::Ipv6Only,
    ] {
        assert_eq!(IpPolicy::parse_preference(p.spelling()), Some(p));
    }
    for flag in [None, Some("1"), Some("0")] {
        assert_eq!(IpPolicy::from_env(Some("ipv6-only"), flag), Ok(IpPolicy::Ipv6Only));
    }
}
