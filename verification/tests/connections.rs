use snell::net::{Host, IpAddr, SocketAddr};
use snell::resolver::IpPolicy;
use snell::server::{close_report, connect_step, error_frame, pong_reply, request_action};
use snell::server::{CloseReport, ConnectAction, ConnectEvent, DialOutcome, Phase, RequestAction};
use snell::snell::{encode_udp_request, encode_udp_response, errcode, parse_request};
use snell::snell::{parse_udp_request, parse_udp_response, SnellRequest};
use snell::snell::{CMD_CONNECT, CMD_CONNECT_UDP, CMD_CONNECT_V2, CMD_PING};
use snell::snell::{MSG_DNS_FAILED, MSG_IPV4_DISABLED, MSG_IPV6_DISABLED};
use snell::snell::{RESP_ERROR, RESP_PONG, RESP_TUNNEL};
use snell::socks::{associate_reply, greeting_methods, ipv4_text, parse_socks5_udp};
use snell::socks::{parse_socks_request, socks_action, socks_datagram, socks_request_need};
use snell::socks::SocksAction;
use snell::v6::Mode;
use snell::SnellError;

fn v4(a: u8, b: u8, c: u8, d: u8, port: u16) -> SocketAddr {
    SocketAddr::new(IpAddr::v4(a, b, c, d), port)
}

fn v6(s: [u16; 8], port: u16) -> SocketAddr {
    SocketAddr::new(IpAddr::v6(s), port)
}

const V6_LITERAL: [u16; 8] = [0x2606, 0x4700, 0, 0, 0, 0, 0, 0x1111];

fn reply(policy: IpPolicy, literal: SocketAddr) -> Option<Vec<u8>> {
    let ev = ConnectEvent::Requested { literal: Some(literal.ip), port: literal.port };
    match connect_step(ev, policy, false) {
        ConnectAction::Refuse(b) => Some(b),
        ConnectAction::Dial(a) => {
            assert_eq!(a, literal);
            None
        }
        _ => unreachable!(),
    }
}

fn assert_error_frame(frame: &[u8], code: u8, msg: &str) {
    assert_eq!(frame[0], RESP_ERROR, "not an error frame: {frame:?}");
    assert_eq!(frame[1], code, "wrong error code");
    assert_eq!(frame[2] as usize, msg.len(), "wrong msg_len");
    assert_eq!(&frame[3..], msg.as_bytes(), "wrong msg");
    assert_eq!(frame.len(), 3 + msg.len(), "trailing bytes in frame");
}

#[test]
fn ipv4_only_rejects_ipv6_literal() {
    let policy = IpPolicy::from_env(None, None).unwrap();
    let frame = reply(policy, v6(V6_LITERAL, 80)).unwrap();
    assert_error_frame(&frame, errcode::AF_DISABLED, MSG_IPV6_DISABLED);
}

#[test]
fn ipv6_only_rejects_ipv4_literal() {
    let policy = IpPolicy::from_env(Some("ipv6-only"), None).unwrap();
    let frame = reply(policy, v4(1, 1, 1, 1, 80)).unwrap();
    assert_error_frame(&frame, errcode::AF_DISABLED, MSG_IPV4_DISABLED);
}

#[test]
fn ipv4_only_allows_ipv4_literal() {
    let policy = IpPolicy::from_env(None, None).unwrap();
    assert_eq!(reply(policy, v4(127, 0, 0, 1, 8080)), None);
}

#[test]
fn ipv6_only_allows_ipv6_literal() {
    let policy = IpPolicy::from_env(Some("ipv6-only"), None).unwrap();
    assert_eq!(reply(policy, v6([0, 0, 0, 0, 0, 0, 0, 1], 80)), None);
}

#[test]
fn prefer_and_default_policies_allow_ipv6_literal() {
    for pref in ["default", "first-result", "prefer-ipv4", "prefer-ipv6"] {
        let policy = IpPolicy::from_env(Some(pref), None).unwrap();
        assert_eq!(reply(policy, v6([0, 0, 0, 0, 0, 0, 0, 1], 80)), None);
    }
}

#[test]
fn preference_overrides_unset_ipv6_flag() {
    let policy = IpPolicy::from_env(Some("only-ipv6"), None).unwrap();
    let frame = reply(policy, v4(1, 1, 1, 1, 80)).unwrap();
    assert_error_frame(&frame, errcode::AF_DISABLED, MSG_IPV4_DISABLED);
}

#[test]
fn preference_overrides_ipv6_zero() {
    let policy = IpPolicy::from_env(Some("default"), Some("0")).unwrap();
    assert_eq!(reply(policy, v6([0, 0, 0, 0, 0, 0, 0, 1], 80)), None);
}

#[test]
fn preference_overrides_ipv6_true() {
    let policy = IpPolicy::from_env(Some("ipv4-only"), Some("true")).unwrap();
    let frame = reply(policy, v6(V6_LITERAL, 80)).unwrap();
    assert_error_frame(&frame, errcode::AF_DISABLED, MSG_IPV6_DISABLED);
}

#[test]
fn ipv6_flag_true_allows_ipv6_literal() {
    let policy = IpPolicy::from_env(None, Some("yes")).unwrap();
    assert_eq!(reply(policy, v6([0, 0, 0, 0, 0, 0, 0, 1], 80)), None);
}

#[test]
fn unresolvable_domain_reports_dns_failed() {
    let named = ConnectEvent::Requested { literal: None, port: 80 };
    assert!(matches!(
        connect_step(named, IpPolicy::Ipv4Only, true),
        ConnectAction::Resolve
    ));
    match connect_step(ConnectEvent::Resolved(None), IpPolicy::Ipv4Only, false) {
        ConnectAction::Refuse(frame) => {
            assert_error_frame(&frame, errcode::DNS_FAILED, MSG_DNS_FAILED);
            assert_eq!(frame[1], 0x64);
        }
        _ => unreachable!(),
    }
}

#[test]
fn refused_connect_reports_econnrefused() {
    let ev = ConnectEvent::Dialed(DialOutcome::Refused);
    match connect_step(ev, IpPolicy::Default, false) {
        ConnectAction::Refuse(frame) => {
            assert_eq!(frame[0], RESP_ERROR);
            assert_eq!(frame[1], errcode::CONN_REFUSED);
            assert_eq!(frame[1], 0x06);
        }
        _ => unreachable!(),
    }
    let ev = ConnectEvent::Dialed(DialOutcome::Failed);
    match connect_step(ev, IpPolicy::Default, false) {
        ConnectAction::Refuse(frame) => assert_error_frame(&frame, 0, "connection failed"),
        _ => unreachable!(),
    }
}

#[test]
fn guarded_servers_refuse_private_targets() {
    let private = v4(192, 168, 1, 1, 80);
    for ev in [
        ConnectEvent::Requested { literal: Some(private.ip), port: 80 },
        ConnectEvent::Resolved(Some(private)),
    ] {
        match connect_step(ev, IpPolicy::Default, true) {
            ConnectAction::Refuse(frame) => {
                assert_eq!(frame, b"\x02\x00\x09forbidden".to_vec());
            }
            _ => unreachable!(),
        }
        match connect_step(ev, IpPolicy::Default, false) {
            ConnectAction::Dial(a) => assert_eq!(a, private),
            _ => unreachable!(),
        }
    }
}

#[test]
fn connected_targets_open_the_tunnel() {
    let ev = ConnectEvent::Dialed(DialOutcome::Connected);
    match connect_step(ev, IpPolicy::Default, true) {
        ConnectAction::Tunnel(b) => assert_eq!(b, vec![RESP_TUNNEL]),
        _ => unreachable!(),
    }
}

fn with_command(command: u8) -> SnellRequest {
    SnellRequest { command, host: String::new(), port: 0, trailing: vec![] }
}

#[test]
fn server_replies_pong_to_ping() {
    let req = parse_request(&[0x01, CMD_PING, 0x00]).unwrap();
    assert_eq!(request_action(Mode::Unshaped, &req), Ok(RequestAction::Pong));
    assert_eq!(pong_reply(), vec![RESP_PONG]);
}

#[test]
fn server_rejects_unknown_command() {
    assert_eq!(
        request_action(Mode::Unshaped, &with_command(0x77)),
        Err(SnellError::UnknownCommand { command: 0x77 })
    );
    for mode in [Mode::Default, Mode::Unshaped, Mode::UnsafeRaw] {
        for command in [CMD_CONNECT, CMD_CONNECT_V2] {
            let action = request_action(mode, &with_command(command));
            assert_eq!(action, Ok(RequestAction::Connect));
        }
        assert_eq!(request_action(mode, &with_command(CMD_PING)), Ok(RequestAction::Pong));
    }
}

#[test]
fn datagrams_are_relayed_in_the_unshaped_mode_alone() {
    let req = with_command(CMD_CONNECT_UDP);
    assert_eq!(request_action(Mode::Unshaped, &req), Ok(RequestAction::RelayUdp));
    assert_eq!(socks_action(Mode::Unshaped, 3), Ok(SocksAction::UdpAssociate));
    for mode in [Mode::Default, Mode::UnsafeRaw] {
        assert_eq!(
            request_action(mode, &req),
            Err(SnellError::UnknownCommand { command: CMD_CONNECT_UDP })
        );
        assert_eq!(socks_action(mode, 3), Err(SnellError::UnknownCommand { command: 3 }));
        assert_eq!(socks_action(mode, 1), Ok(SocksAction::Connect));
    }
}

#[test]
fn error_frames_count_their_message() {
    assert_eq!(error_frame(7, "né"), vec![2, 7, 3, b'n', 0xc3, 0xa9]);
}

#[test]
fn hang_ups_are_reported_by_phase() {
    assert_eq!(close_report(Phase::Silent, true), CloseReport::ClosedEarly);
    assert_eq!(close_report(Phase::Handshake, true), CloseReport::Failure);
    assert_eq!(close_report(Phase::Established, true), CloseReport::Normal);
    for p in [Phase::Silent, Phase::Handshake, Phase::Established] {
        assert_eq!(close_report(p, false), CloseReport::Failure);
    }
}

fn is_name(h: &Host, name: &str) -> bool {
    matches!(h, Host::Name(n) if n == name)
}

fn is_ip(h: &Host, ip: IpAddr) -> bool {
    matches!(h, Host::Ip(i) if *i == ip)
}

#[test]
fn udp_requests_round_trip() {
    let frame = encode_udp_request("127.0.0.1", 5353, b"ping");
    assert_eq!(&frame[..2], &[1, 9]);
    let req = parse_udp_request(&frame).unwrap();
    assert!(is_name(&req.host, "127.0.0.1"));
    assert_eq!((req.port, &req.payload[..]), (5353, &b"ping"[..]));

    let req = parse_udp_request(&[1, 0, 4, 10, 0, 0, 1, 0, 53, b'x']).unwrap();
    assert!(is_ip(&req.host, IpAddr::v4(10, 0, 0, 1)));
    assert_eq!((req.port, &req.payload[..]), (53, &b"x"[..]));
}

#[test]
fn malformed_udp_requests_name_their_fault() {
    let fault = |f: &[u8]| parse_udp_request(f).err();
    assert_eq!(fault(&[0xff, 0x00]), Some(SnellError::UnknownCommand { command: 0xff }));
    assert_eq!(fault(&[1]), Some(SnellError::RequestTooShort));
    assert_eq!(fault(&[1, 0]), Some(SnellError::RequestTooShort));
    assert_eq!(fault(&[1, 3, b'a']), Some(SnellError::TruncatedHost));
    assert_eq!(fault(&[1, 1, 0xff, 0, 1]), Some(SnellError::HostEncoding));
    assert_eq!(fault(&[1, 0, 5]), Some(SnellError::AddressType { type_byte: 5 }));
    assert_eq!(fault(&[1, 0, 6, 1, 2]), Some(SnellError::TruncatedHost));
}

#[test]
fn udp_responses_round_trip() {
    for src in [v4(127, 0, 0, 1, 4242), v6(V6_LITERAL, 53)] {
        let frame = encode_udp_response(src, b"pong");
        assert_eq!(parse_udp_response(&frame), Ok((src, b"pong".to_vec())));
    }
    assert_eq!(
        encode_udp_response(v4(1, 2, 3, 4, 0x0506), b"!"),
        vec![4, 1, 2, 3, 4, 5, 6, b'!']
    );
}

#[test]
fn socks_greetings_are_checked() {
    assert_eq!(greeting_methods(&[5, 3]), Ok(3));
    assert_eq!(
        greeting_methods(&[4, 1]),
        Err(SnellError::SocksVersion { version: 4 })
    );
}

#[test]
fn socks_requests_tell_how_long_they_are() {
    assert_eq!(socks_request_need(&[]), Ok(4));
    assert_eq!(socks_request_need(&[5, 1, 0, 1]), Ok(10));
    assert_eq!(socks_request_need(&[5, 1, 0, 4]), Ok(22));
    assert_eq!(socks_request_need(&[5, 1, 0, 3]), Ok(5));
    assert_eq!(socks_request_need(&[5, 1, 0, 3, 7]), Ok(14));
    assert_eq!(
        socks_request_need(&[5, 1, 0, 9]),
        Err(SnellError::AddressType { type_byte: 9 })
    );
    assert_eq!(
        socks_request_need(&[6, 1, 0, 1]),
        Err(SnellError::SocksVersion { version: 6 })
    );
}

#[test]
fn socks_requests_are_decoded() {
    let r = parse_socks_request(&[5, 1, 0, 1, 127, 0, 0, 1, 0x1f, 0x90]).unwrap();
    assert_eq!((r.command, r.port), (1, 8080));
    assert!(is_ip(&r.host, IpAddr::v4(127, 0, 0, 1)));
    let r = parse_socks_request(b"\x05\x01\x00\x03\x07example\x00\x50").unwrap();
    assert!(is_name(&r.host, "example"));
    let mut long = vec![5, 3, 0, 4];
    long.extend_from_slice(&[0u8; 15]);
    long.extend_from_slice(&[1, 0, 9]);
    let r = parse_socks_request(&long).unwrap();
    assert!(is_ip(&r.host, IpAddr::V6(1)));
    assert_eq!(r.port, 9);
    assert_eq!(parse_socks_request(&long[..21]).err(), Some(SnellError::Truncated));
    assert_eq!(
        parse_socks_request(b"\x05\x01\x00\x03\x01\xff\x00\x50").err(),
        Some(SnellError::HostEncoding)
    );
    assert_eq!(socks_action(Mode::Unshaped, 1), Ok(SocksAction::Connect));
    assert_eq!(
        socks_action(Mode::Unshaped, 2),
        Err(SnellError::UnknownCommand { command: 2 })
    );
}

#[test]
fn associate_replies_hold_the_relay_address() {
    assert_eq!(
        associate_reply(v4(127, 0, 0, 1, 0x1234)),
        Ok(vec![5, 0, 0, 1, 127, 0, 0, 1, 0x12, 0x34])
    );
    assert_eq!(associate_reply(v6(V6_LITERAL, 1)), Err(SnellError::UnexpectedIpv6));
}

#[test]
fn socks_datagrams_round_trip() {
    for src in [v4(9, 8, 7, 6, 53), v6(V6_LITERAL, 443)] {
        let pkt = socks_datagram(src, b"payload");
        let d = parse_socks5_udp(&pkt).unwrap();
        assert!(is_ip(&d.host, src.ip));
        assert_eq!((d.port, &d.payload[..]), (src.port, &b"payload"[..]));
    }
    assert_eq!(socks_datagram(v4(1, 2, 3, 4, 5), b"")[..4], [0, 0, 0, 1]);
}

#[test]
fn fragments_and_malformed_datagrams_are_dropped() {
    let whole = b"\x00\x00\x00\x03\x04host\x00\x35data";
    let d = parse_socks5_udp(whole).unwrap();
    assert!(is_name(&d.host, "host"));
    assert_eq!(d.payload, b"data");
    let mut frag = whole.to_vec();
    frag[2] = 1;
    assert!(parse_socks5_udp(&frag).is_none());
    assert!(parse_socks5_udp(&whole[..4]).is_none());
    assert!(parse_socks5_udp(&whole[..10]).is_none());
    assert!(parse_socks5_udp(&[0, 0, 0, 2, 1, 1, 1, 1, 1, 1]).is_none());
    assert!(parse_socks5_udp(&[0, 0, 0]).is_none());
}

#[test]
fn addresses_are_spelled_in_decimal() {
    assert_eq!(ipv4_text(0), "0.0.0.0");
    assert_eq!(ipv4_text(0x7f00_0001), "127.0.0.1");
    assert_eq!(ipv4_text(0xffff_ffff), "255.255.255.255");
    assert_eq!(ipv4_text(0x0a14_6409), "10.20.100.9");
}
