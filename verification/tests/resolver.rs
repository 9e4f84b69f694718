use snell::net::{IpAddr, SocketAddr};
use snell::resolver::{literal_target, literal_text, nameserver_texts, pick_addr};
use snell::resolver::{IpPolicy, LookupStrategy};
use snell::SnellError;

fn v4(a: u8, b: u8, c: u8, d: u8) -> SocketAddr {
    SocketAddr::new(IpAddr::v4(a, b, c, d), 443)
}

fn v6(s: [u16; 8]) -> SocketAddr {
    SocketAddr::new(IpAddr::v6(s), 443)
}

/// 2606:4700:4700::1111
fn cloudflare_a() -> SocketAddr {
    v6([0x2606, 0x4700, 0x4700, 0, 0, 0, 0, 0x1111])
}

/// 2606:4700:4700::1001
fn cloudflare_b() -> SocketAddr {
    v6([0x2606, 0x4700, 0x4700, 0, 0, 0, 0, 0x1001])
}

/// 2001:4860:4860::8888
fn google() -> SocketAddr {
    v6([0x2001, 0x4860, 0x4860, 0, 0, 0, 0, 0x8888])
}

#[test]
fn ipv6_flag_true_like_values_enable_both_families() {
    for v in ["1", "true", "True", "yes", "Y", "t", "TRUE"] {
        assert_eq!(IpPolicy::from_ipv6_flag(v), IpPolicy::Default, "{v}");
    }
}

#[test]
fn ipv6_flag_everything_else_is_ipv4_only() {
    for v in ["", "0", "false", "no", "off", "2", "bogus"] {
        assert_eq!(IpPolicy::from_ipv6_flag(v), IpPolicy::Ipv4Only, "{v}");
    }
}

#[test]
fn preference_aliases_map_to_official_states() {
    let cases = [
        ("default", IpPolicy::Default),
        ("first-result", IpPolicy::Default),
        ("prefer-ipv4", IpPolicy::PreferIpv4),
        ("ipv4-preferred", IpPolicy::PreferIpv4),
        ("prefer-ipv6", IpPolicy::PreferIpv6),
        ("ipv6-preferred", IpPolicy::PreferIpv6),
        ("ipv4-only", IpPolicy::Ipv4Only),
        ("only-ipv4", IpPolicy::Ipv4Only),
        ("ipv6-only", IpPolicy::Ipv6Only),
        ("only-ipv6", IpPolicy::Ipv6Only),
        (" IPv6-Only ", IpPolicy::Ipv6Only),
    ];
    for (s, want) in cases {
        assert_eq!(IpPolicy::parse_preference(s), Some(want), "{s}");
    }
    assert_eq!(IpPolicy::parse_preference("v6"), None);
}

#[test]
fn policy_discriminants_match_official_values() {
    assert_eq!(IpPolicy::Default as u8, 0);
    assert_eq!(IpPolicy::PreferIpv4 as u8, 1);
    assert_eq!(IpPolicy::PreferIpv6 as u8, 2);
    assert_eq!(IpPolicy::Ipv4Only as u8, 3);
    assert_eq!(IpPolicy::Ipv6Only as u8, 4);
}

#[test]
fn policy_display_uses_config_spelling() {
    assert_eq!(IpPolicy::Default.spelling(), "default");
    assert_eq!(IpPolicy::PreferIpv4.spelling(), "prefer-ipv4");
    assert_eq!(IpPolicy::PreferIpv6.spelling(), "prefer-ipv6");
    assert_eq!(IpPolicy::Ipv4Only.spelling(), "ipv4-only");
    assert_eq!(IpPolicy::Ipv6Only.spelling(), "ipv6-only");
    assert_eq!(IpPolicy::default(), IpPolicy::Default);
}

#[test]
fn from_env_defaults_to_ipv4_only() {
    assert_eq!(IpPolicy::from_env(None, None).unwrap(), IpPolicy::Ipv4Only);
}

#[test]
fn from_env_preference_overrides_ipv6_flag() {
    assert_eq!(
        IpPolicy::from_env(Some("ipv6-only"), Some("0")).unwrap(),
        IpPolicy::Ipv6Only
    );
}

#[test]
fn from_env_rejects_unknown_preference() {
    assert!(IpPolicy::from_env(Some("ipv7"), None).is_err());
    assert_eq!(
        IpPolicy::from_env(Some("ipv7"), Some("1")),
        Err(SnellError::UnknownPreference)
    );
}

#[test]
fn from_env_blank_preference_falls_back_to_ipv6_flag() {
    assert_eq!(
        IpPolicy::from_env(Some("  "), Some("1")).unwrap(),
        IpPolicy::Default
    );
}

#[test]
fn only_policies_gate_literals_prefer_policies_do_not() {
    let v4ip = IpAddr::v4(1, 1, 1, 1);
    let v6ip = IpAddr::v6([0x2606, 0x4700, 0, 0, 0, 0, 0, 0x1111]);
    assert!(IpPolicy::Ipv4Only.allows(v4ip));
    assert!(!IpPolicy::Ipv4Only.allows(v6ip));
    assert!(IpPolicy::Ipv6Only.allows(v6ip));
    assert!(!IpPolicy::Ipv6Only.allows(v4ip));
    for p in [
        IpPolicy::Default,
        IpPolicy::PreferIpv4,
        IpPolicy::PreferIpv6,
    ] {
        assert!(p.allows(v4ip), "{p:?}");
        assert!(p.allows(v6ip), "{p:?}");
    }
    assert_eq!(literal_target(v6ip, 80, IpPolicy::Ipv4Only), None);
    assert_eq!(
        literal_target(v6ip, 80, IpPolicy::PreferIpv4),
        Some(SocketAddr::new(v6ip, 80))
    );
}

#[test]
fn literals_lose_their_brackets_and_zone() {
    assert_eq!(literal_text("1.2.3.4"), "1.2.3.4");
    assert_eq!(literal_text("::1"), "::1");
    assert_eq!(literal_text("[::1]"), "::1");
    assert_eq!(literal_text("fe80::1%eth0"), "fe80::1");
    assert_eq!(literal_text("[fe80::1%eth0]"), "fe80::1");
    assert_eq!(literal_text("example.com"), "example.com");
    assert_eq!(literal_text(""), "");
    assert_eq!(literal_text("["), "[");
    assert_eq!(literal_text("[]"), "");
    assert_eq!(literal_text("[::1"), "[::1");
}

#[test]
fn default_policy_takes_first_of_any_family() {
    let addrs = vec![cloudflare_a(), v4(1, 1, 1, 1)];
    assert_eq!(pick_addr(&addrs, IpPolicy::Default), Some(cloudflare_a()));
}

#[test]
fn prefer_ipv4_reaches_past_leading_ipv6() {
    let addrs = vec![cloudflare_a(), v4(1, 1, 1, 1)];
    assert_eq!(pick_addr(&addrs, IpPolicy::PreferIpv4), Some(v4(1, 1, 1, 1)));
}

#[test]
fn prefer_ipv4_falls_back_to_first_result() {
    let addrs = vec![cloudflare_a(), cloudflare_b()];
    assert_eq!(pick_addr(&addrs, IpPolicy::PreferIpv4), Some(cloudflare_a()));
}

#[test]
fn prefer_ipv6_reaches_past_leading_ipv4_and_falls_back() {
    let mixed = vec![v4(8, 8, 8, 8), google()];
    assert_eq!(pick_addr(&mixed, IpPolicy::PreferIpv6), Some(google()));
    let v4_only = vec![v4(8, 8, 8, 8), v4(8, 8, 4, 4)];
    assert_eq!(
        pick_addr(&v4_only, IpPolicy::PreferIpv6),
        Some(v4(8, 8, 8, 8))
    );
}

#[test]
fn ipv4_only_skips_ipv6_results() {
    let addrs = vec![cloudflare_a(), v4(1, 1, 1, 1)];
    assert_eq!(pick_addr(&addrs, IpPolicy::Ipv4Only), Some(v4(1, 1, 1, 1)));
}

#[test]
fn ipv4_only_returns_none_for_ipv6_only_host() {
    let addrs = vec![cloudflare_a(), cloudflare_b()];
    assert_eq!(pick_addr(&addrs, IpPolicy::Ipv4Only), None);
}

#[test]
fn ipv6_only_returns_none_for_ipv4_only_host() {
    let addrs = vec![v4(1, 1, 1, 1), v4(8, 8, 8, 8)];
    assert_eq!(pick_addr(&addrs, IpPolicy::Ipv6Only), None);
}

#[test]
fn empty_resolution_is_none_under_every_policy() {
    for p in [
        IpPolicy::Default,
        IpPolicy::PreferIpv4,
        IpPolicy::PreferIpv6,
        IpPolicy::Ipv4Only,
        IpPolicy::Ipv6Only,
    ] {
        let empty: Vec<SocketAddr> = vec![];
        assert_eq!(pick_addr(&empty, p), None, "{p:?}");
        assert_eq!(p.is_only(), p == IpPolicy::Ipv4Only || p == IpPolicy::Ipv6Only);
    }
}

#[test]
fn lookup_strategy_narrows_only_for_only_policies() {
    assert_eq!(
        IpPolicy::Ipv4Only.lookup_strategy(),
        LookupStrategy::Ipv4Only
    );
    assert_eq!(
        IpPolicy::Ipv6Only.lookup_strategy(),
        LookupStrategy::Ipv6Only
    );
    for p in [
        IpPolicy::Default,
        IpPolicy::PreferIpv4,
        IpPolicy::PreferIpv6,
    ] {
        assert_eq!(p.lookup_strategy(), LookupStrategy::Ipv4AndIpv6, "{p:?}");
    }
}

#[test]
fn build_custom_rejects_empty_after_trim() {
    assert!(nameserver_texts("  , ,").is_err());
    assert_eq!(nameserver_texts(""), Err(SnellError::NoNameservers));
}

#[test]
fn nameserver_lists_are_split_at_commas() {
    assert_eq!(nameserver_texts("1.1.1.1, 8.8.8.8").unwrap(), vec!["1.1.1.1", "8.8.8.8"]);
    assert_eq!(
        nameserver_texts("2606:4700:4700::1111").unwrap(),
        vec!["2606:4700:4700::1111"]
    );
    assert_eq!(nameserver_texts(",a,, b ,").unwrap(), vec!["a", "b"]);
}

#[test]
fn resolve_ipv4_literal_short_circuits() {
    let ip = IpAddr::v4(127, 0, 0, 1);
    assert_eq!(
        literal_target(ip, 80, IpPolicy::Ipv4Only),
        Some(SocketAddr::new(ip, 80))
    );
}

#[test]
fn resolve_ipv6_literal_filtered_under_ipv4_only() {
    assert_eq!(literal_target(IpAddr::V6(1), 80, IpPolicy::Ipv4Only), None);
}

#[test]
fn resolve_ipv6_literal_passes_under_prefer_ipv4() {
    assert_eq!(
        literal_target(IpAddr::V6(1), 80, IpPolicy::PreferIpv4),
        Some(SocketAddr::new(IpAddr::V6(1), 80))
    );
}
