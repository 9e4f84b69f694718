use snell::guard::{guarded_target, is_safe_target, is_safe_v4};
use snell::net::{IpAddr, SocketAddr};

fn v4(a: u8, b: u8, c: u8, d: u8) -> SocketAddr {
    SocketAddr::new(IpAddr::v4(a, b, c, d), 443)
}

fn v6(s: [u16; 8]) -> SocketAddr {
    SocketAddr::new(IpAddr::v6(s), 443)
}

/// `::ffff:a.b.c.d`
fn mapped(a: u8, b: u8, c: u8, d: u8) -> SocketAddr {
    let hi = (a as u16) << 8 | b as u16;
    let lo = (c as u16) << 8 | d as u16;
    v6([0, 0, 0, 0, 0, 0xffff, hi, lo])
}

const LOOPBACK: [u16; 8] = [0, 0, 0, 0, 0, 0, 0, 1];
const FC00_1: [u16; 8] = [0xfc00, 0, 0, 0, 0, 0, 0, 1];

#[test]
fn block_private_unset_allows_all_targets() {
    assert!(is_safe_target(&v4(127, 0, 0, 1), false));
    assert!(is_safe_target(&v4(10, 0, 0, 1), false));
    assert!(is_safe_target(&v4(0, 0, 0, 0), false));
    assert!(is_safe_target(&v6(LOOPBACK), false));
    assert!(is_safe_target(&v6(FC00_1), false));
}

#[test]
fn rejects_ipv4_loopback() {
    assert!(!is_safe_target(&v4(127, 0, 0, 1), true));
    assert!(!is_safe_target(&v4(127, 255, 255, 254), true));
}

#[test]
fn rejects_ipv6_loopback() {
    assert!(!is_safe_target(&v6(LOOPBACK), true));
}

#[test]
fn rejects_ipv4_multicast() {
    assert!(!is_safe_target(&v4(224, 0, 0, 1), true));
    assert!(!is_safe_target(&v4(239, 255, 255, 255), true));
}

#[test]
fn rejects_ipv6_multicast() {
    assert!(!is_safe_target(&v6([0xff00, 0, 0, 0, 0, 0, 0, 1]), true));
    assert!(!is_safe_target(&v6([0xff02, 0, 0, 0, 0, 0, 0, 1]), true));
}

#[test]
fn rejects_ipv4_unspecified() {
    assert!(!is_safe_target(&v4(0, 0, 0, 0), true));
}

#[test]
fn rejects_ipv6_unspecified() {
    assert!(!is_safe_target(&v6([0; 8]), true));
}

#[test]
fn rejects_rfc1918_ten_dot() {
    assert!(!is_safe_target(&v4(10, 0, 0, 1), true));
    assert!(!is_safe_target(&v4(10, 255, 255, 255), true));
}

#[test]
fn rejects_rfc1918_172_16_through_172_31() {
    assert!(!is_safe_target(&v4(172, 16, 0, 0), true));
    assert!(!is_safe_target(&v4(172, 31, 255, 255), true));
}

#[test]
fn accepts_172_just_below_rfc1918_range() {
    assert!(is_safe_target(&v4(172, 15, 0, 1), true));
}

#[test]
fn accepts_172_just_above_rfc1918_range() {
    assert!(is_safe_target(&v4(172, 32, 0, 1), true));
}

#[test]
fn rejects_rfc1918_192_168() {
    assert!(!is_safe_target(&v4(192, 168, 0, 1), true));
    assert!(!is_safe_target(&v4(192, 168, 255, 255), true));
}

#[test]
fn rejects_ipv4_link_local() {
    assert!(!is_safe_target(&v4(169, 254, 0, 1), true));
    assert!(!is_safe_target(&v4(169, 254, 255, 254), true));
}

#[test]
fn rejects_ipv4_broadcast() {
    assert!(!is_safe_target(&v4(255, 255, 255, 255), true));
}

#[test]
fn rejects_this_host_zero_slash_eight() {
    assert!(!is_safe_target(&v4(0, 1, 2, 3), true));
    assert!(!is_safe_target(&v4(0, 255, 255, 255), true));
}

#[test]
fn rejects_cgnat_lower_bound() {
    assert!(!is_safe_target(&v4(100, 64, 0, 0), true));
}

#[test]
fn rejects_ietf_protocol_assignments_192_0_0() {
    assert!(!is_safe_target(&v4(192, 0, 0, 0), true));
    assert!(!is_safe_target(&v4(192, 0, 0, 255), true));
}

#[test]
fn accepts_just_outside_ietf_assignments_range() {
    assert!(is_safe_target(&v4(192, 0, 1, 0), true));
    assert!(is_safe_target(&v4(191, 255, 255, 255), true));
}

#[test]
fn rejects_cgnat_upper_bound() {
    assert!(!is_safe_target(&v4(100, 127, 255, 255), true));
}

#[test]
fn accepts_just_below_cgnat_range() {
    assert!(is_safe_target(&v4(100, 63, 255, 255), true));
}

#[test]
fn accepts_just_above_cgnat_range() {
    assert!(is_safe_target(&v4(100, 128, 0, 0), true));
}

#[test]
fn rejects_ipv6_unique_local_fc00() {
    assert!(!is_safe_target(&v6(FC00_1), true));
}

#[test]
fn rejects_ipv6_unique_local_fd00() {
    assert!(!is_safe_target(
        &v6([0xfd12, 0x3456, 0x789a, 0, 0, 0, 0, 1]),
        true
    ));
}

#[test]
fn rejects_ipv6_link_local_fe80() {
    assert!(!is_safe_target(&v6([0xfe80, 0, 0, 0, 0, 0, 0, 1]), true));
    assert!(!is_safe_target(&v6([0xfebf, 0xffff, 0, 0, 0, 0, 0, 1]), true));
}

#[test]
fn rejects_ipv4_mapped_loopback() {
    assert!(!is_safe_target(&mapped(127, 0, 0, 1), true));
}

#[test]
fn rejects_ipv4_mapped_private() {
    assert!(!is_safe_target(&mapped(192, 168, 1, 1), true));
    assert!(!is_safe_target(&mapped(10, 0, 0, 1), true));
}

#[test]
fn rejects_ipv4_mapped_cgnat() {
    assert!(!is_safe_target(&mapped(100, 64, 0, 1), true));
}

#[test]
fn rejects_ipv4_mapped_multicast() {
    assert!(!is_safe_target(&mapped(224, 0, 0, 1), true));
    assert!(!is_safe_target(&mapped(239, 255, 255, 255), true));
    assert!(is_safe_target(&mapped(240, 0, 0, 1), true));
    assert!(is_safe_target(&mapped(224, 0, 0, 1), false));
}

#[test]
fn accepts_ipv4_mapped_public() {
    assert!(is_safe_target(&mapped(8, 8, 8, 8), true));
}

#[test]
fn accepts_public_ipv4() {
    assert!(is_safe_target(&v4(8, 8, 8, 8), true));
    assert!(is_safe_target(&v4(1, 1, 1, 1), true));
    assert!(is_safe_v4(0x0808_0808));
    assert!(!is_safe_v4(0x7f00_0001));
}

#[test]
fn accepts_public_ipv6() {
    assert!(is_safe_target(
        &v6([0x2606, 0x4700, 0x4700, 0, 0, 0, 0, 0x1111]),
        true
    ));
    assert!(is_safe_target(
        &v6([0x2001, 0x4860, 0x4860, 0, 0, 0, 0, 0x8888]),
        true
    ));
}

#[test]
fn accepts_neighbours_of_the_ipv6_ranges() {
    assert!(is_safe_target(&v6([0xfbff, 0, 0, 0, 0, 0, 0, 1]), true));
    assert!(is_safe_target(&v6([0xfe00, 0, 0, 0, 0, 0, 0, 1]), true));
    assert!(is_safe_target(&v6([0xfec0, 0, 0, 0, 0, 0, 0, 1]), true));
    assert!(is_safe_target(&v6([0, 0, 0, 0, 0, 0, 0, 2]), true));
}

#[test]
fn only_guarded_targets_come_through() {
    assert_eq!(guarded_target(Some(v4(10, 0, 0, 1)), true), None);
    assert_eq!(guarded_target(Some(v4(10, 0, 0, 1)), false), Some(v4(10, 0, 0, 1)));
    assert_eq!(guarded_target(None, false), None);
}
