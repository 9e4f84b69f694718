//! Which targets a proxy that guards its own network may connect to.

use vstd::prelude::*;
use crate::net::{IpAddr, SocketAddr};

verus! {

/// Addresses of the form `a.x.x.x`.
pub open spec fn in_net8(ip: u32, a: int) -> bool {
    ip / 0x100_0000 == a
}

/// IPv4 addresses a guarded proxy refuses: loopback, private, link-local,
/// broadcast, "this host", shared and protocol assignment networks.
pub open spec fn is_refused_v4(ip: u32) -> bool {
    ||| in_net8(ip, 127)
    ||| in_net8(ip, 10)
    ||| ip / 0x10_0000 == 172 * 16 + 1  // 172.16.0.0/12
    ||| ip / 0x1_0000 == 192 * 256 + 168  // 192.168.0.0/16
    ||| ip / 0x1_0000 == 169 * 256 + 254  // 169.254.0.0/16
    ||| ip == 0xffff_ffff
    ||| in_net8(ip, 0)
    ||| ip / 0x40_0000 == 100 * 4 + 1  // 100.64.0.0/10
    ||| ip / 0x100 == 192 * 0x1_0000  // 192.0.0.0/24
}

/// IPv4 multicast, 224.0.0.0/4.
pub open spec fn is_multicast_v4(ip: u32) -> bool {
    ip / 0x1000_0000 == 14
}

/// The IPv4 address inside an IPv4-mapped IPv6 address (`::ffff:a.b.c.d`).
pub open spec fn mapped_v4(ip: u128) -> Option<u32> {
    if ip / 0x1_0000_0000 == 0xffff {
        Some((ip % 0x1_0000_0000) as u32)
    } else {
        None
    }
}

/// IPv6 addresses a guarded proxy refuses: unspecified, loopback, multicast,
/// unique local (fc00::/7), link-local (fe80::/10), and mapped IPv4 addresses
/// whose IPv4 address is refused or multicast.
pub open spec fn is_refused_v6(ip: u128) -> bool {
    match mapped_v4(ip) {
        Some(v4) => is_refused_v4(v4) || is_multicast_v4(v4),
        None => {
            ||| ip == 0
            ||| ip == 1
            ||| ip / 0x100_0000_0000_0000_0000_0000_0000_0000 == 0xff
            ||| ip / 0x200_0000_0000_0000_0000_0000_0000_0000 == 0x7e
            ||| ip / 0x40_0000_0000_0000_0000_0000_0000_0000 == 0x3fa
        },
    }
}

/// Whether a target may be connected to. Without the guard everything may.
pub open spec fn is_safe(addr: SocketAddr, block_private: bool) -> bool {
    block_private ==> match addr.ip {
        IpAddr::V4(ip) => !is_refused_v4(ip) && !is_multicast_v4(ip),
        IpAddr::V6(ip) => !is_refused_v6(ip),
    }
}

/// Whether an IPv4 address lies outside the refused networks.
pub fn is_safe_v4(ip: u32) -> (r: bool)
    ensures
        r == !is_refused_v4(ip),
{
    let a: u32 = ip / 0x100_0000;
    let loopback: bool = a == 127;
    let private: bool = a == 10 || ip / 0x10_0000 == 172 * 16 + 1 || ip / 0x1_0000 == 192 * 256
        + 168;
    let link_local: bool = ip / 0x1_0000 == 169 * 256 + 254;
    let broadcast: bool = ip == 0xffff_ffff;
    let this_host: bool = a == 0;
    let shared: bool = ip / 0x40_0000 == 100 * 4 + 1;
    let assignments: bool = ip / 0x100 == 192 * 0x1_0000;
    !loopback && !private && !link_local && !broadcast && !this_host && !shared && !assignments
}

/// Whether a target may be connected to. `block_private` turns the guard on; a
/// proxy to the local network is a legitimate use without it.
pub fn is_safe_target(addr: &SocketAddr, block_private: bool) -> (r: bool)
    ensures
        r == is_safe(*addr, block_private),
{
    if !block_private {
        return true;
    }
    match addr.ip {
        IpAddr::V4(ip) => ip / 0x1000_0000 != 14 && is_safe_v4(ip),
        IpAddr::V6(ip) => {
            if ip / 0x1_0000_0000 == 0xffff {
                let v4: u32 = (ip % 0x1_0000_0000) as u32;
                return v4 / 0x1000_0000 != 14 && is_safe_v4(v4);
            }
            let multicast: bool = ip / 0x100_0000_0000_0000_0000_0000_0000_0000 == 0xff;
            let unique_local: bool = ip / 0x200_0000_0000_0000_0000_0000_0000_0000 == 0x7e;
            let link_local: bool = ip / 0x40_0000_0000_0000_0000_0000_0000_0000 == 0x3fa;
            ip != 0 && ip != 1 && !multicast && !unique_local && !link_local
        },
    }
}

/// What the guard leaves of a lookup's result.
pub open spec fn let_through(resolved: Option<SocketAddr>, block_private: bool) -> Option<
    SocketAddr,
> {
    match resolved {
        Some(a) => if is_safe(a, block_private) {
            Some(a)
        } else {
            None
        },
        None => None,
    }
}

/// A resolved target that may be used: `None` where there is none or the guard
/// refuses it.
pub fn guarded_target(resolved: Option<SocketAddr>, block_private: bool) -> (t: Option<SocketAddr>)
    ensures
        t == let_through(resolved, block_private),
{
    match resolved {
        Some(a) => if is_safe_target(&a, block_private) {
            Some(a)
        } else {
            None
        },
        None => None,
    }
}

/// Without the guard every target is allowed.
pub proof fn lemma_unguarded_allows_all(addr: SocketAddr)
    ensures
        is_safe(addr, false),
{
}

/// Writing an IPv4 address in its mapped IPv6 form does not get it past the
/// guard: both forms are judged alike.
pub proof fn lemma_mapped_judged_as_v4(v4: u32, v6: u128, port: u16)
    requires
        mapped_v4(v6) == Some(v4),
    ensures
        is_safe((SocketAddr { ip: IpAddr::V6(v6), port }), true) == is_safe(
            (SocketAddr { ip: IpAddr::V4(v4), port }),
            true,
        ),
{
}

/// Which IPv4 addresses the guard lets through, by their octets.
pub proof fn lemma_guarded_v4_octets(a: u8, b: u8, c: u8, d: u8, ip: u32, port: u16)
    requires
        ip == ((a * 256 + b) * 256 + c) * 256 + d,
    ensures
        is_safe((SocketAddr { ip: IpAddr::V4(ip), port }), true) <==> !({
            ||| a == 0
            ||| a == 10
            ||| a == 127
            ||| (a == 100 && 64 <= b <= 127)
            ||| (a == 169 && b == 254)
            ||| (a == 172 && 16 <= b <= 31)
            ||| (a == 192 && b == 0 && c == 0)
            ||| (a == 192 && b == 168)
            ||| 224 <= a <= 239
            ||| (a == 255 && b == 255 && c == 255 && d == 255)
        }),
{
}

/// Which IPv6 addresses the guard lets through, by the first 16-bit segment and
/// the other 112 bits, mapped IPv4 addresses aside.
pub proof fn lemma_guarded_v6_segments(first: u16, rest: u128, ip: u128, port: u16)
    requires
        rest < 0x1_0000_0000_0000_0000_0000_0000_0000,
        ip == first * 0x1_0000_0000_0000_0000_0000_0000_0000 + rest,
        !(0xffff_0000_0000 <= ip <= 0xffff_ffff_ffff),
    ensures
        is_safe((SocketAddr { ip: IpAddr::V6(ip), port }), true) <==> !({
            ||| ip == 0
            ||| ip == 1
            ||| 0xff00 <= first
            ||| 0xfc00 <= first <= 0xfdff
            ||| 0xfe80 <= first <= 0xfebf
        }),
{
}

/// An IPv6 address in `::ffff:0:0/96` is judged by its last four octets.
pub proof fn lemma_guarded_mapped(v4: u32, port: u16)
    ensures
        is_safe(
            (SocketAddr { ip: IpAddr::V6((0xffff_0000_0000 + v4) as u128), port }),
            true,
        ) == is_safe((SocketAddr { ip: IpAddr::V4(v4), port }), true),
{
}

/// The port never matters to the guard.
pub proof fn lemma_port_does_not_matter(ip: IpAddr, p: u16, q: u16, block_private: bool)
    ensures
        is_safe((SocketAddr { ip, port: p }), block_private) == is_safe(
            (SocketAddr { ip, port: q }),
            block_private,
        ),
{
}

/// What comes through is what was looked up, and it comes through exactly if the
/// guard allows it.
pub proof fn lemma_let_through(a: SocketAddr, block_private: bool)
    ensures
        let_through(None, block_private) is None,
        is_safe(a, block_private) ==> let_through(Some(a), block_private) == Some(a),
        !is_safe(a, block_private) ==> let_through(Some(a), block_private) is None,
{
}

} // verus!
