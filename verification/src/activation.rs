//! Sockets handed over by a service manager.

use vstd::prelude::*;
use crate::config::{lemma_bound_only_cuts_off, number_or, number_setting, parsed_number};

verus! {

/// The first descriptor that is handed over.
pub const LISTEN_FDS_START: u32 = 3;

/// The descriptors handed over: `n` in a row, if they are meant for this process.
pub open spec fn listener_fds(listen_pid: u32, n: u32, our_pid: u32) -> Seq<i32> {
    if listen_pid == our_pid {
        Seq::new(n as nat, |i: int| ((LISTEN_FDS_START + i) as u32) as i32)
    } else {
        Seq::empty()
    }
}

/// The descriptors that two settings hand over to process `our_pid`.
pub open spec fn handed_over(
    listen_pid: Option<&str>,
    listen_fds: Option<&str>,
    our_pid: u32,
) -> Seq<i32> {
    listener_fds(
        number_setting(listen_pid, u32::MAX as nat, 0) as u32,
        number_setting(listen_fds, u32::MAX as nat, 0) as u32,
        our_pid,
    )
}

/// The descriptors handed over to process `our_pid`, given the process they are
/// meant for and their number. An unset or malformed setting counts as 0. The
/// number matters only where they are meant for this process.
pub fn take_listener_fds(listen_pid: Option<&str>, listen_fds: Option<&str>, our_pid: u32) -> (fds:
    Vec<i32>)
    requires
        number_setting(listen_pid, u32::MAX as nat, 0) == our_pid ==> number_setting(
            listen_fds,
            u32::MAX as nat,
            0,
        ) <= u32::MAX - LISTEN_FDS_START,
    ensures
        fds@ == handed_over(listen_pid, listen_fds, our_pid),
{
    let pid: u32 = number_or(listen_pid, u32::MAX as u128, 0) as u32;
    let n: u32 = number_or(listen_fds, u32::MAX as u128, 0) as u32;
    let mut fds: Vec<i32> = Vec::new();
    if pid != our_pid {
        assert(fds@ =~= listener_fds(pid, n, our_pid));
        return fds;
    }
    let mut i: u32 = 0;
    while i < n
        invariant
            i <= n <= u32::MAX - LISTEN_FDS_START,
            fds@.len() == i,
            forall|j: int| 0 <= j < i ==> fds@[j] == ((LISTEN_FDS_START + j) as u32) as i32,
        decreases n - i,
    {
        fds.push((LISTEN_FDS_START + i) as i32);
        i = i + 1;
    }
    assert(fds@ =~= listener_fds(pid, n, our_pid));
    fds
}

/// Where a server gets its sockets.
#[derive(Clone, Copy, PartialEq, Eq, Structural, Debug)]
pub enum ListenPlan {
    /// Bind the listening address; a UDP socket too if asked for.
    Bind { with_udp: bool },
    /// Adopt descriptors that were handed over.
    Adopt { tcp: i32, udp: Option<i32> },
}

/// Where a server with these descriptors gets its sockets.
pub open spec fn plan_for(fds: Seq<i32>, quic: bool) -> ListenPlan {
    if fds.len() == 0 {
        ListenPlan::Bind { with_udp: quic }
    } else {
        ListenPlan::Adopt {
            tcp: fds[0],
            udp: if quic && fds.len() > 1 {
                Some(fds[1])
            } else {
                None
            },
        }
    }
}

/// Adopts the first descriptor as TCP listener and, if datagrams are to be
/// proxied, the second as UDP socket; binds where none was handed over.
pub fn listen_plan(fds: &[i32], quic: bool) -> (p: ListenPlan)
    ensures
        p == plan_for(fds@, quic),
{
    if fds.len() == 0 {
        ListenPlan::Bind { with_udp: quic }
    } else {
        ListenPlan::Adopt {
            tcp: fds[0],
            udp: if quic && fds.len() > 1 {
                Some(fds[1])
            } else {
                None
            },
        }
    }
}

/// Descriptors meant for this process are numbered from 3 on, one after the other;
/// those meant for another are not touched.
pub proof fn lemma_descriptors(listen_pid: u32, n: u32, our_pid: u32, i: int)
    ensures
        listen_pid != our_pid ==> listener_fds(listen_pid, n, our_pid).len() == 0,
        listen_pid == our_pid ==> listener_fds(listen_pid, n, our_pid).len() == n,
        listen_pid == our_pid && 0 <= i < n && i <= i32::MAX - 3 ==> listener_fds(
            listen_pid,
            n,
            our_pid,
        )[i] == 3 + i,
{
}

/// The first descriptor is for TCP, the second, if datagrams are proxied, for UDP;
/// more are ignored. Without any, and only then, the server binds on its own.
pub proof fn lemma_plans(tcp: i32, udp: i32, more: Seq<i32>, quic: bool)
    ensures
        plan_for(Seq::empty(), quic) == (ListenPlan::Bind { with_udp: quic }),
        plan_for(seq![tcp], quic) == (ListenPlan::Adopt { tcp, udp: None }),
        plan_for(seq![tcp, udp] + more, true) == (ListenPlan::Adopt { tcp, udp: Some(udp) }),
        plan_for(seq![tcp, udp] + more, false) == (ListenPlan::Adopt { tcp, udp: None }),
{
}

/// Settings that name this process and spell a count hand over that many
/// descriptors from 3 on; without a count, or with another process, there are
/// none.
pub proof fn lemma_handed_over(pid: &str, count: &str, our_pid: u32, n: u32, i: int)
    requires
        our_pid != 0,
        parsed_number(count@, u32::MAX as nat) == Some(n as nat),
    ensures
        parsed_number(pid@, u32::MAX as nat) == Some(our_pid as nat) ==> {
            &&& handed_over(Some(pid), Some(count), our_pid).len() == n
            &&& 0 <= i < n && i <= i32::MAX - 3 ==> handed_over(
                Some(pid),
                Some(count),
                our_pid,
            )[i] == 3 + i
            &&& handed_over(Some(pid), None, our_pid).len() == 0
        },
        parsed_number(pid@, u32::MAX as nat) != Some(our_pid as nat) ==> handed_over(
            Some(pid),
            Some(count),
            our_pid,
        ).len() == 0,
        handed_over(None, Some(count), our_pid).len() == 0,
{
    lemma_bound_only_cuts_off(pid@, u32::MAX as nat, 0);
    lemma_bound_only_cuts_off(pid@.skip(1), u32::MAX as nat, 0);
}

} // verus!
