//! Decisions of the server about one connection.
//!
//! The caller does the work a decision asks for (resolve, dial, send) and comes
//! back with what happened.

use vstd::prelude::*;
use vstd::utf8::encode_utf8;
use crate::errcode::{AF_DISABLED, CONN_REFUSED, DNS_FAILED, GENERAL};
use crate::error::SnellError;
use crate::guard::{is_safe, is_safe_target};
use crate::net::{IpAddr, SocketAddr};
use crate::resolver::{literal_target, refuses, IpPolicy};
use crate::snell::{SnellRequest, CMD_CONNECT, CMD_CONNECT_UDP, CMD_CONNECT_V2, CMD_PING};
use crate::snell::{RESP_ERROR, RESP_PONG, RESP_TUNNEL};
use crate::v6::mode::Mode;

verus! {

pub const MSG_FORBIDDEN: &'static str = "forbidden";

pub const MSG_CONNECT_FAILED: &'static str = "connection failed";

pub const MSG_DNS_FAILED: &'static str = "DNS resolution failed";

pub const MSG_IPV4_DISABLED: &'static str = "IPv4 is disabled";

pub const MSG_IPV6_DISABLED: &'static str = "IPv6 is disabled";

/// What a request asks a server to do.
#[derive(Clone, Copy, PartialEq, Eq, Structural, Debug)]
pub enum RequestAction {
    /// Answer a ping and wait for the next request.
    Pong,
    /// Relay datagrams for the rest of the connection.
    RelayUdp,
    /// Connect to the target.
    Connect,
}

/// What a command asks for in `mode`; every other command ends the connection.
/// Datagrams are relayed in the unshaped mode alone.
pub open spec fn action_of(mode: Mode, command: u8) -> Result<RequestAction, SnellError> {
    if command == CMD_PING {
        Ok(RequestAction::Pong)
    } else if command == CMD_CONNECT_UDP && mode is Unshaped {
        Ok(RequestAction::RelayUdp)
    } else if command == CMD_CONNECT || command == CMD_CONNECT_V2 {
        Ok(RequestAction::Connect)
    } else {
        Err(SnellError::UnknownCommand { command })
    }
}

/// What a request asks for in `mode`.
pub fn request_action(mode: Mode, req: &SnellRequest) -> (out: Result<RequestAction, SnellError>)
    ensures
        out == action_of(mode, req.command),
{
    if req.command == CMD_PING {
        Ok(RequestAction::Pong)
    } else if req.command == CMD_CONNECT_UDP && mode == Mode::Unshaped {
        Ok(RequestAction::RelayUdp)
    } else if req.command == CMD_CONNECT || req.command == CMD_CONNECT_V2 {
        Ok(RequestAction::Connect)
    } else {
        Err(SnellError::UnknownCommand { command: req.command })
    }
}

/// Bytes of an error reply.
pub open spec fn error_bytes(code: u8, msg: Seq<u8>) -> Seq<u8> {
    seq![RESP_ERROR, code, msg.len() as u8] + msg
}

/// Encodes an error reply. The message must fit its length byte.
pub fn error_frame(code: u8, msg: &str) -> (out: Vec<u8>)
    requires
        encode_utf8(msg@).len() <= 255,
    ensures
        out@ == error_bytes(code, encode_utf8(msg@)),
{
    let mb: &[u8] = msg.as_bytes();
    let mut out: Vec<u8> = Vec::new();
    out.push(RESP_ERROR);
    out.push(code);
    out.push(mb.len() as u8);
    out.extend_from_slice(mb);
    assert(out@ =~= error_bytes(code, encode_utf8(msg@)));
    out
}

/// The fixed messages fit the length byte of an error reply.
proof fn lemma_messages_fit()
    ensures
        encode_utf8(MSG_FORBIDDEN@).len() == 9,
        encode_utf8(MSG_CONNECT_FAILED@).len() == 17,
        encode_utf8(MSG_DNS_FAILED@).len() == 21,
        encode_utf8(MSG_IPV4_DISABLED@).len() == 16,
        encode_utf8(MSG_IPV6_DISABLED@).len() == 16,
{
    reveal_strlit("forbidden");
    reveal_strlit("connection failed");
    reveal_strlit("DNS resolution failed");
    reveal_strlit("IPv4 is disabled");
    reveal_strlit("IPv6 is disabled");
    vstd::utf8::is_ascii_chars_encode_utf8(MSG_FORBIDDEN@);
    vstd::utf8::is_ascii_chars_encode_utf8(MSG_CONNECT_FAILED@);
    vstd::utf8::is_ascii_chars_encode_utf8(MSG_DNS_FAILED@);
    vstd::utf8::is_ascii_chars_encode_utf8(MSG_IPV4_DISABLED@);
    vstd::utf8::is_ascii_chars_encode_utf8(MSG_IPV6_DISABLED@);
}

/// How an attempt to connect to a target ended.
#[derive(Clone, Copy, PartialEq, Eq, Structural, Debug)]
pub enum DialOutcome {
    Connected,
    Refused,
    Failed,
}

/// What happened last on the way to a target.
#[derive(Clone, Copy, PartialEq, Eq, Structural, Debug)]
pub enum ConnectEvent {
    /// A connect request came in; `literal` is its host if that is an address.
    Requested { literal: Option<IpAddr>, port: u16 },
    /// The host was looked up; `None` means that no usable address came of it.
    Resolved(Option<SocketAddr>),
    /// The target was dialed.
    Dialed(DialOutcome),
}

/// What to do next on the way to a target.
pub enum ConnectAction {
    /// Look the host up under the policy.
    Resolve,
    /// Dial the address.
    Dial(SocketAddr),
    /// Send this refusal and wait for the next request.
    Refuse(Vec<u8>),
    /// Send this reply, hand bundled data to the target and relay.
    Tunnel(Vec<u8>),
}

/// What a next step is.
#[verifier::ext_equal]
pub enum ConnectActionView {
    Resolve,
    Dial(SocketAddr),
    Refuse(Seq<u8>),
    Tunnel(Seq<u8>),
}

impl View for ConnectAction {
    type V = ConnectActionView;

    open spec fn view(&self) -> ConnectActionView {
        match self {
            ConnectAction::Resolve => ConnectActionView::Resolve,
            ConnectAction::Dial(a) => ConnectActionView::Dial(*a),
            ConnectAction::Refuse(b) => ConnectActionView::Refuse(b@),
            ConnectAction::Tunnel(b) => ConnectActionView::Tunnel(b@),
        }
    }
}

/// Bytes of the refusal with a code and a message.
pub open spec fn refusal(code: u8, msg: Seq<char>) -> ConnectActionView {
    ConnectActionView::Refuse(error_bytes(code, encode_utf8(msg)))
}

/// A known address is dialed unless the guard refuses it.
pub open spec fn dial_or_refuse(a: SocketAddr, block_private: bool) -> ConnectActionView {
    if is_safe(a, block_private) {
        ConnectActionView::Dial(a)
    } else {
        refusal(GENERAL, MSG_FORBIDDEN@)
    }
}

/// The next step after an event, under a family policy and with the guard on or
/// off. Literal targets are held to the policy before anything else.
pub open spec fn next_step(
    ev: ConnectEvent,
    policy: IpPolicy,
    block_private: bool,
) -> ConnectActionView {
    match ev {
        ConnectEvent::Requested { literal: None, port } => ConnectActionView::Resolve,
        ConnectEvent::Requested { literal: Some(ip), port } => if refuses(policy, ip) {
            refusal(
                AF_DISABLED,
                if ip is V6 {
                    MSG_IPV6_DISABLED@
                } else {
                    MSG_IPV4_DISABLED@
                },
            )
        } else {
            dial_or_refuse(SocketAddr { ip, port }, block_private)
        },
        ConnectEvent::Resolved(None) => refusal(DNS_FAILED, MSG_DNS_FAILED@),
        ConnectEvent::Resolved(Some(a)) => dial_or_refuse(a, block_private),
        ConnectEvent::Dialed(DialOutcome::Connected) => ConnectActionView::Tunnel(
            seq![RESP_TUNNEL],
        ),
        ConnectEvent::Dialed(DialOutcome::Refused) => refusal(CONN_REFUSED, MSG_CONNECT_FAILED@),
        ConnectEvent::Dialed(DialOutcome::Failed) => refusal(GENERAL, MSG_CONNECT_FAILED@),
    }
}

fn dial_step(a: SocketAddr, block_private: bool) -> (out: ConnectAction)
    ensures
        out@ == dial_or_refuse(a, block_private),
{
    proof {
        lemma_messages_fit();
    }
    if is_safe_target(&a, block_private) {
        ConnectAction::Dial(a)
    } else {
        ConnectAction::Refuse(error_frame(GENERAL, MSG_FORBIDDEN))
    }
}

/// Decides the next step on the way to a target.
pub fn connect_step(ev: ConnectEvent, policy: IpPolicy, block_private: bool) -> (out: ConnectAction)
    ensures
        out@ == next_step(ev, policy, block_private),
{
    proof {
        lemma_messages_fit();
    }
    match ev {
        ConnectEvent::Requested { literal: None, port: _ } => ConnectAction::Resolve,
        ConnectEvent::Requested { literal: Some(ip), port } => match literal_target(
            ip,
            port,
            policy,
        ) {
            Some(a) => dial_step(a, block_private),
            None => if ip.is_ipv4() {
                ConnectAction::Refuse(error_frame(AF_DISABLED, MSG_IPV4_DISABLED))
            } else {
                ConnectAction::Refuse(error_frame(AF_DISABLED, MSG_IPV6_DISABLED))
            },
        },
        ConnectEvent::Resolved(None) => ConnectAction::Refuse(
            error_frame(DNS_FAILED, MSG_DNS_FAILED),
        ),
        ConnectEvent::Resolved(Some(a)) => dial_step(a, block_private),
        ConnectEvent::Dialed(DialOutcome::Connected) => {
            let ok: Vec<u8> = tunnel_reply();
            ConnectAction::Tunnel(ok)
        },
        ConnectEvent::Dialed(DialOutcome::Refused) => ConnectAction::Refuse(
            error_frame(CONN_REFUSED, MSG_CONNECT_FAILED),
        ),
        ConnectEvent::Dialed(DialOutcome::Failed) => ConnectAction::Refuse(
            error_frame(GENERAL, MSG_CONNECT_FAILED),
        ),
    }
}

/// The reply that opens a tunnel.
pub fn tunnel_reply() -> (out: Vec<u8>)
    ensures
        out@ == seq![RESP_TUNNEL],
{
    let mut out: Vec<u8> = Vec::new();
    out.push(RESP_TUNNEL);
    assert(out@ =~= seq![RESP_TUNNEL]);
    out
}

/// The reply to a ping.
pub fn pong_reply() -> (out: Vec<u8>)
    ensures
        out@ == seq![RESP_PONG],
{
    let mut out: Vec<u8> = Vec::new();
    out.push(RESP_PONG);
    assert(out@ =~= seq![RESP_PONG]);
    out
}

/// Whatever led to it, an address that is dialed is one the guard allows, and a
/// literal that is dialed is one the policy allows.
pub proof fn lemma_dialed_targets_are_allowed(
    ev: ConnectEvent,
    policy: IpPolicy,
    block_private: bool,
    a: SocketAddr,
)
    requires
        next_step(ev, policy, block_private) == ConnectActionView::Dial(a),
    ensures
        is_safe(a, block_private),
        ev is Requested ==> !refuses(policy, a.ip),
{
}

/// Every refusal is an error reply whose length byte counts its message.
pub proof fn lemma_refusals_are_error_frames(
    ev: ConnectEvent,
    policy: IpPolicy,
    block_private: bool,
    b: Seq<u8>,
)
    requires
        next_step(ev, policy, block_private) == ConnectActionView::Refuse(b),
    ensures
        b.len() >= 3,
        b[0] == RESP_ERROR,
        b[2] == b.len() - 3,
{
    lemma_messages_fit();
}

/// How far a connection had come when it ended.
#[derive(Clone, Copy, PartialEq, Eq, Structural, Debug)]
pub enum Phase {
    /// No byte of the client had arrived.
    Silent,
    /// The client had spoken, but no tunnel was open.
    Handshake,
    /// A tunnel was open.
    Established,
}

/// How the end of a connection is reported.
#[derive(Clone, Copy, PartialEq, Eq, Structural, Debug)]
pub enum CloseReport {
    /// An ordinary end.
    Normal,
    /// A peer that went away without a word: of no interest.
    ClosedEarly,
    /// A failure that someone should look at.
    Failure,
}

/// How to report a connection that ended with an error. `hang_up` tells that the
/// error is the peer closing or resetting the connection. A hang-up is harmless
/// before the first byte and behind the handshake; in between it is how a wrong
/// key or mode shows.
pub fn close_report(phase: Phase, hang_up: bool) -> (r: CloseReport)
    ensures
        r == if !hang_up || phase == Phase::Handshake {
            CloseReport::Failure
        } else if phase == Phase::Silent {
            CloseReport::ClosedEarly
        } else {
            CloseReport::Normal
        },
{
    match (phase, hang_up) {
        (_, false) => CloseReport::Failure,
        (Phase::Handshake, true) => CloseReport::Failure,
        (Phase::Silent, true) => CloseReport::ClosedEarly,
        (Phase::Established, true) => CloseReport::Normal,
    }
}

/// Looking a host up is what a request with a name leads to, whatever its port,
/// the policy and the guard.
pub proof fn lemma_names_are_looked_up(port: u16, policy: IpPolicy, block_private: bool)
    ensures
        next_step(
            ConnectEvent::Requested { literal: None, port },
            policy,
            block_private,
        ) is Resolve,
{
}

/// The address that a lookup brought is dialed, of either family and under every
/// policy, unless the guard refuses it: then, and only then, the client is told
/// that the target is forbidden.
pub proof fn lemma_looked_up_targets_are_dialed(
    a: SocketAddr,
    policy: IpPolicy,
    block_private: bool,
)
    ensures
        ({
            let next = next_step(ConnectEvent::Resolved(Some(a)), policy, block_private);
            &&& is_safe(a, block_private) ==> next == ConnectActionView::Dial(a)
            &&& !is_safe(a, block_private) ==> next == ConnectActionView::Refuse(
                seq![0x02u8, 0x00, 9] + encode_utf8("forbidden"@),
            )
        }),
        next_step(ConnectEvent::Resolved(None), policy, block_private)
            == ConnectActionView::Refuse(
            seq![0x02u8, 0x64, 21] + encode_utf8("DNS resolution failed"@),
        ),
{
    lemma_messages_fit();
}

/// A target given as an address is dialed, with the port of the request, if the
/// policy does not demand the other family and the guard allows it. The policy is
/// held against it first.
pub proof fn lemma_literal_targets_are_dialed(
    ip: IpAddr,
    port: u16,
    policy: IpPolicy,
    block_private: bool,
)
    ensures
        ({
            let a = SocketAddr { ip, port };
            let next = next_step(
                ConnectEvent::Requested { literal: Some(ip), port },
                policy,
                block_private,
            );
            if policy == IpPolicy::Ipv4Only && ip is V6 {
                next == ConnectActionView::Refuse(
                    seq![0x02u8, 0x65, 16] + encode_utf8("IPv6 is disabled"@),
                )
            } else if policy == IpPolicy::Ipv6Only && ip is V4 {
                next == ConnectActionView::Refuse(
                    seq![0x02u8, 0x65, 16] + encode_utf8("IPv4 is disabled"@),
                )
            } else if is_safe(a, block_private) {
                next == ConnectActionView::Dial(a)
            } else {
                next == ConnectActionView::Refuse(
                    seq![0x02u8, 0x00, 9] + encode_utf8("forbidden"@),
                )
            }
        }),
{
    lemma_messages_fit();
}

/// A target that was reached opens the tunnel, any other outcome is an error
/// reply that tells a refused connection from other failures.
pub proof fn lemma_dial_outcomes(policy: IpPolicy, block_private: bool)
    ensures
        next_step(ConnectEvent::Dialed(DialOutcome::Connected), policy, block_private)
            == ConnectActionView::Tunnel(seq![0x00u8]),
        next_step(ConnectEvent::Dialed(DialOutcome::Refused), policy, block_private)
            == ConnectActionView::Refuse(
            seq![0x02u8, 0x06, 17] + encode_utf8("connection failed"@),
        ),
        next_step(ConnectEvent::Dialed(DialOutcome::Failed), policy, block_private)
            == ConnectActionView::Refuse(
            seq![0x02u8, 0x00, 17] + encode_utf8("connection failed"@),
        ),
{
    lemma_messages_fit();
}

/// What every command byte means in every mode.
pub proof fn lemma_commands(mode: Mode, command: u8)
    ensures
        action_of(mode, command) == Ok::<RequestAction, SnellError>(RequestAction::Pong) <==>
            command == 0,
        action_of(mode, command) == Ok::<RequestAction, SnellError>(RequestAction::Connect) <==> (
        command == 1 || command == 5),
        action_of(mode, command) == Ok::<RequestAction, SnellError>(RequestAction::RelayUdp) <==> (
        command == 6 && mode == Mode::Unshaped),
        action_of(mode, command) is Err ==> action_of(mode, command)->Err_0 == (
        SnellError::UnknownCommand { command }),
{
}

/// An error reply is the byte 2, the code, the length of the message and the
/// message: code and message can be read off it again.
pub proof fn lemma_error_bytes(code: u8, msg: Seq<u8>)
    requires
        msg.len() <= 255,
    ensures
        error_bytes(code, msg).len() == 3 + msg.len(),
        error_bytes(code, msg)[0] == 2,
        error_bytes(code, msg)[1] == code,
        error_bytes(code, msg)[2] == msg.len(),
        error_bytes(code, msg).skip(3) == msg,
{
    assert(error_bytes(code, msg).skip(3) =~= msg);
}

} // verus!
