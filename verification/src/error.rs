//! The ways in which protocol work can fail.

use vstd::prelude::*;

verus! {

/// Why a protocol operation failed.
#[derive(Clone, Copy, PartialEq, Eq, Structural, Debug)]
pub enum SnellError {
    /// Key derivation refused the key or the salt for its length.
    KeyDerivation,
    /// The payload does not fit the 16-bit length of a chunk header.
    PlaintextTooLarge { len: usize },
    /// A junk region does not fit the 16-bit length of a chunk header.
    JunkTooLarge { len: usize },
    /// The AEAD refused to seal.
    Seal,
    /// A chunk header did not authenticate.
    HeaderAuth,
    /// A chunk header authenticated but holds another message type.
    HeaderType { type_byte: u8 },
    /// A chunk payload did not authenticate.
    PayloadAuth,
    /// The input ended inside a frame.
    Truncated,
    /// The filler handed in is not as long as the first frame.
    FillerLength { found: usize, expected: usize },
    /// The first frame does not have the length of this profile.
    FrameLength { found: usize, expected: usize },
    /// A request has no room for version, command and client id length.
    RequestTooShort,
    /// A request of another protocol version.
    UnsupportedVersion { version: u8 },
    /// A request ends inside its client id.
    TruncatedClientId { need: usize },
    /// A request ends in front of its host.
    TruncatedHandshake,
    /// A request ends inside its host or port.
    TruncatedHost,
    /// The host of a request is not UTF-8.
    HostEncoding,
    /// An address family preference that is none of the known words.
    UnknownPreference,
    /// A list of name servers without any entry.
    NoNameservers,
    /// A handshake salt that was seen within the replay window.
    SaltReplay,
    /// A sealed datagram is too short to hold nonce and tag.
    DatagramTooShort,
    /// A session start comes too soon after the last one from its address.
    RateLimited,
    /// No further session fits.
    SessionTableFull,
    /// A session start without a request in it.
    EmptyInit,
    /// A session start with an unknown command.
    UnknownCommand { command: u8 },
    /// The user name of a session start is not UTF-8.
    UserEncoding,
    /// An address of an unknown type.
    AddressType { type_byte: u8 },
    /// A proxy client that speaks another SOCKS version.
    SocksVersion { version: u8 },
    /// An IPv6 address where only an IPv4 address has a place.
    UnexpectedIpv6,
    /// The first reply is not the opening of a tunnel.
    UnexpectedReply { reply: Option<u8> },
    /// The peer closed in the middle of an HTTP request.
    HttpClosed,
    /// An HTTP request beyond the size limit.
    HttpTooLarge,
    /// No pre-shared key is set.
    MissingPsk,
    /// The pre-shared key is too short to serve with.
    ShortPsk { len: usize },
    /// A mode that is none of the known words.
    UnknownMode,
    /// An encrypted session without a cipher.
    MissingCipher,
    /// The record counter of a session is used up.
    Exhausted,
    /// A plaintext frame starts with an unknown type byte.
    RawType { type_byte: u8 },
}

} // verus!
