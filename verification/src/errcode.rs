//! Codes of error replies.

use vstd::prelude::*;

verus! {

/// No particular reason.
pub const GENERAL: u8 = 0x00;

/// The target refused the connection.
pub const CONN_REFUSED: u8 = 0x06;

/// The target's name did not resolve to a usable address.
pub const DNS_FAILED: u8 = 0x64;

/// The target is an address of a family that the server does not use.
pub const AF_DISABLED: u8 = 0x65;

} // verus!
