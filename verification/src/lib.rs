//! Snell proxy protocol: verified framing, key schedule, traffic shaping and
//! connection rules.

pub(crate) mod bytes;
pub mod activation;
pub mod big_endian;
pub mod cipher;
pub mod config;
pub mod cooldown;
pub mod crypto;
pub mod errcode;
pub mod error;
pub mod guard;
pub mod interleave;
pub mod little_endian;
pub mod net;
pub mod obfs;
pub mod quic;
pub mod relay;
pub mod resolver;
pub mod salt_cache;
pub mod server;
pub mod session;
pub mod snell;
pub mod socks;
pub mod stream;
pub mod text;
pub mod uot;
pub mod v6;

pub use error::SnellError;
