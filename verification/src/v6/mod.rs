//! Version 6 shaping layer.
//!
//! The session crypto is that of version 5 (argon2id, AES-128-GCM, a 12-byte
//! little-endian counter nonce). On top of it come obfuscations that are
//! derived from the pre-shared key through a [`Profile`].

pub mod filler;
pub mod frame;
pub mod io;
pub mod mix;
pub mod mode;
pub mod profile;
pub mod record;
pub mod sizing;
pub mod unsafe_raw;

pub use io::{read_record, write_records, write_zero_record};
pub use mode::Mode;
pub use profile::Profile;
pub use record::{seal_record, seal_record_shaped};
pub use unsafe_raw::{decode_unsafe_raw, encode_unsafe_raw};
pub use unsafe_raw::{read_unsafe_raw, write_unsafe_raw, write_unsafe_raw_zero};
