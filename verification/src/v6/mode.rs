//! The mode of a session.
//!
//! Server and client are configured with the same mode; nothing on the wire
//! says which it is.

use vstd::prelude::*;
use crate::text::{is_word, lemma_words_ignore_case, lowered, trimmed};

verus! {

/// How a session is encrypted and shaped.
#[derive(Debug, Clone, Copy, PartialEq, Eq, Structural)]
pub enum Mode {
    /// Scattered salt, records with prefix and junk.
    Default,
    /// Plain salt, plain chunks.
    Unshaped,
    /// Plaintext frames: no salt, no key derivation, no encryption.
    UnsafeRaw,
}

/// The mode that a configuration value names.
pub open spec fn parsed_mode(s: Seq<char>) -> Option<Mode> {
    let w = lowered(trimmed(s));
    if w == "default"@ {
        Some(Mode::Default)
    } else if w == "unshaped"@ {
        Some(Mode::Unshaped)
    } else if w == "unsafe-raw"@ {
        Some(Mode::UnsafeRaw)
    } else {
        None
    }
}

/// The mode of a setting: shaped if it is unset.
pub open spec fn mode_setting(value: Option<&str>) -> Option<Mode> {
    match value {
        Some(s) => parsed_mode(s@),
        None => Some(Mode::Default),
    }
}

/// Mode names ignore the case of their letters.
pub proof fn lemma_mode_ignores_case(s: Seq<char>, t: Seq<char>)
    requires
        lowered(s) == lowered(t),
    ensures
        parsed_mode(s) == parsed_mode(t),
{
    lemma_words_ignore_case(s, t);
}

impl Mode {
    /// The mode that a configuration value names, whatever the case of its
    /// letters; `None` for an unknown value.
    pub fn parse(s: &str) -> (m: Option<Mode>)
        ensures
            m == parsed_mode(s@),
    {
        if is_word(s, "default") {
            Some(Mode::Default)
        } else if is_word(s, "unshaped") {
            Some(Mode::Unshaped)
        } else if is_word(s, "unsafe-raw") {
            Some(Mode::UnsafeRaw)
        } else {
            None
        }
    }

    /// The mode of an optional setting: shaped if it is unset.
    pub fn from_setting(value: Option<&str>) -> (m: Option<Mode>)
        ensures
            m == mode_setting(value),
    {
        match value {
            Some(s) => Mode::parse(s),
            None => Some(Mode::Default),
        }
    }
}

impl Default for Mode {
    fn default() -> (m: Mode)
        ensures
            m == Mode::Default,
    {
        Mode::Default
    }
}

/// Each mode has one name; upper and lower case and white space around it do not
/// matter. Any other text names no mode.
pub proof fn lemma_mode_names(s: Seq<char>, m: Mode)
    ensures
        parsed_mode(s) == Some(m) <==> lowered(trimmed(s)) == match m {
            Mode::Default => "default"@,
            Mode::Unshaped => "unshaped"@,
            Mode::UnsafeRaw => "unsafe-raw"@,
        },
{
    reveal_strlit("default");
    reveal_strlit("unshaped");
    reveal_strlit("unsafe-raw");
    assert("default"@.len() == 7);
    assert("unshaped"@.len() == 8);
    assert("unsafe-raw"@.len() == 10);
}

/// A setting names its mode; without one the session is shaped.
pub proof fn lemma_mode_settings(s: &str)
    ensures
        mode_setting(Some(s)) == parsed_mode(s@),
        mode_setting(None) == Some(Mode::Default),
{
}

} // verus!
