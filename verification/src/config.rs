//! Settings out of the environment.

use vstd::prelude::*;
use vstd::string::StrSliceExecFns;
use vstd::utf8::encode_utf8;
use crate::cooldown::TCP_HANDSHAKE_COOLDOWN_MS;
use crate::error::SnellError;
use crate::resolver::{setting, settings_policy, IpPolicy};
use crate::v6::mode::{parsed_mode, Mode};

pub use crate::v6::mode::mode_setting;

verus! {

/// Fewest bytes of a server's pre-shared key.
pub const MIN_PSK_LEN: usize = 16;

/// Most connections a server handles at a time.
pub const MAX_CONCURRENT_CONNS: usize = 4096;

pub open spec fn is_digit(c: char) -> bool {
    '0' <= c && c <= '9'
}

/// The number that decimal digits spell; `None` for no digits, any other
/// character, or a number above `max`.
pub open spec fn digits_value(s: Seq<char>, max: nat) -> Option<nat>
    decreases s.len(),
{
    if s.len() == 0 {
        None
    } else if !is_digit(s.last()) {
        None
    } else {
        let d = (s.last() as u32 - '0' as u32) as nat;
        if s.len() == 1 {
            if d <= max {
                Some(d)
            } else {
                None
            }
        } else {
            match digits_value(s.drop_last(), max) {
                Some(v) => if 10 * v + d <= max {
                    Some(10 * v + d)
                } else {
                    None
                },
                None => None,
            }
        }
    }
}

/// The number that `s` spells: decimal digits, a plus sign in front allowed.
pub open spec fn parsed_number(s: Seq<char>, max: nat) -> Option<nat> {
    if s.len() > 0 && s[0] == '+' {
        digits_value(s.skip(1), max)
    } else {
        digits_value(s, max)
    }
}

/// The number in a setting, or `default` if it is unset or no number.
pub open spec fn number_setting(value: Option<&str>, max: nat, default: nat) -> nat {
    match value {
        Some(s) => match parsed_number(s@, max) {
            Some(v) => v,
            None => default,
        },
        None => default,
    }
}

/// The number that the characters of `s` from `at` spell.
fn parse_digits(s: &str, at: usize, max: u128) -> (out: Option<u128>)
    requires
        at <= s@.len(),
    ensures
        match digits_value(s@.skip(at as int), max as nat) {
            Some(v) => out is Some && out->Some_0 == v,
            None => out is None,
        },
{
    let n: usize = s.unicode_len();
    let ghost t = s@.skip(at as int);
    if at == n {
        return None;
    }
    let mut v: u128 = 0;
    let mut i: usize = at;
    while i < n
        invariant
            at <= i <= n,
            at < n,
            n == s@.len(),
            t == s@.skip(at as int),
            v <= max,
            i == at ==> v == 0,
            i > at ==> digits_value(t.take(i - at), max as nat) == Some(v as nat),
        decreases n - i,
    {
        let c: char = s.get_char(i);
        let ghost upto = t.take(i - at + 1);
        assert(upto.last() == c);
        assert(upto.drop_last() =~= t.take(i - at));
        if !('0' <= c && c <= '9') {
            proof {
                lemma_bad_digit(t, i - at + 1, max as nat);
            }
            return None;
        }
        let d: u128 = (c as u32 - '0' as u32) as u128;
        if d > max || v > (max - d) / 10 {
            proof {
                lemma_bad_digit(t, i - at + 1, max as nat);
            }
            return None;
        }
        v = 10 * v + d;
        i = i + 1;
    }
    assert(t.take(n - at) =~= t);
    Some(v)
}

/// A prefix that spells no number spoils the whole.
proof fn lemma_bad_digit(s: Seq<char>, k: int, max: nat)
    requires
        1 <= k <= s.len(),
        digits_value(s.take(k), max) is None,
    ensures
        digits_value(s, max) is None,
    decreases s.len() - k,
{
    if k < s.len() {
        assert(s.take(k + 1).drop_last() =~= s.take(k));
        assert(digits_value(s.take(k + 1), max) is None);
        lemma_bad_digit(s, k + 1, max);
    } else {
        assert(s.take(k) =~= s);
    }
}

/// The number that `s` spells, if it is at most `max`.
pub fn parse_number(s: &str, max: u128) -> (out: Option<u128>)
    ensures
        match parsed_number(s@, max as nat) {
            Some(v) => out is Some && out->Some_0 == v,
            None => out is None,
        },
        out is Some ==> out->Some_0 <= max,
{
    proof {
        lemma_number_bound(s@, max as nat);
        lemma_number_bound(s@.skip(1), max as nat);
        assert(s@.skip(0) =~= s@);
    }
    if s.unicode_len() > 0 && s.get_char(0) == '+' {
        parse_digits(s, 1, max)
    } else {
        parse_digits(s, 0, max)
    }
}

proof fn lemma_number_bound(s: Seq<char>, max: nat)
    ensures
        digits_value(s, max) matches Some(v) ==> v <= max,
{
}

/// The number in a setting, or `default` if it is unset or no number.
pub fn number_or(value: Option<&str>, max: u128, default: u128) -> (v: u128)
    ensures
        v == number_setting(value, max as nat, default as nat),
        default <= max ==> v <= max,
{
    match value {
        Some(s) => match parse_number(s, max) {
            Some(v) => v,
            None => default,
        },
        None => default,
    }
}

/// Whether a setting is exactly the character `c`.
pub open spec fn is_char(value: Option<&str>, c: char) -> bool {
    value is Some && value->Some_0@ == seq![c]
}

fn setting_is(value: Option<&str>, c: char) -> (r: bool)
    ensures
        r == is_char(value, c),
{
    match value {
        Some(s) => {
            if s.unicode_len() != 1 {
                return false;
            }
            let r: bool = s.get_char(0) == c;
            assert(r ==> s@ =~= seq![c]);
            r
        },
        None => false,
    }
}

/// The settings that a server's decisions depend on, as found in the
/// environment.
pub struct ServerEnv<'a> {
    pub psk: Option<&'a str>,
    pub mode: Option<&'a str>,
    pub quic: Option<&'a str>,
    pub block_private_targets: Option<&'a str>,
    pub ipv6: Option<&'a str>,
    pub dns_ip_preference: Option<&'a str>,
    pub tcp_fastopen: Option<&'a str>,
    pub tcp_fastopen_out: Option<&'a str>,
    pub tcp_handshake_cooldown_ms: Option<&'a str>,
}

/// The settings of a server.
#[derive(Clone, Copy, PartialEq, Eq, Structural, Debug)]
pub struct ServerSettings {
    pub mode: Mode,
    /// Proxy datagrams as well.
    pub quic: bool,
    /// Refuse targets in private and reserved networks.
    pub block_private: bool,
    pub policy: IpPolicy,
    /// Fast open on the listening socket; on unless set to `0`.
    pub tfo_listen: bool,
    /// Fast open on outbound sockets.
    pub tfo_out: bool,
    /// Cooldown between handshakes of one address; 0 turns it off.
    pub cooldown_ms: u128,
}

/// The settings that the environment asks for, or why the server cannot start.
pub open spec fn settings_of(env: ServerEnv) -> Result<ServerSettings, SnellError> {
    match env.psk {
        None => Err(SnellError::MissingPsk),
        Some(p) => if encode_utf8(p@).len() < MIN_PSK_LEN {
            Err(SnellError::ShortPsk { len: encode_utf8(p@).len() as usize })
        } else {
            match settings_policy(setting(env.dns_ip_preference), setting(env.ipv6)) {
                Err(e) => Err(e),
                Ok(policy) => match mode_setting(env.mode) {
                    None => Err(SnellError::UnknownMode),
                    Some(mode) => Ok(
                        ServerSettings {
                            mode,
                            quic: is_char(env.quic, '1'),
                            block_private: is_char(env.block_private_targets, '1'),
                            policy,
                            tfo_listen: !is_char(env.tcp_fastopen, '0'),
                            tfo_out: is_char(env.tcp_fastopen_out, '1'),
                            cooldown_ms: number_setting(
                                env.tcp_handshake_cooldown_ms,
                                u128::MAX as nat,
                                TCP_HANDSHAKE_COOLDOWN_MS as nat,
                            ) as u128,
                        },
                    ),
                },
            }
        },
    }
}

/// Reads a server's settings. In this order it refuses to start without a key,
/// with a short key, with an unknown preference and with an unknown mode.
pub fn server_settings(env: &ServerEnv) -> (out: Result<ServerSettings, SnellError>)
    ensures
        out == settings_of(*env),
{
    let psk: &str = match env.psk {
        Some(p) => p,
        None => return Err(SnellError::MissingPsk),
    };
    let len: usize = psk.as_bytes().len();
    if len < MIN_PSK_LEN {
        return Err(SnellError::ShortPsk { len });
    }
    let policy: IpPolicy = match IpPolicy::from_env(env.dns_ip_preference, env.ipv6) {
        Ok(p) => p,
        Err(e) => return Err(e),
    };
    let mode: Mode = match Mode::from_setting(env.mode) {
        Some(m) => m,
        None => return Err(SnellError::UnknownMode),
    };
    let cooldown_ms: u128 = number_or(
        env.tcp_handshake_cooldown_ms,
        u128::MAX,
        TCP_HANDSHAKE_COOLDOWN_MS,
    );
    Ok(
        ServerSettings {
            mode,
            quic: setting_is(env.quic, '1'),
            block_private: setting_is(env.block_private_targets, '1'),
            policy,
            tfo_listen: !setting_is(env.tcp_fastopen, '0'),
            tfo_out: setting_is(env.tcp_fastopen_out, '1'),
            cooldown_ms,
        },
    )
}

/// One more digit makes a number ten times as large and adds the digit; beyond the
/// bound there is no number, nor with any other character.
pub proof fn lemma_one_more_digit(s: Seq<char>, c: char, max: nat)
    ensures
        ({
            let more = s.push(c);
            let d = c as u32 - 48;
            let digit = 48 <= c as u32 <= 57;
            &&& !digit ==> digits_value(more, max) is None
            &&& digit && s.len() == 0 ==> digits_value(more, max) == if d <= max {
                Some(d as nat)
            } else {
                None
            }
            &&& digit && s.len() > 0 ==> match digits_value(s, max) {
                None => digits_value(more, max) is None,
                Some(v) => digits_value(more, max) == if 10 * v + d <= max {
                    Some((10 * v + d) as nat)
                } else {
                    None
                },
            }
            &&& digits_value(Seq::empty(), max) is None
        }),
{
    let more = s.push(c);
    assert(more.last() == c);
    assert(more.drop_last() =~= s);
}

/// A plus sign in front changes nothing, a second one spoils the number.
pub proof fn lemma_plus_sign(s: Seq<char>, max: nat)
    requires
        s.len() > 0,
        s[0] != '+',
    ensures
        parsed_number(s, max) == digits_value(s, max),
        parsed_number(seq!['+'] + s, max) == parsed_number(s, max),
        parsed_number(seq!['+', '+'] + s, max) is None,
{
    assert((seq!['+'] + s).skip(1) =~= s);
    let t = (seq!['+', '+'] + s).skip(1);
    assert(t =~= seq!['+'] + s);
    assert(t.take(1) =~= Seq::<char>::empty().push('+'));
    lemma_one_more_digit(Seq::empty(), '+', max);
    lemma_bad_digit(t, 1, max);
}

/// The bound only cuts off: a number that fits two bounds is the same under both.
pub proof fn lemma_bound_only_cuts_off(s: Seq<char>, max: nat, other: nat)
    ensures
        digits_value(s, max) matches Some(v) ==> v <= max,
        digits_value(s, max) matches Some(v) ==> (v <= other ==> digits_value(s, other) == Some(v)),
    decreases s.len(),
{
    if s.len() > 1 {
        lemma_bound_only_cuts_off(s.drop_last(), max, other);
    }
}

/// A setting that spells a number has that value, any other has its default.
pub proof fn lemma_number_settings(value: Option<&str>, max: nat, default: nat)
    ensures
        value is None ==> number_setting(value, max, default) == default,
        value matches Some(s) ==> match parsed_number(s@, max) {
            Some(v) => number_setting(value, max, default) == v,
            None => number_setting(value, max, default) == default,
        },
{
}

/// Why a server does not start: no key, a key under 16 bytes, an unknown
/// preference, an unknown mode, in this order.
pub proof fn lemma_refused_settings(env: ServerEnv)
    ensures
        env.psk is None ==> settings_of(env) == Err::<ServerSettings, SnellError>(
            SnellError::MissingPsk,
        ),
        env.psk matches Some(p) ==> ({
            let len = encode_utf8(p@).len();
            let policy = settings_policy(setting(env.dns_ip_preference), setting(env.ipv6));
            let no_mode = env.mode is Some && parsed_mode(env.mode->Some_0@) is None;
            &&& len < 16 ==> settings_of(env) == Err::<ServerSettings, SnellError>(
                (SnellError::ShortPsk { len: len as usize }),
            )
            &&& len >= 16 && policy is Err ==> settings_of(env) == Err::<
                ServerSettings,
                SnellError,
            >(policy->Err_0)
            &&& len >= 16 && policy is Ok && no_mode ==> settings_of(env) == Err::<
                ServerSettings,
                SnellError,
            >(SnellError::UnknownMode)
            &&& len >= 16 && policy is Ok && !no_mode ==> settings_of(env) is Ok
        }),
{
}

/// What a server that starts goes by. Proxying datagrams, the guard and fast open
/// outbound are on if set to `1`; fast open on the listening socket is off if set
/// to `0`. The mode is the shaped one and the cooldown 100 ms unless set.
pub proof fn lemma_accepted_settings(env: ServerEnv)
    requires
        settings_of(env) is Ok,
    ensures
        ({
            let s = settings_of(env)->Ok_0;
            &&& s.quic <==> (env.quic is Some && env.quic->Some_0@ == "1"@)
            &&& s.block_private <==> (env.block_private_targets is Some
                && env.block_private_targets->Some_0@ == "1"@)
            &&& s.tfo_out <==> (env.tcp_fastopen_out is Some && env.tcp_fastopen_out->Some_0@
                == "1"@)
            &&& !s.tfo_listen <==> (env.tcp_fastopen is Some && env.tcp_fastopen->Some_0@ == "0"@)
            &&& settings_policy(setting(env.dns_ip_preference), setting(env.ipv6)) == Ok::<
                IpPolicy,
                SnellError,
            >(s.policy)
            &&& env.mode is None ==> s.mode == Mode::Default
            &&& env.mode matches Some(m) ==> parsed_mode(m@) == Some(s.mode)
            &&& env.tcp_handshake_cooldown_ms is None ==> s.cooldown_ms == 100
            &&& env.tcp_handshake_cooldown_ms matches Some(t) ==> match parsed_number(
                t@,
                u128::MAX as nat,
            ) {
                Some(v) => s.cooldown_ms == v,
                None => s.cooldown_ms == 100,
            }
        }),
{
    reveal_strlit("1");
    reveal_strlit("0");
    assert("1"@ =~= seq!['1']);
    assert("0"@ =~= seq!['0']);
    match env.tcp_handshake_cooldown_ms {
        Some(t) => {
            lemma_number_bound(t@, u128::MAX as nat);
            lemma_number_bound(t@.skip(1), u128::MAX as nat);
        },
        None => {},
    }
}

} // verus!
