//! Rate limit per source address.
//!
//! Each address may start a handshake once per cooldown. The record of an
//! address is forgotten, once the table has grown large, when it is old.

use vstd::prelude::*;
use vstd::std_specs::iter::IteratorSpec;
use std::collections::HashMap;
use crate::net::IpAddr;

verus! {

/// Records above which old ones are forgotten.
pub const COOLDOWN_GC_THRESHOLD: usize = 10_000;

/// Age in nanoseconds beyond which a record is old: one minute.
pub const COOLDOWN_GC_IDLE_NANOS: u64 = 60_000_000_000;

/// Cooldown between TCP handshakes of one address, in milliseconds.
pub const TCP_HANDSHAKE_COOLDOWN_MS: u128 = 100;

/// Cooldown between UDP session starts of one address, in milliseconds.
pub const INIT_COOLDOWN_MS: u128 = 1000;

/// Times at which each address was last admitted.
#[verifier::ext_equal]
pub struct CooldownState {
    pub v4: Map<u128, u64>,
    pub v6: Map<u128, u64>,
}

/// Whole milliseconds from `last` to `now`, 0 if `last` lies ahead.
pub open spec fn elapsed_ms(last: u64, now: u64) -> int {
    if now >= last {
        (now - last) / 1_000_000
    } else {
        0
    }
}

/// The time since which a record must have been renewed to outlive a cleanup at
/// `now`.
pub open spec fn gc_cutoff(now: u64) -> u64 {
    if now >= COOLDOWN_GC_IDLE_NANOS {
        (now - COOLDOWN_GC_IDLE_NANOS) as u64
    } else {
        now
    }
}

/// The records of `m` that are not older than `cutoff`.
pub open spec fn since(m: Map<u128, u64>, cutoff: u64) -> Map<u128, u64> {
    Map::new(|k: u128| m.contains_key(k) && m[k] >= cutoff, |k: u128| m[k])
}

impl CooldownState {
    /// The time at which `ip` was last admitted.
    pub open spec fn last(self, ip: IpAddr) -> Option<u64> {
        match ip {
            IpAddr::V4(n) => if self.v4.contains_key(n as u128) {
                Some(self.v4[n as u128])
            } else {
                None
            },
            IpAddr::V6(n) => if self.v6.contains_key(n) {
                Some(self.v6[n])
            } else {
                None
            },
        }
    }

    /// Whether `ip` is admitted at `now`.
    pub open spec fn admits(self, ip: IpAddr, now: u64, cooldown_ms: u128) -> bool {
        match self.last(ip) {
            Some(t) => elapsed_ms(t, now) >= cooldown_ms,
            None => true,
        }
    }

    /// Whether `ip` may start a handshake at `now`.
    pub open spec fn allows_handshake(self, ip: IpAddr, now: u64, cooldown_ms: u128) -> bool {
        cooldown_ms == 0 || self.admits(ip, now, cooldown_ms)
    }

    /// The records after `ip` asked for a handshake at `now`.
    pub open spec fn after_handshake(
        self,
        ip: IpAddr,
        now: u64,
        cooldown_ms: u128,
    ) -> CooldownState {
        if cooldown_ms == 0 {
            self
        } else {
            self.after_check(ip, now, cooldown_ms)
        }
    }

    /// The records with `ip` admitted at `now`.
    pub open spec fn recorded(self, ip: IpAddr, now: u64) -> CooldownState {
        match ip {
            IpAddr::V4(n) => CooldownState { v4: self.v4.insert(n as u128, now), v6: self.v6 },
            IpAddr::V6(n) => CooldownState { v4: self.v4, v6: self.v6.insert(n, now) },
        }
    }

    /// The records after a cleanup at `now`, which is due in a large table only.
    pub open spec fn cleaned(self, now: u64) -> CooldownState {
        if self.v4.len() + self.v6.len() > COOLDOWN_GC_THRESHOLD {
            CooldownState { v4: since(self.v4, gc_cutoff(now)), v6: since(self.v6, gc_cutoff(now)) }
        } else {
            self
        }
    }

    /// The records after `ip` was checked at `now`.
    pub open spec fn after_check(self, ip: IpAddr, now: u64, cooldown_ms: u128) -> CooldownState {
        if self.admits(ip, now, cooldown_ms) {
            self.recorded(ip, now).cleaned(now)
        } else {
            self
        }
    }
}

/// An address just admitted is refused until its cooldown is over.
pub proof fn lemma_admitted_address_cools_down(
    s: CooldownState,
    ip: IpAddr,
    now: u64,
    later: u64,
    cooldown_ms: u128,
)
    requires
        s.admits(ip, now, cooldown_ms),
        now <= later,
    ensures
        s.after_check(ip, now, cooldown_ms).last(ip) == Some(now),
        s.after_check(ip, now, cooldown_ms).admits(ip, later, cooldown_ms) <==> elapsed_ms(
            now,
            later,
        ) >= cooldown_ms,
{
}

/// A refused check changes nothing: repeated attempts do not prolong a cooldown.
pub proof fn lemma_refusal_changes_nothing(
    s: CooldownState,
    ip: IpAddr,
    now: u64,
    cooldown_ms: u128,
)
    requires
        !s.admits(ip, now, cooldown_ms),
    ensures
        s.after_check(ip, now, cooldown_ms) == s,
{
}

/// A cooldown of zero admits every address at any time.
pub proof fn lemma_zero_cooldown_admits(s: CooldownState, ip: IpAddr, now: u64)
    ensures
        s.admits(ip, now, 0),
{
}

/// Checking one address does not change the verdict on another, for cooldowns
/// up to the age at which records are forgotten.
pub proof fn lemma_addresses_are_independent(
    s: CooldownState,
    ip: IpAddr,
    other: IpAddr,
    now: u64,
    later: u64,
    cooldown_ms: u128,
)
    requires
        ip != other,
        cooldown_ms <= 60_000,
        COOLDOWN_GC_IDLE_NANOS <= now <= later,
    ensures
        s.after_check(other, now, cooldown_ms).admits(ip, later, cooldown_ms) == s.admits(
            ip,
            later,
            cooldown_ms,
        ),
{
    let r = s.recorded(other, now);
    assert(r.last(ip) == s.last(ip));
    let d = r.cleaned(now);
    match s.last(ip) {
        Some(t) => {
            if d.last(ip) is None {
                assert(t < now - COOLDOWN_GC_IDLE_NANOS);
                assert((later - t) / 1_000_000 >= 60_000);
            }
        },
        None => {},
    }
}

/// The table of admissions.
pub struct CooldownMap {
    v4: HashMap<u128, u64>,
    v6: HashMap<u128, u64>,
}

impl View for CooldownMap {
    type V = CooldownState;

    closed spec fn view(&self) -> CooldownState {
        CooldownState { v4: self.v4@, v6: self.v6@ }
    }
}

/// The records of `m` that are not older than `cutoff`.
pub(crate) fn retain_since(m: &HashMap<u128, u64>, cutoff: u64) -> (out: HashMap<u128, u64>)
    ensures
        out@ == since(m@, cutoff),
{
    broadcast use vstd::std_specs::hash::group_hash_axioms;
    let mut out: HashMap<u128, u64> = HashMap::new();
    let ghost pairs = m.iter().remaining();
    for (k, v) in it: m.iter()
        invariant
            it.seq() == pairs,
            forall|q: u128| #[trigger]
                out@.contains_key(q) ==> m@.contains_key(q) && m@[q] >= cutoff && out@[q] == m@[q],
            forall|i: int|
                0 <= i < it.index() && *pairs[i].1 >= cutoff ==> out@.contains_key(
                    #[trigger] *pairs[i].0,
                ),
    {
        if *v >= cutoff {
            out.insert(*k, *v);
        }
    }
    assert forall|q: u128| m@.contains_key(q) && m@[q] >= cutoff implies #[trigger]
        out@.contains_key(q) by {
        assert(pairs.contains((&q, &m@[q])));
        let i = choose|i: int| 0 <= i < pairs.len() && pairs[i] == (&q, &m@[q]);
        assert(out@.contains_key(*pairs[i].0));
    }
    assert(out@ =~= since(m@, cutoff));
    out
}

impl CooldownMap {
    /// An empty table.
    pub fn new() -> (m: CooldownMap)
        ensures
            m@ == (CooldownState { v4: Map::empty(), v6: Map::empty() }),
    {
        CooldownMap { v4: HashMap::new(), v6: HashMap::new() }
    }

    fn last(&self, ip: IpAddr) -> (t: Option<u64>)
        ensures
            t == self@.last(ip),
    {
        broadcast use vstd::std_specs::hash::group_hash_axioms;
        match ip {
            IpAddr::V4(n) => match self.v4.get(&(n as u128)) {
                Some(t) => Some(*t),
                None => None,
            },
            IpAddr::V6(n) => match self.v6.get(&n) {
                Some(t) => Some(*t),
                None => None,
            },
        }
    }
}

impl Default for CooldownMap {
    fn default() -> (m: CooldownMap)
        ensures
            m@ == (CooldownState { v4: Map::empty(), v6: Map::empty() }),
    {
        CooldownMap::new()
    }
}

/// Checks `ip` at time `now` (nanoseconds of a clock that does not run
/// backwards). `true` means it may go ahead, and the time is recorded;
/// `false` means its previous admission is younger than the cooldown.
pub fn cooldown_check_and_insert(map: &mut CooldownMap, ip: IpAddr, now: u64, cooldown_ms: u128) -> (r:
    bool)
    ensures
        r == old(map)@.admits(ip, now, cooldown_ms),
        final(map)@ == old(map)@.after_check(ip, now, cooldown_ms),
{
    broadcast use vstd::std_specs::hash::group_hash_axioms;
    if let Some(t) = map.last(ip) {
        let ms: u64 = now.saturating_sub(t) / 1_000_000;
        if (ms as u128) < cooldown_ms {
            return false;
        }
    }
    let ghost s0 = map@;
    match ip {
        IpAddr::V4(n) => {
            map.v4.insert(n as u128, now);
        },
        IpAddr::V6(n) => {
            map.v6.insert(n, now);
        },
    }
    assert(map@ =~= s0.recorded(ip, now));
    let (a, b) = (map.v4.len(), map.v6.len());
    if a > COOLDOWN_GC_THRESHOLD || b > COOLDOWN_GC_THRESHOLD - a {
        let cutoff: u64 = if now >= COOLDOWN_GC_IDLE_NANOS {
            now - COOLDOWN_GC_IDLE_NANOS
        } else {
            now
        };
        map.v4 = retain_since(&map.v4, cutoff);
        map.v6 = retain_since(&map.v6, cutoff);
    }
    true
}

/// Checks `ip` against the table at time `now`, unless the cooldown is zero,
/// which turns the limit off and leaves the table alone.
pub fn handshake_allowed(map: &mut CooldownMap, ip: IpAddr, now: u64, cooldown_ms: u128) -> (r:
    bool)
    ensures
        r == old(map)@.allows_handshake(ip, now, cooldown_ms),
        final(map)@ == old(map)@.after_handshake(ip, now, cooldown_ms),
{
    cooldown_ms == 0 || cooldown_check_and_insert(map, ip, now, cooldown_ms)
}

/// In nanoseconds: an address last admitted at `last` is admitted at `now` if the
/// whole cooldown has passed in between, and so is one never admitted. A clock
/// that went backwards counts as standing still.
pub proof fn lemma_admission_in_nanoseconds(
    s: CooldownState,
    ip: IpAddr,
    now: u64,
    cooldown_ms: u128,
)
    ensures
        match s.last(ip) {
            None => s.admits(ip, now, cooldown_ms),
            Some(last) => s.admits(ip, now, cooldown_ms) <==> cooldown_ms == 0 || now - last
                >= cooldown_ms * 1_000_000,
        },
{
}

/// The families do not share records, and a record is found under the address it
/// was made for.
pub proof fn lemma_records_by_address(s: CooldownState, ip: IpAddr, other: IpAddr, now: u64)
    ensures
        s.recorded(ip, now).last(ip) == Some(now),
        ip != other ==> s.recorded(ip, now).last(other) == s.last(other),
{
}

/// A table of at most 10000 records is left alone. A larger one loses the records
/// that are older than a minute, and no others.
pub proof fn lemma_cleanup_by_age(s: CooldownState, ip: IpAddr, now: u64)
    requires
        now >= 60_000_000_000,
    ensures
        s.v4.len() + s.v6.len() <= 10_000 ==> s.cleaned(now) == s,
        s.v4.len() + s.v6.len() > 10_000 ==> match s.last(ip) {
            None => s.cleaned(now).last(ip) is None,
            Some(t) => s.cleaned(now).last(ip) == if t + 60_000_000_000 >= now {
                Some(t)
            } else {
                None
            },
        },
{
}

/// A cooldown of zero lets every handshake through and keeps no record; any other
/// is held against the address.
pub proof fn lemma_handshakes(s: CooldownState, ip: IpAddr, now: u64, cooldown_ms: u128)
    ensures
        s.allows_handshake(ip, now, 0),
        s.after_handshake(ip, now, 0) == s,
        cooldown_ms > 0 ==> s.allows_handshake(ip, now, cooldown_ms) == s.admits(
            ip,
            now,
            cooldown_ms,
        ),
        cooldown_ms > 0 && s.admits(ip, now, cooldown_ms) ==> s.after_handshake(
            ip,
            now,
            cooldown_ms,
        ).last(ip) == Some(now),
        cooldown_ms > 0 && !s.admits(ip, now, cooldown_ms) ==> s.after_handshake(
            ip,
            now,
            cooldown_ms,
        ) == s,
{
}

} // verus!
