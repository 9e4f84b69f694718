//! Replay protection: which handshake salts were seen lately.
//!
//! A salt that comes again within the replay window is refused. The cache is
//! bounded: when it is full, a new salt displaces the one that was accepted
//! longest ago.

use vstd::prelude::*;

verus! {

/// Salts the cache holds unless told otherwise.
pub const SALT_CACHE_CAPACITY: usize = 100_000;

/// Replay window unless told otherwise, in nanoseconds: five minutes.
pub const SALT_CACHE_TTL_NANOS: u64 = 300_000_000_000;

/// A handshake salt.
pub type Salt = [u8; 16];

/// The outside LRU cache.
#[verifier::external_type_specification]
#[verifier::external_body]
#[verifier::reject_recursive_types(K)]
#[verifier::reject_recursive_types(V)]
#[verifier::reject_recursive_types(S)]
pub struct ExLruCache<K, V, S>(lru::LruCache<K, V, S>);

/// The hasher it picks on its own.
#[verifier::external_type_specification]
#[verifier::external_body]
pub struct ExDefaultHasher(lru::DefaultHasher);

/// The entries of an LRU cache, most recently used first.
pub uninterp spec fn lru_entries(c: lru::LruCache<[u8; 16], u64>) -> Seq<(Seq<u8>, u64)>;

/// The most entries an LRU cache was made to hold.
pub uninterp spec fn lru_cap(c: lru::LruCache<[u8; 16], u64>) -> nat;

/// The value of `k` among `entries`.
pub open spec fn entry_value(entries: Seq<(Seq<u8>, u64)>, k: Seq<u8>) -> Option<u64>
    decreases entries.len(),
{
    if entries.len() == 0 {
        None
    } else if entries[0].0 == k {
        Some(entries[0].1)
    } else {
        entry_value(entries.skip(1), k)
    }
}

/// `entries` without that of `k`.
pub open spec fn without_entry(entries: Seq<(Seq<u8>, u64)>, k: Seq<u8>) -> Seq<(Seq<u8>, u64)>
    decreases entries.len(),
{
    if entries.len() == 0 {
        entries
    } else if entries[0].0 == k {
        entries.skip(1)
    } else {
        seq![entries[0]] + without_entry(entries.skip(1), k)
    }
}

/// `entries` of at most `cap` after `k` was put in with value `v`: it comes to
/// the front, in place of its old entry, or of the last one if all are taken.
pub open spec fn put_entry(entries: Seq<(Seq<u8>, u64)>, cap: nat, k: Seq<u8>, v: u64) -> Seq<
    (Seq<u8>, u64),
> {
    if entry_value(entries, k) is Some {
        seq![(k, v)] + without_entry(entries, k)
    } else if entries.len() == cap {
        seq![(k, v)] + entries.drop_last()
    } else {
        seq![(k, v)] + entries
    }
}

/// Calls `lru::LruCache::new`.
///
/// Trusted: the cache starts empty and holds at most `cap` entries. The bound on
/// `cap` keeps the hash table it allocates within the address space.
#[verifier::external_body]
fn lru_new(cap: usize) -> (c: lru::LruCache<[u8; 16], u64>)
    requires
        0 < cap <= isize::MAX / 64,
    ensures
        lru_entries(c) == Seq::<(Seq<u8>, u64)>::empty(),
        lru_cap(c) == cap,
{
    lru::LruCache::new(std::num::NonZeroUsize::new(cap).unwrap())
}

/// Calls `lru::LruCache::peek`.
///
/// Trusted: it finds the value stored for `k`, if any.
#[verifier::external_body]
fn lru_peek(c: &lru::LruCache<[u8; 16], u64>, k: &[u8; 16]) -> (out: Option<u64>)
    ensures
        out == entry_value(lru_entries(*c), k@),
{
    c.peek(k).copied()
}

/// Calls `lru::LruCache::put`.
///
/// Trusted: the entry comes to the front; an entry with the same key gives way,
/// else, in a full cache, the least recently used one.
#[verifier::external_body]
fn lru_put(c: &mut lru::LruCache<[u8; 16], u64>, k: [u8; 16], v: u64)
    ensures
        lru_entries(*final(c)) == put_entry(lru_entries(*old(c)), lru_cap(*old(c)), k@, v),
        lru_cap(*final(c)) == lru_cap(*old(c)),
{
    c.put(k, v);
}

/// Calls `lru::LruCache::len`.
///
/// Trusted: it counts the entries.
#[verifier::external_body]
fn lru_len(c: &lru::LruCache<[u8; 16], u64>) -> (n: usize)
    ensures
        n == lru_entries(*c).len(),
{
    c.len()
}

/// Replay-protection cache.
pub struct SaltCache {
    cache: lru::LruCache<[u8; 16], u64>,
    ttl: u64,
}

/// What a salt cache holds, most recently accepted first, with the time of
/// acceptance; how much it can hold; its replay window.
#[verifier::ext_equal]
pub struct SaltCacheState {
    pub entries: Seq<(Seq<u8>, u64)>,
    pub cap: nat,
    pub ttl: u64,
}

impl View for SaltCache {
    type V = SaltCacheState;

    closed spec fn view(&self) -> SaltCacheState {
        SaltCacheState {
            entries: lru_entries(self.cache),
            cap: lru_cap(self.cache),
            ttl: self.ttl,
        }
    }
}

impl SaltCacheState {
    /// No salt occurs twice and the capacity is kept.
    pub open spec fn wf(self) -> bool {
        &&& self.cap > 0
        &&& self.entries.len() <= self.cap
        &&& forall|i: int, j: int|
            0 <= i < j < self.entries.len() ==> self.entries[i].0 != self.entries[j].0
    }

    /// Whether `salt` was accepted within the replay window that ends `now`.
    pub open spec fn is_replay(self, salt: Seq<u8>, now: u64) -> bool {
        match entry_value(self.entries, salt) {
            Some(seen) => (if now >= seen {
                now - seen
            } else {
                0
            }) < self.ttl,
            None => false,
        }
    }

    /// The cache after `salt` was accepted at `now`.
    pub open spec fn accepting(self, salt: Seq<u8>, now: u64) -> SaltCacheState {
        SaltCacheState {
            entries: put_entry(self.entries, self.cap, salt, now),
            cap: self.cap,
            ttl: self.ttl,
        }
    }

    /// The cache after `salt` was checked at `now`: a replay changes nothing.
    pub open spec fn after_check(self, salt: Seq<u8>, now: u64) -> SaltCacheState {
        if self.is_replay(salt, now) {
            self
        } else {
            self.accepting(salt, now)
        }
    }
}

proof fn lemma_without(entries: Seq<(Seq<u8>, u64)>, k: Seq<u8>)
    requires
        forall|i: int, j: int| 0 <= i < j < entries.len() ==> entries[i].0 != entries[j].0,
    ensures
        ({
            let rest = without_entry(entries, k);
            &&& rest.len() == if entry_value(entries, k) is Some {
                entries.len() - 1
            } else {
                entries.len() as int
            }
            &&& forall|i: int| 0 <= i < rest.len() ==> (#[trigger] rest[i]).0 != k
            &&& forall|i: int| 0 <= i < rest.len() ==> entries.contains(#[trigger] rest[i])
            &&& forall|i: int, j: int| 0 <= i < j < rest.len() ==> rest[i].0 != rest[j].0
        }),
    decreases entries.len(),
{
    let rest = without_entry(entries, k);
    if entries.len() == 0 {
    } else if entries[0].0 == k {
        assert forall|i: int| 0 <= i < rest.len() implies entries.contains(#[trigger] rest[i]) by {
            assert(rest[i] == entries[i + 1]);
        }
        assert forall|i: int| 0 <= i < rest.len() implies (#[trigger] rest[i]).0 != k by {
            assert(rest[i] == entries[i + 1]);
        }
        assert forall|i: int, j: int| 0 <= i < j < rest.len() implies rest[i].0 != rest[j].0 by {
            assert(rest[i] == entries[i + 1]);
            assert(rest[j] == entries[j + 1]);
        }
    } else {
        let tail = entries.skip(1);
        assert forall|i: int, j: int| 0 <= i < j < tail.len() implies tail[i].0 != tail[j].0 by {
            assert(tail[i] == entries[i + 1]);
            assert(tail[j] == entries[j + 1]);
        }
        lemma_without(tail, k);
        let sub = without_entry(tail, k);
        assert forall|i: int| 0 <= i < rest.len() implies entries.contains(#[trigger] rest[i]) by {
            if i == 0 {
                assert(rest[0] == entries[0]);
            } else {
                assert(rest[i] == sub[i - 1]);
                let j = choose|j: int| 0 <= j < tail.len() && tail[j] == sub[i - 1];
                assert(entries[j + 1] == rest[i]);
            }
        }
        assert forall|i: int| 0 <= i < rest.len() implies (#[trigger] rest[i]).0 != k by {
            if i > 0 {
                assert(rest[i] == sub[i - 1]);
            }
        }
        assert forall|i: int, j: int| 0 <= i < j < rest.len() implies rest[i].0 != rest[j].0 by {
            assert(rest[j] == sub[j - 1]);
            if i == 0 {
                let m = choose|m: int| 0 <= m < tail.len() && tail[m] == sub[j - 1];
                assert(tail[m] == entries[m + 1]);
                assert(entries[0].0 != entries[m + 1].0);
            } else {
                assert(rest[i] == sub[i - 1]);
            }
        }
    }
}

proof fn lemma_absent(entries: Seq<(Seq<u8>, u64)>, k: Seq<u8>)
    requires
        entry_value(entries, k) is None,
    ensures
        forall|i: int| 0 <= i < entries.len() ==> (#[trigger] entries[i]).0 != k,
    decreases entries.len(),
{
    if entries.len() > 0 {
        let tail = entries.skip(1);
        lemma_absent(tail, k);
        assert forall|i: int| 0 <= i < entries.len() implies (#[trigger] entries[i]).0 != k by {
            if i > 0 {
                assert(tail[i - 1] == entries[i]);
            }
        }
    }
}

proof fn lemma_present(entries: Seq<(Seq<u8>, u64)>, k: Seq<u8>, i: int)
    requires
        forall|i: int, j: int| 0 <= i < j < entries.len() ==> entries[i].0 != entries[j].0,
        0 <= i < entries.len(),
        entries[i].0 == k,
    ensures
        entry_value(entries, k) == Some(entries[i].1),
    decreases entries.len(),
{
    if i > 0 {
        let tail = entries.skip(1);
        assert(entries[0].0 != k);
        assert forall|a: int, b: int| 0 <= a < b < tail.len() implies tail[a].0 != tail[b].0 by {
            assert(tail[a] == entries[a + 1]);
            assert(tail[b] == entries[b + 1]);
        }
        lemma_present(tail, k, i - 1);
    }
}

/// A check keeps the cache well-formed: no duplicate, never over capacity.
pub proof fn lemma_check_keeps_wf(c: SaltCacheState, salt: Seq<u8>, now: u64)
    requires
        c.wf(),
    ensures
        c.after_check(salt, now).wf(),
        c.after_check(salt, now).cap == c.cap,
        c.after_check(salt, now).ttl == c.ttl,
{
    let e = c.entries;
    let n = c.accepting(salt, now).entries;
    lemma_without(e, salt);
    if entry_value(e, salt) is None {
        lemma_absent(e, salt);
    }
    assert forall|i: int, j: int| 0 <= i < j < n.len() implies n[i].0 != n[j].0 by {
        if entry_value(e, salt) is Some {
            let rest = without_entry(e, salt);
            assert(n[j] == rest[j - 1]);
            if i > 0 {
                assert(n[i] == rest[i - 1]);
            }
        } else {
            assert(n[j] == e[j - 1]);
            if i > 0 {
                assert(n[i] == e[i - 1]);
            }
        }
    }
}

/// A salt just accepted is refused for the whole replay window.
pub proof fn lemma_accepted_salt_is_refused(c: SaltCacheState, salt: Seq<u8>, now: u64, later: u64)
    requires
        c.wf(),
        !c.is_replay(salt, now),
        now <= later,
        later - now < c.ttl,
    ensures
        c.after_check(salt, now).is_replay(salt, later),
        c.after_check(salt, now).after_check(salt, later) == c.after_check(salt, now),
{
    assert(c.accepting(salt, now).entries[0] == (salt, now));
}

/// A salt whose window has passed is accepted again, and refused from then on.
pub proof fn lemma_expired_salt_is_accepted(c: SaltCacheState, salt: Seq<u8>, seen: u64, now: u64)
    requires
        entry_value(c.entries, salt) == Some(seen),
        now >= seen,
        now - seen >= c.ttl,
    ensures
        !c.is_replay(salt, now),
        c.ttl > 0 ==> c.after_check(salt, now).is_replay(salt, now),
{
    assert(c.accepting(salt, now).entries[0] == (salt, now));
}

/// Checking another salt moves an entry back by at most one place, and drops it
/// only from the last place of a full cache. So a salt outlives as many
/// acceptances of others as there are places behind it.
pub proof fn lemma_entry_survives_others(
    c: SaltCacheState,
    k: Seq<u8>,
    i: int,
    other: Seq<u8>,
    now: u64,
)
    requires
        c.wf(),
        0 <= i < c.entries.len(),
        c.entries[i].0 == k,
        other != k,
        i + 1 < c.cap,
    ensures
        ({
            let d = c.after_check(other, now);
            exists|j: int|
                0 <= j <= i + 1 && j < d.entries.len() && #[trigger] d.entries[j] == c.entries[i]
        }),
        entry_value(c.after_check(other, now).entries, k) == Some(c.entries[i].1),
{
    let e = c.entries;
    let d = c.after_check(other, now);
    lemma_check_keeps_wf(c, other, now);
    let j = if c.is_replay(other, now) {
        assert(d.entries[i] == e[i]);
        i
    } else if entry_value(e, other) is Some {
        let rest = without_entry(e, other);
        lemma_kept(e, other, i);
        let m = choose|m: int| 0 <= m <= i && m < rest.len() && rest[m] == e[i];
        assert(d.entries[m + 1] == rest[m]);
        m + 1
    } else {
        assert(d.entries[i + 1] == e[i]);
        i + 1
    };
    assert(d.entries[j] == e[i]);
    lemma_present(d.entries, k, j);
}

/// Taking out one entry keeps every other.
proof fn lemma_kept(entries: Seq<(Seq<u8>, u64)>, other: Seq<u8>, i: int)
    requires
        0 <= i < entries.len(),
        entries[i].0 != other,
    ensures
        exists|m: int|
            0 <= m <= i && m < without_entry(entries, other).len() && #[trigger] without_entry(
                entries,
                other,
            )[m] == entries[i],
    decreases entries.len(),
{
    let rest = without_entry(entries, other);
    if entries[0].0 == other {
        assert(rest[i - 1] == entries[i]);
    } else if i == 0 {
        assert(rest[0] == entries[0]);
    } else {
        let tail = entries.skip(1);
        lemma_kept(tail, other, i - 1);
        let m = choose|m: int|
            0 <= m <= i - 1 && m < without_entry(tail, other).len() && without_entry(tail, other)[m]
                == tail[i - 1];
        assert(rest[m + 1] == entries[i]);
    }
}

/// A new salt in a full cache displaces the one accepted longest ago, and that
/// one only.
pub proof fn lemma_full_cache_evicts_oldest(c: SaltCacheState, salt: Seq<u8>, now: u64)
    requires
        c.wf(),
        c.entries.len() == c.cap,
        entry_value(c.entries, salt) is None,
    ensures
        c.after_check(salt, now).entries == seq![(salt, now)] + c.entries.drop_last(),
        entry_value(c.after_check(salt, now).entries, c.entries.last().0) is None,
{
    let d = c.after_check(salt, now);
    let k = c.entries.last().0;
    lemma_absent(c.entries, salt);
    lemma_check_keeps_wf(c, salt, now);
    if entry_value(d.entries, k) is Some {
        lemma_found(d.entries, k);
        let m = choose|m: int| 0 <= m < d.entries.len() && d.entries[m].0 == k;
        if m > 0 {
            assert(d.entries[m] == c.entries[m - 1]);
        }
    }
}

proof fn lemma_found(entries: Seq<(Seq<u8>, u64)>, k: Seq<u8>)
    requires
        entry_value(entries, k) is Some,
    ensures
        exists|m: int| 0 <= m < entries.len() && (#[trigger] entries[m]).0 == k,
    decreases entries.len(),
{
    if entries[0].0 == k {
    } else {
        let tail = entries.skip(1);
        lemma_found(tail, k);
        let m = choose|m: int| 0 <= m < tail.len() && (#[trigger] tail[m]).0 == k;
        assert(entries[m + 1].0 == k);
    }
}

impl SaltCache {
    /// A cache of the usual capacity and replay window.
    pub fn new() -> (c: SaltCache)
        ensures
            c@.wf(),
            c@ == (SaltCacheState {
                entries: Seq::empty(),
                cap: SALT_CACHE_CAPACITY as nat,
                ttl: SALT_CACHE_TTL_NANOS,
            }),
    {
        SaltCache::with_capacity(SALT_CACHE_CAPACITY, SALT_CACHE_TTL_NANOS)
    }

    /// A cache for `capacity` salts with a replay window of `ttl` nanoseconds.
    pub fn with_capacity(capacity: usize, ttl: u64) -> (c: SaltCache)
        requires
            0 < capacity <= isize::MAX / 64,
        ensures
            c@.wf(),
            c@ == (SaltCacheState { entries: Seq::empty(), cap: capacity as nat, ttl }),
    {
        SaltCache { cache: lru_new(capacity), ttl }
    }

    /// Checks a salt at time `now` (nanoseconds of a clock that does not run
    /// backwards). `true` means the salt is fresh and is now recorded; `false`
    /// means it was seen within the replay window, and the handshake must be
    /// refused. A refused replay leaves the cache as it was, so it cannot keep
    /// an entry from ageing out.
    pub fn check_and_insert(&mut self, salt: &Salt, now: u64) -> (fresh: bool)
        requires
            old(self)@.wf(),
        ensures
            fresh == !old(self)@.is_replay(salt@, now),
            final(self)@ == old(self)@.after_check(salt@, now),
            final(self)@.wf(),
    {
        proof {
            lemma_check_keeps_wf(self@, salt@, now);
        }
        if let Some(seen) = lru_peek(&self.cache, salt) {
            if now.saturating_sub(seen) < self.ttl {
                return false;
            }
        }
        lru_put(&mut self.cache, *salt, now);
        true
    }

    /// Number of salts held.
    pub fn len(&self) -> (n: usize)
        ensures
            n == self@.entries.len(),
    {
        lru_len(&self.cache)
    }

    /// Whether no salt is held.
    pub fn is_empty(&self) -> (r: bool)
        ensures
            r == (self@.entries.len() == 0),
    {
        lru_len(&self.cache) == 0
    }
}

impl Default for SaltCache {
    fn default() -> (c: SaltCache)
        ensures
            c@.wf(),
            c@ == (SaltCacheState {
                entries: Seq::empty(),
                cap: SALT_CACHE_CAPACITY as nat,
                ttl: SALT_CACHE_TTL_NANOS,
            }),
    {
        SaltCache::new()
    }
}

/// A salt that is held is a replay until its window, counted from its acceptance,
/// is over; a salt that is not held is none.
pub proof fn lemma_replays_by_time(c: SaltCacheState, salt: Seq<u8>, i: int, now: u64)
    requires
        c.wf(),
    ensures
        0 <= i < c.entries.len() && c.entries[i].0 == salt && c.ttl > 0 ==> (c.is_replay(salt, now)
            <==> now < c.entries[i].1 + c.ttl),
        (forall|j: int| 0 <= j < c.entries.len() ==> (#[trigger] c.entries[j]).0 != salt)
            ==> !c.is_replay(salt, now),
{
    if 0 <= i < c.entries.len() && c.entries[i].0 == salt {
        lemma_present(c.entries, salt, i);
    }
    if entry_value(c.entries, salt) is Some {
        lemma_found(c.entries, salt);
    }
}

/// With the usual window a salt is refused for five minutes.
pub proof fn lemma_usual_window(c: SaltCacheState, salt: Seq<u8>, now: u64, later: u64)
    requires
        c.wf(),
        c.ttl == SALT_CACHE_TTL_NANOS,
        c.cap == SALT_CACHE_CAPACITY,
        !c.is_replay(salt, now),
        now <= later,
    ensures
        c.cap == 100_000,
        c.after_check(salt, now).is_replay(salt, later) <==> later - now < 300_000_000_000,
{
    assert(c.accepting(salt, now).entries[0] == (salt, now));
}

/// A fresh salt goes to the front with its time, a replay changes nothing, and the
/// capacity and the window stay.
pub proof fn lemma_checks(c: SaltCacheState, salt: Seq<u8>, now: u64)
    requires
        c.wf(),
    ensures
        ({
            let d = c.after_check(salt, now);
            &&& d.cap == c.cap
            &&& d.ttl == c.ttl
            &&& c.is_replay(salt, now) ==> d == c
            &&& !c.is_replay(salt, now) ==> d.entries.len() > 0 && d.entries[0] == (salt, now)
            &&& entry_value(c.entries, salt) is None && c.entries.len() < c.cap ==> d.entries
                == seq![(salt, now)] + c.entries
        }),
{
}

} // verus!
