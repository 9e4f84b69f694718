//! What a connection starts with, and getting past an HTTP disguise.
//!
//! In the unshaped mode the first byte decides: `0x16` opens a TLS handshake, `G`
//! an HTTP upgrade request, anything else is the plain protocol. A client keeps
//! its salt clear of the first two. The other modes have no disguises.

use vstd::prelude::*;
use vstd::slice::{slice_subrange, slice_to_vec};
use crate::cipher::{fresh_cipher, key_material, SnellCipher};
use crate::crypto::{argon2_takes, random_bytes, ARGON2_MAX_LEN};
use crate::error::SnellError;
use crate::salt_cache::SaltCache;
use crate::v6::mode::Mode;

verus! {

/// Seconds to wait for the first byte.
pub const PEEK_TIMEOUT_SECS: u64 = 5;

/// Seconds for the TLS or HTTP part of a handshake.
pub const OBFS_HANDSHAKE_TIMEOUT_SECS: u64 = 10;

/// Seconds for the salt.
pub const SALT_HANDSHAKE_TIMEOUT_SECS: u64 = 10;

/// Most bytes of an HTTP request.
pub const HTTP_MAX: usize = 8192;

/// What an HTTP upgrade request is answered with.
pub const HTTP_UPGRADE_REPLY: &'static str =
    "HTTP/1.1 101 Switching Protocols\r\nUpgrade: websocket\r\nConnection: Upgrade\r\n\r\n";

/// What a connection is wrapped in.
#[derive(Clone, Copy, PartialEq, Eq, Structural, Debug)]
pub enum Obfs {
    Tls,
    Http,
    Plain,
}

/// What a first byte announces.
pub open spec fn obfs_of(first: u8) -> Obfs {
    if first == 0x16 {
        Obfs::Tls
    } else if first == 0x47 {
        Obfs::Http
    } else {
        Obfs::Plain
    }
}

/// What a first byte announces to a server in `mode`.
pub open spec fn disguise_in(mode: Mode, first: u8) -> Obfs {
    if mode is Unshaped {
        obfs_of(first)
    } else {
        Obfs::Plain
    }
}

/// What a connection that starts with `first` is wrapped in.
pub fn detect_obfs(first: u8) -> (o: Obfs)
    ensures
        o == obfs_of(first),
{
    match first {
        0x16 => Obfs::Tls,
        0x47 => Obfs::Http,
        _ => Obfs::Plain,
    }
}

/// What a connection in `mode` that starts with `first` is wrapped in. Only the
/// unshaped mode knows disguises; elsewhere any byte may come first.
pub fn disguise_of(mode: Mode, first: u8) -> (o: Obfs)
    ensures
        o == disguise_in(mode, first),
{
    match mode {
        Mode::Unshaped => detect_obfs(first),
        _ => Obfs::Plain,
    }
}

/// The cipher of a handshake salt, unless a server would take the salt for a
/// disguise.
pub fn handshake_cipher(psk: &[u8], salt: &[u8; 16]) -> (out: Result<
    Option<SnellCipher>,
    SnellError,
>)
    ensures
        match out {
            Ok(Some(c)) => {
                &&& obfs_of(salt@[0]) == Obfs::Plain
                &&& argon2_takes(psk@, salt@)
                &&& c@ == fresh_cipher(key_material(psk@, salt@))
            },
            Ok(None) => obfs_of(salt@[0]) != Obfs::Plain,
            Err(e) => obfs_of(salt@[0]) == Obfs::Plain && !argon2_takes(psk@, salt@) && e
                == SnellError::KeyDerivation,
        },
{
    if salt[0] == 0x16 || salt[0] == 0x47 {
        return Ok(None);
    }
    match SnellCipher::new(psk, salt.as_slice()) {
        Ok(c) => Ok(Some(c)),
        Err(e) => Err(e),
    }
}

/// Draws a handshake salt that no server takes for a disguise, and derives its
/// cipher. A salt that looks like one is drawn anew, until one does not. The count
/// of draws is there to end the loop and does not run out; if it did, the first
/// byte of the last draw would be cleared, which the key derivation does not mind.
pub fn fresh_handshake_salt(psk: &[u8]) -> (out: Result<([u8; 16], SnellCipher), SnellError>)
    ensures
        match out {
            Ok((salt, c)) => {
                &&& obfs_of(salt@[0]) == Obfs::Plain
                &&& argon2_takes(psk@, salt@)
                &&& c@ == fresh_cipher(key_material(psk@, salt@))
            },
            Err(e) => psk@.len() > ARGON2_MAX_LEN && e == SnellError::KeyDerivation,
        },
{
    let mut salt: [u8; 16] = random_bytes::<16>();
    let mut redraws: u64 = u64::MAX;
    loop
        decreases redraws,
    {
        match handshake_cipher(psk, &salt) {
            Ok(Some(c)) => return Ok((salt, c)),
            Ok(None) => {},
            Err(e) => return Err(e),
        }
        if redraws == 0 {
            break;
        }
        redraws = redraws - 1;
        salt = random_bytes::<16>();
    }
    salt[0] = 0x00;
    match SnellCipher::new(psk, salt.as_slice()) {
        Ok(c) => Ok((salt, c)),
        Err(e) => Err(e),
    }
}

/// Accepts a client's handshake salt at time `now`: refuses a replay before the
/// costly derivation runs, then derives the cipher.
pub fn accept_salt(salts: &mut SaltCache, psk: &[u8], salt: &[u8; 16], now: u64) -> (out: Result<
    SnellCipher,
    SnellError,
>)
    requires
        old(salts)@.wf(),
    ensures
        final(salts)@ == old(salts)@.after_check(salt@, now),
        final(salts)@.wf(),
        match out {
            Ok(c) => {
                &&& !old(salts)@.is_replay(salt@, now)
                &&& argon2_takes(psk@, salt@)
                &&& c@ == fresh_cipher(key_material(psk@, salt@))
            },
            Err(e) => if old(salts)@.is_replay(salt@, now) {
                e == SnellError::SaltReplay
            } else {
                !argon2_takes(psk@, salt@) && e == SnellError::KeyDerivation
            },
        },
{
    if !salts.check_and_insert(salt, now) {
        return Err(SnellError::SaltReplay);
    }
    SnellCipher::new(psk, salt.as_slice())
}

/// `s` holds the end of an HTTP header at `i`.
pub open spec fn ends_at(s: Seq<u8>, i: int) -> bool {
    &&& 0 <= i
    &&& i + 4 <= s.len()
    &&& s[i] == 0x0d && s[i + 1] == 0x0a && s[i + 2] == 0x0d && s[i + 3] == 0x0a
}

/// `s` holds the end of an HTTP header.
pub open spec fn has_end(s: Seq<u8>) -> bool {
    exists|i: int| ends_at(s, i)
}

/// The last three bytes of `s`, or all of it if it is shorter.
pub open spec fn last3(s: Seq<u8>) -> Seq<u8> {
    if s.len() <= 3 {
        s
    } else {
        s.skip(s.len() - 3)
    }
}

/// Progress through an HTTP request: what was read last, and how much in all.
pub struct HttpAbsorber {
    tail: Vec<u8>,
    total: usize,
}

#[verifier::ext_equal]
pub struct HttpState {
    pub tail: Seq<u8>,
    pub total: nat,
}

impl View for HttpAbsorber {
    type V = HttpState;

    closed spec fn view(&self) -> HttpState {
        HttpState { tail: self.tail@, total: self.total as nat }
    }
}

impl HttpState {
    /// What the next read tells: whether the header has ended, or why it never
    /// will.
    pub open spec fn verdict(self, data: Seq<u8>) -> Result<bool, SnellError> {
        if data.len() == 0 {
            Err(SnellError::HttpClosed)
        } else if self.total + data.len() > HTTP_MAX {
            Err(SnellError::HttpTooLarge)
        } else {
            Ok(has_end(self.tail + data))
        }
    }

    /// The state of a reader that has read `seen` and found no end in it.
    pub open spec fn reading(self, seen: Seq<u8>) -> bool {
        &&& self.tail == last3(seen)
        &&& self.total == seen.len()
        &&& seen.len() <= HTTP_MAX
        &&& !has_end(seen)
    }
}

/// However a request is cut into reads, its end is found: looking at the last
/// three bytes and the new ones is as good as looking at everything.
pub proof fn lemma_end_is_never_split(seen: Seq<u8>, data: Seq<u8>)
    requires
        !has_end(seen),
    ensures
        has_end(seen + data) <==> has_end(last3(seen) + data),
        last3(seen + data) == last3(last3(seen) + data),
{
    let all = seen + data;
    let near = last3(seen) + data;
    let off = seen.len() - last3(seen).len();
    assert forall|i: int| 0 <= i < near.len() implies near[i] == all[off + i] by {}
    assert(last3(all) =~= last3(near));
    if has_end(all) {
        let i = choose|i: int| ends_at(all, i);
        if i + 4 <= seen.len() {
            assert(ends_at(seen, i));
        }
        assert(ends_at(near, i - off));
    }
    if has_end(near) {
        let i = choose|i: int| ends_at(near, i);
        assert(ends_at(all, off + i));
    }
}

/// Looks for the end of an HTTP header.
fn find_end(s: &[u8]) -> (r: bool)
    ensures
        r == has_end(s@),
{
    let mut i: usize = 0;
    while s.len() >= 4 && i <= s.len() - 4
        invariant
            forall|j: int| 0 <= j < i ==> !ends_at(s@, j),
            i <= s@.len(),
        decreases s@.len() - i,
    {
        if s[i] == 0x0d && s[i + 1] == 0x0a && s[i + 2] == 0x0d && s[i + 3] == 0x0a {
            assert(ends_at(s@, i as int));
            return true;
        }
        assert(!ends_at(s@, i as int));
        i = i + 1;
    }
    false
}

impl HttpAbsorber {
    /// A reader at the start of a request.
    pub fn new() -> (h: HttpAbsorber)
        ensures
            h@.reading(Seq::empty()),
    {
        let h = HttpAbsorber { tail: Vec::new(), total: 0 };
        assert(h@.tail =~= last3(Seq::<u8>::empty()));
        assert(!has_end(Seq::<u8>::empty()));
        h
    }

    /// Takes what one read brought. `Ok(true)`: the header has ended, somewhere
    /// in all that was read so far. `Ok(false)`: read on. Nothing read means
    /// that the peer closed; too much means that it never comes to an end.
    pub fn absorb_http_request(&mut self, data: &[u8]) -> (out: Result<bool, SnellError>)
        requires
            old(self)@.total <= HTTP_MAX,
            old(self)@.tail.len() <= 3,
        ensures
            out == old(self)@.verdict(data@),
            out is Err ==> final(self)@ == old(self)@,
            out is Ok ==> final(self)@ == (HttpState {
                tail: last3(old(self)@.tail + data@),
                total: (old(self)@.total + data@.len()) as nat,
            }),
            forall|seen: Seq<u8>| #[trigger]
                old(self)@.reading(seen) && out is Ok ==> {
                    &&& out->Ok_0 == has_end(seen + data@)
                    &&& !out->Ok_0 ==> final(self)@.reading(seen + data@)
                },
    {
        if data.len() == 0 {
            return Err(SnellError::HttpClosed);
        }
        if data.len() > HTTP_MAX - self.total {
            return Err(SnellError::HttpTooLarge);
        }
        let ghost tail0 = self.tail@;
        let mut search: Vec<u8> = slice_to_vec(self.tail.as_slice());
        search.extend_from_slice(data);
        assert(search@ =~= tail0 + data@);
        let found: bool = find_end(search.as_slice());
        let keep: usize = if search.len() <= 3 {
            search.len()
        } else {
            3
        };
        let last: &[u8] = slice_subrange(search.as_slice(), search.len() - keep, search.len());
        assert(last@ =~= last3(search@));
        self.tail = slice_to_vec(last);
        self.total = self.total + data.len();
        proof {
            assert forall|seen: Seq<u8>| #[trigger] old(self)@.reading(seen) implies {
                &&& found == has_end(seen + data@)
                &&& !found ==> self@.reading(seen + data@)
            } by {
                lemma_end_is_never_split(seen, data@);
            }
        }
        Ok(found)
    }
}

/// Which first bytes are a disguise: `0x16` is TLS and `G` is HTTP, in the unshaped
/// mode; every other byte, and every byte in the other modes, is the plain
/// protocol.
pub proof fn lemma_disguises(mode: Mode, first: u8)
    ensures
        disguise_in(mode, first) == Obfs::Tls <==> mode == Mode::Unshaped && first == 0x16,
        disguise_in(mode, first) == Obfs::Http <==> mode == Mode::Unshaped && first == 'G' as u8,
        obfs_of(first) == disguise_in(Mode::Unshaped, first),
{
}

/// A header ends with an empty line, wherever it stands; without one it has no
/// end.
pub proof fn lemma_header_ends(before: Seq<u8>, after: Seq<u8>, s: Seq<u8>)
    ensures
        has_end(before + seq![13u8, 10, 13, 10] + after),
        has_end(s) ==> exists|i: int|
            0 <= i <= s.len() - 4 && #[trigger] s.subrange(i, i + 4) == seq![13u8, 10, 13, 10],
{
    let w = before + seq![13u8, 10, 13, 10] + after;
    assert(ends_at(w, before.len() as int));
    if has_end(s) {
        let i = choose|i: int| ends_at(s, i);
        assert(s.subrange(i, i + 4) =~= seq![13u8, 10, 13, 10]);
    }
}

/// A reader that has read `seen` gives up where the peer closes and beyond 8192
/// bytes in all; otherwise it knows whether the header has ended in all it has
/// read, however it was cut.
pub proof fn lemma_absorbing(st: HttpState, seen: Seq<u8>, data: Seq<u8>)
    requires
        st.reading(seen),
    ensures
        data.len() == 0 ==> st.verdict(data) == Err::<bool, SnellError>(SnellError::HttpClosed),
        data.len() > 0 && seen.len() + data.len() > 8192 ==> st.verdict(data) == Err::<
            bool,
            SnellError,
        >(SnellError::HttpTooLarge),
        data.len() > 0 && seen.len() + data.len() <= 8192 ==> st.verdict(data) == Ok::<
            bool,
            SnellError,
        >(has_end(seen + data)),
{
    lemma_end_is_never_split(seen, data);
}

} // verus!
