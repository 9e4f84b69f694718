//! The first frame of a shaped session.
//!
//! The 16-byte session salt is scattered over a frame whose length follows from
//! the profile. Byte `i` of the salt, XORed with byte `i` of a keystream, stands
//! at position `perm[i]`; all other positions hold filler the peer ignores.

use vstd::prelude::*;
use vstd::slice::slice_to_vec;
use crate::error::SnellError;
use super::profile::Profile;
use super::profile::{draw_of, fmix64, fmix64_of, fold32, fold32_of, param_of, slot_of};
use super::profile::{lemma_fmix64_undone, unmixed64};
use super::profile::{GOLDEN, HI_CAP, K4, K5, K7, K8, SHUF_SALT};

verus! {

/// Counter argument of the keystream, the permutation and their parameters.
pub const F_C: u64 = 0x51A7;

/// Multiplier of the keystream position.
pub open spec fn f_field_of(s: Seq<u64>) -> u32 {
    param_of(s, 18, F_C, 17, 251)
}

/// Number of shuffle passes that build the permutation.
pub open spec fn shuffle_rounds_of(s: Seq<u64>) -> u32 {
    param_of(s, 17, F_C, 1, 4)
}

/// Lower bound of the frame body length.
pub open spec fn frame_lo_of(s: Seq<u64>) -> u32 {
    param_of(s, 14, 0x7053, 16, 96)
}

/// Upper bound of the frame body length.
pub open spec fn frame_hi_of(s: Seq<u64>) -> u32 {
    let sum = frame_lo_of(s) + param_of(s, 15, 0x7053, 16, 160);
    if sum <= HI_CAP {
        sum as u32
    } else {
        HI_CAP
    }
}

/// Length of the first frame: the salt bytes and a drawn body length.
pub open spec fn frame_len_of(s: Seq<u64>) -> nat {
    (16 + param_of(s, 33, 0x7053, frame_lo_of(s), frame_hi_of(s))) as nat
}

/// Keystream byte `i`.
pub open spec fn keystream_byte(s: Seq<u64>, i: u64) -> u8 {
    let prf = fold32_of(
        fmix64_of(
            2u64.wrapping_mul(GOLDEN) ^ F_C.wrapping_mul(K8).wrapping_add(K7) ^ i.wrapping_mul(
                K5,
            ).wrapping_add(K4) ^ s[slot_of(136)],
        ),
    );
    ((i.wrapping_mul(f_field_of(s) as u64) ^ (prf as u64)) & 0xFF) as u8
}

/// The keystream XORed over the salt.
pub open spec fn keystream_of(s: Seq<u64>) -> Seq<u8> {
    Seq::new(16, |i: int| keystream_byte(s, i as u64))
}

/// The word that picks the swap partner of position `idx` in pass `ctr`.
pub open spec fn shuffle_word(seed: u64, ctr: u64, idx: u64) -> u32 {
    fold32_of(
        fmix64_of(
            ctr.wrapping_mul(K8).wrapping_add(K7) ^ seed ^ (idx.wrapping_mul(K5).wrapping_add(K4)
                ^ SHUF_SALT),
        ),
    )
}

/// `p` with the elements at `i` and `j` exchanged.
pub open spec fn exchanged(p: Seq<usize>, i: int, j: int) -> Seq<usize> {
    p.update(i, p[j]).update(j, p[i])
}

/// Swap partner of position `i` among `n` positions in pass `ctr`.
pub open spec fn swap_partner(seed: u64, ctr: u64, i: nat, n: nat) -> int {
    i + (shuffle_word(seed, ctr, i as u64) as int) % (n - i)
}

/// `p` after the first `k` exchanges of pass `ctr`.
pub open spec fn pass_prefix(seed: u64, ctr: u64, p: Seq<usize>, k: nat) -> Seq<usize>
    decreases k,
{
    if k == 0 {
        p
    } else {
        let i = (k - 1) as nat;
        exchanged(pass_prefix(seed, ctr, p, i), i as int, swap_partner(seed, ctr, i, p.len()))
    }
}

/// The identity on `n` positions after `r` whole passes.
pub open spec fn passes(seed: u64, n: nat, r: nat) -> Seq<usize>
    decreases r,
{
    if r == 0 {
        Seq::new(n, |i: int| i as usize)
    } else {
        pass_prefix(seed, (F_C + r - 1) as u64, passes(seed, n, (r - 1) as nat), n)
    }
}

/// The profile's permutation of the frame positions.
pub open spec fn perm_of(s: Seq<u64>) -> Seq<usize> {
    passes(s[slot_of(136)], frame_len_of(s), shuffle_rounds_of(s) as nat)
}

/// `p` holds each of the positions `0..p.len()` exactly once.
pub open spec fn is_permutation(p: Seq<usize>) -> bool {
    &&& forall|i: int| 0 <= i < p.len() ==> #[trigger] p[i] < p.len()
    &&& p.no_duplicates()
}

/// `wire` carries `salt` for the profile with seeds `s`, and equals `base`
/// wherever no salt byte stands.
pub open spec fn carries_salt(s: Seq<u64>, salt: Seq<u8>, base: Seq<u8>, wire: Seq<u8>) -> bool {
    let perm = perm_of(s);
    &&& wire.len() == frame_len_of(s)
    &&& forall|i: int|
        0 <= i < 16 ==> wire[#[trigger] perm[i] as int] == keystream_of(s)[i] ^ salt[i]
    &&& forall|q: int|
        0 <= q < wire.len() && (forall|i: int| 0 <= i < 16 ==> perm[i] != q) ==> #[trigger] wire[q]
            == base[q]
}

/// The salt that a frame carries.
pub open spec fn carried_salt(s: Seq<u64>, wire: Seq<u8>) -> Seq<u8> {
    Seq::new(16, |i: int| keystream_of(s)[i] ^ wire[perm_of(s)[i] as int])
}

/// Every first frame is 32 to 144 bytes long.
pub proof fn lemma_frame_len_bounds(s: Seq<u64>)
    ensures
        32 <= frame_len_of(s) <= 144,
        frame_lo_of(s) <= frame_hi_of(s) <= HI_CAP,
{
}

proof fn lemma_exchange_keeps_permutation(p: Seq<usize>, i: int, j: int)
    requires
        is_permutation(p),
        0 <= i < p.len(),
        0 <= j < p.len(),
    ensures
        is_permutation(exchanged(p, i, j)),
        exchanged(p, i, j).len() == p.len(),
{
    let q = exchanged(p, i, j);
    assert forall|k: int| 0 <= k < q.len() implies #[trigger] q[k] < q.len() by {
        assert(q[k] == if k == j { p[i] } else if k == i { p[j] } else { p[k] });
    }
    assert forall|a: int, b: int| 0 <= a < q.len() && 0 <= b < q.len() && a != b implies q[a] != q[b] by {
        assert(q[a] == if a == j { p[i] } else if a == i { p[j] } else { p[a] });
        assert(q[b] == if b == j { p[i] } else if b == i { p[j] } else { p[b] });
    }
}

proof fn lemma_pass_keeps_permutation(seed: u64, ctr: u64, p: Seq<usize>, k: nat)
    requires
        is_permutation(p),
        k <= p.len(),
    ensures
        is_permutation(pass_prefix(seed, ctr, p, k)),
        pass_prefix(seed, ctr, p, k).len() == p.len(),
    decreases k,
{
    if k > 0 {
        let i = (k - 1) as nat;
        lemma_pass_keeps_permutation(seed, ctr, p, i);
        let w = shuffle_word(seed, ctr, i as u64) as int;
        assert(0 <= w % (p.len() - i) < p.len() - i);
        lemma_exchange_keeps_permutation(
            pass_prefix(seed, ctr, p, i),
            i as int,
            swap_partner(seed, ctr, i, p.len()),
        );
    }
}

proof fn lemma_passes_permute(seed: u64, n: nat, r: nat)
    requires
        n <= usize::MAX,
    ensures
        is_permutation(passes(seed, n, r)),
        passes(seed, n, r).len() == n,
    decreases r,
{
    if r > 0 {
        lemma_passes_permute(seed, n, (r - 1) as nat);
        lemma_pass_keeps_permutation(
            seed,
            (F_C + r - 1) as u64,
            passes(seed, n, (r - 1) as nat),
            n,
        );
    }
}

/// The frame positions are permuted: none is lost and none is hit twice.
pub proof fn lemma_perm_is_permutation(s: Seq<u64>)
    ensures
        is_permutation(perm_of(s)),
        perm_of(s).len() == frame_len_of(s),
{
    lemma_frame_len_bounds(s);
    lemma_passes_permute(s[slot_of(136)], frame_len_of(s), shuffle_rounds_of(s) as nat);
}

/// The salt read out of a frame is the salt that was put into it, whatever the
/// filler around it.
pub proof fn lemma_first_frame_round_trip(s: Seq<u64>, salt: Seq<u8>, base: Seq<u8>, wire: Seq<u8>)
    requires
        salt.len() == 16,
        carries_salt(s, salt, base, wire),
    ensures
        carried_salt(s, wire) == salt,
{
    assert forall|i: int| 0 <= i < 16 implies carried_salt(s, wire)[i] == salt[i] by {
        let k = keystream_of(s)[i];
        let b = salt[i];
        assert(wire[perm_of(s)[i] as int] == k ^ b);
        assert(k ^ (k ^ b) == b) by (bit_vector);
    }
    assert(carried_salt(s, wire) =~= salt);
}

fn shuffle_prf(seed: u64, ctr: u64, idx: u64) -> (r: u32)
    ensures
        r == shuffle_word(seed, ctr, idx),
{
    fold32(
        fmix64(
            ctr.wrapping_mul(K8).wrapping_add(K7) ^ seed ^ (idx.wrapping_mul(K5).wrapping_add(K4)
                ^ SHUF_SALT),
        ),
    )
}

impl Profile {
    /// Multiplier of the keystream position.
    pub fn f_field(&self) -> (r: u32)
        ensures
            r == f_field_of(self@),
            17 <= r <= 251,
    {
        self.param(18, F_C, 17, 251)
    }

    /// Number of shuffle passes that build the permutation.
    pub fn shuffle_rounds(&self) -> (r: u32)
        ensures
            r == shuffle_rounds_of(self@),
            1 <= r <= 4,
    {
        self.param(17, F_C, 1, 4)
    }

    /// Lower bound of the frame body length.
    pub fn frame_lo(&self) -> (r: u32)
        ensures
            r == frame_lo_of(self@),
            16 <= r <= 96,
    {
        self.param(14, 0x7053, 16, 96)
    }

    /// Upper bound of the frame body length.
    pub fn frame_hi(&self) -> (r: u32)
        ensures
            r == frame_hi_of(self@),
            32 <= r <= HI_CAP,
    {
        let sum: u32 = self.frame_lo() + self.param(15, 0x7053, 16, 160);
        if sum <= HI_CAP {
            sum
        } else {
            HI_CAP
        }
    }

    /// Length of the first frame in bytes.
    pub fn frame_len(&self) -> (r: usize)
        ensures
            r == frame_len_of(self@),
            32 <= r <= 144,
    {
        let lo: u32 = self.frame_lo();
        let hi: u32 = self.frame_hi();
        proof {
            lemma_frame_len_bounds(self@);
        }
        (16 + self.param(33, 0x7053, lo, hi)) as usize
    }

    /// The keystream XORed over the salt.
    pub fn keystream(&self) -> (out: [u8; 16])
        ensures
            out@ == keystream_of(self@),
    {
        let seed: u64 = self.seed_at(136);
        let f: u64 = self.f_field() as u64;
        let mut out: [u8; 16] = [0;16];
        let mut i: usize = 0;
        while i < 16
            invariant
                i <= 16,
                seed == self@[slot_of(136)],
                f == f_field_of(self@) as u64,
                forall|j: int| 0 <= j < i ==> out@[j] == keystream_of(self@)[j],
            decreases 16 - i,
        {
            let n: u64 = i as u64;
            let prf: u32 = fold32(
                fmix64(
                    2u64.wrapping_mul(GOLDEN) ^ F_C.wrapping_mul(K8).wrapping_add(K7)
                        ^ n.wrapping_mul(K5).wrapping_add(K4) ^ seed,
                ),
            );
            out[i] = ((n.wrapping_mul(f) ^ (prf as u64)) & 0xFF) as u8;
            i = i + 1;
        }
        assert(out@ =~= keystream_of(self@));
        out
    }

    /// The profile's permutation of the frame positions.
    pub fn perm(&self) -> (p: Vec<usize>)
        ensures
            p@ == perm_of(self@),
            is_permutation(p@),
            p@.len() == frame_len_of(self@),
    {
        let seed: u64 = self.seed_at(136);
        let n: usize = self.frame_len();
        let rounds: u32 = self.shuffle_rounds();
        let mut p: Vec<usize> = Vec::new();
        let mut k: usize = 0;
        while k < n
            invariant
                k <= n,
                p@.len() == k,
                forall|j: int| 0 <= j < k ==> p@[j] == j,
            decreases n - k,
        {
            p.push(k);
            k = k + 1;
        }
        assert(p@ =~= passes(seed, n as nat, 0));
        let mut r: u32 = 0;
        while r < rounds
            invariant
                r <= rounds <= 4,
                n <= 144,
                p@ == passes(seed, n as nat, r as nat),
                p@.len() == n,
            decreases rounds - r,
        {
            let ctr: u64 = F_C + r as u64;
            let ghost start = p@;
            proof {
                lemma_passes_permute(seed, n as nat, r as nat);
            }
            let mut i: usize = 0;
            while i < n
                invariant
                    i <= n <= 144,
                    start.len() == n,
                    is_permutation(start),
                    p@ == pass_prefix(seed, ctr, start, i as nat),
                    p@.len() == n,
                decreases n - i,
            {
                let w: u64 = shuffle_prf(seed, ctr, i as u64) as u64;
                let j: usize = i + (w % ((n - i) as u64)) as usize;
                let a: usize = p[i];
                let b: usize = p[j];
                p.set(i, b);
                p.set(j, a);
                assert(j == swap_partner(seed, ctr, i as nat, n as nat));
                i = i + 1;
                assert(p@ =~= pass_prefix(seed, ctr, start, i as nat));
            }
            r = r + 1;
        }
        proof {
            lemma_perm_is_permutation(self@);
        }
        p
    }

    /// The first frame that carries `salt`. `filler`, which must be as long as
    /// the frame, supplies the other bytes; without it they are zero.
    pub fn encode_first_frame(&self, salt: &[u8; 16], filler: Option<&[u8]>) -> (out: Result<
        Vec<u8>,
        SnellError,
    >)
        ensures
            match filler {
                Some(f) => if f@.len() == frame_len_of(self@) {
                    out is Ok && carries_salt(self@, salt@, f@, out->Ok_0@)
                } else {
                    out == Err::<Vec<u8>, SnellError>(
                        (SnellError::FillerLength {
                            found: f.len(),
                            expected: frame_len_of(self@) as usize,
                        }),
                    )
                },
                None => out is Ok && carries_salt(
                    self@,
                    salt@,
                    Seq::new(frame_len_of(self@), |i: int| 0u8),
                    out->Ok_0@,
                ),
            },
    {
        let n: usize = self.frame_len();
        let mut buf: Vec<u8> = match filler {
            Some(f) => {
                if f.len() != n {
                    return Err(SnellError::FillerLength { found: f.len(), expected: n });
                }
                slice_to_vec(f)
            },
            None => vec![0u8; n],
        };
        let ghost base = buf@;
        let perm: Vec<usize> = self.perm();
        let ks: [u8; 16] = self.keystream();
        let mut i: usize = 0;
        while i < 16
            invariant
                i <= 16,
                perm@ == perm_of(self@),
                is_permutation(perm@),
                perm@.len() == n,
                n == frame_len_of(self@),
                n >= 32,
                buf@.len() == n,
                ks@ == keystream_of(self@),
                forall|j: int|
                    0 <= j < i ==> buf@[#[trigger] perm@[j] as int] == ks@[j] ^ salt@[j],
                forall|q: int|
                    0 <= q < n && (forall|j: int| 0 <= j < i ==> perm@[j] != q)
                        ==> #[trigger] buf@[q] == base[q],
            decreases 16 - i,
        {
            let at: usize = perm[i];
            let ghost before = buf@;
            buf.set(at, ks[i] ^ salt[i]);
            assert forall|j: int| 0 <= j < i + 1 implies buf@[#[trigger] perm@[j] as int] == ks@[j]
                ^ salt@[j] by {
                if j < i {
                    assert(perm@[j] != perm@[i as int]);
                }
            }
            assert forall|q: int|
                0 <= q < n && (forall|j: int| 0 <= j < i + 1 ==> perm@[j] != q) implies
                #[trigger] buf@[q] == base[q] by {
                assert(perm@[i as int] != q);
                assert(before[q] == base[q]);
            }
            i = i + 1;
        }
        Ok(buf)
    }

    /// The salt that a first frame carries.
    pub fn decode_first_frame(&self, wire: &[u8]) -> (out: Result<[u8; 16], SnellError>)
        ensures
            if wire@.len() == frame_len_of(self@) {
                out is Ok && out->Ok_0@ == carried_salt(self@, wire@)
            } else {
                out == Err::<[u8; 16], SnellError>(
                    (SnellError::FrameLength {
                        found: wire.len(),
                        expected: frame_len_of(self@) as usize,
                    }),
                )
            },
    {
        let n: usize = self.frame_len();
        if wire.len() != n {
            return Err(SnellError::FrameLength { found: wire.len(), expected: n });
        }
        let perm: Vec<usize> = self.perm();
        let ks: [u8; 16] = self.keystream();
        let mut salt: [u8; 16] = [0;16];
        let mut i: usize = 0;
        while i < 16
            invariant
                i <= 16,
                perm@ == perm_of(self@),
                is_permutation(perm@),
                perm@.len() == n,
                n >= 32,
                wire@.len() == n,
                ks@ == keystream_of(self@),
                forall|j: int| 0 <= j < i ==> salt@[j] == carried_salt(self@, wire@)[j],
            decreases 16 - i,
        {
            salt[i] = ks[i] ^ wire[perm[i]];
            i = i + 1;
        }
        assert(salt@ =~= carried_salt(self@, wire@));
        Ok(salt)
    }
}

/// The length of a first frame: 16 salt bytes and a body whose range starts at 16
/// to 96 bytes and spans another 16 to 160, but never goes beyond 128.
pub proof fn lemma_frame_len_is_drawn(s: Seq<u64>)
    ensures
        frame_lo_of(s) == 16 + draw_of(s, 14, 0, 0x7053) % 81,
        ({
            let end = frame_lo_of(s) + 16 + draw_of(s, 15, 0, 0x7053) % 145;
            frame_hi_of(s) == if end < 128 {
                end
            } else {
                128
            }
        }),
        frame_len_of(s) == 16 + frame_lo_of(s) + (draw_of(s, 33, 0, 0x7053) as int) % (frame_hi_of(
            s,
        ) - frame_lo_of(s) + 1),
{
}

/// The multiplier of the keystream and the number of passes are drawn with
/// counter `0x51a7`.
pub proof fn lemma_frame_fields_are_drawn(s: Seq<u64>)
    ensures
        f_field_of(s) == 17 + draw_of(s, 18, 0, 0x51A7) % 235,
        shuffle_rounds_of(s) == 1 + draw_of(s, 17, 0, 0x51A7) % 4,
{
}

proof fn lemma_low_byte(x: u64, p: u32)
    by (bit_vector)
    ensures
        ((x ^ (p as u64)) & 0xFF) as u8 == ((x % 256) as u8) ^ ((p % 256) as u8),
{
}

/// Keystream byte `i` is the low byte of the multiple of `i`, XORed with that of a
/// word folded from the finalized XOR of the counter, `i` and the fourth seed.
pub proof fn lemma_keystream(s: Seq<u64>, i: int)
    requires
        0 <= i < 16,
    ensures
        keystream_of(s).len() == 16,
        exists|w: u64| {
            &&& #[trigger] unmixed64(w) == 2u64.wrapping_mul(0x9E3779B97F4A7C15)
                ^ 0x51A7u64.wrapping_mul(0xE7037ED1A0B428DB).wrapping_add(0x8F3907F7B2B80C35) ^ (
            i as u64).wrapping_mul(0x589965CC75374CC3).wrapping_add(0x33A213EC50FFE2E9) ^ s[3]
            &&& keystream_of(s)[i] == (((i * f_field_of(s)) % 256) as u8) ^ ((fold32_of(w)
                % 256) as u8)
        },
{
    let n = i as u64;
    let z = 2u64.wrapping_mul(GOLDEN) ^ F_C.wrapping_mul(K8).wrapping_add(K7) ^ n.wrapping_mul(
        K5,
    ).wrapping_add(K4) ^ s[slot_of(136)];
    let w = fmix64_of(z);
    lemma_fmix64_undone(z);
    let x = n.wrapping_mul(f_field_of(s) as u64);
    assert(0 <= i * f_field_of(s) < 16 * 252) by (nonlinear_arith)
        requires
            0 <= i < 16,
            17 <= f_field_of(s) <= 251,
    ;
    assert(x == i * f_field_of(s));
    lemma_low_byte(x, fold32_of(w));
    assert(unmixed64(w) == z);
}

/// The word that picks a swap partner is folded from the finalized XOR of pass,
/// seed and position.
pub proof fn lemma_shuffle_word(seed: u64, ctr: u64, idx: u64)
    ensures
        exists|w: u64| {
            &&& #[trigger] unmixed64(w) == ctr.wrapping_mul(0xE7037ED1A0B428DB).wrapping_add(
                0x8F3907F7B2B80C35,
            ) ^ seed ^ (idx.wrapping_mul(0x589965CC75374CC3).wrapping_add(0x33A213EC50FFE2E9)
                ^ 0xDAA66D2C7DDF743F)
            &&& shuffle_word(seed, ctr, idx) == fold32_of(w)
        },
{
    let z = ctr.wrapping_mul(K8).wrapping_add(K7) ^ seed ^ (idx.wrapping_mul(K5).wrapping_add(K4)
        ^ SHUF_SALT);
    lemma_fmix64_undone(z);
    assert(unmixed64(fmix64_of(z)) == z);
}

/// The permutation starts from the identity and goes through as many passes as
/// drawn. Pass `r` runs over all positions in order; each is exchanged with one
/// at or behind it, picked by a word for pass `0x51a7 + r` and the position.
pub proof fn lemma_permutation_passes(s: Seq<u64>, n: nat, r: nat, p: Seq<usize>, i: nat)
    requires
        r < 4,
        i < p.len(),
        p.len() <= 0xffff,
    ensures
        perm_of(s) == passes(s[3], frame_len_of(s), shuffle_rounds_of(s) as nat),
        passes(s[3], n, 0) == Seq::new(n, |j: int| j as usize),
        passes(s[3], n, r + 1) == pass_prefix(
            s[3],
            (0x51A7 + r) as u64,
            passes(s[3], n, r),
            n,
        ),
        pass_prefix(s[3], (0x51A7 + r) as u64, p, 0) == p,
        ({
            let ctr = (0x51A7 + r) as u64;
            let before = pass_prefix(s[3], ctr, p, i);
            let after = pass_prefix(s[3], ctr, p, i + 1);
            let j = i + (shuffle_word(s[3], ctr, i as u64) as int) % (p.len() - i);
            &&& i <= j < p.len()
            &&& before.len() == p.len()
            &&& after.len() == p.len()
            &&& after[i as int] == before[j]
            &&& after[j] == before[i as int]
            &&& forall|q: int|
                0 <= q < p.len() && q != i && q != j ==> #[trigger] after[q] == before[q]
        }),
{
    let ctr = (0x51A7 + r) as u64;
    lemma_pass_len(s[3], ctr, p, i);
    let w = shuffle_word(s[3], ctr, i as u64) as int;
    vstd::arithmetic::div_mod::lemma_mod_bound(w, p.len() - i);
}

proof fn lemma_pass_len(seed: u64, ctr: u64, p: Seq<usize>, k: nat)
    requires
        k <= p.len(),
    ensures
        pass_prefix(seed, ctr, p, k).len() == p.len(),
    decreases k,
{
    if k > 0 {
        let i = (k - 1) as nat;
        lemma_pass_len(seed, ctr, p, i);
        let w = shuffle_word(seed, ctr, i as u64) as int;
        vstd::arithmetic::div_mod::lemma_mod_bound(w, p.len() - i);
        assert(0 <= swap_partner(seed, ctr, i, p.len()) < p.len());
    }
}

/// A frame carries a salt exactly if, at the first sixteen permuted positions,
/// each of its bytes stands XORed with its keystream byte. No other byte matters.
pub proof fn lemma_salt_positions(s: Seq<u64>, wire: Seq<u8>, salt: Seq<u8>)
    requires
        salt.len() == 16,
    ensures
        carried_salt(s, wire) == salt <==> forall|i: int|
            0 <= i < 16 ==> #[trigger] salt[i] ^ keystream_of(s)[i] == wire[perm_of(s)[i] as int],
{
    assert forall|i: int| 0 <= i < 16 implies (carried_salt(s, wire)[i] == salt[i]) == (
    #[trigger] salt[i] ^ keystream_of(s)[i] == wire[perm_of(s)[i] as int]) by {
        lemma_xor_moves(keystream_of(s)[i], wire[perm_of(s)[i] as int], salt[i]);
    }
    if carried_salt(s, wire) == salt {
        assert forall|i: int| 0 <= i < 16 implies #[trigger] salt[i] ^ keystream_of(s)[i]
            == wire[perm_of(s)[i] as int] by {
            assert(carried_salt(s, wire)[i] == salt[i]);
        }
    }
    if forall|i: int|
        0 <= i < 16 ==> #[trigger] salt[i] ^ keystream_of(s)[i] == wire[perm_of(s)[i] as int] {
        assert forall|i: int| 0 <= i < 16 implies carried_salt(s, wire)[i] == salt[i] by {
            assert(salt[i] ^ keystream_of(s)[i] == wire[perm_of(s)[i] as int]);
        }
        assert(carried_salt(s, wire) =~= salt);
    }
}

proof fn lemma_xor_moves(k: u8, w: u8, b: u8)
    by (bit_vector)
    ensures
        (k ^ w == b) == (b ^ k == w),
{
}

/// A frame that carries a salt has its length from the profile, the salt bytes
/// under the keystream at the first sixteen permuted positions, and the given
/// filler at all others.
pub proof fn lemma_frame_bytes(
    s: Seq<u64>,
    salt: Seq<u8>,
    base: Seq<u8>,
    wire: Seq<u8>,
    i: int,
    q: int,
)
    requires
        carries_salt(s, salt, base, wire),
        0 <= i < 16,
        16 <= q < wire.len(),
    ensures
        wire.len() == frame_len_of(s),
        wire[perm_of(s)[i] as int] == keystream_of(s)[i] ^ salt[i],
        wire[perm_of(s)[q] as int] == base[perm_of(s)[q] as int],
{
    lemma_perm_is_permutation(s);
    let p = perm_of(s);
    assert(p[i] < p.len());
    let at = p[q] as int;
    assert(0 <= at < wire.len());
    assert forall|j: int| 0 <= j < 16 implies p[j] != at by {
        assert(p[j] != p[q]);
    }
    assert(wire[at] == base[at]);
}

} // verus!
