//! Shaping profile derived from the pre-shared key.
//!
//! All 64-bit arithmetic wraps. The derivation is
//!
//! ```text
//! master        = BLAKE2b-256(PERSONA || psk)
//! m0..m3        = little-endian 64-bit words of master
//! seed(idx, k)  = fmix64(...)                 seven category seeds
//! draw_b(cat, b, c) = fold32(fmix64(...))     keyed pseudo-random function
//! param(cat, c, lo, hi) = lo + draw(cat, c) % (hi - lo + 1)
//! ```

use vstd::prelude::*;
use crate::crypto::blake2b256_digest;
use crate::crypto::blake2b256;
use crate::little_endian::{le_value, lemma_le_value_bound, pow256};

verus! {

/// First multiplier of the splitmix64 finalizer.
pub const C1: u64 = 0xBF58476D1CE4E5B9;

/// Second multiplier of the splitmix64 finalizer.
pub const C2: u64 = 0x94D049BB133111EB;

pub const GOLDEN: u64 = 0x9E3779B97F4A7C15;

pub const MUL: u64 = 0xD6E8FEB86659FD93;

pub const ADD: u64 = 0xA0761D6478BD642F;

pub const K7: u64 = 0x8F3907F7B2B80C35;

pub const K8: u64 = 0xE7037ED1A0B428DB;

pub const K5: u64 = 0x589965CC75374CC3;

pub const K4: u64 = 0x33A213EC50FFE2E9;

pub const SHUF_SALT: u64 = 0xDAA66D2C7DDF743F;

/// Upper clamp of the first-frame and prefix length ranges.
pub const HI_CAP: u32 = 128;

/// Bytes hashed in front of the pre-shared key to obtain the master digest.
pub const PERSONA: [u8; 24] = [
    0x8d, 0x41, 0xa7, 0x13, 0x5c, 0xe2, 0x09, 0xbb, 0x70, 0x2f, 0xd6, 0x94, 0x33, 0x18, 0xc0, 0x6e,
    0x4a, 0x91, 0x25, 0xfd, 0xb8, 0x03, 0x77, 0xac,
];

/// Category index to routing byte.
pub const CATMAP: [u8; 40] = [
    0x00, 0x00, 0x02, 0x04, 0xf8, 0xf8, 0xf8, 0xf8, 0xf8, 0xf8, 0xf8, 0xf8, 0xf8, 0xf8, 0x00, 0x00,
    0x04, 0x04, 0x04, 0x04, 0x04, 0x06, 0x06, 0x06, 0x06, 0x06, 0x06, 0xf8, 0x08, 0x08, 0x08, 0x08,
    0x08, 0x00, 0x00, 0x08, 0x08, 0x08, 0x06, 0x06,
];

/// Slot offset, index and key word of each of the seven category seeds.
pub const SEED_DEFS: [(u16, u64, u64); 7] = [
    (0, 16, 0xC9F4260B7D1E835A),
    (72, 0, 0x5D9217C083E64AB9),
    (96, 5, 0xB46C2E7D9A1538F1),
    (136, 3, 0x3E8A91B52740F6CD),
    (168, 21, 0x62D0B5E19C4A783F),
    (192, 2, 0xA71F0C54D8396E2B),
    (216, 28, 0x917B3C48E6A205D4),
];

/// The splitmix64 finalizer.
#[verifier::opaque]
pub open spec fn fmix64_of(z: u64) -> u64 {
    let a = z ^ (z >> 30);
    let b = a.wrapping_mul(C1);
    let c = b ^ (b >> 27);
    let d = c.wrapping_mul(C2);
    d ^ (d >> 31)
}

/// The splitmix64 finalizer.
pub fn fmix64(z: u64) -> (r: u64)
    ensures
        r == fmix64_of(z),
{
    proof {
        reveal(fmix64_of);
    }
    let a: u64 = z ^ (z >> 30);
    let b: u64 = a.wrapping_mul(C1);
    let c: u64 = b ^ (b >> 27);
    let d: u64 = c.wrapping_mul(C2);
    d ^ (d >> 31)
}

/// XOR of the two halves of a 64-bit word.
pub open spec fn fold32_of(z: u64) -> u32 {
    (z ^ (z >> 32)) as u32
}

/// XOR of the two halves of a 64-bit word.
pub fn fold32(z: u64) -> (r: u32)
    ensures
        r == fold32_of(z),
{
    (z ^ (z >> 32)) as u32
}

/// Slot offset of the seed that a routing byte selects.
pub open spec fn route_of(b: u8) -> u16 {
    if b == 0x00 {
        72
    } else if b == 0x02 {
        192
    } else if b == 0x04 {
        0
    } else if b == 0x06 {
        168
    } else if b == 0x08 {
        216
    } else {
        96
    }
}

fn route(b: u8) -> (r: u16)
    ensures
        r == route_of(b),
{
    match b {
        0x00 => 72,
        0x02 => 192,
        0x04 => 0,
        0x06 => 168,
        0x08 => 216,
        _ => 96,
    }
}

/// The 64-bit word rotated right by 47 bits.
pub open spec fn ror47(x: u64) -> u64 {
    (x >> 47) | (x << 17)
}

/// The 64-bit word rotated right by 11 bits.
pub open spec fn ror11(x: u64) -> u64 {
    (x >> 11) | (x << 53)
}

/// The little-endian 64-bit word that starts at byte `at`.
pub open spec fn le_word(s: Seq<u8>, at: int) -> u64 {
    le_value(s.subrange(at, at + 8)) as u64
}

fn read_le_word(s: &[u8; 32], at: usize) -> (r: u64)
    requires
        at <= 24,
    ensures
        r == le_word(s@, at as int),
{
    let mut v: u64 = 0;
    let mut i: usize = 8;
    while i > 0
        invariant
            i <= 8,
            at <= 24,
            v == le_value(s@.subrange(at + i, at + 8)),
        decreases i,
    {
        i = i - 1;
        proof {
            let t = s@.subrange(at + i, at + 8);
            assert(t.skip(1) =~= s@.subrange(at + i + 1, at + 8));
            lemma_le_value_bound(t);
            reveal_with_fuel(pow256, 9);
        }
        v = v * 256 + s[at + i] as u64;
    }
    v
}

/// One category seed out of the four master words.
pub open spec fn seed_of(idx: u64, k64: u64, m: Seq<u64>) -> u64 {
    fmix64_of(
        idx.wrapping_mul(MUL) ^ k64.wrapping_add(ADD) ^ (m[1].wrapping_add(GOLDEN) ^ ror47(m[2]))
            ^ (m[0] ^ ror11(m[3])),
    )
}

fn seed(idx: u64, k64: u64, m: &[u64; 4]) -> (r: u64)
    ensures
        r == seed_of(idx, k64, m@),
{
    fmix64(
        idx.wrapping_mul(MUL) ^ k64.wrapping_add(ADD) ^ (m[1].wrapping_add(GOLDEN) ^ ((m[2] >> 47)
            | (m[2] << 17))) ^ (m[0] ^ ((m[3] >> 11) | (m[3] << 53))),
    )
}

/// The four little-endian words of a master digest.
pub open spec fn master_words(master: Seq<u8>) -> Seq<u64> {
    seq![le_word(master, 0), le_word(master, 8), le_word(master, 16), le_word(master, 24)]
}

/// The seven category seeds that follow from a master digest.
pub open spec fn seeds_of(master: Seq<u8>) -> Seq<u64> {
    Seq::new(7, |i: int| seed_of(SEED_DEFS@[i].1, SEED_DEFS@[i].2, master_words(master)))
}

/// Index in the seed list of the seed with slot offset `off`.
pub open spec fn slot_of(off: u16) -> int {
    if off == 0 {
        0
    } else if off == 72 {
        1
    } else if off == 96 {
        2
    } else if off == 136 {
        3
    } else if off == 168 {
        4
    } else if off == 192 {
        5
    } else {
        6
    }
}

/// Whether a seed with slot offset `off` exists.
pub open spec fn is_slot(off: u16) -> bool {
    off == 0 || off == 72 || off == 96 || off == 136 || off == 168 || off == 192 || off == 216
}

/// Seed that keys the draws of category `cat`.
pub open spec fn category_seed(seeds: Seq<u64>, cat: u64) -> u64 {
    if cat > 39 {
        seeds[slot_of(96)]
    } else {
        seeds[slot_of(route_of(CATMAP@[cat as int]))]
    }
}

/// The 64-bit word behind a draw.
pub open spec fn draw_word_of(seeds: Seq<u64>, cat: u64, b: u64, c: u64) -> u64 {
    fmix64_of(
        cat.wrapping_mul(GOLDEN) ^ b.wrapping_mul(K8).wrapping_add(K7) ^ c.wrapping_mul(
            K5,
        ).wrapping_add(K4) ^ category_seed(seeds, cat),
    )
}

/// The keyed pseudo-random function of the profile with seeds `seeds`.
#[verifier::opaque]
pub open spec fn draw_of(seeds: Seq<u64>, cat: u64, b: u64, c: u64) -> u32 {
    fold32_of(draw_word_of(seeds, cat, b, c))
}

/// The drawn word `v` brought into `lo..=hi`, or `lo` for an empty range.
pub open spec fn bound_of(v: u32, lo: u32, hi: u32) -> u32 {
    if hi > lo {
        (lo + (v as int) % (hi - lo + 1)) as u32
    } else {
        lo
    }
}

/// The draw of category `cat` with counter `c`, brought into `lo..=hi`.
pub open spec fn param_of(seeds: Seq<u64>, cat: u64, c: u64, lo: u32, hi: u32) -> u32 {
    bound_of(draw_of(seeds, cat, 0, c), lo, hi)
}

/// A bounded value stays in its range.
pub proof fn lemma_bound_in_range(v: u32, lo: u32, hi: u32)
    ensures
        lo <= hi ==> lo <= bound_of(v, lo, hi) <= hi,
        lo > hi ==> bound_of(v, lo, hi) == lo,
{
}

/// Shaping profile derived from the pre-shared key: seven category seeds.
#[derive(Clone, Copy)]
pub struct Profile {
    seeds: [u64; 7],
}

impl View for Profile {
    type V = Seq<u64>;

    closed spec fn view(&self) -> Seq<u64> {
        self.seeds@
    }
}

impl Profile {
    /// The profile of a pre-shared key.
    pub fn derive(psk: &[u8]) -> (p: Profile)
        ensures
            p@ == seeds_of(blake2b256(PERSONA@ + psk@)),
    {
        let master: [u8; 32] = blake2b256_digest(PERSONA.as_slice(), psk);
        Profile::from_master(&master)
    }

    /// The profile of a 32-byte master digest.
    pub fn from_master(master: &[u8; 32]) -> (p: Profile)
        ensures
            p@ == seeds_of(master@),
    {
        let m: [u64; 4] = [
            read_le_word(master, 0),
            read_le_word(master, 8),
            read_le_word(master, 16),
            read_le_word(master, 24),
        ];
        let mut seeds: [u64; 7] = [0;7];
        let mut i: usize = 0;
        assert(m@ =~= master_words(master@));
        while i < 7
            invariant
                i <= 7,
                m@ == master_words(master@),
                forall|j: int| 0 <= j < i ==> seeds@[j] == seeds_of(master@)[j],
            decreases 7 - i,
        {
            seeds[i] = seed(SEED_DEFS[i].1, SEED_DEFS[i].2, &m);
            i = i + 1;
        }
        assert(seeds@ =~= seeds_of(master@));
        Profile { seeds }
    }

    /// The seed with slot offset `off`.
    pub fn seed_at(&self, off: u16) -> (r: u64)
        requires
            is_slot(off),
        ensures
            r == self@[slot_of(off)],
    {
        match off {
            0 => self.seeds[0],
            72 => self.seeds[1],
            96 => self.seeds[2],
            136 => self.seeds[3],
            168 => self.seeds[4],
            192 => self.seeds[5],
            _ => self.seeds[6],
        }
    }

    pub(crate) fn state_loader(&self, cat: u64) -> (r: u64)
        ensures
            r == category_seed(self@, cat),
    {
        if cat > 39 {
            self.seed_at(96)
        } else {
            self.seed_at(route(CATMAP[cat as usize]))
        }
    }

    /// Pseudo-random word for category `cat`, chunk index `b` and counter `c`.
    pub fn draw_b(&self, cat: u64, b: u64, c: u64) -> (r: u32)
        ensures
            r == draw_of(self@, cat, b, c),
    {
        proof {
            reveal(draw_of);
        }
        let s: u64 = self.state_loader(cat);
        fold32(
            fmix64(
                cat.wrapping_mul(GOLDEN) ^ b.wrapping_mul(K8).wrapping_add(K7) ^ c.wrapping_mul(
                    K5,
                ).wrapping_add(K4) ^ s,
            ),
        )
    }

    /// Pseudo-random word for category `cat` and counter `c` at chunk index 0.
    pub fn draw(&self, cat: u64, c: u64) -> (r: u32)
        ensures
            r == draw_of(self@, cat, 0, c),
    {
        self.draw_b(cat, 0, c)
    }

    /// `v` brought into `lo..=hi`; `lo` when the range is empty or a point.
    pub fn bound(&self, v: u32, lo: u32, hi: u32) -> (r: u32)
        requires
            hi - lo < u32::MAX,
        ensures
            r == bound_of(v, lo, hi),
            lo <= hi ==> lo <= r <= hi,
    {
        if hi > lo {
            lo + v % (hi - lo + 1)
        } else {
            lo
        }
    }

    /// Bounded parameter: the draw of `cat` and `c` brought into `lo..=hi`.
    pub fn param(&self, cat: u64, c: u64, lo: u32, hi: u32) -> (r: u32)
        requires
            hi - lo < u32::MAX,
        ensures
            r == param_of(self@, cat, c, lo, hi),
            lo <= hi ==> lo <= r <= hi,
    {
        self.bound(self.draw(cat, c), lo, hi)
    }
}

/// What the splitmix64 finalizer leads to `w` from: its steps undone in turn, the
/// multiplications by the inverses of the multipliers modulo `2^64`.
#[verifier::opaque]
pub open spec fn unmixed64(w: u64) -> u64 {
    let d = w ^ (w >> 31) ^ (w >> 62);
    let c = d.wrapping_mul(0x319642B2D24D8EC3);
    let b = c ^ (c >> 27) ^ (c >> 54);
    let a = b.wrapping_mul(0x96DE1B173F119089);
    a ^ (a >> 30) ^ (a >> 60)
}

proof fn lemma_shift30_undone(x: u64)
    by (bit_vector)
    ensures
        (x ^ (x >> 30)) ^ ((x ^ (x >> 30)) >> 30) ^ ((x ^ (x >> 30)) >> 60) == x,
{
}

proof fn lemma_shift27_undone(x: u64)
    by (bit_vector)
    ensures
        (x ^ (x >> 27)) ^ ((x ^ (x >> 27)) >> 27) ^ ((x ^ (x >> 27)) >> 54) == x,
{
}

proof fn lemma_shift31_undone(x: u64)
    by (bit_vector)
    ensures
        (x ^ (x >> 31)) ^ ((x ^ (x >> 31)) >> 31) ^ ((x ^ (x >> 31)) >> 62) == x,
{
}

/// Multiplying by `m` and then by its inverse modulo `2^64` changes nothing.
pub(crate) proof fn lemma_product_undone(x: u64, m: u64, inverse: u64)
    requires
        (m * inverse) % 0x1_0000_0000_0000_0000 == 1,
    ensures
        x.wrapping_mul(m).wrapping_mul(inverse) == x,
{
    let n: int = 0x1_0000_0000_0000_0000;
    let y = x.wrapping_mul(m);
    assert(y == (x * m) % n);
    assert(y.wrapping_mul(inverse) == (y * inverse) % n);
    vstd::arithmetic::div_mod::lemma_mul_mod_noop_left(x * m, inverse as int, n);
    assert((x * m) * inverse == x * (m * inverse)) by (nonlinear_arith);
    vstd::arithmetic::div_mod::lemma_mul_mod_noop_right(x as int, m * inverse, n);
    assert((x * (m * inverse)) % n == (x * 1) % n);
    vstd::arithmetic::div_mod::lemma_small_mod(x as nat, n as nat);
}

/// The finalizer can be undone: it loses nothing of its input.
pub proof fn lemma_fmix64_undone(z: u64)
    ensures
        unmixed64(fmix64_of(z)) == z,
{
    reveal(fmix64_of);
    reveal(unmixed64);
    let a = z ^ (z >> 30);
    let b = a.wrapping_mul(C1);
    let c = b ^ (b >> 27);
    let d = c.wrapping_mul(C2);
    lemma_shift30_undone(z);
    lemma_shift27_undone(b);
    lemma_shift31_undone(d);
    assert((C1 * 0x96DE1B173F119089u64) % 0x1_0000_0000_0000_0000 == 1);
    assert((C2 * 0x319642B2D24D8EC3u64) % 0x1_0000_0000_0000_0000 == 1);
    lemma_product_undone(a, C1, 0x96DE1B173F119089);
    lemma_product_undone(c, C2, 0x319642B2D24D8EC3);
}

/// A draw is its word with the upper half folded onto the lower, and the word is
/// the finalized XOR of four terms: one of the category, one of the chunk index,
/// one of the counter, and the seed of the category.
pub proof fn lemma_draw_takes_all_its_inputs(seeds: Seq<u64>, cat: u64, b: u64, c: u64)
    ensures
        unmixed64(draw_word_of(seeds, cat, b, c)) == cat.wrapping_mul(0x9E3779B97F4A7C15)
            ^ b.wrapping_mul(0xE7037ED1A0B428DB).wrapping_add(0x8F3907F7B2B80C35) ^ c.wrapping_mul(
            0x589965CC75374CC3,
        ).wrapping_add(0x33A213EC50FFE2E9) ^ category_seed(seeds, cat),
        ({
            let w = draw_word_of(seeds, cat, b, c);
            draw_of(seeds, cat, b, c) == ((w % 0x1_0000_0000) as u32) ^ ((w / 0x1_0000_0000) as u32)
        }),
{
    reveal(draw_of);
    lemma_fmix64_undone(
        cat.wrapping_mul(GOLDEN) ^ b.wrapping_mul(K8).wrapping_add(K7) ^ c.wrapping_mul(
            K5,
        ).wrapping_add(K4) ^ category_seed(seeds, cat),
    );
    lemma_fold32_halves(draw_word_of(seeds, cat, b, c));
}

proof fn lemma_fold32_bits(z: u64)
    by (bit_vector)
    ensures
        (z ^ (z >> 32)) as u32 == ((z % 0x1_0000_0000) as u32) ^ ((z / 0x1_0000_0000) as u32),
{
}

/// Folding XORs the two halves of a word.
pub proof fn lemma_fold32_halves(z: u64)
    ensures
        fold32_of(z) == ((z % 0x1_0000_0000) as u32) ^ ((z / 0x1_0000_0000) as u32),
{
    lemma_fold32_bits(z);
}

proof fn lemma_xor_separates(p: u64, q: u64, r: u64, s: u64, t: u64)
    by (bit_vector)
    ensures
        q != t ==> p ^ q ^ r ^ s != p ^ t ^ r ^ s,
        r != t ==> p ^ q ^ r ^ s != p ^ q ^ t ^ s,
        s != t ==> p ^ q ^ r ^ s != p ^ q ^ r ^ t,
{
}

/// Draws of one category have different words for different chunk indices, for
/// different counters, and under different seeds.
pub proof fn lemma_draw_words_differ(
    seeds: Seq<u64>,
    other: Seq<u64>,
    cat: u64,
    b: u64,
    b2: u64,
    c: u64,
    c2: u64,
)
    ensures
        b != b2 ==> draw_word_of(seeds, cat, b, c) != draw_word_of(seeds, cat, b2, c),
        c != c2 ==> draw_word_of(seeds, cat, b, c) != draw_word_of(seeds, cat, b, c2),
        category_seed(seeds, cat) != category_seed(other, cat) ==> draw_word_of(seeds, cat, b, c)
            != draw_word_of(other, cat, b, c),
{
    let p = cat.wrapping_mul(GOLDEN);
    let q = b.wrapping_mul(K8).wrapping_add(K7);
    let q2 = b2.wrapping_mul(K8).wrapping_add(K7);
    let r = c.wrapping_mul(K5).wrapping_add(K4);
    let r2 = c2.wrapping_mul(K5).wrapping_add(K4);
    let s = category_seed(seeds, cat);
    let s2 = category_seed(other, cat);
    assert((K8 * 0x2E1B9953F3B39353u64) % 0x1_0000_0000_0000_0000 == 1);
    assert((K5 * 0x2241824541ECC3EBu64) % 0x1_0000_0000_0000_0000 == 1);
    lemma_product_undone(b, K8, 0x2E1B9953F3B39353);
    lemma_product_undone(b2, K8, 0x2E1B9953F3B39353);
    lemma_product_undone(c, K5, 0x2241824541ECC3EB);
    lemma_product_undone(c2, K5, 0x2241824541ECC3EB);
    lemma_xor_separates(p, q, r, s, q2);
    lemma_xor_separates(p, q, r, s, r2);
    lemma_xor_separates(p, q, r, s, s2);
    lemma_draw_takes_all_its_inputs(seeds, cat, b, c);
    lemma_draw_takes_all_its_inputs(seeds, cat, b2, c);
    lemma_draw_takes_all_its_inputs(seeds, cat, b, c2);
    lemma_draw_takes_all_its_inputs(other, cat, b, c);
}

/// A bounded value differs from the low end of its range by the remainder of the
/// word modulo the width of the range.
pub proof fn lemma_bound_is_a_remainder(v: u32, lo: u32, hi: u32)
    requires
        lo <= hi,
    ensures
        bound_of(v, lo, hi) - lo == (v as int) % (hi - lo + 1),
{
}

/// Two words lead to the same bounded value exactly if they are congruent modulo
/// the width of the range.
pub proof fn lemma_bound_separates(v: u32, w: u32, lo: u32, hi: u32)
    requires
        lo <= hi,
    ensures
        bound_of(v, lo, hi) == bound_of(w, lo, hi) <==> (v as int) % (hi - lo + 1) == (w as int) % (
        hi - lo + 1),
{
}

/// Which of the seven seeds keys which categories.
pub proof fn lemma_categories(seeds: Seq<u64>, cat: u64)
    ensures
        (cat <= 1 || cat == 14 || cat == 15 || cat == 33 || cat == 34) ==> category_seed(seeds, cat)
            == seeds[1],
        cat == 2 ==> category_seed(seeds, cat) == seeds[5],
        (cat == 3 || 16 <= cat <= 20) ==> category_seed(seeds, cat) == seeds[0],
        (21 <= cat <= 26 || cat == 38 || cat == 39) ==> category_seed(seeds, cat) == seeds[4],
        (28 <= cat <= 32 || 35 <= cat <= 37) ==> category_seed(seeds, cat) == seeds[6],
        (4 <= cat <= 13 || cat == 27 || cat >= 40) ==> category_seed(seeds, cat) == seeds[2],
{
}

proof fn lemma_rotations(x: u64)
    by (bit_vector)
    ensures
        (((x >> 47) | (x << 17)) << 47) | (((x >> 47) | (x << 17)) >> 17) == x,
        (((x >> 11) | (x << 53)) << 11) | (((x >> 11) | (x << 53)) >> 53) == x,
{
}

proof fn lemma_seed_terms_separate(p: u64, q: u64, a: u64, b: u64, c: u64, d: u64, t: u64)
    by (bit_vector)
    ensures
        a != t ==> p ^ q ^ (a ^ b) ^ (c ^ d) != p ^ q ^ (t ^ b) ^ (c ^ d),
        b != t ==> p ^ q ^ (a ^ b) ^ (c ^ d) != p ^ q ^ (a ^ t) ^ (c ^ d),
        c != t ==> p ^ q ^ (a ^ b) ^ (c ^ d) != p ^ q ^ (a ^ b) ^ (t ^ d),
        d != t ==> p ^ q ^ (a ^ b) ^ (c ^ d) != p ^ q ^ (a ^ b) ^ (c ^ t),
{
}

/// A seed is the finalized XOR of six terms: its index and its key word, and each
/// of the four master words.
pub proof fn lemma_seed_takes_all_its_inputs(idx: u64, k64: u64, m: Seq<u64>)
    requires
        m.len() == 4,
    ensures
        unmixed64(seed_of(idx, k64, m)) == idx.wrapping_mul(0xD6E8FEB86659FD93) ^ k64.wrapping_add(
            0xA0761D6478BD642F,
        ) ^ (m[1].wrapping_add(0x9E3779B97F4A7C15) ^ ror47(m[2])) ^ (m[0] ^ ror11(m[3])),
        (ror47(m[2]) << 47) | (ror47(m[2]) >> 17) == m[2],
        (ror11(m[3]) << 11) | (ror11(m[3]) >> 53) == m[3],
{
    lemma_fmix64_undone(
        idx.wrapping_mul(MUL) ^ k64.wrapping_add(ADD) ^ (m[1].wrapping_add(GOLDEN) ^ ror47(m[2]))
            ^ (m[0] ^ ror11(m[3])),
    );
    lemma_rotations(m[2]);
    lemma_rotations(m[3]);
}

/// Every seed changes when any one of the four master words changes.
pub proof fn lemma_seeds_depend_on_every_word(idx: u64, k64: u64, m: Seq<u64>, i: int, w: u64)
    requires
        m.len() == 4,
        0 <= i < 4,
        w != m[i],
    ensures
        seed_of(idx, k64, m) != seed_of(idx, k64, m.update(i, w)),
{
    let n = m.update(i, w);
    lemma_seed_takes_all_its_inputs(idx, k64, m);
    lemma_seed_takes_all_its_inputs(idx, k64, n);
    let p = idx.wrapping_mul(MUL);
    let q = k64.wrapping_add(ADD);
    let a = m[1].wrapping_add(GOLDEN);
    let b = ror47(m[2]);
    let c = m[0];
    let d = ror11(m[3]);
    lemma_seed_terms_separate(p, q, a, b, c, d, n[1].wrapping_add(GOLDEN));
    lemma_seed_terms_separate(p, q, a, b, c, d, ror47(n[2]));
    lemma_seed_terms_separate(p, q, a, b, c, d, n[0]);
    lemma_seed_terms_separate(p, q, a, b, c, d, ror11(n[3]));
    assert(i == 0 || i == 1 || i == 2 || i == 3);
}

/// A profile has seven seeds, each of its own index and key word, all of the four
/// little-endian words of the master digest.
pub proof fn lemma_seeds_of_a_digest(master: Seq<u8>)
    requires
        master.len() == 32,
    ensures
        ({
            let m = seq![
                le_value(master.subrange(0, 8)) as u64,
                le_value(master.subrange(8, 16)) as u64,
                le_value(master.subrange(16, 24)) as u64,
                le_value(master.subrange(24, 32)) as u64,
            ];
            seeds_of(master) == seq![
                seed_of(16, 0xC9F4260B7D1E835A, m),
                seed_of(0, 0x5D9217C083E64AB9, m),
                seed_of(5, 0xB46C2E7D9A1538F1, m),
                seed_of(3, 0x3E8A91B52740F6CD, m),
                seed_of(21, 0x62D0B5E19C4A783F, m),
                seed_of(2, 0xA71F0C54D8396E2B, m),
                seed_of(28, 0x917B3C48E6A205D4, m),
            ]
        }),
{
    let m = master_words(master);
    assert(seeds_of(master) =~= seq![
        seed_of(16, 0xC9F4260B7D1E835A, m),
        seed_of(0, 0x5D9217C083E64AB9, m),
        seed_of(5, 0xB46C2E7D9A1538F1, m),
        seed_of(3, 0x3E8A91B52740F6CD, m),
        seed_of(21, 0x62D0B5E19C4A783F, m),
        seed_of(2, 0xA71F0C54D8396E2B, m),
        seed_of(28, 0x917B3C48E6A205D4, m),
    ]);
}

/// A parameter is drawn at chunk index 0, with its counter, and brought into its
/// range.
pub proof fn lemma_params_are_drawn(seeds: Seq<u64>, cat: u64, c: u64, lo: u32, hi: u32)
    ensures
        lo <= hi ==> param_of(seeds, cat, c, lo, hi) == lo + (draw_of(seeds, cat, 0, c) as int) % (
        hi - lo + 1),
        lo > hi ==> param_of(seeds, cat, c, lo, hi) == lo,
{
}

/// The seed with a slot offset is the one that is defined with that offset.
pub proof fn lemma_slots(off: u16)
    requires
        is_slot(off),
    ensures
        0 <= slot_of(off) < 7,
        SEED_DEFS@[slot_of(off)].0 == off,
{
}

} // verus!
