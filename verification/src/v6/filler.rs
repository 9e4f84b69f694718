//! Generator of the bytes that pad the first frame, the record prefixes and the
//! junk regions.
//!
//! A keyed raw stream is reshaped by one of four rules that the profile picks.
//! The output depends on the profile, the chunk index and the region length
//! only: two sessions with the same key produce the same filler.

use vstd::prelude::*;
use super::profile::Profile;
use super::profile::{bound_of, category_seed, draw_of, fmix64, fmix64_of, param_of};
use super::profile::{lemma_fmix64_undone, lemma_product_undone, unmixed64};
use super::profile::{GOLDEN, MUL};

verus! {

/// Row `k` holds sixteen bytes with exactly `k` bits set.
pub const POPTBL: [[u8; 16]; 8] = [
    [
        0x00, 0x00, 0x00, 0x00, 0x00, 0x00, 0x00, 0x00, 0x00, 0x00, 0x00, 0x00, 0x00, 0x00, 0x00,
        0x00,
    ],
    [
        0x01, 0x02, 0x04, 0x08, 0x10, 0x20, 0x40, 0x80, 0x01, 0x02, 0x04, 0x08, 0x10, 0x20, 0x40,
        0x80,
    ],
    [
        0x03, 0x05, 0x09, 0x11, 0x21, 0x41, 0x81, 0x06, 0x0a, 0x12, 0x22, 0x42, 0x82, 0x0c, 0x18,
        0x24,
    ],
    [
        0x07, 0x0b, 0x13, 0x23, 0x43, 0x83, 0x0d, 0x19, 0x31, 0x61, 0xc1, 0x0e, 0x1c, 0x38, 0x70,
        0xe0,
    ],
    [
        0x0f, 0x17, 0x27, 0x47, 0x87, 0x1b, 0x33, 0x63, 0xc3, 0x1d, 0x39, 0x71, 0xe1, 0x3c, 0x78,
        0xf0,
    ],
    [
        0xf8, 0xf4, 0xec, 0xdc, 0xbc, 0x7c, 0xf2, 0xe6, 0xce, 0x9e, 0x3e, 0xf1, 0xe3, 0xc7, 0x8f,
        0x1f,
    ],
    [
        0xfc, 0xfa, 0xf6, 0xee, 0xde, 0xbe, 0x7e, 0xf9, 0xf5, 0xed, 0xdd, 0xbd, 0x7d, 0xf3, 0xe7,
        0xdb,
    ],
    [
        0xfe, 0xfd, 0xfb, 0xf7, 0xef, 0xdf, 0xbf, 0x7f, 0xfe, 0xfd, 0xfb, 0xf7, 0xef, 0xdf, 0xbf,
        0x7f,
    ],
];

pub const PRF_LEN_MUL: u64 = 0x165667B19E3779F9;

pub const PRF_LEN_ADD: u64 = 0x0D4CD3E7B14A36D7;

pub const PRF_C_ADD: u64 = 0xB57DE1F3F82CB33F;

pub const PRF_CAT_MUL: u64 = 0xA24BAED4963EE407;

/// State in front of the first word of the raw stream.
pub open spec fn prf_start(s: Seq<u64>, cat: u64, c: u64, len: u64) -> u64 {
    len.wrapping_mul(PRF_LEN_MUL).wrapping_add(PRF_LEN_ADD) ^ category_seed(s, cat)
        ^ c.wrapping_mul(MUL).wrapping_add(PRF_C_ADD) ^ cat.wrapping_mul(PRF_CAT_MUL)
}

/// Word `j` of the raw stream: the state advances by `GOLDEN` for each word.
pub open spec fn prf_word(start: u64, j: nat) -> u64 {
    fmix64_of(((start + (j + 1) * GOLDEN) % 0x1_0000_0000_0000_0000) as u64)
}

/// Byte `k` of a word, counted from the least significant one.
pub open spec fn word_byte(w: u64, k: u64) -> u8 {
    (w >> ((8 * k) as u64)) as u8
}

/// Byte `i` of the raw stream of a region of `len` bytes.
pub open spec fn raw_byte(s: Seq<u64>, cat: u64, c: u64, len: nat, i: int) -> u8 {
    word_byte(prf_word(prf_start(s, cat, c, len as u64), (i / 8) as nat), (i % 8) as u64)
}

/// The raw stream of a region of `len` bytes.
pub open spec fn raw_stream(s: Seq<u64>, cat: u64, c: u64, len: nat) -> Seq<u8> {
    Seq::new(len, |i: int| raw_byte(s, cat, c, len, i))
}

/// `x` rotated left by `k < 8` bits.
pub open spec fn rol8(x: u8, k: u8) -> u8 {
    if k == 0 {
        x
    } else {
        (x << k) | (x >> ((8 - k) as u8))
    }
}

/// Number of set bits of a byte.
pub open spec fn popcount(x: u8) -> u8 {
    ((x & 1) + ((x >> 1) & 1) + ((x >> 2) & 1) + ((x >> 3) & 1) + ((x >> 4) & 1) + ((x >> 5) & 1)
        + ((x >> 6) & 1) + ((x >> 7) & 1)) as u8
}

/// `v` brought into `lo..=hi`.
pub open spec fn byte_bound_of(v: u8, lo: u8, hi: u8) -> u8 {
    (lo + (v as int) % (hi - lo + 1)) as u8
}

/// Which of the four reshaping rules the profile uses.
pub open spec fn filler_arm(s: Seq<u64>) -> u32 {
    draw_of(s, 6, 0, 0) % 4
}

/// Table row of the bit-count rule: a drawn percentage, scaled to bits of a byte
/// and rounded to the nearest count.
pub open spec fn popcount_row(s: Seq<u64>, chunk: u64) -> int {
    let sel = bound_of(draw_of(s, 1, chunk, 0), param_of(s, 12, 0, 24, 41), param_of(s, 13, 0, 58, 76));
    (8 * sel + 50) / 100
}

/// Bit-count rule: a table byte of the drawn row, rotated.
pub open spec fn popcount_byte(row: int, raw: u8, i: int) -> u8 {
    let t = raw.wrapping_add((i % 256) as u8);
    rol8(POPTBL@[row]@[((raw ^ t) & 0x0f) as int], (t ^ (raw >> 4)) & 7)
}

/// Text rule: printable, continuation or lead bytes in drawn proportions.
pub open spec fn text_byte(s: Seq<u64>, raw: u8, i: int) -> u8 {
    let plain = param_of(s, 6, 1, 24, 128);
    let cont = param_of(s, 6, 2, 16, 96);
    let lead = param_of(s, 6, 3, 16, 96);
    let r = (raw as int) % (lead + plain + cont);
    let ii = (i % 256) as u8;
    if r < plain {
        byte_bound_of(raw.wrapping_add(ii), 32, 126)
    } else if r < plain + cont {
        byte_bound_of(raw ^ ii, 0x80, 0xbf)
    } else {
        byte_bound_of(raw.wrapping_add(ii.wrapping_mul(7)), 0xc0, 0xff)
    }
}

/// Digit rule: a decimal digit in the low nibble, a rotated nibble above it.
pub open spec fn digit_byte(s: Seq<u64>, raw: u8, i: int) -> u8 {
    let d = param_of(s, 6, 4, 0, 9);
    (((raw / 16 + 3 + i % 4) % 16) * 16 + (raw % 16 + d + i % 2) % 10) as u8
}

/// Keyed rule: runs of key bytes XORed with a ramp, each closed by two ASCII
/// digits and a raw byte.
pub open spec fn keyed_byte(s: Seq<u64>, chunk: u64, raw: u8, i: int) -> u8 {
    let a = param_of(s, 6, 5, 1, 8) as int;
    let d = param_of(s, 6, 6, 7, 23) as int;
    if i % d < d - 3 {
        ((((a + 3) * i) % 256) as u8) ^ raw_byte(s, 2, chunk, 32, i % (4 * a))
    } else if i % d < d - 1 {
        (0x30 + (raw as int) % 10) as u8
    } else {
        raw
    }
}

/// Byte `i` of the filler of a region of `len` bytes.
pub open spec fn filler_byte(s: Seq<u64>, chunk: u64, len: nat, i: int) -> u8 {
    let raw = raw_byte(s, 0, chunk, len, i);
    if filler_arm(s) == 0 {
        popcount_byte(popcount_row(s, chunk), raw, i)
    } else if filler_arm(s) == 1 {
        text_byte(s, raw, i)
    } else if filler_arm(s) == 2 {
        digit_byte(s, raw, i)
    } else {
        keyed_byte(s, chunk, raw, i)
    }
}

/// The filler of a region of `len` bytes that belongs to chunk `chunk`.
pub open spec fn filler_of(s: Seq<u64>, chunk: u64, len: nat) -> Seq<u8> {
    Seq::new(len, |i: int| filler_byte(s, chunk, len, i))
}

proof fn lemma_rotation_keeps_popcount(x: u8, k: u8)
    by (bit_vector)
    requires
        k < 8,
    ensures
        popcount(rol8(x, k)) == popcount(x),
{
}

proof fn lemma_nibble(x: u8)
    by (bit_vector)
    ensures
        x & 0x0f < 16,
        x & 7 < 8,
{
}

proof fn lemma_low_popcounts()
    by (bit_vector)
    ensures
        popcount(0x00) == 0,
        popcount(0x01) == 1, popcount(0x02) == 1, popcount(0x04) == 1, popcount(0x08) == 1,
        popcount(0x10) == 1, popcount(0x20) == 1, popcount(0x40) == 1, popcount(0x80) == 1,
        popcount(0x03) == 2, popcount(0x05) == 2, popcount(0x09) == 2, popcount(0x11) == 2,
        popcount(0x21) == 2, popcount(0x41) == 2, popcount(0x81) == 2, popcount(0x06) == 2,
        popcount(0x0a) == 2, popcount(0x12) == 2, popcount(0x22) == 2, popcount(0x42) == 2,
        popcount(0x82) == 2, popcount(0x0c) == 2, popcount(0x18) == 2, popcount(0x24) == 2,
        popcount(0x07) == 3, popcount(0x0b) == 3, popcount(0x13) == 3, popcount(0x23) == 3,
        popcount(0x43) == 3, popcount(0x83) == 3, popcount(0x0d) == 3, popcount(0x19) == 3,
        popcount(0x31) == 3, popcount(0x61) == 3, popcount(0xc1) == 3, popcount(0x0e) == 3,
        popcount(0x1c) == 3, popcount(0x38) == 3, popcount(0x70) == 3, popcount(0xe0) == 3,
{
}

proof fn lemma_high_popcounts()
    by (bit_vector)
    ensures
        popcount(0x0f) == 4, popcount(0x17) == 4, popcount(0x27) == 4, popcount(0x47) == 4,
        popcount(0x87) == 4, popcount(0x1b) == 4, popcount(0x33) == 4, popcount(0x63) == 4,
        popcount(0xc3) == 4, popcount(0x1d) == 4, popcount(0x39) == 4, popcount(0x71) == 4,
        popcount(0xe1) == 4, popcount(0x3c) == 4, popcount(0x78) == 4, popcount(0xf0) == 4,
        popcount(0xf8) == 5, popcount(0xf4) == 5, popcount(0xec) == 5, popcount(0xdc) == 5,
        popcount(0xbc) == 5, popcount(0x7c) == 5, popcount(0xf2) == 5, popcount(0xe6) == 5,
        popcount(0xce) == 5, popcount(0x9e) == 5, popcount(0x3e) == 5, popcount(0xf1) == 5,
        popcount(0xe3) == 5, popcount(0xc7) == 5, popcount(0x8f) == 5, popcount(0x1f) == 5,
        popcount(0xfc) == 6, popcount(0xfa) == 6, popcount(0xf6) == 6, popcount(0xee) == 6,
        popcount(0xde) == 6, popcount(0xbe) == 6, popcount(0x7e) == 6, popcount(0xf9) == 6,
        popcount(0xf5) == 6, popcount(0xed) == 6, popcount(0xdd) == 6, popcount(0xbd) == 6,
        popcount(0x7d) == 6, popcount(0xf3) == 6, popcount(0xe7) == 6, popcount(0xdb) == 6,
        popcount(0xfe) == 7, popcount(0xfd) == 7, popcount(0xfb) == 7, popcount(0xf7) == 7,
        popcount(0xef) == 7, popcount(0xdf) == 7, popcount(0xbf) == 7, popcount(0x7f) == 7,
{
}

proof fn lemma_table_row(row: int, k: int)
    requires
        0 <= row < 8,
        0 <= k < 16,
    ensures
        popcount(POPTBL@[row]@[k]) == row,
{
    lemma_low_popcounts();
    lemma_high_popcounts();
    let r = POPTBL@[row]@;
    assert(row == 0 || row == 1 || row == 2 || row == 3 || row == 4 || row == 5 || row == 6 || row
        == 7);
    assert(k == 0 || k == 1 || k == 2 || k == 3 || k == 4 || k == 5 || k == 6 || k == 7 || k == 8
        || k == 9 || k == 10 || k == 11 || k == 12 || k == 13 || k == 14 || k == 15);
}

/// Under the bit-count rule every byte of a region has the same number of set
/// bits, two to six of the eight, whatever the raw stream holds.
pub proof fn lemma_filler_popcount(s: Seq<u64>, chunk: u64, len: nat, i: int)
    requires
        filler_arm(s) == 0,
        0 <= i < len,
    ensures
        popcount(filler_of(s, chunk, len)[i]) == popcount_row(s, chunk),
        2 <= popcount_row(s, chunk) <= 6,
{
    let raw = raw_byte(s, 0, chunk, len, i);
    let row = popcount_row(s, chunk);
    let t = raw.wrapping_add((i % 256) as u8);
    lemma_nibble(raw ^ t);
    lemma_nibble(t ^ (raw >> 4));
    let k = (raw ^ t) & 0x0f;
    lemma_table_row(row, k as int);
    lemma_rotation_keeps_popcount(POPTBL@[row]@[k as int], (t ^ (raw >> 4)) & 7);
}

/// Under the text rule every byte is a printable ASCII byte, a UTF-8
/// continuation byte or a byte from `0xc0` up; under the digit rule the low
/// nibble of every byte is a decimal digit.
pub proof fn lemma_filler_classes(s: Seq<u64>, chunk: u64, len: nat, i: int)
    requires
        0 <= i < len,
    ensures
        filler_arm(s) == 1 ==> 32 <= filler_of(s, chunk, len)[i] <= 126 || 0x80 <= filler_of(
            s,
            chunk,
            len,
        )[i],
        filler_arm(s) == 2 ==> filler_of(s, chunk, len)[i] % 16 <= 9,
{
}

fn byte_bound(v: u8, lo: u8, hi: u8) -> (r: u8)
    requires
        lo <= hi,
        hi - lo < 255,
    ensures
        r == byte_bound_of(v, lo, hi),
{
    lo + v % (hi - lo + 1)
}

fn rotate_left8(x: u8, k: u8) -> (r: u8)
    requires
        k < 8,
    ensures
        r == rol8(x, k),
{
    if k == 0 {
        x
    } else {
        (x << k) | (x >> (8 - k))
    }
}

impl Profile {
    /// Fills `out` with the raw stream of category `cat` and counter `c`. The
    /// length of `out` is part of the state.
    fn filler_prf(&self, cat: u64, c: u64, out: &mut [u8])
        ensures
            final(out)@ == raw_stream(self@, cat, c, old(out)@.len()),
    {
        let len: usize = out.len();
        let start: u64 = (len as u64).wrapping_mul(PRF_LEN_MUL).wrapping_add(PRF_LEN_ADD)
            ^ self.state_loader(cat) ^ c.wrapping_mul(MUL).wrapping_add(PRF_C_ADD)
            ^ cat.wrapping_mul(PRF_CAT_MUL);
        let mut block: u64 = start;
        let mut i: usize = 0;
        proof {
            assert(start == prf_start(self@, cat, c, len as u64));
        }
        while i < len
            invariant
                i <= len,
                i % 8 == 0 || i == len,
                len == out@.len(),
                start == prf_start(self@, cat, c, len as u64),
                i < len ==> block == (start + (i / 8) * GOLDEN) % 0x1_0000_0000_0000_0000,
                forall|j: int| 0 <= j < i ==> out@[j] == raw_byte(self@, cat, c, len as nat, j),
            decreases len - i,
        {
            let ghost before = block;
            block = block.wrapping_add(GOLDEN);
            let z: u64 = fmix64(block);
            proof {
                let m = (i / 8) as int;
                assert((start + m * GOLDEN + GOLDEN) == start + (m + 1) * GOLDEN)
                    by (nonlinear_arith);
                vstd::arithmetic::div_mod::lemma_add_mod_noop(
                    start + m * GOLDEN,
                    GOLDEN as int,
                    0x1_0000_0000_0000_0000,
                );
                assert(z == prf_word(start, m as nat));
            }
            let ghost base = i as int;
            let mut k: u64 = 0;
            while k < 8 && i < len
                invariant
                    k <= 8,
                    base % 8 == 0,
                    0 <= base,
                    i == base + k,
                    i <= len,
                    len == out@.len(),
                    start == prf_start(self@, cat, c, len as u64),
                    z == prf_word(start, (base / 8) as nat),
                    forall|j: int|
                        0 <= j < i ==> out@[j] == raw_byte(self@, cat, c, len as nat, j),
                decreases 8 - k,
            {
                out[i] = (z >> (8 * k)) as u8;
                assert((base + k) / 8 == base / 8 && (base + k) % 8 == k);
                i = i + 1;
                k = k + 1;
            }
        }
        assert(out@ =~= raw_stream(self@, cat, c, len as nat));
    }

    fn fill_popcount(&self, chunk: u64, out: &mut [u8])
        ensures
            final(out)@ == Seq::new(
                old(out)@.len(),
                |i: int| popcount_byte(popcount_row(self@, chunk), old(out)@[i], i),
            ),
    {
        let lo: u32 = self.param(12, 0, 24, 41);
        let hi: u32 = self.param(13, 0, 58, 76);
        let sel: u32 = self.bound(self.draw_b(1, chunk, 0), lo, hi);
        // At least 24 and at most 76 of 100: rows 2 to 6.
        let row: usize = ((8 * sel + 50) / 100) as usize;
        let ghost raw0 = out@;
        let mut i: usize = 0;
        while i < out.len()
            invariant
                i <= out@.len(),
                out@.len() == raw0.len(),
                row == popcount_row(self@, chunk),
                row < 8,
                forall|j: int| 0 <= j < i ==> out@[j] == popcount_byte(row as int, raw0[j], j),
                forall|j: int| i <= j < out@.len() ==> out@[j] == raw0[j],
            decreases out@.len() - i,
        {
            let raw: u8 = out[i];
            let t: u8 = raw.wrapping_add((i % 256) as u8);
            proof {
                lemma_nibble(raw ^ t);
                lemma_nibble(t ^ (raw >> 4));
            }
            out[i] = rotate_left8(POPTBL[row][((raw ^ t) & 0x0f) as usize], (t ^ (raw >> 4)) & 7);
            i = i + 1;
        }
        assert(out@ =~= Seq::new(
            raw0.len(),
            |j: int| popcount_byte(popcount_row(self@, chunk), raw0[j], j),
        ));
    }

    fn fill_text(&self, out: &mut [u8])
        ensures
            final(out)@ == Seq::new(old(out)@.len(), |i: int| text_byte(self@, old(out)@[i], i)),
    {
        let plain: u32 = self.param(6, 1, 24, 128);
        let cont: u32 = self.param(6, 2, 16, 96);
        let lead: u32 = self.param(6, 3, 16, 96);
        let m: u32 = lead + plain + cont;
        let ghost raw0 = out@;
        let mut i: usize = 0;
        while i < out.len()
            invariant
                i <= out@.len(),
                out@.len() == raw0.len(),
                plain == param_of(self@, 6, 1, 24, 128),
                cont == param_of(self@, 6, 2, 16, 96),
                lead == param_of(self@, 6, 3, 16, 96),
                m == lead + plain + cont,
                m > 0,
                plain + cont <= u32::MAX,
                forall|j: int| 0 <= j < i ==> out@[j] == text_byte(self@, raw0[j], j),
                forall|j: int| i <= j < out@.len() ==> out@[j] == raw0[j],
            decreases out@.len() - i,
        {
            let raw: u8 = out[i];
            let ii: u8 = (i % 256) as u8;
            let r: u32 = (raw as u32) % m;
            out[i] = if r < plain {
                byte_bound(raw.wrapping_add(ii), 32, 126)
            } else if r < plain + cont {
                byte_bound(raw ^ ii, 0x80, 0xbf)
            } else {
                byte_bound(raw.wrapping_add(ii.wrapping_mul(7)), 0xc0, 0xff)
            };
            i = i + 1;
        }
        assert(out@ =~= Seq::new(raw0.len(), |j: int| text_byte(self@, raw0[j], j)));
    }

    fn fill_digits(&self, out: &mut [u8])
        ensures
            final(out)@ == Seq::new(old(out)@.len(), |i: int| digit_byte(self@, old(out)@[i], i)),
    {
        let d: u32 = self.param(6, 4, 0, 9);
        let ghost raw0 = out@;
        let mut i: usize = 0;
        while i < out.len()
            invariant
                i <= out@.len(),
                out@.len() == raw0.len(),
                d == param_of(self@, 6, 4, 0, 9),
                d <= 9,
                forall|j: int| 0 <= j < i ==> out@[j] == digit_byte(self@, raw0[j], j),
                forall|j: int| i <= j < out@.len() ==> out@[j] == raw0[j],
            decreases out@.len() - i,
        {
            let raw: u8 = out[i];
            let lo: u32 = ((raw % 16) as u32 + d + (i % 2) as u32) % 10;
            let hi: u32 = ((raw / 16) as u32 + 3 + (i % 4) as u32) % 16;
            out[i] = (hi * 16 + lo) as u8;
            i = i + 1;
        }
        assert(out@ =~= Seq::new(raw0.len(), |j: int| digit_byte(self@, raw0[j], j)));
    }

    fn fill_keyed(&self, chunk: u64, out: &mut [u8])
        ensures
            final(out)@ == Seq::new(
                old(out)@.len(),
                |i: int| keyed_byte(self@, chunk, old(out)@[i], i),
            ),
    {
        let mut key: Vec<u8> = vec![0u8; 32];
        self.filler_prf(2, chunk, key.as_mut_slice());
        let a: u32 = self.param(6, 5, 1, 8);
        let period: usize = (4 * a) as usize;
        let d: usize = self.param(6, 6, 7, 23) as usize;
        let ghost raw0 = out@;
        let mut i: usize = 0;
        while i < out.len()
            invariant
                i <= out@.len(),
                out@.len() == raw0.len(),
                key@ == raw_stream(self@, 2, chunk, 32),
                a == param_of(self@, 6, 5, 1, 8),
                1 <= a <= 8,
                period == 4 * a,
                d == param_of(self@, 6, 6, 7, 23),
                7 <= d,
                forall|j: int| 0 <= j < i ==> out@[j] == keyed_byte(self@, chunk, raw0[j], j),
                forall|j: int| i <= j < out@.len() ==> out@[j] == raw0[j],
            decreases out@.len() - i,
        {
            let r: usize = i % d;
            if r < d - 3 {
                proof {
                    let b = i as int % 256;
                    assert((a + 3) * b <= 11 * 255) by (nonlinear_arith)
                        requires
                            a <= 8,
                            0 <= b <= 255,
                    ;
                }
                let ramp: u8 = (((a + 3) * (i % 256) as u32) % 256) as u8;
                proof {
                    vstd::arithmetic::div_mod::lemma_mul_mod_noop_right(a + 3, i as int, 256);
                    vstd::arithmetic::div_mod::lemma_mod_bound(i as int, period as int);
                }
                out[i] = ramp ^ key[i % period];
            } else if r < d - 1 {
                out[i] = 0x30 + out[i] % 10;
            }
            i = i + 1;
        }
        assert(out@ =~= Seq::new(raw0.len(), |j: int| keyed_byte(self@, chunk, raw0[j], j)));
    }

    /// Fills `out` with filler. `chunk` is the record index, or `u32::MAX` for
    /// the first frame, which is sent before any record.
    pub fn fill_filler(&self, chunk: u64, out: &mut [u8])
        ensures
            final(out)@ == filler_of(self@, chunk, old(out)@.len()),
    {
        self.filler_prf(0, chunk, out);
        let arm: u32 = self.draw(6, 0) % 4;
        if arm == 0 {
            self.fill_popcount(chunk, out);
        } else if arm == 1 {
            self.fill_text(out);
        } else if arm == 2 {
            self.fill_digits(out);
        } else {
            self.fill_keyed(chunk, out);
        }
        assert(out@ =~= filler_of(self@, chunk, old(out)@.len()));
    }
}

proof fn lemma_word_bytes(w: u64)
    by (bit_vector)
    ensures
        (w >> 0u64) as u8 == w % 256,
        (w >> 8u64) as u8 == (w / 0x100) % 256,
        (w >> 16u64) as u8 == (w / 0x1_0000) % 256,
        (w >> 24u64) as u8 == (w / 0x100_0000) % 256,
        (w >> 32u64) as u8 == (w / 0x1_0000_0000) % 256,
        (w >> 40u64) as u8 == (w / 0x100_0000_0000) % 256,
        (w >> 48u64) as u8 == (w / 0x1_0000_0000_0000) % 256,
        (w >> 56u64) as u8 == (w / 0x100_0000_0000_0000) % 256,
{
}

/// A raw stream is a row of 64-bit words, each of them eight bytes with the least
/// significant one first.
pub proof fn lemma_raw_stream_words(s: Seq<u64>, cat: u64, c: u64, len: nat, j: nat)
    ensures
        ({
            let w = prf_word(prf_start(s, cat, c, len as u64), j);
            let at = |k: int| raw_byte(s, cat, c, len, 8 * j + k);
            &&& at(0) == w % 256
            &&& at(1) == (w / 0x100) % 256
            &&& at(2) == (w / 0x1_0000) % 256
            &&& at(3) == (w / 0x100_0000) % 256
            &&& at(4) == (w / 0x1_0000_0000) % 256
            &&& at(5) == (w / 0x100_0000_0000) % 256
            &&& at(6) == (w / 0x1_0000_0000_0000) % 256
            &&& at(7) == (w / 0x100_0000_0000_0000) % 256
        }),
{
    let w = prf_word(prf_start(s, cat, c, len as u64), j);
    lemma_word_bytes(w);
    let n = 8 * j as int;
    assert((n + 0) / 8 == j && (n + 0) % 8 == 0);
    assert((n + 1) / 8 == j && (n + 1) % 8 == 1);
    assert((n + 2) / 8 == j && (n + 2) % 8 == 2);
    assert((n + 3) / 8 == j && (n + 3) % 8 == 3);
    assert((n + 4) / 8 == j && (n + 4) % 8 == 4);
    assert((n + 5) / 8 == j && (n + 5) % 8 == 5);
    assert((n + 6) / 8 == j && (n + 6) % 8 == 6);
    assert((n + 7) / 8 == j && (n + 7) % 8 == 7);
}

/// The words of a raw stream are finalized states that go up, from one word to
/// the next, by the golden ratio constant.
pub proof fn lemma_raw_stream_states(start: u64, j: nat)
    ensures
        unmixed64(prf_word(start, 0)) == start.wrapping_add(0x9E3779B97F4A7C15),
        unmixed64(prf_word(start, j + 1)) == unmixed64(prf_word(start, j)).wrapping_add(
            0x9E3779B97F4A7C15,
        ),
{
    let n: int = 0x1_0000_0000_0000_0000;
    let a = start + (j + 1) * GOLDEN;
    let b = start + (j + 1 + 1) * GOLDEN;
    lemma_fmix64_undone(((start + (0nat + 1) * GOLDEN) % n) as u64);
    lemma_fmix64_undone((a % n) as u64);
    lemma_fmix64_undone((b % n) as u64);
    lemma_state_step(a, b, j as int + 1);
}

proof fn lemma_state_step(a: int, b: int, k: int)
    requires
        b - a == (k + 1) * GOLDEN - k * GOLDEN,
    ensures
        b % 0x1_0000_0000_0000_0000 == (a % 0x1_0000_0000_0000_0000 + GOLDEN)
            % 0x1_0000_0000_0000_0000,
{
    assert((k + 1) * GOLDEN == k * GOLDEN + GOLDEN) by (nonlinear_arith);
    assert(b == a + GOLDEN);
}

proof fn lemma_start_terms_separate(p: u64, q: u64, r: u64, s: u64, t: u64)
    by (bit_vector)
    ensures
        p != t ==> p ^ q ^ r ^ s != t ^ q ^ r ^ s,
        q != t ==> p ^ q ^ r ^ s != p ^ t ^ r ^ s,
        r != t ==> p ^ q ^ r ^ s != p ^ q ^ t ^ s,
{
}

/// The state that a raw stream starts from is the XOR of four terms: one of the
/// region length, the seed of the category, one of the counter, one of the
/// category. Streams for different lengths or counters start from different
/// states.
pub proof fn lemma_raw_stream_start(s: Seq<u64>, cat: u64, c: u64, c2: u64, len: u64, len2: u64)
    ensures
        prf_start(s, cat, c, len) == len.wrapping_mul(0x165667B19E3779F9).wrapping_add(
            0x0D4CD3E7B14A36D7,
        ) ^ category_seed(s, cat) ^ c.wrapping_mul(0xD6E8FEB86659FD93).wrapping_add(
            0xB57DE1F3F82CB33F,
        ) ^ cat.wrapping_mul(0xA24BAED4963EE407),
        len != len2 ==> prf_start(s, cat, c, len) != prf_start(s, cat, c, len2),
        c != c2 ==> prf_start(s, cat, c, len) != prf_start(s, cat, c2, len),
{
    assert((PRF_LEN_MUL * 0xE9E9F4C41D6DF849u64) % 0x1_0000_0000_0000_0000 == 1);
    assert((MUL * 0xCFEE444D8B59A89Bu64) % 0x1_0000_0000_0000_0000 == 1);
    lemma_product_undone(len, PRF_LEN_MUL, 0xE9E9F4C41D6DF849);
    lemma_product_undone(len2, PRF_LEN_MUL, 0xE9E9F4C41D6DF849);
    lemma_product_undone(c, MUL, 0xCFEE444D8B59A89B);
    lemma_product_undone(c2, MUL, 0xCFEE444D8B59A89B);
    let p = len.wrapping_mul(PRF_LEN_MUL).wrapping_add(PRF_LEN_ADD);
    let q = category_seed(s, cat);
    let r = c.wrapping_mul(MUL).wrapping_add(PRF_C_ADD);
    let t = cat.wrapping_mul(PRF_CAT_MUL);
    lemma_start_terms_separate(
        p,
        q,
        r,
        t,
        len2.wrapping_mul(PRF_LEN_MUL).wrapping_add(PRF_LEN_ADD),
    );
    lemma_start_terms_separate(p, q, r, t, c2.wrapping_mul(MUL).wrapping_add(PRF_C_ADD));
}

/// A region of filler is as long as asked for, and each byte of it is made, by
/// the rule that the profile draws, of the raw byte in its place.
pub proof fn lemma_filler_follows_its_rule(s: Seq<u64>, chunk: u64, len: nat, i: int)
    requires
        0 <= i < len,
    ensures
        filler_of(s, chunk, len).len() == len,
        ({
            let raw = raw_byte(s, 0, chunk, len, i);
            let b = filler_of(s, chunk, len)[i];
            let arm = draw_of(s, 6, 0, 0) % 4;
            &&& arm == 0 ==> b == popcount_byte(popcount_row(s, chunk), raw, i)
            &&& arm == 1 ==> b == text_byte(s, raw, i)
            &&& arm == 2 ==> b == digit_byte(s, raw, i)
            &&& arm == 3 ==> b == keyed_byte(s, chunk, raw, i)
        }),
{
}

/// The bit count is a percentage, drawn for the chunk out of a drawn range, scaled
/// to the eight bits of a byte and rounded to the nearest.
pub proof fn lemma_popcount_row_is_drawn(s: Seq<u64>, chunk: u64)
    ensures
        ({
            let lo = 24 + draw_of(s, 12, 0, 0) % 18;
            let hi = 58 + draw_of(s, 13, 0, 0) % 19;
            let percent = lo + (draw_of(s, 1, chunk, 0) as int) % (hi - lo + 1);
            let row = popcount_row(s, chunk);
            &&& lo <= percent <= hi
            &&& 100 * row - 50 <= 8 * percent < 100 * row + 50
        }),
{
    let lo = 24 + draw_of(s, 12, 0, 0) % 18;
    let hi = 58 + draw_of(s, 13, 0, 0) % 19;
    vstd::arithmetic::div_mod::lemma_mod_bound(draw_of(s, 1, chunk, 0) as int, hi - lo + 1);
}

proof fn lemma_low_bits(x: u8)
    by (bit_vector)
    ensures
        x & 0x0f == x % 16,
        x & 7 == x % 8,
        x >> 4 == x / 16,
{
}

proof fn lemma_rol8_is_rotation(x: u8, k: u8)
    by (bit_vector)
    requires
        k < 8,
    ensures
        rol8(x, k) == (((x as u32) << (k as u32)) as u8) | (((((x as u32) << (k as u32)) >> 8)) as u8),
{
}

/// The bit-count rule takes the table entry that raw byte and position pick from
/// the row and rotates it to the left: bits that leave at the top come in at the
/// bottom.
pub proof fn lemma_popcount_rule(row: int, raw: u8, i: int)
    requires
        0 <= i,
    ensures
        ({
            let t = ((raw + i) % 256) as u8;
            let entry = POPTBL@[row]@[((raw ^ t) % 16) as int];
            let k = (t ^ (raw / 16)) % 8;
            let wide = (entry as u32) << (k as u32);
            popcount_byte(row, raw, i) == (wide as u8) | ((wide >> 8) as u8)
        }),
{
    let t = raw.wrapping_add((i % 256) as u8);
    assert(t == (raw + i % 256) % 256);
    vstd::arithmetic::div_mod::lemma_add_mod_noop_right(raw as int, i, 256);
    assert(t == ((raw + i) % 256) as u8);
    lemma_low_bits(raw ^ t);
    lemma_low_bits(raw);
    lemma_low_bits(t ^ (raw >> 4));
    let k = (t ^ (raw / 16)) % 8;
    lemma_rol8_is_rotation(POPTBL@[row]@[((raw ^ t) % 16) as int], k);
}

/// The text rule divides the raw bytes by their remainders, in drawn proportions,
/// among printable ASCII, continuation bytes and lead bytes, and moves each with
/// its position.
pub proof fn lemma_text_rule(s: Seq<u64>, raw: u8, i: int)
    requires
        0 <= i,
    ensures
        ({
            let plain = 24 + draw_of(s, 6, 0, 1) % 105;
            let cont = 16 + draw_of(s, 6, 0, 2) % 81;
            let lead = 16 + draw_of(s, 6, 0, 3) % 81;
            let r = (raw as int) % (plain + cont + lead);
            let b = text_byte(s, raw, i);
            &&& r < plain ==> b == 32 + ((raw + i) % 256) % 95
            &&& plain <= r < plain + cont ==> b == 0x80 + (raw ^ ((i % 256) as u8)) % 64
            &&& plain + cont <= r ==> b == 0xc0 + ((raw + 7 * i) % 256) % 64
        }),
{
    let ii = (i % 256) as u8;
    vstd::arithmetic::div_mod::lemma_add_mod_noop_right(raw as int, i, 256);
    assert(raw.wrapping_add(ii) == (raw + i) % 256);
    assert(ii.wrapping_mul(7) == (7 * (i % 256)) % 256);
    vstd::arithmetic::div_mod::lemma_mul_mod_noop_right(7, i, 256);
    assert((7 * (i % 256)) % 256 == (7 * i) % 256);
    vstd::arithmetic::div_mod::lemma_add_mod_noop_right(raw as int, 7 * i, 256);
    assert(raw.wrapping_add(ii.wrapping_mul(7)) == (raw + 7 * i) % 256);
}

/// The digit rule: the low nibble is a decimal digit, the low nibble of the raw
/// byte moved by a drawn amount and the parity of the position; the high nibble
/// is that of the raw byte moved by three and the position modulo four.
pub proof fn lemma_digit_rule(s: Seq<u64>, raw: u8, i: int)
    requires
        0 <= i,
    ensures
        ({
            let d = draw_of(s, 6, 0, 4) % 10;
            let b = digit_byte(s, raw, i);
            &&& b % 16 == (raw % 16 + d + i % 2) % 10
            &&& b / 16 == (raw / 16 + 3 + i % 4) % 16
        }),
{
}

/// The keyed rule: positions come in runs of a drawn length. A run ends in two
/// ASCII digits and a raw byte; before that it has bytes of a key of drawn length,
/// which belongs to the chunk, XORed with a ramp.
pub proof fn lemma_keyed_rule(s: Seq<u64>, chunk: u64, raw: u8, i: int)
    requires
        0 <= i,
    ensures
        ({
            let a = (1 + draw_of(s, 6, 0, 5) % 8) as int;
            let run = (7 + draw_of(s, 6, 0, 6) % 17) as int;
            let left = run - i % run;
            let b = keyed_byte(s, chunk, raw, i);
            &&& left == 1 ==> b == raw
            &&& left == 2 || left == 3 ==> b == 48 + raw % 10
            &&& left > 3 ==> b == ((((a + 3) * i) % 256) as u8) ^ raw_byte(
                s,
                2,
                chunk,
                32,
                i % (4 * a),
            )
        }),
{
    let run = (7 + draw_of(s, 6, 0, 6) % 17) as int;
    vstd::arithmetic::div_mod::lemma_mod_bound(i, run);
}

/// Each row of the table holds, in its sixteen places, bytes with as many bits set
/// as the number of the row.
pub proof fn lemma_table_rows(row: int, k: int)
    requires
        0 <= row < 8,
        0 <= k < 16,
    ensures
        popcount(POPTBL@[row]@[k]) == row,
{
    lemma_table_row(row, k);
}

} // verus!
