//! Exchange of bytes between a record's junk region and its payload ciphertext.
//!
//! The sender exchanges bytes at positions that follow from the profile after
//! sealing. Exchanging twice at the same positions restores both regions, so
//! the receiver runs the same routine before it authenticates the payload.

use vstd::prelude::*;
use super::profile::Profile;
use super::profile::{draw_of, param_of};

verus! {

/// Variant selector: 1 moves blocks, 0 and 2 move strided bytes.
pub open spec fn mix_mode_of(s: Seq<u64>) -> u32 {
    draw_of(s, 16, 0, 0) % 3
}

/// Number of rounds.
pub open spec fn mix_rounds_of(s: Seq<u64>) -> u32 {
    param_of(s, 17, 0, 1, 3)
}

/// Stride of round 0 of the strided variants.
pub open spec fn mix_stride_base_of(s: Seq<u64>) -> u32 {
    param_of(s, 18, 0, 2, 13)
}

/// Start offset base of the strided variants.
pub open spec fn mix_start_base_of(s: Seq<u64>) -> u32 {
    param_of(s, 19, 0, 0, 15)
}

/// Block size of the block variant.
pub open spec fn mix_block_of(s: Seq<u64>) -> u32 {
    param_of(s, 20, 0, 8, 64)
}

/// Stride of round `r`.
pub open spec fn mix_stride_of(s: Seq<u64>, r: nat) -> int {
    mix_stride_base_of(s) + r % 3
}

/// First position of round `r` in the strided variants.
pub open spec fn mix_start_of(s: Seq<u64>, chunk: u64, r: nat) -> int {
    let base = mix_start_base_of(s);
    if mix_mode_of(s) == 2 {
        base.wrapping_add(draw_of(s, 3, chunk, r as u64)) as int % mix_stride_of(s, r)
    } else {
        base as int % mix_stride_of(s, r)
    }
}

/// Whether round `r` exchanges position `o` of two regions of which the shorter
/// has `n` bytes.
#[verifier::opaque]
pub open spec fn round_moves(s: Seq<u64>, chunk: u64, n: int, r: nat, o: int) -> bool {
    if mix_mode_of(s) == 1 {
        let bs = mix_block_of(s) as int;
        &&& o < (n / bs) * bs
        &&& (o / bs) % 2 == r % 2
    } else {
        o % mix_stride_of(s, r) == mix_start_of(s, chunk, r)
    }
}

/// Whether an odd number of the first `r` rounds exchange position `o`.
pub open spec fn moved(s: Seq<u64>, chunk: u64, n: int, r: nat, o: int) -> bool
    decreases r,
{
    if r == 0 {
        false
    } else {
        moved(s, chunk, n, (r - 1) as nat, o) != round_moves(s, chunk, n, (r - 1) as nat, o)
    }
}

/// Length of the shorter of two regions.
pub open spec fn overlap(a: Seq<u8>, b: Seq<u8>) -> int {
    if a.len() <= b.len() {
        a.len() as int
    } else {
        b.len() as int
    }
}

/// `a` after the mix with `b`: the bytes of `b` at the moved positions, its own
/// bytes elsewhere.
pub open spec fn mixed(s: Seq<u64>, chunk: u64, a: Seq<u8>, b: Seq<u8>) -> Seq<u8> {
    let n = overlap(a, b);
    Seq::new(
        a.len(),
        |o: int|
            if o < n && moved(s, chunk, n, mix_rounds_of(s) as nat, o) {
                b[o]
            } else {
                a[o]
            },
    )
}

/// Mixing is its own inverse: a second mix restores both regions.
pub proof fn lemma_mix_involution(s: Seq<u64>, chunk: u64, junk: Seq<u8>, ct: Seq<u8>)
    ensures
        ({
            let j = mixed(s, chunk, junk, ct);
            let c = mixed(s, chunk, ct, junk);
            &&& mixed(s, chunk, j, c) == junk
            &&& mixed(s, chunk, c, j) == ct
        }),
{
    let j = mixed(s, chunk, junk, ct);
    let c = mixed(s, chunk, ct, junk);
    assert(mixed(s, chunk, j, c) =~= junk);
    assert(mixed(s, chunk, c, j) =~= ct);
}

/// The mix leaves both regions at their length, and neither gains nor loses a
/// byte at any position: what one region gives up there the other receives.
pub proof fn lemma_mix_exchanges(s: Seq<u64>, chunk: u64, junk: Seq<u8>, ct: Seq<u8>, o: int)
    requires
        0 <= o < overlap(junk, ct),
    ensures
        mixed(s, chunk, junk, ct).len() == junk.len(),
        mixed(s, chunk, ct, junk).len() == ct.len(),
        (mixed(s, chunk, junk, ct)[o] == junk[o] && mixed(s, chunk, ct, junk)[o] == ct[o]) || (
        mixed(s, chunk, junk, ct)[o] == ct[o] && mixed(s, chunk, ct, junk)[o] == junk[o]),
{
}

/// Positions strictly between two neighbours of a stride are off the stride.
proof fn lemma_off_stride(o: int, q: int, stride: int)
    requires
        0 <= o < q < o + stride,
    ensures
        q % stride != o % stride,
{
    assert(q % stride != o % stride) by (nonlinear_arith)
        requires
            0 <= o < q < o + stride,
    {
        let a = o / stride;
        let b = q / stride;
        assert(o == a * stride + o % stride);
        assert(q == b * stride + q % stride);
        if q % stride == o % stride {
            assert(q - o == (b - a) * stride);
        }
    }
}

proof fn lemma_next_on_stride(o: int, stride: int)
    requires
        0 <= o,
        stride > 0,
    ensures
        (o + stride) % stride == o % stride,
{
    vstd::arithmetic::div_mod::lemma_mod_add_multiples_vanish(o, stride);
}

/// In the strided variants a round reaches `o` and nothing before the next
/// position on the stride.
proof fn lemma_stride_reach(s: Seq<u64>, chunk: u64, n: int, r: nat, o: int, stride: int)
    requires
        mix_mode_of(s) != 1,
        stride == mix_stride_of(s, r),
        stride > 0,
        0 <= o,
        o % stride == mix_start_of(s, chunk, r),
    ensures
        round_moves(s, chunk, n, r, o),
        forall|q: int| o < q < o + stride ==> !round_moves(s, chunk, n, r, q),
        (o + stride) % stride == mix_start_of(s, chunk, r),
{
    reveal(round_moves);
    assert forall|q: int| o < q < o + stride implies !round_moves(s, chunk, n, r, q) by {
        lemma_off_stride(o, q, stride);
    }
    lemma_next_on_stride(o, stride);
}

/// In the strided variants a round reaches nothing before its start.
proof fn lemma_stride_start(s: Seq<u64>, chunk: u64, n: int, r: nat)
    requires
        mix_mode_of(s) != 1,
        mix_stride_of(s, r) > 0,
    ensures
        0 <= mix_start_of(s, chunk, r) < mix_stride_of(s, r),
        mix_start_of(s, chunk, r) % mix_stride_of(s, r) == mix_start_of(s, chunk, r),
        forall|q: int| 0 <= q < mix_start_of(s, chunk, r) ==> !round_moves(s, chunk, n, r, q),
{
    reveal(round_moves);
    let st = mix_stride_of(s, r);
    let start = mix_start_of(s, chunk, r);
    if mix_mode_of(s) == 2 {
        let v = mix_start_base_of(s).wrapping_add(draw_of(s, 3, chunk, r as u64)) as int;
        vstd::arithmetic::div_mod::lemma_mod_bound(v, st);
    } else {
        vstd::arithmetic::div_mod::lemma_mod_bound(mix_start_base_of(s) as int, st);
    }
    assert forall|q: int| 0 <= q < start implies !round_moves(s, chunk, n, r, q) by {
        vstd::arithmetic::div_mod::lemma_small_mod(q as nat, st as nat);
    }
    vstd::arithmetic::div_mod::lemma_small_mod(start as nat, st as nat);
}

/// In the block variant a round reaches the positions of a whole block exactly
/// when the block has the round's parity.
proof fn lemma_block_reach(s: Seq<u64>, chunk: u64, n: int, r: nat, blk: int, q: int)
    requires
        mix_mode_of(s) == 1,
        mix_block_of(s) > 0,
        blk * mix_block_of(s) <= q < (blk + 1) * mix_block_of(s),
    ensures
        blk % 2 != r % 2 ==> !round_moves(s, chunk, n, r, q),
        blk % 2 == r % 2 && q < (n / (mix_block_of(s) as int)) * mix_block_of(s) ==> round_moves(
            s,
            chunk,
            n,
            r,
            q,
        ),
{
    reveal(round_moves);
    lemma_in_block(q, blk, mix_block_of(s) as int);
}

/// In the block variant a round reaches nothing past the last whole block.
proof fn lemma_block_end(s: Seq<u64>, chunk: u64, n: int, r: nat, q: int)
    requires
        mix_mode_of(s) == 1,
        q >= (n / (mix_block_of(s) as int)) * mix_block_of(s),
    ensures
        !round_moves(s, chunk, n, r, q),
{
    reveal(round_moves);
}

proof fn lemma_in_block(q: int, blk: int, bs: int)
    requires
        bs > 0,
        blk * bs <= q < (blk + 1) * bs,
    ensures
        q / bs == blk,
{
    let d = q - blk * bs;
    assert((blk + 1) * bs == blk * bs + bs) by (nonlinear_arith);
    vstd::arithmetic::div_mod::lemma_fundamental_div_mod_converse(q, bs, blk, d);
}

/// The regions hold what the first `r` rounds, and the part of round `r` below
/// position `upto`, leave of `a0` and `b0`.
#[verifier::opaque]
spec fn mixed_up_to(
    s: Seq<u64>,
    chunk: u64,
    a0: Seq<u8>,
    b0: Seq<u8>,
    r: nat,
    upto: int,
    a: Seq<u8>,
) -> bool {
    let n = overlap(a0, b0);
    &&& a.len() == a0.len()
    &&& forall|o: int|
        0 <= o < a.len() ==> #[trigger] a[o] == (if o < n && (moved(s, chunk, n, r, o) != (
        round_moves(s, chunk, n, r, o) && o < upto)) {
            b0[o]
        } else {
            a0[o]
        })
}

/// Exchanging position `o` brings both regions to the next reached position.
proof fn lemma_exchange_step(
    s: Seq<u64>,
    chunk: u64,
    a0: Seq<u8>,
    b0: Seq<u8>,
    r: nat,
    o: int,
    next: int,
    a: Seq<u8>,
    b: Seq<u8>,
)
    requires
        mixed_up_to(s, chunk, a0, b0, r, o, a),
        mixed_up_to(s, chunk, b0, a0, r, o, b),
        0 <= o < overlap(a0, b0),
        o < next,
        round_moves(s, chunk, overlap(a0, b0), r, o),
        forall|q: int|
            o < q < next && q < overlap(a0, b0) ==> !round_moves(
                s,
                chunk,
                overlap(a0, b0),
                r,
                q,
            ),
    ensures
        mixed_up_to(s, chunk, a0, b0, r, next, a.update(o, b[o])),
        a.len() == a0.len(),
{
    reveal(mixed_up_to);
    let a1 = a.update(o, b[o]);
    let n = overlap(a0, b0);
    assert forall|q: int| 0 <= q < a1.len() implies #[trigger] a1[q] == (if q < n && (moved(
        s,
        chunk,
        n,
        r,
        q,
    ) != (round_moves(s, chunk, n, r, q) && q < next)) {
        b0[q]
    } else {
        a0[q]
    }) by {
        if q != o {
            assert(a1[q] == a[q]);
        } else {
            assert(b[o] == (if moved(s, chunk, n, r, o) {
                a0[o]
            } else {
                b0[o]
            }));
        }
    }
}

/// Positions that the round does not reach can be passed over.
proof fn lemma_skip(
    s: Seq<u64>,
    chunk: u64,
    a0: Seq<u8>,
    b0: Seq<u8>,
    r: nat,
    upto: int,
    next: int,
    a: Seq<u8>,
)
    requires
        mixed_up_to(s, chunk, a0, b0, r, upto, a),
        upto <= next,
        forall|q: int|
            upto <= q < next && q < overlap(a0, b0) ==> !round_moves(
                s,
                chunk,
                overlap(a0, b0),
                r,
                q,
            ),
    ensures
        mixed_up_to(s, chunk, a0, b0, r, next, a),
        a.len() == a0.len(),
{
    reveal(mixed_up_to);
}

proof fn lemma_finish_round(
    s: Seq<u64>,
    chunk: u64,
    a0: Seq<u8>,
    b0: Seq<u8>,
    r: nat,
    upto: int,
    a: Seq<u8>,
)
    requires
        mixed_up_to(s, chunk, a0, b0, r, upto, a),
        forall|o: int|
            upto <= o < overlap(a0, b0) ==> !round_moves(s, chunk, overlap(a0, b0), r, o),
    ensures
        mixed_up_to(s, chunk, a0, b0, r + 1, 0, a),
{
    reveal(mixed_up_to);
    let n = overlap(a0, b0);
    assert forall|o: int| 0 <= o < a.len() implies #[trigger] a[o] == (if o < n && (moved(
        s,
        chunk,
        n,
        r + 1,
        o,
    ) != (round_moves(s, chunk, n, r + 1, o) && o < 0)) {
        b0[o]
    } else {
        a0[o]
    }) by {
        assert(moved(s, chunk, n, r + 1, o) == (moved(s, chunk, n, r, o) != round_moves(
            s,
            chunk,
            n,
            r,
            o,
        )));
    }
}

fn exchange(a: &mut [u8], b: &mut [u8], o: usize)
    requires
        o < old(a)@.len(),
        o < old(b)@.len(),
    ensures
        final(a)@ == old(a)@.update(o as int, old(b)@[o as int]),
        final(b)@ == old(b)@.update(o as int, old(a)@[o as int]),
{
    let x: u8 = a[o];
    a[o] = b[o];
    b[o] = x;
}

impl Profile {
    /// Variant selector: 1 moves blocks, 0 and 2 move strided bytes.
    pub fn mix_mode(&self) -> (r: u32)
        ensures
            r == mix_mode_of(self@),
            r < 3,
    {
        self.draw(16, 0) % 3
    }

    /// Number of rounds, 1 to 3.
    pub fn mix_rounds(&self) -> (r: u32)
        ensures
            r == mix_rounds_of(self@),
            1 <= r <= 3,
    {
        self.param(17, 0, 1, 3)
    }

    /// Stride of round 0 of the strided variants, 2 to 13.
    pub fn mix_stride_base(&self) -> (r: u32)
        ensures
            r == mix_stride_base_of(self@),
            2 <= r <= 13,
    {
        self.param(18, 0, 2, 13)
    }

    /// Start offset base of the strided variants, at most 15.
    pub fn mix_start_base(&self) -> (r: u32)
        ensures
            r == mix_start_base_of(self@),
            r <= 15,
    {
        self.param(19, 0, 0, 15)
    }

    /// Block size of the block variant, 8 to 64.
    pub fn mix_block(&self) -> (r: u32)
        ensures
            r == mix_block_of(self@),
            8 <= r <= 64,
    {
        self.param(20, 0, 8, 64)
    }

    /// One round of the block variant: every other whole block changes sides.
    fn mix_blocks(
        &self,
        Ghost(chunk): Ghost<u64>,
        r: u32,
        n: usize,
        junk: &mut [u8],
        ct: &mut [u8],
        Ghost(j0): Ghost<Seq<u8>>,
        Ghost(c0): Ghost<Seq<u8>>,
    )
        requires
            mix_mode_of(self@) == 1,
            n == overlap(j0, c0),
            n == overlap(c0, j0),
            mixed_up_to(self@, chunk, j0, c0, r as nat, 0, old(junk)@),
            mixed_up_to(self@, chunk, c0, j0, r as nat, 0, old(ct)@),
        ensures
            mixed_up_to(self@, chunk, j0, c0, r as nat + 1, 0, final(junk)@),
            mixed_up_to(self@, chunk, c0, j0, r as nat + 1, 0, final(ct)@),
    {
        let bs: usize = self.mix_block() as usize;
        let nblocks: usize = n / bs;
        let mut blk: usize = (r % 2) as usize;
        proof {
            assert(nblocks * bs <= n) by (nonlinear_arith)
                requires
                    nblocks == n as int / (bs as int),
                    bs > 0,
            ;
            assert(nblocks * 8 <= nblocks * bs) by (nonlinear_arith)
                requires
                    bs >= 8,
            ;
            assert forall|q: int| 0 <= q < blk * bs implies !round_moves(
                self@,
                chunk,
                n as int,
                r as nat,
                q,
            ) by {
                lemma_block_reach(self@, chunk, n as int, r as nat, 0, q);
            }
            lemma_skip(self@, chunk, j0, c0, r as nat, 0, blk * bs, junk@);
            lemma_skip(self@, chunk, c0, j0, r as nat, 0, blk * bs, ct@);
        }
        while blk < nblocks
            invariant
                8 <= bs <= 64,
                bs == mix_block_of(self@),
                mix_mode_of(self@) == 1,
                nblocks == n as int / (bs as int),
                nblocks * bs <= n,
                nblocks <= usize::MAX / 8,
                n <= junk@.len(),
                n <= ct@.len(),
                n == overlap(j0, c0),
                n == overlap(c0, j0),
                blk % 2 == r % 2,
                blk <= nblocks + 1,
                mixed_up_to(self@, chunk, j0, c0, r as nat, blk * bs, junk@),
                mixed_up_to(self@, chunk, c0, j0, r as nat, blk * bs, ct@),
            decreases nblocks + 2 - blk,
        {
            proof {
                assert((blk + 1) * bs <= nblocks * bs) by (nonlinear_arith)
                    requires
                        blk + 1 <= nblocks,
                ;
                assert((blk + 1) * bs == blk * bs + bs) by (nonlinear_arith);
                assert((blk + 2) * bs == blk * bs + bs + bs) by (nonlinear_arith);
            }
            let base: usize = blk * bs;
            let mut i: usize = 0;
            while i < bs
                invariant
                    i <= bs,
                    8 <= bs <= 64,
                    base == blk * bs,
                    (blk + 1) * bs == base + bs,
                    base + bs <= nblocks * bs,
                    nblocks * bs <= n,
                    nblocks == n as int / (bs as int),
                    blk % 2 == r % 2,
                    bs == mix_block_of(self@),
                    mix_mode_of(self@) == 1,
                    n <= junk@.len(),
                    n <= ct@.len(),
                    n == overlap(j0, c0),
                    n == overlap(c0, j0),
                    mixed_up_to(self@, chunk, j0, c0, r as nat, base + i, junk@),
                    mixed_up_to(self@, chunk, c0, j0, r as nat, base + i, ct@),
                decreases bs - i,
            {
                let o: usize = base + i;
                proof {
                    lemma_block_reach(self@, chunk, n as int, r as nat, blk as int, o as int);
                    lemma_exchange_step(self@, chunk, j0, c0, r as nat, o as int, o + 1, junk@, ct@);
                    lemma_exchange_step(self@, chunk, c0, j0, r as nat, o as int, o + 1, ct@, junk@);
                }
                exchange(junk, ct, o);
                i = i + 1;
            }
            proof {
                assert forall|q: int| base + bs <= q < (blk + 2) * bs implies !round_moves(
                    self@,
                    chunk,
                    n as int,
                    r as nat,
                    q,
                ) by {
                    lemma_block_reach(self@, chunk, n as int, r as nat, blk + 1, q);
                }
                let next = (blk + 2) * bs;
                lemma_skip(self@, chunk, j0, c0, r as nat, base + bs, next, junk@);
                lemma_skip(self@, chunk, c0, j0, r as nat, base + bs, next, ct@);
            }
            blk = blk + 2;
        }
        proof {
            assert(nblocks * bs <= blk * bs) by (nonlinear_arith)
                requires
                    nblocks <= blk,
            ;
            assert forall|q: int| blk * bs <= q < n implies !round_moves(
                self@,
                chunk,
                n as int,
                r as nat,
                q,
            ) by {
                lemma_block_end(self@, chunk, n as int, r as nat, q);
            }
            lemma_finish_round(self@, chunk, j0, c0, r as nat, blk * bs, junk@);
            lemma_finish_round(self@, chunk, c0, j0, r as nat, blk * bs, ct@);
        }
    }

    /// One round of the strided variants: every byte on the stride changes sides.
    fn mix_strided(
        &self,
        chunk: u64,
        r: u32,
        n: usize,
        junk: &mut [u8],
        ct: &mut [u8],
        Ghost(j0): Ghost<Seq<u8>>,
        Ghost(c0): Ghost<Seq<u8>>,
    )
        requires
            mix_mode_of(self@) != 1,
            n == overlap(j0, c0),
            n == overlap(c0, j0),
            mixed_up_to(self@, chunk, j0, c0, r as nat, 0, old(junk)@),
            mixed_up_to(self@, chunk, c0, j0, r as nat, 0, old(ct)@),
        ensures
            mixed_up_to(self@, chunk, j0, c0, r as nat + 1, 0, final(junk)@),
            mixed_up_to(self@, chunk, c0, j0, r as nat + 1, 0, final(ct)@),
    {
        let stride: u32 = self.mix_stride_base() + r % 3;
        let base: u32 = self.mix_start_base();
        let start: u32 = if self.mix_mode() == 2 {
            base.wrapping_add(self.draw_b(3, chunk, r as u64)) % stride
        } else {
            base % stride
        };
        let mut o: usize = start as usize;
        let ghost mut reached: int = start as int;
        proof {
            assert(start == mix_start_of(self@, chunk, r as nat));
            lemma_stride_start(self@, chunk, n as int, r as nat);
            lemma_skip(self@, chunk, j0, c0, r as nat, 0, start as int, junk@);
            lemma_skip(self@, chunk, c0, j0, r as nat, 0, start as int, ct@);
        }
        while o < n
            invariant_except_break
                reached == o,
                o as int % stride as int == start,
            invariant
                2 <= stride <= 15,
                stride == mix_stride_of(self@, r as nat),
                start == mix_start_of(self@, chunk, r as nat),
                mix_mode_of(self@) != 1,
                n <= junk@.len(),
                n <= ct@.len(),
                n == overlap(j0, c0),
                n == overlap(c0, j0),
                mixed_up_to(self@, chunk, j0, c0, r as nat, reached, junk@),
                mixed_up_to(self@, chunk, c0, j0, r as nat, reached, ct@),
            ensures
                reached >= n,
            decreases n - o,
        {
            proof {
                lemma_stride_reach(
                    self@,
                    chunk,
                    n as int,
                    r as nat,
                    o as int,
                    stride as int,
                );
                let next = o + stride;
                lemma_exchange_step(self@, chunk, j0, c0, r as nat, o as int, next, junk@, ct@);
                lemma_exchange_step(self@, chunk, c0, j0, r as nat, o as int, next, ct@, junk@);
            }
            exchange(junk, ct, o);
            proof {
                reached = o as int + stride as int;
            }
            if n - o <= stride as usize {
                break;
            }
            o = o + stride as usize;
        }
        proof {
            lemma_finish_round(self@, chunk, j0, c0, r as nat, reached, junk@);
            lemma_finish_round(self@, chunk, c0, j0, r as nat, reached, ct@);
        }
    }

    /// Exchanges bytes between a record's junk region and its payload
    /// ciphertext. Only the first `min(junk.len(), ct.len())` bytes of either
    /// region can move.
    pub fn mix(&self, chunk: u64, junk: &mut [u8], ct: &mut [u8])
        ensures
            final(junk)@ == mixed(self@, chunk, old(junk)@, old(ct)@),
            final(ct)@ == mixed(self@, chunk, old(ct)@, old(junk)@),
    {
        let ghost j0 = junk@;
        let ghost c0 = ct@;
        let n: usize = if junk.len() <= ct.len() {
            junk.len()
        } else {
            ct.len()
        };
        let mode: u32 = self.mix_mode();
        let rounds: u32 = self.mix_rounds();
        let mut r: u32 = 0;
        proof {
            reveal(mixed_up_to);
        }
        while r < rounds
            invariant
                r <= rounds,
                rounds == mix_rounds_of(self@),
                mode == mix_mode_of(self@),
                n == overlap(j0, c0),
                n == overlap(c0, j0),
                mixed_up_to(self@, chunk, j0, c0, r as nat, 0, junk@),
                mixed_up_to(self@, chunk, c0, j0, r as nat, 0, ct@),
            decreases rounds - r,
        {
            if mode == 1 {
                self.mix_blocks(Ghost(chunk), r, n, junk, ct, Ghost(j0), Ghost(c0));
            } else {
                self.mix_strided(chunk, r, n, junk, ct, Ghost(j0), Ghost(c0));
            }
            r = r + 1;
        }
        assert(junk@ =~= mixed(self@, chunk, j0, c0));
        assert(ct@ =~= mixed(self@, chunk, c0, j0));
    }
}

/// What a profile draws for its mix.
pub proof fn lemma_mix_fields_are_drawn(s: Seq<u64>, r: nat)
    ensures
        mix_mode_of(s) == draw_of(s, 16, 0, 0) % 3,
        mix_rounds_of(s) == 1 + draw_of(s, 17, 0, 0) % 3,
        mix_stride_base_of(s) == 2 + draw_of(s, 18, 0, 0) % 12,
        mix_start_base_of(s) == draw_of(s, 19, 0, 0) % 16,
        mix_block_of(s) == 8 + draw_of(s, 20, 0, 0) % 57,
        mix_stride_of(s, r) == mix_stride_base_of(s) + r % 3,
{
}

/// In the strided variants a round exchanges every so many bytes, counted from its
/// first position. Variant 2 draws that position for the chunk and the round,
/// variant 0 has the same for all chunks.
pub proof fn lemma_strided_rounds(s: Seq<u64>, chunk: u64, n: int, r: nat, o: int)
    requires
        draw_of(s, 16, 0, 0) % 3 != 1,
        0 <= o,
    ensures
        ({
            let stride = 2 + draw_of(s, 18, 0, 0) % 12 + r % 3;
            let base = draw_of(s, 19, 0, 0) % 16;
            let first = if draw_of(s, 16, 0, 0) % 3 == 2 {
                ((base + draw_of(s, 3, chunk, r as u64)) % 0x1_0000_0000) % stride
            } else {
                (base as int) % stride
            };
            round_moves(s, chunk, n, r, o) <==> exists|q: int|
                0 <= q && o == first + #[trigger] (q * stride)
        }),
{
    reveal(round_moves);
    let stride = 2 + draw_of(s, 18, 0, 0) % 12 + r % 3;
    let base = draw_of(s, 19, 0, 0) % 16;
    let first = if draw_of(s, 16, 0, 0) % 3 == 2 {
        ((base + draw_of(s, 3, chunk, r as u64)) % 0x1_0000_0000) % stride
    } else {
        (base as int) % stride
    };
    assert(stride == mix_stride_of(s, r));
    assert(base == mix_start_base_of(s));
    assert(first == mix_start_of(s, chunk, r));
    assert(0 <= first < stride) by {
        vstd::arithmetic::div_mod::lemma_mod_bound(base as int, stride);
        vstd::arithmetic::div_mod::lemma_mod_bound(
            (base + draw_of(s, 3, chunk, r as u64)) % 0x1_0000_0000,
            stride,
        );
    }
    if o % stride == first {
        vstd::arithmetic::div_mod::lemma_fundamental_div_mod(o, stride);
        vstd::arithmetic::div_mod::lemma_div_pos_is_pos(o, stride);
        let q = o / stride;
        assert(stride * q == q * stride) by (nonlinear_arith);
        assert(o == first + q * stride);
    }
    if exists|q: int| 0 <= q && o == first + #[trigger] (q * stride) {
        let q = choose|q: int| 0 <= q && o == first + #[trigger] (q * stride);
        vstd::arithmetic::div_mod::lemma_fundamental_div_mod_converse(o, stride, q, first);
    }
}

/// In the block variant a round exchanges every other whole block, beginning with
/// the first in even rounds and with the second in odd ones. What is left over
/// behind the last whole block stays.
pub proof fn lemma_block_rounds(s: Seq<u64>, chunk: u64, n: int, r: nat, q: int, t: int)
    requires
        draw_of(s, 16, 0, 0) % 3 == 1,
        0 <= n,
        0 <= q,
        0 <= t < 8 + draw_of(s, 20, 0, 0) % 57,
    ensures
        ({
            let block = 8 + draw_of(s, 20, 0, 0) % 57;
            round_moves(s, chunk, n, r, q * block + t) <==> (q + 1) * block <= n && q % 2 == r
                % 2
        }),
{
    reveal(round_moves);
    let block = 8 + draw_of(s, 20, 0, 0) % 57;
    assert(block == mix_block_of(s));
    let o = q * block + t;
    vstd::arithmetic::div_mod::lemma_fundamental_div_mod_converse(o, block, q, t);
    assert(o / block == q);
    vstd::arithmetic::div_mod::lemma_fundamental_div_mod(n, block);
    vstd::arithmetic::div_mod::lemma_mod_bound(n, block);
    let w = n / block;
    assert(block * w == w * block) by (nonlinear_arith);
    if q < w {
        assert((q + 1) * block <= w * block) by (nonlinear_arith)
            requires
                q + 1 <= w,
                block > 0,
        ;
        assert((q + 1) * block == q * block + block) by (nonlinear_arith);
        assert(o < w * block);
    } else {
        assert(q * block >= w * block) by (nonlinear_arith)
            requires
                q >= w,
                block > 0,
        ;
        assert((q + 1) * block == q * block + block) by (nonlinear_arith);
        assert(!(o < w * block));
        assert((q + 1) * block > n);
    }
}

/// A position of both regions is exchanged if an odd number of the one to three
/// rounds exchange it. Beyond the shorter region nothing moves.
pub proof fn lemma_mixed_by_rounds(s: Seq<u64>, chunk: u64, a: Seq<u8>, b: Seq<u8>, o: int)
    requires
        0 <= o < a.len(),
    ensures
        mixed(s, chunk, a, b).len() == a.len(),
        o >= b.len() ==> mixed(s, chunk, a, b)[o] == a[o],
        o < b.len() ==> ({
            let n = if a.len() <= b.len() { a.len() as int } else { b.len() as int };
            let m0 = round_moves(s, chunk, n, 0, o);
            let m1 = round_moves(s, chunk, n, 1, o);
            let m2 = round_moves(s, chunk, n, 2, o);
            let rounds = 1 + draw_of(s, 17, 0, 0) % 3;
            let odd = if rounds == 1 {
                m0
            } else if rounds == 2 {
                m0 != m1
            } else {
                (m0 != m1) != m2
            };
            mixed(s, chunk, a, b)[o] == if odd {
                b[o]
            } else {
                a[o]
            }
        }),
{
    reveal_with_fuel(moved, 4);
}

} // verus!
