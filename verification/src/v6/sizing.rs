//! Lengths of record prefixes and junk regions.
//!
//! A record is padded toward a plausible packet size. Which size, and by how
//! much a record may grow, follows from the profile, the record index and the
//! payload length.

use vstd::prelude::*;
use crate::cipher::HDR_CT_LEN;
use super::frame::{frame_len_of, lemma_frame_len_bounds};
use super::profile::Profile;
use super::profile::{bound_of, draw_of, param_of};
use super::profile::HI_CAP;

verus! {

/// Most bytes by which the padding step may grow a record.
pub const PAD_CAP: u32 = 730;

pub open spec fn min_of(a: int, b: int) -> int {
    if a <= b {
        a
    } else {
        b
    }
}

/// Upper bound of the prefix length.
pub open spec fn prefix_hi_of(s: Seq<u64>) -> u32 {
    min_of(param_of(s, 14, 0, 8, 80) + param_of(s, 15, 0, 16, 160), HI_CAP as int) as u32
}

/// Lower bound of the prefix length.
pub open spec fn prefix_lo_of(s: Seq<u64>) -> u32 {
    min_of(param_of(s, 14, 0, 8, 80) as int, prefix_hi_of(s) as int) as u32
}

/// Prefix length of record `chunk`.
pub open spec fn prefix_len_of(s: Seq<u64>, chunk: u64) -> nat {
    bound_of(draw_of(s, 33, chunk, 0), prefix_lo_of(s), prefix_hi_of(s)) as nat
}

/// Upper bound of the drawn junk length.
pub open spec fn inter_hi_of(s: Seq<u64>) -> u32 {
    min_of(param_of(s, 7, 0, 24, 160) + param_of(s, 8, 0, 160, 960), PAD_CAP as int) as u32
}

/// Lower bound of the drawn junk length.
pub open spec fn inter_lo_of(s: Seq<u64>) -> u32 {
    min_of(param_of(s, 7, 0, 24, 160) as int, inter_hi_of(s) as int) as u32
}

/// Whether a record draws a junk region: early records, small payloads and
/// every so many records do.
pub open spec fn draws_junk(s: Seq<u64>, chunk: u32, payload_len: u32) -> bool {
    ||| param_of(s, 9, 0, 2, 8) > chunk
    ||| payload_len != 0 && param_of(s, 11, 0, 96, 768) >= payload_len
    ||| (chunk as int) % (param_of(s, 10, 0, 2, 11) as int) == 0
}

/// Junk length before padding.
pub open spec fn interleave_len_of(s: Seq<u64>, chunk: u32, payload_len: u32) -> u32 {
    if draws_junk(s, chunk, payload_len) {
        bound_of(draw_of(s, 34, chunk as u64, payload_len as u64), inter_lo_of(s), inter_hi_of(s))
    } else {
        0
    }
}

/// Entry `i` of the table of common packet sizes.
pub open spec fn size_entry(s: Seq<u64>, i: u64) -> int {
    param_of(s, 30, i, 320, 1460) as int
}

/// The size first picked for a record: from a table of its own for early
/// records, from the shared table later.
pub open spec fn picked_size(s: Seq<u64>, chunk: u32, total: u64) -> int {
    if param_of(s, 29, 0, 4, 8) > chunk {
        param_of(s, 31, chunk as u64, 360, 1460) as int
    } else {
        size_entry(s, (draw_of(s, 35, chunk as u64, total) % 8) as u64)
    }
}

/// Some profiles wobble the picked size by up to `j` bytes either way.
pub open spec fn wobbled_size(s: Seq<u64>, chunk: u32, cur: int) -> int {
    if draw_of(s, 28, 0, 0) % 3 == 2 {
        let j = param_of(s, 32, 0, 8, 96);
        let v = cur + (draw_of(s, 36, chunk as u64, 0) as int) % (2 * j + 1) - j;
        if v <= 0 {
            1
        } else {
            v
        }
    } else {
        cur
    }
}

/// Most bytes by which the size may be inflated: a drawn percentage of the record.
pub open spec fn inflation_cap(s: Seq<u64>, total: u64) -> int {
    min_of(param_of(s, 28, 0x504c, 8, 48) * total / 100, PAD_CAP as int)
}

/// The size deflated by half the cap, or inflated by all of it, on one drawn bit.
pub open spec fn adjusted_size(s: Seq<u64>, chunk: u32, total: u64, cur: int) -> int {
    let cap = inflation_cap(s, total);
    if draw_of(s, 35, chunk as u64, cap as u64) % 2 == 1 {
        if cap / 2 < cur {
            cur - cap / 2
        } else {
            cur
        }
    } else {
        cur + cap
    }
}

/// The size grown until it covers the record.
pub open spec fn grown_size(s: Seq<u64>, chunk: u32, total: u64, cur: int) -> int
    decreases (if total > cur { total - cur } else { 0 }),
{
    if total <= cur {
        cur
    } else {
        let t = size_entry(s, (draw_of(s, 37, chunk as u64, cur as u64) % 8) as u64);
        if cur >= t {
            grown_size(s, chunk, total, cur + inter_hi_of(s))
        } else {
            grown_size(s, chunk, total, t)
        }
    }
}

/// Packet size that a record of `total` bytes is padded toward.
pub open spec fn target_size_of(s: Seq<u64>, chunk: u32, total: u64) -> int {
    if total > 1459 {
        min_of(total as int, 0xffff)
    } else {
        let cur = wobbled_size(s, chunk, picked_size(s, chunk, total));
        grown_size(s, chunk, total, adjusted_size(s, chunk, total, cur))
    }
}

/// Least size of first frame body, prefix and junk together for a payload.
pub open spec fn first_floor(payload_len: int) -> int {
    let x = payload_len + if payload_len != 0 {
        55int
    } else {
        39int
    };
    let f = (25 * x + 74) / 75;
    if f >= 192 {
        f
    } else {
        192
    }
}

/// Junk length raised, within a cap, to reach the floor of the first record.
pub open spec fn raised_interleave(
    s: Seq<u64>,
    frame_body: int,
    prefix: int,
    interleave: int,
    payload_len: int,
) -> int {
    let seen = interleave + prefix + frame_body;
    let floor = first_floor(payload_len);
    if seen >= floor {
        interleave
    } else {
        min_of(floor - seen + interleave, inter_hi_of(s) + PAD_CAP)
    }
}

/// Bytes of a record, with the first frame for the first record.
pub open spec fn record_total(
    s: Seq<u64>,
    chunk: u32,
    payload_len: u32,
    first_record: bool,
) -> int {
    (if first_record {
        frame_len_of(s) as int
    } else {
        0
    }) + prefix_len_of(s, chunk as u64) + HDR_CT_LEN + interleave_len_of(s, chunk, payload_len)
        + payload_len + (if payload_len != 0 {
        16int
    } else {
        0
    })
}

/// Junk length after padding toward the target size.
pub open spec fn padded_interleave(
    s: Seq<u64>,
    chunk: u32,
    payload_len: u32,
    first_record: bool,
) -> int {
    let total = record_total(s, chunk, payload_len, first_record);
    let target = target_size_of(s, chunk, total as u64);
    let inter = interleave_len_of(s, chunk, payload_len) as int;
    if target > total {
        inter + min_of(target - total, PAD_CAP as int)
    } else {
        inter
    }
}

/// Junk length of a record. The sizing works on the low 32 bits of the record
/// index and of the payload length.
pub open spec fn plan_interleave_of(
    s: Seq<u64>,
    chunk: u64,
    payload_len: nat,
    first_record: bool,
) -> nat {
    let k = (chunk % 0x1_0000_0000) as u32;
    let pl = (payload_len % 0x1_0000_0000) as u32;
    let inter = padded_interleave(s, k, pl, first_record);
    (if first_record {
        raised_interleave(
            s,
            frame_len_of(s) - 16,
            prefix_len_of(s, k as u64) as int,
            inter,
            pl as int,
        )
    } else {
        inter
    }) as nat
}

/// Every prefix is 8 to 128 bytes long.
pub proof fn lemma_prefix_len_bounds(s: Seq<u64>, chunk: u64)
    ensures
        8 <= prefix_len_of(s, chunk) <= HI_CAP,
        prefix_lo_of(s) <= prefix_hi_of(s) <= HI_CAP,
{
}

proof fn lemma_inter_bounds(s: Seq<u64>)
    ensures
        24 <= inter_lo_of(s) <= inter_hi_of(s) <= PAD_CAP,
{
}

proof fn lemma_grown_covers(s: Seq<u64>, chunk: u32, total: u64, cur: int)
    ensures
        grown_size(s, chunk, total, cur) >= total,
        grown_size(s, chunk, total, cur) >= cur,
    decreases (if total > cur { total - cur } else { 0 }),
{
    if total > cur {
        lemma_inter_bounds(s);
        let t = size_entry(s, (draw_of(s, 37, chunk as u64, cur as u64) % 8) as u64);
        if cur >= t {
            lemma_grown_covers(s, chunk, total, cur + inter_hi_of(s));
        } else {
            lemma_grown_covers(s, chunk, total, t);
        }
    }
}

/// The target size covers the record: a record that fits a packet is never
/// padded toward less than its own size.
pub proof fn lemma_target_covers_record(s: Seq<u64>, chunk: u32, total: u64)
    ensures
        target_size_of(s, chunk, total) >= min_of(total as int, 0xffff),
{
    if total <= 1459 {
        let cur = wobbled_size(s, chunk, picked_size(s, chunk, total));
        lemma_grown_covers(s, chunk, total, adjusted_size(s, chunk, total, cur));
    }
}

/// A junk region never exceeds twice the padding cap, so its length always
/// fits the 16-bit field of a record header.
pub proof fn lemma_plan_interleave_bound(s: Seq<u64>, chunk: u64, payload_len: nat, first: bool)
    ensures
        plan_interleave_of(s, chunk, payload_len, first) <= 2 * PAD_CAP,
{
    lemma_inter_bounds(s);
    lemma_frame_len_bounds(s);
    lemma_prefix_len_bounds(s, (chunk % 0x1_0000_0000) as u64);
}

/// The first record together with the first frame reaches its floor, unless
/// the junk already has its largest length.
pub proof fn lemma_first_record_floor(s: Seq<u64>, payload_len: nat)
    requires
        payload_len < 0x1_0000_0000,
    ensures
        ({
            let junk = plan_interleave_of(s, 0, payload_len, true);
            ||| frame_len_of(s) - 16 + prefix_len_of(s, 0) + junk >= first_floor(payload_len as int)
            ||| junk == inter_hi_of(s) + PAD_CAP
        }),
{
    lemma_inter_bounds(s);
    lemma_frame_len_bounds(s);
}

impl Profile {
    /// Upper bound of the prefix length.
    pub fn prefix_hi(&self) -> (r: u32)
        ensures
            r == prefix_hi_of(self@),
            8 <= r <= HI_CAP,
    {
        let sum: u32 = self.param(14, 0, 8, 80) + self.param(15, 0, 16, 160);
        if sum <= HI_CAP {
            sum
        } else {
            HI_CAP
        }
    }

    /// Lower bound of the prefix length.
    pub fn prefix_lo(&self) -> (r: u32)
        ensures
            r == prefix_lo_of(self@),
            8 <= r <= prefix_hi_of(self@),
    {
        let lo: u32 = self.param(14, 0, 8, 80);
        let hi: u32 = self.prefix_hi();
        if lo <= hi {
            lo
        } else {
            hi
        }
    }

    /// Prefix length of record `chunk`.
    pub fn prefix_len(&self, chunk: u64) -> (r: usize)
        ensures
            r == prefix_len_of(self@, chunk),
            8 <= r <= HI_CAP,
    {
        let lo: u32 = self.prefix_lo();
        let hi: u32 = self.prefix_hi();
        self.bound(self.draw_b(33, chunk, 0), lo, hi) as usize
    }

    fn inter_hi(&self) -> (r: u32)
        ensures
            r == inter_hi_of(self@),
            24 <= r <= PAD_CAP,
    {
        let sum: u32 = self.param(7, 0, 24, 160) + self.param(8, 0, 160, 960);
        if sum <= PAD_CAP {
            sum
        } else {
            PAD_CAP
        }
    }

    fn inter_lo(&self) -> (r: u32)
        ensures
            r == inter_lo_of(self@),
            24 <= r <= inter_hi_of(self@),
    {
        let lo: u32 = self.param(7, 0, 24, 160);
        let hi: u32 = self.inter_hi();
        if lo <= hi {
            lo
        } else {
            hi
        }
    }

    fn should_interleave(&self, chunk: u32, payload_len: u32) -> (r: bool)
        ensures
            r == draws_junk(self@, chunk, payload_len),
    {
        if self.param(9, 0, 2, 8) > chunk {
            return true;
        }
        if payload_len != 0 && self.param(11, 0, 96, 768) >= payload_len {
            return true;
        }
        let d: u32 = self.param(10, 0, 2, 11);
        chunk % d == 0
    }

    fn interleave_len(&self, chunk: u32, payload_len: u32) -> (r: u32)
        ensures
            r == interleave_len_of(self@, chunk, payload_len),
            r <= PAD_CAP,
    {
        if !self.should_interleave(chunk, payload_len) {
            return 0;
        }
        let lo: u32 = self.inter_lo();
        let hi: u32 = self.inter_hi();
        self.bound(self.draw_b(34, chunk as u64, payload_len as u64), lo, hi)
    }

    fn size_entry(&self, word: u32) -> (r: u32)
        ensures
            r == size_entry(self@, (word % 8) as u64),
            320 <= r <= 1460,
    {
        self.param(30, (word % 8) as u64, 320, 1460)
    }

    fn wobble(&self, chunk: u32, cur: u32) -> (r: u32)
        requires
            cur <= 1460,
        ensures
            r == wobbled_size(self@, chunk, cur as int),
            r <= 1556,
    {
        if self.draw(28, 0) % 3 == 2 {
            let j: u32 = self.param(32, 0, 8, 96);
            let up: u32 = cur + self.draw_b(36, chunk as u64, 0) % (2 * j + 1);
            if up <= j {
                1
            } else {
                up - j
            }
        } else {
            cur
        }
    }

    /// Packet size that a record of `total` bytes is padded toward.
    pub fn target_size(&self, chunk: u32, total: u64) -> (r: u32)
        ensures
            r == target_size_of(self@, chunk, total),
            r <= 0xffff,
    {
        if total > 1459 {
            return if total <= 0xfffe {
                total as u32
            } else {
                0xffff
            };
        }
        let picked: u32 = if self.param(29, 0, 4, 8) > chunk {
            self.param(31, chunk as u64, 360, 1460)
        } else {
            self.size_entry(self.draw_b(35, chunk as u64, total))
        };
        let pct: u64 = self.param(28, 0x504c, 8, 48) as u64;
        proof {
            assert(pct * total <= 48 * 1459) by (nonlinear_arith)
                requires
                    pct <= 48,
                    total <= 1459,
            ;
        }
        let share: u64 = pct * total / 100;
        let cap: u32 = if share <= PAD_CAP as u64 {
            share as u32
        } else {
            PAD_CAP
        };
        let odd: bool = self.draw_b(35, chunk as u64, cap as u64) % 2 == 1;
        let wobbled: u32 = self.wobble(chunk, picked);
        let mut cur: u32 = if odd {
            if cap / 2 < wobbled {
                wobbled - cap / 2
            } else {
                wobbled
            }
        } else {
            wobbled + cap
        };
        let ghost start = cur as int;
        proof {
            assert(start == adjusted_size(self@, chunk, total, wobbled as int));
        }
        while total > cur as u64
            invariant
                total <= 1459,
                cur <= 2286,
                grown_size(self@, chunk, total, start) == grown_size(
                    self@,
                    chunk,
                    total,
                    cur as int,
                ),
            decreases (if total > cur { total - cur } else { 0 }),
        {
            let t: u32 = self.size_entry(self.draw_b(37, chunk as u64, cur as u64));
            cur = if cur >= t {
                cur + self.inter_hi()
            } else {
                t
            };
        }
        cur
    }

    fn first_record_floor(
        &self,
        frame_body: u32,
        prefix: u32,
        interleave: u32,
        payload_len: u64,
    ) -> (r: u32)
        requires
            payload_len <= u32::MAX,
            interleave <= 2 * PAD_CAP,
        ensures
            r == raised_interleave(
                self@,
                frame_body as int,
                prefix as int,
                interleave as int,
                payload_len as int,
            ),
            r <= 2 * PAD_CAP,
    {
        let x: u64 = payload_len + if payload_len != 0 {
            55
        } else {
            39
        };
        let share: u64 = (25 * x + 74) / 75;
        let floor: u64 = if share >= 192 {
            share
        } else {
            192
        };
        let seen: u64 = interleave as u64 + prefix as u64 + frame_body as u64;
        if seen >= floor {
            return interleave;
        }
        let need: u64 = floor - seen + interleave as u64;
        let most: u64 = self.inter_hi() as u64 + PAD_CAP as u64;
        if need <= most {
            need as u32
        } else {
            most as u32
        }
    }

    /// Junk length of record `chunk`. `first_record` marks the record that
    /// follows the first frame: its sizing counts the frame in and applies the
    /// floor.
    pub fn plan_interleave(&self, chunk: u64, payload_len: usize, first_record: bool) -> (r: usize)
        ensures
            r == plan_interleave_of(self@, chunk, payload_len as nat, first_record),
            r <= 2 * PAD_CAP,
    {
        let k: u32 = (chunk % 0x1_0000_0000) as u32;
        let pl: u32 = (payload_len as u64 % 0x1_0000_0000) as u32;
        let frame_len: usize = if first_record {
            self.frame_len()
        } else {
            0
        };
        let prefix: usize = self.prefix_len(k as u64);
        let drawn: u32 = self.interleave_len(k, pl);
        let tag: u64 = if pl != 0 {
            16
        } else {
            0
        };
        let total: u64 = frame_len as u64 + prefix as u64 + HDR_CT_LEN as u64 + drawn as u64
            + pl as u64 + tag;
        let target: u64 = self.target_size(k, total) as u64;
        let inter: u32 = if target > total {
            let gap: u64 = target - total;
            drawn + if gap <= PAD_CAP as u64 {
                gap as u32
            } else {
                PAD_CAP
            }
        } else {
            drawn
        };
        assert(inter == padded_interleave(self@, k, pl, first_record));
        if first_record {
            self.first_record_floor((frame_len - 16) as u32, prefix as u32, inter, pl as u64)
                as usize
        } else {
            inter as usize
        }
    }
}

/// The range of prefix lengths: it starts at 8 to 80 bytes, drawn, and spans
/// another 16 to 160, drawn, but never goes beyond 128.
pub proof fn lemma_prefix_range(s: Seq<u64>)
    ensures
        prefix_lo_of(s) == 8 + draw_of(s, 14, 0, 0) % 73,
        ({
            let end = prefix_lo_of(s) + 16 + draw_of(s, 15, 0, 0) % 145;
            prefix_hi_of(s) == if end < 128 {
                end
            } else {
                128
            }
        }),
{
}

/// The prefix length of record `k` is drawn for `k`: the low end of the range
/// plus the draw of category 33 at chunk index `k`, modulo the width of the
/// range. So two records have prefixes of one length exactly if their draws are
/// congruent.
pub proof fn lemma_prefix_len_is_drawn_per_record(s: Seq<u64>, j: u64, k: u64)
    ensures
        ({
            let width = prefix_hi_of(s) - prefix_lo_of(s) + 1;
            &&& width >= 1
            &&& prefix_len_of(s, k) == prefix_lo_of(s) + (draw_of(s, 33, k, 0) as int) % width
            &&& prefix_len_of(s, j) == prefix_len_of(s, k) <==> (draw_of(s, 33, j, 0) as int)
                % width == (draw_of(s, 33, k, 0) as int) % width
        }),
{
}

/// The range of drawn junk lengths: it starts at 24 to 160 bytes and spans another
/// 160 to 960, but never goes beyond 730.
pub proof fn lemma_junk_range(s: Seq<u64>)
    ensures
        inter_lo_of(s) == 24 + draw_of(s, 7, 0, 0) % 137,
        ({
            let end = inter_lo_of(s) + 160 + draw_of(s, 8, 0, 0) % 801;
            inter_hi_of(s) == if end < 730 {
                end
            } else {
                730
            }
        }),
{
}

/// Which records draw a junk region: the first few, those with a small payload,
/// and one in so many of all.
pub proof fn lemma_which_records_draw_junk(s: Seq<u64>, chunk: u32, payload_len: u32)
    ensures
        draws_junk(s, chunk, payload_len) <==> ({
            ||| chunk < 2 + draw_of(s, 9, 0, 0) % 7
            ||| 0 < payload_len <= 96 + draw_of(s, 11, 0, 0) % 673
            ||| exists|q: int| #[trigger] (q * (2 + draw_of(s, 10, 0, 0) % 10)) == chunk
        }),
{
    let d = (2 + draw_of(s, 10, 0, 0) % 10) as int;
    assert(param_of(s, 10, 0, 2, 11) == d);
    let x = chunk as int;
    if x % d == 0 {
        vstd::arithmetic::div_mod::lemma_fundamental_div_mod(x, d);
        let q = x / d;
        assert(d * q == q * d) by (nonlinear_arith);
        assert(q * (2 + draw_of(s, 10, 0, 0) % 10) == chunk);
    }
    if exists|q: int| #[trigger] (q * (2 + draw_of(s, 10, 0, 0) % 10)) == chunk {
        let q = choose|q: int| #[trigger] (q * (2 + draw_of(s, 10, 0, 0) % 10)) == chunk;
        vstd::arithmetic::div_mod::lemma_mod_multiples_basic(q, d);
    }
}

/// A junk region is drawn for the record and its payload length, or empty.
pub proof fn lemma_junk_len_is_drawn_per_record(
    s: Seq<u64>,
    chunk: u32,
    payload_len: u32,
)
    ensures
        !draws_junk(s, chunk, payload_len) ==> interleave_len_of(s, chunk, payload_len) == 0,
        draws_junk(s, chunk, payload_len) ==> interleave_len_of(s, chunk, payload_len)
            == inter_lo_of(s) + (draw_of(s, 34, chunk as u64, payload_len as u64) as int) % (
        inter_hi_of(s) - inter_lo_of(s) + 1),
{
    lemma_inter_bounds(s);
}

/// The size first picked for a record: the first four to eight records have sizes
/// of their own, later ones pick one of eight by a draw for record and length.
pub proof fn lemma_picked_size(s: Seq<u64>, chunk: u32, total: u64)
    ensures
        chunk < 4 + draw_of(s, 29, 0, 0) % 5 ==> picked_size(s, chunk, total) == 360 + draw_of(
            s,
            31,
            0,
            chunk as u64,
        ) % 1101,
        chunk >= 4 + draw_of(s, 29, 0, 0) % 5 ==> picked_size(s, chunk, total) == 320 + draw_of(
            s,
            30,
            0,
            (draw_of(s, 35, chunk as u64, total) % 8) as u64,
        ) % 1141,
{
}

/// One profile in three moves a picked size, by a draw for the record, up to 8 to
/// 96 bytes either way; the others leave it alone.
pub proof fn lemma_wobbled_size(s: Seq<u64>, chunk: u32, cur: int)
    requires
        cur >= 1,
    ensures
        draw_of(s, 28, 0, 0) % 3 != 2 ==> wobbled_size(s, chunk, cur) == cur,
        draw_of(s, 28, 0, 0) % 3 == 2 ==> ({
            let j = 8 + draw_of(s, 32, 0, 0) % 89;
            let moved = cur - j + (draw_of(s, 36, chunk as u64, 0) as int) % (2 * j + 1);
            &&& moved >= 1 ==> wobbled_size(s, chunk, cur) == moved
            &&& moved < 1 ==> wobbled_size(s, chunk, cur) == 1
            &&& cur - j <= moved <= cur + j
        }),
{
}

/// The cap on inflation is 8 to 48 percent of the record, rounded down, and at
/// most 730 bytes.
pub proof fn lemma_inflation_cap(s: Seq<u64>, total: u64)
    ensures
        ({
            let percent = (8 + draw_of(s, 28, 0, 0x504c) % 41) as int;
            let cap = inflation_cap(s, total);
            &&& 0 <= cap <= 730
            &&& 100 * cap <= percent * total
            &&& cap == 730 || percent * total < 100 * (cap + 1)
        }),
{
    let percent = (8 + draw_of(s, 28, 0, 0x504c) % 41) as int;
    assert(param_of(s, 28, 0x504c, 8, 48) == percent);
    assert(percent * total >= 0) by (nonlinear_arith)
        requires
            percent >= 0,
    ;
}

/// A size is inflated by the whole cap or deflated by half of it, on the low bit
/// of a draw for the record and the cap; half a cap that would eat up the size is
/// left off.
pub proof fn lemma_adjusted_size(s: Seq<u64>, chunk: u32, total: u64, cur: int)
    ensures
        ({
            let cap = inflation_cap(s, total);
            let bit = draw_of(s, 35, chunk as u64, cap as u64) % 2;
            &&& bit == 0 ==> adjusted_size(s, chunk, total, cur) == cur + cap
            &&& bit == 1 && cur > cap / 2 ==> adjusted_size(s, chunk, total, cur) == cur - cap / 2
            &&& bit == 1 && cur <= cap / 2 ==> adjusted_size(s, chunk, total, cur) == cur
        }),
{
}

/// A size that covers the record is final; one that does not gives way to one of
/// the eight common sizes, by a draw for the record and the size, or, where that
/// is no larger, grows by the most that junk may have.
pub proof fn lemma_grown_size(s: Seq<u64>, chunk: u32, total: u64, cur: int)
    ensures
        total <= cur ==> grown_size(s, chunk, total, cur) == cur,
        total > cur ==> ({
            let t = 320 + draw_of(
                s,
                30,
                0,
                (draw_of(s, 37, chunk as u64, cur as u64) % 8) as u64,
            ) % 1141;
            &&& t > cur ==> grown_size(s, chunk, total, cur) == grown_size(
                s,
                chunk,
                total,
                t as int,
            )
            &&& t <= cur ==> grown_size(s, chunk, total, cur) == grown_size(
                s,
                chunk,
                total,
                cur + inter_hi_of(s),
            )
        }),
{
}

/// The target size: a record beyond 1459 bytes keeps its size, up to 65535; a
/// smaller one gets its picked size, wobbled, adjusted and grown.
pub proof fn lemma_target_size(s: Seq<u64>, chunk: u32, total: u64)
    ensures
        1459 < total < 65535 ==> target_size_of(s, chunk, total) == total,
        total >= 65535 ==> target_size_of(s, chunk, total) == 65535,
        total <= 1459 ==> target_size_of(s, chunk, total) == grown_size(
            s,
            chunk,
            total,
            adjusted_size(
                s,
                chunk,
                total,
                wobbled_size(s, chunk, picked_size(s, chunk, total)),
            ),
        ),
{
}

/// The floor of the first record is a third of payload and overhead, rounded up,
/// and 192 bytes at least.
pub proof fn lemma_first_floor(payload_len: int)
    requires
        payload_len >= 0,
    ensures
        ({
            let x = payload_len + if payload_len > 0 { 55int } else { 39int };
            let f = first_floor(payload_len);
            &&& f >= 192
            &&& 3 * f >= x
            &&& f == 192 || 3 * (f - 1) < x
        }),
{
}

/// What the padding of a record comes to on the wire. The bytes of a record are
/// its prefix, a header of 23, its junk, its payload and, if it has any, a tag of
/// 16; for the first record the first frame counts as well. Padding takes a
/// record to its target size, but adds no more than 730 bytes and never takes any
/// away.
pub proof fn lemma_padded_record(s: Seq<u64>, chunk: u32, payload_len: u32, first_record: bool)
    ensures
        ({
            let frame = if first_record { frame_len_of(s) as int } else { 0 };
            let tag: int = if payload_len > 0 { 16 } else { 0 };
            let fixed = frame + prefix_len_of(s, chunk as u64) + 23 + payload_len + tag;
            let bare = fixed + interleave_len_of(s, chunk, payload_len);
            let target = target_size_of(s, chunk, bare as u64);
            let padded = fixed + padded_interleave(s, chunk, payload_len, first_record);
            &&& record_total(s, chunk, payload_len, first_record) == bare
            &&& target <= bare ==> padded == bare
            &&& bare < target <= bare + 730 ==> padded == target
            &&& target > bare + 730 ==> padded == bare + 730
        }),
{
}

/// The junk length of a record is that of its padded size. Only the first record
/// is raised to its floor, and only where frame body, prefix and junk fall short
/// of it; then it gets what is missing, up to 730 bytes beyond the largest drawn
/// junk. Index and payload length count modulo `2^32`.
pub proof fn lemma_planned_junk(s: Seq<u64>, chunk: u64, payload_len: nat)
    ensures
        ({
            let k = (chunk % 0x1_0000_0000) as u32;
            let pl = (payload_len % 0x1_0000_0000) as u32;
            let later = padded_interleave(s, k, pl, false);
            let inter = padded_interleave(s, k, pl, true);
            let seen = frame_len_of(s) - 16 + prefix_len_of(s, k as u64) + inter;
            let missing = first_floor(pl as int) - seen;
            let most = inter_hi_of(s) + 730;
            let first = plan_interleave_of(s, chunk, payload_len, true);
            &&& plan_interleave_of(s, chunk, payload_len, false) == later
            &&& missing <= 0 ==> first == inter
            &&& missing > 0 && inter + missing <= most ==> first == inter + missing
            &&& missing > 0 && inter + missing > most ==> first == most
        }),
{
    lemma_inter_bounds(s);
    lemma_frame_len_bounds(s);
}

} // verus!
