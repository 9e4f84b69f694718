//! Chunk sizes of the target to client direction.
//!
//! Reads start at 1 KB and double toward 16 KB on consecutive full reads. A
//! partial read, a sign of pressure or of the end, halves the size again.

use vstd::prelude::*;
use crate::cipher::{opened_header, sealed_chunk, sealed_header, CipherState, SnellCipher};
use crate::cipher::HDR_CT_LEN;
use crate::error::SnellError;
use crate::snell::{chunk_cap, chunk_frame, chunk_step, chunks_of, write_chunk_sized};
use crate::stream::{lemma_cutting, read_all};

verus! {

pub const SIZER_MIN: usize = 1_024;

pub const SIZER_MAX: usize = 16_384;

/// Consecutive full reads before the size doubles.
pub const RAMP_AFTER: u32 = 2;

/// Size of the next read and the streak of full reads behind it.
pub struct AdaptiveSizer {
    current: usize,
    consecutive_full: u32,
}

/// What a sizer is about to do.
#[derive(Clone, Copy, PartialEq, Eq, Structural, Debug)]
pub struct SizerState {
    pub size: usize,
    pub streak: u32,
}

impl View for AdaptiveSizer {
    type V = SizerState;

    closed spec fn view(&self) -> SizerState {
        SizerState { size: self.current, streak: self.consecutive_full }
    }
}

impl SizerState {
    /// The size is one of the five steps and the streak has not ramped yet.
    pub open spec fn wf(self) -> bool {
        &&& self.size == 1_024 || self.size == 2_048 || self.size == 4_096 || self.size == 8_192
            || self.size == 16_384
        &&& self.streak < RAMP_AFTER
    }

    /// A sizer that has seen no read yet.
    pub open spec fn start() -> SizerState {
        SizerState { size: SIZER_MIN, streak: 0 }
    }

    /// The state after a full read.
    pub open spec fn full(self) -> SizerState {
        if self.streak + 1 < RAMP_AFTER {
            SizerState { size: self.size, streak: (self.streak + 1) as u32 }
        } else {
            SizerState {
                size: if 2 * self.size <= SIZER_MAX {
                    (2 * self.size) as usize
                } else {
                    SIZER_MAX
                },
                streak: 0,
            }
        }
    }

    /// The state after a partial read.
    pub open spec fn partial(self) -> SizerState {
        SizerState {
            size: if self.size / 2 >= SIZER_MIN {
                self.size / 2
            } else {
                SIZER_MIN
            },
            streak: 0,
        }
    }

    /// The state after a read of `n` bytes.
    pub open spec fn after_read(self, n: nat) -> SizerState {
        if n >= self.size {
            self.full()
        } else {
            self.partial()
        }
    }

    /// The state after `n` full reads in a row.
    pub open spec fn after_full_reads(self, n: nat) -> SizerState
        decreases n,
    {
        if n == 0 {
            self
        } else {
            self.after_full_reads((n - 1) as nat).full()
        }
    }
}

/// Whatever a read brings, the size stays between the least and the most.
pub proof fn lemma_sizer_stays_in_range(s: SizerState, n: nat)
    requires
        s.wf(),
    ensures
        s.after_read(n).wf(),
        SIZER_MIN <= s.after_read(n).size <= SIZER_MAX,
{
}

/// Eight full reads in a row lead from the least size to the most, and further
/// ones leave it there.
pub proof fn lemma_sizer_ramps_up(n: nat)
    requires
        n >= 8,
    ensures
        SizerState::start().after_full_reads(n).size == SIZER_MAX,
        SizerState::start().after_full_reads(n).wf(),
    decreases n,
{
    if n == 8 {
        reveal_with_fuel(SizerState::after_full_reads, 9);
    } else {
        lemma_sizer_ramps_up((n - 1) as nat);
    }
}

impl AdaptiveSizer {
    /// A sizer at the least size.
    pub fn new() -> (s: AdaptiveSizer)
        ensures
            s@ == SizerState::start(),
            s@.wf(),
    {
        AdaptiveSizer { current: SIZER_MIN, consecutive_full: 0 }
    }

    /// Size of the next read.
    pub fn next_size(&self) -> (n: usize)
        ensures
            n == self@.size,
    {
        self.current
    }

    /// A read filled the asked for size.
    pub fn on_full(&mut self)
        requires
            old(self)@.wf(),
        ensures
            final(self)@ == old(self)@.full(),
            final(self)@.wf(),
    {
        self.consecutive_full = self.consecutive_full + 1;
        if self.consecutive_full >= RAMP_AFTER {
            self.consecutive_full = 0;
            self.current = if self.current * 2 <= SIZER_MAX {
                self.current * 2
            } else {
                SIZER_MAX
            };
        }
    }

    /// A read brought less than asked for.
    pub fn on_partial(&mut self)
        requires
            old(self)@.wf(),
        ensures
            final(self)@ == old(self)@.partial(),
            final(self)@.wf(),
    {
        self.consecutive_full = 0;
        self.current = if self.current / 2 >= SIZER_MIN {
            self.current / 2
        } else {
            SIZER_MIN
        };
    }
}

impl Default for AdaptiveSizer {
    fn default() -> (s: AdaptiveSizer)
        ensures
            s@ == SizerState::start(),
            s@.wf(),
    {
        AdaptiveSizer::new()
    }
}

/// What the client gets of a read that asked for `size` bytes and brought `data`:
/// plain chunks of at most that size.
pub open spec fn relayed(c: CipherState, size: usize, data: Seq<u8>) -> Seq<u8> {
    chunks_of(c, data, chunk_cap(size))
}

/// What to send the client after a read from the target, and whether the target
/// has closed.
pub struct RelayStep {
    pub wire: Vec<u8>,
    pub done: bool,
}

/// One turn of the target to client relay. `data` is what a read of at most
/// `sizer.next_size()` bytes brought. The client gets it as chunks of at most
/// the size asked for, which read back as `data`; nothing read means that the
/// target closed, and the client gets the zero chunk.
pub fn copy_t2c_adaptive(sizer: &mut AdaptiveSizer, cipher: &mut SnellCipher, data: &[u8]) -> (out:
    Result<RelayStep, SnellError>)
    requires
        old(sizer)@.wf(),
    ensures
        out is Ok,
        final(sizer)@.wf(),
        out->Ok_0.done == (data@.len() == 0),
        data@.len() == 0 ==> {
            &&& out->Ok_0.wire@ == sealed_header(old(cipher)@, Seq::empty(), 0, 0)
            &&& out->Ok_0.wire@.len() == HDR_CT_LEN
            &&& opened_header(old(cipher)@, Seq::empty(), out->Ok_0.wire@) == Ok::<
                (usize, usize),
                SnellError,
            >((0, 0))
            &&& final(cipher)@ == old(cipher)@.after(1)
            &&& final(sizer)@ == old(sizer)@
        },
        data@.len() > 0 ==> {
            &&& out->Ok_0.wire@ == chunks_of(
                old(cipher)@,
                data@,
                chunk_cap(old(sizer)@.size),
            )
            &&& out->Ok_0.wire@ == relayed(old(cipher)@, old(sizer)@.size, data@)
            &&& read_all(chunk_step(), old(cipher)@, out->Ok_0.wire@) == Some(
                (data@, final(cipher)@),
            )
            &&& final(sizer)@ == old(sizer)@.after_read(data@.len())
        },
{
    if data.len() == 0 {
        return match cipher.seal_zero() {
            Ok(wire) => Ok(RelayStep { wire, done: true }),
            Err(e) => Err(e),
        };
    }
    let cap: usize = sizer.next_size();
    if data.len() >= cap {
        sizer.on_full();
    } else {
        sizer.on_partial();
    }
    match write_chunk_sized(cipher, data, cap) {
        Ok(wire) => Ok(RelayStep { wire, done: false }),
        Err(e) => Err(e),
    }
}

/// Reads go up by doubling: the first full read in a row leaves the size, the
/// second doubles it, up to 16384 bytes.
pub proof fn lemma_two_full_reads_double(size: usize)
    requires
        (SizerState { size, streak: 0 }).wf(),
    ensures
        ({
            let once = (SizerState { size, streak: 0 }).full();
            let twice = once.full();
            &&& once.size == size && once.streak == 1
            &&& twice.size == if size < 16_384 { 2 * size } else { 16_384 }
            &&& twice.streak == 0
        }),
{
}

/// A read that brings less than asked for halves the size, down to 1024 bytes, and
/// ends any row of full reads.
pub proof fn lemma_partial_read_halves(s: SizerState, n: nat)
    requires
        s.wf(),
    ensures
        n < s.size ==> ({
            let next = s.after_read(n);
            &&& next.size == if s.size > 1024 { s.size as int / 2 } else { 1024 }
            &&& next.streak == 0
        }),
        n >= s.size ==> s.after_read(n) == s.full(),
        SizerState::start().size == 1024,
        SizerState::start().streak == 0,
{
}

/// A read goes out as one chunk if it fits the size asked for and the largest
/// chunk; a longer one begins with a chunk of the smaller of the two, behind which
/// the rest follows.
pub proof fn lemma_relayed_chunks(c: CipherState, size: usize, first: Seq<u8>, rest: Seq<u8>)
    requires
        size > 0,
        first.len() > 0,
        first.len() <= size,
        first.len() <= 16383,
    ensures
        relayed(c, size, first) == sealed_chunk(c, Seq::empty(), Seq::empty(), first),
        (first.len() == size || first.len() == 16383) && rest.len() > 0 ==> relayed(
            c,
            size,
            first + rest,
        ) == sealed_chunk(c, Seq::empty(), Seq::empty(), first) + relayed(c.after(2), size, rest),
{
    let cap = chunk_cap(size);
    assert(first.len() <= cap);
    if first.len() == cap {
        lemma_cutting(chunk_frame(), c, first, rest, cap);
    }
    assert(chunk_frame()(c, first) == (
        sealed_chunk(c, Seq::empty(), Seq::empty(), first),
        c.after(2),
    ));
}

} // verus!
