//! Reading a byte stream frame by frame.
//!
//! Every framing of the protocol is a step that takes one frame off the front of
//! a byte stream. What follows holds of any such step that does not look past
//! the frame it takes.

use vstd::prelude::*;
use crate::error::SnellError;

verus! {

/// Largest payload that one frame carries.
pub const MAX_CHUNK: usize = 0x3fff;

/// Outcome of taking one frame: what it holds (`None` marks the end of the
/// session), the bytes it spans and the reader's state behind it.
#[verifier::ext_equal]
pub struct Step<S> {
    pub result: Result<Option<Seq<u8>>, SnellError>,
    pub used: nat,
    pub next: S,
}

/// A step that hands out a payload does not depend on what follows its frame,
/// and takes at least one byte.
pub open spec fn self_delimiting<S>(step: spec_fn(S, Seq<u8>) -> Step<S>) -> bool {
    forall|st: S, a: Seq<u8>, b: Seq<u8>|
        #![trigger step(st, a + b)]
        (step(st, a).result is Ok && step(st, a).result->Ok_0 is Some) ==> {
            &&& step(st, a + b) == step(st, a)
            &&& 0 < step(st, a).used <= a.len()
        }
}

/// The payloads of all frames of `wire` in a row, and the state behind them;
/// `None` if `wire` is not a row of payload frames.
pub open spec fn read_all<S>(step: spec_fn(S, Seq<u8>) -> Step<S>, st: S, wire: Seq<u8>) -> Option<
    (Seq<u8>, S),
>
    decreases wire.len(),
{
    if wire.len() == 0 {
        Some((Seq::empty(), st))
    } else {
        let one = step(st, wire);
        match one.result {
            Ok(Some(p)) => if 0 < one.used <= wire.len() {
                match read_all(step, one.next, wire.skip(one.used as int)) {
                    Some((rest, end)) => Some((p + rest, end)),
                    None => None,
                }
            } else {
                None
            },
            _ => None,
        }
    }
}

/// A stream that is one frame reads as the payload of that frame.
pub proof fn lemma_read_one<S>(
    step: spec_fn(S, Seq<u8>) -> Step<S>,
    st: S,
    wire: Seq<u8>,
    p: Seq<u8>,
)
    requires
        step(st, wire).result == Ok::<Option<Seq<u8>>, SnellError>(Some(p)),
        step(st, wire).used == wire.len(),
        wire.len() > 0,
    ensures
        read_all(step, st, wire) == Some((p, step(st, wire).next)),
{
    let one = step(st, wire);
    assert(wire.skip(one.used as int) =~= Seq::<u8>::empty());
    assert(read_all(step, one.next, wire.skip(one.used as int)) == Some(
        (Seq::<u8>::empty(), one.next),
    ));
    assert(p + Seq::<u8>::empty() =~= p);
}

/// Reading two streams in a row is reading one after the other.
pub proof fn lemma_read_append<S>(
    step: spec_fn(S, Seq<u8>) -> Step<S>,
    st: S,
    a: Seq<u8>,
    b: Seq<u8>,
)
    requires
        self_delimiting(step),
        read_all(step, st, a) is Some,
    ensures
        read_all(step, st, a + b) == match read_all(step, read_all(step, st, a)->Some_0.1, b) {
            Some((rest, end)) => Some((read_all(step, st, a)->Some_0.0 + rest, end)),
            None => None,
        },
    decreases a.len(),
{
    if a.len() == 0 {
        assert(a + b =~= b);
        let mid = read_all(step, st, a)->Some_0;
        assert(mid == (Seq::<u8>::empty(), st));
        match read_all(step, st, b) {
            Some((rest, _)) => {
                assert(Seq::<u8>::empty() + rest =~= rest);
            },
            None => {},
        }
    } else {
        let one = step(st, a);
        let n = one.used as int;
        assert(step(st, a + b) == one);
        assert((a + b).skip(n) =~= a.skip(n) + b);
        lemma_read_append(step, one.next, a.skip(n), b);
        let p = one.result->Ok_0->Some_0;
        let tail = read_all(step, one.next, a.skip(n))->Some_0;
        match read_all(step, tail.1, b) {
            Some((rest, _)) => {
                assert(p + (tail.0 + rest) =~= (p + tail.0) + rest);
            },
            None => {},
        }
    }
}

/// Number of frames of at most `cap` bytes that `len` payload bytes are cut into.
pub open spec fn frame_count(len: nat, cap: nat) -> nat {
    ((len + cap - 1) / cap as int) as nat
}

/// Cutting off one frame, full or last, leaves one frame less.
pub proof fn lemma_frame_count_step(len: nat, n: nat, cap: nat)
    requires
        0 < n <= len,
        n <= cap,
        n == cap || n == len,
    ensures
        frame_count(len, cap) == 1 + frame_count((len - n) as nat, cap),
{
    if n == cap {
        vstd::arithmetic::div_mod::lemma_div_plus_one(len - 1, cap as int);
        assert((len - 1 + cap) / cap as int == 1 + (len - 1) / cap as int);
        assert(len - n + cap - 1 == len - 1);
    } else {
        vstd::arithmetic::div_mod::lemma_div_plus_one(len - 1, cap as int);
        vstd::arithmetic::div_mod::lemma_basic_div(len - 1, cap as int);
        vstd::arithmetic::div_mod::lemma_basic_div(cap - 1, cap as int);
    }
}

/// No bytes, no frames.
pub proof fn lemma_frame_count_zero(cap: nat)
    requires
        cap > 0,
    ensures
        frame_count(0, cap) == 0,
{
    vstd::arithmetic::div_mod::lemma_basic_div(cap - 1, cap as int);
}

/// Wire bytes of `data`, cut into frames of at most `cap` payload bytes. `frame`
/// gives the bytes of one frame and the writer's state behind it.
pub open spec fn frames_of<S>(
    frame: spec_fn(S, Seq<u8>) -> (Seq<u8>, S),
    st: S,
    data: Seq<u8>,
    cap: nat,
) -> Seq<u8>
    decreases data.len(),
{
    if data.len() == 0 || cap == 0 {
        Seq::empty()
    } else if data.len() <= cap {
        frame(st, data).0
    } else {
        frame(st, data.take(cap as int)).0 + frames_of(
            frame,
            frame(st, data.take(cap as int)).1,
            data.skip(cap as int),
            cap,
        )
    }
}

/// `out` holds the frames of the first `pos` bytes of `data` and reads back as
/// those bytes; a writer that began in state `st0` is in state `st` behind them.
#[verifier::opaque]
pub open spec fn written<S>(
    frame: spec_fn(S, Seq<u8>) -> (Seq<u8>, S),
    step: spec_fn(S, Seq<u8>) -> Step<S>,
    st0: S,
    st: S,
    data: Seq<u8>,
    cap: nat,
    pos: int,
    out: Seq<u8>,
) -> bool {
    &&& frames_of(frame, st0, data, cap) == out + frames_of(frame, st, data.skip(pos), cap)
    &&& read_all(step, st0, out) == Some((data.take(pos), st))
}

/// Nothing is written at the start.
pub proof fn lemma_write_start<S>(
    frame: spec_fn(S, Seq<u8>) -> (Seq<u8>, S),
    step: spec_fn(S, Seq<u8>) -> Step<S>,
    st: S,
    data: Seq<u8>,
    cap: nat,
)
    ensures
        written(frame, step, st, st, data, cap, 0, Seq::empty()),
{
    reveal(written);
    assert(data.skip(0) =~= data);
    assert(data.take(0) =~= Seq::<u8>::empty());
    assert(Seq::<u8>::empty() + frames_of(frame, st, data, cap) =~= frames_of(
        frame,
        st,
        data,
        cap,
    ));
}

/// With all bytes written the output is complete and reads back as the data.
pub proof fn lemma_write_end<S>(
    frame: spec_fn(S, Seq<u8>) -> (Seq<u8>, S),
    step: spec_fn(S, Seq<u8>) -> Step<S>,
    st0: S,
    st: S,
    data: Seq<u8>,
    cap: nat,
    out: Seq<u8>,
)
    requires
        written(frame, step, st0, st, data, cap, data.len() as int, out),
    ensures
        out == frames_of(frame, st0, data, cap),
        read_all(step, st0, out) == Some((data, st)),
{
    reveal(written);
    assert(data.take(data.len() as int) =~= data);
    assert(frames_of(frame, st, data.skip(data.len() as int), cap) =~= Seq::<u8>::empty());
    assert(out + Seq::<u8>::empty() =~= out);
}

/// One more frame, full or last, goes behind those of the first `pos` bytes.
pub proof fn lemma_write_step<S>(
    frame: spec_fn(S, Seq<u8>) -> (Seq<u8>, S),
    step: spec_fn(S, Seq<u8>) -> Step<S>,
    st0: S,
    st: S,
    data: Seq<u8>,
    cap: nat,
    pos: int,
    n: int,
    out: Seq<u8>,
    one: Seq<u8>,
)
    requires
        self_delimiting(step),
        0 <= pos < pos + n <= data.len(),
        n == cap || pos + n == data.len(),
        n <= cap,
        written(frame, step, st0, st, data, cap, pos, out),
        one == frame(st, data.subrange(pos, pos + n)).0,
        read_all(step, st, one) == Some(
            (data.subrange(pos, pos + n), frame(st, data.subrange(pos, pos + n)).1),
        ),
    ensures
        written(
            frame,
            step,
            st0,
            frame(st, data.subrange(pos, pos + n)).1,
            data,
            cap,
            pos + n,
            out + one,
        ),
{
    reveal(written);
    let part = data.subrange(pos, pos + n);
    let next = frame(st, part).1;
    let rest = data.skip(pos);
    let tail = frames_of(frame, next, data.skip(pos + n), cap);
    assert(part =~= rest.take(n));
    lemma_read_append(step, st0, out, one);
    assert(data.take(pos) + part =~= data.take(pos + n));
    assert(rest.skip(n) =~= data.skip(pos + n));
    if n == rest.len() {
        assert(rest =~= part);
        assert(tail =~= Seq::<u8>::empty());
    }
    assert(out + one + tail =~= out + (one + tail));
    assert(one + tail =~= frames_of(frame, st, rest, cap));
}

/// A count of frames is the least that holds the bytes.
pub proof fn lemma_frame_count_is_least(len: nat, cap: nat)
    requires
        cap > 0,
    ensures
        len <= frame_count(len, cap) * cap,
        len > 0 ==> (frame_count(len, cap) - 1) * cap < len,
{
    let n = len + cap - 1;
    let q = n / cap as int;
    vstd::arithmetic::div_mod::lemma_fundamental_div_mod(n, cap as int);
    vstd::arithmetic::div_mod::lemma_mod_bound(n, cap as int);
    vstd::arithmetic::div_mod::lemma_div_pos_is_pos(n, cap as int);
    assert(cap * q == q * cap) by (nonlinear_arith);
    assert((q - 1) * cap == q * cap - cap) by (nonlinear_arith);
}

/// No data needs no frame, data that fits one frame goes into one, and longer data
/// begins with a full one, behind which the rest is cut in the same way.
pub proof fn lemma_cutting<S>(
    frame: spec_fn(S, Seq<u8>) -> (Seq<u8>, S),
    st: S,
    full: Seq<u8>,
    rest: Seq<u8>,
    cap: nat,
)
    requires
        cap > 0,
        full.len() == cap,
    ensures
        frames_of(frame, st, Seq::empty(), cap) == Seq::<u8>::empty(),
        0 < rest.len() <= cap ==> frames_of(frame, st, rest, cap) == frame(st, rest).0,
        frames_of(frame, st, full + rest, cap) == frame(st, full).0 + frames_of(
            frame,
            frame(st, full).1,
            rest,
            cap,
        ),
{
    let data = full + rest;
    assert(data.take(cap as int) =~= full);
    assert(data.skip(cap as int) =~= rest);
    if rest.len() == 0 {
        assert(data =~= full);
        assert(frame(st, full).0 + Seq::<u8>::empty() =~= frame(st, full).0);
    }
}

} // verus!
