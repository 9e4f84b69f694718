//! The byte swap between a junk region and the bytes behind it.
//!
//! A sender may exchange every other byte of a junk region with the byte at the
//! same place behind it. Exchanging again undoes it.

use vstd::prelude::*;

verus! {

/// The bytes behind the junk region of `buf`, with the exchange undone.
pub open spec fn unswapped(buf: Seq<u8>, junk_len: int) -> Seq<u8> {
    Seq::new(
        (buf.len() - junk_len) as nat,
        |i: int|
            if i < junk_len && i % 2 == 0 {
                buf[i]
            } else {
                buf[junk_len + i]
            },
    )
}

/// A junk region and the bytes behind it after the exchange.
pub open spec fn swapped(junk: Seq<u8>, body: Seq<u8>) -> Seq<u8> {
    Seq::new(
        junk.len() + body.len(),
        |p: int|
            if p < junk.len() {
                if p % 2 == 0 && p < body.len() {
                    body[p]
                } else {
                    junk[p]
                }
            } else {
                let i = p - junk.len();
                if i < junk.len() && i % 2 == 0 {
                    junk[i]
                } else {
                    body[i]
                }
            },
    )
}

/// Undoing the exchange gives the bytes behind the junk back.
pub proof fn lemma_unswap_undoes_swap(junk: Seq<u8>, body: Seq<u8>)
    ensures
        unswapped(swapped(junk, body), junk.len() as int) == body,
{
    assert(unswapped(swapped(junk, body), junk.len() as int) =~= body);
}

/// The bytes behind the junk region of `buf`, with the exchange undone.
pub fn unswap(buf: &[u8], junk_len: usize) -> (out: Vec<u8>)
    requires
        junk_len <= buf@.len(),
    ensures
        out@ == unswapped(buf@, junk_len as int),
{
    let n: usize = buf.len() - junk_len;
    let mut out: Vec<u8> = Vec::new();
    let mut i: usize = 0;
    while i < n
        invariant
            i <= n,
            n == buf@.len() - junk_len,
            buf@.len() <= usize::MAX,
            out@.len() == i,
            forall|j: int| 0 <= j < i ==> out@[j] == unswapped(buf@, junk_len as int)[j],
        decreases n - i,
    {
        out.push(
            if i < junk_len && i % 2 == 0 {
                buf[i]
            } else {
                buf[junk_len + i]
            },
        );
        i = i + 1;
    }
    assert(out@ =~= unswapped(buf@, junk_len as int));
    out
}

/// The exchange concerns the places that both parts have, and of those the even
/// ones: there each part has the byte of the other, elsewhere its own.
pub proof fn lemma_even_places_are_exchanged(junk: Seq<u8>, body: Seq<u8>, i: int)
    requires
        0 <= i < junk.len(),
        i < body.len(),
    ensures
        swapped(junk, body).len() == junk.len() + body.len(),
        i % 2 == 0 ==> swapped(junk, body)[i] == body[i] && swapped(junk, body)[junk.len() + i]
            == junk[i],
        i % 2 == 1 ==> swapped(junk, body)[i] == junk[i] && swapped(junk, body)[junk.len() + i]
            == body[i],
{
}

/// Where only one part has a place, its byte stays, in both directions.
pub proof fn lemma_lone_places_stay(junk: Seq<u8>, body: Seq<u8>, i: int)
    ensures
        body.len() <= i < junk.len() ==> swapped(junk, body)[i] == junk[i],
        junk.len() <= i < body.len() ==> swapped(junk, body)[junk.len() + i] == body[i],
{
}

/// Undoing the exchange takes each byte of the body from the even places of the
/// junk region, as far as that goes, and from its own place otherwise.
pub proof fn lemma_unswapped_bytes(junk: Seq<u8>, body: Seq<u8>, i: int)
    requires
        0 <= i < body.len(),
    ensures
        unswapped(junk + body, junk.len() as int).len() == body.len(),
        i < junk.len() && i % 2 == 0 ==> unswapped(junk + body, junk.len() as int)[i] == junk[i],
        i >= junk.len() || i % 2 == 1 ==> unswapped(junk + body, junk.len() as int)[i] == body[i],
{
}

} // verus!
