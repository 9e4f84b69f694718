//! Numbers as byte strings in network order.

use vstd::prelude::*;
use crate::little_endian::pow256;

verus! {

/// The number that `s` spells, most significant byte first.
pub open spec fn be_value(s: Seq<u8>) -> nat
    decreases s.len(),
{
    if s.len() == 0 {
        0
    } else {
        256 * be_value(s.drop_last()) + s.last() as nat
    }
}

/// The `n` low bytes of `v`, most significant byte first.
pub open spec fn be_bytes(v: nat, n: nat) -> Seq<u8>
    decreases n,
{
    if n == 0 {
        Seq::empty()
    } else {
        be_bytes(v / 256, (n - 1) as nat).push((v % 256) as u8)
    }
}

/// `be_bytes` gives as many bytes as asked for.
pub proof fn lemma_be_bytes_len(v: nat, n: nat)
    ensures
        be_bytes(v, n).len() == n,
    decreases n,
{
    if n > 0 {
        lemma_be_bytes_len(v / 256, (n - 1) as nat);
    }
}

/// A byte string spells a number below `256` to its length.
pub proof fn lemma_be_value_bound(s: Seq<u8>)
    ensures
        be_value(s) < pow256(s.len()),
    decreases s.len(),
{
    if s.len() > 0 {
        lemma_be_value_bound(s.drop_last());
    }
}

/// Strings of one length that spell the same number are the same.
pub proof fn lemma_be_value_injective(a: Seq<u8>, b: Seq<u8>)
    requires
        a.len() == b.len(),
        be_value(a) == be_value(b),
    ensures
        a == b,
    decreases a.len(),
{
    if a.len() > 0 {
        lemma_be_value_injective(a.drop_last(), b.drop_last());
        assert(a =~= a.drop_last().push(a.last()));
        assert(b =~= b.drop_last().push(b.last()));
    } else {
        assert(a =~= b);
    }
}

/// Reading back the bytes of a number that fits them gives the number.
pub proof fn lemma_be_round_trip(v: nat, n: nat)
    requires
        v < pow256(n),
    ensures
        be_value(be_bytes(v, n)) == v,
    decreases n,
{
    if n > 0 {
        lemma_be_round_trip(v / 256, (n - 1) as nat);
        let s = be_bytes(v, n);
        assert(s.drop_last() =~= be_bytes(v / 256, (n - 1) as nat));
    }
}

/// The bytes of a 128-bit number.
pub(crate) fn be_bytes_of(v: u128, n: usize) -> (out: Vec<u8>)
    ensures
        out@ == be_bytes(v as nat, n as nat),
        out@.len() == n,
{
    let mut out: Vec<u8> = vec![0u8; n];
    let mut rest: u128 = v;
    let mut i: usize = n;
    proof {
        lemma_be_bytes_len(v as nat, n as nat);
        assert(be_bytes(v as nat, n as nat) + out@.skip(n as int) =~= be_bytes(
            v as nat,
            n as nat,
        ));
    }
    while i > 0
        invariant
            i <= n,
            out@.len() == n,
            be_bytes(v as nat, n as nat) == be_bytes(rest as nat, i as nat) + out@.skip(i as int),
        decreases i,
    {
        let ghost before = out@;
        let ghost high = be_bytes((rest / 256) as nat, (i - 1) as nat);
        out.set(i - 1, (rest % 256) as u8);
        proof {
            lemma_be_bytes_len((rest / 256) as nat, (i - 1) as nat);
            assert(out@.skip(i - 1) =~= seq![(rest % 256) as u8] + before.skip(i as int));
            assert(high.push((rest % 256) as u8) + before.skip(i as int) =~= high + out@.skip(
                i - 1,
            ));
        }
        rest = rest / 256;
        i = i - 1;
    }
    assert(out@.skip(0) =~= out@);
    assert(Seq::<u8>::empty() + out@ =~= out@);
    out
}

/// The number that at most 16 bytes spell.
pub(crate) fn be_value_of(s: &[u8]) -> (v: u128)
    requires
        s@.len() <= 16,
    ensures
        v == be_value(s@),
{
    let mut v: u128 = 0;
    let mut i: usize = 0;
    assert(s@.take(0) =~= Seq::<u8>::empty());
    while i < s.len()
        invariant
            i <= s@.len(),
            s@.len() <= 16,
            v == be_value(s@.take(i as int)),
        decreases s@.len() - i,
    {
        proof {
            let t = s@.take(i + 1);
            assert(t.drop_last() =~= s@.take(i as int));
            lemma_be_value_bound(s@.take(i as int));
            lemma_pow256_bound(i as nat);
        }
        v = v * 256 + s[i] as u128;
        i = i + 1;
    }
    assert(s@.take(i as int) =~= s@);
    v
}

proof fn lemma_pow256_bound(n: nat)
    requires
        n <= 15,
    ensures
        pow256(n) <= 0x1_000000_000000_000000_000000_000000,
    decreases n,
{
    reveal_with_fuel(pow256, 16);
}

/// Byte `i` of `n` in network order stands for the multiples of `256` to the
/// number of bytes behind it.
pub proof fn lemma_be_digits(v: nat, n: nat, i: int)
    requires
        0 <= i < n,
    ensures
        be_bytes(v, n).len() == n,
        be_bytes(v, n)[i] == (v as int / pow256((n - 1 - i) as nat) as int) % 256,
    decreases n,
{
    lemma_be_bytes_len(v, n);
    lemma_be_bytes_len(v / 256, (n - 1) as nat);
    if i == n - 1 {
        vstd::arithmetic::div_mod::lemma_div_basics(v as int);
        assert(pow256((n - 1 - i) as nat) == 1);
    } else {
        lemma_be_digits(v / 256, (n - 1) as nat, i);
        let p = pow256((n - 2 - i) as nat) as int;
        assert(pow256((n - 1 - i) as nat) == 256 * p);
        lemma_pow256_positive((n - 2 - i) as nat);
        vstd::arithmetic::div_mod::lemma_div_denominator(v as int, 256, p);
        assert(be_bytes(v, n)[i] == be_bytes(v / 256, (n - 1) as nat)[i]);
    }
}

proof fn lemma_pow256_positive(n: nat)
    ensures
        pow256(n) > 0,
    decreases n,
{
    if n > 0 {
        lemma_pow256_positive((n - 1) as nat);
    }
}

} // verus!
