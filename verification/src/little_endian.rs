//! Byte strings read as little-endian numbers.

use vstd::prelude::*;

verus! {

/// `256` to the power `n`.
pub open spec fn pow256(n: nat) -> nat
    decreases n,
{
    if n == 0 {
        1
    } else {
        256 * pow256((n - 1) as nat)
    }
}

/// The number that `s` spells, least significant byte first.
pub open spec fn le_value(s: Seq<u8>) -> nat
    decreases s.len(),
{
    if s.len() == 0 {
        0
    } else {
        s[0] as nat + 256 * le_value(s.skip(1))
    }
}

/// The `n` low bytes of `v`, least significant byte first.
pub open spec fn le_bytes(v: nat, n: nat) -> Seq<u8>
    decreases n,
{
    if n == 0 {
        Seq::empty()
    } else {
        seq![(v % 256) as u8] + le_bytes(v / 256, (n - 1) as nat)
    }
}

/// A byte string spells a number below `256` to its length.
pub proof fn lemma_le_value_bound(s: Seq<u8>)
    ensures
        le_value(s) < pow256(s.len()),
    decreases s.len(),
{
    if s.len() > 0 {
        lemma_le_value_bound(s.skip(1));
    }
}

/// Writing out the number that a byte string spells gives the string back.
pub proof fn lemma_le_round_trip(s: Seq<u8>)
    ensures
        le_bytes(le_value(s), s.len()) == s,
    decreases s.len(),
{
    if s.len() > 0 {
        let t = s.skip(1);
        lemma_le_round_trip(t);
        let v = le_value(s);
        assert(v % 256 == s[0] as nat);
        assert(v / 256 == le_value(t));
        assert(seq![s[0]] + t =~= s);
    } else {
        assert(le_bytes(le_value(s), 0) =~= s);
    }
}

/// Reading back the bytes of a number that fits them gives the number.
pub proof fn lemma_le_value_of_bytes(v: nat, n: nat)
    requires
        v < pow256(n),
    ensures
        le_bytes(v, n).len() == n,
        le_value(le_bytes(v, n)) == v,
    decreases n,
{
    if n > 0 {
        lemma_le_value_of_bytes(v / 256, (n - 1) as nat);
        assert(le_bytes(v, n).skip(1) =~= le_bytes(v / 256, (n - 1) as nat));
    }
}

/// Carry into the first byte below 255 adds one.
pub proof fn lemma_le_increment(a: Seq<u8>, b: Seq<u8>, i: int)
    requires
        a.len() == b.len(),
        0 <= i < a.len(),
        forall|j: int| 0 <= j < i ==> a[j] == 255 && b[j] == 0,
        a[i] < 255,
        b[i] == a[i] + 1,
        forall|j: int| i < j < a.len() ==> a[j] == b[j],
    ensures
        le_value(b) == le_value(a) + 1,
    decreases a.len(),
{
    if i == 0 {
        assert(a.skip(1) =~= b.skip(1));
    } else {
        assert(a[0] == 255 && b[0] == 0);
        lemma_le_increment(a.skip(1), b.skip(1), i - 1);
    }
}

/// All bytes 255 spell the largest number of their length, all zeros spell 0.
pub proof fn lemma_le_wrap(a: Seq<u8>, b: Seq<u8>)
    requires
        a.len() == b.len(),
        forall|j: int| 0 <= j < a.len() ==> a[j] == 255 && b[j] == 0,
    ensures
        le_value(a) + 1 == pow256(a.len()),
        le_value(b) == 0,
    decreases a.len(),
{
    if a.len() > 0 {
        assert(a[0] == 255 && b[0] == 0);
        lemma_le_wrap(a.skip(1), b.skip(1));
    }
}

/// Byte `i` of a number, lowest first, stands for the multiples of `256` to the
/// `i`.
pub proof fn lemma_le_digits(v: nat, n: nat, i: int)
    requires
        0 <= i < n,
    ensures
        le_bytes(v, n).len() == n,
        le_bytes(v, n)[i] == (v as int / pow256(i as nat) as int) % 256,
    decreases n,
{
    lemma_le_bytes_len(v, n);
    lemma_le_bytes_len(v / 256, (n - 1) as nat);
    if i == 0 {
        vstd::arithmetic::div_mod::lemma_div_basics(v as int);
        assert(pow256(0) == 1);
    } else {
        lemma_le_digits(v / 256, (n - 1) as nat, i - 1);
        let p = pow256((i - 1) as nat) as int;
        assert(pow256(i as nat) == 256 * p);
        lemma_power_positive((i - 1) as nat);
        vstd::arithmetic::div_mod::lemma_div_denominator(v as int, 256, p);
        assert(le_bytes(v, n)[i] == le_bytes(v / 256, (n - 1) as nat)[i - 1]);
    }
}

proof fn lemma_le_bytes_len(v: nat, n: nat)
    ensures
        le_bytes(v, n).len() == n,
    decreases n,
{
    if n > 0 {
        lemma_le_bytes_len(v / 256, (n - 1) as nat);
    }
}

proof fn lemma_power_positive(n: nat)
    ensures
        pow256(n) > 0,
    decreases n,
{
    if n > 0 {
        lemma_power_positive((n - 1) as nat);
    }
}

} // verus!
