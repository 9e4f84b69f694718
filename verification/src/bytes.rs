//! Small helpers on byte strings.

use vstd::prelude::*;

verus! {

/// The array that holds the bytes of `s`.
pub(crate) fn to_array<const N: usize>(s: &[u8]) -> (out: [u8; N])
    requires
        s@.len() == N,
    ensures
        out@ == s@,
{
    let mut out: [u8; N] = [0u8; N];
    let mut i: usize = 0;
    while i < N
        invariant
            i <= N,
            s@.len() == N,
            forall|j: int| 0 <= j < i ==> out@[j] == s@[j],
        decreases N - i,
    {
        out[i] = s[i];
        i = i + 1;
    }
    assert(out@ =~= s@);
    out
}

} // verus!
