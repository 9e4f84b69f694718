//! Text in and out of bytes, and configuration words.

use vstd::prelude::*;
use vstd::string::StrSliceExecFns;
use vstd::utf8::{decode_utf8, valid_utf8};

verus! {

/// Calls `String::from_utf8`.
///
/// Trusted: it accepts exactly the valid UTF-8 byte strings and returns the
/// text they encode.
#[verifier::external_body]
pub(crate) fn string_from_utf8(bytes: Vec<u8>) -> (out: Option<String>)
    ensures
        match out {
            Some(s) => valid_utf8(bytes@) && s@ == decode_utf8(bytes@),
            None => !valid_utf8(bytes@),
        },
{
    String::from_utf8(bytes).ok()
}

/// The characters with the Unicode property White_Space.
pub open spec fn is_space(c: char) -> bool {
    let u = c as u32;
    ||| 0x09 <= u <= 0x0d
    ||| u == 0x20
    ||| u == 0x85
    ||| u == 0xa0
    ||| u == 0x1680
    ||| 0x2000 <= u <= 0x200a
    ||| u == 0x2028
    ||| u == 0x2029
    ||| u == 0x202f
    ||| u == 0x205f
    ||| u == 0x3000
}

/// `s` without the white space in front.
pub open spec fn trimmed_front(s: Seq<char>) -> Seq<char>
    decreases s.len(),
{
    if s.len() > 0 && is_space(s[0]) {
        trimmed_front(s.skip(1))
    } else {
        s
    }
}

/// `s` without the white space behind.
pub open spec fn trimmed_back(s: Seq<char>) -> Seq<char>
    decreases s.len(),
{
    if s.len() > 0 && is_space(s.last()) {
        trimmed_back(s.drop_last())
    } else {
        s
    }
}

/// `s` without the white space at either end.
pub open spec fn trimmed(s: Seq<char>) -> Seq<char> {
    trimmed_back(trimmed_front(s))
}

/// `c` in lower case if it is an ASCII letter, else `c`.
pub open spec fn ascii_lower(c: char) -> char {
    if 'A' <= c && c <= 'Z' {
        ((c as u8 + 32) as u8) as char
    } else {
        c
    }
}

/// `s` with its ASCII letters in lower case.
pub open spec fn lowered(s: Seq<char>) -> Seq<char> {
    s.map_values(|c: char| ascii_lower(c))
}

/// Lowering letters neither makes nor unmakes white space.
proof fn lemma_lower_keeps_spaces(c: char)
    ensures
        is_space(ascii_lower(c)) == is_space(c),
        ascii_lower(ascii_lower(c)) == ascii_lower(c),
{
}

proof fn lemma_trim_front_lowered(s: Seq<char>)
    ensures
        trimmed_front(lowered(s)) == lowered(trimmed_front(s)),
    decreases s.len(),
{
    if s.len() > 0 {
        lemma_lower_keeps_spaces(s[0]);
        assert(lowered(s).skip(1) =~= lowered(s.skip(1)));
        lemma_trim_front_lowered(s.skip(1));
    }
}

proof fn lemma_trim_back_lowered(s: Seq<char>)
    ensures
        trimmed_back(lowered(s)) == lowered(trimmed_back(s)),
    decreases s.len(),
{
    if s.len() > 0 {
        lemma_lower_keeps_spaces(s.last());
        assert(lowered(s).drop_last() =~= lowered(s.drop_last()));
        lemma_trim_back_lowered(s.drop_last());
    }
}

/// Words that differ only in the case of ASCII letters are the same
/// configuration word.
pub proof fn lemma_words_ignore_case(s: Seq<char>, t: Seq<char>)
    requires
        lowered(s) == lowered(t),
    ensures
        lowered(trimmed(s)) == lowered(trimmed(t)),
{
    lemma_trim_front_lowered(s);
    lemma_trim_front_lowered(t);
    lemma_trim_back_lowered(trimmed_front(s));
    lemma_trim_back_lowered(trimmed_front(t));
}

proof fn lemma_trim_front_bare(s: Seq<char>, pad: Seq<char>)
    requires
        forall|i: int| 0 <= i < pad.len() ==> is_space(#[trigger] pad[i]),
    ensures
        trimmed_front(pad + s) == trimmed_front(s),
    decreases pad.len(),
{
    if pad.len() > 0 {
        assert((pad + s).skip(1) =~= pad.skip(1) + s);
        assert((pad + s)[0] == pad[0]);
        lemma_trim_front_bare(s, pad.skip(1));
    } else {
        assert(pad + s =~= s);
    }
}

/// White space in front of a word does not matter.
pub proof fn lemma_leading_space_is_ignored(s: Seq<char>, pad: Seq<char>)
    requires
        forall|i: int| 0 <= i < pad.len() ==> is_space(#[trigger] pad[i]),
    ensures
        trimmed(pad + s) == trimmed(s),
{
    lemma_trim_front_bare(s, pad);
}

fn space(c: char) -> (r: bool)
    ensures
        r == is_space(c),
{
    let u: u32 = c as u32;
    (0x09 <= u && u <= 0x0d) || u == 0x20 || u == 0x85 || u == 0xa0 || u == 0x1680 || (0x2000 <= u
        && u <= 0x200a) || u == 0x2028 || u == 0x2029 || u == 0x202f || u == 0x205f || u == 0x3000
}

fn lower(c: char) -> (r: char)
    ensures
        r == ascii_lower(c),
{
    if 'A' <= c && c <= 'Z' {
        (c as u8 + 32) as char
    } else {
        c
    }
}

/// `s` without the white space at either end.
pub(crate) fn trim(s: &str) -> (out: &str)
    ensures
        out@ == trimmed(s@),
{
    let n: usize = s.unicode_len();
    let mut lo: usize = 0;
    assert(s@.skip(0) =~= s@);
    while lo < n && space(s.get_char(lo))
        invariant
            lo <= n,
            n == s@.len(),
            trimmed_front(s@) == trimmed_front(s@.skip(lo as int)),
        decreases n - lo,
    {
        assert(s@.skip(lo as int).skip(1) =~= s@.skip(lo + 1));
        lo = lo + 1;
    }
    assert(trimmed_front(s@) == s@.skip(lo as int));
    let mut hi: usize = n;
    assert(s@.subrange(lo as int, n as int) =~= s@.skip(lo as int));
    while lo < hi && space(s.get_char(hi - 1))
        invariant
            lo <= hi <= n,
            n == s@.len(),
            trimmed(s@) == trimmed_back(s@.subrange(lo as int, hi as int)),
        decreases hi - lo,
    {
        assert(s@.subrange(lo as int, hi as int).drop_last() =~= s@.subrange(lo as int, hi - 1));
        hi = hi - 1;
    }
    s.substring_char(lo, hi)
}

/// Whether `value`, trimmed and with its ASCII letters in lower case, is `word`.
pub(crate) fn is_word(value: &str, word: &str) -> (r: bool)
    ensures
        r == (lowered(trimmed(value@)) == word@),
{
    let v: &str = trim(value);
    let n: usize = v.unicode_len();
    if n != word.unicode_len() {
        assert(lowered(v@).len() != word@.len());
        return false;
    }
    let mut i: usize = 0;
    while i < n
        invariant
            i <= n,
            v@ == trimmed(value@),
            n == v@.len(),
            n == word@.len(),
            forall|j: int| 0 <= j < i ==> ascii_lower(v@[j]) == word@[j],
        decreases n - i,
    {
        if lower(v.get_char(i)) != word.get_char(i) {
            assert(lowered(v@)[i as int] != word@[i as int]);
            return false;
        }
        i = i + 1;
    }
    assert(lowered(v@) =~= word@);
    true
}

/// The text of ASCII bytes.
pub open spec fn ascii_text(bytes: Seq<u8>) -> Seq<char> {
    bytes.map_values(|b: u8| b as char)
}

/// The text of ASCII bytes.
pub(crate) fn string_from_ascii(bytes: Vec<u8>) -> (s: String)
    requires
        forall|i: int| 0 <= i < bytes@.len() ==> bytes@[i] < 128,
    ensures
        s@ == ascii_text(bytes@),
{
    let ghost text = ascii_text(bytes@);
    proof {
        assert(vstd::utf8::is_ascii_chars(text));
        vstd::utf8::is_ascii_chars_encode_utf8(text);
        assert(vstd::utf8::encode_utf8(text) =~= bytes@);
        vstd::utf8::encode_utf8_valid_utf8(text);
        vstd::utf8::encode_utf8_decode_utf8(text);
    }
    match string_from_utf8(bytes) {
        Some(s) => s,
        None => String::new(),
    }
}

/// Trimming takes off the white space at both ends and nothing else.
pub proof fn lemma_trimmed(front: Seq<char>, core: Seq<char>, back: Seq<char>)
    requires
        forall|i: int| 0 <= i < front.len() ==> is_space(#[trigger] front[i]),
        forall|i: int| 0 <= i < back.len() ==> is_space(#[trigger] back[i]),
        core.len() > 0 ==> !is_space(core[0]) && !is_space(core.last()),
    ensures
        trimmed(front + core + back) == core,
{
    let s = core + back;
    assert(front + core + back =~= front + s);
    lemma_trim_front_bare(s, front);
    if core.len() > 0 {
        assert(s[0] == core[0]);
        assert(trimmed_front(s) == s);
        lemma_trim_back_bare(core, back);
        assert(trimmed_back(core) == core);
    } else {
        assert(s =~= back);
        lemma_trim_front_bare(Seq::empty(), back);
        assert(back + Seq::<char>::empty() =~= back);
        assert(core =~= Seq::<char>::empty());
    }
}

proof fn lemma_trim_back_bare(s: Seq<char>, pad: Seq<char>)
    requires
        forall|i: int| 0 <= i < pad.len() ==> is_space(#[trigger] pad[i]),
    ensures
        trimmed_back(s + pad) == trimmed_back(s),
    decreases pad.len(),
{
    if pad.len() > 0 {
        assert((s + pad).drop_last() =~= s + pad.drop_last());
        assert((s + pad).last() == pad.last());
        assert(is_space(pad[pad.len() - 1]));
        lemma_trim_back_bare(s, pad.drop_last());
    } else {
        assert(s + pad =~= s);
    }
}

/// Lowering changes the 26 upper-case letters, each into the lower-case letter 32
/// further on, and nothing else.
pub proof fn lemma_lowered(s: Seq<char>, i: int)
    requires
        0 <= i < s.len(),
    ensures
        lowered(s).len() == s.len(),
        65 <= s[i] as u32 <= 90 ==> lowered(s)[i] as u32 == s[i] as u32 + 32,
        !(65 <= s[i] as u32 <= 90) ==> lowered(s)[i] == s[i],
{
}

/// The text of ASCII bytes has their codes.
pub proof fn lemma_ascii_text(bytes: Seq<u8>, i: int)
    requires
        0 <= i < bytes.len(),
    ensures
        ascii_text(bytes).len() == bytes.len(),
        ascii_text(bytes)[i] as u32 == bytes[i],
{
}

/// Which characters are white space: in ASCII the blank and the five controls from
/// tab to carriage return, beyond it the nineteen that Unicode lists.
pub proof fn lemma_spaces(c: char)
    ensures
        (c as u32) < 128 ==> (is_space(c) <==> c == ' ' || 9 <= c as u32 <= 13),
        c as u32 >= 128 ==> (is_space(c) <==> ({
            let u = c as u32;
            ||| u == 133 || u == 160 || u == 5760
            ||| 8192 <= u <= 8202
            ||| u == 8232 || u == 8233 || u == 8239 || u == 8287 || u == 12288
        })),
{
}

} // verus!
