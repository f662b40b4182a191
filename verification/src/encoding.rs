//! Shared facts about the UTF-8 encoding of character sequences.
//!
//! The contracts of this crate describe buffers as the UTF-8 encoding
//! (`vstd::utf8::encode_utf8`) of a sequence of characters. The lemmas here
//! relate the encoding of concatenations, prefixes and repetitions to the
//! encodings of their parts, which is what the buffer-writing proofs need.

use vstd::prelude::*;

verus! {

use vstd::utf8::{encode_scalar, encode_utf8, char_is_scalar};

/// The encoding of a concatenation is the concatenation of the encodings.
pub proof fn lemma_encode_utf8_concat(a: Seq<char>, b: Seq<char>)
    ensures
        encode_utf8(a + b) == encode_utf8(a) + encode_utf8(b),
    decreases a.len(),
{
    if a.len() == 0 {
        assert(a + b =~= b);
        assert(encode_utf8(a) + encode_utf8(b) =~= encode_utf8(b));
    } else {
        assert((a + b).drop_first() =~= a.drop_first() + b);
        lemma_encode_utf8_concat(a.drop_first(), b);
        assert(encode_utf8(a + b) =~= encode_utf8(a) + encode_utf8(b));
    }
}

/// A single character encodes to the encoding of its scalar value.
pub proof fn lemma_encode_utf8_singleton(c: char)
    ensures
        encode_utf8(seq![c]) == encode_scalar(c as u32),
{
    assert(seq![c].drop_first() =~= Seq::<char>::empty());
    assert(encode_utf8(Seq::<char>::empty()) =~= Seq::<u8>::empty());
    assert(seq![c][0] == c);
    assert(encode_scalar(c as u32) + Seq::<u8>::empty() =~= encode_scalar(c as u32));
}

/// Appending one character appends that character's scalar encoding.
pub proof fn lemma_encode_utf8_push(s: Seq<char>, c: char)
    ensures
        encode_utf8(s.push(c)) == encode_utf8(s) + encode_scalar(c as u32),
{
    assert(s.push(c) =~= s + seq![c]);
    lemma_encode_utf8_concat(s, seq![c]);
    lemma_encode_utf8_singleton(c);
}

/// Splitting a character sequence splits its encoding.
pub proof fn lemma_encode_utf8_split(s: Seq<char>, k: int)
    requires
        0 <= k <= s.len(),
    ensures
        encode_utf8(s) == encode_utf8(s.take(k)) + encode_utf8(s.skip(k)),
{
    assert(s =~= s.take(k) + s.skip(k));
    lemma_encode_utf8_concat(s.take(k), s.skip(k));
}

/// Every character occupies between 1 and 4 bytes.
pub proof fn lemma_scalar_len(c: char)
    ensures
        1 <= encode_scalar(c as u32).len() <= 4,
{
    char_is_scalar(c);
}

/// The encoding of `n` characters occupies between `n` and `4 * n` bytes.
pub proof fn lemma_encode_utf8_len_bounds(s: Seq<char>)
    ensures
        s.len() <= encode_utf8(s).len() <= 4 * s.len(),
    decreases s.len(),
{
    if s.len() > 0 {
        lemma_scalar_len(s[0]);
        lemma_encode_utf8_len_bounds(s.drop_first());
    }
}

/// The sequence that repeats one character `n` times.
pub open spec fn repeat_char(c: char, n: nat) -> Seq<char> {
    Seq::new(n, |i| c)
}

/// Repeating a character encodes to `n` copies of its scalar encoding.
pub proof fn lemma_encode_repeat_len(c: char, n: nat)
    ensures
        encode_utf8(repeat_char(c, n)).len() == n * encode_scalar(c as u32).len(),
    decreases n,
{
    if n == 0 {
        assert(repeat_char(c, 0) =~= Seq::<char>::empty());
    } else {
        let m = (n - 1) as nat;
        lemma_encode_repeat_len(c, m);
        assert(repeat_char(c, n) =~= repeat_char(c, m).push(c));
        lemma_encode_utf8_push(repeat_char(c, m), c);
        let l = encode_scalar(c as u32).len();
        assert(m * l + l == n * l) by (nonlinear_arith)
            requires m + 1 == n,
        ;
    }
}

/// An ASCII character encodes as the single byte of its scalar value.
pub proof fn lemma_encode_ascii_char(c: char)
    requires
        (c as u32) < 0x80,
    ensures
        encode_scalar(c as u32) == seq![(c as u32) as u8],
{
    let u = c as u32;
    assert((u & 0x7F) as u8 == u as u8) by (bit_vector)
        requires
            u < 0x80,
    ;
    assert(encode_scalar(u) =~= seq![u as u8]);
}

/// Extending a prefix of `s` by one character extends its take.
pub proof fn lemma_take_push(s: Seq<char>, k: int)
    requires
        0 <= k < s.len(),
    ensures
        s.take(k + 1) == s.take(k).push(s[k]),
{
    assert(s.take(k + 1) =~= s.take(k).push(s[k]));
}

} // verus!
