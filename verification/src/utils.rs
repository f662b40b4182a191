//! The UTF-8 scanner: character counting and clip-boundary search.
//!
//! The functions here walk the byte encoding of a `&str` (which vstd
//! specifies as `encode_utf8` of the string's characters) using the standard
//! leading-byte width table, and are proved to land exactly on character
//! boundaries.

use vstd::prelude::*;

verus! {

use vstd::utf8::{
    encode_scalar, encode_utf8, char_is_scalar, has_width_1_encoding, has_width_3_encoding,
    has_width_4_encoding, is_ascii_chars, is_ascii_chars_encode_utf8, is_ascii_chars_nat_bound,
    is_leading_byte_width_1, is_leading_byte_width_2, is_leading_byte_width_3,
    is_leading_byte_width_4, length_of_first_scalar, valid_first_scalar,
    encode_utf8_first_scalar,
};
use vstd::slice::slice_subrange;
use crate::encoding::{lemma_encode_utf8_push, lemma_encode_utf8_split, lemma_scalar_len,
    lemma_take_push};

/// Number of bytes the UTF-8 encoding of `c` occupies (between 1 and 4).
pub fn char_utf8_len(c: char) -> (n: usize)
    ensures
        n == encode_scalar(c as u32).len(),
        1 <= n <= 4,
{
    proof {
        char_is_scalar(c);
    }
    let u = c as u32;
    if u < 0x80 {
        1
    } else if u < 0x800 {
        2
    } else if u < 0x1_0000 {
        assert(has_width_3_encoding(u));
        3
    } else {
        assert(has_width_4_encoding(u));
        4
    }
}

/// The leading-byte bit tests used by the scanner match the byte ranges that
/// the UTF-8 width predicates are stated over.
proof fn lemma_byte_class(b: u8)
    by (bit_vector)
    ensures
        (b >> 5 == 0b110) <==> (0xc0 <= b <= 0xdf),
        (b >> 4 == 0b1110) <==> (0xe0 <= b <= 0xef),
        (b >> 3 == 0b11110) <==> (0xf0 <= b <= 0xf7),
{
}

/// Facts the scanner needs at the position just past the first `k` characters
/// of `s`: the byte there starts a well-formed scalar encoding whose length is
/// the encoded length of `s[k]`.
pub proof fn lemma_scan_step(s: Seq<char>, k: int)
    requires
        0 <= k < s.len(),
    ensures
        ({
            let pre = encode_utf8(s.take(k));
            let suf = encode_utf8(s.skip(k));
            let cl = encode_scalar(s[k] as u32).len();
            &&& encode_utf8(s) == pre + suf
            &&& 1 <= cl <= 4
            &&& pre.len() + cl <= encode_utf8(s).len()
            &&& encode_utf8(s.take(k + 1)) == pre + encode_scalar(s[k] as u32)
            &&& suf.len() > 0
            &&& valid_first_scalar(suf)
            &&& length_of_first_scalar(suf) == cl
            &&& encode_utf8(s)[pre.len() as int] == suf[0]
        }),
{
    lemma_encode_utf8_split(s, k);
    lemma_scalar_len(s[k]);
    lemma_take_push(s, k);
    lemma_encode_utf8_push(s.take(k), s[k]);
    let tail = s.skip(k);
    assert(tail[0] == s[k]);
    encode_utf8_first_scalar(tail);
    assert(encode_utf8(tail).len() >= encode_scalar(tail[0] as u32).len()) by {
        assert(tail.drop_first() =~= s.skip(k + 1));
    }
    assert(encode_utf8(s.take(k + 1)).len() <= encode_utf8(s).len()) by {
        lemma_encode_utf8_split(s, k + 1);
    }
    let pre = encode_utf8(s.take(k));
    let suf = encode_utf8(tail);
    assert(encode_utf8(s)[pre.len() as int] == suf[0]);
}

/// Width of the scalar encoding that starts the byte sequence `bytes`, read
/// off its first byte `b` with the standard leading-byte patterns.
fn leading_byte_width(b: u8, Ghost(bytes): Ghost<Seq<u8>>) -> (w: usize)
    requires
        valid_first_scalar(bytes),
        bytes.len() > 0,
        b == bytes[0],
    ensures
        w == length_of_first_scalar(bytes),
{
    proof {
        lemma_byte_class(b);
    }
    if b < 128 {
        1
    } else if b >> 5 == 0b110 {
        2
    } else if b >> 4 == 0b1110 {
        3
    } else if b >> 3 == 0b11110 {
        4
    } else {
        // a valid scalar encoding starts with one of the four leading patterns
        assert(!is_leading_byte_width_1(bytes[0]));
        assert(!is_leading_byte_width_2(bytes[0]));
        assert(!is_leading_byte_width_3(bytes[0]));
        assert(!is_leading_byte_width_4(bytes[0]));
        assert(false);
        0
    }
}

/// Counts the number of characters in a string.
pub fn count_chars(s: &str) -> (n: usize)
    ensures
        n == s@.len(),
{
    let s_bytes = s.as_bytes();
    let len = s_bytes.len();
    let mut pos: usize = 0;
    let mut char_count: usize = 0;
    while pos < len
        invariant
            s_bytes@ == encode_utf8(s@),
            len == s_bytes@.len(),
            char_count <= s@.len(),
            pos == encode_utf8(s@.take(char_count as int)).len(),
            pos <= len,
        decreases len - pos,
    {
        proof {
            if char_count == s@.len() {
                assert(s@.take(char_count as int) =~= s@);
            }
            lemma_scan_step(s@, char_count as int);
            crate::encoding::lemma_encode_utf8_len_bounds(s@);
        }
        let b = s_bytes[pos];
        let step = leading_byte_width(b, Ghost(encode_utf8(s@.skip(char_count as int))));
        pos = pos + step;
        char_count = char_count + 1;
    }
    proof {
        if char_count < s@.len() {
            lemma_scan_step(s@, char_count as int);
        }
        assert(s@.take(s@.len() as int) =~= s@);
    }
    char_count
}

/// A character whose scalar value is below `0x80` is an ASCII character.
proof fn lemma_ascii_char_range(c: char)
    requires
        (c as u32) < 0x80,
    ensures
        '\0' <= c <= '\u{7f}',
{
}

/// A character sequence whose encoding stays below `0x80` in every byte is
/// entirely ASCII: wider encodings would start with a leading byte of `0xC0`
/// or above.
proof fn lemma_all_ascii_bytes(s: Seq<char>)
    requires
        forall|i: int| 0 <= i < encode_utf8(s).len() ==> encode_utf8(s)[i] < 0x80,
    ensures
        is_ascii_chars(s),
    decreases s.len(),
{
    if s.len() > 0 {
        let u = s[0] as u32;
        char_is_scalar(s[0]);
        assert(encode_utf8(s) == encode_scalar(u) + encode_utf8(s.drop_first()));
        assert(encode_utf8(s)[0] == encode_scalar(u)[0]);
        assert(encode_utf8(s).len() >= encode_scalar(u).len()) by {
            lemma_scalar_len(s[0]);
        }
        if !has_width_1_encoding(u) {
            assert((0xC0 | ((u >> 6) & 0x1F) as u8) >= 0x80) by (bit_vector);
            assert((0xE0 | ((u >> 12) & 0x0F) as u8) >= 0x80) by (bit_vector);
            assert((0xF0 | ((u >> 18) & 0x7) as u8) >= 0x80) by (bit_vector);
            assert(false);
        }
        let rest = s.drop_first();
        assert forall|i: int| 0 <= i < encode_utf8(rest).len() implies encode_utf8(rest)[i]
            < 0x80 by {
            assert(encode_utf8(rest)[i] == encode_utf8(s)[i + 1]);
        }
        lemma_all_ascii_bytes(rest);
        lemma_ascii_char_range(s[0]);
        assert forall|i: int| 0 <= i < s.len() implies '\0' <= #[trigger] s[i] <= '\u{7f}' by {
            if i > 0 {
                assert(s[i] == rest[i - 1]);
                assert('\0' <= rest[i - 1] <= '\u{7f}');
            }
        }
    }
}

/// Byte position of the first non-ASCII byte in `s`, if any: `None` exactly
/// when the string consists entirely of ASCII chars.
pub fn first_non_ascii(s: &str) -> (r: Option<usize>)
    ensures
        r is None <==> is_ascii_chars(s@),
        r matches Some(pos) ==> pos < encode_utf8(s@).len() && encode_utf8(s@)[pos as int]
            >= 0x80 && (forall|j: int| 0 <= j < pos ==> encode_utf8(s@)[j] < 0x80),
{
    let s_bytes = s.as_bytes();
    let len = s_bytes.len();
    let mut pos: usize = 0;
    while pos < len
        invariant
            s_bytes@ == encode_utf8(s@),
            len == s_bytes@.len(),
            pos <= len,
            forall|i: int| 0 <= i < pos ==> s_bytes@[i] < 0x80,
        decreases len - pos,
    {
        if s_bytes[pos] >= 0x80 {
            proof {
                if is_ascii_chars(s@) {
                    is_ascii_chars_encode_utf8(s@);
                    is_ascii_chars_nat_bound(s@);
                    assert(s@[pos as int] as u8 == s_bytes@[pos as int]);
                    assert(false);
                }
            }
            return Some(pos);
        }
        pos = pos + 1;
    }
    proof {
        lemma_all_ascii_bytes(s@);
    }
    None
}

/// The first characters of a string, as the byte slice ending on the character
/// boundary that the clip width selects.
#[derive(Debug, Clone, Copy, PartialEq)]
pub enum ClippedStr<'a> {
    /// The string has no more than the requested number of characters; the
    /// bytes are the whole string.
    Full(&'a [u8]),
    /// The string has more characters than requested; the bytes are those of
    /// the first `char_count` characters.
    Clipped(&'a [u8]),
}

impl<'a> ClippedStr<'a> {
    /// Returns bytes corresponding to the first `char_count` chars in `s`. If `s` contains
    /// fewer chars, it is returned in full.
    pub fn new(s: &'a str, char_count: usize) -> (r: Self)
        ensures
            match r {
                ClippedStr::Full(b) => s@.len() <= char_count && b@ == encode_utf8(s@),
                ClippedStr::Clipped(b) => s@.len() > char_count && b@ == encode_utf8(
                    s@.take(char_count as int),
                ),
            },
    {
        let s_bytes = s.as_bytes();
        let len = s_bytes.len();
        let mut pos: usize = 0;
        let mut remaining = char_count;
        while pos < len && remaining > 0
            invariant
                s_bytes@ == encode_utf8(s@),
                len == s_bytes@.len(),
                remaining <= char_count,
                char_count - remaining <= s@.len(),
                pos == encode_utf8(s@.take((char_count - remaining) as int)).len(),
                pos <= len,
            decreases remaining,
        {
            let ghost k = char_count - remaining;
            proof {
                if k == s@.len() {
                    assert(s@.take(k as int) =~= s@);
                }
                lemma_scan_step(s@, k as int);
            }
            let b = s_bytes[pos];
            let step = leading_byte_width(b, Ghost(encode_utf8(s@.skip(k as int))));
            pos = pos + step;
            remaining = remaining - 1;
        }
        proof {
            let consumed = (char_count - remaining) as int;
            assert(s_bytes@.subrange(0, pos as int) =~= encode_utf8(s@.take(consumed))) by {
                lemma_encode_utf8_split(s@, consumed);
            }
            if pos == len {
                // the whole string was consumed
                if consumed < s@.len() {
                    lemma_scan_step(s@, consumed);
                }
                assert(consumed == s@.len());
                assert(s@.take(consumed) =~= s@);
            } else {
                // stopped at the clip width, with input left over
                assert(remaining == 0);
                if s@.len() <= char_count {
                    assert(consumed == s@.len()) by {
                        if consumed < s@.len() {
                            lemma_scan_step(s@, consumed);
                        }
                    }
                    assert(s@.take(consumed) =~= s@);
                    assert(false);
                }
            }
        }
        let bytes = slice_subrange(s_bytes, 0, pos);
        if pos < len {
            Self::Clipped(bytes)
        } else {
            Self::Full(bytes)
        }
    }
}

} // verus!
