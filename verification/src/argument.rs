//! Arguments: the tagged values a format call concatenates, and their
//! length estimation.

use vstd::prelude::*;

verus! {

use vstd::utf8::{encode_utf8, is_ascii_chars, is_ascii_chars_encode_utf8};
use crate::encoding::{lemma_encode_ascii_char, lemma_encode_utf8_concat,
    lemma_encode_utf8_len_bounds};
use crate::format::{clipped_chars, lemma_padded_bytes, padded_chars, padding_split, Fmt,
    FormatArgument, Pad, StrFormat, StrLength};
use crate::utils::{char_utf8_len, count_chars, ClippedStr};

/// The decimal digit character for `d` (`0..=9`).
pub open spec fn digit_char(d: nat) -> char
    recommends
        d < 10,
{
    ((0x30 + d) as u32) as char
}

/// Decimal representation of `v`, most significant digit first; `0` is `"0"`.
pub open spec fn dec_chars(v: nat) -> Seq<char>
    decreases v,
{
    if v < 10 {
        seq![digit_char(v)]
    } else {
        dec_chars(v / 10).push(digit_char(v % 10))
    }
}

/// Number of decimal digits of `v` (one digit for `0`).
pub open spec fn dec_len(v: nat) -> nat
    decreases v,
{
    if v < 10 {
        1
    } else {
        1 + dec_len(v / 10)
    }
}

/// Every value has at least one digit.
pub proof fn lemma_dec_len_pos(v: nat)
    ensures
        dec_len(v) >= 1,
    decreases v,
{
    if v >= 10 {
        lemma_dec_len_pos(v / 10);
    }
}

/// Decimal representation of a signed value: a minus sign for negative
/// values, then the digits of the magnitude.
pub open spec fn signed_dec_chars(v: int) -> Seq<char> {
    if v < 0 {
        seq!['-'] + dec_chars((-v) as nat)
    } else {
        dec_chars(v as nat)
    }
}

/// The decimal representation has `dec_len(v)` characters, all ASCII, so its
/// UTF-8 encoding has `dec_len(v)` bytes as well.
pub proof fn lemma_dec_chars_len(v: nat)
    ensures
        dec_chars(v).len() == dec_len(v),
        is_ascii_chars(dec_chars(v)),
        encode_utf8(dec_chars(v)).len() == dec_len(v),
    decreases v,
{
    if v < 10 {
        assert(digit_char(v) as u32 == 0x30 + v);
        assert(is_ascii_chars(dec_chars(v)));
    } else {
        lemma_dec_chars_len(v / 10);
        assert(digit_char(v % 10) as u32 == 0x30 + v % 10);
        assert(is_ascii_chars(dec_chars(v)));
    }
    is_ascii_chars_encode_utf8(dec_chars(v));
}

/// More digits are never needed for a smaller value.
pub proof fn lemma_dec_len_monotone(v: nat, w: nat)
    requires
        v <= w,
    ensures
        dec_len(v) <= dec_len(w),
    decreases w,
{
    if w >= 10 && v >= 10 {
        lemma_dec_len_monotone(v / 10, w / 10);
    } else if w >= 10 {
        lemma_dec_len_pos(w / 10);
    }
}

/// The formatted length of an integer is the length of its canonical base-10
/// representation: a sign byte for negative values plus one byte per digit of
/// the magnitude; zero formats as the single digit `0`.
pub proof fn lemma_int_formatted_len(v: i128)
    ensures
        encode_utf8(unpadded_chars(ArgumentInner::Int(v))).len() == (if v < 0 {
            1int
        } else {
            0int
        }) + dec_len(if v < 0 {
            -(v as int) as nat
        } else {
            v as nat
        }),
        dec_len(0) == 1,
        dec_chars(0) == seq!['0'],
{
    lemma_signed_dec_chars_len(v as int);
    assert(digit_char(0) as u32 == 0x30);
    assert(digit_char(0) == '0');
    assert(dec_chars(0) =~= seq!['0']);
}

/// Ten to the `k`.
pub open spec fn pow10(k: nat) -> nat
    decreases k,
{
    if k == 0 {
        1
    } else {
        10 * pow10((k - 1) as nat)
    }
}

/// A value below `pow10(k)` has at most `k` decimal digits.
proof fn lemma_dec_len_lt_pow10(v: nat, k: nat)
    requires
        v < pow10(k),
        k >= 1,
    ensures
        dec_len(v) <= k,
    decreases k,
{
    if v >= 10 {
        assert(k >= 2) by {
            reveal_with_fuel(pow10, 2);
        }
        assert(v / 10 < pow10((k - 1) as nat)) by (nonlinear_arith)
            requires
                v < 10 * pow10((k - 1) as nat),
        ;
        lemma_dec_len_lt_pow10(v / 10, (k - 1) as nat);
    }
}

/// Any `u128` has at most 39 decimal digits.
pub proof fn lemma_dec_len_u128(v: u128)
    ensures
        dec_len(v as nat) <= 39,
{
    assert(pow10(39) > u128::MAX) by {
        reveal_with_fuel(pow10, 40);
    }
    lemma_dec_len_lt_pow10(v as nat, 39);
}

/// The signed decimal representation is ASCII as well, so its byte and char
/// lengths coincide: a sign byte for negative values plus one byte per digit.
pub proof fn lemma_signed_dec_chars_len(v: int)
    ensures
        signed_dec_chars(v).len() == (if v < 0 {
            1int
        } else {
            0int
        }) + dec_len(if v < 0 {
            (-v) as nat
        } else {
            v as nat
        }),
        is_ascii_chars(signed_dec_chars(v)),
        encode_utf8(signed_dec_chars(v)).len() == signed_dec_chars(v).len(),
{
    let mag: nat = if v < 0 {
        (-v) as nat
    } else {
        v as nat
    };
    lemma_dec_chars_len(mag);
    if v < 0 {
        assert('-' as u32 == 0x2d);
        assert(is_ascii_chars(signed_dec_chars(v)));
    }
    is_ascii_chars_encode_utf8(signed_dec_chars(v));
}

/// Number of decimal digits of `value` (1 for 0): the length of its
/// canonical base-10 representation.
pub fn log_10_ceil(value: u128) -> (r: usize)
    ensures
        r == dec_len(value as nat),
        1 <= r <= 39,
{
    proof {
        lemma_dec_len_u128(value);
    }
    if value == 0 {
        return 1;
    }
    let ghost orig = value as nat;
    let mut value = value;
    let mut log: usize = 0;
    while value > 0
        invariant
            value >= 0,
            value > 0 ==> log + dec_len(value as nat) == dec_len(orig),
            value == 0 ==> log == dec_len(orig),
            log <= dec_len(orig),
            dec_len(orig) <= 39,
        decreases value,
    {
        value = value / 10;
        log = log + 1;
    }
    log
}

/// Magnitude of `value` as an unsigned value.
fn unsigned_abs_i128(value: i128) -> (r: u128)
    ensures
        r == if value < 0 {
            -(value as int)
        } else {
            value as int
        },
{
    if value >= 0 {
        value as u128
    } else if value == i128::MIN {
        (i128::MAX as u128) + 1
    } else {
        (-value) as u128
    }
}

/// The value carried by one argument of a format call.
#[derive(Debug, Clone, Copy)]
pub enum ArgumentInner<'a> {
    /// A string, with an optional clip directive.
    Str(&'a str, Option<StrFormat>),
    /// A single character.
    Char(char),
    /// A signed integer.
    Int(i128),
    /// An unsigned integer.
    UnsignedInt(u128),
}

/// The characters one argument contributes before padding: the (possibly
/// clipped) string, the char, or the decimal representation of the number.
pub open spec fn unpadded_chars(inner: ArgumentInner) -> Seq<char> {
    match inner {
        ArgumentInner::Str(s, fmt) => match fmt {
            None => s@,
            Some(f) => clipped_chars(s@, f.clip_at as nat, f.using@),
        },
        ArgumentInner::Char(c) => seq![c],
        ArgumentInner::Int(v) => signed_dec_chars(v as int),
        ArgumentInner::UnsignedInt(v) => dec_chars(v as nat),
    }
}

impl ArgumentInner<'_> {
    /// Returns the formatted length of the argument before padding, in bytes and chars.
    pub fn formatted_len(&self) -> (r: StrLength)
        requires
            encode_utf8(unpadded_chars(*self)).len() <= usize::MAX,
        ensures
            r.bytes == encode_utf8(unpadded_chars(*self)).len(),
            r.chars == unpadded_chars(*self).len(),
    {
        proof {
            lemma_encode_utf8_len_bounds(unpadded_chars(*self));
        }
        match *self {
            Self::Str(s, None) => StrLength::for_str(s),
            Self::Str(s, Some(fmt)) => match ClippedStr::new(s, fmt.clip_at) {
                ClippedStr::Full(_) => StrLength::for_str(s),
                ClippedStr::Clipped(bytes) => {
                    proof {
                        crate::encoding::lemma_encode_utf8_concat(
                            s@.take(fmt.clip_at as int),
                            fmt.using@,
                        );
                    }
                    let using_bytes = fmt.using.as_bytes();
                    StrLength {
                        bytes: bytes.len() + using_bytes.len(),
                        chars: fmt.clip_at + count_chars(fmt.using),
                    }
                },
            },
            Self::Char(c) => {
                proof {
                    crate::encoding::lemma_encode_utf8_singleton(c);
                }
                StrLength::for_char(c)
            },
            Self::Int(value) => {
                proof {
                    lemma_signed_dec_chars_len(value as int);
                }
                let sign: usize = if value < 0 {
                    1
                } else {
                    0
                };
                let bytes = sign + log_10_ceil(unsigned_abs_i128(value));
                StrLength::both(bytes)
            },
            Self::UnsignedInt(value) => {
                proof {
                    lemma_dec_chars_len(value as nat);
                }
                StrLength::both(log_10_ceil(value))
            },
        }
    }
}

/// Generalized argument: a value plus an optional padding directive.
#[derive(Debug, Clone, Copy)]
pub struct Argument<'a> {
    /// The argument's value, with its optional clip directive.
    pub inner: ArgumentInner<'a>,
    /// Optional padding directive applied around the value.
    pub pad: Option<Pad>,
}

/// The characters one argument contributes to the output.
pub open spec fn formatted_chars(arg: Argument) -> Seq<char> {
    padded_chars(unpadded_chars(arg.inner), arg.pad)
}

impl Argument<'_> {
    /// Returns the formatted length of the argument in bytes.
    pub fn formatted_len(&self) -> (n: usize)
        requires
            encode_utf8(formatted_chars(*self)).len() <= usize::MAX,
        ensures
            n == encode_utf8(formatted_chars(*self)).len(),
    {
        proof {
            let content = unpadded_chars(self.inner);
            if let Some(p) = self.pad {
                lemma_padded_bytes(content, p);
                if content.len() < p.width {
                    let fl = vstd::utf8::encode_scalar(p.using as u32).len() as int;
                    assert((p.width - content.len()) * fl >= 0) by (nonlinear_arith)
                        requires
                            content.len() < p.width,
                            fl >= 0,
                    ;
                }
            }
        }
        let non_padded_len = self.inner.formatted_len();
        if let Some(pad) = &self.pad {
            if pad.width > non_padded_len.chars {
                let pad_char_count = pad.width - non_padded_len.chars;
                pad_char_count * char_utf8_len(pad.using) + non_padded_len.bytes
            } else {
                // The non-padded string is longer than the pad width; it won't be padded
                non_padded_len.bytes
            }
        } else {
            non_padded_len.bytes
        }
    }
}

impl Argument<'_> {
    /// Returns the formatted length of the argument in bytes, or `None` when
    /// that length does not fit in `usize`.
    pub fn checked_formatted_len(&self) -> (r: Option<usize>)
        ensures
            match r {
                Some(n) => n == encode_utf8(formatted_chars(*self)).len(),
                None => encode_utf8(formatted_chars(*self)).len() > usize::MAX,
            },
    {
        let ghost content = unpadded_chars(self.inner);
        proof {
            lemma_encode_utf8_len_bounds(content);
            if let Some(p) = self.pad {
                if content.len() < p.width {
                    lemma_padded_parts(content, p);
                }
            }
            // the unpadded content never needs more bytes than the padded output
            assert(encode_utf8(content).len() <= encode_utf8(formatted_chars(*self)).len());
        }
        let non_padded_len: StrLength = match self.inner {
            ArgumentInner::Str(s, None) => StrLength::for_str(s),
            ArgumentInner::Str(s, Some(fmt)) => match ClippedStr::new(s, fmt.clip_at) {
                ClippedStr::Full(_) => StrLength::for_str(s),
                ClippedStr::Clipped(bytes) => {
                    proof {
                        lemma_encode_utf8_concat(s@.take(fmt.clip_at as int), fmt.using@);
                    }
                    let using_bytes = fmt.using.as_bytes();
                    match bytes.len().checked_add(using_bytes.len()) {
                        Some(total_bytes) => StrLength {
                            bytes: total_bytes,
                            chars: fmt.clip_at + count_chars(fmt.using),
                        },
                        None => {
                            return None;
                        },
                    }
                },
            },
            ArgumentInner::Char(c) => {
                proof {
                    crate::encoding::lemma_encode_utf8_singleton(c);
                }
                StrLength::for_char(c)
            },
            ArgumentInner::Int(value) => {
                proof {
                    lemma_signed_dec_chars_len(value as int);
                }
                let sign: usize = if value < 0 {
                    1
                } else {
                    0
                };
                StrLength::both(sign + log_10_ceil(unsigned_abs_i128(value)))
            },
            ArgumentInner::UnsignedInt(value) => {
                proof {
                    lemma_dec_chars_len(value as nat);
                }
                StrLength::both(log_10_ceil(value))
            },
        };
        proof {
            if let Some(p) = self.pad {
                if content.len() < p.width {
                    let split = padding_split(p.align, p.width as nat, content.len());
                    let fl = vstd::utf8::encode_scalar(p.using as u32).len();
                    assert(split.0 + split.1 == p.width - content.len());
                    assert((split.0 + split.1) * fl == split.0 * fl + split.1 * fl)
                        by (nonlinear_arith);
                }
            }
        }
        if let Some(pad) = &self.pad {
            if pad.width > non_padded_len.chars {
                let pad_char_count = pad.width - non_padded_len.chars;
                match pad_char_count.checked_mul(char_utf8_len(pad.using)) {
                    Some(fill_bytes) => fill_bytes.checked_add(non_padded_len.bytes),
                    None => None,
                }
            } else {
                Some(non_padded_len.bytes)
            }
        } else {
            Some(non_padded_len.bytes)
        }
    }
}

impl<const CAP: usize> crate::CompileArgs<CAP> {
    /// Writes the decimal representation of `value`, digits placed from the
    /// last position backwards.
    fn write_u128(self, value: u128) -> (r: Self)
        requires
            self.wf(),
            encode_utf8(self@).len() + dec_len(value as nat) <= CAP,
        ensures
            r.wf(),
            r@ == self@ + dec_chars(value as nat),
    {
        proof {
            self.lemma_len_is_encoded_len();
            lemma_dec_chars_len(value as nat);
        }
        let ghost orig = value as nat;
        let ghost chars0 = self@;
        let len0 = self.len;
        let digits = log_10_ceil(value);
        let new_len = len0 + digits;
        let mut buffer = self.buffer;
        let mut pos = new_len - 1;
        let mut value = value;
        let ghost mut written: Seq<char> = Seq::empty();
        proof {
            assert(encode_utf8(written) =~= Seq::<u8>::empty());
            assert(buffer@.subrange(new_len as int, new_len as int) =~= encode_utf8(written));
        }
        loop
            invariant_except_break
                buffer@.len() == CAP,
                len0 <= pos < new_len <= CAP,
                new_len == len0 + dec_len(orig),
                pos - len0 + 1 == dec_len(value as nat),
                dec_chars(orig) == dec_chars(value as nat) + written,
                buffer@.subrange(0, len0 as int) == encode_utf8(chars0),
                buffer@.subrange(pos + 1, new_len as int) == encode_utf8(written),
            ensures
                buffer@.len() == CAP,
                len0 < new_len <= CAP,
                new_len == len0 + dec_len(orig),
                buffer@.subrange(0, len0 as int) == encode_utf8(chars0),
                buffer@.subrange(len0 as int, new_len as int) == encode_utf8(dec_chars(orig)),
            decreases pos,
        {
            let ghost prev = buffer@;
            let ghost written_before = written;
            buffer[pos] = 0x30 + (value % 10) as u8;
            proof {
                let d = (value as nat) % 10;
                let c = digit_char(d);
                assert(c as u32 == 0x30 + d);
                lemma_encode_ascii_char(c);
                written = seq![c] + written;
                lemma_encode_utf8_concat(seq![c], written_before);
                crate::encoding::lemma_encode_utf8_singleton(c);
                assert(buffer@.subrange(0, len0 as int) =~= prev.subrange(0, len0 as int));
                assert(buffer@.subrange(pos as int, new_len as int) =~= encode_utf8(written));
                if value >= 10 {
                    assert(dec_chars(value as nat) =~= dec_chars((value as nat) / 10) + seq![c]);
                    assert(dec_chars((value as nat) / 10) + (seq![c] + written_before) =~= dec_chars(
                        value as nat,
                    ) + written_before);
                } else {
                    assert(dec_chars(value as nat) =~= seq![c]);
                    assert(dec_chars(orig) =~= written);
                }
            }
            if pos == len0 {
                proof {
                    // a single digit remained, so the representation is complete
                    assert(dec_len(value as nat) == 1);
                    if value >= 10 {
                        lemma_dec_len_pos((value as nat) / 10);
                    }
                    assert(value < 10);
                    assert(buffer@.subrange(len0 as int, new_len as int) =~= encode_utf8(written));
                }
                break;
            }
            value = value / 10;
            pos = pos - 1;
        }
        proof {
            lemma_encode_utf8_concat(chars0, dec_chars(orig));
            assert(buffer@.subrange(0, new_len as int) =~= encode_utf8(chars0 + dec_chars(orig)));
        }
        Self { buffer, len: new_len, chars: Ghost(chars0 + dec_chars(orig)) }
    }

    /// Writes the decimal representation of a signed value: a minus sign for
    /// negative values, then the digits of the magnitude.
    fn write_i128(self, value: i128) -> (r: Self)
        requires
            self.wf(),
            encode_utf8(self@).len() + signed_dec_chars(value as int).len() <= CAP,
        ensures
            r.wf(),
            r@ == self@ + signed_dec_chars(value as int),
    {
        proof {
            lemma_signed_dec_chars_len(value as int);
            if value < 0 {
                crate::encoding::lemma_encode_ascii_char('-');
                crate::encoding::lemma_encode_utf8_push(self@, '-');
            }
        }
        let this = if value < 0 {
            self.write_char('-')
        } else {
            self
        };
        let r = this.write_u128(unsigned_abs_i128(value));
        proof {
            if value < 0 {
                assert(r@ =~= self@ + signed_dec_chars(value as int));
            }
        }
        r
    }

    /// Formats one argument: fill characters before, the (possibly clipped)
    /// content, fill characters after, as the padding directive demands.
    pub(crate) fn format_arg(self, arg: Argument<'_>) -> (r: Self)
        requires
            self.wf(),
            encode_utf8(self@).len() + encode_utf8(formatted_chars(arg)).len() <= CAP,
        ensures
            r.wf(),
            r@ == self@ + formatted_chars(arg),
    {
        let ghost content = unpadded_chars(arg.inner);
        let ghost formatted = formatted_chars(arg);
        proof {
            if let Some(p) = arg.pad {
                if content.len() < p.width {
                    lemma_padded_parts(content, p);
                }
            }
            // the unpadded content never needs more bytes than the padded output
            assert(encode_utf8(content).len() <= encode_utf8(formatted).len());
        }
        let mut this = self;
        let pad_after: Option<(usize, char)> = if let Some(pad) = &arg.pad {
            let non_padded_len = arg.inner.formatted_len();
            if pad.width > non_padded_len.chars {
                let (pad_before, pad_after) = pad.compute_padding(non_padded_len.chars);
                this = this.write_fill(pad_before, pad.using);
                Some((pad_after, pad.using))
            } else {
                None
            }
        } else {
            None
        };
        proof {
            // budget for the content write: what was already written plus the
            // content and the closing fill stays within the planned total
            if let Some(p) = arg.pad {
                if content.len() < p.width {
                    let split = padding_split(p.align, p.width as nat, content.len());
                    lemma_encode_utf8_concat(self@, crate::encoding::repeat_char(p.using, split.0));
                    crate::encoding::lemma_encode_repeat_len(p.using, split.0);
                }
            }
            match arg.inner {
                ArgumentInner::Str(s, fmt) => {},
                ArgumentInner::Char(c) => {
                    crate::encoding::lemma_encode_utf8_singleton(c);
                },
                ArgumentInner::Int(value) => {
                    lemma_signed_dec_chars_len(value as int);
                },
                ArgumentInner::UnsignedInt(value) => {
                    lemma_dec_chars_len(value as nat);
                },
            }
        }
        this = match arg.inner {
            ArgumentInner::Str(s, fmt) => this.write_str(s, fmt),
            // chars and ints are not affected by format so far (i.e., not clipped)
            ArgumentInner::Char(c) => this.write_char(c),
            ArgumentInner::Int(value) => this.write_i128(value),
            ArgumentInner::UnsignedInt(value) => this.write_u128(value),
        };
        proof {
            if let Some(p) = arg.pad {
                if content.len() < p.width {
                    let split = padding_split(p.align, p.width as nat, content.len());
                    lemma_encode_utf8_concat(
                        self@ + crate::encoding::repeat_char(p.using, split.0),
                        content,
                    );
                }
            }
        }
        if let Some((pad_after, using)) = pad_after {
            proof {
                let p = arg.pad->Some_0;
                let split = padding_split(p.align, p.width as nat, content.len());
                let fl = vstd::utf8::encode_scalar(p.using as u32).len();
                assert(content.len() < p.width);
                assert(pad_after == split.1);
                assert(using == p.using);
                assert(this@ == (self@ + crate::encoding::repeat_char(p.using, split.0))
                    + content);
                assert(encode_utf8(self@ + crate::encoding::repeat_char(p.using, split.0)).len()
                    == encode_utf8(self@).len() + split.0 * fl);
                assert(encode_utf8(this@).len() == encode_utf8(self@).len() + split.0 * fl
                    + encode_utf8(content).len());
                assert(encode_utf8(formatted).len() == split.0 * fl + encode_utf8(content).len()
                    + split.1 * fl);
            }
            this = this.write_fill(pad_after, using);
        }
        proof {
            assert(this@ =~= self@ + formatted);
        }
        this
    }
}

/// Padded content splits into the fill characters before, the content, and
/// the fill characters after; its encoded length splits accordingly.
proof fn lemma_padded_parts(content: Seq<char>, p: Pad)
    requires
        content.len() < p.width,
    ensures
        ({
            let split = padding_split(p.align, p.width as nat, content.len());
            let fl = vstd::utf8::encode_scalar(p.using as u32).len();
            &&& padded_chars(content, Some(p)) == crate::encoding::repeat_char(p.using, split.0)
                + content + crate::encoding::repeat_char(p.using, split.1)
            &&& encode_utf8(padded_chars(content, Some(p))).len() == split.0 * fl + encode_utf8(
                content,
            ).len() + split.1 * fl
        }),
{
    let split = padding_split(p.align, p.width as nat, content.len());
    let before = crate::encoding::repeat_char(p.using, split.0);
    let after = crate::encoding::repeat_char(p.using, split.1);
    lemma_encode_utf8_concat(before + content, after);
    lemma_encode_utf8_concat(before, content);
    crate::encoding::lemma_encode_repeat_len(p.using, split.0);
    crate::encoding::lemma_encode_repeat_len(p.using, split.1);
}

/// ASCII string wrapper.
///
/// This wrapper is useful for strings known to consist entirely of ASCII
/// chars. It decreases capacity requirements: in the general case, capacity
/// planning must assume that each char in a string can require up to 4 bytes;
/// for `Ascii` strings, this is reduced to 1 byte per char.
#[derive(Debug, Clone, Copy, Default, PartialEq, Eq, Hash)]
pub struct Ascii<'a>(pub &'a str);

impl<'a> Ascii<'a> {
    /// Wraps the provided string; it must consist entirely of ASCII chars.
    pub fn new(s: &'a str) -> (r: Self)
        requires
            is_ascii_chars(s@),
        ensures
            r.0 == s,
    {
        Self(s)
    }
}

/// Wrapper for an admissible argument type allowing to convert it to an [`Argument`].
pub struct ArgumentWrapper<T: FormatArgument> {
    /// The wrapped value.
    pub value: T,
    /// The format attached to the value, if any.
    pub fmt: Option<Fmt<T>>,
}

/// The string-format details carried by an optional format.
pub open spec fn spec_details<T: FormatArgument>(fmt: Option<Fmt<T>>) -> Option<T::Details> {
    match fmt {
        Some(f) => Some(f.details),
        None => None,
    }
}

/// The padding directive carried by an optional format.
pub open spec fn spec_pad_of<T: FormatArgument>(fmt: Option<Fmt<T>>) -> Option<Pad> {
    match fmt {
        Some(f) => f.pad,
        None => None,
    }
}

impl<T: FormatArgument> ArgumentWrapper<T> {
    /// Wraps a value, with no format attached yet.
    pub fn new(value: T) -> (r: Self)
        ensures
            r.value == value,
            r.fmt is None,
    {
        Self { value, fmt: None }
    }

    /// Attaches a format to the value.
    #[must_use]
    pub fn with_fmt(self, fmt: Fmt<T>) -> (r: Self)
        ensures
            r.value == self.value,
            r.fmt == Some(fmt),
    {
        Self { fmt: Some(fmt), ..self }
    }
}

impl<'a> ArgumentWrapper<&'a str> {
    /// Performs the conversion.
    pub fn into_argument(self) -> (r: Argument<'a>)
        ensures
            r.inner == ArgumentInner::Str(self.value, spec_details(self.fmt)),
            r.pad == spec_pad_of(self.fmt),
    {
        let (str_fmt, pad) = match self.fmt {
            Some(Fmt { details, pad, .. }) => (Some(details), pad),
            None => (None, None),
        };
        Argument { inner: ArgumentInner::Str(self.value, str_fmt), pad }
    }
}

impl<'a> ArgumentWrapper<Ascii<'a>> {
    /// Performs the conversion.
    pub fn into_argument(self) -> (r: Argument<'a>)
        ensures
            r.inner == ArgumentInner::Str(self.value.0, spec_details(self.fmt)),
            r.pad == spec_pad_of(self.fmt),
    {
        let (str_fmt, pad) = match self.fmt {
            Some(Fmt { details, pad, .. }) => (Some(details), pad),
            None => (None, None),
        };
        Argument { inner: ArgumentInner::Str(self.value.0, str_fmt), pad }
    }
}

impl ArgumentWrapper<i128> {
    /// Performs the conversion.
    pub fn into_argument(self) -> (r: Argument<'static>)
        ensures
            r.inner == ArgumentInner::Int(self.value),
            r.pad == spec_pad_of(self.fmt),
    {
        let pad = match self.fmt {
            Some(Fmt { pad, .. }) => pad,
            None => None,
        };
        Argument { inner: ArgumentInner::Int(self.value), pad }
    }
}

impl ArgumentWrapper<u128> {
    /// Performs the conversion.
    pub fn into_argument(self) -> (r: Argument<'static>)
        ensures
            r.inner == ArgumentInner::UnsignedInt(self.value),
            r.pad == spec_pad_of(self.fmt),
    {
        let pad = match self.fmt {
            Some(Fmt { pad, .. }) => pad,
            None => None,
        };
        Argument { inner: ArgumentInner::UnsignedInt(self.value), pad }
    }
}

impl ArgumentWrapper<i8> {
    /// Performs the conversion.
    pub fn into_argument(self) -> (r: Argument<'static>)
        ensures
            r.inner == ArgumentInner::Int(self.value as i128),
            r.pad == spec_pad_of(self.fmt),
    {
        let pad = match self.fmt {
            Some(Fmt { pad, .. }) => pad,
            None => None,
        };
        Argument { inner: ArgumentInner::Int(self.value as i128), pad }
    }
}

impl ArgumentWrapper<i16> {
    /// Performs the conversion.
    pub fn into_argument(self) -> (r: Argument<'static>)
        ensures
            r.inner == ArgumentInner::Int(self.value as i128),
            r.pad == spec_pad_of(self.fmt),
    {
        let pad = match self.fmt {
            Some(Fmt { pad, .. }) => pad,
            None => None,
        };
        Argument { inner: ArgumentInner::Int(self.value as i128), pad }
    }
}

impl ArgumentWrapper<i32> {
    /// Performs the conversion.
    pub fn into_argument(self) -> (r: Argument<'static>)
        ensures
            r.inner == ArgumentInner::Int(self.value as i128),
            r.pad == spec_pad_of(self.fmt),
    {
        let pad = match self.fmt {
            Some(Fmt { pad, .. }) => pad,
            None => None,
        };
        Argument { inner: ArgumentInner::Int(self.value as i128), pad }
    }
}

impl ArgumentWrapper<i64> {
    /// Performs the conversion.
    pub fn into_argument(self) -> (r: Argument<'static>)
        ensures
            r.inner == ArgumentInner::Int(self.value as i128),
            r.pad == spec_pad_of(self.fmt),
    {
        let pad = match self.fmt {
            Some(Fmt { pad, .. }) => pad,
            None => None,
        };
        Argument { inner: ArgumentInner::Int(self.value as i128), pad }
    }
}

impl ArgumentWrapper<isize> {
    /// Performs the conversion.
    pub fn into_argument(self) -> (r: Argument<'static>)
        ensures
            r.inner == ArgumentInner::Int(self.value as i128),
            r.pad == spec_pad_of(self.fmt),
    {
        let pad = match self.fmt {
            Some(Fmt { pad, .. }) => pad,
            None => None,
        };
        Argument { inner: ArgumentInner::Int(self.value as i128), pad }
    }
}

impl ArgumentWrapper<u8> {
    /// Performs the conversion.
    pub fn into_argument(self) -> (r: Argument<'static>)
        ensures
            r.inner == ArgumentInner::UnsignedInt(self.value as u128),
            r.pad == spec_pad_of(self.fmt),
    {
        let pad = match self.fmt {
            Some(Fmt { pad, .. }) => pad,
            None => None,
        };
        Argument { inner: ArgumentInner::UnsignedInt(self.value as u128), pad }
    }
}

impl ArgumentWrapper<u16> {
    /// Performs the conversion.
    pub fn into_argument(self) -> (r: Argument<'static>)
        ensures
            r.inner == ArgumentInner::UnsignedInt(self.value as u128),
            r.pad == spec_pad_of(self.fmt),
    {
        let pad = match self.fmt {
            Some(Fmt { pad, .. }) => pad,
            None => None,
        };
        Argument { inner: ArgumentInner::UnsignedInt(self.value as u128), pad }
    }
}

impl ArgumentWrapper<u32> {
    /// Performs the conversion.
    pub fn into_argument(self) -> (r: Argument<'static>)
        ensures
            r.inner == ArgumentInner::UnsignedInt(self.value as u128),
            r.pad == spec_pad_of(self.fmt),
    {
        let pad = match self.fmt {
            Some(Fmt { pad, .. }) => pad,
            None => None,
        };
        Argument { inner: ArgumentInner::UnsignedInt(self.value as u128), pad }
    }
}

impl ArgumentWrapper<u64> {
    /// Performs the conversion.
    pub fn into_argument(self) -> (r: Argument<'static>)
        ensures
            r.inner == ArgumentInner::UnsignedInt(self.value as u128),
            r.pad == spec_pad_of(self.fmt),
    {
        let pad = match self.fmt {
            Some(Fmt { pad, .. }) => pad,
            None => None,
        };
        Argument { inner: ArgumentInner::UnsignedInt(self.value as u128), pad }
    }
}

impl ArgumentWrapper<usize> {
    /// Performs the conversion.
    pub fn into_argument(self) -> (r: Argument<'static>)
        ensures
            r.inner == ArgumentInner::UnsignedInt(self.value as u128),
            r.pad == spec_pad_of(self.fmt),
    {
        let pad = match self.fmt {
            Some(Fmt { pad, .. }) => pad,
            None => None,
        };
        Argument { inner: ArgumentInner::UnsignedInt(self.value as u128), pad }
    }
}

impl ArgumentWrapper<char> {
    /// Performs the conversion.
    pub fn into_argument(self) -> (r: Argument<'static>)
        ensures
            r.inner == ArgumentInner::Char(self.value),
            r.pad == spec_pad_of(self.fmt),
    {
        let pad = match self.fmt {
            Some(Fmt { pad, .. }) => pad,
            None => None,
        };
        Argument { inner: ArgumentInner::Char(self.value), pad }
    }
}

} // verus!
