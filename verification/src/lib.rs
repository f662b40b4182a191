//! Fixed-capacity string formatting with verified byte-exact capacity planning.
//!
//! A format call takes an ordered list of typed arguments — integers, chars,
//! strings and previously built buffers — each optionally annotated with a
//! clip or padding directive, computes the exact number of bytes the
//! formatted output requires, and writes the output into a single pre-sized
//! buffer. Every write is proved to stay within the planned capacity and to
//! keep the buffer a valid UTF-8 encoding of the characters written so far.

use vstd::prelude::*;

pub mod argument;
pub mod encoding;
pub mod format;
pub mod utils;

pub use crate::argument::{Argument, ArgumentInner, ArgumentWrapper, Ascii};
pub use crate::format::{
    clip, clip_ascii, fmt, Alignment, Fmt, FormatArgument, MaxLength, Pad, StrFormat, StrLength,
};
pub use crate::utils::{count_chars, first_non_ascii, ClippedStr};

verus! {

use vstd::utf8::{char_is_scalar, decode_utf8, decode_utf8_encode_utf8, encode_scalar,
    encode_utf8, encode_utf8_decode_utf8, encode_utf8_valid_utf8, valid_utf8};
use vstd::slice::slice_subrange;
use crate::argument::{formatted_chars, unpadded_chars};
use crate::encoding::{lemma_encode_repeat_len, lemma_encode_utf8_concat, lemma_encode_utf8_push,
    repeat_char};
use crate::utils::char_utf8_len;

/// Formatted string with a fixed byte capacity.
///
/// The type parameter is the compile-time upper boundary of the formatted
/// string length in bytes. It is not necessarily equal to the actual byte
/// length of the formatted string.
pub struct CompileArgs<const CAP: usize> {
    buffer: Vec<u8>,
    len: usize,
    chars: Ghost<Seq<char>>,
}

impl<const CAP: usize> View for CompileArgs<CAP> {
    type V = Seq<char>;

    closed spec fn view(&self) -> Seq<char> {
        self.chars@
    }
}

impl<const CAP: usize> CompileArgs<CAP> {
    /// The buffer holds exactly `CAP` bytes and the written prefix is the
    /// UTF-8 encoding of the characters written so far.
    pub closed spec fn wf(&self) -> bool {
        &&& self.buffer@.len() == CAP
        &&& self.len <= CAP
        &&& self.buffer@.subrange(0, self.len as int) == encode_utf8(self.chars@)
    }

    /// The write cursor equals the encoded length of the characters written.
    proof fn lemma_len_is_encoded_len(&self)
        requires
            self.wf(),
        ensures
            self.len == encode_utf8(self@).len(),
    {
        assert(self.buffer@.subrange(0, self.len as int).len() == self.len);
    }

    /// Creates an empty buffer.
    fn new() -> (r: Self)
        ensures
            r.wf(),
            r@ == Seq::<char>::empty(),
    {
        let buffer = vec![0u8; CAP];
        proof {
            assert(buffer@.subrange(0, 0) =~= encode_utf8(Seq::<char>::empty()));
        }
        Self { buffer, len: 0, chars: Ghost(Seq::empty()) }
    }

    /// Appends raw bytes that are themselves a valid UTF-8 fragment.
    fn write_str_bytes(self, s_bytes: &[u8]) -> (r: Self)
        requires
            self.wf(),
            valid_utf8(s_bytes@),
            encode_utf8(self@).len() + s_bytes@.len() <= CAP,
        ensures
            r.wf(),
            r@ == self@ + decode_utf8(s_bytes@),
    {
        proof {
            self.lemma_len_is_encoded_len();
        }
        let new_len = self.len + s_bytes.len();
        let mut buffer = self.buffer;
        let mut pos = self.len;
        while pos < new_len
            invariant
                buffer@.len() == CAP,
                self.len <= pos <= new_len <= CAP,
                new_len == self.len + s_bytes@.len(),
                buffer@.subrange(0, pos as int) == encode_utf8(self.chars@) + s_bytes@.subrange(
                    0,
                    pos - self.len,
                ),
            decreases new_len - pos,
        {
            let ghost prev = buffer@;
            buffer[pos] = s_bytes[pos - self.len];
            proof {
                assert(buffer@.subrange(0, pos + 1) =~= prev.subrange(0, pos as int).push(
                    s_bytes@[pos - self.len],
                ));
                assert(encode_utf8(self.chars@) + s_bytes@.subrange(0, pos + 1 - self.len) =~= (
                encode_utf8(self.chars@) + s_bytes@.subrange(0, pos - self.len)).push(
                    s_bytes@[pos - self.len],
                ));
            }
            pos = pos + 1;
        }
        proof {
            decode_utf8_encode_utf8(s_bytes@);
            lemma_encode_utf8_concat(self.chars@, decode_utf8(s_bytes@));
            assert(s_bytes@.subrange(0, s_bytes@.len() as int) =~= s_bytes@);
            assert(buffer@.subrange(0, new_len as int) =~= encode_utf8(
                self.chars@ + decode_utf8(s_bytes@),
            ));
        }
        Self { buffer, len: new_len, chars: Ghost(self.chars@ + decode_utf8(s_bytes@)) }
    }

    /// Writes a char to this string, UTF-8-encoding it inline.
    fn write_char(self, c: char) -> (r: Self)
        requires
            self.wf(),
            encode_utf8(self@).len() + encode_scalar(c as u32).len() <= CAP,
        ensures
            r.wf(),
            r@ == self@.push(c),
    {
        proof {
            self.lemma_len_is_encoded_len();
            char_is_scalar(c);
            lemma_encode_utf8_push(self.chars@, c);
        }
        let w = char_utf8_len(c);
        let new_len = self.len + w;
        let mut buffer = self.buffer;
        let pos = self.len;
        let code = c as u32;
        if w == 1 {
            buffer[pos] = (code & 0x7F) as u8;
        } else if w == 2 {
            buffer[pos] = 0xC0 | ((code >> 6) & 0x1F) as u8;
            buffer[pos + 1] = 0x80 | (code & 0x3F) as u8;
        } else if w == 3 {
            buffer[pos] = 0xE0 | ((code >> 12) & 0x0F) as u8;
            buffer[pos + 1] = 0x80 | ((code >> 6) & 0x3F) as u8;
            buffer[pos + 2] = 0x80 | (code & 0x3F) as u8;
        } else {
            buffer[pos] = 0xF0 | ((code >> 18) & 0x7) as u8;
            buffer[pos + 1] = 0x80 | ((code >> 12) & 0x3F) as u8;
            buffer[pos + 2] = 0x80 | ((code >> 6) & 0x3F) as u8;
            buffer[pos + 3] = 0x80 | (code & 0x3F) as u8;
        }
        proof {
            assert(buffer@.subrange(0, new_len as int) =~= encode_utf8(self.chars@.push(c)));
        }
        Self { buffer, len: new_len, chars: Ghost(self.chars@.push(c)) }
    }

    /// Appends `count` copies of the fill character.
    fn write_fill(self, count: usize, using: char) -> (r: Self)
        requires
            self.wf(),
            encode_utf8(self@).len() + count * encode_scalar(using as u32).len() <= CAP,
        ensures
            r.wf(),
            r@ == self@ + repeat_char(using, count as nat),
    {
        let mut this = self;
        let mut i: usize = 0;
        proof {
            assert(self@ + repeat_char(using, 0) =~= self@);
        }
        while i < count
            invariant
                this.wf(),
                i <= count,
                this@ == self@ + repeat_char(using, i as nat),
                encode_utf8(self@).len() + count * encode_scalar(using as u32).len() <= CAP,
            decreases count - i,
        {
            proof {
                let fl = encode_scalar(using as u32).len();
                lemma_encode_utf8_concat(self@, repeat_char(using, i as nat));
                lemma_encode_repeat_len(using, i as nat);
                assert(i * fl + fl <= count * fl) by (nonlinear_arith)
                    requires
                        i < count,
                        fl >= 1,
                ;
                crate::encoding::lemma_scalar_len(using);
                assert(self@ + repeat_char(using, (i + 1) as nat) =~= (self@ + repeat_char(
                    using,
                    i as nat,
                )).push(using));
            }
            this = this.write_char(using);
            i = i + 1;
        }
        this
    }

    /// Writes a string, applying an optional clip directive.
    fn write_str(self, s: &str, fmt: Option<StrFormat>) -> (r: Self)
        requires
            self.wf(),
            encode_utf8(self@).len() + encode_utf8(
                unpadded_chars(ArgumentInner::Str(s, fmt)),
            ).len() <= CAP,
        ensures
            r.wf(),
            r@ == self@ + unpadded_chars(ArgumentInner::Str(s, fmt)),
    {
        match fmt {
            Some(StrFormat { clip_at, using }) => {
                let clipped = ClippedStr::new(s, clip_at);
                match clipped {
                    ClippedStr::Full(bytes) => {
                        proof {
                            encode_utf8_valid_utf8(s@);
                            encode_utf8_decode_utf8(s@);
                        }
                        self.write_str_bytes(bytes)
                    },
                    ClippedStr::Clipped(bytes) => {
                        let ghost kept = s@.take(clip_at as int);
                        proof {
                            encode_utf8_valid_utf8(kept);
                            encode_utf8_decode_utf8(kept);
                            encode_utf8_valid_utf8(using@);
                            encode_utf8_decode_utf8(using@);
                            lemma_encode_utf8_concat(kept, using@);
                            lemma_encode_utf8_concat(self@, kept);
                        }
                        let this = self.write_str_bytes(bytes);
                        let r = this.write_str_bytes(using.as_bytes());
                        proof {
                            assert(r@ =~= self@ + (kept + using@));
                        }
                        r
                    },
                }
            },
            None => {
                proof {
                    encode_utf8_valid_utf8(s@);
                    encode_utf8_decode_utf8(s@);
                }
                self.write_str_bytes(s.as_bytes())
            },
        }
    }

    /// Statically checks that this capacity covers the required one.
    pub fn assert_capacity(required_capacity: usize)
        requires
            required_capacity <= CAP,
    {
    }

    /// Formats the provided sequence of [`Argument`]s.
    pub fn format(arguments: &[Argument<'_>]) -> (r: Self)
        requires
            encode_utf8(format_list_chars(arguments@)).len() <= CAP,
        ensures
            r.wf(),
            r@ == format_list_chars(arguments@),
    {
        let mut this = Self::new();
        let mut arg_i: usize = 0;
        proof {
            assert(arguments@.take(0) =~= Seq::<Argument>::empty());
        }
        while arg_i < arguments.len()
            invariant
                this.wf(),
                arg_i <= arguments@.len(),
                this@ == format_list_chars(arguments@.take(arg_i as int)),
                encode_utf8(format_list_chars(arguments@)).len() <= CAP,
            decreases arguments@.len() - arg_i,
        {
            proof {
                lemma_format_list_step(arguments@, arg_i as int);
                lemma_format_list_prefix(arguments@, arg_i + 1);
                lemma_encode_utf8_concat(
                    format_list_chars(arguments@.take(arg_i as int)),
                    formatted_chars(arguments@[arg_i as int]),
                );
            }
            this = this.format_arg(arguments[arg_i]);
            arg_i = arg_i + 1;
        }
        proof {
            assert(arguments@.take(arguments@.len() as int) =~= arguments@);
        }
        this
    }

    /// Returns the `str` value of this formatter.
    pub fn as_str(&self) -> (r: &str)
        requires
            self.wf(),
        ensures
            r@ == self@,
    {
        proof {
            self.lemma_len_is_encoded_len();
            encode_utf8_valid_utf8(self.chars@);
        }
        let written = slice_subrange(self.buffer.as_slice(), 0, self.len);
        let r = bytes_as_str(written);
        proof {
            encode_utf8_decode_utf8(self.chars@);
            encode_utf8_decode_utf8(r@);
        }
        r
    }
}

/// Relies on `core::str::from_utf8`: for bytes that are a valid UTF-8
/// encoding it returns `Ok` with the string slice viewing exactly those
/// bytes.
#[verifier::external_body]
fn bytes_as_str(bytes: &[u8]) -> (r: &str)
    requires
        valid_utf8(bytes@),
    ensures
        encode_utf8(r@) == bytes@,
{
    core::str::from_utf8(bytes).unwrap()
}

/// The characters a list of arguments formats to, in input order.
pub open spec fn format_list_chars(args: Seq<Argument>) -> Seq<char>
    decreases args.len(),
{
    if args.len() == 0 {
        Seq::empty()
    } else {
        format_list_chars(args.drop_last()) + formatted_chars(args.last())
    }
}

/// Formatting one more argument appends its characters, so the total byte
/// requirement of a list is the sum of its arguments' formatted byte lengths.
pub proof fn lemma_format_list_step(args: Seq<Argument>, i: int)
    requires
        0 <= i < args.len(),
    ensures
        format_list_chars(args.take(i + 1)) == format_list_chars(args.take(i)) + formatted_chars(
            args[i],
        ),
{
    assert(args.take(i + 1).drop_last() =~= args.take(i));
    assert(args.take(i + 1).last() == args[i]);
}

/// A prefix of the argument list never formats to more bytes than the whole.
pub proof fn lemma_format_list_prefix(args: Seq<Argument>, i: int)
    requires
        0 <= i <= args.len(),
    ensures
        encode_utf8(format_list_chars(args.take(i))).len() <= encode_utf8(
            format_list_chars(args),
        ).len(),
    decreases args.len() - i,
{
    if i < args.len() {
        lemma_format_list_step(args, i);
        lemma_encode_utf8_concat(
            format_list_chars(args.take(i)),
            formatted_chars(args[i]),
        );
        lemma_format_list_prefix(args, i + 1);
    } else {
        assert(args.take(i) =~= args);
    }
}

/// Required byte capacity for formatting the provided arguments: the sum of
/// their formatted byte lengths, or `None` when that sum does not fit in
/// `usize`.
pub fn estimate(arguments: &[Argument<'_>]) -> (r: Option<usize>)
    ensures
        match r {
            Some(total) => total == encode_utf8(format_list_chars(arguments@)).len(),
            None => encode_utf8(format_list_chars(arguments@)).len() > usize::MAX,
        },
{
    let mut total: usize = 0;
    let mut arg_i: usize = 0;
    proof {
        assert(arguments@.take(0) =~= Seq::<Argument>::empty());
    }
    while arg_i < arguments.len()
        invariant
            arg_i <= arguments@.len(),
            total == encode_utf8(format_list_chars(arguments@.take(arg_i as int))).len(),
        decreases arguments@.len() - arg_i,
    {
        proof {
            lemma_format_list_step(arguments@, arg_i as int);
            lemma_format_list_prefix(arguments@, arg_i + 1);
            lemma_encode_utf8_concat(
                format_list_chars(arguments@.take(arg_i as int)),
                formatted_chars(arguments@[arg_i as int]),
            );
        }
        let arg_len = match arguments[arg_i].checked_formatted_len() {
            Some(n) => n,
            None => {
                return None;
            },
        };
        total = match total.checked_add(arg_len) {
            Some(t) => t,
            None => {
                return None;
            },
        };
        arg_i = arg_i + 1;
    }
    proof {
        assert(arguments@.take(arguments@.len() as int) =~= arguments@);
    }
    Some(total)
}

impl<const CAP: usize> FormatArgument for &CompileArgs<CAP> {
    type Details = ();

    open spec fn spec_max_bytes_per_char() -> nat {
        4
    }

    fn max_bytes_per_char() -> (r: usize) {
        4
    }
}

impl<const CAP: usize> MaxLength for &CompileArgs<CAP> {
    open spec fn spec_max_length() -> StrLength {
        // the byte length is exact and the char length is the pessimistic upper boundary
        StrLength { bytes: CAP, chars: CAP }
    }

    fn max_length() -> (r: StrLength) {
        StrLength::both(CAP)
    }
}

impl<'a, const CAP: usize> ArgumentWrapper<&'a CompileArgs<CAP>> {
    /// Performs the conversion.
    pub fn into_argument(self) -> (r: Argument<'a>)
        requires
            self.value.wf(),
        ensures
            r.inner matches ArgumentInner::Str(s, f) && s@ == self.value@ && f is None,
            r.pad is None,
    {
        Argument { inner: ArgumentInner::Str(self.value.as_str(), None), pad: None }
    }
}

} // verus!
