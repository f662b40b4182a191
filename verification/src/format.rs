//! Formatting directives: length measurements, clipping and padding.

use vstd::prelude::*;

verus! {

use vstd::utf8::{encode_scalar, encode_utf8, is_ascii_chars, is_ascii_chars_encode_utf8};
use crate::encoding::{repeat_char, lemma_encode_repeat_len, lemma_encode_utf8_concat,
    lemma_encode_utf8_len_bounds};
use crate::utils::{char_utf8_len, count_chars};
use crate::argument::{dec_len, signed_dec_chars, lemma_signed_dec_chars_len, log_10_ceil,
    Ascii};

/// Length of a string measured in bytes and chars.
#[derive(Debug, Clone, Copy, PartialEq)]
pub struct StrLength {
    /// Number of bytes the string occupies.
    pub bytes: usize,
    /// Number of chars in the string.
    pub chars: usize,
}

impl StrLength {
    /// Measures the provided string.
    pub fn for_str(s: &str) -> (r: Self)
        ensures
            r.bytes == encode_utf8(s@).len(),
            r.chars == s@.len(),
    {
        let s_bytes = s.as_bytes();
        Self { bytes: s_bytes.len(), chars: count_chars(s) }
    }

    /// Measures the provided char.
    pub fn for_char(c: char) -> (r: Self)
        ensures
            r.bytes == encode_scalar(c as u32).len(),
            r.chars == 1,
    {
        Self { bytes: char_utf8_len(c), chars: 1 }
    }

    /// Creates a length in which both `bytes` and `chars` fields are set to the specified `value`.
    pub fn both(value: usize) -> (r: Self)
        ensures
            r.bytes == value,
            r.chars == value,
    {
        Self { bytes: value, chars: value }
    }
}

/// Alignment of a padded argument within its target width.
#[derive(Debug, Clone, Copy, PartialEq, Eq)]
pub enum Alignment {
    /// Content at the start; fill characters follow it.
    Left,
    /// Content at the end; fill characters precede it.
    Right,
    /// Content in the middle; an odd deficit leaves the extra fill character
    /// after the content.
    Center,
}

/// Padding directive: fill with a character up to a target width in chars.
#[derive(Debug, Clone, Copy, PartialEq)]
pub struct Pad {
    /// Where the content sits within the padded width.
    pub align: Alignment,
    /// Target width in chars.
    pub width: usize,
    /// Fill character.
    pub using: char,
}

/// Numbers of fill characters written before and after content of
/// `char_count` chars when padding to `width` with the given alignment.
pub open spec fn padding_split(align: Alignment, width: nat, char_count: nat) -> (nat, nat) {
    if char_count >= width {
        (0nat, 0nat)
    } else {
        let deficit = (width - char_count) as nat;
        match align {
            Alignment::Left => (0nat, deficit),
            Alignment::Right => (deficit, 0nat),
            Alignment::Center => ((deficit / 2) as nat, (deficit - deficit / 2) as nat),
        }
    }
}

/// The characters produced for `content` under an optional padding directive.
pub open spec fn padded_chars(content: Seq<char>, pad: Option<Pad>) -> Seq<char> {
    match pad {
        None => content,
        Some(p) => {
            if content.len() >= p.width {
                content
            } else {
                let split = padding_split(p.align, p.width as nat, content.len());
                repeat_char(p.using, split.0) + content + repeat_char(p.using, split.1)
            }
        },
    }
}

impl Pad {
    /// Computes `(chars_before, chars_after)` for content of `char_count` chars.
    pub fn compute_padding(&self, char_count: usize) -> (r: (usize, usize))
        ensures
            r.0 == padding_split(self.align, self.width as nat, char_count as nat).0,
            r.1 == padding_split(self.align, self.width as nat, char_count as nat).1,
            r.0 + r.1 == if char_count < self.width {
                self.width - char_count
            } else {
                0
            },
    {
        if char_count >= self.width {
            return (0, 0);
        }
        match self.align {
            Alignment::Left => (0, self.width - char_count),
            Alignment::Right => (self.width - char_count, 0),
            Alignment::Center => {
                let total_padding = self.width - char_count;
                (total_padding / 2, total_padding - total_padding / 2)
            },
        }
    }
}

/// Padding never modifies content that already reaches the target width.
pub proof fn lemma_padding_noop(content: Seq<char>, p: Pad)
    requires
        content.len() >= p.width,
    ensures
        padded_chars(content, Some(p)) == content,
{
}

/// Padding short content fills it to exactly the target width; a centered
/// split puts half the deficit, rounded down, before the content.
pub proof fn lemma_padding_fills(content: Seq<char>, p: Pad)
    requires
        content.len() < p.width,
    ensures
        padded_chars(content, Some(p)).len() == p.width,
        padding_split(p.align, p.width as nat, content.len()).0 == if p.align is Center {
            ((p.width - content.len()) / 2) as nat
        } else if p.align is Right {
            (p.width - content.len()) as nat
        } else {
            0nat
        },
{
}

/// The clipped form of `s`: unchanged when within the clip width, else the
/// first `clip_at` chars followed by the replacement.
pub open spec fn clipped_chars(s: Seq<char>, clip_at: nat, using: Seq<char>) -> Seq<char> {
    if s.len() <= clip_at {
        s
    } else {
        s.take(clip_at as int) + using
    }
}

/// Clipping a string that is within the clip width returns it unchanged; the
/// replacement is never appended.
pub proof fn lemma_clip_within_width(s: Seq<char>, clip_at: nat, using: Seq<char>)
    requires
        s.len() <= clip_at,
    ensures
        clipped_chars(s, clip_at, using) == s,
{
}

/// Clipping a longer string keeps exactly its first `clip_at` chars and
/// appends the replacement, for `clip_at + using.len()` chars in all.
pub proof fn lemma_clip_truncates(s: Seq<char>, clip_at: nat, using: Seq<char>)
    requires
        s.len() > clip_at,
    ensures
        clipped_chars(s, clip_at, using) == s.take(clip_at as int) + using,
        clipped_chars(s, clip_at, using).len() == clip_at + using.len(),
{
}

/// Formatting details for strings: clip to a char width, appending a
/// replacement when the string was in fact truncated.
#[derive(Debug, Clone, Copy, PartialEq)]
pub struct StrFormat {
    /// Maximum number of chars kept of the clipped string.
    pub clip_at: usize,
    /// Replacement appended when truncation occurred.
    pub using: &'static str,
}

/// Type that can be formatted. Implemented for standard integer types, strings and chars.
pub trait FormatArgument {
    /// Formatting specification for the type.
    type Details: 'static;

    /// Worst-case number of bytes a single char of this argument type occupies.
    spec fn spec_max_bytes_per_char() -> nat;

    /// Maximum number of bytes a single char from this format can occupy.
    fn max_bytes_per_char() -> (r: usize)
        ensures
            r == Self::spec_max_bytes_per_char(),
    ;
}

/// Type that has a known upper boundary for the formatted length.
pub trait MaxLength {
    /// Upper boundary for the formatted length in bytes and chars.
    spec fn spec_max_length() -> StrLength;

    /// Returns the upper boundary for the formatted length.
    fn max_length() -> (r: StrLength)
        ensures
            r == Self::spec_max_length(),
    ;
}

impl FormatArgument for &str {
    type Details = StrFormat;

    open spec fn spec_max_bytes_per_char() -> nat {
        4
    }

    fn max_bytes_per_char() -> (r: usize) {
        4
    }
}

impl FormatArgument for char {
    type Details = ();

    open spec fn spec_max_bytes_per_char() -> nat {
        4
    }

    fn max_bytes_per_char() -> (r: usize) {
        4
    }
}

impl MaxLength for char {
    open spec fn spec_max_length() -> StrLength {
        StrLength { bytes: 4, chars: 1 }
    }

    fn max_length() -> (r: StrLength) {
        StrLength { bytes: 4, chars: 1 }
    }
}

impl FormatArgument for u8 {
    type Details = ();

    open spec fn spec_max_bytes_per_char() -> nat {
        1
    }

    fn max_bytes_per_char() -> (r: usize) {
        1
    }
}

impl MaxLength for u8 {
    open spec fn spec_max_length() -> StrLength {
        StrLength {
            bytes: dec_len(u8::MAX as nat) as usize,
            chars: dec_len(u8::MAX as nat) as usize,
        }
    }

    fn max_length() -> (r: StrLength) {
        StrLength::both(log_10_ceil(u8::MAX as u128))
    }
}

impl FormatArgument for u16 {
    type Details = ();

    open spec fn spec_max_bytes_per_char() -> nat {
        1
    }

    fn max_bytes_per_char() -> (r: usize) {
        1
    }
}

impl MaxLength for u16 {
    open spec fn spec_max_length() -> StrLength {
        StrLength {
            bytes: dec_len(u16::MAX as nat) as usize,
            chars: dec_len(u16::MAX as nat) as usize,
        }
    }

    fn max_length() -> (r: StrLength) {
        StrLength::both(log_10_ceil(u16::MAX as u128))
    }
}

impl FormatArgument for u32 {
    type Details = ();

    open spec fn spec_max_bytes_per_char() -> nat {
        1
    }

    fn max_bytes_per_char() -> (r: usize) {
        1
    }
}

impl MaxLength for u32 {
    open spec fn spec_max_length() -> StrLength {
        StrLength {
            bytes: dec_len(u32::MAX as nat) as usize,
            chars: dec_len(u32::MAX as nat) as usize,
        }
    }

    fn max_length() -> (r: StrLength) {
        StrLength::both(log_10_ceil(u32::MAX as u128))
    }
}

impl FormatArgument for u64 {
    type Details = ();

    open spec fn spec_max_bytes_per_char() -> nat {
        1
    }

    fn max_bytes_per_char() -> (r: usize) {
        1
    }
}

impl MaxLength for u64 {
    open spec fn spec_max_length() -> StrLength {
        StrLength {
            bytes: dec_len(u64::MAX as nat) as usize,
            chars: dec_len(u64::MAX as nat) as usize,
        }
    }

    fn max_length() -> (r: StrLength) {
        StrLength::both(log_10_ceil(u64::MAX as u128))
    }
}

impl FormatArgument for u128 {
    type Details = ();

    open spec fn spec_max_bytes_per_char() -> nat {
        1
    }

    fn max_bytes_per_char() -> (r: usize) {
        1
    }
}

impl MaxLength for u128 {
    open spec fn spec_max_length() -> StrLength {
        StrLength {
            bytes: dec_len(u128::MAX as nat) as usize,
            chars: dec_len(u128::MAX as nat) as usize,
        }
    }

    fn max_length() -> (r: StrLength) {
        StrLength::both(log_10_ceil(u128::MAX as u128))
    }
}

impl FormatArgument for usize {
    type Details = ();

    open spec fn spec_max_bytes_per_char() -> nat {
        1
    }

    fn max_bytes_per_char() -> (r: usize) {
        1
    }
}

impl MaxLength for usize {
    open spec fn spec_max_length() -> StrLength {
        StrLength {
            bytes: dec_len(usize::MAX as nat) as usize,
            chars: dec_len(usize::MAX as nat) as usize,
        }
    }

    fn max_length() -> (r: StrLength) {
        StrLength::both(log_10_ceil(usize::MAX as u128))
    }
}

impl FormatArgument for i8 {
    type Details = ();

    open spec fn spec_max_bytes_per_char() -> nat {
        1
    }

    fn max_bytes_per_char() -> (r: usize) {
        1
    }
}

impl MaxLength for i8 {
    open spec fn spec_max_length() -> StrLength {
        StrLength {
            bytes: signed_dec_chars(i8::MIN as int).len() as usize,
            chars: signed_dec_chars(i8::MIN as int).len() as usize,
        }
    }

    fn max_length() -> (r: StrLength) {
        proof {
            lemma_signed_dec_chars_len(i8::MIN as int);
        }
        StrLength::both(1 + log_10_ceil((i8::MAX as u128) + 1))
    }
}

impl FormatArgument for i16 {
    type Details = ();

    open spec fn spec_max_bytes_per_char() -> nat {
        1
    }

    fn max_bytes_per_char() -> (r: usize) {
        1
    }
}

impl MaxLength for i16 {
    open spec fn spec_max_length() -> StrLength {
        StrLength {
            bytes: signed_dec_chars(i16::MIN as int).len() as usize,
            chars: signed_dec_chars(i16::MIN as int).len() as usize,
        }
    }

    fn max_length() -> (r: StrLength) {
        proof {
            lemma_signed_dec_chars_len(i16::MIN as int);
        }
        StrLength::both(1 + log_10_ceil((i16::MAX as u128) + 1))
    }
}

impl FormatArgument for i32 {
    type Details = ();

    open spec fn spec_max_bytes_per_char() -> nat {
        1
    }

    fn max_bytes_per_char() -> (r: usize) {
        1
    }
}

impl MaxLength for i32 {
    open spec fn spec_max_length() -> StrLength {
        StrLength {
            bytes: signed_dec_chars(i32::MIN as int).len() as usize,
            chars: signed_dec_chars(i32::MIN as int).len() as usize,
        }
    }

    fn max_length() -> (r: StrLength) {
        proof {
            lemma_signed_dec_chars_len(i32::MIN as int);
        }
        StrLength::both(1 + log_10_ceil((i32::MAX as u128) + 1))
    }
}

impl FormatArgument for i64 {
    type Details = ();

    open spec fn spec_max_bytes_per_char() -> nat {
        1
    }

    fn max_bytes_per_char() -> (r: usize) {
        1
    }
}

impl MaxLength for i64 {
    open spec fn spec_max_length() -> StrLength {
        StrLength {
            bytes: signed_dec_chars(i64::MIN as int).len() as usize,
            chars: signed_dec_chars(i64::MIN as int).len() as usize,
        }
    }

    fn max_length() -> (r: StrLength) {
        proof {
            lemma_signed_dec_chars_len(i64::MIN as int);
        }
        StrLength::both(1 + log_10_ceil((i64::MAX as u128) + 1))
    }
}

impl FormatArgument for i128 {
    type Details = ();

    open spec fn spec_max_bytes_per_char() -> nat {
        1
    }

    fn max_bytes_per_char() -> (r: usize) {
        1
    }
}

impl MaxLength for i128 {
    open spec fn spec_max_length() -> StrLength {
        StrLength {
            bytes: signed_dec_chars(i128::MIN as int).len() as usize,
            chars: signed_dec_chars(i128::MIN as int).len() as usize,
        }
    }

    fn max_length() -> (r: StrLength) {
        proof {
            lemma_signed_dec_chars_len(i128::MIN as int);
        }
        StrLength::both(1 + log_10_ceil((i128::MAX as u128) + 1))
    }
}

impl FormatArgument for isize {
    type Details = ();

    open spec fn spec_max_bytes_per_char() -> nat {
        1
    }

    fn max_bytes_per_char() -> (r: usize) {
        1
    }
}

impl MaxLength for isize {
    open spec fn spec_max_length() -> StrLength {
        StrLength {
            bytes: signed_dec_chars(isize::MIN as int).len() as usize,
            chars: signed_dec_chars(isize::MIN as int).len() as usize,
        }
    }

    fn max_length() -> (r: StrLength) {
        proof {
            lemma_signed_dec_chars_len(isize::MIN as int);
        }
        StrLength::both(1 + log_10_ceil((isize::MAX as u128) + 1))
    }
}

impl FormatArgument for Ascii<'_> {
    type Details = StrFormat;

    open spec fn spec_max_bytes_per_char() -> nat {
        1
    }

    fn max_bytes_per_char() -> (r: usize) {
        1
    }
}

/// Same as [`clip()`], but for [`Ascii`] strings: every kept or replacement
/// char is a single byte.
pub fn clip_ascii<'a>(clip_at: usize, using: &'static str) -> (r: Fmt<Ascii<'a>>)
    requires
        clip_at > 0,
        is_ascii_chars(using@),
        clip_at + using@.len() <= usize::MAX,
    ensures
        r.capacity.bytes == clip_at + using@.len(),
        r.capacity.chars == clip_at + using@.len(),
        r.details == (StrFormat { clip_at, using }),
        r.pad is None,
{
    proof {
        is_ascii_chars_encode_utf8(using@);
    }
    let using_bytes = using.as_bytes();
    Fmt {
        capacity: StrLength::both(clip_at + using_bytes.len()),
        details: StrFormat { clip_at, using },
        pad: None,
    }
}

/// Formatting specification for an [`Argument`](crate::Argument).
///
/// The `capacity` is the byte and char budget of the format without padding;
/// [`Fmt::capacity`] turns it into a byte capacity that also covers padding.
pub struct Fmt<T: FormatArgument> {
    /// Byte and char capacity of the format without taking padding into account.
    pub capacity: StrLength,
    /// Per-type formatting details (clipping, for strings).
    pub details: T::Details,
    /// Optional padding directive.
    pub pad: Option<Pad>,
}

/// Creates a default format for a type that has known bounded formatting width.
pub fn fmt<T: FormatArgument<Details = ()> + MaxLength>() -> (r: Fmt<T>)
    ensures
        r.capacity == T::spec_max_length(),
        r.pad is None,
{
    Fmt { capacity: T::max_length(), details: (), pad: None }
}

/// Creates a format that will clip the value to the specified max **char** width (not byte
/// width!). If clipped, the end of the string will be replaced with the specified replacer,
/// which can be empty.
pub fn clip<'a>(clip_at: usize, using: &'static str) -> (r: Fmt<&'a str>)
    requires
        clip_at > 0,
        4 * clip_at + encode_utf8(using@).len() <= usize::MAX,
    ensures
        r.capacity.bytes == 4 * clip_at + encode_utf8(using@).len(),
        r.capacity.chars == clip_at + using@.len(),
        r.details == (StrFormat { clip_at, using }),
        r.pad is None,
{
    let using_bytes = using.as_bytes();
    proof {
        lemma_encode_utf8_len_bounds(using@);
    }
    Fmt {
        capacity: StrLength {
            bytes: clip_at * 4 + using_bytes.len(),
            chars: clip_at + count_chars(using),
        },
        details: StrFormat { clip_at, using },
        pad: None,
    }
}

impl<T: FormatArgument> Fmt<T> {
    /// Attaches a padding directive, keeping capacity and details.
    fn pad(self, align: Alignment, width: usize, using: char) -> (r: Self)
        ensures
            r.capacity == self.capacity,
            r.details == self.details,
            r.pad == Some(Pad { align, width, using }),
    {
        Fmt { pad: Some(Pad { align, width, using }), ..self }
    }

    /// Specifies left-aligned padding. `width` is measured in chars, rather than bytes.
    pub fn pad_left(self, width: usize, using: char) -> (r: Self)
        ensures
            r.capacity == self.capacity,
            r.details == self.details,
            r.pad == Some(Pad { align: Alignment::Left, width, using }),
    {
        self.pad(Alignment::Left, width, using)
    }

    /// Specifies right-aligned padding. `width` is measured in chars, rather than bytes.
    pub fn pad_right(self, width: usize, using: char) -> (r: Self)
        ensures
            r.capacity == self.capacity,
            r.details == self.details,
            r.pad == Some(Pad { align: Alignment::Right, width, using }),
    {
        self.pad(Alignment::Right, width, using)
    }

    /// Specifies center-aligned padding. `width` is measured in chars, rather than bytes.
    pub fn pad_center(self, width: usize, using: char) -> (r: Self)
        ensures
            r.capacity == self.capacity,
            r.details == self.details,
            r.pad == Some(Pad { align: Alignment::Center, width, using }),
    {
        self.pad(Alignment::Center, width, using)
    }

    /// Byte capacity that safely dominates every value this format can
    /// produce: the larger of the unpadded byte capacity, the cost of padding
    /// an empty content to the full width, and the cost of the widest content
    /// that still gets padded.
    pub open spec fn spec_capacity(&self) -> int {
        match self.pad {
            None => self.capacity.bytes as int,
            Some(pad) => {
                let fill_len = encode_scalar(pad.using as u32).len() as int;
                let full_pad_capacity = fill_len * pad.width;
                let max_width: int = if self.capacity.chars > pad.width {
                    pad.width as int
                } else {
                    self.capacity.chars as int
                };
                let min_pad_capacity = fill_len * (pad.width - max_width) + max_width
                    * T::spec_max_bytes_per_char();
                let pad_capacity = if full_pad_capacity > min_pad_capacity {
                    full_pad_capacity
                } else {
                    min_pad_capacity
                };
                if pad_capacity > self.capacity.bytes {
                    pad_capacity
                } else {
                    self.capacity.bytes as int
                }
            },
        }
    }

    /// Returns the byte capacity of this format in bytes.
    pub fn capacity(&self) -> (r: usize)
        requires
            self.spec_capacity() <= usize::MAX,
        ensures
            r == self.spec_capacity(),
    {
        if let Some(pad) = &self.pad {
            let fill_len = char_utf8_len(pad.using);
            let max_width = if self.capacity.chars > pad.width {
                pad.width
            } else {
                self.capacity.chars
            };
            let mbpc = T::max_bytes_per_char();
            proof {
                let fl = fill_len as int;
                let w = pad.width as int;
                let mw = max_width as int;
                let m = T::spec_max_bytes_per_char() as int;
                assert(fl * w >= 0 && fl * (w - mw) >= 0 && mw * m >= 0 && fl * w <= fl * w)
                    by (nonlinear_arith)
                    requires
                        fl >= 0,
                        0 <= mw <= w,
                        m >= 0,
                ;
            }
            // Capacity necessary for an empty non-padded string.
            let full_pad_capacity = fill_len * pad.width;
            // Capacity necessary for the maximum-length content that still has padding.
            let min_pad_capacity = fill_len * (pad.width - max_width) + max_width * mbpc;
            let pad_capacity = if full_pad_capacity > min_pad_capacity {
                full_pad_capacity
            } else {
                min_pad_capacity
            };
            if pad_capacity > self.capacity.bytes {
                return pad_capacity;
            }
        }
        self.capacity.bytes
    }
}

/// The planned capacity of a format safely dominates the bytes actually
/// written for any content the format admits: content within the format's
/// unpadded byte and char budget, whose bytes-per-char stay within the
/// argument type's worst case, never needs more bytes than
/// [`Fmt::spec_capacity`] after padding.
pub proof fn lemma_capacity_dominates<T: FormatArgument>(f: Fmt<T>, content: Seq<char>)
    requires
        encode_utf8(content).len() <= f.capacity.bytes,
        content.len() <= f.capacity.chars,
        encode_utf8(content).len() <= content.len() * T::spec_max_bytes_per_char(),
    ensures
        encode_utf8(padded_chars(content, f.pad)).len() <= f.spec_capacity(),
{
    if let Some(p) = f.pad {
        if content.len() < p.width {
            lemma_padded_bytes(content, p);
            let c = content.len() as int;
            let w = p.width as int;
            let fl = encode_scalar(p.using as u32).len() as int;
            let m = T::spec_max_bytes_per_char() as int;
            let mw: int = if f.capacity.chars > p.width {
                p.width as int
            } else {
                f.capacity.chars as int
            };
            let enc = encode_utf8(content).len() as int;
            assert(0 <= c <= mw <= w);
            assert(enc <= c * m);
            assert((w - c) * fl + enc <= (if fl * w > fl * (w - mw) + mw * m {
                fl * w
            } else {
                fl * (w - mw) + mw * m
            })) by (nonlinear_arith)
                requires
                    0 <= c <= mw <= w,
                    fl >= 0,
                    m >= 0,
                    0 <= enc <= c * m,
            ;
        }
    }
}

/// The capacity of a clip format dominates the padded clipped output of every
/// string: whatever the clipped string turns out to be, it fits the
/// `clip_at` + replacement budget that [`clip`] planned with.
pub proof fn lemma_clip_capacity_dominates(f: Fmt<&str>, s: Seq<char>)
    requires
        f.capacity.bytes == 4 * f.details.clip_at + encode_utf8(f.details.using@).len(),
        f.capacity.chars == f.details.clip_at + f.details.using@.len(),
    ensures
        encode_utf8(
            padded_chars(
                clipped_chars(s, f.details.clip_at as nat, f.details.using@),
                f.pad,
            ),
        ).len() <= f.spec_capacity(),
{
    let clip_at = f.details.clip_at as nat;
    let using = f.details.using@;
    let content = clipped_chars(s, clip_at, using);
    lemma_encode_utf8_len_bounds(using);
    if s.len() <= clip_at {
        lemma_encode_utf8_len_bounds(s);
    } else {
        lemma_encode_utf8_concat(s.take(clip_at as int), using);
        lemma_encode_utf8_len_bounds(s.take(clip_at as int));
    }
    lemma_encode_utf8_len_bounds(content);
    lemma_capacity_dominates(f, content);
}

/// The capacity of an ASCII clip format dominates the padded clipped output
/// of every ASCII string: one byte suffices for each kept or replacement
/// char, which is what [`clip_ascii`] planned with.
pub proof fn lemma_clip_ascii_capacity_dominates<'a>(f: Fmt<Ascii<'a>>, s: Seq<char>)
    requires
        is_ascii_chars(s),
        is_ascii_chars(f.details.using@),
        f.capacity.bytes == f.details.clip_at + f.details.using@.len(),
        f.capacity.chars == f.details.clip_at + f.details.using@.len(),
    ensures
        encode_utf8(
            padded_chars(
                clipped_chars(s, f.details.clip_at as nat, f.details.using@),
                f.pad,
            ),
        ).len() <= f.spec_capacity(),
{
    let clip_at = f.details.clip_at as nat;
    let using = f.details.using@;
    let content = clipped_chars(s, clip_at, using);
    if s.len() > clip_at {
        let kept = s.take(clip_at as int);
        assert(is_ascii_chars(kept)) by {
            assert forall|i: int| 0 <= i < kept.len() implies '\0' <= #[trigger] kept[i]
                <= '\u{7f}' by {
                assert(kept[i] == s[i]);
            }
        }
        vstd::utf8::is_ascii_chars_concat(content, kept, using);
    }
    is_ascii_chars_encode_utf8(content);
    lemma_capacity_dominates(f, content);
}

/// The default format of a bounded numeric type dominates every value of the
/// type: the decimal digits of any `u64` fit the `u64::MAX` budget that
/// [`fmt`] planned with, padded or not. The other numeric types follow the
/// same pattern via [`lemma_capacity_dominates`].
pub proof fn lemma_uint_capacity_dominates(f: Fmt<u64>, v: u64)
    requires
        f.capacity == <u64 as MaxLength>::spec_max_length(),
    ensures
        encode_utf8(padded_chars(crate::argument::dec_chars(v as nat), f.pad)).len()
            <= f.spec_capacity(),
{
    let content = crate::argument::dec_chars(v as nat);
    crate::argument::lemma_dec_chars_len(v as nat);
    crate::argument::lemma_dec_len_monotone(v as nat, u64::MAX as nat);
    crate::argument::lemma_dec_len_u128(u64::MAX as u128);
    lemma_capacity_dominates(f, content);
}

/// Byte length of padded content: the fill characters' encodings plus the
/// content's encoding.
pub proof fn lemma_padded_bytes(content: Seq<char>, p: Pad)
    ensures
        encode_utf8(padded_chars(content, Some(p))).len() == if content.len() >= p.width {
            encode_utf8(content).len() as int
        } else {
            (p.width - content.len()) * encode_scalar(p.using as u32).len() + encode_utf8(
                content,
            ).len()
        },
{
    if content.len() < p.width {
        let split = padding_split(p.align, p.width as nat, content.len());
        let before = repeat_char(p.using, split.0);
        let after = repeat_char(p.using, split.1);
        lemma_encode_utf8_concat(before + content, after);
        lemma_encode_utf8_concat(before, content);
        lemma_encode_repeat_len(p.using, split.0);
        lemma_encode_repeat_len(p.using, split.1);
        let l = encode_scalar(p.using as u32).len();
        assert(split.0 * l + split.1 * l == (split.0 + split.1) * l) by (nonlinear_arith);
    }
}

} // verus!
