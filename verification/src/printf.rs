//! printf format-string rendering, delegated to the `sprintf` crate.
//!
//! The firmware ships only the format string address; the host must consume
//! decoded arguments in order. Rendering is handed to `sprintf::vsprintf`, which
//! does all digit conversion, padding and hex formatting.
//!
//! `sprintf` dispatches by the Rust type of each argument and is strict, while
//! the wire carries raw 32/64-bit values without signedness. So the format
//! string is scanned to recover each conversion character, and every wire
//! argument becomes a [`Value`] of the matching type, with `*` widths and
//! precisions resolved to literals on the way ([`rewrite`]).
//!
//! The result is then read once more as `sprintf` reads it ([`prepare`]): each
//! value meets its conversion there, a floating-point value becomes a `%s` for a
//! text that the caller supplies (see [`crate::float`]), and no `*` is left.

use crate::cppfmt;
use crate::cppfmt::field_from;
use crate::float::{field_views, text_views, FloatField, FloatFieldV};
use crate::text::{
    chars_of, decimal, decimal_string, decimal_value, digits_end, digits_stop, lemma_digits_end,
    pad_end, pad_start, padded_end, padded_start, parse_decimal, push_chars,
};
use crate::utf8::{lossy_text, lossy_utf8};
use vstd::prelude::*;
use vstd::string::*;

verus! {

/// Largest width or precision that an argument can ask for.
pub const MAX_RENDER_COUNT: usize = 4096;

/// Largest literal width or precision in a conversion.
pub const MAX_LITERAL_COUNT: usize = 0x7fff_ffff;

/// One decoded argument value, already typed via the payload's arg-type table.
#[derive(Debug, Clone)]
pub enum Arg {
    /// A 32-bit unsigned value (maps to `ArgType::Bits32`).
    U32(u32),
    /// A 64-bit unsigned value (maps to `ArgType::Bits64`, also carries binary64 bit patterns).
    U64(u64),
    /// A 32-bit pointer value (maps to `ArgType::Pointer`).
    Ptr(u32),
    /// A dynamic string (maps to `ArgType::DynamicString`).
    /// `None` represents a null dynamic string (length 0xffffffff).
    Str(Option<Vec<u8>>),
}

/// An argument value.
#[verifier::ext_equal]
pub enum ArgV {
    U32(u32),
    U64(u64),
    Ptr(u32),
    Str(Option<Seq<u8>>),
}

impl View for Arg {
    type V = ArgV;

    open spec fn view(&self) -> ArgV {
        match *self {
            Arg::U32(v) => ArgV::U32(v),
            Arg::U64(v) => ArgV::U64(v),
            Arg::Ptr(v) => ArgV::Ptr(v),
            Arg::Str(Some(b)) => ArgV::Str(Some(b@)),
            Arg::Str(None) => ArgV::Str(None),
        }
    }
}

/// The values of a list of arguments.
pub open spec fn arg_views(args: Seq<Arg>) -> Seq<ArgV> {
    Seq::new(args.len(), |i: int| args[i]@)
}

// ---- The grammar of a conversion ----

/// A flag of a conversion.
pub open spec fn is_flag(c: char) -> bool {
    c == '-' || c == '+' || c == ' ' || c == '#' || c == '0'
}

/// A character that can stand in a length modifier.
pub open spec fn is_length_char(c: char) -> bool {
    c == 'h' || c == 'l' || c == 'j' || c == 'z' || c == 't' || c == 'L'
}

/// A conversion character that marks a string as a printf string.
pub open spec fn is_conversion(c: char) -> bool {
    ||| c == 'd' || c == 'i' || c == 'o' || c == 'u' || c == 'x' || c == 'X'
    ||| c == 'e' || c == 'E' || c == 'f' || c == 'g' || c == 'G'
    ||| c == 'c' || c == 's' || c == 'p' || c == 'n'
}

/// A conversion character of a floating-point value.
pub open spec fn is_float_conversion(c: char) -> bool {
    c == 'e' || c == 'E' || c == 'f' || c == 'F' || c == 'g' || c == 'G'
}

/// First position at or after `i` that holds no flag.
pub open spec fn flags_end(s: Seq<char>, i: int) -> int
    decreases s.len() - i,
{
    if 0 <= i < s.len() && is_flag(s[i]) {
        flags_end(s, i + 1)
    } else {
        i
    }
}

/// First position at or after `i` that holds no length character.
pub open spec fn lengths_end(s: Seq<char>, i: int) -> int
    decreases s.len() - i,
{
    if 0 <= i < s.len() && is_length_char(s[i]) {
        lengths_end(s, i + 1)
    } else {
        i
    }
}

/// Where the character `c` stands at position `i`.
pub open spec fn has_at(s: Seq<char>, i: int, c: char) -> bool {
    0 <= i < s.len() && s[i] == c
}

/// End of a width or of the digits of a precision: a `*`, or a run of digits.
pub open spec fn count_end(s: Seq<char>, i: int) -> int {
    if has_at(s, i, '*') {
        i + 1
    } else {
        digits_end(s, i)
    }
}

/// End of an optional precision.
pub open spec fn precision_end(s: Seq<char>, i: int) -> int {
    if has_at(s, i, '.') {
        count_end(s, i + 1)
    } else {
        i
    }
}

/// Position of the conversion character for a conversion whose flags start at `i`,
/// any number of length characters allowed.
pub open spec fn conversion_at(s: Seq<char>, i: int) -> int {
    lengths_end(s, precision_end(s, count_end(s, flags_end(s, i))))
}

pub proof fn lemma_flags_end(s: Seq<char>, i: int)
    requires
        0 <= i <= s.len(),
    ensures
        i <= flags_end(s, i) <= s.len(),
    decreases s.len() - i,
{
    if i < s.len() && is_flag(s[i]) {
        lemma_flags_end(s, i + 1);
    }
}

proof fn lemma_lengths_end(s: Seq<char>, i: int)
    requires
        0 <= i <= s.len(),
    ensures
        i <= lengths_end(s, i) <= s.len(),
    decreases s.len() - i,
{
    if i < s.len() && is_length_char(s[i]) {
        lemma_lengths_end(s, i + 1);
    }
}

pub proof fn lemma_precision_end(s: Seq<char>, i: int)
    requires
        0 <= i <= s.len(),
    ensures
        i <= flags_end(s, i) <= count_end(s, flags_end(s, i)) <= precision_end(
            s,
            count_end(s, flags_end(s, i)),
        ) <= s.len(),
{
    lemma_flags_end(s, i);
    let f = flags_end(s, i);
    lemma_digits_end(s, f);
    let w = count_end(s, f);
    if has_at(s, w, '.') {
        lemma_digits_end(s, w + 1);
    }
}

pub proof fn lemma_conversion_at(s: Seq<char>, i: int)
    requires
        0 <= i <= s.len(),
    ensures
        i <= conversion_at(s, i) <= s.len(),
{
    lemma_precision_end(s, i);
    lemma_lengths_end(s, precision_end(s, count_end(s, flags_end(s, i))));
}

/// True if an active conversion stands at or after position `i`: a `%` that is
/// not doubled, then optional flags, width, precision and length characters, then
/// a conversion character. After a `%` that starts no conversion the scan goes on
/// with the character that broke it off.
pub open spec fn converts_from(s: Seq<char>, i: int) -> bool
    decreases s.len() - i,
{
    if i < 0 || i >= s.len() {
        false
    } else if s[i] != '%' {
        converts_from(s, i + 1)
    } else if i + 1 >= s.len() {
        false
    } else if s[i + 1] == '%' {
        converts_from(s, i + 2)
    } else {
        proof {
            lemma_conversion_at(s, i + 1);
        }
        let c = conversion_at(s, i + 1);
        (c < s.len() && is_conversion(s[c])) || converts_from(s, c)
    }
}

fn flag(c: char) -> (r: bool)
    ensures
        r == is_flag(c),
{
    c == '-' || c == '+' || c == ' ' || c == '#' || c == '0'
}

fn length_char(c: char) -> (r: bool)
    ensures
        r == is_length_char(c),
{
    c == 'h' || c == 'l' || c == 'j' || c == 'z' || c == 't' || c == 'L'
}

fn float_conversion(c: char) -> (r: bool)
    ensures
        r == is_float_conversion(c),
{
    c == 'e' || c == 'E' || c == 'f' || c == 'F' || c == 'g' || c == 'G'
}

fn conversion(c: char) -> (r: bool)
    ensures
        r == is_conversion(c),
{
    c == 'd' || c == 'i' || c == 'o' || c == 'u' || c == 'x' || c == 'X' || c == 'e' || c == 'E'
        || c == 'f' || c == 'g' || c == 'G' || c == 'c' || c == 's' || c == 'p' || c == 'n'
}

/// True if `c` stands at position `i`.
pub fn char_at(chars: &[char], i: usize, c: char) -> (r: bool)
    ensures
        r == has_at(chars@, i as int, c),
{
    i < chars.len() && chars[i] == c
}

fn flags_stop(chars: &[char], i: usize) -> (r: usize)
    requires
        i <= chars.len(),
    ensures
        r == flags_end(chars@, i as int),
        i <= r <= chars.len(),
{
    let mut j: usize = i;
    while j < chars.len() && flag(chars[j])
        invariant
            i <= j <= chars.len(),
            flags_end(chars@, j as int) == flags_end(chars@, i as int),
        decreases chars.len() - j,
    {
        j += 1;
    }
    j
}

fn lengths_stop(chars: &[char], i: usize) -> (r: usize)
    requires
        i <= chars.len(),
    ensures
        r == lengths_end(chars@, i as int),
        i <= r <= chars.len(),
{
    let mut j: usize = i;
    while j < chars.len() && length_char(chars[j])
        invariant
            i <= j <= chars.len(),
            lengths_end(chars@, j as int) == lengths_end(chars@, i as int),
        decreases chars.len() - j,
    {
        j += 1;
    }
    j
}

fn count_stop(chars: &[char], i: usize) -> (r: usize)
    requires
        i <= chars.len(),
    ensures
        r == count_end(chars@, i as int),
        i <= r <= chars.len(),
{
    if char_at(chars, i, '*') {
        i + 1
    } else {
        digits_stop(chars, i)
    }
}

fn precision_stop(chars: &[char], i: usize) -> (r: usize)
    requires
        i <= chars.len(),
    ensures
        r == precision_end(chars@, i as int),
        i <= r <= chars.len(),
{
    if char_at(chars, i, '.') {
        count_stop(chars, i + 1)
    } else {
        i
    }
}

/// True if `fmt` contains at least one active printf conversion — a `%` (not
/// `%%`) followed by optional flags/width/precision/length modifiers and then a
/// conversion character in `[diouxXeEfgGcspn]`. Used by [`render_format`] to
/// keep mixed strings on the printf path.
pub fn has_printf_conversion(fmt: &str) -> (r: bool)
    ensures
        r == converts_from(fmt@, 0),
{
    let text = chars_of(fmt);
    let chars = text.as_slice();
    let mut i: usize = 0;
    while i < chars.len()
        invariant
            chars@ == fmt@,
            i <= chars.len(),
            converts_from(fmt@, 0) == converts_from(fmt@, i as int),
        decreases chars.len() - i,
    {
        if chars[i] != '%' {
            i += 1;
        } else if i + 1 >= chars.len() {
            return false;
        } else if chars[i + 1] == '%' {
            i += 2;
        } else {
            let w = count_stop(chars, flags_stop(chars, i + 1));
            let c = lengths_stop(chars, precision_stop(chars, w));
            if c < chars.len() && conversion(chars[c]) {
                return true;
            }
            i = c;
        }
    }
    false
}

// ---- Typed values ----

/// C printf length modifier, used to pick the Rust integer width for `sprintf`.
#[derive(Debug, Clone, Copy, PartialEq, Eq, Structural)]
pub enum Length {
    /// No length modifier (default int width).
    Plain,
    /// `hh` — `signed char` / `unsigned char`.
    Char,
    /// `h` — `short` / `unsigned short`.
    Short,
    /// `l` — `long` / `unsigned long`.
    Long,
    /// `ll` — `long long` / `unsigned long long`.
    LongLong,
    /// `z` — `size_t` / `ssize_t`.
    Size,
    /// `j` — `intmax_t` / `uintmax_t`.
    IntMax,
    /// `t` — `ptrdiff_t`.
    PtrDiff,
    /// `L` — `long double` (treated as 32-bit on ESP32, same as no modifier).
    LongDouble,
}

/// The length modifier at position `i` and the position behind it.
pub open spec fn length_at(s: Seq<char>, i: int) -> (Length, int) {
    if has_at(s, i, 'h') {
        if has_at(s, i + 1, 'h') {
            (Length::Char, i + 2)
        } else {
            (Length::Short, i + 1)
        }
    } else if has_at(s, i, 'l') {
        if has_at(s, i + 1, 'l') {
            (Length::LongLong, i + 2)
        } else {
            (Length::Long, i + 1)
        }
    } else if has_at(s, i, 'z') {
        (Length::Size, i + 1)
    } else if has_at(s, i, 'j') {
        (Length::IntMax, i + 1)
    } else if has_at(s, i, 't') {
        (Length::PtrDiff, i + 1)
    } else if has_at(s, i, 'L') {
        (Length::LongDouble, i + 1)
    } else {
        (Length::Plain, i)
    }
}

/// Reads a C printf length modifier at position `i`, and gives the position
/// behind it.
fn parse_length(chars: &[char], i: usize) -> (r: (Length, usize))
    requires
        i <= chars.len(),
    ensures
        (r.0, r.1 as int) == length_at(chars@, i as int),
        i <= r.1 <= chars.len(),
{
    if char_at(chars, i, 'h') {
        if char_at(chars, i + 1, 'h') {
            (Length::Char, i + 2)
        } else {
            (Length::Short, i + 1)
        }
    } else if char_at(chars, i, 'l') {
        if char_at(chars, i + 1, 'l') {
            (Length::LongLong, i + 2)
        } else {
            (Length::Long, i + 1)
        }
    } else if char_at(chars, i, 'z') {
        (Length::Size, i + 1)
    } else if char_at(chars, i, 'j') {
        (Length::IntMax, i + 1)
    } else if char_at(chars, i, 't') {
        (Length::PtrDiff, i + 1)
    } else if char_at(chars, i, 'L') {
        (Length::LongDouble, i + 1)
    } else {
        (Length::Plain, i)
    }
}

/// A value of the Rust type that its conversion expects.
#[derive(Debug, Clone, PartialEq, Eq)]
pub enum Value {
    /// Signed 8-bit integer (from `%hhd` conversion).
    I8(i8),
    /// Unsigned 8-bit integer (from `%hhu` conversion).
    U8(u8),
    /// Signed 16-bit integer (from `%hd` conversion).
    I16(i16),
    /// Unsigned 16-bit integer (from `%hu` conversion).
    U16(u16),
    /// Signed 32-bit integer (from `%d`, `%ld`, `%zd`, etc. on ESP32).
    I32(i32),
    /// Unsigned 32-bit integer (from `%u`, `%x`, `%lx`, etc. on ESP32).
    U32(u32),
    /// Signed 64-bit integer (from `%lld` conversion).
    I64(i64),
    /// Unsigned 64-bit integer (from `%llu`, `%llx`, etc.).
    U64(u64),
    /// A binary64 floating-point value, by its bit pattern (from `%f`, `%e`, `%g`).
    Float(u64),
    /// Text.
    Str(String),
    /// An address (from `%p` conversion).
    Ptr(usize),
}

/// A typed value.
#[verifier::ext_equal]
pub enum ValueV {
    I8(i8),
    U8(u8),
    I16(i16),
    U16(u16),
    I32(i32),
    U32(u32),
    I64(i64),
    U64(u64),
    Float(u64),
    Str(Seq<char>),
    Ptr(usize),
}

impl View for Value {
    type V = ValueV;

    open spec fn view(&self) -> ValueV {
        match *self {
            Value::I8(v) => ValueV::I8(v),
            Value::U8(v) => ValueV::U8(v),
            Value::I16(v) => ValueV::I16(v),
            Value::U16(v) => ValueV::U16(v),
            Value::I32(v) => ValueV::I32(v),
            Value::U32(v) => ValueV::U32(v),
            Value::I64(v) => ValueV::I64(v),
            Value::U64(v) => ValueV::U64(v),
            Value::Float(v) => ValueV::Float(v),
            Value::Str(s) => ValueV::Str(s@),
            Value::Ptr(v) => ValueV::Ptr(v),
        }
    }
}

/// The values of a list.
pub open spec fn value_views(values: Seq<Value>) -> Seq<ValueV> {
    Seq::new(values.len(), |i: int| values[i]@)
}

/// `v` cut to the signed integer of length `len`. On ESP32 targets `long`,
/// `size_t` and `ptrdiff_t` are 32 bits wide.
pub open spec fn signed_value(v: u64, len: Length) -> ValueV {
    match len {
        Length::Char => ValueV::I8(v as u8 as i8),
        Length::Short => ValueV::I16(v as u16 as i16),
        Length::LongLong | Length::IntMax => ValueV::I64(v as i64),
        _ => ValueV::I32(v as u32 as i32),
    }
}

/// `v` cut to the unsigned integer of length `len`.
pub open spec fn unsigned_value(v: u64, len: Length) -> ValueV {
    match len {
        Length::Char => ValueV::U8(v as u8),
        Length::Short => ValueV::U16(v as u16),
        Length::LongLong | Length::IntMax => ValueV::U64(v),
        _ => ValueV::U32(v as u32),
    }
}

/// The value that the conversion `conv` with length `len` makes of `arg`.
pub open spec fn value_of(len: Length, conv: char, arg: ArgV) -> ValueV {
    match arg {
        ArgV::Str(Some(b)) => ValueV::Str(lossy_utf8(b)),
        ArgV::Str(None) => ValueV::Str("(null)"@),
        ArgV::Ptr(v) | ArgV::U32(v) => if conv == 'p' {
            ValueV::Ptr(v as usize)
        } else if conv == 'd' || conv == 'i' {
            signed_value(v as u64, len)
        } else {
            unsigned_value(v as u64, len)
        },
        ArgV::U64(v) => if conv == 'p' {
            ValueV::Ptr(v as usize)
        } else if conv == 'd' || conv == 'i' {
            signed_value(v, len)
        } else if is_float_conversion(conv) {
            ValueV::Float(v)
        } else {
            unsigned_value(v, len)
        },
    }
}

/// Casts a raw value to the signed integer width indicated by `len`.
fn signed_int(v: u64, len: Length) -> (r: Value)
    ensures
        r@ == signed_value(v, len),
{
    match len {
        Length::Char => Value::I8(v as u8 as i8),
        Length::Short => Value::I16(v as u16 as i16),
        Length::LongLong | Length::IntMax => Value::I64(v as i64),
        _ => Value::I32(v as u32 as i32),
    }
}

/// Casts a raw value to the unsigned integer width indicated by `len`.
fn unsigned_int(v: u64, len: Length) -> (r: Value)
    ensures
        r@ == unsigned_value(v, len),
{
    match len {
        Length::Char => Value::U8(v as u8),
        Length::Short => Value::U16(v as u16),
        Length::LongLong | Length::IntMax => Value::U64(v),
        _ => Value::U32(v as u32),
    }
}

/// Coerces a wire argument to the Rust type its conversion character expects.
fn value_to_owned(len: Length, conv: char, arg: &Arg) -> (r: Value)
    ensures
        r@ == value_of(len, conv, arg@),
{
    match arg {
        Arg::Str(Some(b)) => Value::Str(lossy_text(b.as_slice())),
        Arg::Str(None) => Value::Str("(null)".to_string()),
        Arg::Ptr(v) | Arg::U32(v) => if conv == 'p' {
            Value::Ptr(*v as usize)
        } else if conv == 'd' || conv == 'i' {
            signed_int(*v as u64, len)
        } else {
            unsigned_int(*v as u64, len)
        },
        Arg::U64(v) => if conv == 'p' {
            Value::Ptr(*v as usize)
        } else if conv == 'd' || conv == 'i' {
            signed_int(*v, len)
        } else if float_conversion(conv) {
            Value::Float(*v)
        } else {
            unsigned_int(*v, len)
        },
    }
}

// ---- Resolving one conversion ----

/// The integer that a `*` takes from the argument at `ai`; 0 where none is left.
pub open spec fn star_value(args: Seq<ArgV>, ai: int) -> i64 {
    if 0 <= ai < args.len() {
        match args[ai] {
            ArgV::U32(v) | ArgV::Ptr(v) => v as i32 as i64,
            ArgV::U64(v) => v as i64,
            ArgV::Str(_) => 0,
        }
    } else {
        0
    }
}

/// The argument index behind a `*`.
pub open spec fn star_next(args: Seq<ArgV>, ai: int) -> int {
    if ai < args.len() {
        ai + 1
    } else {
        ai
    }
}

/// The magnitude of a `*` count, held to [`MAX_RENDER_COUNT`].
pub open spec fn bounded_count(v: i64) -> nat {
    let n = if v < 0 {
        -v as int
    } else {
        v as int
    };
    if n < MAX_RENDER_COUNT {
        n as nat
    } else {
        MAX_RENDER_COUNT as nat
    }
}

/// The text of a resolved `*` width: a negative width is left-justification with
/// its magnitude, zero is no padding. `minus` says that a `-` flag stands already.
pub open spec fn width_text(v: i64, minus: bool) -> Seq<char> {
    if v < 0 && !minus {
        seq!['-'] + decimal(bounded_count(v))
    } else if v != 0 {
        decimal(bounded_count(v))
    } else {
        Seq::empty()
    }
}

/// The text of a resolved `.*` precision: a negative one counts as omitted.
pub open spec fn precision_text(v: i64) -> Seq<char> {
    if v >= 0 {
        seq!['.'] + decimal(bounded_count(v))
    } else {
        Seq::empty()
    }
}

/// A conversion up to its conversion character, with every `*` resolved.
#[verifier::ext_equal]
pub struct DirectiveV {
    /// From the `%` to the length modifier.
    pub text: Seq<char>,
    /// Position of the conversion character.
    pub end: int,
    /// Index of the first argument that no `*` took.
    pub ai: int,
    /// Length modifier.
    pub len: Length,
}

/// The conversion whose flags start at `i`.
pub open spec fn directive_at(s: Seq<char>, i: int, args: Seq<ArgV>, ai: int) -> DirectiveV {
    let f = flags_end(s, i);
    let flags = s.subrange(i, f);
    let minus = flags.contains('-');
    let w = count_end(s, f);
    let star = has_at(s, f, '*');
    let wv = star_value(args, ai);
    let (width_chars, ai1) = if star {
        (width_text(wv, minus), star_next(args, ai))
    } else {
        (s.subrange(f, w), ai)
    };
    let p = precision_end(s, w);
    let dot_star = has_at(s, w, '.') && has_at(s, w + 1, '*');
    let (precision_chars, ai2) = if dot_star {
        (precision_text(star_value(args, ai1)), star_next(args, ai1))
    } else {
        (s.subrange(w, p), ai1)
    };
    let (len, e) = length_at(s, p);
    DirectiveV {
        text: seq!['%'] + flags + width_chars + precision_chars + s.subrange(p, e),
        end: e,
        ai: ai2,
        len,
    }
}

struct Directive {
    text: String,
    end: usize,
    ai: usize,
    len: Length,
}

impl Directive {
    spec fn means(&self, d: DirectiveV) -> bool {
        &&& self.text@ == d.text
        &&& self.end == d.end
        &&& self.ai == d.ai
        &&& self.len == d.len
    }
}

/// Reads the next wire argument's integer value (for `*` counts); 0 if no
/// arguments remain.
fn next_int(args: &[Arg], ai: usize) -> (r: (i64, usize))
    requires
        ai <= args.len(),
    ensures
        r.0 == star_value(arg_views(args@), ai as int),
        r.1 == star_next(arg_views(args@), ai as int),
        ai <= r.1 <= args.len(),
{
    if ai < args.len() {
        let v = match &args[ai] {
            Arg::U32(v) | Arg::Ptr(v) => *v as i32 as i64,
            Arg::U64(v) => *v as i64,
            Arg::Str(_) => 0,
        };
        (v, ai + 1)
    } else {
        (0, ai)
    }
}

fn magnitude(v: i64) -> (r: u64)
    ensures
        r == bounded_count(v),
        r <= MAX_RENDER_COUNT,
{
    let max: i64 = MAX_RENDER_COUNT as i64;
    if v <= -max || v >= max {
        MAX_RENDER_COUNT as u64
    } else if v < 0 {
        (-v) as u64
    } else {
        v as u64
    }
}

/// Emits a resolved `*` width into the format.
fn push_width_literal(out: &mut String, v: i64, has_minus_flag: bool)
    ensures
        final(out)@ == old(out)@ + width_text(v, has_minus_flag),
{
    if v < 0 && !has_minus_flag {
        out.push('-');
    }
    if v != 0 {
        out.append(decimal_string(magnitude(v)).as_str());
    }
    assert(out@ =~= old(out)@ + width_text(v, has_minus_flag));
}

/// Emits a resolved `.*` precision into the format.
fn push_precision_literal(out: &mut String, v: i64)
    ensures
        final(out)@ == old(out)@ + precision_text(v),
{
    if v >= 0 {
        out.push('.');
        out.append(decimal_string(magnitude(v)).as_str());
    }
    assert(out@ =~= old(out)@ + precision_text(v));
}

fn contains_between(chars: &[char], from: usize, to: usize, c: char) -> (r: bool)
    requires
        from <= to <= chars.len(),
    ensures
        r == chars@.subrange(from as int, to as int).contains(c),
{
    let ghost run = chars@.subrange(from as int, to as int);
    let mut i: usize = from;
    while i < to
        invariant
            from <= i <= to <= chars.len(),
            run == chars@.subrange(from as int, to as int),
            forall|k: int| 0 <= k < i - from ==> run[k] != c,
        decreases to - i,
    {
        if chars[i] == c {
            assert(run[i - from] == c);
            return true;
        }
        i += 1;
    }
    false
}

/// Reads the conversion whose flags start at `i`, taking `*` counts from the
/// arguments at and after `ai`.
fn parse_directive(chars: &[char], i: usize, args: &[Arg], ai: usize) -> (r: Directive)
    requires
        i <= chars.len(),
        ai <= args.len(),
    ensures
        r.means(directive_at(chars@, i as int, arg_views(args@), ai as int)),
        i <= r.end <= chars.len(),
        r.ai <= args.len(),
{
    let ghost views = arg_views(args@);
    let mut text = String::new();
    text.push('%');

    let f = flags_stop(chars, i);
    push_chars(&mut text, chars, i, f);
    let minus = contains_between(chars, i, f, '-');

    let w = count_stop(chars, f);
    let mut ai1: usize = ai;
    if char_at(chars, f, '*') {
        let (v, next) = next_int(args, ai);
        ai1 = next;
        push_width_literal(&mut text, v, minus);
    } else {
        push_chars(&mut text, chars, f, w);
    }

    let p = precision_stop(chars, w);
    let mut ai2: usize = ai1;
    if char_at(chars, w, '.') && char_at(chars, w + 1, '*') {
        let (v, next) = next_int(args, ai1);
        ai2 = next;
        push_precision_literal(&mut text, v);
    } else {
        push_chars(&mut text, chars, w, p);
    }

    let (len, end) = parse_length(chars, p);
    push_chars(&mut text, chars, p, end);
    let ghost d = directive_at(chars@, i as int, views, ai as int);
    assert(text@ =~= d.text);
    Directive { text, end, ai: ai2, len }
}

// ---- Rewriting a format string ----

/// One step of the scan.
#[verifier::ext_equal]
pub struct StepV {
    /// What stands in the rewritten format string.
    pub text: Seq<char>,
    /// Position of the next step.
    pub next: int,
    /// Index of the next argument.
    pub ai: int,
    /// The value that a conversion takes.
    pub value: Option<ValueV>,
}

/// The step at position `i`: a character that is no `%`, a doubled `%`, or a
/// conversion, which takes one argument if any is left.
pub open spec fn step_at(s: Seq<char>, i: int, args: Seq<ArgV>, ai: int) -> StepV {
    if s[i] != '%' {
        StepV { text: seq![s[i]], next: i + 1, ai, value: None }
    } else if has_at(s, i + 1, '%') {
        StepV { text: seq!['%', '%'], next: i + 2, ai, value: None }
    } else {
        let d = directive_at(s, i + 1, args, ai);
        if d.end >= s.len() {
            StepV { text: d.text, next: d.end, ai: d.ai, value: None }
        } else {
            let conv = s[d.end];
            let text = d.text.push(conv);
            let next = d.end + 1;
            if d.ai >= args.len() {
                StepV { text, next, ai: d.ai, value: None }
            } else {
                StepV { text, next, ai: d.ai + 1, value: Some(value_of(d.len, conv, args[d.ai])) }
            }
        }
    }
}

pub proof fn lemma_step_at(s: Seq<char>, i: int, args: Seq<ArgV>, ai: int)
    requires
        0 <= i < s.len(),
    ensures
        i < step_at(s, i, args, ai).next <= s.len(),
{
    if s[i] == '%' && !has_at(s, i + 1, '%') {
        lemma_precision_end(s, i + 1);
    }
}

/// A format string with the values that its conversions take.
#[verifier::ext_equal]
pub struct RewrittenV {
    pub fmt: Seq<char>,
    pub values: Seq<ValueV>,
}

/// The elements of an option.
pub open spec fn elements<A>(x: Option<A>) -> Seq<A> {
    match x {
        Some(a) => seq![a],
        None => Seq::empty(),
    }
}

/// The format string from position `i` on, rewritten.
pub open spec fn rewritten_from(s: Seq<char>, i: int, args: Seq<ArgV>, ai: int) -> RewrittenV
    decreases s.len() - i,
{
    if i < 0 || i >= s.len() {
        RewrittenV { fmt: Seq::empty(), values: Seq::empty() }
    } else {
        proof {
            lemma_step_at(s, i, args, ai);
        }
        let step = step_at(s, i, args, ai);
        let rest = rewritten_from(s, step.next, args, step.ai);
        RewrittenV { fmt: step.text + rest.fmt, values: elements(step.value) + rest.values }
    }
}

/// `fmt` rewritten for `args`.
pub open spec fn rewritten(fmt: Seq<char>, args: Seq<ArgV>) -> RewrittenV {
    rewritten_from(fmt, 0, args, 0)
}

struct Step {
    text: String,
    next: usize,
    ai: usize,
    value: Option<Value>,
}

impl Step {
    spec fn means(&self, v: StepV) -> bool {
        &&& self.text@ == v.text
        &&& self.next == v.next
        &&& self.ai == v.ai
        &&& match self.value {
            Some(x) => v.value == Some(x@),
            None => v.value is None,
        }
    }
}

/// The text made of the two characters `a` and `b`.
fn pair(a: char, b: char) -> (r: String)
    ensures
        r@ == seq![a, b],
{
    let mut text = String::new();
    text.push(a);
    text.push(b);
    assert(text@ =~= seq![a, b]);
    text
}

/// The text made of the character `c`.
fn single(c: char) -> (r: String)
    ensures
        r@ == seq![c],
{
    let mut text = String::new();
    text.push(c);
    assert(text@ =~= seq![c]);
    text
}

/// Takes the step at position `i`.
fn take_step(chars: &[char], i: usize, args: &[Arg], ai: usize) -> (r: Step)
    requires
        i < chars.len(),
        ai <= args.len(),
    ensures
        r.means(step_at(chars@, i as int, arg_views(args@), ai as int)),
        i < r.next <= chars.len(),
        r.ai <= args.len(),
{
    if chars[i] != '%' {
        return Step { text: single(chars[i]), next: i + 1, ai, value: None };
    }
    if char_at(chars, i + 1, '%') {
        return Step { text: pair('%', '%'), next: i + 2, ai, value: None };
    }
    let d = parse_directive(chars, i + 1, args, ai);
    if d.end >= chars.len() {
        return Step { text: d.text, next: d.end, ai: d.ai, value: None };
    }
    let conv = chars[d.end];
    let next = d.end + 1;
    let mut text = d.text;
    text.push(conv);
    if d.ai >= args.len() {
        return Step { text, next, ai: d.ai, value: None };
    }
    let value = value_to_owned(d.len, conv, &args[d.ai]);
    Step { text, next, ai: d.ai + 1, value: Some(value) }
}

/// A format string with the values that its conversions take.
#[derive(Debug, Clone, PartialEq, Eq)]
pub struct Rewritten {
    /// The format string.
    pub fmt: String,
    /// One value per conversion that found an argument.
    pub values: Vec<Value>,
}

impl View for Rewritten {
    type V = RewrittenV;

    open spec fn view(&self) -> RewrittenV {
        RewrittenV { fmt: self.fmt@, values: value_views(self.values@) }
    }
}

/// Rewrites `fmt` for `sprintf`, consuming `args` left-to-right: `*` counts become
/// literals, and each argument becomes a value of the type that its conversion
/// character asks for.
pub fn rewrite(fmt: &str, args: &[Arg]) -> (r: Rewritten)
    ensures
        r@ == rewritten(fmt@, arg_views(args@)),
{
    let text = chars_of(fmt);
    let chars = text.as_slice();
    let ghost views = arg_views(args@);
    let ghost whole = rewritten(fmt@, views);
    let mut new_fmt = String::new();
    let mut values: Vec<Value> = Vec::new();
    let mut i: usize = 0;
    let mut ai: usize = 0;
    assert(new_fmt@ + whole.fmt =~= whole.fmt);
    assert(value_views(values@) + whole.values =~= whole.values);
    while i < chars.len()
        invariant
            chars@ == fmt@,
            views == arg_views(args@),
            i <= chars.len(),
            ai <= args.len(),
            new_fmt@ + rewritten_from(fmt@, i as int, views, ai as int).fmt == whole.fmt,
            value_views(values@) + rewritten_from(fmt@, i as int, views, ai as int).values
                == whole.values,
        decreases chars.len() - i,
    {
        let ghost fmt_before = new_fmt@;
        let ghost values_before = values@;
        let ghost all = rewritten_from(fmt@, i as int, views, ai as int);
        let step = take_step(chars, i, args, ai);
        new_fmt.append(step.text.as_str());
        if let Some(v) = step.value {
            values.push(v);
        }
        i = step.next;
        ai = step.ai;
        proof {
            let rest = rewritten_from(fmt@, i as int, views, ai as int);
            assert(all.fmt == step.text@ + rest.fmt);
            assert(new_fmt@ + rest.fmt =~= fmt_before + (step.text@ + rest.fmt));
            assert(value_views(values@) + rest.values =~= value_views(values_before) + all.values);
        }
    }
    assert(new_fmt@ =~= whole.fmt);
    assert(value_views(values@) =~= whole.values);
    Rewritten { fmt: new_fmt, values }
}

// ---- Reading the result as `sprintf` does ----

/// A character that the parser of `sprintf` takes as a length modifier.
pub open spec fn is_sprintf_length(c: char) -> bool {
    is_length_char(c) || c == 'q' || c == 'Z'
}

/// Position behind the one length modifier that `sprintf` reads at `i`.
pub open spec fn sprintf_length_end(s: Seq<char>, i: int) -> int {
    if (has_at(s, i, 'h') && has_at(s, i + 1, 'h')) || (has_at(s, i, 'l') && has_at(
        s,
        i + 1,
        'l',
    )) {
        i + 2
    } else if 0 <= i < s.len() && is_sprintf_length(s[i]) {
        i + 1
    } else {
        i
    }
}

/// A conversion character of `sprintf` that takes a value.
pub open spec fn takes_value(c: char) -> bool {
    ||| is_decimal_conversion(c)
    ||| c == 'o' || c == 'x' || c == 'X' || c == 'p'
    ||| is_float_conversion(c)
    ||| c == 'c' || c == 'C' || c == 's' || c == 'S'
}

/// A conversion character that prints an integer in decimal.
pub open spec fn is_decimal_conversion(c: char) -> bool {
    c == 'd' || c == 'i' || c == 'u'
}

/// The integer that a value stands for as a width; an address, a floating-point
/// value or a text is none, nor is an integer that 32 bits cannot hold.
pub open spec fn as_width(v: ValueV) -> Option<int> {
    let n = match v {
        ValueV::I8(x) => Some(x as int),
        ValueV::U8(x) => Some(x as int),
        ValueV::I16(x) => Some(x as int),
        ValueV::U16(x) => Some(x as int),
        ValueV::I32(x) => Some(x as int),
        ValueV::U32(x) => Some(x as int),
        ValueV::I64(x) => Some(x as int),
        ValueV::U64(x) => Some(x as int),
        ValueV::Float(_) | ValueV::Str(_) | ValueV::Ptr(_) => None,
    };
    match n {
        Some(x) => if i32::MIN <= x <= i32::MAX {
            Some(x)
        } else {
            None
        },
        None => None,
    }
}

/// What a conversion is given.
#[verifier::ext_equal]
pub enum SlotV {
    /// A value.
    Value(ValueV),
    /// A text that the caller computes.
    Text(FloatFieldV),
}

/// The text of the least 64-bit integer in a field.
pub open spec fn min_i64_text(left: bool, zero: bool, width: nat) -> Seq<char> {
    let digits = decimal(0x8000_0000_0000_0000);
    if left {
        padded_end(seq!['-'] + digits, width, ' ')
    } else if zero && width > 0 {
        seq!['-'] + padded_start(digits, (width - 1) as nat, '0')
    } else {
        padded_start(seq!['-'] + digits, width, ' ')
    }
}

/// A conversion without `*`, with the character `conv` at its end.
#[verifier::ext_equal]
pub struct FieldV {
    /// The whole conversion.
    pub text: Seq<char>,
    /// Conversion character.
    pub conv: char,
    /// Left-justified.
    pub left: bool,
    /// Zero-padded.
    pub zero: bool,
    /// Field width.
    pub width: nat,
}

/// The conversion and what it is given, for a value `v` that meets `field`.
///
/// A floating-point value becomes a text of the caller's under a conversion of such
/// a value. Under any other conversion it has the wrong type, and so has the integer
/// that a `%s` is given in its place. The least 64-bit integer becomes a text in
/// decimal, and the unsigned integer with the same bits elsewhere.
pub open spec fn met(field: FieldV, v: ValueV) -> (Seq<char>, SlotV) {
    match v {
        ValueV::Float(bits) => if is_float_conversion(field.conv) {
            (
                seq!['%', 's'],
                SlotV::Text(FloatFieldV::Printf { conversion: field.text, bits }),
            )
        } else {
            (seq!['%', 's'], SlotV::Value(ValueV::U64(bits)))
        },
        ValueV::I64(x) => if x != i64::MIN {
            (field.text, SlotV::Value(v))
        } else if is_decimal_conversion(field.conv) {
            (
                seq!['%', 's'],
                SlotV::Value(ValueV::Str(min_i64_text(field.left, field.zero, field.width))),
            )
        } else {
            (field.text, SlotV::Value(ValueV::U64(0x8000_0000_0000_0000)))
        },
        _ => (field.text, SlotV::Value(v)),
    }
}

/// One step of the second scan.
#[verifier::ext_equal]
pub struct MeetingV {
    /// What stands in the prepared format string.
    pub text: Seq<char>,
    /// Position of the next step.
    pub next: int,
    /// Index of the next value.
    pub vi: int,
    /// What a conversion is given.
    pub slot: Option<SlotV>,
}

/// True if the literal counts of a conversion, whose width stands at `f` and whose
/// precision starts at `w` and ends at `p`, are not above [`MAX_LITERAL_COUNT`].
pub open spec fn literals_fit(s: Seq<char>, f: int, w: int, p: int) -> bool {
    &&& has_at(s, f, '*') || decimal_value(s.subrange(f, w)) <= MAX_LITERAL_COUNT
    &&& !has_at(s, w, '.') || has_at(s, w + 1, '*') || decimal_value(s.subrange(w + 1, p))
        <= MAX_LITERAL_COUNT
}

/// The step at position `i`: a character that is no `%`, or a conversion as `sprintf`
/// reads it.
///
/// A conversion that `sprintf` cannot read, or whose literal counts are too large,
/// stays as it is. Otherwise a `*` width takes the next value, which is no width if
/// it is negative, and a `*` precision counts as omitted. A `%s` that is given
/// nothing, or an integer, stands for a conversion whose `*` finds no value, or one
/// that is no integer.
pub open spec fn meeting_at(s: Seq<char>, i: int, values: Seq<ValueV>, vi: int) -> MeetingV {
    if s[i] != '%' {
        MeetingV { text: seq![s[i]], next: i + 1, vi, slot: None }
    } else {
        let f = flags_end(s, i + 1);
        let w = count_end(s, f);
        let p = precision_end(s, w);
        let e = sprintf_length_end(s, p);
        if e >= s.len() {
            MeetingV { text: s.subrange(i, e), next: e, vi, slot: None }
        } else if !literals_fit(s, f, w, p) || !(takes_value(s[e]) || s[e] == '%') {
            MeetingV { text: s.subrange(i, e + 1), next: e + 1, vi, slot: None }
        } else if s[e] == '%' {
            MeetingV { text: seq!['%', '%'], next: e + 1, vi, slot: None }
        } else if has_at(s, f, '*') && vi >= values.len() {
            MeetingV { text: seq!['%', 's'], next: e + 1, vi, slot: None }
        } else if has_at(s, f, '*') && as_width(values[vi]) is None {
            MeetingV {
                text: seq!['%', 's'],
                next: e + 1,
                vi: vi + 1,
                slot: Some(SlotV::Value(ValueV::U64(0))),
            }
        } else {
            let flags = s.subrange(i + 1, f);
            let star = has_at(s, f, '*');
            let width = if !star {
                decimal_value(s.subrange(f, w))
            } else if as_width(values[vi])->0 > 0 {
                as_width(values[vi])->0 as nat
            } else {
                0
            };
            let width_chars = if !star {
                s.subrange(f, w)
            } else if width > 0 {
                decimal(width)
            } else {
                Seq::empty()
            };
            let precision_chars = if has_at(s, w, '.') && has_at(s, w + 1, '*') {
                Seq::empty()
            } else {
                s.subrange(w, p)
            };
            let field = FieldV {
                text: seq!['%'] + flags + width_chars + precision_chars + s.subrange(p, e + 1),
                conv: s[e],
                left: flags.contains('-'),
                zero: flags.contains('0'),
                width,
            };
            let vi1 = if star {
                vi + 1
            } else {
                vi
            };
            if vi1 >= values.len() {
                MeetingV { text: field.text, next: e + 1, vi: vi1, slot: None }
            } else {
                let (text, slot) = met(field, values[vi1]);
                MeetingV { text, next: e + 1, vi: vi1 + 1, slot: Some(slot) }
            }
        }
    }
}

pub proof fn lemma_meeting_at(s: Seq<char>, i: int, values: Seq<ValueV>, vi: int)
    requires
        0 <= i < s.len(),
    ensures
        i < meeting_at(s, i, values, vi).next <= s.len(),
{
    if s[i] == '%' {
        lemma_precision_end(s, i + 1);
    }
}

/// A format string with what its conversions are given.
#[verifier::ext_equal]
pub struct PreparedV {
    pub fmt: Seq<char>,
    pub slots: Seq<SlotV>,
}

/// The format string from position `i` on, prepared with the values at and after
/// `vi`. Values that no conversion meets are kept behind the others.
pub open spec fn prepared_from(s: Seq<char>, i: int, values: Seq<ValueV>, vi: int) -> PreparedV
    decreases s.len() - i,
{
    if i < 0 || i >= s.len() {
        PreparedV { fmt: Seq::empty(), slots: unmet(values, vi) }
    } else {
        proof {
            lemma_meeting_at(s, i, values, vi);
        }
        let m = meeting_at(s, i, values, vi);
        let rest = prepared_from(s, m.next, values, m.vi);
        PreparedV { fmt: m.text + rest.fmt, slots: elements(m.slot) + rest.slots }
    }
}

/// What stands for a value that no conversion meets. Its kind is not looked at, so
/// any integer does for one that cannot be handed over.
pub open spec fn spare(v: ValueV) -> SlotV {
    if v is Float || v == ValueV::I64(i64::MIN) {
        SlotV::Value(ValueV::U64(0))
    } else {
        SlotV::Value(v)
    }
}

/// What stands for the values at and after `vi`.
pub open spec fn unmet(values: Seq<ValueV>, vi: int) -> Seq<SlotV> {
    if 0 <= vi <= values.len() {
        Seq::new((values.len() - vi) as nat, |k: int| spare(values[vi + k]))
    } else {
        Seq::empty()
    }
}

/// A format string and its values, prepared.
pub open spec fn prepared(r: RewrittenV) -> PreparedV {
    prepared_from(r.fmt, 0, r.values, 0)
}

/// The texts that a list of slots asks for, from slot `k` on.
pub open spec fn fields_from(slots: Seq<SlotV>, k: int) -> Seq<FloatFieldV>
    decreases slots.len() - k,
{
    if k < 0 || k >= slots.len() {
        Seq::empty()
    } else {
        match slots[k] {
            SlotV::Text(f) => seq![f] + fields_from(slots, k + 1),
            SlotV::Value(_) => fields_from(slots, k + 1),
        }
    }
}

/// The values of a list of slots from slot `k` on, with the texts at and after `fi`.
pub open spec fn filled_from(slots: Seq<SlotV>, k: int, floats: Seq<Seq<char>>, fi: int) -> Seq<
    ValueV,
>
    decreases slots.len() - k,
{
    if k < 0 || k >= slots.len() {
        Seq::empty()
    } else {
        match slots[k] {
            SlotV::Text(_) => seq![ValueV::Str(floats[fi])] + filled_from(
                slots,
                k + 1,
                floats,
                fi + 1,
            ),
            SlotV::Value(v) => seq![v] + filled_from(slots, k + 1, floats, fi),
        }
    }
}

/// The floating-point texts that `render` needs for `fmt` and `args`.
pub open spec fn printf_floats(fmt: Seq<char>, args: Seq<ArgV>) -> Seq<FloatFieldV> {
    fields_from(prepared(rewritten(fmt, args)).slots, 0)
}

/// What is handed to `vsprintf` for `fmt` and `args`, with `floats` for the
/// floating-point texts.
pub open spec fn handed_over(
    fmt: Seq<char>,
    args: Seq<ArgV>,
    floats: Seq<Seq<char>>,
) -> RewrittenV {
    let p = prepared(rewritten(fmt, args));
    RewrittenV { fmt: p.fmt, values: filled_from(p.slots, 0, floats, 0) }
}

fn sprintf_length_stop(chars: &[char], i: usize) -> (r: usize)
    requires
        i <= chars.len(),
    ensures
        r == sprintf_length_end(chars@, i as int),
        i <= r <= chars.len(),
{
    if (char_at(chars, i, 'h') && char_at(chars, i + 1, 'h')) || (char_at(chars, i, 'l') && char_at(
        chars,
        i + 1,
        'l',
    )) {
        i + 2
    } else if i < chars.len() && (length_char(chars[i]) || chars[i] == 'q' || chars[i] == 'Z') {
        i + 1
    } else {
        i
    }
}

fn decimal_conversion(c: char) -> (r: bool)
    ensures
        r == is_decimal_conversion(c),
{
    c == 'd' || c == 'i' || c == 'u'
}

fn value_conversion(c: char) -> (r: bool)
    ensures
        r == takes_value(c),
{
    decimal_conversion(c) || c == 'o' || c == 'x' || c == 'X' || c == 'p' || float_conversion(c)
        || c == 'c' || c == 'C' || c == 's' || c == 'S'
}

fn width_of(v: &Value) -> (r: Option<i32>)
    ensures
        match r {
            Some(n) => as_width(v@) == Some(n as int),
            None => as_width(v@) is None,
        },
{
    match v {
        Value::I8(x) => Some(*x as i32),
        Value::U8(x) => Some(*x as i32),
        Value::I16(x) => Some(*x as i32),
        Value::U16(x) => Some(*x as i32),
        Value::I32(x) => Some(*x),
        Value::U32(x) => if *x <= 0x7fff_ffff {
            Some(*x as i32)
        } else {
            None
        },
        Value::I64(x) => if -0x8000_0000 <= *x && *x <= 0x7fff_ffff {
            Some(*x as i32)
        } else {
            None
        },
        Value::U64(x) => if *x <= 0x7fff_ffff {
            Some(*x as i32)
        } else {
            None
        },
        Value::Float(_) | Value::Str(_) | Value::Ptr(_) => None,
    }
}

/// What a conversion is given.
#[derive(Debug, Clone, PartialEq, Eq)]
pub enum Slot {
    /// A value.
    Value(Value),
    /// A text that the caller computes.
    Text(FloatField),
}

impl View for Slot {
    type V = SlotV;

    open spec fn view(&self) -> SlotV {
        match *self {
            Slot::Value(v) => SlotV::Value(v@),
            Slot::Text(f) => SlotV::Text(f@),
        }
    }
}

/// What the slots of a list hold.
pub open spec fn slot_views(slots: Seq<Slot>) -> Seq<SlotV> {
    Seq::new(slots.len(), |i: int| slots[i]@)
}

struct Field {
    text: String,
    conv: char,
    left: bool,
    zero: bool,
    width: usize,
}

impl View for Field {
    type V = FieldV;

    closed spec fn view(&self) -> FieldV {
        FieldV {
            text: self.text@,
            conv: self.conv,
            left: self.left,
            zero: self.zero,
            width: self.width as nat,
        }
    }
}

struct Meeting {
    text: String,
    next: usize,
    vi: usize,
    slot: Option<Slot>,
}

impl Meeting {
    spec fn means(&self, m: MeetingV) -> bool {
        &&& self.text@ == m.text
        &&& self.next == m.next
        &&& self.vi == m.vi
        &&& match self.slot {
            Some(x) => m.slot == Some(x@),
            None => m.slot is None,
        }
    }
}

fn min_i64(left: bool, zero: bool, width: usize) -> (r: String)
    ensures
        r@ == min_i64_text(left, zero, width as nat),
{
    let digits = decimal_string(0x8000_0000_0000_0000);
    let mut text = String::new();
    text.push('-');
    if !left && zero && width > 0 {
        text.append(pad_start(digits.as_str(), width - 1, '0').as_str());
        assert(text@ =~= min_i64_text(left, zero, width as nat));
        text
    } else {
        text.append(digits.as_str());
        assert(text@ =~= seq!['-'] + decimal(0x8000_0000_0000_0000));
        if left {
            pad_end(text.as_str(), width, ' ')
        } else {
            pad_start(text.as_str(), width, ' ')
        }
    }
}

/// A copy of `s`.
fn copied(s: &String) -> (r: String)
    ensures
        r@ == s@,
{
    s.as_str().to_string()
}

fn copied_value(v: &Value) -> (r: Value)
    ensures
        r@ == v@,
{
    match v {
        Value::I8(x) => Value::I8(*x),
        Value::U8(x) => Value::U8(*x),
        Value::I16(x) => Value::I16(*x),
        Value::U16(x) => Value::U16(*x),
        Value::I32(x) => Value::I32(*x),
        Value::U32(x) => Value::U32(*x),
        Value::I64(x) => Value::I64(*x),
        Value::U64(x) => Value::U64(*x),
        Value::Float(x) => Value::Float(*x),
        Value::Str(s) => Value::Str(copied(s)),
        Value::Ptr(x) => Value::Ptr(*x),
    }
}

/// What the conversion becomes, and what it is given, for the value `v`.
fn meet(field: Field, v: &Value) -> (r: (String, Slot))
    ensures
        (r.0@, r.1@) == met(field@, v@),
{
    match v {
        Value::Float(bits) => if float_conversion(field.conv) {
            let wanted = FloatField::Printf { conversion: field.text, bits: *bits };
            (pair('%', 's'), Slot::Text(wanted))
        } else {
            (pair('%', 's'), Slot::Value(Value::U64(*bits)))
        },
        Value::I64(x) => if *x != i64::MIN {
            (field.text, Slot::Value(Value::I64(*x)))
        } else if decimal_conversion(field.conv) {
            let min = min_i64(field.left, field.zero, field.width);
            (pair('%', 's'), Slot::Value(Value::Str(min)))
        } else {
            (field.text, Slot::Value(Value::U64(0x8000_0000_0000_0000)))
        },
        _ => (field.text, Slot::Value(copied_value(v))),
    }
}

/// The characters from `from` to `to`.
fn piece(chars: &[char], from: usize, to: usize) -> (r: String)
    requires
        from <= to <= chars.len(),
    ensures
        r@ == chars@.subrange(from as int, to as int),
{
    let mut text = String::new();
    push_chars(&mut text, chars, from, to);
    assert(text@ =~= chars@.subrange(from as int, to as int));
    text
}

/// The literal count between `from` and `to`; 0 for a `*`, which stands at `from`.
/// `None` above [`MAX_LITERAL_COUNT`].
fn literal_count(chars: &[char], from: usize, to: usize) -> (r: Option<usize>)
    requires
        from <= chars.len(),
        to == count_end(chars@, from as int),
    ensures
        r is Some <==> has_at(chars@, from as int, '*') || decimal_value(
            chars@.subrange(from as int, to as int),
        ) <= MAX_LITERAL_COUNT,
        r matches Some(n) ==> n == if has_at(chars@, from as int, '*') {
            0
        } else {
            decimal_value(chars@.subrange(from as int, to as int))
        },
{
    if char_at(chars, from, '*') {
        return Some(0);
    }
    proof {
        lemma_digits_end(chars@, from as int);
    }
    parse_decimal(chars, from, to, MAX_LITERAL_COUNT)
}

/// Takes the step at position `i`.
#[verifier::rlimit(30)]
fn take_meeting(chars: &[char], i: usize, values: &[Value], vi: usize) -> (r: Meeting)
    requires
        i < chars.len(),
        vi <= values.len(),
    ensures
        r.means(meeting_at(chars@, i as int, value_views(values@), vi as int)),
        i < r.next <= chars.len(),
        r.vi <= values.len(),
{
    let ghost views = value_views(values@);
    if chars[i] != '%' {
        return Meeting { text: single(chars[i]), next: i + 1, vi, slot: None };
    }
    let f = flags_stop(chars, i + 1);
    let w = count_stop(chars, f);
    let p = precision_stop(chars, w);
    let e = sprintf_length_stop(chars, p);
    if e >= chars.len() {
        return Meeting { text: piece(chars, i, e), next: e, vi, slot: None };
    }
    let next = e + 1;
    let literal = literal_count(chars, f, w);
    let precision = if char_at(chars, w, '.') {
        literal_count(chars, w + 1, p)
    } else {
        Some(0)
    };
    let readable = value_conversion(chars[e]) || chars[e] == '%';
    if literal.is_none() || precision.is_none() || !readable {
        return Meeting { text: piece(chars, i, next), next, vi, slot: None };
    }
    if chars[e] == '%' {
        return Meeting { text: pair('%', '%'), next, vi, slot: None };
    }
    let mut text = single('%');
    push_chars(&mut text, chars, i + 1, f);
    let mut width: usize = match literal {
        Some(n) => n,
        None => 0,
    };
    let mut vi1: usize = vi;
    if char_at(chars, f, '*') {
        if vi >= values.len() {
            return Meeting { text: pair('%', 's'), next, vi, slot: None };
        }
        assert(views[vi as int] == values[vi as int]@);
        vi1 = vi + 1;
        match width_of(&values[vi]) {
            Some(n) => if n > 0 {
                width = n as usize;
                text.append(decimal_string(n as u64).as_str());
            },
            None => {
                let slot = Some(Slot::Value(Value::U64(0)));
                return Meeting { text: pair('%', 's'), next, vi: vi1, slot };
            },
        }
    } else {
        push_chars(&mut text, chars, f, w);
    }
    if !(char_at(chars, w, '.') && char_at(chars, w + 1, '*')) {
        push_chars(&mut text, chars, w, p);
    }
    push_chars(&mut text, chars, p, next);
    let left = contains_between(chars, i + 1, f, '-');
    let zero = contains_between(chars, i + 1, f, '0');
    proof {
        let flags = chars@.subrange(i + 1, f as int);
        let width_chars = if !has_at(chars@, f as int, '*') {
            chars@.subrange(f as int, w as int)
        } else if width > 0 {
            decimal(width as nat)
        } else {
            Seq::empty()
        };
        let precision_chars = if has_at(chars@, w as int, '.') && has_at(chars@, w + 1, '*') {
            Seq::empty()
        } else {
            chars@.subrange(w as int, p as int)
        };
        assert(text@ =~= seq!['%'] + flags + width_chars + precision_chars + chars@.subrange(
            p as int,
            e + 1,
        ));
    }
    if vi1 >= values.len() {
        return Meeting { text, next, vi: vi1, slot: None };
    }
    assert(views[vi1 as int] == values[vi1 as int]@);
    let field = Field { text, conv: chars[e], left, zero, width };
    let (new_text, slot) = meet(field, &values[vi1]);
    Meeting { text: new_text, next, vi: vi1 + 1, slot: Some(slot) }
}

/// A format string with what its conversions are given.
#[derive(Debug, Clone, PartialEq, Eq)]
pub struct Prepared {
    /// The format string.
    pub fmt: String,
    /// What its conversions are given, in order.
    pub slots: Vec<Slot>,
}

impl View for Prepared {
    type V = PreparedV;

    open spec fn view(&self) -> PreparedV {
        PreparedV { fmt: self.fmt@, slots: slot_views(self.slots@) }
    }
}

fn spare_slot(v: &Value) -> (r: Slot)
    ensures
        r@ == spare(v@),
{
    match v {
        Value::Float(_) => Slot::Value(Value::U64(0)),
        Value::I64(x) => if *x == i64::MIN {
            Slot::Value(Value::U64(0))
        } else {
            Slot::Value(Value::I64(*x))
        },
        _ => Slot::Value(copied_value(v)),
    }
}

/// Brings each value together with the conversion that `sprintf` would give it to.
/// What comes out holds no floating-point value and no least 64-bit integer.
pub fn prepare(input: &Rewritten) -> (r: Prepared)
    ensures
        r@ == prepared(input@),
{
    let text = chars_of(input.fmt.as_str());
    let chars = text.as_slice();
    let values = input.values.as_slice();
    let ghost s = input.fmt@;
    let ghost views = value_views(values@);
    let ghost whole = prepared(input@);
    let mut fmt = String::new();
    let mut slots: Vec<Slot> = Vec::new();
    let mut i: usize = 0;
    let mut vi: usize = 0;
    assert(fmt@ + whole.fmt =~= whole.fmt);
    assert(slot_views(slots@) + whole.slots =~= whole.slots);
    while i < chars.len()
        invariant
            chars@ == s,
            views == value_views(values@),
            i <= chars.len(),
            vi <= values.len(),
            fmt@ + prepared_from(s, i as int, views, vi as int).fmt == whole.fmt,
            slot_views(slots@) + prepared_from(s, i as int, views, vi as int).slots == whole.slots,
        decreases chars.len() - i,
    {
        let ghost fmt_before = fmt@;
        let ghost slots_before = slots@;
        let ghost all = prepared_from(s, i as int, views, vi as int);
        let m = take_meeting(chars, i, values, vi);
        fmt.append(m.text.as_str());
        if let Some(slot) = m.slot {
            slots.push(slot);
        }
        i = m.next;
        vi = m.vi;
        proof {
            let rest = prepared_from(s, i as int, views, vi as int);
            assert(all.fmt == m.text@ + rest.fmt);
            assert(fmt@ + rest.fmt =~= fmt_before + (m.text@ + rest.fmt));
            assert(slot_views(slots@) + rest.slots =~= slot_views(slots_before) + all.slots);
        }
    }
    assert(fmt@ =~= whole.fmt);
    while vi < values.len()
        invariant
            views == value_views(values@),
            vi <= values.len(),
            slot_views(slots@) + unmet(views, vi as int) == whole.slots,
        decreases values.len() - vi,
    {
        let ghost slots_before = slots@;
        slots.push(spare_slot(&values[vi]));
        proof {
            assert(views[vi as int] == values[vi as int]@);
            assert(slot_views(slots@) + unmet(views, vi + 1) =~= slot_views(slots_before) + unmet(
                views,
                vi as int,
            ));
        }
        vi += 1;
    }
    assert(slot_views(slots@) =~= whole.slots);
    Prepared { fmt, slots }
}

/// The texts that a prepared format string asks for.
fn wanted_fields(slots: Vec<Slot>) -> (r: Vec<FloatField>)
    ensures
        field_views(r@) == fields_from(slot_views(slots@), 0),
{
    let ghost views = slot_views(slots@);
    let ghost whole = fields_from(views, 0);
    let mut r: Vec<FloatField> = Vec::new();
    let mut k: usize = 0;
    assert(field_views(r@) + whole =~= whole);
    while k < slots.len()
        invariant
            k <= slots.len(),
            views == slot_views(slots@),
            field_views(r@) + fields_from(views, k as int) == whole,
        decreases slots.len() - k,
    {
        let ghost before = r@;
        let ghost rest = fields_from(views, k + 1);
        assert(views[k as int] == slots[k as int]@);
        if let Slot::Text(f) = &slots[k] {
            let field = copied_field(f);
            r.push(field);
            assert(field_views(r@) + rest =~= field_views(before) + (seq![f@] + rest));
        }
        k += 1;
    }
    assert(field_views(r@) =~= field_views(r@) + fields_from(views, k as int));
    r
}

fn copied_field(f: &FloatField) -> (r: FloatField)
    ensures
        r@ == f@,
{
    match f {
        FloatField::Printf { conversion, bits } => FloatField::Printf {
            conversion: copied(conversion),
            bits: *bits,
        },
        FloatField::Fixed { bits, precision } => FloatField::Fixed {
            bits: *bits,
            precision: *precision,
        },
        FloatField::LowerExp { bits, precision } => FloatField::LowerExp {
            bits: *bits,
            precision: *precision,
        },
        FloatField::UpperExp { bits, precision } => FloatField::UpperExp {
            bits: *bits,
            precision: *precision,
        },
        FloatField::Shortest { bits } => FloatField::Shortest { bits: *bits },
    }
}

/// Lists the floating-point texts that [`render`] needs for `fmt` and `args`.
pub fn float_fields(fmt: &str, args: &[Arg]) -> (r: Vec<FloatField>)
    ensures
        field_views(r@) == printf_floats(fmt@, arg_views(args@)),
{
    let p = prepare(&rewrite(fmt, args));
    wanted_fields(p.slots)
}

/// Puts `floats`, the texts that `input` asks for in that order, into their slots.
pub fn fill(input: &Prepared, floats: &[String]) -> (r: Rewritten)
    requires
        floats@.len() == fields_from(input@.slots, 0).len(),
    ensures
        r@.fmt == input@.fmt,
        r@.values == filled_from(input@.slots, 0, text_views(floats@), 0),
{
    let ghost views = slot_views(input.slots@);
    let ghost texts = text_views(floats@);
    let ghost whole = filled_from(views, 0, texts, 0);
    let mut values: Vec<Value> = Vec::new();
    let mut k: usize = 0;
    let mut fi: usize = 0;
    assert(value_views(values@) + whole =~= whole);
    while k < input.slots.len()
        invariant
            k <= input.slots.len(),
            views == slot_views(input.slots@),
            texts == text_views(floats@),
            fi + fields_from(views, k as int).len() == floats@.len(),
            value_views(values@) + filled_from(views, k as int, texts, fi as int) == whole,
        decreases input.slots.len() - k,
    {
        let ghost before = values@;
        let ghost all = filled_from(views, k as int, texts, fi as int);
        assert(views[k as int] == input.slots[k as int]@);
        match &input.slots[k] {
            Slot::Value(v) => {
                values.push(copied_value(v));
            },
            Slot::Text(_) => {
                values.push(Value::Str(copied(&floats[fi])));
                fi += 1;
            },
        }
        k += 1;
        proof {
            let rest = filled_from(views, k as int, texts, fi as int);
            assert(value_views(values@) + rest =~= value_views(before) + all);
        }
    }
    assert(value_views(values@) =~= whole);
    Rewritten { fmt: copied(&input.fmt), values }
}

// ---- Handing over to `sprintf` ----

/// True if every conversion at or after `i`, as `sprintf` reads it, has literal
/// counts only, none above [`MAX_LITERAL_COUNT`].
pub open spec fn counts_fit(s: Seq<char>, i: int) -> bool
    decreases s.len() - i,
{
    if i < 0 || i >= s.len() {
        true
    } else if s[i] != '%' {
        counts_fit(s, i + 1)
    } else {
        proof {
            lemma_precision_end(s, i + 1);
        }
        let f = flags_end(s, i + 1);
        let w = count_end(s, f);
        let p = precision_end(s, w);
        let e = sprintf_length_end(s, p);
        &&& !has_at(s, f, '*')
        &&& !(has_at(s, w, '.') && has_at(s, w + 1, '*'))
        &&& literals_fit(s, f, w, p)
        &&& e >= s.len() || counts_fit(s, e + 1)
    }
}

/// True if `v` can be handed to `vsprintf`, which negates a 64-bit integer to print
/// its digits.
pub open spec fn handable(v: ValueV) -> bool {
    v !is Float && v != ValueV::I64(i64::MIN)
}

/// True if `vsprintf` can take the format and the values: its counts are 32-bit
/// integers, and it takes all of them from the format.
pub open spec fn printable(r: RewrittenV) -> bool {
    &&& counts_fit(r.fmt, 0)
    &&& forall|k: int| 0 <= k < r.values.len() ==> handable(#[trigger] r.values[k])
}

fn counts_are_small(fmt: &str) -> (r: bool)
    ensures
        r == counts_fit(fmt@, 0),
{
    let text = chars_of(fmt);
    let chars = text.as_slice();
    let mut i: usize = 0;
    while i < chars.len()
        invariant
            chars@ == fmt@,
            i <= chars.len(),
            counts_fit(fmt@, 0) == counts_fit(fmt@, i as int),
        decreases chars.len() - i,
    {
        if chars[i] != '%' {
            i += 1;
        } else {
            let f = flags_stop(chars, i + 1);
            let w = count_stop(chars, f);
            let p = precision_stop(chars, w);
            if char_at(chars, f, '*') || literal_count(chars, f, w).is_none() {
                return false;
            }
            if char_at(chars, w, '.') {
                if char_at(chars, w + 1, '*') || literal_count(chars, w + 1, p).is_none() {
                    return false;
                }
            }
            let e = sprintf_length_stop(chars, p);
            if e >= chars.len() {
                return true;
            }
            i = e + 1;
        }
    }
    true
}

/// True if `sprintf::vsprintf` can take this format and these values.
pub fn is_printable(r: &Rewritten) -> (b: bool)
    ensures
        b == printable(r@),
{
    let ghost views = value_views(r.values@);
    let mut i: usize = 0;
    while i < r.values.len()
        invariant
            i <= r.values.len(),
            views == value_views(r.values@),
            forall|k: int| 0 <= k < i ==> handable(#[trigger] views[k]),
        decreases r.values.len() - i,
    {
        let good = match &r.values[i] {
            Value::I64(v) => *v != i64::MIN,
            Value::Float(_) => false,
            _ => true,
        };
        assert(good == handable(views[i as int]));
        if !good {
            assert(r@.values[i as int] == views[i as int]);
            return false;
        }
        i += 1;
    }
    counts_are_small(r.fmt.as_str())
}

/// What `vsprintf` of the crate `sprintf` makes of a format string and values:
/// the text, or the message of its error.
pub uninterp spec fn vsprintf_result(fmt: Seq<char>, values: Seq<ValueV>) -> Result<
    Seq<char>,
    Seq<char>,
>;

/// The texts of a result.
pub open spec fn result_texts(r: Result<String, String>) -> Result<Seq<char>, Seq<char>> {
    match r {
        Ok(s) => Ok(s@),
        Err(e) => Err(e@),
    }
}

/// `sprintf::vsprintf`, with the message of its error. The result depends on the
/// format string and the values alone; a format string without `%` that is given
/// no values comes back as it is. Widths come from the format string only, and no
/// floating-point value is handed over.
#[verifier::external_body]
fn vsprintf(input: &Rewritten) -> (r: Result<String, String>)
    requires
        printable(input@),
    ensures
        result_texts(r) == vsprintf_result(input@.fmt, input@.values),
        !input@.fmt.contains('%') && input@.values.len() == 0 ==> r is Ok && r->Ok_0@ == input@.fmt,
{
    let refs = input.values.iter().map(|v| -> &dyn sprintf::Printf {
        match v {
            Value::I8(x) => x,
            Value::U8(x) => x,
            Value::I16(x) => x,
            Value::U16(x) => x,
            Value::I32(x) => x,
            Value::U32(x) => x,
            Value::I64(x) => x,
            Value::U64(x) | Value::Float(x) => x,
            Value::Str(x) => x,
            Value::Ptr(x) => x,
        }
    }).collect::<Vec<_>>();
    sprintf::vsprintf(&input.fmt, &refs).map_err(|e| e.to_string())
}

/// `<render error: why> fmt`: the line that stands for a format string that
/// could not be rendered.
pub open spec fn render_error_text(why: Seq<char>, fmt: Seq<char>) -> Seq<char> {
    "<render error: "@ + why + "> "@ + fmt
}

/// The line that stands for a format string that could not be rendered.
pub fn render_error(why: &str, fmt: &str) -> (r: String)
    ensures
        r@ == render_error_text(why@, fmt@),
{
    let mut out = "<render error: ".to_string();
    out.append(why);
    out.append("> ");
    out.append(fmt);
    out
}

/// The line for `fmt`, given what `vsprintf` made of it.
pub open spec fn finished_text(fmt: Seq<char>, result: Result<Seq<char>, Seq<char>>) -> Seq<char> {
    match result {
        Ok(s) => s,
        Err(e) => render_error_text(e, fmt),
    }
}

/// The line for `fmt`, given what `vsprintf` made of it: the text, or the format
/// string itself with a marker so the log stream is not lost.
pub fn finish(fmt: &str, result: Result<String, String>) -> (r: String)
    ensures
        r@ == finished_text(fmt@, result_texts(result)),
{
    match result {
        Ok(s) => s,
        Err(e) => render_error(e.as_str(), fmt),
    }
}

/// The line that `render` makes of `fmt`.
pub open spec fn printf_text(fmt: Seq<char>, args: Seq<ArgV>, floats: Seq<Seq<char>>) -> Seq<char> {
    let r = handed_over(fmt, args, floats);
    if printable(r) {
        finished_text(fmt, vsprintf_result(r.fmt, r.values))
    } else {
        render_error_text("Error parsing the format string"@, fmt)
    }
}

/// Render `fmt` consuming `args` left-to-right via `sprintf::vsprintf`; `floats`
/// holds the texts that [`float_fields`] lists.
///
/// On a formatting error (unsupported conversion, type mismatch, missing
/// argument) the format string itself is returned with a marker so the log
/// stream is not lost. A literal width or precision above
/// [`MAX_LITERAL_COUNT`] is such an error.
pub fn render(fmt: &str, args: &[Arg], floats: &[String]) -> (r: String)
    requires
        floats@.len() == printf_floats(fmt@, arg_views(args@)).len(),
    ensures
        r@ == printf_text(fmt@, arg_views(args@), text_views(floats@)),
        !fmt@.contains('%') ==> r@ == fmt@,
{
    let new = fill(&prepare(&rewrite(fmt, args)), floats);
    proof {
        if !fmt@.contains('%') {
            lemma_plain_text(fmt@, 0, arg_views(args@), 0);
            lemma_plain_prepared(fmt@, 0, 0);
            lemma_plain_counts(fmt@, 0);
            assert(fmt@.skip(0) =~= fmt@);
        }
    }
    if is_printable(&new) {
        finish(fmt, vsprintf(&new))
    } else {
        render_error("Error parsing the format string", fmt)
    }
}

proof fn lemma_plain_text(s: Seq<char>, i: int, args: Seq<ArgV>, ai: int)
    requires
        0 <= i <= s.len(),
        !s.contains('%'),
    ensures
        rewritten_from(s, i, args, ai) == (RewrittenV { fmt: s.skip(i), values: Seq::empty() }),
    decreases s.len() - i,
{
    if i < s.len() {
        assert(s.contains(s[i]));
        lemma_plain_text(s, i + 1, args, ai);
        assert(s.skip(i) =~= seq![s[i]] + s.skip(i + 1));
        assert(rewritten_from(s, i, args, ai).values =~= Seq::<ValueV>::empty());
    } else {
        assert(s.skip(i) =~= Seq::empty());
    }
}

proof fn lemma_plain_prepared(s: Seq<char>, i: int, vi: int)
    requires
        0 <= i <= s.len(),
        !s.contains('%'),
    ensures
        prepared_from(s, i, Seq::empty(), vi) == (PreparedV {
            fmt: s.skip(i),
            slots: Seq::empty(),
        }),
    decreases s.len() - i,
{
    let none = Seq::<ValueV>::empty();
    if i < s.len() {
        assert(s.contains(s[i]));
        lemma_plain_prepared(s, i + 1, vi);
        assert(s.skip(i) =~= seq![s[i]] + s.skip(i + 1));
        assert(prepared_from(s, i, none, vi).slots =~= Seq::<SlotV>::empty());
    } else {
        assert(s.skip(i) =~= Seq::empty());
        assert(unmet(none, vi) =~= Seq::<SlotV>::empty());
    }
}

proof fn lemma_plain_counts(s: Seq<char>, i: int)
    requires
        0 <= i <= s.len(),
        !s.contains('%'),
    ensures
        counts_fit(s, i),
    decreases s.len() - i,
{
    if i < s.len() {
        assert(s.contains(s[i]));
        lemma_plain_counts(s, i + 1);
    }
}

// ---- Dispatch ----

/// True if `fmt` goes to the C++23 renderer: it contains a replacement field and
/// no active printf conversion.
pub open spec fn is_cpp(fmt: Seq<char>) -> bool {
    field_from(fmt, 0) && !converts_from(fmt, 0)
}

/// The floating-point texts that [`render_format`] needs.
pub open spec fn format_floats(fmt: Seq<char>, args: Seq<ArgV>) -> Seq<FloatFieldV> {
    if is_cpp(fmt) {
        cppfmt::cpp_floats(fmt, args)
    } else {
        printf_floats(fmt, args)
    }
}

/// The line that [`render_format`] makes of `fmt`.
pub open spec fn format_text(fmt: Seq<char>, args: Seq<ArgV>, floats: Seq<Seq<char>>) -> Seq<char> {
    if is_cpp(fmt) {
        cppfmt::cpp_text(fmt, args, floats)
    } else {
        printf_text(fmt, args, floats)
    }
}

/// Lists the floating-point texts that [`render_format`] needs for `fmt` and
/// `args`.
pub fn format_float_fields(fmt: &str, args: &[Arg]) -> (r: Vec<FloatField>)
    ensures
        field_views(r@) == format_floats(fmt@, arg_views(args@)),
{
    if cppfmt::looks_like_cpp(fmt) && !has_printf_conversion(fmt) {
        cppfmt::float_fields(fmt, args)
    } else {
        float_fields(fmt, args)
    }
}

/// Dispatch `fmt` to the right renderer; `floats` holds the texts that
/// [`format_float_fields`] lists.
///
/// A format string is routed to the C++23 ([`crate::cppfmt`]) renderer only if
/// it contains a C++23-style replacement field *and* no active printf
/// conversion. Mixed strings such as `"payload={} status=%d"` stay on the
/// printf path so the `%d` consumes its argument and `{}` is treated as a
/// literal — this matches the firmware macro's `format(printf, 3, 5)`
/// annotation, which is how the compiler interprets the string. Pure `{}`-style
/// strings (no `%` conversions) route to the C++ renderer.
pub fn render_format(fmt: &str, args: &[Arg], floats: &[String]) -> (r: String)
    requires
        floats@.len() == format_floats(fmt@, arg_views(args@)).len(),
    ensures
        r@ == format_text(fmt@, arg_views(args@), text_views(floats@)),
{
    if cppfmt::looks_like_cpp(fmt) && !has_printf_conversion(fmt) {
        cppfmt::render(fmt, args, floats)
    } else {
        render(fmt, args, floats)
    }
}

/// Renders `fmt` if `floats` holds as many texts as [`format_float_fields`] lists.
pub fn try_render_format(fmt: &str, args: &[Arg], floats: &[String]) -> (r: Option<String>)
    ensures
        r is Some <==> floats@.len() == format_floats(fmt@, arg_views(args@)).len(),
        r matches Some(s) ==> s@ == format_text(fmt@, arg_views(args@), text_views(floats@)),
{
    let fields = format_float_fields(fmt, args);
    assert(field_views(fields@).len() == fields@.len());
    if fields.len() == floats.len() {
        Some(render_format(fmt, args, floats))
    } else {
        None
    }
}

// ---- Laws ----

/// A string with an active printf conversion stays on the printf path, whatever braces
/// it holds.
pub proof fn mixed_strings_are_printf_strings(
    fmt: Seq<char>,
    args: Seq<ArgV>,
    floats: Seq<Seq<char>>,
)
    requires
        converts_from(fmt, 0),
    ensures
        format_text(fmt, args, floats) == printf_text(fmt, args, floats),
        format_floats(fmt, args) == printf_floats(fmt, args),
{
}

/// A format string that cannot be rendered is not lost: it stands at the end of the
/// line.
pub proof fn failed_rendering_keeps_the_format(why: Seq<char>, fmt: Seq<char>)
    ensures
        ({
            let line = render_error_text(why, fmt);
            &&& line.len() >= fmt.len()
            &&& line.skip(line.len() - fmt.len()) == fmt
        }),
{
    let line = render_error_text(why, fmt);
    assert(line.skip(line.len() - fmt.len()) =~= fmt);
}

/// However large the argument, a `*` asks for no more than [`MAX_RENDER_COUNT`]: its
/// width or precision is nothing, or a number up to that, behind a sign or a point.
pub proof fn star_counts_are_bounded(v: i64, minus: bool)
    ensures
        bounded_count(v) <= MAX_RENDER_COUNT,
        ({
            let digits = decimal(bounded_count(v));
            let width = width_text(v, minus);
            let precision = precision_text(v);
            &&& width.len() == 0 || width == digits || width == seq!['-'] + digits
            &&& precision.len() == 0 || precision == seq!['.'] + digits
        }),
{
}

/// Whatever the arguments, no value is left that `vsprintf` could not take.
pub proof fn every_value_can_be_handed_over(
    fmt: Seq<char>,
    args: Seq<ArgV>,
    floats: Seq<Seq<char>>,
)
    ensures
        ({
            let values = handed_over(fmt, args, floats).values;
            forall|k: int| 0 <= k < values.len() ==> handable(#[trigger] values[k])
        }),
        printable(handed_over(fmt, args, floats)) <==> counts_fit(
            handed_over(fmt, args, floats).fmt,
            0,
        ),
{
    let r = rewritten(fmt, args);
    lemma_prepared_slots(r.fmt, 0, r.values, 0);
    lemma_filled_values(prepared(r).slots, 0, floats, 0);
}

proof fn lemma_prepared_slots(s: Seq<char>, i: int, values: Seq<ValueV>, vi: int)
    ensures
        ({
            let slots = prepared_from(s, i, values, vi).slots;
            forall|k: int|
                0 <= k < slots.len() ==> (#[trigger] slots[k] matches SlotV::Value(v)
                    ==> handable(v))
        }),
    decreases s.len() - i,
{
    if 0 <= i < s.len() {
        lemma_meeting_at(s, i, values, vi);
        let m = meeting_at(s, i, values, vi);
        lemma_prepared_slots(s, m.next, values, m.vi);
        let rest = prepared_from(s, m.next, values, m.vi).slots;
        let head = elements(m.slot);
        let slots = prepared_from(s, i, values, vi).slots;
        assert(slots == head + rest);
        assert forall|k: int| 0 <= k < slots.len() implies (
        #[trigger] slots[k] matches SlotV::Value(v) ==> handable(v)) by {
            if k >= head.len() {
                assert(slots[k] == rest[k - head.len()]);
            }
        }
    }
}

proof fn lemma_filled_values(slots: Seq<SlotV>, k: int, floats: Seq<Seq<char>>, fi: int)
    requires
        forall|j: int|
            0 <= j < slots.len() ==> (#[trigger] slots[j] matches SlotV::Value(v) ==> handable(v)),
    ensures
        ({
            let values = filled_from(slots, k, floats, fi);
            forall|j: int| 0 <= j < values.len() ==> handable(#[trigger] values[j])
        }),
    decreases slots.len() - k,
{
    if 0 <= k < slots.len() {
        let fi1 = if slots[k] is Text {
            fi + 1
        } else {
            fi
        };
        lemma_filled_values(slots, k + 1, floats, fi1);
        let rest = filled_from(slots, k + 1, floats, fi1);
        let values = filled_from(slots, k, floats, fi);
        assert forall|j: int| 0 <= j < values.len() implies handable(#[trigger] values[j]) by {
            if j > 0 {
                assert(values[j] == rest[j - 1]);
            }
        }
    }
}

/// Only a string that holds a `%` holds a printf conversion.
pub proof fn conversions_start_with_a_percent_sign(s: Seq<char>, i: int)
    requires
        !s.contains('%'),
    ensures
        !converts_from(s, i),
    decreases s.len() - i,
{
    if 0 <= i < s.len() {
        assert(s.contains(s[i]));
        conversions_start_with_a_percent_sign(s, i + 1);
    }
}

} // verus!
