//! C++23 `std::format`-style format-string rendering.
//!
//! This renderer coexists with the printf renderer in [`crate::printf`]. The
//! dispatcher ([`crate::printf::render_format`]) routes a string here only when
//! it contains a C++23-style replacement field *and* no active printf
//! conversion, so mixed strings such as `"payload={} status=%d"` stay on the
//! printf path (matching the firmware's `format(printf)` annotation) instead of
//! being mis-assigned by `{}`.
//!
//! ## Dynamic width / precision
//!
//! Nested replacement fields are supported in the width and precision
//! positions: `{:{}}`, `{:.{}}`, `{0:{1}}`, `{:.{1}}`. The referenced argument
//! must be an integer. Auto arg-id assignment order within one field is
//! value → width → precision (C++23 rule). As with value arg-ids, mixing auto
//! and explicit indexing anywhere in the format string is an error.
//!
//! ## Supported C++23 type characters
//!
//! `b B c d e E f F g G o p s x X` plus empty (default). `{}` defaults follow
//! the wire argument type: `Arg::Str` -> string, `Arg::Ptr` -> `0x` address,
//! `Arg::U32`/`Arg::U64` -> unsigned decimal, `Arg::U64` with a float type ->
//! binary64 (bit-cast).
//!
//! `L` (locale), `a`/`A` (hex float), C++ chrono/tuple/range formatters are not
//! implemented. Using them yields a `<render error: ...>` marker so the log
//! line is still visible instead of silently misrouted.
//!
//! ## Known limitations
//!
//! - The wire carries no signedness and no float/int distinction for 64-bit
//!   values, so `{}` on an `Arg::U64` renders the raw bit pattern as an
//!   unsigned integer.
//! - `g`/`G` use the shortest round-trip text; C++ significant-digit precision
//!   for `g` is not exactly reproduced.
//! - `#` for floats (forced decimal point) is ignored.
//! - Exponents have one digit (`e0`) versus C++'s `e+00`.

use crate::float::{field_views, text_views, FloatField, FloatFieldV};
use crate::printf::{
    arg_views, char_at, has_at, is_float_conversion, render_error, render_error_text, Arg, ArgV,
};
use crate::text::{
    char_at_code_point, chars_of, decimal, decimal_value, digits, digits_end, digits_stop,
    digits_string, lemma_digits_end, pad_start, padded_start, parse_decimal, push_chars,
    push_digits, push_repeated, repeated,
};
use crate::utf8::{lossy_text, lossy_utf8};
use vstd::prelude::*;
use vstd::string::*;

verus! {

/// A parsed piece of a format string.
#[derive(Debug, Clone, Copy, PartialEq, Eq, Structural)]
pub enum Piece {
    /// A literal character.
    Literal(char),
    /// A parsed `{...}` replacement field.
    Field(Field),
}

/// A parsed C++23 replacement field with optional arg-id and spec.
#[derive(Debug, Clone, Copy, PartialEq, Eq, Structural)]
pub struct Field {
    /// `None` means automatic arg-id (`{}`).
    pub arg_id: Option<usize>,
    /// The parsed format specification (the part after `:`).
    pub spec: Spec,
}

/// Fill-and-align direction for a C++23 format spec.
#[derive(Debug, Clone, Copy, PartialEq, Eq, Structural)]
pub enum Align {
    /// Left-align (`<`).
    Left,
    /// Right-align (`>`).
    Right,
    /// Center-align (`^`).
    Center,
}

/// A width or precision that may be a literal, a nested auto ref, or a nested
/// explicit ref.
#[derive(Debug, Clone, Copy, PartialEq, Eq, Structural)]
pub enum Count {
    /// The width/precision was not specified.
    Absent,
    /// A literal decimal value (e.g. `{:.5}`).
    Literal(usize),
    /// A nested auto-indexed replacement field (e.g. `{:{}}`).
    Auto,
    /// A nested explicit-indexed replacement field (e.g. `{0:{1}}`).
    Explicit(usize),
}

/// Parsed C++23 format spec (the text between `:` and `}`).
#[derive(Debug, Clone, Copy, PartialEq, Eq, Structural)]
pub struct Spec {
    /// Optional fill character (default is space).
    pub fill: Option<char>,
    /// Alignment direction (`<`, `>`, or `^`).
    pub align: Option<Align>,
    /// Sign mode (`+`, `-`, or ` `).
    pub sign: Option<char>,
    /// Whether the `#` (alternate form) flag is present.
    pub alt: bool,
    /// Whether the `0` (zero-pad) flag is present.
    pub zero: bool,
    /// Width specification (literal, auto, or explicit index).
    pub width: Count,
    /// Precision specification (literal, auto, or explicit index).
    pub precision: Count,
    /// The type character (`d`, `x`, `f`, `s`, etc.), or `None` for default.
    pub type_char: Option<char>,
}

/// What a result says: its value, or the text of its error.
pub open spec fn says<T>(r: Result<T, String>) -> Result<T, Seq<char>> {
    match r {
        Ok(v) => Ok(v),
        Err(e) => Err(e@),
    }
}

// ---- Detection ----

/// True if a replacement field stands at or after position `i`: an undoubled `{`
/// with optional digits and then `:` or `}`.
pub open spec fn field_from(s: Seq<char>, i: int) -> bool
    decreases s.len() - i,
{
    if i < 0 || i >= s.len() {
        false
    } else if s[i] == '{' && has_at(s, i + 1, '{') {
        field_from(s, i + 2)
    } else if s[i] == '}' && has_at(s, i + 1, '}') {
        field_from(s, i + 2)
    } else if s[i] == '{' {
        let j = digits_end(s, i + 1);
        has_at(s, j, ':') || has_at(s, j, '}') || field_from(s, i + 1)
    } else {
        field_from(s, i + 1)
    }
}

/// True if `fmt` contains at least one unescaped C++23-style replacement field.
///
/// This is only the *field detector*. The dispatch decision in
/// [`crate::printf::render_format`] additionally requires that the string
/// contains no active printf conversion, so mixed strings are not misrouted.
/// A field-ish token is `{` followed by optional ASCII digits and then `:` or
/// `}`. This avoids flagging printf strings that happen to contain literal
/// braces such as `json {key=%d}` (the `k` after `{` is not a digit, `:`, or
/// `}`, so it is not field-ish).
pub fn looks_like_cpp(fmt: &str) -> (r: bool)
    ensures
        r == field_from(fmt@, 0),
{
    let text = chars_of(fmt);
    let chars = text.as_slice();
    let mut i: usize = 0;
    while i < chars.len()
        invariant
            chars@ == fmt@,
            i <= chars.len(),
            field_from(fmt@, 0) == field_from(fmt@, i as int),
        decreases chars.len() - i,
    {
        let c = chars[i];
        if (c == '{' || c == '}') && char_at(chars, i + 1, c) {
            i += 2;
        } else {
            if c == '{' {
                let j = digits_stop(chars, i + 1);
                if char_at(chars, j, ':') || char_at(chars, j, '}') {
                    return true;
                }
            }
            i += 1;
        }
    }
    false
}

// ---- The grammar of a field ----

/// A C++23 alignment direction.
pub open spec fn align_of(c: char) -> Option<Align> {
    if c == '<' {
        Some(Align::Left)
    } else if c == '>' {
        Some(Align::Right)
    } else if c == '^' {
        Some(Align::Center)
    } else {
        None
    }
}

/// C++23 type characters with a meaning here. `a`/`A` (hex float) and `L`
/// (locale) are intentionally absent.
pub open spec fn is_type_char(c: char) -> bool {
    ||| c == 'b' || c == 'B' || c == 'c' || c == 'd' || c == 'o' || c == 'p' || c == 's'
    ||| c == 'x' || c == 'X'
    ||| is_float_conversion(c)
}

/// The width or precision at position `i`, and the position behind it.
pub open spec fn count_at(t: Seq<char>, i: int) -> Result<(Count, int), Seq<char>> {
    if has_at(t, i, '{') {
        let d = digits_end(t, i + 1);
        if !has_at(t, d, '}') {
            Err("unterminated nested width/precision ref"@)
        } else if d == i + 1 {
            Ok((Count::Auto, d + 1))
        } else {
            let v = decimal_value(t.subrange(i + 1, d));
            if v <= usize::MAX {
                Ok((Count::Explicit(v as usize), d + 1))
            } else {
                Err("bad nested arg id"@)
            }
        }
    } else {
        let d = digits_end(t, i);
        if d == i {
            Ok((Count::Absent, i))
        } else {
            let v = decimal_value(t.subrange(i, d));
            if v <= usize::MAX {
                Ok((Count::Literal(v as usize), d))
            } else {
                Err("bad width/precision"@)
            }
        }
    }
}

/// The optional fill and alignment at the start of a spec, and the position
/// behind them.
pub open spec fn fill_and_align(t: Seq<char>) -> Result<
    (Option<char>, Option<Align>, int),
    Seq<char>,
> {
    if t.len() > 0 && align_of(t[0]) is Some {
        Ok((None, align_of(t[0]), 1))
    } else if t.len() > 1 && align_of(t[1]) is Some {
        if t[0] == '{' || t[0] == '}' {
            Err("invalid fill character"@)
        } else {
            Ok((Some(t[0]), align_of(t[1]), 2))
        }
    } else {
        Ok((None, None, 0))
    }
}

/// The type character that the rest of a spec from `i` on stands for.
pub open spec fn type_at(t: Seq<char>, i: int) -> Result<Option<char>, Seq<char>> {
    let rest = t.skip(i);
    if rest.len() == 0 {
        Ok(None)
    } else if rest.len() == 1 && (rest[0] as u32) < 0x80 {
        if is_type_char(rest[0]) {
            Ok(Some(rest[0]))
        } else {
            Err("unsupported type '"@ + rest + "'"@)
        }
    } else {
        Err("invalid type '"@ + rest + "'"@)
    }
}

/// The precision of a spec at position `i`: a `.` and a count, or nothing.
pub open spec fn precision_at(t: Seq<char>, i: int) -> Result<(Count, int), Seq<char>> {
    if has_at(t, i, '.') {
        match count_at(t, i + 1) {
            Err(e) => Err(e),
            Ok((Count::Absent, _)) => Err("precision without digits"@),
            Ok(p) => Ok(p),
        }
    } else {
        Ok((Count::Absent, i))
    }
}

/// The sign mode at position `i`.
pub open spec fn sign_at(t: Seq<char>, i: int) -> Option<char> {
    if has_at(t, i, '+') || has_at(t, i, '-') || has_at(t, i, ' ') {
        Some(t[i])
    } else {
        None
    }
}

/// The spec written as `t`: fill and alignment, sign, `#`, `0`, width, precision
/// and type, each optional, in this order.
pub open spec fn spec_of(t: Seq<char>) -> Result<Spec, Seq<char>> {
    match fill_and_align(t) {
        Err(e) => Err(e),
        Ok((fill, align, i0)) => {
            let sign = sign_at(t, i0);
            let i1 = if sign is Some {
                i0 + 1
            } else {
                i0
            };
            let alt = has_at(t, i1, '#');
            let i2 = if alt {
                i1 + 1
            } else {
                i1
            };
            let zero = has_at(t, i2, '0');
            let i3 = if zero {
                i2 + 1
            } else {
                i2
            };
            match count_at(t, i3) {
                Err(e) => Err(e),
                Ok((width, i4)) => match precision_at(t, i4) {
                    Err(e) => Err(e),
                    Ok((precision, i5)) => match type_at(t, i5) {
                        Err(e) => Err(e),
                        Ok(type_char) => Ok(
                            Spec { fill, align, sign, alt, zero, width, precision, type_char },
                        ),
                    },
                },
            }
        },
    }
}

/// The spec of a field without one.
pub open spec fn default_spec() -> Spec {
    Spec {
        fill: None,
        align: None,
        sign: None,
        alt: false,
        zero: false,
        width: Count::Absent,
        precision: Count::Absent,
        type_char: None,
    }
}

/// Position of the `}` that closes `depth` open braces from `i` on; the length of
/// `s` if there is none.
pub open spec fn close_at(s: Seq<char>, i: int, depth: nat) -> int
    decreases s.len() - i,
{
    if i < 0 || i >= s.len() {
        s.len() as int
    } else if s[i] == '{' {
        close_at(s, i + 1, depth + 1)
    } else if s[i] == '}' {
        if depth <= 1 {
            i
        } else {
            close_at(s, i + 1, (depth - 1) as nat)
        }
    } else {
        close_at(s, i + 1, depth)
    }
}

/// The field whose body starts at `i`, and the position behind its `}`.
pub open spec fn field_at(s: Seq<char>, i: int) -> Result<(Field, int), Seq<char>> {
    let d = digits_end(s, i);
    let id = decimal_value(s.subrange(i, d));
    let arg_id = if d == i {
        None
    } else {
        Some(id as usize)
    };
    if d > i && id > usize::MAX {
        Err("bad arg id"@)
    } else if d >= s.len() {
        Err("unterminated field"@)
    } else if s[d] == ':' {
        let close = close_at(s, d + 1, 1);
        if close >= s.len() {
            Err("unterminated field"@)
        } else {
            match spec_of(s.subrange(d + 1, close)) {
                Err(e) => Err(e),
                Ok(spec) => Ok((Field { arg_id, spec }, close + 1)),
            }
        }
    } else if s[d] == '}' {
        Ok((Field { arg_id, spec: default_spec() }, d + 1))
    } else {
        Err("expected ':' or '}' in field"@)
    }
}

pub proof fn lemma_close_at(s: Seq<char>, i: int, depth: nat)
    requires
        0 <= i <= s.len(),
    ensures
        i <= close_at(s, i, depth) <= s.len(),
    decreases s.len() - i,
{
    if i < s.len() {
        if s[i] == '{' {
            lemma_close_at(s, i + 1, depth + 1);
        } else if s[i] == '}' {
            if depth > 1 {
                lemma_close_at(s, i + 1, (depth - 1) as nat);
            }
        } else {
            lemma_close_at(s, i + 1, depth);
        }
    }
}

pub proof fn lemma_field_at(s: Seq<char>, i: int)
    requires
        0 <= i <= s.len(),
    ensures
        field_at(s, i) matches Ok((_, next)) ==> i < next <= s.len(),
{
    lemma_digits_end(s, i);
    let d = digits_end(s, i);
    if d < s.len() {
        lemma_close_at(s, d + 1, 1);
    }
}

/// `piece` in front of the pieces of `rest`.
pub open spec fn in_front(piece: Piece, rest: Result<Seq<Piece>, Seq<char>>) -> Result<
    Seq<Piece>,
    Seq<char>,
> {
    match rest {
        Ok(pieces) => Ok(seq![piece] + pieces),
        Err(e) => Err(e),
    }
}

/// The pieces of the format string from position `i` on, or its first error.
pub open spec fn pieces_from(s: Seq<char>, i: int) -> Result<Seq<Piece>, Seq<char>>
    decreases s.len() - i,
{
    if i < 0 || i >= s.len() {
        Ok(Seq::empty())
    } else if s[i] == '{' {
        if has_at(s, i + 1, '{') {
            in_front(Piece::Literal('{'), pieces_from(s, i + 2))
        } else {
            proof {
                lemma_field_at(s, i + 1);
            }
            match field_at(s, i + 1) {
                Err(e) => Err(e),
                Ok((field, next)) => in_front(Piece::Field(field), pieces_from(s, next)),
            }
        }
    } else if s[i] == '}' {
        if has_at(s, i + 1, '}') {
            in_front(Piece::Literal('}'), pieces_from(s, i + 2))
        } else {
            Err("unmatched '}'"@)
        }
    } else {
        in_front(Piece::Literal(s[i]), pieces_from(s, i + 1))
    }
}

fn align_char(c: char) -> (r: Option<Align>)
    ensures
        r == align_of(c),
{
    if c == '<' {
        Some(Align::Left)
    } else if c == '>' {
        Some(Align::Right)
    } else if c == '^' {
        Some(Align::Center)
    } else {
        None
    }
}

fn float_type(c: char) -> (r: bool)
    ensures
        r == is_float_conversion(c),
{
    c == 'e' || c == 'E' || c == 'f' || c == 'F' || c == 'g' || c == 'G'
}

fn is_supported_type(c: char) -> (r: bool)
    ensures
        r == is_type_char(c),
{
    c == 'b' || c == 'B' || c == 'c' || c == 'd' || c == 'o' || c == 'p' || c == 's' || c == 'x'
        || c == 'X' || float_type(c)
}

/// `head`, then the characters from `from` on, then `tail`.
fn quoted(head: &str, chars: &[char], from: usize, tail: &str) -> (r: String)
    requires
        from <= chars.len(),
    ensures
        r@ == head@ + chars@.skip(from as int) + tail@,
{
    let mut out = head.to_string();
    push_chars(&mut out, chars, from, chars.len());
    out.append(tail);
    assert(chars@.subrange(from as int, chars@.len() as int) =~= chars@.skip(from as int));
    out
}

/// Parses a width/precision component: either `{` [digits] `}` (dynamic ref) or
/// a run of decimal digits (literal). Gives [`Count::Absent`] if neither is
/// present at position `i`.
fn parse_count(chars: &[char], i: usize) -> (r: Result<(Count, usize), String>)
    requires
        i <= chars.len(),
    ensures
        r matches Ok((c, next)) ==> count_at(chars@, i as int) == Ok::<(Count, int), Seq<char>>(
            (c, next as int),
        ) && i <= next <= chars.len(),
        r matches Err(e) ==> count_at(chars@, i as int) == Err::<(Count, int), _>(e@),
{
    if char_at(chars, i, '{') {
        let d = digits_stop(chars, i + 1);
        if !char_at(chars, d, '}') {
            return Err("unterminated nested width/precision ref".to_string());
        }
        if d == i + 1 {
            return Ok((Count::Auto, d + 1));
        }
        match parse_decimal(chars, i + 1, d, usize::MAX) {
            Some(v) => Ok((Count::Explicit(v), d + 1)),
            None => Err("bad nested arg id".to_string()),
        }
    } else {
        let d = digits_stop(chars, i);
        if d == i {
            return Ok((Count::Absent, i));
        }
        match parse_decimal(chars, i, d, usize::MAX) {
            Some(v) => Ok((Count::Literal(v), d)),
            None => Err("bad width/precision".to_string()),
        }
    }
}

/// Parses the optional fill and alignment at the start of a spec.
fn parse_fill_and_align(chars: &[char]) -> (r: Result<
    (Option<char>, Option<Align>, usize),
    String,
>)
    ensures
        r matches Ok((fill, align, next)) ==> next <= chars.len() && fill_and_align(chars@) == Ok::<
            (Option<char>, Option<Align>, int),
            Seq<char>,
        >((fill, align, next as int)),
        r matches Err(e) ==> fill_and_align(chars@) == Err::<
            (Option<char>, Option<Align>, int),
            _,
        >(e@),
{
    if chars.len() > 0 {
        let first = align_char(chars[0]);
        if first.is_some() {
            return Ok((None, first, 1));
        }
    }
    if chars.len() > 1 {
        let second = align_char(chars[1]);
        if second.is_some() {
            if chars[0] == '{' || chars[0] == '}' {
                return Err("invalid fill character".to_string());
            }
            return Ok((Some(chars[0]), second, 2));
        }
    }
    Ok((None, None, 0))
}

/// Parses the optional precision of a spec at position `i`.
fn parse_precision(chars: &[char], i: usize) -> (r: Result<(Count, usize), String>)
    requires
        i <= chars.len(),
    ensures
        r matches Ok((c, next)) ==> precision_at(chars@, i as int) == Ok::<(Count, int), Seq<char>>(
            (c, next as int),
        ) && i <= next <= chars.len(),
        r matches Err(e) ==> precision_at(chars@, i as int) == Err::<(Count, int), _>(e@),
{
    if !char_at(chars, i, '.') {
        return Ok((Count::Absent, i));
    }
    match parse_count(chars, i + 1) {
        Err(e) => Err(e),
        Ok((p, next)) => if p == Count::Absent {
            Err("precision without digits".to_string())
        } else {
            Ok((p, next))
        },
    }
}

/// Parses the type character that the spec ends with.
fn parse_type(chars: &[char], i: usize) -> (r: Result<Option<char>, String>)
    requires
        i <= chars.len(),
    ensures
        says(r) == type_at(chars@, i as int),
{
    if i == chars.len() {
        return Ok(None);
    }
    let c = chars[i];
    if i + 1 == chars.len() && (c as u32) < 0x80 {
        if is_supported_type(c) {
            Ok(Some(c))
        } else {
            Err(quoted("unsupported type '", chars, i, "'"))
        }
    } else {
        Err(quoted("invalid type '", chars, i, "'"))
    }
}

/// Parses a C++23 format specification (the part between `:` and `}`) into a
/// [`Spec`].
///
/// Handles fill-and-align, sign, `#` flag, `0` flag, width, precision, and
/// the type character. Returns an error for unsupported or malformed specs.
pub fn parse_spec(chars: &[char]) -> (r: Result<Spec, String>)
    ensures
        says(r) == spec_of(chars@),
{
    let (fill, align, i0) = match parse_fill_and_align(chars) {
        Err(e) => return Err(e),
        Ok(v) => v,
    };
    let mut sign: Option<char> = None;
    let mut i1: usize = i0;
    if char_at(chars, i0, '+') || char_at(chars, i0, '-') || char_at(chars, i0, ' ') {
        sign = Some(chars[i0]);
        i1 = i0 + 1;
    }
    let alt = char_at(chars, i1, '#');
    let i2: usize = if alt {
        i1 + 1
    } else {
        i1
    };
    let zero = char_at(chars, i2, '0');
    let i3: usize = if zero {
        i2 + 1
    } else {
        i2
    };
    let (width, i4) = match parse_count(chars, i3) {
        Err(e) => return Err(e),
        Ok(v) => v,
    };
    let (precision, i5) = match parse_precision(chars, i4) {
        Err(e) => return Err(e),
        Ok(v) => v,
    };
    match parse_type(chars, i5) {
        Err(e) => Err(e),
        Ok(type_char) => Ok(Spec { fill, align, sign, alt, zero, width, precision, type_char }),
    }
}

fn close_stop(chars: &[char], i: usize) -> (r: usize)
    requires
        i <= chars.len(),
    ensures
        r == close_at(chars@, i as int, 1),
        i <= r <= chars.len(),
{
    let mut j: usize = i;
    let mut nested: usize = 0;
    while j < chars.len()
        invariant
            i <= j <= chars.len(),
            nested <= j - i,
            close_at(chars@, i as int, 1) == close_at(chars@, j as int, nested as nat + 1),
        decreases chars.len() - j,
    {
        if chars[j] == '{' {
            nested += 1;
        } else if chars[j] == '}' {
            if nested == 0 {
                return j;
            }
            nested -= 1;
        }
        j += 1;
    }
    j
}

/// Parses one replacement field body (between `{` and `}`).
///
/// Reads an optional arg-id (decimal digits), then either a `:` followed by a
/// spec (with brace-depth tracking for nested refs) or a closing `}`.
fn parse_field(chars: &[char], i: usize) -> (r: Result<(Field, usize), String>)
    requires
        i <= chars.len(),
    ensures
        r matches Ok((f, next)) ==> field_at(chars@, i as int) == Ok::<(Field, int), Seq<char>>(
            (f, next as int),
        ) && i < next <= chars.len(),
        r matches Err(e) ==> field_at(chars@, i as int) == Err::<(Field, int), _>(e@),
{
    let d = digits_stop(chars, i);
    let mut arg_id: Option<usize> = None;
    if d > i {
        match parse_decimal(chars, i, d, usize::MAX) {
            Some(id) => {
                arg_id = Some(id);
            },
            None => return Err("bad arg id".to_string()),
        }
    }
    if d >= chars.len() {
        return Err("unterminated field".to_string());
    }
    if chars[d] == ':' {
        let close = close_stop(chars, d + 1);
        if close >= chars.len() {
            return Err("unterminated field".to_string());
        }
        let body = vstd::slice::slice_subrange(chars, d + 1, close);
        match parse_spec(body) {
            Err(e) => Err(e),
            Ok(spec) => Ok((Field { arg_id, spec }, close + 1)),
        }
    } else if chars[d] == '}' {
        let spec = Spec {
            fill: None,
            align: None,
            sign: None,
            alt: false,
            zero: false,
            width: Count::Absent,
            precision: Count::Absent,
            type_char: None,
        };
        Ok((Field { arg_id, spec }, d + 1))
    } else {
        Err("expected ':' or '}' in field".to_string())
    }
}

/// What a parse says: its pieces, or the text of its error.
pub open spec fn parse_says(r: Result<Vec<Piece>, String>) -> Result<Seq<Piece>, Seq<char>> {
    match r {
        Ok(pieces) => Ok(pieces@),
        Err(e) => Err(e@),
    }
}

/// `front` with the pieces of `rest` behind it.
pub open spec fn behind(front: Seq<Piece>, rest: Result<Seq<Piece>, Seq<char>>) -> Result<
    Seq<Piece>,
    Seq<char>,
> {
    match rest {
        Ok(pieces) => Ok(front + pieces),
        Err(e) => Err(e),
    }
}

/// Parses a C++23-style format string into its pieces.
///
/// Handles `{{` / `}}` escapes, `{arg_id:spec}` replacement fields, and
/// nested brace-depth tracking for dynamic width/precision refs.
pub fn parse(fmt: &str) -> (r: Result<Vec<Piece>, String>)
    ensures
        parse_says(r) == pieces_from(fmt@, 0),
{
    let text = chars_of(fmt);
    let chars = text.as_slice();
    let ghost whole = pieces_from(fmt@, 0);
    let mut pieces: Vec<Piece> = Vec::new();
    let mut i: usize = 0;
    proof {
        if whole is Ok {
            assert(pieces@ + whole->Ok_0 =~= whole->Ok_0);
        }
    }
    while i < chars.len()
        invariant
            chars@ == fmt@,
            i <= chars.len(),
            whole == pieces_from(fmt@, 0),
            behind(pieces@, pieces_from(fmt@, i as int)) == whole,
        decreases chars.len() - i,
    {
        let ghost before = pieces@;
        let c = chars[i];
        let piece;
        let next: usize;
        if (c == '{' || c == '}') && char_at(chars, i + 1, c) {
            piece = Piece::Literal(c);
            next = i + 2;
        } else if c == '{' {
            match parse_field(chars, i + 1) {
                Err(e) => return Err(e),
                Ok((field, end)) => {
                    piece = Piece::Field(field);
                    next = end;
                },
            }
        } else if c == '}' {
            return Err("unmatched '}'".to_string());
        } else {
            piece = Piece::Literal(c);
            next = i + 1;
        }
        pieces.push(piece);
        i = next;
        proof {
            let rest = pieces_from(fmt@, i as int);
            if rest is Ok {
                crate::text::lemma_push_in_front(before, piece, rest->Ok_0);
            }
        }
    }
    assert(pieces@ + Seq::<Piece>::empty() =~= pieces@);
    Ok(pieces)
}

// ---- The rendered core of one argument ----

/// The rendered core of one argument, before width/fill/align padding.
#[verifier::ext_equal]
pub struct CoreV {
    /// Whether the value is numeric (enables right-alignment by default and `0` padding).
    pub is_numeric: bool,
    /// True for integer/pointer renders (enables integer precision semantics
    /// and suppresses the `0` flag when precision is set).
    pub is_integer: bool,
    /// `""`, `"+"`, `" "`, or `"-"` — in front of the prefix.
    pub sign: Seq<char>,
    /// `"0x"`, `"0X"`, `"0"`, `"0b"`, `"0B"`, or `""` — between sign and digits.
    pub prefix: Seq<char>,
    /// The main content (digits, text, or char).
    pub main: Seq<char>,
}

struct Core {
    is_numeric: bool,
    is_integer: bool,
    sign: String,
    prefix: String,
    main: String,
}

impl View for Core {
    type V = CoreV;

    closed spec fn view(&self) -> CoreV {
        CoreV {
            is_numeric: self.is_numeric,
            is_integer: self.is_integer,
            sign: self.sign@,
            prefix: self.prefix@,
            main: self.main@,
        }
    }
}

/// A core that is no number.
pub open spec fn text_core(main: Seq<char>) -> CoreV {
    CoreV {
        is_numeric: false,
        is_integer: false,
        sign: Seq::empty(),
        prefix: Seq::empty(),
        main,
    }
}

/// The sign of a number that is not negative.
pub open spec fn sign_text(flag: Option<char>) -> Seq<char> {
    match flag {
        Some('+') => seq!['+'],
        Some(' ') => seq![' '],
        _ => Seq::empty(),
    }
}

/// The core of a string argument, cut to `precision` characters.
pub open spec fn str_core(
    bytes: Option<Seq<u8>>,
    tc: Option<char>,
    precision: Option<usize>,
) -> Result<CoreV, Seq<char>> {
    if tc matches Some(c) && c != 's' {
        Err("cannot format string as Some('"@ + seq![tc->0] + "')"@)
    } else {
        let text = match bytes {
            None => "(null)"@,
            Some(b) => lossy_utf8(b),
        };
        Ok(
            text_core(
                if precision matches Some(p) && p < text.len() {
                    text.take(precision->0 as int)
                } else {
                    text
                },
            ),
        )
    }
}

/// Digits and prefix of an integer under the type `tc`.
pub open spec fn int_digits(v: u64, tc: Option<char>, alt: bool, is_ptr: bool) -> Result<
    (Seq<char>, Seq<char>),
    Seq<char>,
> {
    let none = Seq::<char>::empty();
    match tc {
        None | Some('d') => Ok((decimal(v as nat), none)),
        Some('x') => Ok((digits(v as nat, 16, false), if alt {
            seq!['0', 'x']
        } else {
            none
        })),
        Some('X') => Ok((digits(v as nat, 16, true), if alt {
            seq!['0', 'X']
        } else {
            none
        })),
        Some('o') => Ok((digits(v as nat, 8, false), if alt {
            seq!['0']
        } else {
            none
        })),
        Some('b') => Ok((digits(v as nat, 2, false), if alt {
            seq!['0', 'b']
        } else {
            none
        })),
        Some('B') => Ok((digits(v as nat, 2, false), if alt {
            seq!['0', 'B']
        } else {
            none
        })),
        Some('p') => Ok((digits(v as nat, 16, false), seq!['0', 'x'])),
        Some('s') => Err("cannot format integer as string"@),
        Some(c) => if is_float_conversion(c) && !is_ptr {
            Err("cannot format 32-bit integer as float"@)
        } else {
            Err("unsupported type '"@ + seq![c] + "'"@)
        },
    }
}

/// Digits under an integer precision: at least that many, and none for zero
/// under precision 0.
pub open spec fn precise_digits(digits: Seq<char>, v: u64, precision: Option<usize>) -> Seq<char> {
    match precision {
        None => digits,
        Some(p) => if p == 0 && v == 0 {
            Seq::empty()
        } else {
            padded_start(digits, p as nat, '0')
        },
    }
}

/// The core of an integer argument.
pub open spec fn int_core(
    v: u64,
    tc: Option<char>,
    spec: Spec,
    precision: Option<usize>,
    is_ptr: bool,
) -> Result<CoreV, Seq<char>> {
    if tc == Some('c') {
        Ok(
            text_core(
                seq![
                    match char_at_code_point(v as u32) {
                        Some(c) => c,
                        None => '\u{FFFD}',
                    },
                ],
            ),
        )
    } else {
        match int_digits(v, tc, spec.alt, is_ptr) {
            Err(e) => Err(e),
            Ok((digits, prefix)) => Ok(
                CoreV {
                    is_numeric: true,
                    is_integer: true,
                    sign: if tc == Some('p') {
                        Seq::empty()
                    } else {
                        sign_text(spec.sign)
                    },
                    prefix,
                    main: precise_digits(digits, v, precision),
                },
            ),
        }
    }
}

/// The bits of the absolute value.
pub open spec fn abs_bits(bits: u64) -> u64 {
    bits % 0x8000_0000_0000_0000
}

/// True for a value below zero and for negative zero, but for no NaN.
pub open spec fn is_negative(bits: u64) -> bool {
    bits >= 0x8000_0000_0000_0000 && abs_bits(bits) <= 0x7ff0_0000_0000_0000
}

/// The text of the absolute value that the type `tc` calls for.
pub open spec fn float_field_of(bits: u64, tc: char, precision: Option<usize>) -> FloatFieldV {
    let abs = abs_bits(bits);
    let p = match precision {
        Some(p) => p,
        None => 6,
    };
    if tc == 'f' || tc == 'F' {
        FloatFieldV::Fixed { bits: abs, precision: p }
    } else if tc == 'e' {
        FloatFieldV::LowerExp { bits: abs, precision: p }
    } else if tc == 'E' {
        FloatFieldV::UpperExp { bits: abs, precision: p }
    } else {
        FloatFieldV::Shortest { bits: abs }
    }
}

/// `s` from `i` on with `nan` in place of each `NaN`.
pub open spec fn lower_nan_from(s: Seq<char>, i: int) -> Seq<char>
    decreases s.len() - i,
{
    if i < 0 || i >= s.len() {
        Seq::empty()
    } else if has_at(s, i, 'N') && has_at(s, i + 1, 'a') && has_at(s, i + 2, 'N') {
        seq!['n', 'a', 'n'] + lower_nan_from(s, i + 3)
    } else {
        seq![s[i]] + lower_nan_from(s, i + 1)
    }
}

/// The upper-case form of an ASCII letter.
pub open spec fn upper_char(c: char) -> char {
    if 'a' <= c <= 'z' {
        (c as u32 - 32) as char
    } else {
        c
    }
}

/// The text of a number in the case of its type: `inf` and `nan` for a lower-case
/// type, all capitals for an upper-case one.
pub open spec fn cased(text: Seq<char>, tc: char) -> Seq<char> {
    if tc == 'F' || tc == 'E' || tc == 'G' {
        text.map_values(|c: char| upper_char(c))
    } else {
        lower_nan_from(text, 0)
    }
}

/// The core of a floating-point value whose absolute value reads `text`.
pub open spec fn float_core(bits: u64, tc: char, sign: Option<char>, text: Seq<char>) -> CoreV {
    CoreV {
        is_numeric: true,
        is_integer: false,
        sign: if is_negative(bits) {
            seq!['-']
        } else {
            sign_text(sign)
        },
        prefix: Seq::empty(),
        main: cased(text, tc),
    }
}

/// The floating-point text that rendering `arg` needs.
pub open spec fn needed_float(arg: ArgV, spec: Spec, precision: Option<usize>) -> Option<
    FloatFieldV,
> {
    match (arg, spec.type_char) {
        (ArgV::U64(bits), Some(tc)) => if is_float_conversion(tc) {
            Some(float_field_of(bits, tc, precision))
        } else {
            None
        },
        _ => None,
    }
}

/// The core of `arg`; `text` is the text of [`needed_float`].
pub open spec fn core_of(
    arg: ArgV,
    spec: Spec,
    precision: Option<usize>,
    text: Seq<char>,
) -> Result<CoreV, Seq<char>> {
    match arg {
        ArgV::Str(b) => str_core(b, spec.type_char, precision),
        ArgV::Ptr(v) => int_core(
            v as u64,
            if spec.type_char is None {
                Some('p')
            } else {
                spec.type_char
            },
            spec,
            precision,
            true,
        ),
        ArgV::U32(v) => int_core(v as u64, spec.type_char, spec, precision, false),
        ArgV::U64(v) => if needed_float(arg, spec, precision) is Some {
            Ok(float_core(v, spec.type_char->0, spec.sign, text))
        } else {
            int_core(v, spec.type_char, spec, precision, false)
        },
    }
}

/// A core in a field of the given width: zeros between prefix and digits, or fill
/// characters around the whole. Numbers stand right and text stands left unless
/// the spec says otherwise.
pub open spec fn in_field(core: CoreV, spec: Spec, width: nat, zero_pad: bool) -> Seq<char> {
    let content = core.sign + core.prefix + core.main;
    if width <= content.len() {
        content
    } else {
        let n = (width - content.len()) as nat;
        if zero_pad {
            core.sign + core.prefix + repeated('0', n) + core.main
        } else {
            let fill = if spec.align is Some && spec.fill is Some {
                spec.fill->0
            } else {
                ' '
            };
            let align = match spec.align {
                Some(a) => a,
                None => if core.is_numeric {
                    Align::Right
                } else {
                    Align::Left
                },
            };
            match align {
                Align::Left => content + repeated(fill, n),
                Align::Right => repeated(fill, n) + content,
                Align::Center => repeated(fill, n / 2) + content + repeated(
                    fill,
                    (n - n / 2) as nat,
                ),
            }
        }
    }
}

/// The text of one field. The `0` flag counts for numbers without an explicit
/// alignment, and for integers only without a precision.
pub open spec fn field_text(
    arg: ArgV,
    spec: Spec,
    width: Option<usize>,
    precision: Option<usize>,
    text: Seq<char>,
) -> Result<Seq<char>, Seq<char>> {
    match core_of(arg, spec, precision, text) {
        Err(e) => Err(e),
        Ok(core) => Ok(
            in_field(
                core,
                spec,
                match width {
                    Some(w) => w as nat,
                    None => 0,
                },
                spec.zero && spec.align is None && core.is_numeric && !(core.is_integer
                    && precision is Some),
            ),
        ),
    }
}

/// A field is never narrower than its width.
pub proof fn field_fills_its_width(
    arg: ArgV,
    spec: Spec,
    width: usize,
    precision: Option<usize>,
    text: Seq<char>,
)
    ensures
        field_text(arg, spec, Some(width), precision, text) matches Ok(t) ==> t.len() >= width,
{
}

fn single(c: char) -> (r: String)
    ensures
        r@ == seq![c],
{
    let mut s = String::new();
    s.push(c);
    assert(s@ =~= seq![c]);
    s
}

fn sign_string(flag: Option<char>) -> (r: String)
    ensures
        r@ == sign_text(flag),
{
    match flag {
        Some('+') => single('+'),
        Some(' ') => single(' '),
        _ => String::new(),
    }
}

/// What a rendered core says.
spec fn core_says(r: Result<Core, String>) -> Result<CoreV, Seq<char>> {
    match r {
        Ok(c) => Ok(c@),
        Err(e) => Err(e@),
    }
}

/// Truncates `s` to at most `max` Unicode scalar values (not bytes).
fn truncate_chars(s: String, max: usize) -> (r: String)
    ensures
        r@ == (if max < s@.len() {
            s@.take(max as int)
        } else {
            s@
        }),
{
    let chars = chars_of(s.as_str());
    if chars.len() <= max {
        return s;
    }
    let mut out = String::new();
    push_chars(&mut out, chars.as_slice(), 0, max);
    assert(out@ =~= s@.take(max as int));
    out
}

/// Renders a string argument, applying optional truncation precision.
/// Accepts `s` or no type character; returns an error for numeric/float types.
fn render_str(opt: &Option<Vec<u8>>, tc: Option<char>, precision: Option<usize>) -> (r: Result<
    Core,
    String,
>)
    ensures
        core_says(r) == str_core(Arg::Str(*opt)@->Str_0, tc, precision),
{
    if let Some(c) = tc {
        if c != 's' {
            let mut e = "cannot format string as Some('".to_string();
            e.push(c);
            e.append("')");
            assert(e@ =~= "cannot format string as Some('"@ + seq![c] + "')"@);
            return Err(e);
        }
    }
    let text = match opt {
        None => "(null)".to_string(),
        Some(b) => lossy_text(b.as_slice()),
    };
    let main = match precision {
        Some(p) => truncate_chars(text, p),
        None => text,
    };
    Ok(
        Core {
            is_numeric: false,
            is_integer: false,
            sign: String::new(),
            prefix: String::new(),
            main,
        },
    )
}

fn prefix_string(alt: bool, letter: char) -> (r: String)
    ensures
        r@ == (if alt {
            seq!['0', letter]
        } else {
            Seq::empty()
        }),
{
    let mut s = String::new();
    if alt {
        s.push('0');
        s.push(letter);
        assert(s@ =~= seq!['0', letter]);
    }
    s
}

/// Picks base and prefix of an integer by its type character.
fn render_digits(v: u64, tc: Option<char>, alt: bool, is_ptr: bool) -> (r: Result<
    (String, String),
    String,
>)
    ensures
        match r {
            Ok((d, p)) => int_digits(v, tc, alt, is_ptr) == Ok::<(Seq<char>, Seq<char>), Seq<char>>(
                (d@, p@),
            ),
            Err(e) => int_digits(v, tc, alt, is_ptr) == Err::<(Seq<char>, Seq<char>), Seq<char>>(
                e@,
            ),
        },
{
    match tc {
        None | Some('d') => Ok((digits_string(v, 10, false), String::new())),
        Some('x') => Ok((digits_string(v, 16, false), prefix_string(alt, 'x'))),
        Some('X') => Ok((digits_string(v, 16, true), prefix_string(alt, 'X'))),
        Some('o') => Ok(
            (digits_string(v, 8, false), if alt {
                single('0')
            } else {
                String::new()
            }),
        ),
        Some('b') => Ok((digits_string(v, 2, false), prefix_string(alt, 'b'))),
        Some('B') => Ok((digits_string(v, 2, false), prefix_string(alt, 'B'))),
        Some('p') => Ok((digits_string(v, 16, false), prefix_string(true, 'x'))),
        Some('s') => Err("cannot format integer as string".to_string()),
        Some(c) => if float_type(c) && !is_ptr {
            Err("cannot format 32-bit integer as float".to_string())
        } else {
            let mut e = "unsupported type '".to_string();
            e.push(c);
            e.append("'");
            assert(e@ =~= "unsupported type '"@ + seq![c] + "'"@);
            Err(e)
        },
    }
}

/// Applies integer precision (minimum number of digits, zero-padded on the left).
/// C++23: precision 0 with value 0 yields an empty string.
fn apply_int_precision(digits: String, v: u64, precision: Option<usize>) -> (r: String)
    ensures
        r@ == precise_digits(digits@, v, precision),
{
    match precision {
        None => digits,
        Some(p) => if p == 0 && v == 0 {
            String::new()
        } else {
            pad_start(digits.as_str(), p, '0')
        },
    }
}

/// Renders an integer argument according to the type character and format spec.
///
/// Handles decimal (`d` or default), hex (`x`/`X`), octal (`o`), binary (`b`/`B`),
/// pointer (`p`), char (`c`), and sign/alternate-form/prefix rendering.
/// Returns an error for string or float type characters on integer arguments.
fn render_int(
    v: u64,
    tc: Option<char>,
    spec: &Spec,
    precision: Option<usize>,
    is_ptr_arg: bool,
) -> (r: Result<Core, String>)
    ensures
        core_says(r) == int_core(v, tc, *spec, precision, is_ptr_arg),
{
    if let Some('c') = tc {
        let ch = match char::from_u32(v as u32) {
            Some(c) => c,
            None => '\u{FFFD}',
        };
        return Ok(
            Core {
                is_numeric: false,
                is_integer: false,
                sign: String::new(),
                prefix: String::new(),
                main: single(ch),
            },
        );
    }
    let (digits, prefix) = match render_digits(v, tc, spec.alt, is_ptr_arg) {
        Err(e) => return Err(e),
        Ok(v) => v,
    };
    let main = apply_int_precision(digits, v, precision);
    let sign = match tc {
        Some('p') => String::new(),
        _ => sign_string(spec.sign),
    };
    Ok(Core { is_numeric: true, is_integer: true, sign, prefix, main })
}

/// `text` with `nan` in place of each `NaN`.
fn lower_nan(text: &str) -> (r: String)
    ensures
        r@ == lower_nan_from(text@, 0),
{
    let list = chars_of(text);
    let chars = list.as_slice();
    let mut out = String::new();
    let mut i: usize = 0;
    assert(out@ + lower_nan_from(text@, 0) =~= lower_nan_from(text@, 0));
    while i < chars.len()
        invariant
            chars@ == text@,
            i <= chars.len(),
            out@ + lower_nan_from(text@, i as int) == lower_nan_from(text@, 0),
        decreases chars.len() - i,
    {
        let ghost before = out@;
        if chars.len() - i > 2 && chars[i] == 'N' && chars[i + 1] == 'a' && chars[i + 2] == 'N' {
            out.push('n');
            out.push('a');
            out.push('n');
            i += 3;
            assert(out@ + lower_nan_from(text@, i as int) =~= before + (seq!['n', 'a', 'n']
                + lower_nan_from(text@, i as int)));
        } else {
            out.push(chars[i]);
            i += 1;
            assert(out@ + lower_nan_from(text@, i as int) =~= before + (seq![chars[i - 1]]
                + lower_nan_from(text@, i as int)));
        }
    }
    assert(out@ =~= lower_nan_from(text@, 0));
    out
}

/// `text` with its ASCII letters in upper case.
fn upper(text: &str) -> (r: String)
    ensures
        r@ == text@.map_values(|c: char| upper_char(c)),
{
    let chars = chars_of(text);
    let mut out = String::new();
    let mut i: usize = 0;
    while i < chars.len()
        invariant
            chars@ == text@,
            i <= chars.len(),
            out@ == text@.take(i as int).map_values(|c: char| upper_char(c)),
        decreases chars.len() - i,
    {
        let c = chars[i];
        let u = if 'a' <= c && c <= 'z' {
            ((c as u8) - 32) as char
        } else {
            c
        };
        out.push(u);
        i += 1;
        assert(out@ =~= text@.take(i as int).map_values(|c: char| upper_char(c)));
    }
    assert(text@.take(i as int) =~= text@);
    out
}

/// Renders a floating-point argument whose absolute value reads `text`: sign and
/// `inf`/`nan` casing follow C++ conventions.
fn render_float(bits: u64, tc: char, sign_flag: Option<char>, text: &str) -> (r: Core)
    ensures
        r@ == float_core(bits, tc, sign_flag, text@),
{
    let main = if tc == 'F' || tc == 'E' || tc == 'G' {
        upper(text)
    } else {
        lower_nan(text)
    };
    let negative = bits >= 0x8000_0000_0000_0000 && bits % 0x8000_0000_0000_0000
        <= 0x7ff0_0000_0000_0000;
    let sign = if negative {
        single('-')
    } else {
        sign_string(sign_flag)
    };
    Core { is_numeric: true, is_integer: false, sign, prefix: String::new(), main }
}

/// Renders the core value (before padding) by dispatching to the appropriate
/// type-specific renderer based on the spec type character and wire argument.
fn render_core(arg: &Arg, spec: &Spec, precision: Option<usize>, text: &str) -> (r: Result<
    Core,
    String,
>)
    ensures
        core_says(r) == core_of(arg@, *spec, precision, text@),
{
    match arg {
        Arg::Str(opt) => render_str(opt, spec.type_char, precision),
        Arg::Ptr(v) => {
            // C++ default for a pointer argument is the address form.
            let effective = if spec.type_char.is_none() {
                Some('p')
            } else {
                spec.type_char
            };
            render_int(*v as u64, effective, spec, precision, true)
        },
        Arg::U32(v) => render_int(*v as u64, spec.type_char, spec, precision, false),
        Arg::U64(v) => {
            if let Some(tc) = spec.type_char {
                if float_type(tc) {
                    return Ok(render_float(*v, tc, spec.sign, text));
                }
            }
            render_int(*v, spec.type_char, spec, precision, false)
        },
    }
}

/// Applies width / fill / align / `0` zero-pad around a rendered core value.
///
/// When `zero_pad` is true, zeros are inserted between the sign/prefix and the
/// main digits. Otherwise, fill characters (defaulting to space) pad according
/// to the alignment direction (left, right, or center). Default alignment for
/// numeric types is right, for non-numeric types is left.
fn apply_padding(core: &Core, spec: &Spec, width: Option<usize>, zero_pad: bool) -> (r: String)
    ensures
        r@ == in_field(
            core@,
            *spec,
            match width {
                Some(w) => w as nat,
                None => 0,
            },
            zero_pad,
        ),
{
    let mut head = String::new();
    head.append(core.sign.as_str());
    head.append(core.prefix.as_str());
    assert(head@ =~= core@.sign + core@.prefix);
    let mut content = head.as_str().to_string();
    content.append(core.main.as_str());
    let width: usize = match width {
        Some(w) => w,
        None => 0,
    };
    let content_len = content.as_str().unicode_len();
    if width <= content_len {
        return content;
    }
    let pad_count: usize = width - content_len;
    if zero_pad {
        push_repeated(&mut head, '0', pad_count);
        head.append(core.main.as_str());
        return head;
    }
    let fill = match (spec.align, spec.fill) {
        (Some(_), Some(c)) => c,
        _ => ' ',
    };
    let align = match spec.align {
        Some(a) => a,
        None => if core.is_numeric {
            Align::Right
        } else {
            Align::Left
        },
    };
    let left: usize = match align {
        Align::Left => 0,
        Align::Right => pad_count,
        Align::Center => pad_count / 2,
    };
    let mut out = String::new();
    push_repeated(&mut out, fill, left);
    out.append(content.as_str());
    push_repeated(&mut out, fill, pad_count - left);
    assert(repeated(fill, 0) =~= Seq::<char>::empty());
    assert(out@ =~= in_field(core@, *spec, width as nat, zero_pad));
    out
}

/// What a rendered text says.
pub open spec fn text_says(r: Result<String, String>) -> Result<Seq<char>, Seq<char>> {
    match r {
        Ok(s) => Ok(s@),
        Err(e) => Err(e@),
    }
}

/// Renders one wire argument according to its parsed format [`Spec`], applying
/// width, precision, zero-padding (`0` flag), fill, and alignment. `text` is the
/// text of the floating-point value, where the field asks for one.
pub fn render_field(
    arg: &Arg,
    spec: &Spec,
    width: Option<usize>,
    precision: Option<usize>,
    text: &str,
) -> (r: Result<String, String>)
    ensures
        text_says(r) == field_text(arg@, *spec, width, precision, text@),
{
    let core = match render_core(arg, spec, precision, text) {
        Err(e) => return Err(e),
        Ok(core) => core,
    };
    let zero_pad = spec.zero && spec.align.is_none() && core.is_numeric && !(core.is_integer
        && precision.is_some());
    Ok(apply_padding(&core, spec, width, zero_pad))
}

// ---- Rendering a format string ----

/// The count that the argument at `idx` stands for: C++23 treats a negative
/// dynamic width/precision as a format error.
pub open spec fn dynamic_count(args: Seq<ArgV>, idx: nat) -> Result<usize, Seq<char>> {
    if idx >= args.len() {
        Err("missing width/precision arg "@ + decimal(idx))
    } else {
        match args[idx as int] {
            ArgV::Str(_) => Err("string used as width/precision"@),
            ArgV::U32(v) | ArgV::Ptr(v) => if (v as i32) < 0 {
                Err("negative dynamic width/precision"@)
            } else {
                Ok((v as i32 as i64) as usize)
            },
            ArgV::U64(v) => if (v as i64) < 0 {
                Err("negative dynamic width/precision"@)
            } else {
                Ok((v as i64) as usize)
            },
        }
    }
}

/// A count with the automatic index behind it.
pub open spec fn resolved_count(count: Count, args: Seq<ArgV>, auto: nat) -> Result<
    (Option<usize>, nat),
    Seq<char>,
> {
    match count {
        Count::Absent => Ok((None, auto)),
        Count::Literal(n) => Ok((Some(n), auto)),
        Count::Auto => match dynamic_count(args, auto) {
            Ok(n) => Ok((Some(n), auto + 1)),
            Err(e) => Err(e),
        },
        Count::Explicit(id) => match dynamic_count(args, id as nat) {
            Ok(n) => Ok((Some(n), auto)),
            Err(e) => Err(e),
        },
    }
}

/// A field with its indices and counts resolved.
pub struct ResolvedV {
    /// Index of the value.
    pub value: nat,
    pub width: Option<usize>,
    pub precision: Option<usize>,
    /// The automatic index behind the field.
    pub auto: nat,
}

/// The arguments of a field, taken in the order value, width, precision.
pub open spec fn resolved(field: Field, args: Seq<ArgV>, auto: nat) -> Result<
    ResolvedV,
    Seq<char>,
> {
    let (value, auto0) = match field.arg_id {
        Some(id) => (id as nat, auto),
        None => (auto, auto + 1),
    };
    match resolved_count(field.spec.width, args, auto0) {
        Err(e) => Err(e),
        Ok((width, auto1)) => match resolved_count(field.spec.precision, args, auto1) {
            Err(e) => Err(e),
            Ok((precision, auto2)) => if value >= args.len() {
                Err("missing arg "@ + decimal(value))
            } else {
                Ok(ResolvedV { value, width, precision, auto: auto2 })
            },
        },
    }
}

/// The floating-point text that a piece needs.
pub open spec fn piece_need(piece: Piece, args: Seq<ArgV>, auto: nat) -> Option<FloatFieldV> {
    match piece {
        Piece::Literal(_) => None,
        Piece::Field(f) => match resolved(f, args, auto) {
            Err(_) => None,
            Ok(r) => needed_float(args[r.value as int], f.spec, r.precision),
        },
    }
}

/// The text of a piece and the automatic index behind it; `text` is the text of
/// [`piece_need`].
pub open spec fn piece_result(piece: Piece, args: Seq<ArgV>, auto: nat, text: Seq<char>) -> Result<
    (Seq<char>, nat),
    Seq<char>,
> {
    match piece {
        Piece::Literal(c) => Ok((seq![c], auto)),
        Piece::Field(f) => match resolved(f, args, auto) {
            Err(e) => Err(e),
            Ok(r) => match field_text(
                args[r.value as int],
                f.spec,
                r.width,
                r.precision,
                text,
            ) {
                Err(e) => Err(e),
                Ok(t) => Ok((t, r.auto)),
            },
        },
    }
}

/// The floating-point texts that the pieces from `k` on ask for, up to the first
/// error.
pub open spec fn piece_floats(pieces: Seq<Piece>, k: int, args: Seq<ArgV>, auto: nat) -> Seq<
    FloatFieldV,
>
    decreases pieces.len() - k,
{
    if k < 0 || k >= pieces.len() {
        Seq::empty()
    } else {
        let rest = match piece_result(pieces[k], args, auto, Seq::empty()) {
            Ok((_, next)) => piece_floats(pieces, k + 1, args, next),
            Err(_) => Seq::empty(),
        };
        match piece_need(pieces[k], args, auto) {
            Some(need) => seq![need] + rest,
            None => rest,
        }
    }
}

/// `front` in front of the text of `rest`.
pub open spec fn after_text(front: Seq<char>, rest: Result<Seq<char>, Seq<char>>) -> Result<
    Seq<char>,
    Seq<char>,
> {
    match rest {
        Ok(t) => Ok(front + t),
        Err(e) => Err(e),
    }
}

/// The text of the pieces from `k` on, or the first error among them; the texts
/// at and after `fi` stand for floating-point values.
pub open spec fn pieces_text(
    pieces: Seq<Piece>,
    k: int,
    args: Seq<ArgV>,
    auto: nat,
    floats: Seq<Seq<char>>,
    fi: int,
) -> Result<Seq<char>, Seq<char>>
    decreases pieces.len() - k,
{
    if k < 0 || k >= pieces.len() {
        Ok(Seq::empty())
    } else {
        let needs = piece_need(pieces[k], args, auto) is Some;
        let text = if needs {
            floats[fi]
        } else {
            Seq::empty()
        };
        let fi1 = if needs {
            fi + 1
        } else {
            fi
        };
        match piece_result(pieces[k], args, auto, text) {
            Err(e) => Err(e),
            Ok((t, next)) => after_text(t, pieces_text(pieces, k + 1, args, next, floats, fi1)),
        }
    }
}

/// True if the field takes an argument by automatic index.
pub open spec fn is_auto(field: Field) -> bool {
    field.arg_id is None || field.spec.width is Auto || field.spec.precision is Auto
}

/// True if the field names an argument by its index.
pub open spec fn is_explicit(field: Field) -> bool {
    field.arg_id is Some || field.spec.width is Explicit || field.spec.precision is Explicit
}

/// True if automatic and explicit indices are mixed, which C++ forbids anywhere
/// in one format string.
pub open spec fn is_mixed(pieces: Seq<Piece>) -> bool {
    &&& exists|k: int|
        0 <= k < pieces.len() && (#[trigger] pieces[k] matches Piece::Field(f) && is_auto(f))
    &&& exists|k: int|
        0 <= k < pieces.len() && (#[trigger] pieces[k] matches Piece::Field(f) && is_explicit(f))
}

/// The floating-point texts that `render` needs for `fmt` and `args`.
pub open spec fn cpp_floats(fmt: Seq<char>, args: Seq<ArgV>) -> Seq<FloatFieldV> {
    match pieces_from(fmt, 0) {
        Ok(pieces) => if is_mixed(pieces) {
            Seq::empty()
        } else {
            piece_floats(pieces, 0, args, 0)
        },
        Err(_) => Seq::empty(),
    }
}

/// The text of `fmt`, or why there is none.
pub open spec fn cpp_result(fmt: Seq<char>, args: Seq<ArgV>, floats: Seq<Seq<char>>) -> Result<
    Seq<char>,
    Seq<char>,
> {
    match pieces_from(fmt, 0) {
        Ok(pieces) => if is_mixed(pieces) {
            Err("mixed auto and explicit args"@)
        } else {
            pieces_text(pieces, 0, args, 0, floats, 0)
        },
        Err(e) => Err(e),
    }
}

/// The line that `render` makes of `fmt`.
pub open spec fn cpp_text(fmt: Seq<char>, args: Seq<ArgV>, floats: Seq<Seq<char>>) -> Seq<char> {
    match cpp_result(fmt, args, floats) {
        Ok(t) => t,
        Err(e) => render_error_text(e, fmt),
    }
}

/// `head`, then `v` in decimal.
fn with_index(head: &str, v: u128) -> (r: String)
    ensures
        r@ == head@ + decimal(v as nat),
{
    let mut s = head.to_string();
    push_digits(&mut s, v, 10, false);
    s
}

/// Resolves a dynamic width/precision argument to a count.
///
/// C++23 treats a negative dynamic width/precision as a format error, so a
/// 32-bit value whose signed interpretation is negative is rejected (this also
/// avoids a multi-gigabyte pad allocation from a stray `0xffffffff`).
fn fetch_count(args: &[Arg], idx: u128) -> (r: Result<usize, String>)
    ensures
        says(r) == dynamic_count(arg_views(args@), idx as nat),
        r is Ok ==> idx < args.len(),
{
    if idx >= args.len() as u128 {
        return Err(with_index("missing width/precision arg ", idx));
    }
    let signed: i64 = match &args[idx as usize] {
        Arg::U32(v) | Arg::Ptr(v) => *v as i32 as i64,
        Arg::U64(v) => *v as i64,
        Arg::Str(_) => return Err("string used as width/precision".to_string()),
    };
    if signed < 0 {
        return Err("negative dynamic width/precision".to_string());
    }
    Ok(signed as usize)
}

struct Resolved {
    value: usize,
    width: Option<usize>,
    precision: Option<usize>,
    auto: u128,
}

fn resolve_count(count: &Count, args: &[Arg], auto: u128) -> (r: Result<
    (Option<usize>, u128),
    String,
>)
    requires
        auto <= args.len() + 1,
    ensures
        match r {
            Ok((n, next)) => resolved_count(*count, arg_views(args@), auto as nat) == Ok::<
                (Option<usize>, nat),
                Seq<char>,
            >((n, next as nat)) && next <= args.len() + 1,
            Err(e) => resolved_count(*count, arg_views(args@), auto as nat) == Err::<
                (Option<usize>, nat),
                Seq<char>,
            >(e@),
        },
{
    match count {
        Count::Absent => Ok((None, auto)),
        Count::Literal(n) => Ok((Some(*n), auto)),
        Count::Auto => match fetch_count(args, auto) {
            Ok(n) => Ok((Some(n), auto + 1)),
            Err(e) => Err(e),
        },
        Count::Explicit(id) => match fetch_count(args, *id as u128) {
            Ok(n) => Ok((Some(n), auto)),
            Err(e) => Err(e),
        },
    }
}

fn resolve(field: &Field, args: &[Arg], auto: u128) -> (r: Result<Resolved, String>)
    requires
        auto <= args.len(),
    ensures
        match r {
            Ok(x) => resolved(*field, arg_views(args@), auto as nat) == Ok::<
                ResolvedV,
                Seq<char>,
            >(
                ResolvedV {
                    value: x.value as nat,
                    width: x.width,
                    precision: x.precision,
                    auto: x.auto as nat,
                },
            ) && x.auto <= args.len() && x.value < args.len(),
            Err(e) => resolved(*field, arg_views(args@), auto as nat) == Err::<
                ResolvedV,
                Seq<char>,
            >(e@),
        },
{
    let (value, auto0): (u128, u128) = match field.arg_id {
        Some(id) => (id as u128, auto),
        None => (auto, auto + 1),
    };
    let (width, auto1) = match resolve_count(&field.spec.width, args, auto0) {
        Err(e) => return Err(e),
        Ok(v) => v,
    };
    let (precision, auto2) = match resolve_count(&field.spec.precision, args, auto1) {
        Err(e) => return Err(e),
        Ok(v) => v,
    };
    if value >= args.len() as u128 {
        return Err(with_index("missing arg ", value));
    }
    Ok(Resolved { value: value as usize, width, precision, auto: auto2 })
}

fn field_need(arg: &Arg, spec: &Spec, precision: Option<usize>) -> (r: Option<FloatField>)
    ensures
        match r {
            Some(f) => needed_float(arg@, *spec, precision) == Some(f@),
            None => needed_float(arg@, *spec, precision) is None,
        },
{
    match (arg, spec.type_char) {
        (Arg::U64(v), Some(tc)) => {
            if !float_type(tc) {
                return None;
            }
            let bits: u64 = *v % 0x8000_0000_0000_0000;
            let precision: usize = match precision {
                Some(p) => p,
                None => 6,
            };
            Some(
                if tc == 'f' || tc == 'F' {
                    FloatField::Fixed { bits, precision }
                } else if tc == 'e' {
                    FloatField::LowerExp { bits, precision }
                } else if tc == 'E' {
                    FloatField::UpperExp { bits, precision }
                } else {
                    FloatField::Shortest { bits }
                },
            )
        },
        _ => None,
    }
}

fn auto_count(c: &Count) -> (r: bool)
    ensures
        r == (*c is Auto),
{
    matches!(c, Count::Auto)
}

fn explicit_count(c: &Count) -> (r: bool)
    ensures
        r == (*c is Explicit),
{
    matches!(c, Count::Explicit(_))
}

fn mixes_indices(pieces: &Vec<Piece>) -> (r: bool)
    ensures
        r == is_mixed(pieces@),
{
    let mut has_auto = false;
    let mut has_explicit = false;
    let mut k: usize = 0;
    while k < pieces.len()
        invariant
            k <= pieces.len(),
            has_auto == exists|j: int|
                0 <= j < k && (#[trigger] pieces@[j] matches Piece::Field(f) && is_auto(f)),
            has_explicit == exists|j: int|
                0 <= j < k && (#[trigger] pieces@[j] matches Piece::Field(f) && is_explicit(f)),
        decreases pieces.len() - k,
    {
        if let Piece::Field(f) = &pieces[k] {
            if f.arg_id.is_none() || auto_count(&f.spec.width) || auto_count(&f.spec.precision) {
                has_auto = true;
                assert(pieces@[k as int] matches Piece::Field(f) && is_auto(f));
            }
            if f.arg_id.is_some() || explicit_count(&f.spec.width) || explicit_count(
                &f.spec.precision,
            ) {
                has_explicit = true;
                assert(pieces@[k as int] matches Piece::Field(f) && is_explicit(f));
            }
        }
        k += 1;
    }
    has_auto && has_explicit
}

/// The floating-point text that a piece needs.
fn need_of(piece: &Piece, args: &[Arg], auto: u128) -> (r: Option<FloatField>)
    requires
        auto <= args.len(),
    ensures
        r matches Some(f) ==> piece_need(*piece, arg_views(args@), auto as nat) == Some(f@),
        r is None ==> piece_need(*piece, arg_views(args@), auto as nat) is None,
{
    match piece {
        Piece::Literal(_) => None,
        Piece::Field(f) => match resolve(f, args, auto) {
            Err(_) => None,
            Ok(r) => field_need(&args[r.value], &f.spec, r.precision),
        },
    }
}

/// Renders one piece, and gives the automatic index behind it.
fn render_piece(piece: &Piece, args: &[Arg], auto: u128, text: &str) -> (r: Result<
    (String, u128),
    String,
>)
    requires
        auto <= args.len(),
    ensures
        match r {
            Ok((t, next)) => piece_result(*piece, arg_views(args@), auto as nat, text@) == Ok::<
                (Seq<char>, nat),
                Seq<char>,
            >((t@, next as nat)) && next <= args.len(),
            Err(e) => piece_result(*piece, arg_views(args@), auto as nat, text@) == Err::<
                (Seq<char>, nat),
                Seq<char>,
            >(e@),
        },
{
    match piece {
        Piece::Literal(c) => Ok((single(*c), auto)),
        Piece::Field(f) => match resolve(f, args, auto) {
            Err(e) => Err(e),
            Ok(r) => match render_field(&args[r.value], &f.spec, r.width, r.precision, text) {
                Err(e) => Err(e),
                Ok(t) => Ok((t, r.auto)),
            },
        },
    }
}

/// Whether a piece can be rendered, and which index follows it, does not depend
/// on the floating-point text.
proof fn lemma_any_text(piece: Piece, args: Seq<ArgV>, auto: nat, a: Seq<char>, b: Seq<char>)
    ensures
        piece_result(piece, args, auto, a) is Ok <==> piece_result(piece, args, auto, b) is Ok,
        piece_result(piece, args, auto, a) matches Ok(x) ==> x.1 == piece_result(
            piece,
            args,
            auto,
            b,
        )->Ok_0.1,
{
}

/// Lists the floating-point texts that [`render`] needs for `fmt` and `args`.
pub fn float_fields(fmt: &str, args: &[Arg]) -> (r: Vec<FloatField>)
    ensures
        field_views(r@) == cpp_floats(fmt@, arg_views(args@)),
{
    let fields: Vec<FloatField> = Vec::new();
    match parse(fmt) {
        Ok(pieces) => if mixes_indices(&pieces) {
            assert(field_views(fields@) =~= Seq::empty());
            fields
        } else {
            pieces_float_fields(&pieces, args)
        },
        Err(_) => {
            assert(field_views(fields@) =~= Seq::empty());
            fields
        },
    }
}

fn pieces_float_fields(pieces: &Vec<Piece>, args: &[Arg]) -> (r: Vec<FloatField>)
    ensures
        field_views(r@) == piece_floats(pieces@, 0, arg_views(args@), 0),
{
    let ghost views = arg_views(args@);
    let ghost whole = piece_floats(pieces@, 0, views, 0);
    let empty = String::new();
    let mut fields: Vec<FloatField> = Vec::new();
    let mut auto: u128 = 0;
    let mut k: usize = 0;
    assert(field_views(fields@) + whole =~= whole);
    while k < pieces.len()
        invariant
            k <= pieces.len(),
            views == arg_views(args@),
            whole == piece_floats(pieces@, 0, arg_views(args@), 0),
            empty@ == Seq::<char>::empty(),
            auto <= args.len(),
            field_views(fields@) + piece_floats(pieces@, k as int, views, auto as nat) == whole,
        decreases pieces.len() - k,
    {
        let ghost before = field_views(fields@);
        let ghost all = piece_floats(pieces@, k as int, views, auto as nat);
        let need = need_of(&pieces[k], args, auto);
        let result = render_piece(&pieces[k], args, auto, empty.as_str());
        let ghost rest = match result {
            Ok((_, next)) => piece_floats(pieces@, k + 1, views, next as nat),
            Err(_) => Seq::empty(),
        };
        if let Some(f) = need {
            assert(all == seq![f@] + rest);
            fields.push(f);
            assert(field_views(fields@) =~= before.push(f@));
            proof {
                crate::text::lemma_push_in_front(before, f@, rest);
            }
        }
        match result {
            Ok((_, next)) => {
                auto = next;
            },
            Err(_) => {
                assert(field_views(fields@) + Seq::empty() =~= field_views(fields@));
                return fields;
            },
        }
        k += 1;
    }
    assert(field_views(fields@) + Seq::empty() =~= field_views(fields@));
    fields
}

/// Renders the pieces of a format string.
fn render_pieces(pieces: &Vec<Piece>, args: &[Arg], floats: &[String]) -> (r: Result<
    String,
    String,
>)
    requires
        floats@.len() == piece_floats(pieces@, 0, arg_views(args@), 0).len(),
    ensures
        text_says(r) == pieces_text(pieces@, 0, arg_views(args@), 0, text_views(floats@), 0),
{
    let ghost views = arg_views(args@);
    let ghost texts = text_views(floats@);
    let ghost whole = pieces_text(pieces@, 0, views, 0, texts, 0);
    let empty = String::new();
    let mut out = String::new();
    let mut auto: u128 = 0;
    let mut k: usize = 0;
    let mut fi: usize = 0;
    proof {
        if whole is Ok {
            assert(out@ + whole->Ok_0 =~= whole->Ok_0);
        }
    }
    while k < pieces.len()
        invariant
            k <= pieces.len(),
            views == arg_views(args@),
            texts == text_views(floats@),
            whole == pieces_text(pieces@, 0, arg_views(args@), 0, text_views(floats@), 0),
            empty@ == Seq::<char>::empty(),
            auto <= args.len(),
            fi + piece_floats(pieces@, k as int, views, auto as nat).len() == floats@.len(),
            after_text(
                out@,
                pieces_text(pieces@, k as int, views, auto as nat, texts, fi as int),
            ) == whole,
        decreases pieces.len() - k,
    {
        let ghost before = out@;
        let needs = need_of(&pieces[k], args, auto).is_some();
        let text: &String = if needs {
            &floats[fi]
        } else {
            &empty
        };
        proof {
            lemma_any_text(pieces@[k as int], views, auto as nat, text@, Seq::empty());
        }
        match render_piece(&pieces[k], args, auto, text.as_str()) {
            Err(e) => return Err(e),
            Ok((t, next)) => {
                out.append(t.as_str());
                auto = next;
                if needs {
                    fi += 1;
                }
                k += 1;
                proof {
                    let rest = pieces_text(pieces@, k as int, views, auto as nat, texts, fi as int);
                    if rest is Ok {
                        assert(out@ + rest->Ok_0 =~= before + (t@ + rest->Ok_0));
                    }
                }
            },
        }
    }
    assert(out@ + Seq::<char>::empty() =~= out@);
    Ok(out)
}

/// Render a C++23-style format string against decoded wire arguments; `floats`
/// holds the texts that [`float_fields`] lists.
///
/// On any parse/format error the original format string is returned with a
/// `<render error: ...>` prefix so the log line is not lost, matching the
/// printf renderer's recovery behavior.
pub fn render(fmt: &str, args: &[Arg], floats: &[String]) -> (r: String)
    requires
        floats@.len() == cpp_floats(fmt@, arg_views(args@)).len(),
    ensures
        r@ == cpp_text(fmt@, arg_views(args@), text_views(floats@)),
{
    let pieces = match parse(fmt) {
        Ok(pieces) => pieces,
        Err(e) => return render_error(e.as_str(), fmt),
    };
    if mixes_indices(&pieces) {
        return render_error("mixed auto and explicit args", fmt);
    }
    match render_pieces(&pieces, args, floats) {
        Ok(text) => text,
        Err(e) => render_error(e.as_str(), fmt),
    }
}

// ---- Escapes ----

/// `t` with each brace doubled.
pub open spec fn escaped(t: Seq<char>) -> Seq<char>
    decreases t.len(),
{
    if t.len() == 0 {
        Seq::empty()
    } else if t[0] == '{' || t[0] == '}' {
        seq![t[0], t[0]] + escaped(t.skip(1))
    } else {
        seq![t[0]] + escaped(t.skip(1))
    }
}

/// A literal character.
pub open spec fn literal(c: char) -> Piece {
    Piece::Literal(c)
}

/// The characters of `t`, each a literal.
pub open spec fn literals(t: Seq<char>) -> Seq<Piece> {
    Seq::new(t.len(), |i: int| literal(t[i]))
}

proof fn lemma_pieces_of_escaped(s: Seq<char>, i: int, t: Seq<char>)
    requires
        0 <= i <= s.len(),
        s.skip(i) == escaped(t),
    ensures
        pieces_from(s, i) == Ok::<Seq<Piece>, Seq<char>>(literals(t)),
    decreases t.len(),
{
    if t.len() == 0 {
        assert(s.skip(i).len() == 0);
        assert(literals(t) =~= Seq::empty());
    } else {
        let rest = t.skip(1);
        let n = if t[0] == '{' || t[0] == '}' {
            2
        } else {
            1int
        };
        let e = escaped(t);
        assert(e.len() >= n);
        assert(s.skip(i).len() == s.len() - i);
        assert(s.skip(i)[0] == e[0] && s[i] == e[0]);
        assert(n == 2 ==> s.skip(i)[1] == e[1] && s[i + 1] == e[1]);
        assert(s.skip(i + n) =~= s.skip(i).skip(n));
        assert(escaped(t).skip(n) =~= escaped(rest));
        lemma_pieces_of_escaped(s, i + n, rest);
        assert(literals(t) =~= seq![literal(t[0])] + literals(rest));
    }
}

proof fn lemma_literal_text(t: Seq<char>, k: int, args: Seq<ArgV>, floats: Seq<Seq<char>>)
    requires
        0 <= k <= t.len(),
    ensures
        pieces_text(literals(t), k, args, 0, floats, 0) == Ok::<Seq<char>, Seq<char>>(t.skip(k)),
    decreases t.len() - k,
{
    if k < t.len() {
        lemma_literal_text(t, k + 1, args, floats);
        assert(literals(t)[k] == literal(t[k]));
        assert(t.skip(k) =~= seq![t[k]] + t.skip(k + 1));
    } else {
        assert(t.skip(k) =~= Seq::empty());
    }
}

/// Any text can be written as a format string: with its braces doubled it renders
/// to itself, whatever the arguments.
pub proof fn escaped_text_renders_to_itself(
    t: Seq<char>,
    args: Seq<ArgV>,
    floats: Seq<Seq<char>>,
)
    ensures
        cpp_text(escaped(t), args, floats) == t,
{
    let s = escaped(t);
    assert(s.skip(0) =~= s);
    lemma_pieces_of_escaped(s, 0, t);
    assert(!is_mixed(literals(t)));
    lemma_literal_text(t, 0, args, floats);
    assert(t.skip(0) =~= t);
}

/// True if one of the pieces is a replacement field.
pub open spec fn has_field(pieces: Seq<Piece>) -> bool {
    exists|k: int| 0 <= k < pieces.len() && #[trigger] pieces[k] is Field
}

proof fn lemma_in_front(piece: Piece, rest: Seq<Piece>)
    ensures
        has_field(seq![piece] + rest) <==> piece is Field || has_field(rest),
{
    let all = seq![piece] + rest;
    assert(all[0] == piece);
    if has_field(rest) {
        let k = choose|k: int| 0 <= k < rest.len() && #[trigger] rest[k] is Field;
        assert(all[k + 1] == rest[k]);
    }
    if has_field(all) {
        let k = choose|k: int| 0 <= k < all.len() && #[trigger] all[k] is Field;
        if k > 0 {
            assert(rest[k - 1] == all[k]);
        }
    }
}

/// The detector agrees with the parser: where a format string can be parsed, it is
/// found to have a replacement field exactly if the parser finds one in it.
pub proof fn detector_agrees_with_parser(s: Seq<char>, i: int)
    ensures
        pieces_from(s, i) matches Ok(pieces) ==> (field_from(s, i) <==> has_field(pieces)),
    decreases s.len() - i,
{
    if 0 <= i < s.len() {
        if (s[i] == '{' || s[i] == '}') && has_at(s, i + 1, s[i]) {
            detector_agrees_with_parser(s, i + 2);
            if let Ok(rest) = pieces_from(s, i + 2) {
                lemma_in_front(Piece::Literal(s[i]), rest);
            }
        } else if s[i] == '{' {
            lemma_field_at(s, i + 1);
            lemma_digits_end(s, i + 1);
            if let Ok((field, next)) = field_at(s, i + 1) {
                if let Ok(rest) = pieces_from(s, next) {
                    lemma_in_front(Piece::Field(field), rest);
                }
            }
        } else {
            detector_agrees_with_parser(s, i + 1);
            if let Ok(rest) = pieces_from(s, i + 1) {
                lemma_in_front(Piece::Literal(s[i]), rest);
            }
        }
    }
}

} // verus!
