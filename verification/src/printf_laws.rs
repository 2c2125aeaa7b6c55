//! Laws of the printf renderer: what `vsprintf` is handed for a format string, one
//! piece of the string after the other.

use crate::float::FloatFieldV;
use crate::printf::{
    bounded_count, conversion_at, converts_from, count_end, counts_fit, directive_at, elements,
    fields_from, filled_from, flags_end, format_floats, format_text, handed_over, has_at, is_flag,
    is_length_char, lemma_meeting_at, lemma_precision_end, lemma_step_at, length_at, lengths_end,
    literals_fit, meeting_at, met, min_i64_text, precision_end, precision_text, prepared,
    prepared_from, printable, printf_floats, printf_text, rewritten, rewritten_from,
    sprintf_length_end, star_value, step_at, unmet, value_of, vsprintf_result, width_text, ArgV,
    FieldV, Length, PreparedV, RewrittenV, SlotV, ValueV,
};
use crate::text::{
    decimal, decimal_value, decimal_value_of_decimal, digits_end, is_digit, repeated,
};
use crate::utf8::lossy_utf8;
use vstd::prelude::*;
use vstd::string::*;

verus! {

// ---- Scans behind a common start ----

proof fn lemma_skip_flags(s: Seq<char>, n: int, i: int)
    requires
        0 <= n <= s.len(),
        0 <= i <= s.len() - n,
    ensures
        flags_end(s, n + i) == n + flags_end(s.skip(n), i),
        0 <= i <= flags_end(s.skip(n), i) <= s.len() - n,
    decreases s.len() - n - i,
{
    if i < s.len() - n && is_flag(s[n + i]) {
        lemma_skip_flags(s, n, i + 1);
    }
}

proof fn lemma_skip_digits(s: Seq<char>, n: int, i: int)
    requires
        0 <= n <= s.len(),
        0 <= i <= s.len() - n,
    ensures
        digits_end(s, n + i) == n + digits_end(s.skip(n), i),
        0 <= i <= digits_end(s.skip(n), i) <= s.len() - n,
    decreases s.len() - n - i,
{
    if i < s.len() - n && is_digit(s[n + i]) {
        lemma_skip_digits(s, n, i + 1);
    }
}

proof fn lemma_skip_counts(s: Seq<char>, n: int, i: int)
    requires
        0 <= n <= s.len(),
        0 <= i <= s.len() - n,
    ensures
        ({
            let t = s.skip(n);
            let f = flags_end(t, i);
            let w = count_end(t, f);
            let p = precision_end(t, w);
            &&& flags_end(s, n + i) == n + f
            &&& count_end(s, n + f) == n + w
            &&& precision_end(s, n + w) == n + p
            &&& 0 <= i <= f <= w <= p <= t.len()
            &&& forall|k: int, c: char| 0 <= k ==> #[trigger] has_at(t, k, c) == has_at(s, n + k, c)
            &&& length_at(s, n + p) == (length_at(t, p).0, n + length_at(t, p).1)
            &&& sprintf_length_end(s, n + p) == n + sprintf_length_end(t, p)
            &&& p <= length_at(t, p).1 <= t.len()
            &&& p <= sprintf_length_end(t, p) <= t.len()
        }),
{
    let t = s.skip(n);
    lemma_skip_flags(s, n, i);
    let f = flags_end(t, i);
    lemma_skip_digits(s, n, f);
    let w = count_end(t, f);
    if has_at(t, w, '.') {
        lemma_skip_digits(s, n, w + 1);
    }
    assert forall|k: int, c: char| 0 <= k implies #[trigger] has_at(t, k, c) == has_at(
        s,
        n + k,
        c,
    ) by {}
}

#[verifier::rlimit(30)]
proof fn lemma_skip_directive(s: Seq<char>, n: int, i: int, args: Seq<ArgV>, m: int, ai: int)
    requires
        0 <= n <= s.len(),
        0 <= i <= s.len() - n,
        0 <= m <= args.len(),
        0 <= ai,
    ensures
        ({
            let d = directive_at(s, n + i, args, m + ai);
            let e = directive_at(s.skip(n), i, args.skip(m), ai);
            &&& d.text == e.text
            &&& d.end == n + e.end
            &&& d.ai == m + e.ai
            &&& d.len == e.len
            &&& e.end >= i
            &&& e.ai >= ai
        }),
{
    let t = s.skip(n);
    let a = args.skip(m);
    lemma_skip_counts(s, n, i);
    let f = flags_end(t, i);
    let w = count_end(t, f);
    let p = precision_end(t, w);
    assert(s.subrange(n + i, n + f) =~= t.subrange(i, f));
    assert(s.subrange(n + f, n + w) =~= t.subrange(f, w));
    assert(s.subrange(n + w, n + p) =~= t.subrange(w, p));
    let e = length_at(t, p).1;
    assert(s.subrange(n + p, n + e) =~= t.subrange(p, e));
    assert(star_value(args, m + ai) == star_value(a, ai));
    assert(star_value(args, m + ai + 1) == star_value(a, ai + 1));
    assert(directive_at(s, n + i, args, m + ai).text =~= directive_at(t, i, a, ai).text);
}

#[verifier::rlimit(30)]
proof fn lemma_skip_rewritten(s: Seq<char>, n: int, i: int, args: Seq<ArgV>, m: int, ai: int)
    requires
        0 <= n <= s.len(),
        0 <= i <= s.len() - n,
        0 <= m <= args.len(),
        0 <= ai,
    ensures
        rewritten_from(s, n + i, args, m + ai) == rewritten_from(s.skip(n), i, args.skip(m), ai),
    decreases s.len() - n - i,
{
    let t = s.skip(n);
    let a = args.skip(m);
    if i < t.len() {
        lemma_step_at(s, n + i, args, m + ai);
        lemma_step_at(t, i, a, ai);
        lemma_skip_directive(s, n, i + 1, args, m, ai);
        let x = step_at(s, n + i, args, m + ai);
        let y = step_at(t, i, a, ai);
        assert(has_at(s, n + i + 1, '%') == has_at(t, i + 1, '%'));
        assert(x.text =~= y.text);
        assert(x.next == n + y.next && x.ai == m + y.ai && y.ai >= 0);
        assert(x.value == y.value);
        lemma_skip_rewritten(s, n, y.next, args, m, y.ai);
    }
}

#[verifier::spinoff_prover]
#[verifier::rlimit(40)]
proof fn lemma_skip_meeting(s: Seq<char>, n: int, i: int, values: Seq<ValueV>, m: int, vi: int)
    requires
        0 <= n <= s.len(),
        0 <= i < s.len() - n,
        0 <= m <= values.len(),
        0 <= vi,
    ensures
        ({
            let x = meeting_at(s, n + i, values, m + vi);
            let y = meeting_at(s.skip(n), i, values.skip(m), vi);
            &&& x.text == y.text
            &&& x.next == n + y.next
            &&& x.vi == m + y.vi
            &&& y.vi >= 0
            &&& x.slot == y.slot
        }),
{
    let t = s.skip(n);
    let v = values.skip(m);
    let x = meeting_at(s, n + i, values, m + vi);
    let y = meeting_at(t, i, v, vi);
    if t[i] == '%' {
        lemma_skip_counts(s, n, i + 1);
        let f = flags_end(t, i + 1);
        let w = count_end(t, f);
        let p = precision_end(t, w);
        let e = sprintf_length_end(t, p);
        assert(s.subrange(n + i, n + e) =~= t.subrange(i, e));
        if e < t.len() {
            assert(s.subrange(n + i, n + e + 1) =~= t.subrange(i, e + 1));
            assert(s.subrange(n + p, n + e + 1) =~= t.subrange(p, e + 1));
        }
        assert(s.subrange(n + i + 1, n + f) =~= t.subrange(i + 1, f));
        assert(s.subrange(n + f, n + w) =~= t.subrange(f, w));
        assert(s.subrange(n + w, n + p) =~= t.subrange(w, p));
        if has_at(t, w, '.') && !has_at(t, w + 1, '*') {
            lemma_skip_digits(s, n, w + 1);
            assert(s.subrange(n + w + 1, n + p) =~= t.subrange(w + 1, p));
        }
        assert(has_at(t, f, '*') == has_at(s, n + f, '*'));
        assert(has_at(t, w, '.') == has_at(s, n + w, '.'));
        assert(has_at(t, w + 1, '*') == has_at(s, n + w + 1, '*'));
        assert(literals_fit(s, n + f, n + w, n + p) == literals_fit(t, f, w, p));
        if vi < v.len() {
            assert(values[m + vi] == v[vi]);
        }
        if vi + 1 < v.len() {
            assert(values[m + vi + 1] == v[vi + 1]);
        }
    }
}

proof fn lemma_skip_prepared(s: Seq<char>, n: int, i: int, values: Seq<ValueV>, m: int, vi: int)
    requires
        0 <= n <= s.len(),
        0 <= i <= s.len() - n,
        0 <= m <= values.len(),
        0 <= vi,
    ensures
        prepared_from(s, n + i, values, m + vi) == prepared_from(s.skip(n), i, values.skip(m), vi),
    decreases s.len() - n - i,
{
    let t = s.skip(n);
    let v = values.skip(m);
    if i < t.len() {
        lemma_meeting_at(s, n + i, values, m + vi);
        lemma_meeting_at(t, i, v, vi);
        lemma_skip_meeting(s, n, i, values, m, vi);
        let y = meeting_at(t, i, v, vi);
        lemma_skip_prepared(s, n, y.next, values, m, y.vi);
    } else {
        assert(unmet(values, m + vi) =~= unmet(v, vi));
    }
}

proof fn lemma_skip_fields(slots: Seq<SlotV>, n: int, k: int)
    requires
        0 <= n <= slots.len(),
        0 <= k,
    ensures
        fields_from(slots, n + k) == fields_from(slots.skip(n), k),
    decreases slots.len() - n - k,
{
    if k < slots.len() - n {
        lemma_skip_fields(slots, n, k + 1);
    }
}

proof fn lemma_skip_filled(
    slots: Seq<SlotV>,
    n: int,
    k: int,
    floats: Seq<Seq<char>>,
    m: int,
    fi: int,
)
    requires
        0 <= n <= slots.len(),
        0 <= k,
        0 <= m <= floats.len(),
        0 <= fi,
        m == 0 || m + fi + fields_from(slots.skip(n), k).len() <= floats.len(),
    ensures
        filled_from(slots, n + k, floats, m + fi) == filled_from(
            slots.skip(n),
            k,
            floats.skip(m),
            fi,
        ),
    decreases slots.len() - n - k,
{
    assert(m == 0 ==> floats.skip(m) =~= floats);
    if k < slots.len() - n {
        if slots[n + k] is Text {
            lemma_skip_filled(slots, n, k + 1, floats, m, fi + 1);
        } else {
            lemma_skip_filled(slots, n, k + 1, floats, m, fi);
        }
    }
}

// ---- Conversions ----

/// A conversion by its parts.
#[verifier::ext_equal]
pub struct ConversionV {
    pub flags: Seq<char>,
    /// Digits of the width.
    pub width: Seq<char>,
    /// Digits behind the point.
    pub precision: Option<Seq<char>>,
    /// Length modifier.
    pub length: Seq<char>,
    /// Conversion character.
    pub letter: char,
}

/// True if `s` holds decimal digits only.
pub open spec fn all_digits(s: Seq<char>) -> bool {
    forall|k: int| 0 <= k < s.len() ==> '0' <= #[trigger] s[k] <= '9'
}

/// The letters that take a signed integer.
pub open spec fn takes_signed(c: char) -> bool {
    c == 'd' || c == 'i'
}

/// The letters that take an unsigned integer.
pub open spec fn takes_unsigned(c: char) -> bool {
    c == 'u' || c == 'x' || c == 'X' || c == 'o'
}

/// The letters that take a floating-point value.
pub open spec fn takes_float(c: char) -> bool {
    c == 'f' || c == 'F' || c == 'e' || c == 'E' || c == 'g' || c == 'G'
}

impl ConversionV {
    /// The point and the digits behind it.
    pub open spec fn fraction(self) -> Seq<char> {
        match self.precision {
            Some(d) => seq!['.'] + d,
            None => Seq::empty(),
        }
    }

    /// The conversion as it is written.
    pub open spec fn text(self) -> Seq<char> {
        seq!['%'] + self.flags + self.width + self.fraction() + self.length + seq![self.letter]
    }

    /// True for a conversion of C whose width and precision are integers of C.
    pub open spec fn is_valid(self) -> bool {
        &&& self.is_written()
        &&& decimal_value(self.width) <= 0x7fff_ffff
        &&& self.precision matches Some(d) ==> decimal_value(d) <= 0x7fff_ffff
    }

    /// True for a conversion as it is written in C: flags, digits that do not start with
    /// another flag, one of C's length modifiers, and a letter with a meaning.
    pub open spec fn is_written(self) -> bool {
        &&& forall|k: int|
            0 <= k < self.flags.len() ==> {
                let c = #[trigger] self.flags[k];
                c == '-' || c == '+' || c == ' ' || c == '#' || c == '0'
            }
        &&& all_digits(self.width)
        &&& self.width.len() > 0 ==> self.width[0] != '0'
        &&& self.precision matches Some(d) ==> all_digits(d)
        &&& {
            ||| self.length == Seq::<char>::empty() || self.length == seq!['h', 'h'] || self.length
                == seq!['h'] || self.length == seq!['l'] || self.length == seq!['l', 'l']
            ||| self.length == seq!['z'] || self.length == seq!['j'] || self.length == seq!['t']
                || self.length == seq!['L']
        }
        &&& takes_signed(self.letter) || takes_unsigned(self.letter) || takes_float(self.letter)
            || self.letter == 'c' || self.letter == 's' || self.letter == 'p'
    }

    /// How many values an integer of this length has. `long`, `size_t` and `ptrdiff_t`
    /// are 32 bits wide on the device.
    pub open spec fn modulus(self) -> int {
        if self.length == seq!['h', 'h'] {
            0x100
        } else if self.length == seq!['h'] {
            0x1_0000
        } else if self.length == seq!['l', 'l'] || self.length == seq!['j'] {
            0x1_0000_0000_0000_0000
        } else {
            0x1_0000_0000
        }
    }
}

/// `n` cut to the integers below `m`.
pub open spec fn cut(n: int, m: int) -> int {
    n % m
}

/// The two's-complement integer with the low bits of `n`, out of `m` integers.
pub open spec fn cut_signed(n: int, m: int) -> int {
    if n % m < m / 2 {
        n % m
    } else {
        n % m - m
    }
}

/// The integer that a value stands for.
pub open spec fn number_of(v: ValueV) -> Option<int> {
    match v {
        ValueV::I8(x) => Some(x as int),
        ValueV::U8(x) => Some(x as int),
        ValueV::I16(x) => Some(x as int),
        ValueV::U16(x) => Some(x as int),
        ValueV::I32(x) => Some(x as int),
        ValueV::U32(x) => Some(x as int),
        ValueV::I64(x) => Some(x as int),
        ValueV::U64(x) => Some(x as int),
        ValueV::Ptr(x) => Some(x as int),
        ValueV::Float(_) | ValueV::Str(_) => None,
    }
}

/// True if a value is a signed integer, one out of `m`.
pub open spec fn is_signed_out_of(v: ValueV, m: int) -> bool {
    match v {
        ValueV::I8(_) => m == 0x100,
        ValueV::I16(_) => m == 0x1_0000,
        ValueV::I32(_) => m == 0x1_0000_0000,
        ValueV::I64(_) => m == 0x1_0000_0000_0000_0000,
        _ => false,
    }
}

/// True if a value is an unsigned integer, one out of `m`.
pub open spec fn is_unsigned_out_of(v: ValueV, m: int) -> bool {
    match v {
        ValueV::U8(_) => m == 0x100,
        ValueV::U16(_) => m == 0x1_0000,
        ValueV::U32(_) => m == 0x1_0000_0000,
        ValueV::U64(_) => m == 0x1_0000_0000_0000_0000,
        _ => false,
    }
}

/// The bits of an argument that is no string.
pub open spec fn raw_bits(arg: ArgV) -> Option<u64> {
    match arg {
        ArgV::U32(v) | ArgV::Ptr(v) => Some(v as u64),
        ArgV::U64(v) => Some(v),
        ArgV::Str(_) => None,
    }
}

proof fn lemma_flags_run(s: Seq<char>, i: int, j: int)
    requires
        0 <= i <= j < s.len(),
        forall|k: int| i <= k < j ==> is_flag(#[trigger] s[k]),
        !is_flag(s[j]),
    ensures
        flags_end(s, i) == j,
    decreases j - i,
{
    if i < j {
        assert(is_flag(s[i]));
        lemma_flags_run(s, i + 1, j);
    }
}

proof fn lemma_digits_run(s: Seq<char>, i: int, j: int)
    requires
        0 <= i <= j < s.len(),
        forall|k: int| i <= k < j ==> is_digit(#[trigger] s[k]),
        !is_digit(s[j]),
    ensures
        digits_end(s, i) == j,
    decreases j - i,
{
    if i < j {
        assert(is_digit(s[i]));
        lemma_digits_run(s, i + 1, j);
    }
}

/// The length modifier that a text stands for.
spec fn length_of(t: Seq<char>) -> Length {
    if t == seq!['h', 'h'] {
        Length::Char
    } else if t == seq!['h'] {
        Length::Short
    } else if t == seq!['l'] {
        Length::Long
    } else if t == seq!['l', 'l'] {
        Length::LongLong
    } else if t == seq!['z'] {
        Length::Size
    } else if t == seq!['j'] {
        Length::IntMax
    } else if t == seq!['t'] {
        Length::PtrDiff
    } else if t == seq!['L'] {
        Length::LongDouble
    } else {
        Length::Plain
    }
}

/// Where the parts of a conversion stand at the start of a format string.
#[verifier::rlimit(30)]
proof fn lemma_parts(c: ConversionV, b: Seq<char>)
    requires
        c.is_written(),
    ensures
        ({
            let s = c.text() + b;
            let f = 1int + c.flags.len();
            let w = f + c.width.len();
            let p = w + c.fraction().len();
            let e = p + c.length.len();
            &&& s[0] == '%'
            &&& !has_at(s, 1, '%')
            &&& flags_end(s, 1) == f
            &&& count_end(s, f) == w
            &&& precision_end(s, w) == p
            &&& length_at(s, p) == (length_of(c.length), e)
            &&& sprintf_length_end(s, p) == e
            &&& e + 1 == c.text().len()
            &&& e < s.len()
            &&& s[e] == c.letter
            &&& !has_at(s, f, '*')
            &&& has_at(s, w, '.') == c.precision is Some
            &&& !has_at(s, w + 1, '*') || c.precision is None
            &&& s.subrange(1, f) == c.flags
            &&& s.subrange(f, w) == c.width
            &&& s.subrange(w, p) == c.fraction()
            &&& c.precision matches Some(d) ==> s.subrange(w + 1, p) == d
            &&& s.subrange(p, e) == c.length
            &&& s.subrange(p, e + 1) == c.length + seq![c.letter]
            &&& s.skip(e + 1) == b
        }),
{
    let s = c.text() + b;
    let f = 1int + c.flags.len();
    let w = f + c.width.len();
    let p = w + c.fraction().len();
    let e = p + c.length.len();
    assert(s.subrange(1, f) =~= c.flags);
    assert(s.subrange(f, w) =~= c.width);
    assert(s.subrange(w, p) =~= c.fraction());
    assert(s.subrange(p, e) =~= c.length);
    assert(s.subrange(p, e + 1) =~= c.length + seq![c.letter]);
    assert(s.skip(e + 1) =~= b);
    assert(forall|k: int| 0 <= k < c.flags.len() ==> #[trigger] s[1 + k] == c.flags[k]);
    assert(forall|k: int| 0 <= k < c.width.len() ==> #[trigger] s[f + k] == c.width[k]);
    assert(forall|k: int| 0 <= k < c.fraction().len() ==> #[trigger] s[w + k] == c.fraction()[k]);
    assert(forall|k: int| 0 <= k < c.length.len() ==> #[trigger] s[p + k] == c.length[k]);
    assert(s[e] == c.letter);
    assert(c.length.len() > 0 ==> s[p + 0] == c.length[0]);
    assert(c.length.len() > 1 ==> s[p + 1] == c.length[1]);
    assert(c.precision is Some ==> s[w + 0] == '.');
    assert(c.width.len() > 0 ==> s[f + 0] == c.width[0]);
    assert(c.flags.len() > 0 ==> s[1] == c.flags[0]);
    assert forall|k: int| 1 <= k < f implies is_flag(#[trigger] s[k]) by {
        assert(s[1 + (k - 1)] == c.flags[k - 1]);
    }
    assert(!is_flag(s[f]));
    lemma_flags_run(s, 1, f);
    assert forall|k: int| f <= k < w implies is_digit(#[trigger] s[k]) by {
        assert(s[f + (k - f)] == c.width[k - f]);
    }
    assert(!is_digit(s[w]));
    lemma_digits_run(s, f, w);
    if let Some(d) = c.precision {
        assert(s.subrange(w + 1, p) =~= d);
        assert forall|k: int| w + 1 <= k < p implies is_digit(#[trigger] s[k]) by {
            assert(s[w + (k - w)] == c.fraction()[k - w]);
        }
        assert(!is_digit(s[p]));
        lemma_digits_run(s, w + 1, p);
        assert(d.len() > 0 ==> s[w + 1] == d[0]);
    }
    assert(seq!['h', 'h'].len() == 2 && seq!['h'].len() == 1 && seq!['l'].len() == 1);
    assert(seq!['l', 'l'].len() == 2 && seq!['z'].len() == 1 && seq!['j'].len() == 1);
    assert(seq!['t'].len() == 1 && seq!['L'].len() == 1);
    assert(seq!['h', 'h'][0] == 'h' && seq!['h', 'h'][1] == 'h' && seq!['h'][0] == 'h');
    assert(seq!['l', 'l'][0] == 'l' && seq!['l', 'l'][1] == 'l' && seq!['l'][0] == 'l');
    assert(seq!['z'][0] == 'z' && seq!['j'][0] == 'j' && seq!['t'][0] == 't');
    assert(seq!['L'][0] == 'L');
}

proof fn lemma_rewritten_conversion(c: ConversionV, b: Seq<char>, arg: ArgV, more: Seq<ArgV>)
    requires
        c.is_valid(),
    ensures
        rewritten(c.text() + b, seq![arg] + more) == (RewrittenV {
            fmt: c.text() + rewritten(b, more).fmt,
            values: seq![value_of(length_of(c.length), c.letter, arg)] + rewritten(b, more).values,
        }),
{
    let s = c.text() + b;
    let args = seq![arg] + more;
    lemma_parts(c, b);
    lemma_step_at(s, 0, args, 0);
    let step = step_at(s, 0, args, 0);
    assert(directive_at(s, 1, args, 0).text =~= seq!['%'] + c.flags + c.width + c.fraction()
        + c.length);
    assert(step.text =~= c.text());
    assert(args.skip(1) =~= more);
    assert(args[0] == arg);
    lemma_skip_rewritten(s, step.next, 0, args, 1, 0);
}

#[verifier::rlimit(30)]
proof fn lemma_prepared_conversion(c: ConversionV, b: Seq<char>, v: ValueV, more: Seq<ValueV>)
    requires
        c.is_valid(),
    ensures
        ({
            let rest = prepared_from(b, 0, more, 0);
            let (text, slot) = met(
                FieldV {
                    text: c.text(),
                    conv: c.letter,
                    left: c.flags.contains('-'),
                    zero: c.flags.contains('0'),
                    width: decimal_value(c.width),
                },
                v,
            );
            prepared_from(c.text() + b, 0, seq![v] + more, 0) == (PreparedV {
                fmt: text + rest.fmt,
                slots: seq![slot] + rest.slots,
            })
        }),
{
    let s = c.text() + b;
    let values = seq![v] + more;
    lemma_parts(c, b);
    lemma_meeting_at(s, 0, values, 0);
    let m = meeting_at(s, 0, values, 0);
    assert(values.skip(1) =~= more);
    assert(values[0] == v);
    let whole = seq!['%'] + c.flags + c.width + c.fraction() + (c.length + seq![c.letter]);
    assert(whole =~= c.text());
    lemma_skip_prepared(s, m.next, 0, values, 1, 0);
}

/// What a conversion that is given `v` in place of its argument leaves for the rest.
#[verifier::rlimit(30)]
proof fn lemma_handed_conversion(
    c: ConversionV,
    b: Seq<char>,
    arg: ArgV,
    more: Seq<ArgV>,
    floats: Seq<Seq<char>>,
)
    requires
        c.is_valid(),
    ensures
        ({
            let v = value_of(length_of(c.length), c.letter, arg);
            let r = handed_over(c.text() + b, seq![arg] + more, floats);
            let rest = handed_over(b, more, floats);
            &&& v !is Float && v != ValueV::I64(i64::MIN) ==> {
                &&& r == (RewrittenV { fmt: c.text() + rest.fmt, values: seq![v] + rest.values })
                &&& printf_floats(c.text() + b, seq![arg] + more) == printf_floats(b, more)
            }
            &&& v is Float && takes_float(c.letter) ==> printf_floats(
                c.text() + b,
                seq![arg] + more,
            ) == seq![FloatFieldV::Printf { conversion: c.text(), bits: v->Float_0 }]
                + printf_floats(b, more)
            &&& v is Float && takes_float(c.letter) && floats.len() == 1 + printf_floats(
                b,
                more,
            ).len() ==> r == (RewrittenV {
                fmt: seq!['%', 's'] + handed_over(b, more, floats.skip(1)).fmt,
                values: seq![ValueV::Str(floats[0])] + handed_over(b, more, floats.skip(1)).values,
            })
        }),
{
    let v = value_of(length_of(c.length), c.letter, arg);
    lemma_rewritten_conversion(c, b, arg, more);
    let x = rewritten(b, more);
    lemma_prepared_conversion(c, x.fmt, v, x.values);
    let p = prepared(rewritten(c.text() + b, seq![arg] + more));
    let q = prepared(x);
    let slot = p.slots[0];
    assert(p.slots == seq![slot] + q.slots);
    assert(p.slots.skip(1) =~= q.slots);
    lemma_skip_fields(p.slots, 1, 0);
    if v !is Float && v != ValueV::I64(i64::MIN) {
        lemma_skip_filled(p.slots, 1, 0, floats, 0, 0);
        assert(floats.skip(0) =~= floats);
    } else if v is Float && takes_float(c.letter) && floats.len() == 1 + printf_floats(
        b,
        more,
    ).len() {
        lemma_skip_filled(p.slots, 1, 0, floats, 1, 0);
    }
}

proof fn lemma_cut(n: u64)
    ensures
        (n as u8) as int == n as int % 0x100,
        (n as u16) as int == n as int % 0x1_0000,
        (n as u32) as int == n as int % 0x1_0000_0000,
        (n as u8 as i8) as int == cut_signed(n as int, 0x100),
        (n as u16 as i16) as int == cut_signed(n as int, 0x1_0000),
        (n as u32 as i32) as int == cut_signed(n as int, 0x1_0000_0000),
        (n as i64) as int == cut_signed(n as int, 0x1_0000_0000_0000_0000),
{
    assert(n as u8 == n % 0x100) by (bit_vector);
    assert(n as u16 == n % 0x1_0000) by (bit_vector);
    assert(n as u32 == n % 0x1_0000_0000) by (bit_vector);
    let a = n as u8;
    let b = n as u16;
    let c = n as u32;
    assert(a < 0x80 ==> a as i8 == a) by (bit_vector);
    assert(a >= 0x80 ==> a as i8 == a - 0x100) by (bit_vector);
    assert(b < 0x8000 ==> b as i16 == b) by (bit_vector);
    assert(b >= 0x8000 ==> b as i16 == b - 0x1_0000) by (bit_vector);
    assert(c < 0x8000_0000 ==> c as i32 == c) by (bit_vector);
    assert(c >= 0x8000_0000 ==> c as i32 == c - 0x1_0000_0000) by (bit_vector);
    assert(n < 0x8000_0000_0000_0000 ==> n as i64 == n) by (bit_vector);
    assert(n >= 0x8000_0000_0000_0000 ==> n as i64 == n - 0x1_0000_0000_0000_0000)
        by (bit_vector);
}

// ---- Laws ----

proof fn lemma_integer_value(c: ConversionV, arg: ArgV)
    requires
        c.is_valid(),
        raw_bits(arg) is Some,
        c.letter != 'p',
        takes_float(c.letter) ==> arg !is U64,
    ensures
        ({
            let v = value_of(length_of(c.length), c.letter, arg);
            let n = raw_bits(arg)->0 as int;
            let m = c.modulus();
            &&& takes_signed(c.letter) ==> is_signed_out_of(v, m) && number_of(v) == Some(
                cut_signed(n, m),
            )
            &&& !takes_signed(c.letter) ==> is_unsigned_out_of(v, m) && number_of(v) == Some(
                cut(n, m),
            )
        }),
{
    lemma_cut(raw_bits(arg)->0);
    assert(seq!['h', 'h'].len() == 2 && seq!['h'].len() == 1 && seq!['l'].len() == 1);
    assert(seq!['l', 'l'].len() == 2 && seq!['j'].len() == 1);
    assert(seq!['h', 'h'][0] == 'h' && seq!['h'][0] == 'h' && seq!['l'][0] == 'l');
    assert(seq!['l', 'l'][0] == 'l' && seq!['j'][0] == 'j' && seq!['z'][0] == 'z');
    assert(seq!['t'][0] == 't' && seq!['L'][0] == 'L');
}

/// An integer is handed over as the integer that its conversion asks for: `%d` and
/// `%i` take the two's-complement integer with the low bits of the argument, the other
/// letters the unsigned one, both as wide as the length modifier says. The conversion
/// itself stays as it is written, and the rest of the format string gets the rest of
/// the arguments.
pub proof fn integers_are_handed_over(
    c: ConversionV,
    b: Seq<char>,
    arg: ArgV,
    more: Seq<ArgV>,
    floats: Seq<Seq<char>>,
)
    requires
        c.is_valid(),
        raw_bits(arg) is Some,
        c.letter != 'p',
        takes_float(c.letter) ==> arg !is U64,
        takes_signed(c.letter) ==> cut_signed(raw_bits(arg)->0 as int, c.modulus())
            != -0x8000_0000_0000_0000,
    ensures
        ({
            let n = raw_bits(arg)->0 as int;
            let m = c.modulus();
            let r = handed_over(c.text() + b, seq![arg] + more, floats);
            let rest = handed_over(b, more, floats);
            &&& r.fmt == c.text() + rest.fmt
            &&& r.values.len() == 1 + rest.values.len()
            &&& r.values.skip(1) == rest.values
            &&& takes_signed(c.letter) ==> is_signed_out_of(r.values[0], m) && number_of(
                r.values[0],
            ) == Some(cut_signed(n, m))
            &&& !takes_signed(c.letter) ==> is_unsigned_out_of(r.values[0], m) && number_of(
                r.values[0],
            ) == Some(cut(n, m))
        }),
{
    lemma_integer_value(c, arg);
    let v = value_of(length_of(c.length), c.letter, arg);
    assert(v !is Float && v != ValueV::I64(i64::MIN));
    lemma_handed_conversion(c, b, arg, more, floats);
    let r = handed_over(c.text() + b, seq![arg] + more, floats);
    let rest = handed_over(b, more, floats);
    assert(r.values[0] == v);
    assert(r.values.skip(1) =~= rest.values);
}

/// A 32-bit argument under `%d` or `%i` is handed over as the 32-bit integer with its
/// bits, whether the length modifier is missing or one of `l`, `z`, `t` and `L`: a value
/// with the sign bit set is negative.
pub proof fn word_arguments_keep_their_sign(
    c: ConversionV,
    b: Seq<char>,
    v: u32,
    more: Seq<ArgV>,
    floats: Seq<Seq<char>>,
)
    requires
        c.is_valid(),
        takes_signed(c.letter),
        c.length == Seq::<char>::empty() || c.length == seq!['l'] || c.length == seq!['z']
            || c.length == seq!['t'] || c.length == seq!['L'],
    ensures
        ({
            let r = handed_over(c.text() + b, seq![ArgV::U32(v)] + more, floats);
            &&& r.values.len() > 0
            &&& number_of(r.values[0]) == Some(
                if v < 0x8000_0000 {
                    v as int
                } else {
                    v - 0x1_0000_0000
                },
            )
        }),
{
    assert(seq!['h', 'h'].len() == 2 && seq!['h'].len() == 1 && seq!['l'].len() == 1);
    assert(seq!['l', 'l'].len() == 2 && seq!['j'].len() == 1);
    assert(seq!['h'][0] == 'h' && seq!['l'][0] == 'l' && seq!['j'][0] == 'j');
    assert(seq!['z'][0] == 'z' && seq!['t'][0] == 't' && seq!['L'][0] == 'L');
    integers_are_handed_over(c, b, ArgV::U32(v), more, floats);
}

/// A string is handed over as its text, and a null string as `(null)`, whatever the
/// conversion.
pub proof fn strings_are_handed_over(
    c: ConversionV,
    b: Seq<char>,
    string: Option<Seq<u8>>,
    more: Seq<ArgV>,
    floats: Seq<Seq<char>>,
)
    requires
        c.is_valid(),
    ensures
        ({
            let r = handed_over(c.text() + b, seq![ArgV::Str(string)] + more, floats);
            let rest = handed_over(b, more, floats);
            &&& r.fmt == c.text() + rest.fmt
            &&& r.values == seq![
                ValueV::Str(
                    match string {
                        Some(bytes) => lossy_utf8(bytes),
                        None => "(null)"@,
                    },
                ),
            ] + rest.values
        }),
{
    lemma_handed_conversion(c, b, ArgV::Str(string), more, floats);
}

/// `%p` is handed the address itself.
pub proof fn addresses_are_handed_over(
    c: ConversionV,
    b: Seq<char>,
    arg: ArgV,
    more: Seq<ArgV>,
    floats: Seq<Seq<char>>,
)
    requires
        c.is_valid(),
        c.letter == 'p',
        raw_bits(arg) is Some,
        raw_bits(arg)->0 <= usize::MAX,
    ensures
        ({
            let r = handed_over(c.text() + b, seq![arg] + more, floats);
            let rest = handed_over(b, more, floats);
            &&& r.fmt == c.text() + rest.fmt
            &&& r.values == seq![ValueV::Ptr(raw_bits(arg)->0 as usize)] + rest.values
            &&& number_of(r.values[0]) == Some(raw_bits(arg)->0 as int)
        }),
{
    let n = raw_bits(arg)->0;
    assert(value_of(length_of(c.length), 'p', arg) == ValueV::Ptr(n as usize));
    lemma_handed_conversion(c, b, arg, more, floats);
    let values = handed_over(c.text() + b, seq![arg] + more, floats).values;
    assert(values[0] == ValueV::Ptr(n as usize));
}

/// A 64-bit argument under a floating-point conversion is a floating-point value: its
/// text under exactly this conversion is asked for, ahead of those of the rest, and
/// stands in the place of the conversion.
pub proof fn float_texts_take_their_places(
    c: ConversionV,
    b: Seq<char>,
    bits: u64,
    more: Seq<ArgV>,
    floats: Seq<Seq<char>>,
)
    requires
        c.is_valid(),
        takes_float(c.letter),
        floats.len() == printf_floats(c.text() + b, seq![ArgV::U64(bits)] + more).len(),
    ensures
        printf_floats(c.text() + b, seq![ArgV::U64(bits)] + more) == seq![
            FloatFieldV::Printf { conversion: c.text(), bits },
        ] + printf_floats(b, more),
        ({
            let r = handed_over(c.text() + b, seq![ArgV::U64(bits)] + more, floats);
            let rest = handed_over(b, more, floats.skip(1));
            &&& r.fmt == seq!['%', 's'] + rest.fmt
            &&& r.values == seq![ValueV::Str(floats[0])] + rest.values
        }),
{
    lemma_handed_conversion(c, b, ArgV::U64(bits), more, floats);
}

/// Text without a `%` is handed over as it is, in front of what the rest gives.
pub proof fn text_is_handed_over_unchanged(
    a: Seq<char>,
    b: Seq<char>,
    args: Seq<ArgV>,
    floats: Seq<Seq<char>>,
)
    requires
        !a.contains('%'),
    ensures
        handed_over(a + b, args, floats) == (RewrittenV {
            fmt: a + handed_over(b, args, floats).fmt,
            values: handed_over(b, args, floats).values,
        }),
        printf_floats(a + b, args) == printf_floats(b, args),
    decreases a.len(),
{
    if a.len() == 0 {
        assert(a + b =~= b);
        assert(a + handed_over(b, args, floats).fmt =~= handed_over(b, args, floats).fmt);
    } else {
        let s = a + b;
        let t = a.skip(1) + b;
        assert(a.contains(a[0]));
        assert forall|k: int| 0 <= k < a.skip(1).len() implies a.skip(1)[k] != '%' by {
            assert(a.contains(a[k + 1]));
        }
        text_is_handed_over_unchanged(a.skip(1), b, args, floats);
        lemma_handed_text(s, args);
        assert(s.skip(1) =~= t);
        assert(seq![a[0]] + (a.skip(1) + handed_over(b, args, floats).fmt) =~= a + handed_over(
            b,
            args,
            floats,
        ).fmt);
    }
}

proof fn lemma_handed_text(s: Seq<char>, args: Seq<ArgV>)
    requires
        s.len() > 0,
        s[0] != '%',
    ensures
        prepared(rewritten(s, args)).fmt == seq![s[0]] + prepared(rewritten(s.skip(1), args)).fmt,
        prepared(rewritten(s, args)).slots == prepared(rewritten(s.skip(1), args)).slots,
{
    lemma_step_at(s, 0, args, 0);
    lemma_skip_rewritten(s, 1, 0, args, 0, 0);
    assert(args.skip(0) =~= args);
    let x = rewritten(s, args);
    let y = rewritten(s.skip(1), args);
    assert(x.values =~= y.values);
    assert(x.fmt == seq![s[0]] + y.fmt);
    lemma_meeting_at(x.fmt, 0, x.values, 0);
    lemma_skip_prepared(x.fmt, 1, 0, x.values, 0, 0);
    assert(x.fmt.skip(1) =~= y.fmt);
    assert(x.values.skip(0) =~= x.values);
    assert(prepared(x).slots =~= prepared(y).slots);
}

/// A doubled `%` is handed over doubled and takes no argument.
pub proof fn doubled_percent_signs_take_no_argument(
    b: Seq<char>,
    args: Seq<ArgV>,
    floats: Seq<Seq<char>>,
)
    ensures
        handed_over(seq!['%', '%'] + b, args, floats) == (RewrittenV {
            fmt: seq!['%', '%'] + handed_over(b, args, floats).fmt,
            values: handed_over(b, args, floats).values,
        }),
        printf_floats(seq!['%', '%'] + b, args) == printf_floats(b, args),
{
    let s = seq!['%', '%'] + b;
    lemma_step_at(s, 0, args, 0);
    lemma_skip_rewritten(s, 2, 0, args, 0, 0);
    assert(args.skip(0) =~= args);
    assert(s.skip(2) =~= b);
    let x = rewritten(s, args);
    let y = rewritten(b, args);
    assert(x.values =~= y.values);
    assert(x.fmt == seq!['%', '%'] + y.fmt);
    lemma_meeting_at(x.fmt, 0, x.values, 0);
    assert(x.fmt[1] == '%');
    let z = x.fmt;
    assert(flags_end(z, 1) == 1);
    assert(count_end(z, 1) == 1);
    assert(precision_end(z, 1) == 1);
    assert(sprintf_length_end(z, 1) == 1);
    assert(z.subrange(1, 1) =~= Seq::empty());
    assert(decimal_value(Seq::<char>::empty()) == 0);
    lemma_skip_prepared(x.fmt, 2, 0, x.values, 0, 0);
    assert(x.fmt.skip(2) =~= y.fmt);
    assert(x.values.skip(0) =~= x.values);
    assert(prepared(x).slots =~= prepared(y).slots);
}

/// A conversion for which no argument is left stays in the format string, and nothing
/// is made up in the place of its argument. Arguments that no conversion asks for are
/// dropped.
pub proof fn nothing_is_made_up(c: ConversionV, args: Seq<ArgV>, floats: Seq<Seq<char>>)
    requires
        c.is_valid(),
    ensures
        handed_over(c.text(), Seq::empty(), floats) == (RewrittenV {
            fmt: c.text(),
            values: Seq::empty(),
        }),
        handed_over(Seq::empty(), args, floats) == (RewrittenV {
            fmt: Seq::empty(),
            values: Seq::empty(),
        }),
{
    let none = Seq::<ArgV>::empty();
    let b = Seq::<char>::empty();
    let s = c.text() + b;
    assert(s =~= c.text());
    lemma_parts(c, b);
    lemma_step_at(s, 0, none, 0);
    let step = step_at(s, 0, none, 0);
    assert(directive_at(s, 1, none, 0).text =~= seq!['%'] + c.flags + c.width + c.fraction()
        + c.length);
    assert(step.text =~= c.text());
    let x = rewritten(s, none);
    assert(rewritten_from(s, step.next, none, step.ai).fmt =~= Seq::empty());
    assert(x.fmt =~= s);
    assert(x.values =~= Seq::empty());
    lemma_meeting_at(x.fmt, 0, x.values, 0);
    let whole = seq!['%'] + c.flags + c.width + c.fraction() + (c.length + seq![c.letter]);
    assert(whole =~= c.text());
    let m = meeting_at(x.fmt, 0, x.values, 0);
    assert(m.text =~= c.text());
    assert(m.slot is None && m.next == s.len());
    let p = prepared(x);
    assert(unmet(x.values, m.vi) =~= Seq::empty());
    assert(prepared_from(s, m.next, x.values, m.vi).fmt =~= Seq::empty());
    assert(p.fmt =~= c.text());
    assert(p.slots =~= Seq::empty());
    let y = rewritten(b, args);
    assert(unmet(y.values, 0) =~= Seq::empty());
    assert(prepared(y).fmt =~= b);
}

// ---- Widths and precisions out of arguments ----

/// A conversion with a `*` in the place of its width or of its precision, or of both.
pub open spec fn starred(c: ConversionV, width: bool, precision: bool) -> Seq<char> {
    seq!['%'] + c.flags + (if width {
        seq!['*']
    } else {
        c.width
    }) + (if precision {
        seq!['.', '*']
    } else {
        c.fraction()
    }) + c.length + seq![c.letter]
}

/// A count held to what an argument can ask for.
pub open spec fn held(n: int) -> nat {
    if n < 4096 {
        n as nat
    } else {
        4096
    }
}

/// The conversion that a `*` stands for: a negative width is a width to the left, width
/// zero is none, a negative precision is none, and no count is above what an argument can
/// ask for.
pub open spec fn with_counts(
    c: ConversionV,
    width: bool,
    precision: bool,
    w: i32,
    p: i32,
) -> ConversionV {
    ConversionV {
        flags: if width && w < 0 && !c.flags.contains('-') {
            c.flags.push('-')
        } else {
            c.flags
        },
        width: if !width {
            c.width
        } else if w == 0 {
            Seq::empty()
        } else {
            decimal(
                held(
                    if w < 0 {
                        -w
                    } else {
                        w as int
                    },
                ),
            )
        },
        precision: if !precision {
            c.precision
        } else if p < 0 {
            None
        } else {
            Some(decimal(held(p as int)))
        },
        ..c
    }
}

/// The arguments that the stars of a conversion take.
pub open spec fn star_args(width: bool, precision: bool, w: i32, p: i32) -> Seq<ArgV> {
    (if width {
        seq![ArgV::U32(w as u32)]
    } else {
        Seq::empty()
    }) + (if precision {
        seq![ArgV::U32(p as u32)]
    } else {
        Seq::empty()
    })
}

proof fn lemma_decimal_digits(v: nat)
    ensures
        all_digits(decimal(v)),
        decimal_value(decimal(v)) == v,
        decimal(v).len() > 0,
        v > 0 ==> decimal(v)[0] != '0',
    decreases v,
{
    decimal_value_of_decimal(v);
    let d = decimal(v);
    assert forall|k: int| 0 <= k < d.len() implies '0' <= #[trigger] d[k] <= '9' by {
        assert(is_digit(d[k]));
    }
    if v >= 10 {
        lemma_decimal_digits(v / 10);
        assert(decimal(v)[0] == decimal(v / 10)[0]);
    }
}

proof fn lemma_with_counts(c: ConversionV, width: bool, precision: bool, w: i32, p: i32)
    requires
        c.is_valid(),
    ensures
        with_counts(c, width, precision, w, p).is_valid(),
{
    let r = with_counts(c, width, precision, w, p);
    let n = held(
        if w < 0 {
            -w
        } else {
            w as int
        },
    );
    lemma_decimal_digits(n);
    lemma_decimal_digits(held(p as int));
    assert(decimal_value(Seq::<char>::empty()) == 0);
    assert forall|k: int| 0 <= k < r.flags.len() implies {
        let x = #[trigger] r.flags[k];
        x == '-' || x == '+' || x == ' ' || x == '#' || x == '0'
    } by {
        if k < c.flags.len() {
            assert(r.flags[k] == c.flags[k]);
        }
    }
}

#[verifier::rlimit(40)]
proof fn lemma_starred_parts(c: ConversionV, width: bool, precision: bool, b: Seq<char>)
    requires
        c.is_valid(),
    ensures
        ({
            let s = starred(c, width, precision) + b;
            let wt = if width {
                seq!['*']
            } else {
                c.width
            };
            let pt = if precision {
                seq!['.', '*']
            } else {
                c.fraction()
            };
            let f = 1int + c.flags.len();
            let w = f + wt.len();
            let p = w + pt.len();
            let e = p + c.length.len();
            &&& s[0] == '%'
            &&& !has_at(s, 1, '%')
            &&& flags_end(s, 1) == f
            &&& count_end(s, f) == w
            &&& precision_end(s, w) == p
            &&& length_at(s, p) == (length_of(c.length), e)
            &&& e + 1 == starred(c, width, precision).len()
            &&& e < s.len()
            &&& s[e] == c.letter
            &&& has_at(s, f, '*') == width
            &&& (has_at(s, w, '.') && has_at(s, w + 1, '*')) == precision
            &&& s.subrange(1, f) == c.flags
            &&& !width ==> s.subrange(f, w) == c.width
            &&& !precision ==> s.subrange(w, p) == c.fraction()
            &&& s.subrange(p, e) == c.length
            &&& s.skip(e + 1) == b
        }),
{
    let s = starred(c, width, precision) + b;
    let wt = if width {
        seq!['*']
    } else {
        c.width
    };
    let pt = if precision {
        seq!['.', '*']
    } else {
        c.fraction()
    };
    let f = 1int + c.flags.len();
    let w = f + wt.len();
    let p = w + pt.len();
    let e = p + c.length.len();
    assert(s.subrange(1, f) =~= c.flags);
    assert(s.subrange(f, w) =~= wt);
    assert(s.subrange(w, p) =~= pt);
    assert(s.subrange(p, e) =~= c.length);
    assert(s.skip(e + 1) =~= b);
    assert(forall|k: int| 0 <= k < c.flags.len() ==> #[trigger] s[1 + k] == c.flags[k]);
    assert(forall|k: int| 0 <= k < wt.len() ==> #[trigger] s[f + k] == wt[k]);
    assert(forall|k: int| 0 <= k < pt.len() ==> #[trigger] s[w + k] == pt[k]);
    assert(forall|k: int| 0 <= k < c.length.len() ==> #[trigger] s[p + k] == c.length[k]);
    assert(s[e] == c.letter);
    assert(c.length.len() > 0 ==> s[p + 0] == c.length[0]);
    assert(c.length.len() > 1 ==> s[p + 1] == c.length[1]);
    assert(pt.len() > 0 ==> s[w + 0] == '.');
    assert(pt.len() > 1 ==> s[w + 1] == pt[1]);
    assert(wt.len() > 0 ==> s[f + 0] == wt[0]);
    assert(c.flags.len() > 0 ==> s[1] == c.flags[0]);
    assert forall|k: int| 1 <= k < f implies is_flag(#[trigger] s[k]) by {
        assert(s[1 + (k - 1)] == c.flags[k - 1]);
    }
    assert(!is_flag(s[f]));
    lemma_flags_run(s, 1, f);
    if !width {
        assert forall|k: int| f <= k < w implies is_digit(#[trigger] s[k]) by {
            assert(s[f + (k - f)] == c.width[k - f]);
        }
        assert(!is_digit(s[w]));
        lemma_digits_run(s, f, w);
    }
    if !precision {
        if let Some(d) = c.precision {
            assert forall|k: int| w + 1 <= k < p implies is_digit(#[trigger] s[k]) by {
                assert(s[w + (k - w)] == pt[k - w]);
                assert(pt[k - w] == d[k - w - 1]);
            }
            assert(!is_digit(s[p]));
            lemma_digits_run(s, w + 1, p);
            assert(d.len() > 0 ==> pt[1] == d[0]);
        }
    }
    assert(seq!['h', 'h'].len() == 2 && seq!['h'].len() == 1 && seq!['l'].len() == 1);
    assert(seq!['l', 'l'].len() == 2 && seq!['z'].len() == 1 && seq!['j'].len() == 1);
    assert(seq!['t'].len() == 1 && seq!['L'].len() == 1);
    assert(seq!['h', 'h'][0] == 'h' && seq!['h', 'h'][1] == 'h' && seq!['h'][0] == 'h');
    assert(seq!['l', 'l'][0] == 'l' && seq!['l', 'l'][1] == 'l' && seq!['l'][0] == 'l');
    assert(seq!['z'][0] == 'z' && seq!['j'][0] == 'j' && seq!['t'][0] == 't');
    assert(seq!['L'][0] == 'L');
}

proof fn lemma_star_value(args: Seq<ArgV>, i: int, v: i32)
    requires
        0 <= i < args.len(),
        args[i] == ArgV::U32(v as u32),
    ensures
        star_value(args, i) == v as i64,
        bounded_count(v as i64) == held(
            if v < 0 {
                -v
            } else {
                v as int
            },
        ),
{
    assert((v as u32) as i32 == v) by (bit_vector);
}

#[verifier::rlimit(40)]
proof fn lemma_starred_directive(
    c: ConversionV,
    width: bool,
    precision: bool,
    w: i32,
    p: i32,
    b: Seq<char>,
    more: Seq<ArgV>,
)
    requires
        c.is_valid(),
    ensures
        ({
            let s = starred(c, width, precision) + b;
            let stars = star_args(width, precision, w, p);
            let r = with_counts(c, width, precision, w, p);
            let d = directive_at(s, 1, stars + more, 0);
            &&& d.text.push(c.letter) == r.text()
            &&& d.end + 1 == starred(c, width, precision).len()
            &&& d.end < s.len()
            &&& s[d.end] == c.letter
            &&& d.ai == stars.len()
            &&& d.len == length_of(c.length)
        }),
{
    let s = starred(c, width, precision) + b;
    let stars = star_args(width, precision, w, p);
    let args = stars + more;
    let r = with_counts(c, width, precision, w, p);
    lemma_starred_parts(c, width, precision, b);
    if width {
        lemma_star_value(args, 0, w);
    }
    let i = if width {
        1int
    } else {
        0
    };
    if precision {
        assert(args[i] == ArgV::U32(p as u32));
        lemma_star_value(args, i, p);
    }
    let minus = c.flags.contains('-');
    let wt = if width {
        width_text(w as i64, minus)
    } else {
        c.width
    };
    let pt = if precision {
        precision_text(p as i64)
    } else {
        c.fraction()
    };
    let d = directive_at(s, 1, args, 0);
    assert(d.text == seq!['%'] + c.flags + wt + pt + c.length);
    assert(pt =~= r.fraction());
    assert(c.flags + wt =~= r.flags + r.width);
    assert(seq!['%'] + c.flags + wt =~= seq!['%'] + (c.flags + wt));
    assert(seq!['%'] + r.flags + r.width =~= seq!['%'] + (r.flags + r.width));
    assert(d.text.push(c.letter) =~= r.text());
}

/// What a string gives whose first step is known.
proof fn lemma_first_step(s: Seq<char>, args: Seq<ArgV>, b: Seq<char>, rest: Seq<ArgV>)
    requires
        s.len() > 0,
        ({
            let x = step_at(s, 0, args, 0);
            &&& 0 <= x.next <= s.len()
            &&& 0 <= x.ai <= args.len()
            &&& s.skip(x.next) == b
            &&& args.skip(x.ai) == rest
        }),
    ensures
        rewritten(s, args).fmt == step_at(s, 0, args, 0).text + rewritten(b, rest).fmt,
        rewritten(s, args).values == elements(step_at(s, 0, args, 0).value) + rewritten(
            b,
            rest,
        ).values,
{
    lemma_step_at(s, 0, args, 0);
    let x = step_at(s, 0, args, 0);
    lemma_skip_rewritten(s, x.next, 0, args, x.ai, 0);
}

#[verifier::rlimit(40)]
proof fn lemma_starred_step(
    c: ConversionV,
    width: bool,
    precision: bool,
    w: i32,
    p: i32,
    b: Seq<char>,
    more: Seq<ArgV>,
)
    requires
        c.is_valid(),
    ensures
        ({
            let s = starred(c, width, precision) + b;
            let stars = star_args(width, precision, w, p);
            let x = step_at(s, 0, stars + more, 0);
            &&& s.len() > 0
            &&& x.text == with_counts(c, width, precision, w, p).text()
            &&& x.next == starred(c, width, precision).len()
            &&& more.len() == 0 ==> x.value is None && x.ai == stars.len()
            &&& more.len() > 0 ==> x.value == Some(
                value_of(length_of(c.length), c.letter, more[0]),
            ) && x.ai == stars.len() + 1
        }),
{
    let s = starred(c, width, precision) + b;
    let stars = star_args(width, precision, w, p);
    lemma_starred_directive(c, width, precision, w, p, b, more);
    lemma_starred_parts(c, width, precision, b);
    if more.len() > 0 {
        assert((stars + more)[stars.len() as int] == more[0]);
    }
}

/// A conversion that reads as another one once some arguments are taken.
proof fn lemma_same_rewritten(
    r: ConversionV,
    head: Seq<char>,
    stars: Seq<ArgV>,
    b: Seq<char>,
    more: Seq<ArgV>,
)
    requires
        r.is_valid(),
        ({
            let x = step_at(head + b, 0, stars + more, 0);
            &&& (head + b).len() > 0
            &&& x.text == r.text()
            &&& x.next == head.len()
            &&& more.len() == 0 ==> x.value is None && x.ai == stars.len()
            &&& more.len() > 0 ==> x.value == Some(
                value_of(length_of(r.length), r.letter, more[0]),
            ) && x.ai == stars.len() + 1
        }),
    ensures
        rewritten(head + b, stars + more) == rewritten(r.text() + b, more),
{
    let s = head + b;
    let args = stars + more;
    assert(s.skip(head.len() as int) =~= b);
    if more.len() > 0 {
        let rest = more.skip(1);
        assert(args.skip(stars.len() as int + 1) =~= rest);
        lemma_first_step(s, args, b, rest);
        lemma_rewritten_conversion(r, b, more[0], rest);
        assert(seq![more[0]] + rest =~= more);
    } else {
        assert(args.skip(stars.len() as int) =~= more);
        lemma_first_step(s, args, b, more);
        lemma_rewritten_bare(r, b, more);
        assert(rewritten(s, args).values =~= rewritten(b, more).values);
    }
}

/// A conversion for which no argument is left.
proof fn lemma_rewritten_bare(c: ConversionV, b: Seq<char>, none: Seq<ArgV>)
    requires
        c.is_valid(),
        none.len() == 0,
    ensures
        rewritten(c.text() + b, none) == (RewrittenV {
            fmt: c.text() + rewritten(b, none).fmt,
            values: rewritten(b, none).values,
        }),
{
    let s = c.text() + b;
    lemma_parts(c, b);
    lemma_step_at(s, 0, none, 0);
    let step = step_at(s, 0, none, 0);
    assert(directive_at(s, 1, none, 0).text =~= seq!['%'] + c.flags + c.width + c.fraction()
        + c.length);
    assert(step.text =~= c.text());
    lemma_skip_rewritten(s, step.next, 0, none, 0, 0);
    assert(none.skip(0) =~= none);
    assert(rewritten(s, none).values =~= rewritten(b, none).values);
}

/// A width or a precision that is taken out of an argument counts as if it were written
/// in the place of its star.
pub proof fn stars_take_their_counts(
    c: ConversionV,
    width: bool,
    precision: bool,
    w: i32,
    p: i32,
    b: Seq<char>,
    more: Seq<ArgV>,
    floats: Seq<Seq<char>>,
)
    requires
        c.is_valid(),
    ensures
        ({
            let fmt = starred(c, width, precision) + b;
            let args = star_args(width, precision, w, p) + more;
            let literal = with_counts(c, width, precision, w, p).text() + b;
            &&& handed_over(fmt, args, floats) == handed_over(literal, more, floats)
            &&& printf_floats(fmt, args) == printf_floats(literal, more)
        }),
{
    lemma_with_counts(c, width, precision, w, p);
    lemma_starred_step(c, width, precision, w, p, b, more);
    lemma_same_rewritten(
        with_counts(c, width, precision, w, p),
        starred(c, width, precision),
        star_args(width, precision, w, p),
        b,
        more,
    );
}

// ---- Detection and dispatch ----

/// A string in which a conversion stands behind text without `%` is a printf string: it
/// is rendered by `vsprintf`, whatever braces it holds.
pub proof fn conversions_make_a_printf_string(
    a: Seq<char>,
    c: ConversionV,
    b: Seq<char>,
    args: Seq<ArgV>,
    floats: Seq<Seq<char>>,
)
    requires
        c.is_valid(),
        c.letter != 'F',
        !a.contains('%'),
    ensures
        converts_from(a + c.text() + b, 0),
        format_text(a + c.text() + b, args, floats) == printf_text(
            a + c.text() + b,
            args,
            floats,
        ),
        format_floats(a + c.text() + b, args) == printf_floats(a + c.text() + b, args),
{
    let s = a + c.text() + b;
    lemma_converts_behind(a, c, b, 0);
    assert(s =~= a + (c.text() + b));
}

proof fn lemma_lengths_run(s: Seq<char>, i: int, j: int)
    requires
        0 <= i <= j < s.len(),
        forall|k: int| i <= k < j ==> is_length_char(#[trigger] s[k]),
        !is_length_char(s[j]),
    ensures
        lengths_end(s, i) == j,
    decreases j - i,
{
    if i < j {
        assert(is_length_char(s[i]));
        lemma_lengths_run(s, i + 1, j);
    }
}

proof fn lemma_skip_lengths(s: Seq<char>, n: int, i: int)
    requires
        0 <= n <= s.len(),
        0 <= i <= s.len() - n,
    ensures
        lengths_end(s, n + i) == n + lengths_end(s.skip(n), i),
    decreases s.len() - n - i,
{
    if i < s.len() - n && is_length_char(s[n + i]) {
        lemma_skip_lengths(s, n, i + 1);
    }
}

proof fn lemma_converts_behind(a: Seq<char>, c: ConversionV, b: Seq<char>, i: int)
    requires
        c.is_valid(),
        c.letter != 'F',
        !a.contains('%'),
        0 <= i <= a.len(),
    ensures
        converts_from(a + c.text() + b, i),
    decreases a.len() - i,
{
    let s = a + c.text() + b;
    if i < a.len() {
        assert(a.contains(a[i]));
        assert(s[i] == a[i]);
        lemma_converts_behind(a, c, b, i + 1);
    } else {
        let t = c.text() + b;
        let n = a.len() as int;
        assert(s.skip(n) =~= t);
        lemma_parts(c, b);
        lemma_skip_counts(s, n, 1);
        let p = 1int + c.flags.len() + c.width.len() + c.fraction().len();
        let e = p + c.length.len();
        assert forall|k: int| p <= k < e implies is_length_char(#[trigger] t[k]) by {
            assert(t.subrange(p, e)[k - p] == t[k]);
            assert(t[k] == c.length[k - p]);
        }
        lemma_lengths_run(t, p, e);
        lemma_skip_lengths(s, n, p);
        assert(conversion_at(s, n + 1) == n + e);
        assert(s[n + e] == t[e]);
        assert(s[n] == t[0]);
        assert(has_at(t, 1, '%') == has_at(s, n + 1, '%'));
    }
}

/// `a` with each `%` doubled.
pub open spec fn doubled(a: Seq<char>) -> Seq<char>
    decreases a.len(),
{
    if a.len() == 0 {
        Seq::empty()
    } else if a[0] == '%' {
        seq!['%', '%'] + doubled(a.skip(1))
    } else {
        seq![a[0]] + doubled(a.skip(1))
    }
}

/// A string in which every `%` is doubled holds no conversion.
pub proof fn doubled_percent_signs_are_no_conversion(a: Seq<char>)
    ensures
        !converts_from(doubled(a), 0),
{
    assert(doubled(a).skip(0) =~= doubled(a));
    lemma_doubled(doubled(a), 0, a);
}

proof fn lemma_doubled(s: Seq<char>, i: int, a: Seq<char>)
    requires
        0 <= i <= s.len(),
        s.skip(i) == doubled(a),
    ensures
        !converts_from(s, i),
    decreases a.len(),
{
    let d = doubled(a);
    if a.len() == 0 {
        assert(s.skip(i).len() == 0);
    } else {
        let n = if a[0] == '%' {
            2int
        } else {
            1
        };
        assert(d.len() >= n);
        assert(s.skip(i).len() == s.len() - i);
        assert(s.skip(i)[0] == d[0] && s[i] == d[0]);
        assert(n == 2 ==> s.skip(i)[1] == d[1] && s[i + 1] == d[1]);
        assert(s.skip(i + n) =~= s.skip(i).skip(n));
        assert(d.skip(n) =~= doubled(a.skip(1)));
        lemma_doubled(s, i + n, a.skip(1));
    }
}

/// A printf string shows what `vsprintf` makes of what it is handed; where it fails, or
/// cannot take what it would be handed, the format string itself shows behind a mark that
/// says why.
pub proof fn printf_lines_show_the_result(
    fmt: Seq<char>,
    args: Seq<ArgV>,
    floats: Seq<Seq<char>>,
)
    requires
        converts_from(fmt, 0),
    ensures
        ({
            let r = handed_over(fmt, args, floats);
            let line = format_text(fmt, args, floats);
            &&& printable(r) ==> match vsprintf_result(r.fmt, r.values) {
                Ok(text) => line == text,
                Err(why) => line == "<render error: "@ + why + "> "@ + fmt,
            }
            &&& !printable(r) ==> line == "<render error: "@ + "Error parsing the format string"@
                + "> "@ + fmt
        }),
{
}

// ---- What can be printed ----

proof fn lemma_skip_fit(s: Seq<char>, n: int, i: int)
    requires
        0 <= n <= s.len(),
        0 <= i <= s.len() - n,
    ensures
        counts_fit(s, n + i) == counts_fit(s.skip(n), i),
    decreases s.len() - n - i,
{
    let t = s.skip(n);
    if i < t.len() {
        if t[i] != '%' {
            lemma_skip_fit(s, n, i + 1);
        } else {
            lemma_skip_counts(s, n, i + 1);
            lemma_precision_end(s, n + i + 1);
            lemma_precision_end(t, i + 1);
            let f = flags_end(t, i + 1);
            let w = count_end(t, f);
            let p = precision_end(t, w);
            let e = sprintf_length_end(t, p);
            assert(s.subrange(n + f, n + w) =~= t.subrange(f, w));
            if has_at(t, w, '.') && !has_at(t, w + 1, '*') {
                lemma_skip_digits(s, n, w + 1);
                assert(s.subrange(n + w + 1, n + p) =~= t.subrange(w + 1, p));
            }
            assert(has_at(t, f, '*') == has_at(s, n + f, '*'));
            assert(has_at(t, w, '.') == has_at(s, n + w, '.'));
            assert(has_at(t, w + 1, '*') == has_at(s, n + w + 1, '*'));
            if e < t.len() {
                lemma_skip_fit(s, n, e + 1);
            }
        }
    }
}

/// Text and conversions of C with counts that C can hold do not keep a format string from
/// being printed; a conversion with a larger count does.
pub proof fn conversions_can_be_printed(a: Seq<char>, c: ConversionV, b: Seq<char>)
    requires
        !a.contains('%'),
        c.is_written(),
    ensures
        counts_fit(a + b, 0) == counts_fit(b, 0),
        counts_fit(seq!['%', '%'] + b, 0) == counts_fit(b, 0),
        c.is_valid() ==> counts_fit(c.text() + b, 0) == counts_fit(b, 0),
        !c.is_valid() ==> !counts_fit(c.text() + b, 0),
        counts_fit(Seq::empty(), 0),
    decreases a.len(),
{
    if a.len() > 0 {
        let s = a + b;
        assert(a.contains(a[0]));
        assert(s[0] == a[0]);
        assert(s.skip(1) =~= a.skip(1) + b);
        assert forall|k: int| 0 <= k < a.skip(1).len() implies a.skip(1)[k] != '%' by {
            assert(a.contains(a[k + 1]));
        }
        lemma_skip_fit(s, 1, 0);
        conversions_can_be_printed(a.skip(1), c, b);
    } else {
        assert(a + b =~= b);
        let s = c.text() + b;
        lemma_parts(c, b);
        lemma_precision_end(s, 1);
        lemma_skip_fit(s, c.text().len() as int, 0);
        let t = seq!['%', '%'] + b;
        assert(t.skip(2) =~= b);
        assert(!is_flag(t[1]) && !is_digit(t[1]));
        lemma_flags_run(t, 1, 1);
        lemma_digits_run(t, 1, 1);
        assert(t.subrange(1, 1) =~= Seq::empty());
        lemma_skip_fit(t, 2, 0);
    }
}

/// The least 64-bit integer, which no positive integer stands against, is handed over
/// written out: its sign and its digits, padded to the width with blanks behind or in
/// front, or with zeros between the two.
pub proof fn least_integer_is_written_out(
    c: ConversionV,
    b: Seq<char>,
    more: Seq<ArgV>,
    floats: Seq<Seq<char>>,
)
    requires
        c.is_valid(),
        takes_signed(c.letter),
        c.length == seq!['l', 'l'] || c.length == seq!['j'],
    ensures
        ({
            let arg = ArgV::U64(0x8000_0000_0000_0000);
            let r = handed_over(c.text() + b, seq![arg] + more, floats);
            let rest = handed_over(b, more, floats);
            let d = decimal(0x8000_0000_0000_0000);
            let n = if 1 + d.len() < decimal_value(c.width) {
                (decimal_value(c.width) - 1 - d.len()) as nat
            } else {
                0
            };
            &&& r.fmt == seq!['%', 's'] + rest.fmt
            &&& r.values == seq![
                ValueV::Str(
                    if c.flags.contains('-') {
                        seq!['-'] + d + repeated(' ', n)
                    } else if c.flags.contains('0') {
                        seq!['-'] + repeated('0', n) + d
                    } else {
                        repeated(' ', n) + seq!['-'] + d
                    },
                ),
            ] + rest.values
        }),
{
    let arg = ArgV::U64(0x8000_0000_0000_0000);
    let v = value_of(length_of(c.length), c.letter, arg);
    assert(seq!['h', 'h'].len() == 2 && seq!['h', 'h'][0] == 'h' && seq!['h'].len() == 1);
    assert(seq!['l', 'l'].len() == 2 && seq!['l', 'l'][0] == 'l' && seq!['l'].len() == 1);
    assert(seq!['j'].len() == 1 && seq!['j'][0] == 'j' && seq!['z'][0] == 'z');
    assert(seq!['h'][0] == 'h' && seq!['l'][0] == 'l');
    lemma_cut(0x8000_0000_0000_0000);
    assert(v == ValueV::I64(i64::MIN));
    lemma_rewritten_conversion(c, b, arg, more);
    let x = rewritten(b, more);
    lemma_prepared_conversion(c, x.fmt, v, x.values);
    let p = prepared(rewritten(c.text() + b, seq![arg] + more));
    let q = prepared(x);
    assert(p.slots.skip(1) =~= q.slots);
    lemma_skip_filled(p.slots, 1, 0, floats, 0, 0);
    assert(floats.skip(0) =~= floats);
    let d = decimal(0x8000_0000_0000_0000);
    let width = decimal_value(c.width);
    let n = if 1 + d.len() < width {
        (width - 1 - d.len()) as nat
    } else {
        0
    };
    let t = min_i64_text(c.flags.contains('-'), c.flags.contains('0'), width);
    if c.flags.contains('-') {
        assert(t =~= seq!['-'] + d + repeated(' ', n));
    } else if c.flags.contains('0') {
        assert(t =~= seq!['-'] + repeated('0', n) + d);
    } else {
        assert(t =~= repeated(' ', n) + seq!['-'] + d);
    }
}

// ---- Stars that take other arguments ----

/// The number that an argument is where a star takes it: a 32-bit or a 64-bit integer with
/// a sign; zero for a string.
pub open spec fn star_number(arg: ArgV) -> int {
    match arg {
        ArgV::U32(v) | ArgV::Ptr(v) => cut_signed(v as int, 0x1_0000_0000),
        ArgV::U64(v) => cut_signed(v as int, 0x1_0000_0000_0000_0000),
        ArgV::Str(_) => 0,
    }
}

/// A number held between the largest widths to the left and to the right.
pub open spec fn held_both_ways(n: int) -> int {
    if n < -4096 {
        -4096
    } else if n > 4096 {
        4096
    } else {
        n
    }
}

proof fn lemma_star_number(args: Seq<ArgV>)
    requires
        args.len() > 0,
    ensures
        star_value(args, 0) as int == star_number(args[0]),
{
    match args[0] {
        ArgV::U32(v) | ArgV::Ptr(v) => {
            lemma_cut(v as u64);
            assert((v as u64) as u32 == v) by (bit_vector);
        },
        ArgV::U64(v) => {
            lemma_cut(v);
        },
        ArgV::Str(_) => {},
    }
}

/// A star counts by the number that its argument is, whatever kind of argument that is,
/// and by no more than 4096 either way.
pub proof fn stars_count_by_any_argument(
    c: ConversionV,
    width: bool,
    precision: bool,
    x: ArgV,
    y: ArgV,
    b: Seq<char>,
    more: Seq<ArgV>,
    floats: Seq<Seq<char>>,
)
    requires
        c.is_valid(),
        width || precision,
        held_both_ways(star_number(x)) == held_both_ways(star_number(y)),
    ensures
        ({
            let fmt = starred(c, width, precision) + b;
            handed_over(fmt, seq![x] + more, floats) == handed_over(fmt, seq![y] + more, floats)
        }),
{
    let s = starred(c, width, precision) + b;
    let a1 = seq![x] + more;
    let a2 = seq![y] + more;
    lemma_starred_parts(c, width, precision, b);
    lemma_star_number(a1);
    lemma_star_number(a2);
    let u = star_value(a1, 0);
    let v = star_value(a2, 0);
    assert(bounded_count(u) == bounded_count(v) && (u < 0) == (v < 0) && (u == 0) == (v == 0));
    let d1 = directive_at(s, 1, a1, 0);
    let d2 = directive_at(s, 1, a2, 0);
    assert(star_value(a1, 1) == star_value(a2, 1));
    assert(d1 == d2);
    assert(d1.ai >= 1);
    assert(d1.ai < a1.len() ==> a1[d1.ai] == a2[d1.ai]);
    let s1 = step_at(s, 0, a1, 0);
    let s2 = step_at(s, 0, a2, 0);
    assert(s1 == s2);
    assert(d1.ai <= a1.len());
    assert(s1.next <= s.len());
    assert(a1.skip(s1.ai) =~= a2.skip(s1.ai));
    lemma_first_step(s, a1, s.skip(s1.next), a1.skip(s1.ai));
    lemma_first_step(s, a2, s.skip(s1.next), a1.skip(s1.ai));
}

/// A star for which no argument is left counts as zero.
pub proof fn stars_without_arguments_count_as_zero(
    c: ConversionV,
    width: bool,
    precision: bool,
    b: Seq<char>,
    floats: Seq<Seq<char>>,
)
    requires
        c.is_valid(),
    ensures
        handed_over(starred(c, width, precision) + b, Seq::empty(), floats) == handed_over(
            with_counts(c, width, precision, 0, 0).text() + b,
            Seq::empty(),
            floats,
        ),
{
    let none = Seq::<ArgV>::empty();
    let head = starred(c, width, precision);
    let s = head + b;
    let r = with_counts(c, width, precision, 0, 0);
    lemma_with_counts(c, width, precision, 0, 0);
    lemma_starred_parts(c, width, precision, b);
    let d = directive_at(s, 1, none, 0);
    assert(bounded_count(0) == 0);
    assert(d.text.push(c.letter) =~= r.text());
    assert(none + none =~= none);
    lemma_same_rewritten(r, head, none, b, none);
}

} // verus!
