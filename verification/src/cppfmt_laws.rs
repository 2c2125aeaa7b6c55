//! Laws of the C++23 renderer: what a replacement field shows of its argument.

use crate::cppfmt::{
    abs_bits, after_text, behind, close_at, core_of, count_at, cpp_floats, cpp_result, cpp_text,
    default_spec, detector_agrees_with_parser, dynamic_count, escaped, field_at, field_text,
    fill_and_align, float_core, has_field, in_field, in_front, int_core, is_auto, is_explicit,
    is_mixed, lemma_close_at, lemma_field_at, literal, literals, lower_nan_from, needed_float,
    piece_floats, piece_need, piece_result, pieces_from, pieces_text, precision_at, resolved,
    sign_at, spec_of, type_at, upper_char, Align, CoreV, Count, Field, Piece, ResolvedV, Spec,
};
use crate::float::FloatFieldV;
use crate::printf::{
    conversions_start_with_a_percent_sign, format_floats, format_text, has_at, ArgV,
};
use crate::printf_laws::{all_digits, raw_bits};
use crate::text::{
    decimal, decimal_value, decimal_value_of_decimal, digits, digits_end, is_digit, repeated,
};
use crate::utf8::lossy_utf8;
use vstd::prelude::*;
use vstd::string::*;

verus! {

// ---- Scans behind a common start ----

proof fn lemma_skip_digits(s: Seq<char>, n: int, i: int)
    requires
        0 <= n <= s.len(),
        0 <= i <= s.len() - n,
    ensures
        digits_end(s, n + i) == n + digits_end(s.skip(n), i),
        0 <= i <= digits_end(s.skip(n), i) <= s.len() - n,
    decreases s.len() - n - i,
{
    if i < s.len() - n && is_digit(s[n + i]) {
        lemma_skip_digits(s, n, i + 1);
    }
}

proof fn lemma_skip_close(s: Seq<char>, n: int, i: int, depth: nat)
    requires
        0 <= n <= s.len(),
        0 <= i <= s.len() - n,
    ensures
        close_at(s, n + i, depth) == n + close_at(s.skip(n), i, depth),
    decreases s.len() - n - i,
{
    if i < s.len() - n {
        let c = s[n + i];
        if c == '{' {
            lemma_skip_close(s, n, i + 1, depth + 1);
        } else if c == '}' {
            if depth > 1 {
                lemma_skip_close(s, n, i + 1, (depth - 1) as nat);
            }
        } else {
            lemma_skip_close(s, n, i + 1, depth);
        }
    }
}

proof fn lemma_skip_field(s: Seq<char>, n: int, i: int)
    requires
        0 <= n <= s.len(),
        0 <= i <= s.len() - n,
    ensures
        match field_at(s.skip(n), i) {
            Ok((f, next)) => field_at(s, n + i) == Ok::<(Field, int), Seq<char>>((f, n + next)),
            Err(e) => field_at(s, n + i) == Err::<(Field, int), Seq<char>>(e),
        },
{
    let t = s.skip(n);
    lemma_skip_digits(s, n, i);
    let d = digits_end(t, i);
    assert(s.subrange(n + i, n + d) =~= t.subrange(i, d));
    if d < t.len() {
        lemma_skip_close(s, n, d + 1, 1);
        lemma_close_at(t, d + 1, 1);
        let c = close_at(t, d + 1, 1);
        assert(s.subrange(n + d + 1, n + c) =~= t.subrange(d + 1, c));
    }
}

proof fn lemma_skip_pieces(s: Seq<char>, n: int, i: int)
    requires
        0 <= n <= s.len(),
        0 <= i <= s.len() - n,
    ensures
        pieces_from(s, n + i) == pieces_from(s.skip(n), i),
    decreases s.len() - n - i,
{
    let t = s.skip(n);
    if i < t.len() {
        assert(has_at(s, n + i + 1, '{') == has_at(t, i + 1, '{'));
        assert(has_at(s, n + i + 1, '}') == has_at(t, i + 1, '}'));
        if t[i] == '{' && !has_at(t, i + 1, '{') {
            lemma_skip_field(s, n, i + 1);
            lemma_field_at(t, i + 1);
            lemma_field_at(s, n + i + 1);
            if let Ok((f, next)) = field_at(t, i + 1) {
                lemma_skip_pieces(s, n, next);
            }
        } else if (t[i] == '{' || t[i] == '}') && has_at(t, i + 1, t[i]) {
            lemma_skip_pieces(s, n, i + 2);
        } else if t[i] != '}' {
            lemma_skip_pieces(s, n, i + 1);
        }
    }
}

proof fn lemma_skip_pieces_text(
    pieces: Seq<Piece>,
    n: int,
    k: int,
    args: Seq<ArgV>,
    auto: nat,
    floats: Seq<Seq<char>>,
    fi: int,
)
    requires
        0 <= n <= pieces.len(),
        0 <= k,
    ensures
        pieces_text(pieces, n + k, args, auto, floats, fi) == pieces_text(
            pieces.skip(n),
            k,
            args,
            auto,
            floats,
            fi,
        ),
    decreases pieces.len() - n - k,
{
    if k < pieces.len() - n {
        let needs = piece_need(pieces[n + k], args, auto) is Some;
        let text = if needs {
            floats[fi]
        } else {
            Seq::empty()
        };
        let fi1 = if needs {
            fi + 1
        } else {
            fi
        };
        if let Ok((t, next)) = piece_result(pieces[n + k], args, auto, text) {
            lemma_skip_pieces_text(pieces, n, k + 1, args, next, floats, fi1);
        }
    }
}

/// Escaped text in front of a format string gives its characters in front of the pieces.
proof fn lemma_pieces_behind_text(a: Seq<char>, y: Seq<char>)
    ensures
        pieces_from(escaped(a) + y, 0) == behind(literals(a), pieces_from(y, 0)),
    decreases a.len(),
{
    let s = escaped(a) + y;
    if a.len() == 0 {
        assert(s =~= y);
        if let Ok(p) = pieces_from(y, 0) {
            assert(literals(a) + p =~= p);
        }
    } else {
        let rest = a.skip(1);
        let n = if a[0] == '{' || a[0] == '}' {
            2
        } else {
            1int
        };
        let e = escaped(a);
        assert(e[0] == a[0] && e.len() >= n);
        assert(n == 2 ==> e[1] == a[0]);
        assert(s[0] == a[0]);
        assert(n == 2 ==> s[1] == a[0]);
        assert(e.skip(n) =~= escaped(rest));
        assert(s.skip(n) =~= escaped(rest) + y);
        lemma_skip_pieces(s, n, 0);
        lemma_pieces_behind_text(rest, y);
        assert(pieces_from(s, 0) == in_front(literal(a[0]), pieces_from(s, n)));
        if let Ok(p) = pieces_from(y, 0) {
            assert(seq![literal(a[0])] + (literals(rest) + p) =~= literals(a) + p);
        }
    }
}

proof fn lemma_text_of_literals(
    a: Seq<char>,
    rest: Seq<Piece>,
    args: Seq<ArgV>,
    auto: nat,
    floats: Seq<Seq<char>>,
    fi: int,
)
    ensures
        pieces_text(literals(a) + rest, 0, args, auto, floats, fi) == after_text(
            a,
            pieces_text(rest, 0, args, auto, floats, fi),
        ),
    decreases a.len(),
{
    let p = literals(a) + rest;
    if a.len() == 0 {
        assert(p =~= rest);
        if let Ok(t) = pieces_text(rest, 0, args, auto, floats, fi) {
            assert(a + t =~= t);
        }
    } else {
        assert(p[0] == literal(a[0]));
        lemma_skip_pieces_text(p, 1, 0, args, auto, floats, fi);
        assert(p.skip(1) =~= literals(a.skip(1)) + rest);
        lemma_text_of_literals(a.skip(1), rest, args, auto, floats, fi);
        if let Ok(t) = pieces_text(rest, 0, args, auto, floats, fi) {
            assert(seq![a[0]] + (a.skip(1) + t) =~= a + t);
        }
    }
}

proof fn lemma_floats_of_literals(a: Seq<char>, rest: Seq<Piece>, args: Seq<ArgV>, auto: nat)
    ensures
        piece_floats(literals(a) + rest, a.len() as int, args, auto) == piece_floats(
            rest,
            0,
            args,
            auto,
        ),
        piece_floats(literals(a) + rest, 0, args, auto) == piece_floats(rest, 0, args, auto),
{
    lemma_skip_piece_floats(literals(a) + rest, a.len() as int, 0, args, auto);
    assert((literals(a) + rest).skip(a.len() as int) =~= rest);
    lemma_no_floats(a, rest, 0, args, auto);
}

proof fn lemma_no_floats(a: Seq<char>, rest: Seq<Piece>, k: int, args: Seq<ArgV>, auto: nat)
    requires
        0 <= k <= a.len(),
    ensures
        piece_floats(literals(a) + rest, k, args, auto) == piece_floats(
            literals(a) + rest,
            a.len() as int,
            args,
            auto,
        ),
    decreases a.len() - k,
{
    if k < a.len() {
        assert((literals(a) + rest)[k] == literal(a[k]));
        lemma_no_floats(a, rest, k + 1, args, auto);
    }
}

proof fn lemma_skip_piece_floats(pieces: Seq<Piece>, n: int, k: int, args: Seq<ArgV>, auto: nat)
    requires
        0 <= n <= pieces.len(),
        0 <= k,
    ensures
        piece_floats(pieces, n + k, args, auto) == piece_floats(pieces.skip(n), k, args, auto),
    decreases pieces.len() - n - k,
{
    if k < pieces.len() - n {
        if let Ok((t, next)) = piece_result(pieces[n + k], args, auto, Seq::empty()) {
            lemma_skip_piece_floats(pieces, n, k + 1, args, next);
        }
    }
}

// ---- Fields ----

/// A width or a precision as it is written: digits, or a nested field with the digits of
/// an index.
pub enum CountTextV {
    Absent,
    Digits(Seq<char>),
    Nested(Seq<char>),
}

impl CountTextV {
    pub open spec fn text(self) -> Seq<char> {
        match self {
            CountTextV::Absent => Seq::empty(),
            CountTextV::Digits(d) => d,
            CountTextV::Nested(d) => seq!['{'] + d + seq!['}'],
        }
    }

    /// True if the digits are digits, at least one where they stand for a count, of a
    /// number that a machine word holds.
    pub open spec fn is_valid(self) -> bool {
        match self {
            CountTextV::Absent => true,
            CountTextV::Digits(d) => d.len() > 0 && all_digits(d) && decimal_value(d) <= usize::MAX,
            CountTextV::Nested(d) => all_digits(d) && decimal_value(d) <= usize::MAX,
        }
    }

    /// What it stands for.
    pub open spec fn count(self) -> Count {
        match self {
            CountTextV::Absent => Count::Absent,
            CountTextV::Digits(d) => Count::Literal(decimal_value(d) as usize),
            CountTextV::Nested(d) => if d.len() == 0 {
                Count::Auto
            } else {
                Count::Explicit(decimal_value(d) as usize)
            },
        }
    }
}

/// A format specification by its parts.
pub struct SpecTextV {
    pub fill: Option<char>,
    pub align: Option<char>,
    pub sign: Option<char>,
    pub alt: bool,
    pub zero: bool,
    pub width: CountTextV,
    pub precision: CountTextV,
    pub letter: Option<char>,
}

/// One character, or none.
pub open spec fn optional(c: Option<char>) -> Seq<char> {
    match c {
        Some(x) => seq![x],
        None => Seq::empty(),
    }
}

/// A flag that is there, or not.
pub open spec fn flagged(on: bool, c: char) -> Seq<char> {
    if on {
        seq![c]
    } else {
        Seq::empty()
    }
}

/// The types of C++ that have a meaning.
pub open spec fn is_type_letter(c: char) -> bool {
    ||| c == 'b' || c == 'B' || c == 'c' || c == 'd' || c == 'o' || c == 'p' || c == 's'
    ||| c == 'x' || c == 'X'
    ||| is_float_letter(c)
}

/// The types of C++ for floating-point values.
pub open spec fn is_float_letter(c: char) -> bool {
    c == 'e' || c == 'E' || c == 'f' || c == 'F' || c == 'g' || c == 'G'
}

/// True for the three alignments.
pub open spec fn is_align_char(c: char) -> bool {
    c == '<' || c == '>' || c == '^'
}

impl SpecTextV {
    /// The point and the precision.
    pub open spec fn fraction(self) -> Seq<char> {
        if self.precision is Absent {
            Seq::empty()
        } else {
            seq!['.'] + self.precision.text()
        }
    }

    /// The specification as it is written.
    pub open spec fn text(self) -> Seq<char> {
        optional(self.fill) + optional(self.align) + optional(self.sign) + flagged(self.alt, '#')
            + flagged(self.zero, '0') + self.width.text() + self.fraction() + optional(self.letter)
    }

    /// True for a specification of C++: a fill only in front of an alignment, and no zero
    /// in front of the width but for the flag.
    pub open spec fn is_valid(self) -> bool {
        &&& self.align matches Some(c) ==> is_align_char(c)
        &&& self.fill matches Some(c) ==> self.align is Some && !is_align_char(c) && c != '{' && c
            != '}'
        &&& self.sign matches Some(c) ==> c == '+' || c == '-' || c == ' '
        &&& self.width.is_valid()
        &&& self.width matches CountTextV::Digits(d) ==> d[0] != '0'
        &&& self.precision.is_valid()
        &&& self.letter matches Some(c) ==> is_type_letter(c)
    }

    /// What the parser makes of it.
    spec fn spec(self) -> Spec {
        Spec {
            fill: self.fill,
            align: match self.align {
                Some('<') => Some(Align::Left),
                Some('>') => Some(Align::Right),
                Some(_) => Some(Align::Center),
                None => None,
            },
            sign: self.sign,
            alt: self.alt,
            zero: self.zero,
            width: self.width.count(),
            precision: self.precision.count(),
            type_char: self.letter,
        }
    }
}

proof fn lemma_digits_run(s: Seq<char>, i: int, j: int)
    requires
        0 <= i <= j <= s.len(),
        forall|k: int| i <= k < j ==> is_digit(#[trigger] s[k]),
        j < s.len() ==> !is_digit(s[j]),
    ensures
        digits_end(s, i) == j,
    decreases j - i,
{
    if i < j {
        assert(is_digit(s[i]));
        lemma_digits_run(s, i + 1, j);
    }
}

/// A count in the middle of a text.
proof fn lemma_count_at(c: CountTextV, a: Seq<char>, b: Seq<char>)
    requires
        c.is_valid(),
        b.len() > 0 && c !is Nested ==> !is_digit(b[0]),
        b.len() > 0 && c is Absent ==> b[0] != '{',
    ensures
        count_at(a + c.text() + b, a.len() as int) == Ok::<(Count, int), Seq<char>>(
            (c.count(), (a + c.text()).len() as int),
        ),
{
    let s = a + c.text() + b;
    let i = a.len() as int;
    let e = (a + c.text()).len() as int;
    assert(forall|k: int| 0 <= k < c.text().len() ==> #[trigger] s[i + k] == c.text()[k]);
    assert(b.len() > 0 ==> s[e] == b[0]);
    match c {
        CountTextV::Absent => {
            lemma_digits_run(s, i, i);
        },
        CountTextV::Digits(d) => {
            assert(s[i + 0] == d[0]);
            assert forall|k: int| i <= k < e implies is_digit(#[trigger] s[k]) by {
                assert(s[i + (k - i)] == d[k - i]);
            }
            lemma_digits_run(s, i, e);
            assert(s.subrange(i, e) =~= d);
        },
        CountTextV::Nested(d) => {
            assert(s[i + 0] == '{');
            assert(c.text()[c.text().len() - 1] == '}');
            assert(s[i + (c.text().len() - 1)] == '}');
            assert forall|k: int| i + 1 <= k < e - 1 implies is_digit(#[trigger] s[k]) by {
                assert(s[i + (k - i)] == c.text()[k - i]);
                assert(c.text()[k - i] == d[k - i - 1]);
            }
            lemma_digits_run(s, i + 1, e - 1);
            assert(s.subrange(i + 1, e - 1) =~= d);
        },
    }
}

/// No character of a text satisfies what none of its parts does.
proof fn lemma_no_align_in_sum(a: Seq<char>, b: Seq<char>)
    requires
        forall|k: int| 0 <= k < a.len() ==> !is_align_char(#[trigger] a[k]),
        forall|k: int| 0 <= k < b.len() ==> !is_align_char(#[trigger] b[k]),
    ensures
        forall|k: int| 0 <= k < (a + b).len() ==> !is_align_char(#[trigger] (a + b)[k]),
{
    assert forall|k: int| 0 <= k < (a + b).len() implies !is_align_char(#[trigger] (a + b)[k]) by {
        if k >= a.len() {
            assert((a + b)[k] == b[k - a.len()]);
        }
    }
}

proof fn lemma_no_align_in_count(c: CountTextV)
    requires
        c.is_valid(),
    ensures
        forall|k: int| 0 <= k < c.text().len() ==> !is_align_char(#[trigger] c.text()[k]),
{
    match c {
        CountTextV::Absent => {},
        CountTextV::Digits(d) => {
            assert forall|k: int| 0 <= k < d.len() implies !is_align_char(#[trigger] d[k]) by {
                assert('0' <= d[k] <= '9');
            }
        },
        CountTextV::Nested(d) => {
            let t = c.text();
            assert forall|k: int| 0 <= k < t.len() implies !is_align_char(#[trigger] t[k]) by {
                if 0 < k < t.len() - 1 {
                    assert(t[k] == d[k - 1]);
                    assert('0' <= d[k - 1] <= '9');
                }
            }
        },
    }
}

impl SpecTextV {
    spec fn from_letter(self) -> Seq<char> {
        optional(self.letter)
    }

    spec fn from_precision(self) -> Seq<char> {
        self.fraction() + self.from_letter()
    }

    spec fn from_width(self) -> Seq<char> {
        self.width.text() + self.from_precision()
    }

    spec fn from_zero(self) -> Seq<char> {
        flagged(self.zero, '0') + self.from_width()
    }

    spec fn from_alt(self) -> Seq<char> {
        flagged(self.alt, '#') + self.from_zero()
    }

    spec fn from_sign(self) -> Seq<char> {
        optional(self.sign) + self.from_alt()
    }

    spec fn front(self) -> Seq<char> {
        optional(self.fill) + optional(self.align)
    }
}

proof fn lemma_no_align(x: SpecTextV)
    requires
        x.is_valid(),
    ensures
        forall|k: int| 0 <= k < x.from_sign().len() ==> !is_align_char(#[trigger] x.from_sign()[k]),
{
    lemma_no_align_in_count(x.width);
    lemma_no_align_in_count(x.precision);
    let frac = x.fraction();
    assert forall|k: int| 0 <= k < frac.len() implies !is_align_char(#[trigger] frac[k]) by {
        if k > 0 {
            assert(frac[k] == x.precision.text()[k - 1]);
        }
    }
    lemma_no_align_in_sum(frac, x.from_letter());
    lemma_no_align_in_sum(x.width.text(), x.from_precision());
    lemma_no_align_in_sum(flagged(x.zero, '0'), x.from_width());
    lemma_no_align_in_sum(flagged(x.alt, '#'), x.from_zero());
    lemma_no_align_in_sum(optional(x.sign), x.from_alt());
}

/// What the parts of a specification start with.
proof fn lemma_heads(x: SpecTextV)
    requires
        x.is_valid(),
    ensures
        ({
            let p = x.from_precision();
            &&& p.len() > 0 ==> !is_digit(p[0]) && p[0] != '{'
            &&& has_at(p, 0, '.') == (x.precision !is Absent)
        }),
        has_at(x.from_zero(), 0, '0') == x.zero,
        has_at(x.from_alt(), 0, '#') == x.alt,
        sign_at(x.from_sign(), 0) == x.sign,
{
    let l = x.from_letter();
    let p = x.from_precision();
    assert(x.precision is Absent ==> p =~= l);
    assert(x.precision !is Absent ==> p[0] == '.');
    assert(l.len() > 0 ==> is_type_letter(l[0]));
    let w = x.from_width();
    let wt = x.width.text();
    assert(wt.len() > 0 ==> w[0] == wt[0]);
    assert(wt.len() == 0 ==> w =~= p);
    if let CountTextV::Digits(d) = x.width {
        assert(wt[0] == d[0] && '0' <= d[0] <= '9');
    }
    assert(w.len() > 0 ==> w[0] != '0' && w[0] != '#' && w[0] != '+' && w[0] != '-' && w[0] != ' ');
    let z = x.from_zero();
    assert(!x.zero ==> z =~= w);
    assert(x.zero ==> z[0] == '0');
    assert(z.len() > 0 ==> z[0] != '#' && z[0] != '+' && z[0] != '-' && z[0] != ' ');
    let h = x.from_alt();
    assert(!x.alt ==> h =~= z);
    assert(x.alt ==> h[0] == '#');
    assert(h.len() > 0 ==> h[0] != '+' && h[0] != '-' && h[0] != ' ');
    let g = x.from_sign();
    assert(x.sign is None ==> g =~= h);
    assert(x.sign is Some ==> g[0] == x.sign->0);
}

proof fn lemma_assoc(a: Seq<char>, b: Seq<char>, c: Seq<char>)
    ensures
        (a + b) + c == a + (b + c),
{
    assert((a + b) + c =~= a + (b + c));
}

/// A specification is what stands in front of each part and what starts with it.
proof fn lemma_split(x: SpecTextV)
    ensures
        ({
            let a0 = x.front();
            let a1 = a0 + optional(x.sign);
            let a2 = a1 + flagged(x.alt, '#');
            let a3 = a2 + flagged(x.zero, '0');
            let a4 = a3 + x.width.text();
            let a5 = a4 + x.fraction();
            &&& x.text() == a0 + x.from_sign()
            &&& x.text() == a1 + x.from_alt()
            &&& x.text() == a2 + x.from_zero()
            &&& x.text() == a3 + x.from_width()
            &&& x.text() == a3 + x.width.text() + x.from_precision()
            &&& x.text() == a4 + x.from_precision()
            &&& x.text() == a5 + x.from_letter()
        }),
{
    let a0 = x.front();
    let a1 = a0 + optional(x.sign);
    let a2 = a1 + flagged(x.alt, '#');
    let a3 = a2 + flagged(x.zero, '0');
    let a4 = a3 + x.width.text();
    lemma_assoc(a4, x.fraction(), x.from_letter());
    lemma_assoc(a3, x.width.text(), x.from_precision());
    lemma_assoc(a2, flagged(x.zero, '0'), x.from_width());
    lemma_assoc(a1, flagged(x.alt, '#'), x.from_zero());
    lemma_assoc(a0, optional(x.sign), x.from_alt());
}

proof fn lemma_fill_and_align(x: SpecTextV)
    requires
        x.is_valid(),
    ensures
        fill_and_align(x.text()) == Ok::<(Option<char>, Option<Align>, int), Seq<char>>(
            (x.fill, x.spec().align, x.front().len() as int),
        ),
{
    let t = x.text();
    let fa = x.front();
    let g = x.from_sign();
    lemma_split(x);
    lemma_no_align(x);
    if fa.len() == 0 {
        assert(fa + g =~= g);
    } else {
        assert(t[0] == fa[0]);
        assert(fa.len() > 1 ==> t[1] == fa[1]);
        if x.fill is Some {
            assert(fa[0] == x.fill->0 && fa[1] == x.align->0);
        } else {
            assert(fa[0] == x.align->0);
        }
    }
}

/// What stands at a position behind a front part.
proof fn lemma_behind(a: Seq<char>, b: Seq<char>)
    ensures
        forall|c: char| has_at(a + b, a.len() as int, c) == #[trigger] has_at(b, 0, c),
        sign_at(a + b, a.len() as int) == sign_at(b, 0),
{
    assert(b.len() > 0 ==> (a + b)[a.len() as int] == b[0]);
    assert(has_at(a + b, a.len() as int, '+') == has_at(b, 0, '+'));
    assert(has_at(a + b, a.len() as int, '-') == has_at(b, 0, '-'));
    assert(has_at(a + b, a.len() as int, ' ') == has_at(b, 0, ' '));
}

proof fn lemma_spec_from_parts(t: Seq<char>, spec: Spec, i0: int, i4: int, i5: int)
    requires
        fill_and_align(t) == Ok::<(Option<char>, Option<Align>, int), Seq<char>>(
            (spec.fill, spec.align, i0),
        ),
        ({
            let i1 = if spec.sign is Some {
                i0 + 1
            } else {
                i0
            };
            let i2 = if spec.alt {
                i1 + 1
            } else {
                i1
            };
            let i3 = if spec.zero {
                i2 + 1
            } else {
                i2
            };
            &&& sign_at(t, i0) == spec.sign
            &&& has_at(t, i1, '#') == spec.alt
            &&& has_at(t, i2, '0') == spec.zero
            &&& count_at(t, i3) == Ok::<(Count, int), Seq<char>>((spec.width, i4))
        }),
        precision_at(t, i4) == Ok::<(Count, int), Seq<char>>((spec.precision, i5)),
        type_at(t, i5) == Ok::<Option<char>, Seq<char>>(spec.type_char),
    ensures
        spec_of(t) == Ok::<Spec, Seq<char>>(spec),
{
}

/// Where the flags of a specification stand.
#[verifier::rlimit(30)]
proof fn lemma_flags_of(x: SpecTextV)
    requires
        x.is_valid(),
    ensures
        ({
            let i0 = x.front().len() as int;
            let i1 = i0 + optional(x.sign).len();
            let i2 = i1 + flagged(x.alt, '#').len();
            &&& sign_at(x.text(), i0) == x.sign
            &&& has_at(x.text(), i1, '#') == x.alt
            &&& has_at(x.text(), i2, '0') == x.zero
        }),
{
    let a0 = x.front();
    let a1 = a0 + optional(x.sign);
    let a2 = a1 + flagged(x.alt, '#');
    lemma_split(x);
    lemma_heads(x);
    lemma_behind(a0, x.from_sign());
    lemma_behind(a1, x.from_alt());
    lemma_behind(a2, x.from_zero());
    assert(has_at(x.from_alt(), 0, '#') == has_at(x.text(), a1.len() as int, '#'));
    assert(has_at(x.from_zero(), 0, '0') == has_at(x.text(), a2.len() as int, '0'));
}

/// Where the counts and the type of a specification stand.
#[verifier::rlimit(30)]
proof fn lemma_counts_of(x: SpecTextV)
    requires
        x.is_valid(),
    ensures
        ({
            let i3 = x.front().len() + optional(x.sign).len() + flagged(x.alt, '#').len()
                + flagged(x.zero, '0').len();
            let i4 = i3 + x.width.text().len();
            let i5 = i4 + x.fraction().len();
            &&& count_at(x.text(), i3 as int) == Ok::<(Count, int), Seq<char>>(
                (x.width.count(), i4 as int),
            )
            &&& precision_at(x.text(), i4 as int) == Ok::<(Count, int), Seq<char>>(
                (x.precision.count(), i5 as int),
            )
            &&& type_at(x.text(), i5 as int) == Ok::<Option<char>, Seq<char>>(x.letter)
        }),
{
    let a3 = x.front() + optional(x.sign) + flagged(x.alt, '#') + flagged(x.zero, '0');
    let a4 = a3 + x.width.text();
    lemma_split(x);
    lemma_heads(x);
    lemma_count_at(x.width, a3, x.from_precision());
    lemma_precision_of(x, a4);
    lemma_type_of(x, a4 + x.fraction());
}

/// A valid specification is parsed to its parts.
#[verifier::rlimit(30)]
proof fn lemma_spec_of(x: SpecTextV)
    requires
        x.is_valid(),
    ensures
        spec_of(x.text()) == Ok::<Spec, Seq<char>>(x.spec()),
{
    lemma_fill_and_align(x);
    lemma_flags_of(x);
    lemma_counts_of(x);
    let i0 = x.front().len() as int;
    let i3 = i0 + optional(x.sign).len() + flagged(x.alt, '#').len() + flagged(x.zero, '0').len();
    let i4 = i3 + x.width.text().len();
    lemma_spec_from_parts(x.text(), x.spec(), i0, i4, i4 + x.fraction().len());
}

proof fn lemma_type_of(x: SpecTextV, a: Seq<char>)
    requires
        x.is_valid(),
    ensures
        type_at(a + x.from_letter(), a.len() as int) == Ok::<Option<char>, Seq<char>>(x.letter),
{
    let t = a + x.from_letter();
    assert(t.skip(a.len() as int) =~= x.from_letter());
}

proof fn lemma_precision_of(x: SpecTextV, a: Seq<char>)
    requires
        x.is_valid(),
    ensures
        precision_at(a + x.from_precision(), a.len() as int) == Ok::<(Count, int), Seq<char>>(
            (x.precision.count(), (a + x.fraction()).len() as int),
        ),
{
    let t = a + x.from_precision();
    lemma_heads(x);
    lemma_behind(a, x.from_precision());
    assert(has_at(t, a.len() as int, '.') == has_at(x.from_precision(), 0, '.'));
    if x.precision !is Absent {
        let b = a.push('.');
        let pt = x.precision.text();
        assert(t =~= b + pt + x.from_letter());
        let l = x.from_letter();
        assert(l.len() > 0 ==> is_type_letter(l[0]));
        lemma_count_at(x.precision, b, l);
        assert((b + pt).len() == (a + x.fraction()).len());
    }
}

/// A replacement field by its parts: the digits of an index, if any, and a specification,
/// if any.
pub struct FieldTextV {
    pub id: Seq<char>,
    pub spec: Option<SpecTextV>,
}

impl FieldTextV {
    /// The colon and the specification.
    pub open spec fn tail(self) -> Seq<char> {
        match self.spec {
            Some(x) => seq![':'] + x.text(),
            None => Seq::empty(),
        }
    }

    /// The field as it is written.
    pub open spec fn text(self) -> Seq<char> {
        seq!['{'] + self.id + self.tail() + seq!['}']
    }

    pub open spec fn is_valid(self) -> bool {
        &&& all_digits(self.id)
        &&& decimal_value(self.id) <= usize::MAX
        &&& self.spec matches Some(x) ==> x.is_valid()
    }

    spec fn field(self) -> Field {
        Field {
            arg_id: if self.id.len() == 0 {
                None
            } else {
                Some(decimal_value(self.id) as usize)
            },
            spec: match self.spec {
                Some(x) => x.spec(),
                None => default_spec(),
            },
        }
    }
}

proof fn lemma_close_plain(s: Seq<char>, i: int, j: int, depth: nat)
    requires
        0 <= i <= j <= s.len(),
        forall|k: int| i <= k < j ==> #[trigger] s[k] != '{' && s[k] != '}',
    ensures
        close_at(s, i, depth) == close_at(s, j, depth),
    decreases j - i,
{
    if i < j {
        assert(s[i] != '{');
        lemma_close_plain(s, i + 1, j, depth);
    }
}

proof fn lemma_close_count(s: Seq<char>, i: int, c: CountTextV)
    requires
        c.is_valid(),
        0 <= i,
        i + c.text().len() <= s.len(),
        s.subrange(i, i + c.text().len()) == c.text(),
    ensures
        close_at(s, i, 1) == close_at(s, i + c.text().len(), 1),
{
    let t = c.text();
    let e = i + t.len();
    assert(forall|k: int| 0 <= k < t.len() ==> s[i + k] == #[trigger] s.subrange(i, e)[k]);
    match c {
        CountTextV::Absent => {},
        CountTextV::Digits(d) => {
            assert forall|k: int| i <= k < e implies #[trigger] s[k] != '{' && s[k] != '}' by {
                assert(s[i + (k - i)] == s.subrange(i, e)[k - i]);
                assert('0' <= d[k - i] <= '9');
            }
            lemma_close_plain(s, i, e, 1);
        },
        CountTextV::Nested(d) => {
            assert(s[i] == s.subrange(i, e)[0]);
            assert(s[e - 1] == s.subrange(i, e)[t.len() - 1]);
            assert forall|k: int| i + 1 <= k < e - 1 implies #[trigger] s[k] != '{' && s[k]
                != '}' by {
                assert(s[i + (k - i)] == s.subrange(i, e)[k - i]);
                assert(t[k - i] == d[k - i - 1]);
                assert('0' <= d[k - i - 1] <= '9');
            }
            lemma_close_plain(s, i + 1, e - 1, 2);
        },
    }
}

/// A text that stands at a position stands there part by part.
proof fn lemma_part_at(s: Seq<char>, i: int, a: Seq<char>, b: Seq<char>)
    requires
        0 <= i,
        i + (a + b).len() <= s.len(),
        s.subrange(i, i + (a + b).len()) == a + b,
    ensures
        s.subrange(i, i + a.len()) == a,
        s.subrange(i + a.len(), i + a.len() + b.len()) == b,
{
    let u = s.subrange(i, i + (a + b).len());
    assert(u.subrange(0, a.len() as int) =~= a);
    assert(u.subrange(a.len() as int, (a + b).len() as int) =~= b);
    assert(s.subrange(i, i + a.len()) =~= u.subrange(0, a.len() as int));
    assert(s.subrange(i + a.len(), i + a.len() + b.len()) =~= u.subrange(
        a.len() as int,
        (a + b).len() as int,
    ));
}

/// Text without braces, seen in its place.
proof fn lemma_close_text(s: Seq<char>, i: int, t: Seq<char>)
    requires
        0 <= i,
        i + t.len() <= s.len(),
        s.subrange(i, i + t.len()) == t,
        forall|k: int| 0 <= k < t.len() ==> #[trigger] t[k] != '{' && t[k] != '}',
    ensures
        close_at(s, i, 1) == close_at(s, i + t.len(), 1),
{
    let e = i + t.len();
    assert forall|k: int| i <= k < e implies #[trigger] s[k] != '{' && s[k] != '}' by {
        assert(s.subrange(i, e)[k - i] == s[k]);
        assert(t[k - i] != '{');
    }
    lemma_close_plain(s, i, e, 1);
}

/// The `}` behind a specification closes its field.
#[verifier::rlimit(30)]
proof fn lemma_close_spec(s: Seq<char>, i: int, x: SpecTextV)
    requires
        x.is_valid(),
        0 <= i,
        i + x.text().len() < s.len(),
        s.subrange(i, i + x.text().len()) == x.text(),
        s[i + x.text().len()] == '}',
    ensures
        close_at(s, i, 1) == i + x.text().len(),
{
    let a0 = x.front();
    let a1 = a0 + optional(x.sign);
    let a2 = a1 + flagged(x.alt, '#');
    let a3 = a2 + flagged(x.zero, '0');
    lemma_split(x);
    lemma_part_at(s, i, a3, x.from_width());
    assert forall|k: int| 0 <= k < a0.len() implies #[trigger] a0[k] != '{' && a0[k] != '}' by {}
    assert forall|k: int| 0 <= k < a1.len() implies #[trigger] a1[k] != '{' && a1[k] != '}' by {
        if k < a0.len() {
            assert(a1[k] == a0[k]);
        }
    }
    assert forall|k: int| 0 <= k < a2.len() implies #[trigger] a2[k] != '{' && a2[k] != '}' by {
        if k < a1.len() {
            assert(a2[k] == a1[k]);
        }
    }
    assert forall|k: int| 0 <= k < a3.len() implies #[trigger] a3[k] != '{' && a3[k] != '}' by {
        if k < a2.len() {
            assert(a3[k] == a2[k]);
        }
    }
    lemma_close_text(s, i, a3);
    let i3 = i + a3.len();
    lemma_part_at(s, i3, x.width.text(), x.from_precision());
    lemma_close_count(s, i3, x.width);
    let i4 = i3 + x.width.text().len();
    lemma_part_at(s, i4, x.fraction(), x.from_letter());
    let i5 = i4 + x.fraction().len();
    if x.precision !is Absent {
        lemma_part_at(s, i4, seq!['.'], x.precision.text());
        lemma_close_text(s, i4, seq!['.']);
        lemma_close_count(s, i4 + 1, x.precision);
    }
    lemma_close_text(s, i5, x.from_letter());
    assert(i5 + x.from_letter().len() == i + x.text().len());
}

/// A field at the start of a format string is the first piece.
#[verifier::rlimit(30)]
proof fn lemma_field_first(x: FieldTextV, b: Seq<char>)
    requires
        x.is_valid(),
    ensures
        pieces_from(x.text() + b, 0) == in_front(Piece::Field(x.field()), pieces_from(b, 0)),
{
    let s = x.text() + b;
    let d = 1int + x.id.len();
    let tail = x.tail();
    let n = x.text().len() as int;
    assert(s[0] == '{');
    assert(forall|k: int| 0 <= k < x.id.len() ==> #[trigger] s[1 + k] == x.id[k]);
    assert(forall|k: int| 0 <= k < tail.len() ==> #[trigger] s[d + k] == tail[k]);
    assert(s[n - 1] == '}');
    assert forall|k: int| 1 <= k < d implies is_digit(#[trigger] s[k]) by {
        assert(s[1 + (k - 1)] == x.id[k - 1]);
    }
    assert(x.spec is Some ==> s[d + 0] == ':');
    assert(x.spec is None ==> s[d] == '}');
    lemma_digits_run(s, 1, d);
    assert(s.subrange(1, d) =~= x.id);
    assert(!has_at(s, 1, '{'));
    if let Some(spec) = x.spec {
        let u = spec.text();
        assert(s.subrange(d + 1, d + 1 + u.len()) =~= u);
        lemma_close_spec(s, d + 1, spec);
        lemma_spec_of(spec);
    }
    assert(field_at(s, 1) == Ok::<(Field, int), Seq<char>>((x.field(), n)));
    lemma_skip_pieces(s, n, 0);
    assert(s.skip(n) =~= b);
}

// ---- One field between texts ----

/// A format string that shows one field between two texts, whose braces are doubled.
pub open spec fn around(a: Seq<char>, x: FieldTextV, b: Seq<char>) -> Seq<char> {
    escaped(a) + x.text() + escaped(b)
}

#[verifier::rlimit(30)]
proof fn lemma_one_field(
    a: Seq<char>,
    x: FieldTextV,
    b: Seq<char>,
    args: Seq<ArgV>,
    floats: Seq<Seq<char>>,
)
    requires
        x.is_valid(),
        !(is_auto(x.field()) && is_explicit(x.field())),
    ensures
        ({
            let piece = Piece::Field(x.field());
            let need = piece_need(piece, args, 0);
            let text = if need is Some {
                floats[0]
            } else {
                Seq::empty()
            };
            &&& cpp_result(around(a, x, b), args, floats) == match piece_result(
                piece,
                args,
                0,
                text,
            ) {
                Ok((t, _)) => Ok::<Seq<char>, Seq<char>>(a + t + b),
                Err(e) => Err(e),
            }
            &&& cpp_floats(around(a, x, b), args) == match need {
                Some(n) => seq![n],
                None => Seq::empty(),
            }
        }),
{
    let fmt = around(a, x, b);
    let piece = Piece::Field(x.field());
    let none = Seq::<Piece>::empty();
    let empty = Seq::<char>::empty();
    assert(fmt =~= escaped(a) + (x.text() + escaped(b)));
    lemma_pieces_behind_text(a, x.text() + escaped(b));
    lemma_field_first(x, escaped(b));
    lemma_pieces_behind_text(b, empty);
    assert(escaped(b) + empty =~= escaped(b));
    assert(pieces_from(empty, 0) == Ok::<Seq<Piece>, Seq<char>>(none));
    assert(literals(b) + none =~= literals(b));
    let rest = seq![piece] + literals(b);
    let pieces = literals(a) + rest;
    assert(pieces_from(fmt, 0) == Ok::<Seq<Piece>, Seq<char>>(pieces));
    assert forall|k: int| 0 <= k < pieces.len() && #[trigger] pieces[k] is Field implies pieces[k]
        == piece by {
        if k < a.len() {
            assert(pieces[k] == literal(a[k]));
        } else if k > a.len() {
            assert(pieces[k] == literal(b[k - a.len() - 1]));
        }
    }
    assert(!is_mixed(pieces));
    lemma_text_of_literals(a, rest, args, 0, floats, 0);
    lemma_floats_of_literals(a, rest, args, 0);
    assert(rest[0] == piece);
    assert(rest.skip(1) =~= literals(b));
    let need = piece_need(piece, args, 0);
    let fi = if need is Some {
        1int
    } else {
        0
    };
    let text = if need is Some {
        floats[0]
    } else {
        empty
    };
    if let Ok((t, next)) = piece_result(piece, args, 0, text) {
        lemma_skip_pieces_text(rest, 1, 0, args, next, floats, fi);
        lemma_text_of_literals(b, none, args, next, floats, fi);
        assert(b + empty =~= b);
        assert(a + (t + b) =~= a + t + b);
    }
    if let Ok((t, next)) = piece_result(piece, args, 0, empty) {
        lemma_skip_piece_floats(rest, 1, 0, args, next);
        lemma_floats_of_literals(b, none, args, next);
        assert(piece_floats(none, 0, args, next) =~= Seq::empty());
    }
    if need is Some {
        assert(seq![need->0] + Seq::<FloatFieldV>::empty() =~= seq![need->0]);
    }
}

// ---- Laws ----

/// `content` in a field of `width` columns: behind, in front of or between copies of
/// `fill`, as `side` says.
pub open spec fn aligned(content: Seq<char>, width: nat, fill: char, side: char) -> Seq<char> {
    if width <= content.len() {
        content
    } else {
        let n = (width - content.len()) as nat;
        if side == '<' {
            content + repeated(fill, n)
        } else if side == '>' {
            repeated(fill, n) + content
        } else {
            repeated(fill, n / 2) + content + repeated(fill, (n - n / 2) as nat)
        }
    }
}

/// The specification of a field without one.
pub open spec fn no_spec() -> SpecTextV {
    SpecTextV {
        fill: None,
        align: None,
        sign: None,
        alt: false,
        zero: false,
        width: CountTextV::Absent,
        precision: CountTextV::Absent,
        letter: None,
    }
}

impl FieldTextV {
    /// What the field says of the form of its argument.
    pub open spec fn form(self) -> SpecTextV {
        match self.spec {
            Some(x) => x,
            None => no_spec(),
        }
    }

    /// The index of the argument: the one that is written, else the first one.
    pub open spec fn index(self) -> nat {
        if self.id.len() == 0 {
            0
        } else {
            decimal_value(self.id)
        }
    }

    /// True if width and precision are written as digits or not at all.
    pub open spec fn is_plain(self) -> bool {
        self.form().width !is Nested && self.form().precision !is Nested
    }
}

impl SpecTextV {
    /// The width, 0 where none is written.
    pub open spec fn columns(self) -> nat {
        match self.width {
            CountTextV::Digits(d) => decimal_value(d),
            _ => 0,
        }
    }

    /// The precision, where one is written.
    pub open spec fn places(self) -> Option<nat> {
        match self.precision {
            CountTextV::Digits(d) => Some(decimal_value(d)),
            _ => None,
        }
    }

    /// The fill character, a blank where none is written.
    pub open spec fn padding(self) -> char {
        match self.fill {
            Some(c) => c,
            None => ' ',
        }
    }

    /// The alignment, or `side` where none is written.
    pub open spec fn side(self, side: char) -> char {
        match self.align {
            Some(c) => c,
            None => side,
        }
    }
}

/// What resolving a field without nested fields gives.
proof fn lemma_plain_field(x: FieldTextV, args: Seq<ArgV>)
    requires
        x.is_valid(),
        x.is_plain(),
        x.index() < args.len(),
    ensures
        x.field().spec == x.form().spec(),
        !(is_auto(x.field()) && is_explicit(x.field())),
        resolved(x.field(), args, 0) matches Ok(r) && {
            &&& r.value == x.index()
            &&& r.width == match x.form().width {
                CountTextV::Digits(d) => Some(decimal_value(d) as usize),
                _ => None,
            }
            &&& r.precision == match x.form().precision {
                CountTextV::Digits(d) => Some(decimal_value(d) as usize),
                _ => None,
            }
        },
{
}

/// A string shows as its text, a null string as `(null)`, cut to the precision. It stands
/// left in its field unless an alignment is written.
pub proof fn strings_are_shown(
    a: Seq<char>,
    x: FieldTextV,
    b: Seq<char>,
    string: Option<Seq<u8>>,
    args: Seq<ArgV>,
    floats: Seq<Seq<char>>,
)
    requires
        x.is_valid(),
        x.is_plain(),
        x.form().letter is None || x.form().letter == Some('s'),
        x.index() < args.len(),
        args[x.index() as int] == ArgV::Str(string),
    ensures
        ({
            let form = x.form();
            let text = match string {
                Some(bytes) => lossy_utf8(bytes),
                None => "(null)"@,
            };
            let part = if form.places() matches Some(p) && p < text.len() {
                text.take(form.places()->0 as int)
            } else {
                text
            };
            &&& cpp_text(around(a, x, b), args, floats) == a + aligned(
                part,
                form.columns(),
                form.padding(),
                form.side('<'),
            ) + b
            &&& cpp_floats(around(a, x, b), args).len() == 0
        }),
{
    lemma_plain_field(x, args);
    lemma_one_field(a, x, b, args, floats);
    let form = x.form();
    let text = match string {
        Some(bytes) => lossy_utf8(bytes),
        None => "(null)"@,
    };
    let part = if form.places() matches Some(p) && p < text.len() {
        text.take(form.places()->0 as int)
    } else {
        text
    };
    let none = Seq::<char>::empty();
    assert(none + none + part =~= part);
    let r = resolved(x.field(), args, 0)->Ok_0;
    assert(field_text(args[r.value as int], x.field().spec, r.width, r.precision, none) == Ok::<
        Seq<char>,
        Seq<char>,
    >(aligned(part, form.columns(), form.padding(), form.side('<'))));
}

/// An integer under the type `c` shows as the character whose code point its low 32 bits
/// are, or as the replacement character where there is none. It stands left in its field
/// unless an alignment is written.
pub proof fn characters_are_shown(
    a: Seq<char>,
    x: FieldTextV,
    b: Seq<char>,
    args: Seq<ArgV>,
    floats: Seq<Seq<char>>,
)
    requires
        x.is_valid(),
        x.is_plain(),
        x.form().letter == Some('c'),
        x.index() < args.len(),
        raw_bits(args[x.index() as int]) is Some,
    ensures
        ({
            let form = x.form();
            let v = raw_bits(args[x.index() as int])->0 % 0x1_0000_0000;
            let c = if v <= 0xD7FF || 0xE000 <= v <= 0x10FFFF {
                v as char
            } else {
                '\u{FFFD}'
            };
            &&& cpp_text(around(a, x, b), args, floats) == a + aligned(
                seq![c],
                form.columns(),
                form.padding(),
                form.side('<'),
            ) + b
            &&& cpp_floats(around(a, x, b), args).len() == 0
        }),
{
    lemma_plain_field(x, args);
    lemma_one_field(a, x, b, args, floats);
    let form = x.form();
    let bits = raw_bits(args[x.index() as int])->0;
    let v = bits % 0x1_0000_0000;
    let c = if v <= 0xD7FF || 0xE000 <= v <= 0x10FFFF {
        v as char
    } else {
        '\u{FFFD}'
    };
    assert(bits as u32 == bits % 0x1_0000_0000) by (bit_vector);
    let none = Seq::<char>::empty();
    assert(none + none + seq![c] =~= seq![c]);
    let r = resolved(x.field(), args, 0)->Ok_0;
    assert(field_text(args[r.value as int], x.field().spec, r.width, r.precision, none) == Ok::<
        Seq<char>,
        Seq<char>,
    >(aligned(seq![c], form.columns(), form.padding(), form.side('<'))));
}

/// The base of an integer type.
pub open spec fn base_of(letter: Option<char>) -> nat {
    match letter {
        Some('x') | Some('X') | Some('p') => 16,
        Some('o') => 8,
        Some('b') | Some('B') => 2,
        _ => 10,
    }
}

/// What the alternate form puts in front of the digits of an integer.
pub open spec fn base_prefix(letter: Option<char>) -> Seq<char> {
    match letter {
        Some('x') | Some('p') => seq!['0', 'x'],
        Some('X') => seq!['0', 'X'],
        Some('o') => seq!['0'],
        Some('b') => seq!['0', 'b'],
        Some('B') => seq!['0', 'B'],
        _ => Seq::empty(),
    }
}

/// The digits of an integer in a base, at least as many as the precision says; none for
/// zero under precision 0.
pub open spec fn shown_digits(v: u64, letter: Option<char>, places: Option<nat>) -> Seq<char> {
    let d = digits(v as nat, base_of(letter), letter == Some('X'));
    match places {
        Some(p) => if p == 0 && v == 0 {
            Seq::empty()
        } else if d.len() < p {
            repeated('0', (p - d.len()) as nat) + d
        } else {
            d
        },
        None => d,
    }
}

/// The plus sign or the blank that a sign flag puts in front of a number that is not
/// negative.
pub open spec fn plus_sign(sign: Option<char>) -> Seq<char> {
    match sign {
        Some('+') => seq!['+'],
        Some(' ') => seq![' '],
        _ => Seq::empty(),
    }
}

/// A number in its field: behind zeros that stand between its head and its digits where
/// the `0` flag counts, else aligned, to the right unless an alignment is written.
pub open spec fn number_in_field(
    form: SpecTextV,
    head: Seq<char>,
    d: Seq<char>,
    zeros: bool,
) -> Seq<char> {
    if zeros && form.zero && form.align is None {
        if head.len() + d.len() < form.columns() {
            head + repeated('0', (form.columns() - head.len() - d.len()) as nat) + d
        } else {
            head + d
        }
    } else {
        aligned(head + d, form.columns(), form.padding(), form.side('>'))
    }
}

proof fn lemma_number_in_field(core: CoreV, form: SpecTextV, zeros: bool)
    requires
        form.is_valid(),
        core.is_numeric,
    ensures
        in_field(core, form.spec(), form.columns(), zeros && form.zero && form.align is None)
            == number_in_field(form, core.sign + core.prefix, core.main, zeros),
{
    let head = core.sign + core.prefix;
    if form.align is None {
        assert(form.fill is None);
    }
}

proof fn lemma_integer_core(v: u64, form: SpecTextV, is_ptr: bool)
    requires
        form.is_valid(),
        form.precision !is Nested,
        ({
            let c = form.letter;
            c is None || c == Some('d') || c == Some('x') || c == Some('X') || c == Some('o') || c
                == Some('b') || c == Some('B') || c == Some('p')
        }),
    ensures
        int_core(
            v,
            form.letter,
            form.spec(),
            match form.precision {
                CountTextV::Digits(d) => Some(decimal_value(d) as usize),
                _ => None,
            },
            is_ptr,
        ) == Ok::<CoreV, Seq<char>>(
            CoreV {
                is_numeric: true,
                is_integer: true,
                sign: if form.letter == Some('p') {
                    Seq::empty()
                } else {
                    plus_sign(form.sign)
                },
                prefix: if form.alt || form.letter == Some('p') {
                    base_prefix(form.letter)
                } else {
                    Seq::empty()
                },
                main: shown_digits(v, form.letter, form.places()),
            },
        ),
{
}

/// An integer shows as its digits in the base of its type, behind the sign and the prefix
/// that its flags ask for. It stands right in its field unless an alignment is written;
/// the `0` flag fills the field with zeros, but not beside an alignment or a precision.
pub proof fn integers_are_shown(
    a: Seq<char>,
    x: FieldTextV,
    b: Seq<char>,
    args: Seq<ArgV>,
    floats: Seq<Seq<char>>,
)
    requires
        x.is_valid(),
        x.is_plain(),
        x.index() < args.len(),
        raw_bits(args[x.index() as int]) is Some,
        args[x.index() as int] is Ptr ==> x.form().letter is Some,
        ({
            let c = x.form().letter;
            c is None || c == Some('d') || c == Some('x') || c == Some('X') || c == Some('o') || c
                == Some('b') || c == Some('B')
        }),
    ensures
        ({
            let form = x.form();
            let v = raw_bits(args[x.index() as int])->0;
            let head = plus_sign(form.sign) + (if form.alt {
                base_prefix(form.letter)
            } else {
                Seq::empty()
            });
            let d = shown_digits(v, form.letter, form.places());
            &&& cpp_text(around(a, x, b), args, floats) == a + number_in_field(
                form,
                head,
                d,
                form.places() is None,
            ) + b
            &&& cpp_floats(around(a, x, b), args).len() == 0
        }),
{
    lemma_plain_field(x, args);
    lemma_one_field(a, x, b, args, floats);
    let form = x.form();
    let v = raw_bits(args[x.index() as int])->0;
    let is_ptr = args[x.index() as int] is Ptr;
    lemma_integer_core(v, form, is_ptr);
    let precision = resolved(x.field(), args, 0)->Ok_0.precision;
    let core = int_core(v, form.letter, form.spec(), precision, is_ptr)->Ok_0;
    lemma_number_in_field(core, form, form.places() is None);
    assert(piece_need(Piece::Field(x.field()), args, 0) is None);
}

/// A pointer, and an integer under the type `p`, shows as `0x` and its hexadecimal digits,
/// without a sign. It stands right in its field unless an alignment is written.
pub proof fn addresses_are_shown(
    a: Seq<char>,
    x: FieldTextV,
    b: Seq<char>,
    args: Seq<ArgV>,
    floats: Seq<Seq<char>>,
)
    requires
        x.is_valid(),
        x.is_plain(),
        x.index() < args.len(),
        raw_bits(args[x.index() as int]) is Some,
        x.form().letter == Some('p') || (x.form().letter is None && args[x.index() as int] is Ptr),
    ensures
        ({
            let form = x.form();
            let v = raw_bits(args[x.index() as int])->0;
            let d = shown_digits(v, Some('p'), form.places());
            &&& cpp_text(around(a, x, b), args, floats) == a + number_in_field(
                form,
                seq!['0', 'x'],
                d,
                form.places() is None,
            ) + b
            &&& cpp_floats(around(a, x, b), args).len() == 0
        }),
{
    lemma_plain_field(x, args);
    lemma_one_field(a, x, b, args, floats);
    let form = x.form();
    let v = raw_bits(args[x.index() as int])->0;
    let is_ptr = args[x.index() as int] is Ptr;
    let as_p = SpecTextV { letter: Some('p'), ..form };
    lemma_integer_core(v, as_p, is_ptr);
    let precision = resolved(x.field(), args, 0)->Ok_0.precision;
    let core = int_core(v, Some('p'), form.spec(), precision, is_ptr)->Ok_0;
    assert(core == int_core(v, Some('p'), as_p.spec(), precision, is_ptr)->Ok_0);
    lemma_number_in_field(core, form, form.places() is None);
    assert(Seq::<char>::empty() + seq!['0', 'x'] =~= seq!['0', 'x']);
    assert(piece_need(Piece::Field(x.field()), args, 0) is None);
}

/// The bits of the absolute value of a floating-point number.
pub open spec fn magnitude_bits(bits: u64) -> u64 {
    if bits >= 0x8000_0000_0000_0000 {
        (bits - 0x8000_0000_0000_0000) as u64
    } else {
        bits
    }
}

/// The text of the absolute value that a type asks for.
pub open spec fn asked_text(bits: u64, letter: char, places: Option<nat>) -> FloatFieldV {
    let abs = magnitude_bits(bits);
    let precision = match places {
        Some(p) => p as usize,
        None => 6,
    };
    if letter == 'f' || letter == 'F' {
        FloatFieldV::Fixed { bits: abs, precision }
    } else if letter == 'e' {
        FloatFieldV::LowerExp { bits: abs, precision }
    } else if letter == 'E' {
        FloatFieldV::UpperExp { bits: abs, precision }
    } else {
        FloatFieldV::Shortest { bits: abs }
    }
}

/// `c`, as a capital if it is a letter from `a` to `z`.
pub open spec fn capital(c: char) -> char {
    if 'a' <= c <= 'z' {
        (c as u32 - 0x20) as char
    } else {
        c
    }
}

proof fn lemma_nothing_to_lower(t: Seq<char>, i: int)
    requires
        0 <= i <= t.len(),
        !t.contains('N'),
    ensures
        lower_nan_from(t, i) == t.skip(i),
    decreases t.len() - i,
{
    if i < t.len() {
        assert(t.contains(t[i]));
        lemma_nothing_to_lower(t, i + 1);
        assert(t.skip(i) =~= seq![t[i]] + t.skip(i + 1));
    } else {
        assert(t.skip(i) =~= Seq::empty());
    }
}

/// A 64-bit argument under a floating-point type is a floating-point value: one text is
/// asked for, that of its absolute value in the notation of the type, with six digits
/// behind the point unless a precision is written. The text shows behind a minus sign if
/// the value is negative, in capitals under a capital type, and in its field as a number
/// does.
pub proof fn floats_are_shown(
    a: Seq<char>,
    x: FieldTextV,
    b: Seq<char>,
    bits: u64,
    args: Seq<ArgV>,
    text: Seq<char>,
)
    requires
        x.is_valid(),
        x.is_plain(),
        x.index() < args.len(),
        args[x.index() as int] == ArgV::U64(bits),
        x.form().letter is Some,
        is_float_letter(x.form().letter->0),
        !text.contains('N'),
    ensures
        ({
            let form = x.form();
            let letter = form.letter->0;
            let is_nan = magnitude_bits(bits) > 0x7ff0_0000_0000_0000;
            let sign = if bits >= 0x8000_0000_0000_0000 && !is_nan {
                seq!['-']
            } else {
                plus_sign(form.sign)
            };
            let shown = if letter == 'F' || letter == 'E' || letter == 'G' {
                Seq::new(text.len(), |k: int| capital(text[k]))
            } else {
                text
            };
            &&& cpp_floats(around(a, x, b), args) == seq![asked_text(bits, letter, form.places())]
            &&& cpp_text(around(a, x, b), args, seq![text]) == a + number_in_field(
                form,
                sign,
                shown,
                true,
            ) + b
        }),
{
    lemma_plain_field(x, args);
    let floats = seq![text];
    lemma_one_field(a, x, b, args, floats);
    let form = x.form();
    let letter = form.letter->0;
    let precision = resolved(x.field(), args, 0)->Ok_0.precision;
    assert(abs_bits(bits) == magnitude_bits(bits));
    assert(needed_float(ArgV::U64(bits), form.spec(), precision) == Some(
        asked_text(bits, letter, form.places()),
    ));
    let core = float_core(bits, letter, form.sign, text);
    lemma_number_in_field(core, form, true);
    lemma_nothing_to_lower(text, 0);
    assert(text.skip(0) =~= text);
    let shown = if letter == 'F' || letter == 'E' || letter == 'G' {
        Seq::new(text.len(), |k: int| capital(text[k]))
    } else {
        text
    };
    assert(core.main =~= shown);
    assert(core.sign + core.prefix =~= core.sign);
    assert(floats[0] == text);
}

/// The line for a format string that cannot be rendered.
pub open spec fn error_line(why: Seq<char>, fmt: Seq<char>) -> Seq<char> {
    "<render error: "@ + why + "> "@ + fmt
}

/// A field whose argument is missing is an error, which names the index.
pub proof fn missing_arguments_are_errors(
    a: Seq<char>,
    x: FieldTextV,
    b: Seq<char>,
    args: Seq<ArgV>,
    floats: Seq<Seq<char>>,
)
    requires
        x.is_valid(),
        x.is_plain(),
        x.index() >= args.len(),
    ensures
        cpp_text(around(a, x, b), args, floats) == error_line(
            "missing arg "@ + decimal(x.index()),
            around(a, x, b),
        ),
{
    assert(x.field().spec == x.form().spec());
    lemma_one_field(a, x, b, args, floats);
}

/// An argument that its type cannot show is an error: a string under any type but `s`, an
/// integer as a string, and anything but a 64-bit value as a floating-point value.
pub proof fn unfit_types_are_errors(
    a: Seq<char>,
    x: FieldTextV,
    b: Seq<char>,
    args: Seq<ArgV>,
    floats: Seq<Seq<char>>,
)
    requires
        x.is_valid(),
        x.is_plain(),
        x.index() < args.len(),
        x.form().letter is Some,
    ensures
        ({
            let letter = x.form().letter->0;
            let arg = args[x.index() as int];
            let fmt = around(a, x, b);
            let line = cpp_text(fmt, args, floats);
            &&& arg is Str && letter != 's' ==> line == error_line(
                "cannot format string as Some('"@ + seq![letter] + "')"@,
                fmt,
            )
            &&& arg !is Str && letter == 's' ==> line == error_line(
                "cannot format integer as string"@,
                fmt,
            )
            &&& arg is U32 && is_float_letter(letter) ==> line == error_line(
                "cannot format 32-bit integer as float"@,
                fmt,
            )
            &&& arg is Ptr && is_float_letter(letter) ==> line == error_line(
                "unsupported type '"@ + seq![letter] + "'"@,
                fmt,
            )
        }),
{
    lemma_plain_field(x, args);
    lemma_one_field(a, x, b, args, floats);
    assert(args[x.index() as int] !is U64 || !is_float_letter(x.form().letter->0) ==> piece_need(
        Piece::Field(x.field()),
        args,
        0,
    ) is None);
}

/// The index of the argument that a nested field stands for: the one that is written,
/// else the one behind the argument of the field itself.
pub open spec fn nested_index(digits: Seq<char>) -> nat {
    if digits.len() == 0 {
        1
    } else {
        decimal_value(digits)
    }
}

proof fn lemma_same_form(
    a: Seq<char>,
    x: FieldTextV,
    y: FieldTextV,
    b: Seq<char>,
    args: Seq<ArgV>,
    floats: Seq<Seq<char>>,
)
    requires
        x.is_valid(),
        y.is_valid(),
        !(is_auto(x.field()) && is_explicit(x.field())),
        !(is_auto(y.field()) && is_explicit(y.field())),
        x.spec is Some && y.spec is Some,
        x.form().spec() == (Spec {
            width: x.form().spec().width,
            precision: x.form().spec().precision,
            ..y.form().spec()
        }),
        resolved(x.field(), args, 0) matches Ok(r) && resolved(y.field(), args, 0) matches Ok(q)
            && r.value == q.value && r.width == q.width && r.precision == q.precision,
    ensures
        cpp_result(around(a, x, b), args, floats) == cpp_result(around(a, y, b), args, floats),
        cpp_floats(around(a, x, b), args) == cpp_floats(around(a, y, b), args),
{
    lemma_one_field(a, x, b, args, floats);
    lemma_one_field(a, y, b, args, floats);
    let r = resolved(x.field(), args, 0)->Ok_0;
    let arg = args[r.value as int];
    let s = x.form().spec();
    let t = y.form().spec();
    assert(needed_float(arg, s, r.precision) == needed_float(arg, t, r.precision));
    assert forall|text: Seq<char>|
        field_text(arg, s, r.width, r.precision, text) == field_text(
            arg,
            t,
            r.width,
            r.precision,
            text,
        ) by {
        assert(core_of(arg, s, r.precision, text) == core_of(arg, t, r.precision, text));
    }
}

/// A nested width takes the argument behind that of its field, or the one it names, and
/// counts as if that number were written in its place.
pub proof fn nested_width_is_a_width(
    a: Seq<char>,
    x: FieldTextV,
    b: Seq<char>,
    nested: Seq<char>,
    w: u32,
    args: Seq<ArgV>,
    floats: Seq<Seq<char>>,
)
    requires
        x.is_valid(),
        x.spec is Some,
        x.form().width == CountTextV::Nested(nested),
        x.form().precision !is Nested,
        (x.id.len() == 0) == (nested.len() == 0),
        x.index() < args.len(),
        nested_index(nested) < args.len(),
        args[nested_index(nested) as int] == ArgV::U32(w),
        0 < w < 0x8000_0000,
    ensures
        ({
            let y = FieldTextV {
                spec: Some(SpecTextV { width: CountTextV::Digits(decimal(w as nat)), ..x.form() }),
                ..x
            };
            let result = cpp_result(around(a, y, b), args, floats);
            &&& cpp_result(around(a, x, b), args, floats) == result
            &&& result is Ok ==> cpp_text(around(a, x, b), args, floats) == cpp_text(
                around(a, y, b),
                args,
                floats,
            )
        }),
{
    let y = FieldTextV {
        spec: Some(SpecTextV { width: CountTextV::Digits(decimal(w as nat)), ..x.form() }),
        ..x
    };
    lemma_count_text(w as nat);
    lemma_small_count(w);
    lemma_same_form(a, x, y, b, args, floats);
}

/// A nested precision takes the argument behind that of its field, or the one it names,
/// and counts as if that number were written in its place.
pub proof fn nested_precision_is_a_precision(
    a: Seq<char>,
    x: FieldTextV,
    b: Seq<char>,
    nested: Seq<char>,
    p: u32,
    args: Seq<ArgV>,
    floats: Seq<Seq<char>>,
)
    requires
        x.is_valid(),
        x.spec is Some,
        x.form().precision == CountTextV::Nested(nested),
        x.form().width !is Nested,
        (x.id.len() == 0) == (nested.len() == 0),
        x.index() < args.len(),
        nested_index(nested) < args.len(),
        args[nested_index(nested) as int] == ArgV::U32(p),
        p < 0x8000_0000,
    ensures
        ({
            let y = FieldTextV {
                spec: Some(
                    SpecTextV { precision: CountTextV::Digits(decimal(p as nat)), ..x.form() },
                ),
                ..x
            };
            let result = cpp_result(around(a, y, b), args, floats);
            &&& cpp_result(around(a, x, b), args, floats) == result
            &&& result is Ok ==> cpp_text(around(a, x, b), args, floats) == cpp_text(
                around(a, y, b),
                args,
                floats,
            )
        }),
{
    let y = FieldTextV {
        spec: Some(SpecTextV { precision: CountTextV::Digits(decimal(p as nat)), ..x.form() }),
        ..x
    };
    lemma_count_text(p as nat);
    lemma_small_count(p);
    lemma_same_form(a, x, y, b, args, floats);
}

proof fn lemma_small_count(w: u32)
    requires
        w < 0x8000_0000,
    ensures
        (w as i32) as int == w,
        ((w as i32 as i64) as usize) as int == w,
        !((w as i32) < 0),
{
    assert(w < 0x8000_0000 ==> (w as i32) == w) by (bit_vector);
}

proof fn lemma_count_text(w: nat)
    requires
        w <= usize::MAX,
    ensures
        CountTextV::Digits(decimal(w)).is_valid(),
        decimal_value(decimal(w)) == w,
        w > 0 ==> decimal(w)[0] != '0',
{
    decimal_value_of_decimal(w);
    let d = decimal(w);
    assert forall|k: int| 0 <= k < d.len() implies '0' <= #[trigger] d[k] <= '9' by {
        assert(is_digit(d[k]));
    }
    lemma_no_leading_zero(w);
}

proof fn lemma_no_leading_zero(v: nat)
    ensures
        decimal(v).len() > 0,
        v > 0 ==> decimal(v)[0] != '0',
    decreases v,
{
    if v >= 10 {
        lemma_no_leading_zero(v / 10);
        assert(decimal(v)[0] == decimal(v / 10)[0]);
    }
}

/// A nested width or precision that is negative as a 32-bit integer, or a string, or
/// missing, is an error.
pub proof fn bad_nested_counts_are_errors(
    a: Seq<char>,
    x: FieldTextV,
    b: Seq<char>,
    nested: Seq<char>,
    args: Seq<ArgV>,
    floats: Seq<Seq<char>>,
)
    requires
        x.is_valid(),
        x.form().width == CountTextV::Nested(nested),
        x.form().precision !is Nested,
        (x.id.len() == 0) == (nested.len() == 0),
    ensures
        ({
            let j = nested_index(nested);
            let fmt = around(a, x, b);
            let line = cpp_text(fmt, args, floats);
            &&& j >= args.len() ==> line == error_line(
                "missing width/precision arg "@ + decimal(j),
                fmt,
            )
            &&& j < args.len() && args[j as int] is Str ==> line == error_line(
                "string used as width/precision"@,
                fmt,
            )
            &&& j < args.len() && (args[j as int] matches ArgV::U32(w) && w >= 0x8000_0000)
                ==> line == error_line("negative dynamic width/precision"@, fmt)
        }),
{
    lemma_one_field(a, x, b, args, floats);
    let j = nested_index(nested);
    if j < args.len() {
        if let ArgV::U32(w) = args[j as int] {
            assert(w >= 0x8000_0000 ==> (w as i32) == w - 0x1_0000_0000) by (bit_vector);
        }
    }
    assert(x.spec is Some);
    assert(dynamic_count(args, j) is Err ==> resolved(x.field(), args, 0) == Err::<
        ResolvedV,
        Seq<char>,
    >(dynamic_count(args, j)->Err_0));
}

// ---- Several fields ----

/// True if no field of a format string names an argument by its index.
pub open spec fn counts_arguments(fmt: Seq<char>) -> bool {
    pieces_from(fmt, 0) matches Ok(pieces) && forall|k: int|
        0 <= k < pieces.len() ==> (#[trigger] pieces[k] matches Piece::Field(f) ==> !is_explicit(f))
}

/// True if every field of a format string, nested ones too, names its argument by its
/// index.
pub open spec fn names_arguments(fmt: Seq<char>) -> bool {
    pieces_from(fmt, 0) matches Ok(pieces) && forall|k: int|
        0 <= k < pieces.len() ==> (#[trigger] pieces[k] matches Piece::Field(f) ==> !is_auto(f))
}

proof fn lemma_shift_piece(piece: Piece, arg: ArgV, more: Seq<ArgV>, auto: nat, text: Seq<char>)
    requires
        piece matches Piece::Field(f) ==> !is_explicit(f),
    ensures
        piece_need(piece, seq![arg] + more, auto + 1) == piece_need(piece, more, auto),
        piece_result(piece, more, auto, text) matches Ok((t, next)) ==> piece_result(
            piece,
            seq![arg] + more,
            auto + 1,
            text,
        ) == Ok::<(Seq<char>, nat), Seq<char>>((t, next + 1)),
        piece_result(piece, more, auto, text) is Err ==> piece_result(
            piece,
            seq![arg] + more,
            auto + 1,
            text,
        ) is Err,
{
    let args = seq![arg] + more;
    if let Piece::Field(f) = piece {
        assert forall|k: nat| k < more.len() implies args[(k + 1) as int]
            == #[trigger] more[k as int] by {}
        assert forall|k: nat|
            match #[trigger] dynamic_count(more, k) {
                Ok(n) => dynamic_count(args, k + 1) == Ok::<usize, Seq<char>>(n),
                Err(_) => dynamic_count(args, k + 1) is Err,
            } by {
            if k < more.len() {
                assert(args[(k + 1) as int] == more[k as int]);
            }
        }
        let x = dynamic_count(more, auto + 1);
        let y = dynamic_count(more, auto + 2);
        let z = dynamic_count(args, auto + 2);
        let w = dynamic_count(args, auto + 3);
        assert(auto < more.len() ==> args[(auto + 1) as int] == more[auto as int]);
    }
}

proof fn lemma_shift_pieces(
    pieces: Seq<Piece>,
    k: int,
    arg: ArgV,
    more: Seq<ArgV>,
    auto: nat,
    floats: Seq<Seq<char>>,
    m: int,
    fi: int,
)
    requires
        forall|j: int|
            0 <= j < pieces.len() ==> (#[trigger] pieces[j] matches Piece::Field(f)
                ==> !is_explicit(f)),
        0 <= m,
        0 <= fi,
        0 <= k,
        m + fi + piece_floats(pieces, k, more, auto).len() <= floats.len(),
        pieces_text(pieces, k, more, auto, floats.skip(m), fi) is Ok,
    ensures
        pieces_text(pieces, k, seq![arg] + more, auto + 1, floats, m + fi) == pieces_text(
            pieces,
            k,
            more,
            auto,
            floats.skip(m),
            fi,
        ),
        piece_floats(pieces, k, seq![arg] + more, auto + 1) == piece_floats(pieces, k, more, auto),
    decreases pieces.len() - k,
{
    if k < pieces.len() {
        let args = seq![arg] + more;
        let rest = floats.skip(m);
        let need = piece_need(pieces[k], more, auto);
        let text = if need is Some {
            rest[fi]
        } else {
            Seq::empty()
        };
        lemma_shift_piece(pieces[k], arg, more, auto, text);
        lemma_shift_piece(pieces[k], arg, more, auto, Seq::empty());
        lemma_any_text(pieces[k], more, auto, text, Seq::empty());
        if need is Some {
            assert(rest[fi] == floats[m + fi]);
        }
        let (t, next) = piece_result(pieces[k], more, auto, text)->Ok_0;
        let fi1 = if need is Some {
            fi + 1
        } else {
            fi
        };
        lemma_shift_pieces(pieces, k + 1, arg, more, next, floats, m, fi1);
    }
}

/// Fields without an index take the arguments in order: behind a field that shows the
/// first argument, the rest of the format string shows the arguments behind it, as if
/// they were all; and its floating-point texts stand behind those of the field.
#[verifier::rlimit(30)]
pub proof fn fields_take_arguments_in_order(
    x: FieldTextV,
    y: Seq<char>,
    arg: ArgV,
    more: Seq<ArgV>,
    floats: Seq<Seq<char>>,
)
    requires
        x.is_valid(),
        x.is_plain(),
        x.id.len() == 0,
        counts_arguments(y),
        cpp_result(x.text(), seq![arg], floats) is Ok,
        ({
            let n = cpp_floats(x.text(), seq![arg]).len();
            &&& n + cpp_floats(y, more).len() == floats.len()
            &&& cpp_result(y, more, floats.skip(n as int)) is Ok
        }),
    ensures
        ({
            let n = cpp_floats(x.text(), seq![arg]).len();
            &&& cpp_result(x.text() + y, seq![arg] + more, floats) == Ok::<Seq<char>, Seq<char>>(
                cpp_result(x.text(), seq![arg], floats)->Ok_0 + cpp_result(
                    y,
                    more,
                    floats.skip(n as int),
                )->Ok_0,
            )
            &&& cpp_floats(x.text() + y, seq![arg] + more) == cpp_floats(x.text(), seq![arg])
                + cpp_floats(y, more)
        }),
{
    let args = seq![arg] + more;
    let piece = Piece::Field(x.field());
    let none = Seq::<char>::empty();
    let p = pieces_from(y, 0)->Ok_0;
    lemma_field_first(x, y);
    let pieces = seq![piece] + p;
    assert(pieces_from(x.text() + y, 0) == Ok::<Seq<Piece>, Seq<char>>(pieces));
    lemma_plain_field(x, seq![arg]);
    lemma_plain_field(x, args);
    lemma_one_field(none, x, none, seq![arg], floats);
    assert(around(none, x, none) =~= x.text());
    assert forall|k: int| 0 <= k < pieces.len() implies (#[trigger] pieces[k] matches Piece::Field(
        f,
    ) ==> !is_explicit(f)) by {
        if k > 0 {
            assert(pieces[k] == p[k - 1]);
        }
    }
    assert(!is_mixed(pieces));
    assert(!is_mixed(p));
    let need = piece_need(piece, args, 0);
    assert(args[0] == arg && seq![arg][0] == arg);
    assert(need == piece_need(piece, seq![arg], 0));
    let n = cpp_floats(x.text(), seq![arg]).len() as int;
    let text = if need is Some {
        floats[0]
    } else {
        none
    };
    assert(piece_result(piece, args, 0, text) == piece_result(piece, seq![arg], 0, text));
    lemma_any_text(piece, args, 0, text, none);
    let (t, next) = piece_result(piece, args, 0, text)->Ok_0;
    assert(next == 1);
    assert(none + t + none =~= t);
    lemma_shift_pieces(p, 0, arg, more, 0, floats, n, 0);
    assert(pieces.skip(1) =~= p);
    lemma_skip_pieces_text(pieces, 1, 0, args, 1, floats, n);
    lemma_skip_piece_floats(pieces, 1, 0, args, 1);
    assert(cpp_floats(x.text() + y, args) =~= cpp_floats(x.text(), seq![arg]) + cpp_floats(
        y,
        more,
    ));
}

proof fn lemma_any_index(
    pieces: Seq<Piece>,
    k: int,
    args: Seq<ArgV>,
    auto: nat,
    floats: Seq<Seq<char>>,
    m: int,
    fi: int,
)
    requires
        forall|j: int|
            0 <= j < pieces.len() ==> (#[trigger] pieces[j] matches Piece::Field(f)
                ==> !is_auto(f)),
        0 <= m,
        0 <= fi,
        0 <= k,
        m + fi + piece_floats(pieces, k, args, 0).len() <= floats.len(),
    ensures
        pieces_text(pieces, k, args, auto, floats, m + fi) == pieces_text(
            pieces,
            k,
            args,
            0,
            floats.skip(m),
            fi,
        ),
        piece_floats(pieces, k, args, auto) == piece_floats(pieces, k, args, 0),
    decreases pieces.len() - k,
{
    if k < pieces.len() {
        let rest = floats.skip(m);
        let need = piece_need(pieces[k], args, 0);
        assert(piece_need(pieces[k], args, auto) == need);
        let text = if need is Some {
            rest[fi]
        } else {
            Seq::empty()
        };
        lemma_any_text(pieces[k], args, 0, text, Seq::empty());
        lemma_any_text(pieces[k], args, auto, text, Seq::empty());
        if need is Some {
            assert(rest[fi] == floats[m + fi]);
        }
        let fi1 = if need is Some {
            fi + 1
        } else {
            fi
        };
        if piece_result(pieces[k], args, 0, text) is Ok {
            lemma_any_index(pieces, k + 1, args, auto, floats, m, fi1);
        }
    }
}

/// Fields with an index show the arguments that they name, independently of one another:
/// a field in front of a format string leaves what the string shows as it is.
#[verifier::rlimit(30)]
pub proof fn fields_with_an_index_are_independent(
    x: FieldTextV,
    y: Seq<char>,
    args: Seq<ArgV>,
    floats: Seq<Seq<char>>,
)
    requires
        x.is_valid(),
        x.is_plain(),
        x.id.len() > 0,
        x.index() < args.len(),
        names_arguments(y),
        cpp_result(x.text(), args, floats) is Ok,
        ({
            let n = cpp_floats(x.text(), args).len();
            &&& n + cpp_floats(y, args).len() == floats.len()
            &&& cpp_result(y, args, floats.skip(n as int)) is Ok
        }),
    ensures
        ({
            let n = cpp_floats(x.text(), args).len();
            &&& cpp_result(x.text() + y, args, floats) == Ok::<Seq<char>, Seq<char>>(
                cpp_result(x.text(), args, floats)->Ok_0 + cpp_result(
                    y,
                    args,
                    floats.skip(n as int),
                )->Ok_0,
            )
            &&& cpp_floats(x.text() + y, args) == cpp_floats(x.text(), args) + cpp_floats(y, args)
        }),
{
    let piece = Piece::Field(x.field());
    let none = Seq::<char>::empty();
    let p = pieces_from(y, 0)->Ok_0;
    lemma_field_first(x, y);
    let pieces = seq![piece] + p;
    assert(pieces_from(x.text() + y, 0) == Ok::<Seq<Piece>, Seq<char>>(pieces));
    lemma_plain_field(x, args);
    lemma_one_field(none, x, none, args, floats);
    assert(around(none, x, none) =~= x.text());
    assert forall|k: int| 0 <= k < pieces.len() implies (#[trigger] pieces[k] matches Piece::Field(
        f,
    ) ==> !is_auto(f)) by {
        if k > 0 {
            assert(pieces[k] == p[k - 1]);
        }
    }
    assert(!is_mixed(pieces));
    assert(!is_mixed(p));
    let need = piece_need(piece, args, 0);
    let n = cpp_floats(x.text(), args).len() as int;
    let text = if need is Some {
        floats[0]
    } else {
        none
    };
    lemma_any_text(piece, args, 0, text, none);
    let (t, next) = piece_result(piece, args, 0, text)->Ok_0;
    assert(none + t + none =~= t);
    lemma_any_index(p, 0, args, next, floats, n, 0);
    assert(pieces.skip(1) =~= p);
    lemma_skip_pieces_text(pieces, 1, 0, args, next, floats, n);
    lemma_skip_piece_floats(pieces, 1, 0, args, next);
    assert(cpp_floats(x.text() + y, args) =~= cpp_floats(x.text(), args) + cpp_floats(y, args));
}

/// Whether a piece can be rendered, and which index follows it, does not depend on the
/// floating-point text.
proof fn lemma_any_text(piece: Piece, args: Seq<ArgV>, auto: nat, a: Seq<char>, b: Seq<char>)
    ensures
        piece_result(piece, args, auto, a) is Ok <==> piece_result(piece, args, auto, b) is Ok,
        piece_result(piece, args, auto, a) matches Ok(x) ==> x.1 == piece_result(
            piece,
            args,
            auto,
            b,
        )->Ok_0.1,
{
}

/// A field without an index beside one with an index is an error, in either order.
pub proof fn mixed_indices_are_errors(
    x: FieldTextV,
    y: FieldTextV,
    a: Seq<char>,
    b: Seq<char>,
    args: Seq<ArgV>,
    floats: Seq<Seq<char>>,
)
    requires
        x.is_valid(),
        y.is_valid(),
        (x.id.len() == 0) != (y.id.len() == 0),
    ensures
        ({
            let fmt = x.text() + around(a, y, b);
            &&& cpp_text(fmt, args, floats) == error_line("mixed auto and explicit args"@, fmt)
            &&& cpp_floats(fmt, args).len() == 0
        }),
{
    let empty = Seq::<char>::empty();
    let none = Seq::<Piece>::empty();
    let tail = around(a, y, b);
    lemma_field_first(x, tail);
    assert(tail =~= escaped(a) + (y.text() + escaped(b)));
    lemma_pieces_behind_text(a, y.text() + escaped(b));
    lemma_field_first(y, escaped(b));
    lemma_pieces_behind_text(b, empty);
    assert(escaped(b) + empty =~= escaped(b));
    assert(pieces_from(empty, 0) == Ok::<Seq<Piece>, Seq<char>>(none));
    assert(literals(b) + none =~= literals(b));
    let pieces = seq![Piece::Field(x.field())] + (literals(a) + (seq![Piece::Field(y.field())]
        + literals(b)));
    assert(pieces_from(x.text() + tail, 0) == Ok::<Seq<Piece>, Seq<char>>(pieces));
    assert(pieces[0] == Piece::Field(x.field()));
    assert(pieces[1int + a.len()] == Piece::Field(y.field()));
    assert(is_mixed(pieces));
}

// ---- Counts of other arguments ----

/// The number that an argument is as a width or a precision: a 32-bit or a 64-bit integer
/// with a sign. A string is none.
pub open spec fn counted(arg: ArgV) -> Option<int> {
    match arg {
        ArgV::U32(v) | ArgV::Ptr(v) => Some(if v < 0x8000_0000 {
            v as int
        } else {
            v - 0x1_0000_0000
        }),
        ArgV::U64(v) => Some(if v < 0x8000_0000_0000_0000 {
            v as int
        } else {
            v - 0x1_0000_0000_0000_0000
        }),
        ArgV::Str(_) => None,
    }
}

proof fn lemma_counted(args: Seq<ArgV>, j: nat)
    requires
        j < args.len(),
        counted(args[j as int]) is Some,
    ensures
        ({
            let v = counted(args[j as int])->0;
            &&& v < 0 ==> dynamic_count(args, j) == Err::<usize, Seq<char>>(
                "negative dynamic width/precision"@,
            )
            &&& 0 <= v <= usize::MAX ==> dynamic_count(args, j) == Ok::<usize, Seq<char>>(
                v as usize,
            )
        }),
{
    match args[j as int] {
        ArgV::U32(v) | ArgV::Ptr(v) => {
            assert(v < 0x8000_0000 ==> (v as i32) == v) by (bit_vector);
            assert(v >= 0x8000_0000 ==> (v as i32) == v - 0x1_0000_0000) by (bit_vector);
        },
        ArgV::U64(v) => {
            assert(v < 0x8000_0000_0000_0000 ==> (v as i64) == v) by (bit_vector);
            assert(v >= 0x8000_0000_0000_0000 ==> (v as i64) == v - 0x1_0000_0000_0000_0000)
                by (bit_vector);
        },
        ArgV::Str(_) => {},
    }
}

/// The argument that a nested precision stands for: the one that is written, else the one
/// behind the argument of the field and that of a nested width.
pub open spec fn nested_places_index(form: SpecTextV) -> nat {
    match form.precision {
        CountTextV::Nested(d) => if d.len() > 0 {
            decimal_value(d)
        } else if form.width is Nested {
            2
        } else {
            1
        },
        _ => 0,
    }
}

/// The argument that a nested width stands for.
pub open spec fn nested_columns_index(form: SpecTextV) -> nat {
    match form.width {
        CountTextV::Nested(d) => nested_index(d),
        _ => 0,
    }
}

/// True if the nested fields name their arguments by an index just where their field does.
pub open spec fn counts_like_its_field(x: FieldTextV) -> bool {
    &&& x.form().width matches CountTextV::Nested(d) ==> (d.len() == 0) == (x.id.len() == 0)
    &&& x.form().precision matches CountTextV::Nested(d) ==> (d.len() == 0) == (x.id.len() == 0)
}

/// A nested width or precision may be any integer that is not negative. Where both are
/// nested, the width takes its argument before the precision.
#[verifier::spinoff_prover]
#[verifier::rlimit(40)]
pub proof fn nested_counts_are_counts(
    a: Seq<char>,
    x: FieldTextV,
    b: Seq<char>,
    w: nat,
    p: nat,
    args: Seq<ArgV>,
    floats: Seq<Seq<char>>,
)
    requires
        x.is_valid(),
        x.spec is Some,
        counts_like_its_field(x),
        x.index() < args.len(),
        x.form().width is Nested ==> {
            let j = nested_columns_index(x.form());
            j < args.len() && counted(args[j as int]) == Some(w as int) && 0 < w <= usize::MAX
        },
        x.form().precision is Nested ==> {
            let j = nested_places_index(x.form());
            j < args.len() && counted(args[j as int]) == Some(p as int) && p <= usize::MAX
        },
    ensures
        ({
            let form = x.form();
            let width = if form.width is Nested {
                CountTextV::Digits(decimal(w))
            } else {
                form.width
            };
            let precision = if form.precision is Nested {
                CountTextV::Digits(decimal(p))
            } else {
                form.precision
            };
            let y = FieldTextV { spec: Some(SpecTextV { width, precision, ..form }), ..x };
            &&& cpp_result(around(a, x, b), args, floats) == cpp_result(
                around(a, y, b),
                args,
                floats,
            )
            &&& cpp_floats(around(a, x, b), args) == cpp_floats(around(a, y, b), args)
        }),
{
    let form = x.form();
    let width = if form.width is Nested {
        CountTextV::Digits(decimal(w))
    } else {
        form.width
    };
    let precision = if form.precision is Nested {
        CountTextV::Digits(decimal(p))
    } else {
        form.precision
    };
    let y = FieldTextV { spec: Some(SpecTextV { width, precision, ..form }), ..x };
    if form.width is Nested {
        lemma_counted(args, nested_columns_index(form));
        lemma_count_text(w);
    }
    if form.precision is Nested {
        lemma_counted(args, nested_places_index(form));
        lemma_count_text(p);
    }
    assert(resolved(x.field(), args, 0) is Ok);
    assert(resolved(y.field(), args, 0) is Ok);
    lemma_same_form(a, x, y, b, args, floats);
}

proof fn lemma_no_columns(arg: ArgV, s: Spec, t: Spec, precision: Option<usize>, text: Seq<char>)
    requires
        t == (Spec { width: t.width, ..s }),
    ensures
        needed_float(arg, s, precision) == needed_float(arg, t, precision),
        field_text(arg, s, Some(0usize), precision, text) == field_text(
            arg,
            t,
            None,
            precision,
            text,
        ),
{
    assert(core_of(arg, s, precision, text) == core_of(arg, t, precision, text));
}

/// A nested width of zero is no width.
#[verifier::spinoff_prover]
#[verifier::rlimit(40)]
pub proof fn nested_width_of_zero_is_none(
    a: Seq<char>,
    x: FieldTextV,
    b: Seq<char>,
    args: Seq<ArgV>,
    floats: Seq<Seq<char>>,
)
    requires
        x.is_valid(),
        x.spec is Some,
        counts_like_its_field(x),
        x.form().width is Nested,
        x.form().precision !is Nested,
        x.index() < args.len(),
        nested_columns_index(x.form()) < args.len(),
        counted(args[nested_columns_index(x.form()) as int]) == Some(0int),
    ensures
        ({
            let y = FieldTextV {
                spec: Some(SpecTextV { width: CountTextV::Absent, ..x.form() }),
                ..x
            };
            cpp_result(around(a, x, b), args, floats) == cpp_result(around(a, y, b), args, floats)
        }),
{
    let form = x.form();
    let y = FieldTextV { spec: Some(SpecTextV { width: CountTextV::Absent, ..form }), ..x };
    lemma_counted(args, nested_columns_index(form));
    lemma_one_field(a, x, b, args, floats);
    lemma_one_field(a, y, b, args, floats);
    let r = resolved(x.field(), args, 0)->Ok_0;
    let q = resolved(y.field(), args, 0)->Ok_0;
    assert(r.width == Some(0usize) && q.width is None);
    assert(r.value == q.value && r.precision == q.precision);
    let arg = args[r.value as int];
    let none = Seq::<char>::empty();
    lemma_no_columns(arg, form.spec(), y.form().spec(), r.precision, none);
    lemma_no_columns(arg, form.spec(), y.form().spec(), r.precision, floats[0]);
}

/// A nested width or precision that is negative is an error.
pub proof fn negative_counts_are_errors(
    a: Seq<char>,
    x: FieldTextV,
    b: Seq<char>,
    args: Seq<ArgV>,
    floats: Seq<Seq<char>>,
)
    requires
        x.is_valid(),
        x.spec is Some,
        counts_like_its_field(x),
        (x.form().width is Nested) != (x.form().precision is Nested),
        ({
            let j = if x.form().width is Nested {
                nested_columns_index(x.form())
            } else {
                nested_places_index(x.form())
            };
            j < args.len() && (counted(args[j as int]) matches Some(v) && v < 0)
        }),
    ensures
        cpp_text(around(a, x, b), args, floats) == error_line(
            "negative dynamic width/precision"@,
            around(a, x, b),
        ),
{
    lemma_one_field(a, x, b, args, floats);
    if x.form().width is Nested {
        lemma_counted(args, nested_columns_index(x.form()));
    } else {
        lemma_counted(args, nested_places_index(x.form()));
    }
}

/// The text `NaN` shows in small letters, or in capitals under a capital type.
pub proof fn nan_shows_in_the_case_of_its_type(
    a: Seq<char>,
    x: FieldTextV,
    b: Seq<char>,
    bits: u64,
    args: Seq<ArgV>,
)
    requires
        x.is_valid(),
        x.is_plain(),
        x.index() < args.len(),
        args[x.index() as int] == ArgV::U64(bits),
        magnitude_bits(bits) > 0x7ff0_0000_0000_0000,
        x.form().letter is Some,
        is_float_letter(x.form().letter->0),
    ensures
        ({
            let letter = x.form().letter->0;
            let shown = if letter == 'F' || letter == 'E' || letter == 'G' {
                seq!['N', 'A', 'N']
            } else {
                seq!['n', 'a', 'n']
            };
            cpp_text(around(a, x, b), args, seq![seq!['N', 'a', 'N']]) == a + number_in_field(
                x.form(),
                plus_sign(x.form().sign),
                shown,
                true,
            ) + b
        }),
{
    lemma_plain_field(x, args);
    let text = seq!['N', 'a', 'N'];
    let floats = seq![text];
    lemma_one_field(a, x, b, args, floats);
    let form = x.form();
    let letter = form.letter->0;
    let core = float_core(bits, letter, form.sign, text);
    lemma_number_in_field(core, form, true);
    assert(abs_bits(bits) == magnitude_bits(bits));
    reveal_with_fuel(lower_nan_from, 2);
    assert(has_at(text, 0, 'N') && has_at(text, 1, 'a') && has_at(text, 2, 'N'));
    assert(lower_nan_from(text, 0) =~= seq!['n', 'a', 'n']);
    assert(text.map_values(|c: char| upper_char(c)) =~= seq!['N', 'A', 'N']);
    assert(core.sign + core.prefix =~= core.sign);
    assert(floats[0] == text);
}

// ---- Format strings that are none ----

/// A closing brace that is neither doubled nor closes a field is an error.
pub proof fn lone_closing_braces_are_errors(
    a: Seq<char>,
    y: Seq<char>,
    args: Seq<ArgV>,
    floats: Seq<Seq<char>>,
)
    requires
        y.len() == 0 || y[0] != '}',
    ensures
        ({
            let fmt = escaped(a) + (seq!['}'] + y);
            &&& cpp_text(fmt, args, floats) == error_line("unmatched '}'"@, fmt)
            &&& cpp_floats(fmt, args).len() == 0
        }),
{
    let rest = seq!['}'] + y;
    lemma_pieces_behind_text(a, rest);
    assert(y.len() > 0 ==> rest[1] == y[0]);
    assert(!has_at(rest, 1, '}'));
}

/// An opening brace starts a field: an index or nothing, and then a colon or the closing
/// brace. Anything else is an error, and so is the end of the string.
pub proof fn broken_fields_are_errors(
    a: Seq<char>,
    id: Seq<char>,
    y: Seq<char>,
    args: Seq<ArgV>,
    floats: Seq<Seq<char>>,
)
    requires
        all_digits(id),
        decimal_value(id) <= usize::MAX,
        y.len() > 0 ==> y[0] != ':' && y[0] != '}' && !('0' <= y[0] <= '9'),
        y.len() > 0 && id.len() == 0 ==> y[0] != '{',
    ensures
        ({
            let fmt = escaped(a) + (seq!['{'] + id + y);
            &&& cpp_text(fmt, args, floats) == error_line(
                if y.len() == 0 {
                    "unterminated field"@
                } else {
                    "expected ':' or '}' in field"@
                },
                fmt,
            )
            &&& cpp_floats(fmt, args).len() == 0
        }),
{
    let rest = seq!['{'] + id + y;
    let d = 1 + id.len() as int;
    lemma_pieces_behind_text(a, rest);
    assert forall|k: int| 1 <= k < d implies is_digit(#[trigger] rest[k]) by {
        assert(rest[k] == id[k - 1]);
        assert('0' <= id[k - 1] <= '9');
    }
    assert(y.len() > 0 ==> rest[d] == y[0]);
    assert(id.len() > 0 ==> rest[1] == id[0] && '0' <= id[0] <= '9');
    assert(!has_at(rest, 1, '{'));
    lemma_digits_run(rest, 1, d);
    assert(rest.subrange(1, d) =~= id);
}

/// A field whose specification is not closed is an error.
pub proof fn unclosed_fields_are_errors(
    a: Seq<char>,
    id: Seq<char>,
    t: Seq<char>,
    args: Seq<ArgV>,
    floats: Seq<Seq<char>>,
)
    requires
        all_digits(id),
        decimal_value(id) <= usize::MAX,
        forall|k: int| 0 <= k < t.len() ==> #[trigger] t[k] != '{' && t[k] != '}',
    ensures
        ({
            let fmt = escaped(a) + (seq!['{'] + id + seq![':'] + t);
            cpp_text(fmt, args, floats) == error_line("unterminated field"@, fmt)
        }),
{
    let rest = seq!['{'] + id + seq![':'] + t;
    let d = 1 + id.len() as int;
    lemma_pieces_behind_text(a, rest);
    assert forall|k: int| 1 <= k < d implies is_digit(#[trigger] rest[k]) by {
        assert(rest[k] == id[k - 1]);
        assert('0' <= id[k - 1] <= '9');
    }
    assert(rest[d] == ':');
    assert(id.len() > 0 ==> rest[1] == id[0] && '0' <= id[0] <= '9');
    assert(!has_at(rest, 1, '{'));
    lemma_digits_run(rest, 1, d);
    assert(rest.subrange(1, d) =~= id);
    assert(rest.subrange(d + 1, d + 1 + t.len()) =~= t);
    lemma_close_text(rest, d + 1, t);
}

/// A letter that is no type of C++ is an error, which names it.
pub proof fn unknown_types_are_errors(
    a: Seq<char>,
    id: Seq<char>,
    c: char,
    y: Seq<char>,
    args: Seq<ArgV>,
    floats: Seq<Seq<char>>,
)
    requires
        all_digits(id),
        decimal_value(id) <= usize::MAX,
        'a' <= c <= 'z' || 'A' <= c <= 'Z',
        !is_type_letter(c),
    ensures
        ({
            let fmt = escaped(a) + (seq!['{'] + id + seq![':', c, '}'] + y);
            cpp_text(fmt, args, floats) == error_line(
                "unsupported type '"@ + seq![c] + "'"@,
                fmt,
            )
        }),
{
    let rest = seq!['{'] + id + seq![':', c, '}'] + y;
    let d = 1 + id.len() as int;
    lemma_pieces_behind_text(a, rest);
    assert forall|k: int| 1 <= k < d implies is_digit(#[trigger] rest[k]) by {
        assert(rest[k] == id[k - 1]);
        assert('0' <= id[k - 1] <= '9');
    }
    assert(rest[d] == ':' && rest[d + 1] == c && rest[d + 2] == '}');
    assert(id.len() > 0 ==> rest[1] == id[0] && '0' <= id[0] <= '9');
    assert(!has_at(rest, 1, '{'));
    lemma_digits_run(rest, 1, d);
    assert(rest.subrange(1, d) =~= id);
    let t = seq![c];
    assert(rest.subrange(d + 1, d + 2) =~= t);
    lemma_close_text(rest, d + 1, t);
    lemma_digits_run(t, 0, 0);
    assert(t.skip(0) =~= t);
    assert(spec_of(t) == Err::<Spec, Seq<char>>("unsupported type '"@ + t + "'"@));
}

// ---- Dispatch ----

/// A string with a field and without a percent sign is a C++ string.
pub proof fn fields_make_a_cpp_string(
    a: Seq<char>,
    x: FieldTextV,
    b: Seq<char>,
    args: Seq<ArgV>,
    floats: Seq<Seq<char>>,
)
    requires
        x.is_valid(),
        !around(a, x, b).contains('%'),
    ensures
        ({
            let fmt = around(a, x, b);
            &&& format_text(fmt, args, floats) == cpp_text(fmt, args, floats)
            &&& format_floats(fmt, args) == cpp_floats(fmt, args)
        }),
{
    let fmt = around(a, x, b);
    let piece = Piece::Field(x.field());
    let pieces = literals(a) + (seq![piece] + literals(b));
    lemma_pieces_around(a, x, b);
    assert(pieces[a.len() as int] == piece);
    assert(has_field(pieces));
    detector_agrees_with_parser(fmt, 0);
    conversions_start_with_a_percent_sign(fmt, 0);
}

/// A field that counts its argument and names that of its width or precision by an index,
/// or the other way round, is an error.
pub proof fn nested_indices_mix_too(
    a: Seq<char>,
    x: FieldTextV,
    b: Seq<char>,
    args: Seq<ArgV>,
    floats: Seq<Seq<char>>,
)
    requires
        x.is_valid(),
        !counts_like_its_field(x),
    ensures
        ({
            let fmt = around(a, x, b);
            &&& cpp_text(fmt, args, floats) == error_line("mixed auto and explicit args"@, fmt)
            &&& cpp_floats(fmt, args).len() == 0
        }),
{
    let fmt = around(a, x, b);
    let piece = Piece::Field(x.field());
    let pieces = literals(a) + (seq![piece] + literals(b));
    lemma_pieces_around(a, x, b);
    assert(pieces[a.len() as int] == piece);
    assert(is_auto(x.field()) && is_explicit(x.field()));
    assert(is_mixed(pieces));
}

proof fn lemma_pieces_around(a: Seq<char>, x: FieldTextV, b: Seq<char>)
    requires
        x.is_valid(),
    ensures
        pieces_from(around(a, x, b), 0) == Ok::<Seq<Piece>, Seq<char>>(
            literals(a) + (seq![Piece::Field(x.field())] + literals(b)),
        ),
{
    let none = Seq::<Piece>::empty();
    let empty = Seq::<char>::empty();
    assert(around(a, x, b) =~= escaped(a) + (x.text() + escaped(b)));
    lemma_pieces_behind_text(a, x.text() + escaped(b));
    lemma_field_first(x, escaped(b));
    lemma_pieces_behind_text(b, empty);
    assert(escaped(b) + empty =~= escaped(b));
    assert(pieces_from(empty, 0) == Ok::<Seq<Piece>, Seq<char>>(none));
    assert(literals(b) + none =~= literals(b));
}

} // verus!
