//! Characters, digits and padding: the small vocabulary in which every
//! rendered text of this crate is described.

use vstd::prelude::*;
use vstd::string::*;

verus! {

/// `String::push` of std: appends one character.
pub assume_specification[ String::push ](s: &mut String, c: char)
    ensures
        final(s)@ == old(s)@.push(c),
;

/// `char::from_u32` of std: the character with this code point, or `None` for
/// surrogates and for values above `0x10FFFF`.
pub assume_specification[ char::from_u32 ](v: u32) -> (r: Option<char>)
    ensures
        r == char_at_code_point(v),
;

/// The character with code point `v`, if there is one.
pub open spec fn char_at_code_point(v: u32) -> Option<char> {
    if v <= 0xD7FF || 0xE000 <= v <= 0x10FFFF {
        Some(v as char)
    } else {
        None
    }
}

/// `n` copies of `c`.
pub open spec fn repeated(c: char, n: nat) -> Seq<char> {
    Seq::new(n, |i: int| c)
}

/// `s` with copies of `fill` put in front of it until it is `width` long.
pub open spec fn padded_start(s: Seq<char>, width: nat, fill: char) -> Seq<char> {
    if s.len() < width {
        repeated(fill, (width - s.len()) as nat) + s
    } else {
        s
    }
}

/// `s` with copies of `fill` put behind it until it is `width` long.
pub open spec fn padded_end(s: Seq<char>, width: nat, fill: char) -> Seq<char> {
    if s.len() < width {
        s + repeated(fill, (width - s.len()) as nat)
    } else {
        s
    }
}

/// The digit character of `d`, for `d < 16`.
pub open spec fn digit_char(d: nat, upper: bool) -> char {
    if d < 10 {
        (0x30 + d) as char
    } else if upper {
        (0x41 + d - 10) as char
    } else {
        (0x61 + d - 10) as char
    }
}

/// `v` written in base `base` without leading zeros (`0` for zero).
pub open spec fn digits(v: nat, base: nat, upper: bool) -> Seq<char>
    decreases v,
{
    if base < 2 || v < base {
        seq![digit_char(v, upper)]
    } else {
        proof {
            vstd::arithmetic::div_mod::lemma_div_decreases(v as int, base as int);
        }
        digits(v / base, base, upper).push(digit_char(v % base, upper))
    }
}

/// `v` in decimal.
pub open spec fn decimal(v: nat) -> Seq<char> {
    digits(v, 10, false)
}

/// `v` in lower-case hexadecimal, at least `width` digits.
pub open spec fn hex_padded(v: nat, width: nat) -> Seq<char> {
    padded_start(digits(v, 16, false), width, '0')
}

/// True for `0` to `9`.
pub open spec fn is_digit(c: char) -> bool {
    '0' <= c <= '9'
}

/// The number a run of decimal digits stands for.
pub open spec fn decimal_value(s: Seq<char>) -> nat
    decreases s.len(),
{
    if s.len() == 0 {
        0
    } else {
        decimal_value(s.drop_last()) * 10 + (s.last() as nat - '0' as nat) as nat
    }
}

/// First position at or after `i` whose character is not a decimal digit.
pub open spec fn digits_end(s: Seq<char>, i: int) -> int
    decreases s.len() - i,
{
    if 0 <= i < s.len() && is_digit(s[i]) {
        digits_end(s, i + 1)
    } else {
        i
    }
}

pub proof fn lemma_digits_end(s: Seq<char>, i: int)
    requires
        0 <= i <= s.len(),
    ensures
        i <= digits_end(s, i) <= s.len(),
        forall|k: int| i <= k < digits_end(s, i) ==> is_digit(#[trigger] s[k]),
        digits_end(s, i) < s.len() ==> !is_digit(s[digits_end(s, i)]),
    decreases s.len() - i,
{
    if i < s.len() && is_digit(s[i]) {
        lemma_digits_end(s, i + 1);
    }
}

/// An element at the end of one sequence is an element in front of the next.
pub proof fn lemma_push_in_front<A>(a: Seq<A>, x: A, b: Seq<A>)
    ensures
        a.push(x) + b == a + (seq![x] + b),
{
    assert(a.push(x) + b =~= a + (seq![x] + b));
}

/// The decimal digits of a number denote that number again.
pub proof fn decimal_value_of_decimal(v: nat)
    ensures
        decimal_value(decimal(v)) == v,
        forall|k: int| 0 <= k < decimal(v).len() ==> is_digit(#[trigger] decimal(v)[k]),
    decreases v,
{
    if v < 10 {
        let s = decimal(v);
        assert(s.drop_last() =~= Seq::<char>::empty());
        assert(decimal_value(s.drop_last()) == 0);
    } else {
        decimal_value_of_decimal(v / 10);
        let s = decimal(v);
        assert(s.drop_last() =~= decimal(v / 10));
    }
}

proof fn lemma_decimal_value_grows(s: Seq<char>, k: int)
    requires
        0 <= k <= s.len(),
    ensures
        decimal_value(s.take(k)) <= decimal_value(s),
    decreases s.len(),
{
    if k == s.len() {
        assert(s.take(k) =~= s);
    } else {
        lemma_decimal_value_grows(s.drop_last(), k);
        assert(s.drop_last().take(k) =~= s.take(k));
    }
}

/// The number that the digits from `from` to `to` stand for, unless it is above
/// `limit`.
pub fn parse_decimal(chars: &[char], from: usize, to: usize, limit: usize) -> (r: Option<usize>)
    requires
        from <= to <= chars.len(),
        forall|k: int| from <= k < to ==> is_digit(#[trigger] chars[k]),
        limit >= 9,
    ensures
        r matches Some(v) ==> v == decimal_value(chars@.subrange(from as int, to as int)) && v
            <= limit,
        r is None ==> decimal_value(chars@.subrange(from as int, to as int)) > limit,
{
    let ghost run = chars@.subrange(from as int, to as int);
    let mut v: usize = 0;
    let mut i: usize = from;
    while i < to
        invariant
            from <= i <= to <= chars.len(),
            run == chars@.subrange(from as int, to as int),
            forall|k: int| from <= k < to ==> is_digit(#[trigger] chars[k]),
            limit >= 9,
            v == decimal_value(run.take(i - from)),
            v <= limit,
        decreases to - i,
    {
        let c = chars[i];
        assert(is_digit(chars[i as int]));
        let d: usize = c as usize - '0' as usize;
        proof {
            let next = run.take(i + 1 - from);
            assert(next.drop_last() =~= run.take(i - from));
            assert(next.last() == c);
            assert(decimal_value(next) == v * 10 + d);
            lemma_decimal_value_grows(run, i + 1 - from);
        }
        if v > (limit - d) / 10 {
            return None;
        }
        v = v * 10 + d;
        i += 1;
    }
    assert(run.take(to - from) =~= run);
    Some(v)
}

/// The characters of `s`.
pub fn chars_of(s: &str) -> (r: Vec<char>)
    ensures
        r@ == s@,
{
    let mut r: Vec<char> = Vec::new();
    for c in it: s.chars()
        invariant
            it.seq() == s@,
            r@ == s@.take(it.index() as int),
    {
        r.push(c);
    }
    r
}

/// First position at or after `i` whose character is not a decimal digit.
pub fn digits_stop(chars: &[char], i: usize) -> (r: usize)
    requires
        i <= chars.len(),
    ensures
        r == digits_end(chars@, i as int),
        i <= r <= chars.len(),
        forall|k: int| i <= k < r ==> is_digit(#[trigger] chars[k]),
{
    let mut j: usize = i;
    while j < chars.len() && is_ascii_digit(chars[j])
        invariant
            i <= j <= chars.len(),
            digits_end(chars@, j as int) == digits_end(chars@, i as int),
            forall|k: int| i <= k < j ==> is_digit(#[trigger] chars[k]),
        decreases chars.len() - j,
    {
        j += 1;
    }
    j
}

/// Appends the characters from `from` to `to`.
pub fn push_chars(out: &mut String, chars: &[char], from: usize, to: usize)
    requires
        from <= to <= chars.len(),
    ensures
        final(out)@ == old(out)@ + chars@.subrange(from as int, to as int),
{
    let mut i: usize = from;
    let ghost start = out@;
    while i < to
        invariant
            from <= i <= to <= chars.len(),
            out@ == start + chars@.subrange(from as int, i as int),
        decreases to - i,
    {
        out.push(chars[i]);
        i += 1;
        assert(chars@.subrange(from as int, i as int) =~= chars@.subrange(
            from as int,
            i - 1,
        ).push(chars[i - 1]));
    }
}

/// True for `0` to `9`.
pub fn is_ascii_digit(c: char) -> (r: bool)
    ensures
        r == is_digit(c),
{
    '0' <= c && c <= '9'
}

/// Appends `n` copies of `c`.
pub fn push_repeated(out: &mut String, c: char, n: usize)
    ensures
        final(out)@ == old(out)@ + repeated(c, n as nat),
{
    let mut i: usize = 0;
    let ghost start = out@;
    while i < n
        invariant
            i <= n,
            out@ == start + repeated(c, i as nat),
        decreases n - i,
    {
        out.push(c);
        i += 1;
        assert(repeated(c, i as nat) =~= repeated(c, (i - 1) as nat).push(c));
    }
}

/// The digit character of `d`.
fn digit(d: u128, upper: bool) -> (r: char)
    requires
        d < 16,
    ensures
        r == digit_char(d as nat, upper),
{
    if d < 10 {
        (0x30u8 + d as u8) as char
    } else if upper {
        (0x41u8 + (d as u8 - 10)) as char
    } else {
        (0x61u8 + (d as u8 - 10)) as char
    }
}

/// Appends `v` written in base `base`.
pub fn push_digits(out: &mut String, v: u128, base: u128, upper: bool)
    requires
        2 <= base <= 16,
    ensures
        final(out)@ == old(out)@ + digits(v as nat, base as nat, upper),
    decreases v,
{
    if v < base {
        out.push(digit(v, upper));
    } else {
        assert(v / base < v) by (nonlinear_arith)
            requires
                v >= base,
                base >= 2,
        ;
        push_digits(out, v / base, base, upper);
        out.push(digit(v % base, upper));
    }
}

/// `v` written in base `base`.
pub fn digits_string(v: u64, base: u64, upper: bool) -> (r: String)
    requires
        2 <= base <= 16,
    ensures
        r@ == digits(v as nat, base as nat, upper),
{
    let mut r = String::new();
    push_digits(&mut r, v as u128, base as u128, upper);
    r
}

/// `v` in decimal.
pub fn decimal_string(v: u64) -> (r: String)
    ensures
        r@ == decimal(v as nat),
{
    digits_string(v, 10, false)
}

/// `s` padded at its start to `width` characters.
pub fn pad_start(s: &str, width: usize, fill: char) -> (r: String)
    ensures
        r@ == padded_start(s@, width as nat, fill),
{
    let n = s.unicode_len();
    let mut r = String::new();
    if n < width {
        push_repeated(&mut r, fill, width - n);
    }
    r.append(s);
    r
}

/// `s` padded at its end to `width` characters.
pub fn pad_end(s: &str, width: usize, fill: char) -> (r: String)
    ensures
        r@ == padded_end(s@, width as nat, fill),
{
    let n = s.unicode_len();
    let mut r = String::new();
    r.append(s);
    if n < width {
        push_repeated(&mut r, fill, width - n);
    }
    r
}

/// `v` in lower-case hexadecimal, at least `width` digits.
pub fn hex_string(v: u64, width: usize) -> (r: String)
    ensures
        r@ == hex_padded(v as nat, width as nat),
{
    pad_start(digits_string(v, 16, false).as_str(), width, '0')
}

// ---- Hexadecimal numbers ----

/// The value of a hexadecimal digit of either case.
pub open spec fn hex_digit_value(c: char) -> Option<nat> {
    if '0' <= c <= '9' {
        Some((c as nat - '0' as nat) as nat)
    } else if 'a' <= c <= 'f' {
        Some((c as nat - 'a' as nat + 10) as nat)
    } else if 'A' <= c <= 'F' {
        Some((c as nat - 'A' as nat + 10) as nat)
    } else {
        None
    }
}

/// True if `s` holds hexadecimal digits only.
pub open spec fn all_hex(s: Seq<char>) -> bool {
    forall|k: int| 0 <= k < s.len() ==> hex_digit_value(#[trigger] s[k]) is Some
}

/// The number a run of hexadecimal digits stands for.
pub open spec fn hex_value(s: Seq<char>) -> nat
    decreases s.len(),
{
    if s.len() == 0 {
        0
    } else {
        hex_value(s.drop_last()) * 16 + hex_digit_value(s.last())->0
    }
}

/// `s` without a plus sign in front.
pub open spec fn unsigned_part(s: Seq<char>) -> Seq<char> {
    if s.len() > 0 && s[0] == '+' {
        s.skip(1)
    } else {
        s
    }
}

/// The number up to `limit` that `s` denotes in hexadecimal: at least one digit,
/// and nothing but digits behind an optional plus sign.
pub open spec fn parsed_hex(s: Seq<char>, limit: nat) -> Option<nat> {
    let d = unsigned_part(s);
    if d.len() > 0 && all_hex(d) && hex_value(d) <= limit {
        Some(hex_value(d))
    } else {
        None
    }
}

proof fn lemma_hex_value_grows(s: Seq<char>, k: int)
    requires
        0 <= k <= s.len(),
    ensures
        hex_value(s.take(k)) <= hex_value(s),
    decreases s.len(),
{
    if k == s.len() {
        assert(s.take(k) =~= s);
    } else {
        lemma_hex_value_grows(s.drop_last(), k);
        assert(s.drop_last().take(k) =~= s.take(k));
    }
}

fn hex_digit(c: char) -> (r: Option<u64>)
    ensures
        r matches Some(v) ==> v < 16 && hex_digit_value(c) == Some(v as nat),
        r is None ==> hex_digit_value(c) is None,
{
    if '0' <= c && c <= '9' {
        Some((c as u32 - '0' as u32) as u64)
    } else if 'a' <= c && c <= 'f' {
        Some((c as u32 - 'a' as u32 + 10) as u64)
    } else if 'A' <= c && c <= 'F' {
        Some((c as u32 - 'A' as u32 + 10) as u64)
    } else {
        None
    }
}

/// The number up to `limit` that `chars` denote in hexadecimal.
pub fn parse_hex(chars: &[char], limit: u64) -> (r: Option<u64>)
    requires
        limit >= 15,
    ensures
        r matches Some(v) ==> parsed_hex(chars@, limit as nat) == Some(v as nat),
        r is None ==> parsed_hex(chars@, limit as nat) is None,
{
    let from: usize = if chars.len() > 0 && chars[0] == '+' {
        1
    } else {
        0
    };
    let ghost d = unsigned_part(chars@);
    assert(d =~= chars@.skip(from as int));
    if from == chars.len() {
        return None;
    }
    let mut v: u64 = 0;
    let mut i: usize = from;
    while i < chars.len()
        invariant
            from <= i <= chars.len(),
            d == chars@.skip(from as int),
            d == unsigned_part(chars@),
            limit >= 15,
            v <= limit,
            v == hex_value(d.take(i - from)),
            forall|k: int| 0 <= k < i - from ==> hex_digit_value(#[trigger] d[k]) is Some,
        decreases chars.len() - i,
    {
        let c = chars[i];
        assert(d[i - from] == c);
        match hex_digit(c) {
            None => {
                return None;
            },
            Some(h) => {
                proof {
                    let next = d.take(i + 1 - from);
                    assert(next.drop_last() =~= d.take(i - from));
                    assert(next.last() == c);
                    assert(hex_value(next) == v * 16 + h);
                    lemma_hex_value_grows(d, i + 1 - from);
                }
                if v > (limit - h) / 16 {
                    return None;
                }
                v = v * 16 + h;
            },
        }
        i += 1;
    }
    assert(d.take(i - from) =~= d);
    Some(v)
}

proof fn lemma_hex_of_digits(v: nat)
    ensures
        digits(v, 16, false).len() > 0,
        all_hex(digits(v, 16, false)),
        hex_value(digits(v, 16, false)) == v,
    decreases v,
{
    let s = digits(v, 16, false);
    if v < 16 {
        assert(s.drop_last() =~= Seq::<char>::empty());
        assert(hex_value(s.drop_last()) == 0);
    } else {
        lemma_hex_of_digits(v / 16);
        assert(s.drop_last() =~= digits(v / 16, 16, false));
    }
}

proof fn lemma_hex_zeros(n: nat, s: Seq<char>)
    requires
        all_hex(s),
    ensures
        all_hex(repeated('0', n) + s),
        hex_value(repeated('0', n) + s) == hex_value(s),
    decreases n + s.len(),
{
    let whole = repeated('0', n) + s;
    if s.len() > 0 {
        lemma_hex_zeros(n, s.drop_last());
        assert(whole.drop_last() =~= repeated('0', n) + s.drop_last());
    } else if n > 0 {
        lemma_hex_zeros((n - 1) as nat, s);
        assert(whole.drop_last() =~= repeated('0', (n - 1) as nat) + s);
    }
}

/// The hexadecimal text of a number denotes that number again, however many zeros
/// stand in front of it.
pub proof fn hex_text_denotes_its_number(v: nat, width: nat, limit: nat)
    requires
        v <= limit,
    ensures
        all_hex(hex_padded(v, width)),
        parsed_hex(hex_padded(v, width), limit) == Some(v),
{
    let s = digits(v, 16, false);
    lemma_hex_of_digits(v);
    if s.len() < width {
        lemma_hex_zeros((width - s.len()) as nat, s);
    }
    let text = hex_padded(v, width);
    assert(hex_digit_value(text[0]) is Some);
}

/// The number up to `limit` that `s` denotes in decimal: at least one digit, and
/// nothing but digits behind an optional plus sign.
pub open spec fn parsed_decimal(s: Seq<char>, limit: nat) -> Option<nat> {
    let d = unsigned_part(s);
    if d.len() > 0 && digits_end(d, 0) == d.len() && decimal_value(d) <= limit {
        Some(decimal_value(d))
    } else {
        None
    }
}

/// The number up to `usize::MAX` that `s` denotes in decimal.
pub fn parse_usize(s: &str) -> (r: Option<usize>)
    ensures
        r matches Some(v) ==> parsed_decimal(s@, usize::MAX as nat) == Some(v as nat),
        r is None ==> parsed_decimal(s@, usize::MAX as nat) is None,
{
    let list = chars_of(s);
    let from: usize = if list.len() > 0 && list[0] == '+' {
        1
    } else {
        0
    };
    let chars = vstd::slice::slice_subrange(list.as_slice(), from, list.len());
    assert(chars@ =~= unsigned_part(s@));
    let end = digits_stop(chars, 0);
    if chars.len() == 0 || end < chars.len() {
        return None;
    }
    assert(chars@.subrange(0, chars@.len() as int) =~= chars@);
    parse_decimal(chars, 0, end, usize::MAX)
}

/// The number that digits denote in a base.
pub open spec fn number_in(s: Seq<char>, base: nat) -> nat
    decreases s.len(),
{
    if s.len() == 0 {
        0
    } else {
        number_in(s.drop_last(), base) * base + hex_digit_value(s.last())->0
    }
}

/// The digits of a number denote it in their base. They are digits of that base, in the
/// case that is asked for, and start with a zero only if they are a single one.
pub proof fn digits_denote_their_number(v: nat, base: nat, upper: bool)
    requires
        2 <= base <= 16,
    ensures
        ({
            let s = digits(v, base, upper);
            &&& s.len() > 0
            &&& number_in(s, base) == v
            &&& s[0] == '0' ==> v == 0 && s.len() == 1
            &&& forall|k: int|
                0 <= k < s.len() ==> hex_digit_value(#[trigger] s[k]) is Some && hex_digit_value(
                    s[k],
                )->0 < base && ('0' <= s[k] <= '9' || (if upper {
                    'A' <= s[k] <= 'F'
                } else {
                    'a' <= s[k] <= 'f'
                }))
        }),
    decreases v,
{
    let s = digits(v, base, upper);
    if v < base {
        assert(s.drop_last() =~= Seq::<char>::empty());
        assert(number_in(s.drop_last(), base) == 0);
    } else {
        vstd::arithmetic::div_mod::lemma_div_decreases(v as int, base as int);
        digits_denote_their_number(v / base, base, upper);
        let front = digits(v / base, base, upper);
        assert(s.drop_last() =~= front);
        assert(s[0] == front[0]);
        vstd::arithmetic::div_mod::lemma_fundamental_div_mod(v as int, base as int);
        assert((v / base) * base == base * (v / base)) by (nonlinear_arith);
        assert(v % base < base) by (nonlinear_arith)
            requires
                base > 0,
        ;
        assert(v / base > 0) by (nonlinear_arith)
            requires
                v >= base,
                base > 0,
        ;
        assert forall|k: int| 0 <= k < s.len() implies hex_digit_value(#[trigger] s[k]) is Some
            && hex_digit_value(s[k])->0 < base && ('0' <= s[k] <= '9' || (if upper {
            'A' <= s[k] <= 'F'
        } else {
            'a' <= s[k] <= 'f'
        })) by {
            if k < front.len() {
                assert(s[k] == front[k]);
            }
        }
    }
}

/// Padding makes a text as wide as asked for, and no wider, with the text at its end or at
/// its start.
pub proof fn padding_fills_the_width(s: Seq<char>, width: nat, fill: char)
    ensures
        ({
            let n = if s.len() < width {
                width
            } else {
                s.len()
            };
            let front = padded_start(s, width, fill);
            let back = padded_end(s, width, fill);
            &&& front.len() == n && back.len() == n
            &&& front.skip(n - s.len()) == s && back.take(s.len() as int) == s
            &&& forall|k: int| 0 <= k < n - s.len() ==> #[trigger] front[k] == fill
            &&& forall|k: int| s.len() <= k < n ==> #[trigger] back[k] == fill
        }),
{
    let n = if s.len() < width {
        width
    } else {
        s.len()
    };
    assert(padded_start(s, width, fill).skip(n - s.len()) =~= s);
    assert(padded_end(s, width, fill).take(s.len() as int) =~= s);
}

/// Hexadecimal digits count alike in either case, and ten digits come before them.
pub proof fn hex_digits_count_in_either_case(k: nat)
    requires
        k < 16,
    ensures
        k < 10 ==> hex_digit_value((0x30 + k) as char) == Some(k),
        k >= 10 ==> hex_digit_value((0x61 + k - 10) as char) == Some(k),
        k >= 10 ==> hex_digit_value((0x41 + k - 10) as char) == Some(k),
{
}

proof fn lemma_hex_value_is_the_number(s: Seq<char>)
    requires
        all_hex(s),
    ensures
        hex_value(s) == number_in(s, 16),
    decreases s.len(),
{
    if s.len() > 0 {
        assert forall|k: int| 0 <= k < s.drop_last().len() implies hex_digit_value(
            #[trigger] s.drop_last()[k],
        ) is Some by {
            assert(s.drop_last()[k] == s[k]);
        }
        lemma_hex_value_is_the_number(s.drop_last());
        assert(hex_digit_value(s[s.len() - 1]) is Some);
    }
}

/// A hexadecimal text denotes its number, with or without a plus sign in front, unless it
/// is above the limit. A text that is empty or holds anything but digits denotes none.
pub proof fn hex_texts_are_read(s: Seq<char>, limit: nat)
    ensures
        s.len() > 0 && all_hex(s) ==> parsed_hex(s, limit) == (if number_in(s, 16) <= limit {
            Some(number_in(s, 16))
        } else {
            None
        }),
        s.len() > 0 && all_hex(s) ==> parsed_hex(seq!['+'] + s, limit) == parsed_hex(s, limit),
        s.len() == 0 ==> parsed_hex(s, limit) is None,
        !all_hex(s) && (s.len() == 0 || s[0] != '+') ==> parsed_hex(s, limit) is None,
{
    if s.len() > 0 && all_hex(s) {
        lemma_hex_value_is_the_number(s);
        assert(hex_digit_value(s[0]) is Some);
        assert((seq!['+'] + s).skip(1) =~= s);
    }
}

/// True if `s` holds decimal digits only.
pub open spec fn all_decimal(s: Seq<char>) -> bool {
    forall|k: int| 0 <= k < s.len() ==> '0' <= #[trigger] s[k] <= '9'
}

proof fn lemma_decimal_value_is_the_number(s: Seq<char>)
    requires
        all_decimal(s),
    ensures
        decimal_value(s) == number_in(s, 10),
    decreases s.len(),
{
    if s.len() > 0 {
        assert forall|k: int|
            0 <= k < s.drop_last().len() implies '0' <= #[trigger] s.drop_last()[k] <= '9' by {
            assert(s.drop_last()[k] == s[k]);
        }
        lemma_decimal_value_is_the_number(s.drop_last());
        assert('0' <= s[s.len() - 1] <= '9');
    }
}

proof fn lemma_stops_at_the_end(s: Seq<char>, i: int)
    requires
        0 <= i <= s.len(),
    ensures
        i <= digits_end(s, i) <= s.len(),
        digits_end(s, i) == s.len() <==> forall|k: int|
            i <= k < s.len() ==> '0' <= #[trigger] s[k] <= '9',
    decreases s.len() - i,
{
    if i < s.len() {
        lemma_stops_at_the_end(s, i + 1);
    }
}

/// A decimal text denotes its number, with or without a plus sign in front, unless it is
/// above the limit. A text that is empty or holds anything but digits denotes none.
pub proof fn decimal_texts_are_read(s: Seq<char>, limit: nat)
    ensures
        s.len() > 0 && all_decimal(s) ==> parsed_decimal(s, limit) == (if number_in(s, 10)
            <= limit {
            Some(number_in(s, 10))
        } else {
            None
        }),
        s.len() > 0 && all_decimal(s) ==> parsed_decimal(seq!['+'] + s, limit) == parsed_decimal(
            s,
            limit,
        ),
        s.len() == 0 ==> parsed_decimal(s, limit) is None,
        !all_decimal(s) && (s.len() == 0 || s[0] != '+') ==> parsed_decimal(s, limit) is None,
{
    lemma_stops_at_the_end(s, 0);
    if s.len() > 0 && all_decimal(s) {
        lemma_decimal_value_is_the_number(s);
        assert('0' <= s[0] <= '9');
        assert((seq!['+'] + s).skip(1) =~= s);
    }
}

} // verus!
