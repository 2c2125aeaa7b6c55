//! Terminal output: ANSI colors, word wrap, log lines and hex dumps.

use crate::float::text_views;
use crate::text::{
    chars_of, hex_padded, hex_string, pad_end, padded_end, parse_usize, parsed_decimal,
    push_chars, push_repeated, repeated,
};
use crate::wire::Level;
use vstd::prelude::*;
use vstd::string::*;

verus! {

/// Reset all ANSI attributes to default.
pub const RESET: &'static str = "\x1b[0m";
/// Red foreground (typically used for `Level::Error`).
pub const RED: &'static str = "\x1b[31m";
/// Yellow foreground (typically used for `Level::Warn`).
pub const YELLOW: &'static str = "\x1b[33m";
/// Green foreground (typically used for `Level::Info`).
pub const GREEN: &'static str = "\x1b[32m";
/// White / default foreground (used for `Level::Debug`/`Level::Verbose`).
pub const WHITE: &'static str = "\x1b[37m";
/// Bold / increased intensity.
pub const BOLD: &'static str = "\x1b[1m";
/// Dim / reduced intensity (used for warning prose).
pub const DIM: &'static str = "\x1b[2m";

/// The color of a level.
pub open spec fn color_of(level: Level) -> Seq<char> {
    match level {
        Level::Error => RED@,
        Level::Warn => YELLOW@,
        Level::Info => GREEN@,
        _ => WHITE@,
    }
}

/// Map an on9log [`Level`] to the corresponding ANSI color constant.
pub fn level_color(level: Level) -> (r: &'static str)
    ensures
        r@ == color_of(level),
{
    match level {
        Level::Error => RED,
        Level::Warn => YELLOW,
        Level::Info => GREEN,
        _ => WHITE,
    }
}

// ---- Word wrap ----

/// Unicode white space.
pub open spec fn is_white(c: char) -> bool {
    ||| '\t' <= c <= '\r'
    ||| c == ' ' || c == '\u{85}' || c == '\u{a0}' || c == '\u{1680}'
    ||| '\u{2000}' <= c <= '\u{200a}'
    ||| c == '\u{2028}' || c == '\u{2029}' || c == '\u{202f}' || c == '\u{205f}' || c == '\u{3000}'
}

/// First position at or after `i` that holds no white space.
pub open spec fn white_end(s: Seq<char>, i: int) -> int
    decreases s.len() - i,
{
    if 0 <= i < s.len() && is_white(s[i]) {
        white_end(s, i + 1)
    } else {
        i
    }
}

/// First position at or after `i` that holds white space, or the length.
pub open spec fn word_end(s: Seq<char>, i: int) -> int
    decreases s.len() - i,
{
    if 0 <= i < s.len() && !is_white(s[i]) {
        word_end(s, i + 1)
    } else {
        i
    }
}

/// First position at or after `i` that holds a newline, or the length.
pub open spec fn newline_at(s: Seq<char>, i: int) -> int
    decreases s.len() - i,
{
    if 0 <= i < s.len() && s[i] != '\n' {
        newline_at(s, i + 1)
    } else {
        i
    }
}

/// Finished lines and the line in the making.
#[verifier::ext_equal]
pub struct WrapV {
    pub lines: Seq<Seq<char>>,
    pub line: Seq<char>,
}

/// A word on a fresh line, broken after every `width` characters.
pub open spec fn hard_broken(lines: Seq<Seq<char>>, w: Seq<char>, width: int) -> WrapV
    decreases w.len(),
{
    if width <= 0 || w.len() <= width {
        WrapV { lines, line: w }
    } else {
        hard_broken(lines.push(w.take(width)), w.skip(width), width)
    }
}

/// One more word: behind a space where it fits on the line, else on a fresh line.
pub open spec fn with_word(st: WrapV, w: Seq<char>, width: int) -> WrapV {
    if st.line.len() > 0 && st.line.len() + 1 + w.len() <= width {
        WrapV { lines: st.lines, line: st.line.push(' ') + w }
    } else if st.line.len() > 0 {
        hard_broken(st.lines.push(st.line), w, width)
    } else {
        hard_broken(st.lines, w, width)
    }
}

pub proof fn lemma_word_bounds(p: Seq<char>, i: int)
    requires
        0 <= i <= p.len(),
    ensures
        i <= white_end(p, i) <= p.len(),
        forall|k: int| i <= k < white_end(p, i) ==> is_white(#[trigger] p[k]),
        white_end(p, i) < p.len() ==> white_end(p, i) < word_end(p, white_end(p, i)) <= p.len(),
    decreases p.len() - i,
{
    if i < p.len() && is_white(p[i]) {
        lemma_word_bounds(p, i + 1);
    } else {
        lemma_word_end(p, i);
    }
}

pub proof fn lemma_word_end(p: Seq<char>, i: int)
    requires
        0 <= i <= p.len(),
    ensures
        i <= word_end(p, i) <= p.len(),
        i < p.len() && !is_white(p[i]) ==> i < word_end(p, i),
    decreases p.len() - i,
{
    if i < p.len() && !is_white(p[i]) {
        lemma_word_end(p, i + 1);
    }
}

/// The words of `p` from position `i` on.
pub open spec fn with_words(st: WrapV, p: Seq<char>, i: int, width: int) -> WrapV
    decreases p.len() - i,
{
    if i < 0 || i > p.len() {
        st
    } else {
        proof {
            lemma_word_bounds(p, i);
        }
        let b = white_end(p, i);
        if b >= p.len() {
            st
        } else {
            let e = word_end(p, b);
            with_words(with_word(st, p.subrange(b, e), width), p, e, width)
        }
    }
}

/// `lines` with the lines of one paragraph.
pub open spec fn with_paragraph(lines: Seq<Seq<char>>, p: Seq<char>, width: int) -> Seq<Seq<char>> {
    let st = with_words(WrapV { lines, line: Seq::empty() }, p, 0, width);
    st.lines.push(st.line)
}

pub proof fn lemma_newline_at(s: Seq<char>, i: int)
    requires
        0 <= i <= s.len(),
    ensures
        i <= newline_at(s, i) <= s.len(),
        newline_at(s, i) < s.len() ==> s[newline_at(s, i)] == '\n',
    decreases s.len() - i,
{
    if i < s.len() && s[i] != '\n' {
        lemma_newline_at(s, i + 1);
    }
}

/// `lines` with the lines of the paragraphs from position `i` on.
pub open spec fn with_paragraphs(lines: Seq<Seq<char>>, t: Seq<char>, i: int, width: int) -> Seq<
    Seq<char>,
>
    decreases t.len() - i,
{
    if i < 0 || i > t.len() {
        lines
    } else {
        proof {
            lemma_newline_at(t, i);
        }
        let e = newline_at(t, i);
        let next = with_paragraph(lines, t.subrange(i, e), width);
        if e >= t.len() {
            next
        } else {
            with_paragraphs(next, t, e + 1, width)
        }
    }
}

/// The lines of `t` wrapped to `width` columns; width 0 means no wrapping.
pub open spec fn wrapped(t: Seq<char>, width: int) -> Seq<Seq<char>> {
    if width == 0 {
        seq![t]
    } else {
        with_paragraphs(Seq::empty(), t, 0, width)
    }
}

fn white(c: char) -> (r: bool)
    ensures
        r == is_white(c),
{
    ('\t' <= c && c <= '\r') || c == ' ' || c == '\u{85}' || c == '\u{a0}' || c == '\u{1680}' || (
    '\u{2000}' <= c && c <= '\u{200a}') || c == '\u{2028}' || c == '\u{2029}' || c == '\u{202f}'
        || c == '\u{205f}' || c == '\u{3000}'
}

fn white_stop(s: &[char], i: usize) -> (r: usize)
    requires
        i <= s.len(),
    ensures
        r == white_end(s@, i as int),
        i <= r <= s.len(),
{
    let mut j: usize = i;
    while j < s.len() && white(s[j])
        invariant
            i <= j <= s.len(),
            white_end(s@, j as int) == white_end(s@, i as int),
        decreases s.len() - j,
    {
        j += 1;
    }
    j
}

fn word_stop(s: &[char], i: usize) -> (r: usize)
    requires
        i <= s.len(),
    ensures
        r == word_end(s@, i as int),
        i <= r <= s.len(),
{
    let mut j: usize = i;
    while j < s.len() && !white(s[j])
        invariant
            i <= j <= s.len(),
            word_end(s@, j as int) == word_end(s@, i as int),
        decreases s.len() - j,
    {
        j += 1;
    }
    j
}

fn newline_stop(s: &[char], i: usize) -> (r: usize)
    requires
        i <= s.len(),
    ensures
        r == newline_at(s@, i as int),
        i <= r <= s.len(),
{
    let mut j: usize = i;
    while j < s.len() && s[j] != '\n'
        invariant
            i <= j <= s.len(),
            newline_at(s@, j as int) == newline_at(s@, i as int),
        decreases s.len() - j,
    {
        j += 1;
    }
    j
}

/// Adds a line to a list.
fn push_line(lines: &mut Vec<String>, line: String)
    ensures
        text_views(final(lines)@) == text_views(old(lines)@).push(line@),
{
    let ghost before = text_views(lines@);
    lines.push(line);
    assert(text_views(lines@) =~= before.push(line@));
}

/// Hard-breaks a word by pushing `width` characters at a time onto fresh lines;
/// gives the last one, which is still in the making.
fn push_hard(lines: &mut Vec<String>, word: &[char], width: usize) -> (line: String)
    requires
        width > 0,
    ensures
        hard_broken(text_views(old(lines)@), word@, width as int) == (WrapV {
            lines: text_views(final(lines)@),
            line: line@,
        }),
{
    let ghost whole = hard_broken(text_views(lines@), word@, width as int);
    let mut i: usize = 0;
    assert(word@.skip(0) =~= word@);
    while word.len() - i > width
        invariant
            i <= word.len(),
            width > 0,
            hard_broken(text_views(lines@), word@.skip(i as int), width as int) == whole,
        decreases word.len() - i,
    {
        let mut line = String::new();
        push_chars(&mut line, word, i, i + width);
        proof {
            assert(line@ =~= word@.skip(i as int).take(width as int));
            assert(word@.skip(i as int).skip(width as int) =~= word@.skip(i + width));
        }
        push_line(lines, line);
        i += width;
    }
    let mut line = String::new();
    push_chars(&mut line, word, i, word.len());
    assert(line@ =~= word@.skip(i as int));
    line
}

/// Adds the lines of one paragraph.
fn wrap_paragraph(lines: &mut Vec<String>, p: &[char], width: usize)
    requires
        width > 0,
    ensures
        text_views(final(lines)@) == with_paragraph(text_views(old(lines)@), p@, width as int),
{
    let ghost whole = with_words(
        WrapV { lines: text_views(lines@), line: Seq::empty() },
        p@,
        0,
        width as int,
    );
    let mut line = String::new();
    let mut line_len: usize = 0;
    let mut b = white_stop(p, 0);
    proof {
        lemma_word_bounds(p@, 0);
    }
    let ghost mut i: int = 0;
    assert(line@ =~= Seq::empty());
    while b < p.len()
        invariant
            0 <= i <= b <= p.len(),
            b == white_end(p@, i),
            width > 0,
            line_len == line@.len(),
            line_len <= width,
            with_words(WrapV { lines: text_views(lines@), line: line@ }, p@, i, width as int)
                == whole,
        decreases p.len() - b,
    {
        proof {
            lemma_word_bounds(p@, i);
        }
        let e = word_stop(p, b);
        let word = vstd::slice::slice_subrange(p, b, e);
        let ghost st = WrapV { lines: text_views(lines@), line: line@ };
        if line_len > 0 && word.len() < width && line_len <= width - 1 - word.len() {
            line.push(' ');
            push_chars(&mut line, p, b, e);
            line_len = line_len + 1 + word.len();
        } else {
            if line_len > 0 {
                let mut full = String::new();
                full.append(line.as_str());
                assert(full@ =~= line@);
                push_line(lines, full);
            }
            proof {
                lemma_hard_broken(text_views(lines@), word@, width as int);
            }
            line = push_hard(lines, word, width);
            line_len = line.as_str().unicode_len();
        }
        assert(WrapV { lines: text_views(lines@), line: line@ } =~= with_word(
            st,
            word@,
            width as int,
        ));
        proof {
            i = e as int;
            lemma_word_bounds(p@, i);
        }
        b = white_stop(p, e);
    }
    push_line(lines, line);
}

proof fn lemma_hard_broken(lines: Seq<Seq<char>>, w: Seq<char>, width: int)
    requires
        width > 0,
    ensures
        hard_broken(lines, w, width).line.len() <= width,
    decreases w.len(),
{
    if w.len() > width {
        lemma_hard_broken(lines.push(w.take(width)), w.skip(width), width);
    }
}

/// Word-wrap `text` to `width` columns, returning the wrapped lines (without
/// trailing newlines). Long unbreakable tokens are hard-broken at `width`.
pub fn wrap(text: &str, width: usize) -> (r: Vec<String>)
    ensures
        text_views(r@) == wrapped(text@, width as int),
{
    let mut lines: Vec<String> = Vec::new();
    assert(text_views(lines@) =~= Seq::empty());
    if width == 0 {
        push_line(&mut lines, text.to_string());
        assert(text_views(lines@) =~= seq![text@]);
        return lines;
    }
    let list = chars_of(text);
    let chars = list.as_slice();
    let mut i: usize = 0;
    loop
        invariant
            chars@ == text@,
            i <= chars.len(),
            width > 0,
            with_paragraphs(text_views(lines@), text@, i as int, width as int) == wrapped(
                text@,
                width as int,
            ),
        decreases chars.len() - i,
    {
        let e = newline_stop(chars, i);
        let p = vstd::slice::slice_subrange(chars, i, e);
        wrap_paragraph(&mut lines, p, width);
        if e >= chars.len() {
            return lines;
        }
        i = e + 1;
    }
}

// ---- Laws of wrapping ----

/// No line is longer than `width`.
pub open spec fn all_fit(lines: Seq<Seq<char>>, width: int) -> bool {
    forall|k: int| 0 <= k < lines.len() ==> (#[trigger] lines[k]).len() <= width
}

proof fn lemma_hard_broken_fits(lines: Seq<Seq<char>>, w: Seq<char>, width: int)
    requires
        width > 0,
        all_fit(lines, width),
    ensures
        all_fit(hard_broken(lines, w, width).lines, width),
        hard_broken(lines, w, width).line.len() <= width,
    decreases w.len(),
{
    if w.len() > width {
        lemma_hard_broken_fits(lines.push(w.take(width)), w.skip(width), width);
    }
}

proof fn lemma_with_words_fits(st: WrapV, p: Seq<char>, i: int, width: int)
    requires
        width > 0,
        all_fit(st.lines, width),
        st.line.len() <= width,
    ensures
        all_fit(with_words(st, p, i, width).lines, width),
        with_words(st, p, i, width).line.len() <= width,
    decreases p.len() - i,
{
    if 0 <= i <= p.len() {
        lemma_word_bounds(p, i);
        let b = white_end(p, i);
        if b < p.len() {
            let e = word_end(p, b);
            let w = p.subrange(b, e);
            lemma_hard_broken_fits(st.lines, w, width);
            lemma_hard_broken_fits(st.lines.push(st.line), w, width);
            lemma_with_words_fits(with_word(st, w, width), p, e, width);
        }
    }
}

proof fn lemma_with_paragraphs_fits(lines: Seq<Seq<char>>, t: Seq<char>, i: int, width: int)
    requires
        width > 0,
        all_fit(lines, width),
    ensures
        all_fit(with_paragraphs(lines, t, i, width), width),
    decreases t.len() - i,
{
    if 0 <= i <= t.len() {
        lemma_newline_at(t, i);
        let e = newline_at(t, i);
        lemma_with_words_fits(
            WrapV { lines, line: Seq::empty() },
            t.subrange(i, e),
            0,
            width,
        );
        if e < t.len() {
            lemma_with_paragraphs_fits(
                with_paragraph(lines, t.subrange(i, e), width),
                t,
                e + 1,
                width,
            );
        }
    }
}

/// Every wrapped line fits its width.
pub proof fn wrapped_lines_fit(t: Seq<char>, width: int)
    requires
        width > 0,
    ensures
        all_fit(wrapped(t, width), width),
{
    lemma_with_paragraphs_fits(Seq::empty(), t, 0, width);
}

/// The characters of `s` that are no white space.
pub open spec fn ink(s: Seq<char>) -> Seq<char>
    decreases s.len(),
{
    if s.len() == 0 {
        Seq::empty()
    } else if is_white(s.last()) {
        ink(s.drop_last())
    } else {
        ink(s.drop_last()).push(s.last())
    }
}

/// The characters of all lines that are no white space.
pub open spec fn lines_ink(lines: Seq<Seq<char>>) -> Seq<char>
    decreases lines.len(),
{
    if lines.len() == 0 {
        Seq::empty()
    } else {
        lines_ink(lines.drop_last()) + ink(lines.last())
    }
}

proof fn lemma_ink_of_sum(a: Seq<char>, b: Seq<char>)
    ensures
        ink(a + b) == ink(a) + ink(b),
    decreases b.len(),
{
    if b.len() == 0 {
        assert(a + b =~= a);
        assert(ink(a) + ink(b) =~= ink(a));
    } else {
        lemma_ink_of_sum(a, b.drop_last());
        assert((a + b).drop_last() =~= a + b.drop_last());
        assert(ink(a + b) =~= ink(a) + ink(b));
    }
}

proof fn lemma_ink_of_white(s: Seq<char>)
    requires
        forall|k: int| 0 <= k < s.len() ==> is_white(#[trigger] s[k]),
    ensures
        ink(s) == Seq::<char>::empty(),
    decreases s.len(),
{
    if s.len() > 0 {
        assert(is_white(s[s.len() - 1]));
        assert forall|k: int| 0 <= k < s.drop_last().len() implies is_white(
            #[trigger] s.drop_last()[k],
        ) by {
            assert(is_white(s[k]));
        }
        lemma_ink_of_white(s.drop_last());
    }
}

proof fn lemma_lines_ink_push(lines: Seq<Seq<char>>, line: Seq<char>)
    ensures
        lines_ink(lines.push(line)) == lines_ink(lines) + ink(line),
{
    assert(lines.push(line).drop_last() =~= lines);
}

/// The characters of a wrap in the making that are no white space.
spec fn state_ink(st: WrapV) -> Seq<char> {
    lines_ink(st.lines) + ink(st.line)
}

proof fn lemma_hard_broken_ink(lines: Seq<Seq<char>>, w: Seq<char>, width: int)
    ensures
        state_ink(hard_broken(lines, w, width)) == lines_ink(lines) + ink(w),
    decreases w.len(),
{
    if width > 0 && w.len() > width {
        let head = w.take(width);
        let tail = w.skip(width);
        lemma_hard_broken_ink(lines.push(head), tail, width);
        lemma_lines_ink_push(lines, head);
        assert(w =~= head + tail);
        lemma_ink_of_sum(head, tail);
        assert(lines_ink(lines) + ink(head) + ink(tail) =~= lines_ink(lines) + ink(w));
    }
}

proof fn lemma_with_word_ink(st: WrapV, w: Seq<char>, width: int)
    ensures
        state_ink(with_word(st, w, width)) == state_ink(st) + ink(w),
{
    if st.line.len() > 0 && st.line.len() + 1 + w.len() <= width {
        let spaced = st.line.push(' ');
        lemma_ink_of_sum(spaced, w);
        assert(spaced.drop_last() =~= st.line);
        assert(ink(spaced) == ink(st.line));
        assert(lines_ink(st.lines) + (ink(st.line) + ink(w)) =~= state_ink(st) + ink(w));
    } else if st.line.len() > 0 {
        lemma_hard_broken_ink(st.lines.push(st.line), w, width);
        lemma_lines_ink_push(st.lines, st.line);
    } else {
        lemma_hard_broken_ink(st.lines, w, width);
        assert(ink(st.line) =~= Seq::empty());
        assert(state_ink(st) =~= lines_ink(st.lines));
    }
}

proof fn lemma_with_words_ink(st: WrapV, p: Seq<char>, i: int, width: int)
    requires
        0 <= i <= p.len(),
    ensures
        state_ink(with_words(st, p, i, width)) == state_ink(st) + ink(p.skip(i)),
    decreases p.len() - i,
{
    lemma_word_bounds(p, i);
    let b = white_end(p, i);
    let gap = p.subrange(i, b);
    assert forall|k: int| 0 <= k < gap.len() implies is_white(#[trigger] gap[k]) by {
        assert(gap[k] == p[i + k]);
    }
    lemma_ink_of_white(gap);
    if b < p.len() {
        let e = word_end(p, b);
        let w = p.subrange(b, e);
        lemma_with_word_ink(st, w, width);
        lemma_with_words_ink(with_word(st, w, width), p, e, width);
        assert(p.skip(i) =~= gap + (w + p.skip(e)));
        lemma_ink_of_sum(gap, w + p.skip(e));
        lemma_ink_of_sum(w, p.skip(e));
        assert(Seq::<char>::empty() + (ink(w) + ink(p.skip(e))) =~= ink(w) + ink(p.skip(e)));
        assert(state_ink(st) + ink(w) + ink(p.skip(e)) =~= state_ink(st) + (ink(w) + ink(
            p.skip(e),
        )));
    } else {
        assert(p.skip(i) =~= gap);
        assert(state_ink(st) + Seq::empty() =~= state_ink(st));
    }
}

proof fn lemma_with_paragraphs_ink(lines: Seq<Seq<char>>, t: Seq<char>, i: int, width: int)
    requires
        0 <= i <= t.len(),
    ensures
        lines_ink(with_paragraphs(lines, t, i, width)) == lines_ink(lines) + ink(t.skip(i)),
    decreases t.len() - i,
{
    lemma_newline_at(t, i);
    let e = newline_at(t, i);
    let p = t.subrange(i, e);
    let st0 = WrapV { lines, line: Seq::empty() };
    let st = with_words(st0, p, 0, width);
    lemma_with_words_ink(st0, p, 0, width);
    assert(p.skip(0) =~= p);
    assert(state_ink(st0) =~= lines_ink(lines));
    lemma_lines_ink_push(st.lines, st.line);
    let next = with_paragraph(lines, p, width);
    assert(lines_ink(next) == lines_ink(lines) + ink(p));
    if e < t.len() {
        lemma_with_paragraphs_ink(next, t, e + 1, width);
        let nl = seq!['\n'];
        assert(t.skip(i) =~= p + (nl + t.skip(e + 1)));
        lemma_ink_of_sum(p, nl + t.skip(e + 1));
        lemma_ink_of_sum(nl, t.skip(e + 1));
        lemma_ink_of_white(nl);
        assert(Seq::<char>::empty() + ink(t.skip(e + 1)) =~= ink(t.skip(e + 1)));
        assert(lines_ink(lines) + ink(p) + ink(t.skip(e + 1)) =~= lines_ink(lines) + (ink(p) + ink(
            t.skip(e + 1),
        )));
    } else {
        assert(t.skip(i) =~= p);
    }
}

/// Wrapping loses no text: apart from white space, the lines hold the characters of
/// the text, in order.
pub proof fn wrapping_keeps_the_text(t: Seq<char>, width: int)
    requires
        width >= 0,
    ensures
        lines_ink(wrapped(t, width)) == ink(t),
{
    if width == 0 {
        assert(seq![t] =~= Seq::<Seq<char>>::empty().push(t));
        lemma_lines_ink_push(Seq::empty(), t);
    } else {
        lemma_with_paragraphs_ink(Seq::empty(), t, 0, width);
        assert(t.skip(0) =~= t);
    }
    assert(Seq::<char>::empty() + ink(t) =~= ink(t));
}

// ---- Log lines ----

/// What is left of `a` after `b`, at least 0.
pub open spec fn minus(a: int, b: int) -> int {
    if a >= b {
        a - b
    } else {
        0
    }
}

/// Each of `rows` from `k` on wrapped to `width`, one after the other.
pub open spec fn rewrapped(rows: Seq<Seq<char>>, k: int, width: int) -> Seq<Seq<char>>
    decreases rows.len() - k,
{
    if k < 0 || k >= rows.len() {
        Seq::empty()
    } else {
        wrapped(rows[k], width) + rewrapped(rows, k + 1, width)
    }
}

/// The rows of a message behind a prefix of `prefix_len` columns: the first one
/// takes what the prefix leaves of the width, the others what the indent leaves.
/// Width 0 means one row.
pub open spec fn message_rows(
    message: Seq<char>,
    prefix_len: int,
    indent: int,
    width: int,
) -> Seq<Seq<char>> {
    let first = minus(width, prefix_len);
    let rest = if width > indent {
        width - indent
    } else {
        1
    };
    if width == 0 {
        seq![message]
    } else if first > 0 {
        let rows = wrapped(message, first);
        seq![rows[0]] + rewrapped(rows, 1, rest)
    } else {
        wrapped(message, rest)
    }
}

/// A line as wrapping leaves it: every white space is a blank between two words.
pub open spec fn is_neat(s: Seq<char>) -> bool {
    forall|k: int|
        0 <= k < s.len() && is_white(#[trigger] s[k]) ==> s[k] == ' ' && 0 < k && k + 1 < s.len()
            && !is_white(s[k + 1])
}

/// Every line is neat.
pub open spec fn all_neat(lines: Seq<Seq<char>>) -> bool {
    forall|k: int| 0 <= k < lines.len() ==> is_neat(#[trigger] lines[k])
}

/// True if `s` holds no white space.
spec fn all_ink(s: Seq<char>) -> bool {
    forall|k: int| 0 <= k < s.len() ==> !is_white(#[trigger] s[k])
}

proof fn lemma_word_is_ink(p: Seq<char>, i: int)
    requires
        0 <= i <= p.len(),
    ensures
        i <= word_end(p, i) <= p.len(),
        forall|k: int| i <= k < word_end(p, i) ==> !is_white(#[trigger] p[k]),
        word_end(p, i) < p.len() ==> is_white(p[word_end(p, i)]),
    decreases p.len() - i,
{
    if i < p.len() && !is_white(p[i]) {
        lemma_word_is_ink(p, i + 1);
    }
}

proof fn lemma_hard_broken_neat(lines: Seq<Seq<char>>, w: Seq<char>, width: int)
    requires
        all_neat(lines),
        all_ink(w),
    ensures
        all_neat(hard_broken(lines, w, width).lines),
        is_neat(hard_broken(lines, w, width).line),
    decreases w.len(),
{
    if width > 0 && w.len() > width {
        assert(all_ink(w.take(width)));
        assert(is_neat(w.take(width)));
        assert forall|k: int| 0 <= k < w.skip(width).len() implies !is_white(
            #[trigger] w.skip(width)[k],
        ) by {
            assert(!is_white(w[k + width]));
        }
        lemma_hard_broken_neat(lines.push(w.take(width)), w.skip(width), width);
    }
}

proof fn lemma_with_words_neat(st: WrapV, p: Seq<char>, i: int, width: int)
    requires
        all_neat(st.lines),
        is_neat(st.line),
    ensures
        all_neat(with_words(st, p, i, width).lines),
        is_neat(with_words(st, p, i, width).line),
    decreases p.len() - i,
{
    if 0 <= i <= p.len() {
        lemma_word_bounds(p, i);
        let b = white_end(p, i);
        if b < p.len() {
            let e = word_end(p, b);
            let w = p.subrange(b, e);
            lemma_word_is_ink(p, b);
            assert(all_ink(w));
            lemma_hard_broken_neat(st.lines, w, width);
            lemma_hard_broken_neat(st.lines.push(st.line), w, width);
            let line = st.line.push(' ') + w;
            if st.line.len() > 0 {
                assert forall|k: int|
                    0 <= k < line.len() && is_white(#[trigger] line[k]) implies line[k] == ' ' && 0
                    < k && k + 1 < line.len() && !is_white(line[k + 1]) by {
                    let n = st.line.len() as int;
                    if k < n {
                        assert(is_white(st.line[k]));
                        assert(!is_white(st.line[k + 1]));
                    } else if k > n {
                        assert(!is_white(w[k - n - 1]));
                    } else {
                        assert(!is_white(w[0]));
                    }
                }
            }
            lemma_with_words_neat(with_word(st, w, width), p, e, width);
        }
    }
}

proof fn lemma_with_paragraphs_neat(lines: Seq<Seq<char>>, t: Seq<char>, i: int, width: int)
    requires
        all_neat(lines),
    ensures
        all_neat(with_paragraphs(lines, t, i, width)),
    decreases t.len() - i,
{
    if 0 <= i <= t.len() {
        lemma_newline_at(t, i);
        let e = newline_at(t, i);
        let p = t.subrange(i, e);
        lemma_with_words_neat(WrapV { lines, line: Seq::empty() }, p, 0, width);
        if e < t.len() {
            lemma_with_paragraphs_neat(with_paragraph(lines, p, width), t, e + 1, width);
        }
    }
}

proof fn lemma_neat_words(lines: Seq<Seq<char>>, s: Seq<char>, i: int, width: int)
    requires
        is_neat(s),
        s.len() <= width,
        0 <= i <= s.len(),
        0 < i < s.len() ==> is_white(s[i]),
    ensures
        with_words(WrapV { lines, line: s.take(i) }, s, i, width) == (WrapV { lines, line: s }),
    decreases s.len() - i,
{
    lemma_word_bounds(s, i);
    let b = white_end(s, i);
    if i == s.len() {
        assert(s.take(i) =~= s);
    } else {
        if i == 0 {
            assert(!is_white(s[0]));
            assert(b == 0);
        } else {
            assert(!is_white(s[i + 1]));
            assert(white_end(s, i + 1) == i + 1);
            assert(b == i + 1);
        }
        let e = word_end(s, b);
        lemma_word_is_ink(s, b);
        let w = s.subrange(b, e);
        if i == 0 {
            assert(w =~= s.take(e));
        } else {
            assert(s.take(i).push(' ') + w =~= s.take(e));
        }
        lemma_neat_words(lines, s, e, width);
    }
}

proof fn lemma_no_newline(s: Seq<char>, i: int)
    requires
        is_neat(s),
        0 <= i <= s.len(),
    ensures
        newline_at(s, i) == s.len(),
    decreases s.len() - i,
{
    if i < s.len() {
        if s[i] == '\n' {
            assert(is_white(s[i]));
        }
        lemma_no_newline(s, i + 1);
    }
}

/// Every wrapped line is neat: its words stand one space apart, with no white space
/// before the first one or behind the last one.
pub proof fn wrapped_lines_are_neat(t: Seq<char>, width: int)
    requires
        width > 0,
    ensures
        all_neat(wrapped(t, width)),
{
    lemma_with_paragraphs_neat(Seq::empty(), t, 0, width);
}

/// A neat line that fits is wrapped to itself.
pub proof fn neat_lines_stay(s: Seq<char>, width: int)
    requires
        is_neat(s),
        s.len() <= width,
    ensures
        wrapped(s, width) == seq![s],
{
    if width > 0 {
        let none = Seq::<Seq<char>>::empty();
        lemma_no_newline(s, 0);
        assert(s.subrange(0, s.len() as int) =~= s);
        assert(s.take(0) =~= Seq::empty());
        lemma_neat_words(none, s, 0, width);
        assert(none.push(s) =~= seq![s]);
    }
}

proof fn lemma_rewrapped_neat(rows: Seq<Seq<char>>, k: int, width: int)
    requires
        0 <= k <= rows.len(),
        all_neat(rows),
        all_fit(rows, width),
    ensures
        rewrapped(rows, k, width) == rows.skip(k),
    decreases rows.len() - k,
{
    if k < rows.len() {
        assert(is_neat(rows[k]) && rows[k].len() <= width);
        neat_lines_stay(rows[k], width);
        lemma_rewrapped_neat(rows, k + 1, width);
        assert(seq![rows[k]] + rows.skip(k + 1) =~= rows.skip(k));
    } else {
        assert(rows.skip(k) =~= Seq::empty());
    }
}

/// Wrapping twice to the same width changes nothing.
pub proof fn wrapping_twice_changes_nothing(t: Seq<char>, width: int)
    requires
        width >= 0,
    ensures
        rewrapped(wrapped(t, width), 0, width) == wrapped(t, width),
{
    let rows = wrapped(t, width);
    if width == 0 {
        assert(rewrapped(rows, 1, width) =~= Seq::empty());
        assert(seq![t] + Seq::<Seq<char>>::empty() =~= seq![t]);
    } else {
        wrapped_lines_are_neat(t, width);
        wrapped_lines_fit(t, width);
        lemma_rewrapped_neat(rows, 0, width);
        assert(rows.skip(0) =~= rows);
    }
}

/// One printed row: the first one behind the prefix, the others indented; in color,
/// the prefix is bold.
pub open spec fn printed_row(
    row: Seq<char>,
    first: bool,
    prefix: Seq<char>,
    color: Seq<char>,
    indent: nat,
    use_color: bool,
) -> Seq<char> {
    if first && use_color {
        color + BOLD@ + prefix + RESET@ + color + row + RESET@
    } else if first {
        prefix + row
    } else if use_color {
        repeated(' ', indent) + color + row + RESET@
    } else {
        repeated(' ', indent) + row
    }
}

/// The printed lines of a log message.
pub open spec fn log_lines(
    prefix: Seq<char>,
    message: Seq<char>,
    color: Seq<char>,
    indent: nat,
    width: int,
    use_color: bool,
) -> Seq<Seq<char>> {
    let rows = message_rows(message, prefix.len() as int, indent as int, width);
    Seq::new(
        rows.len(),
        |k: int| printed_row(rows[k], k == 0, prefix, color, indent, use_color),
    )
}

pub proof fn lemma_wrapped_nonempty(t: Seq<char>, width: int)
    requires
        width >= 0,
    ensures
        wrapped(t, width).len() > 0,
{
    if width > 0 {
        lemma_with_paragraphs_grow(Seq::empty(), t, 0, width);
    }
}

proof fn lemma_hard_broken_grows(lines: Seq<Seq<char>>, w: Seq<char>, width: int)
    ensures
        hard_broken(lines, w, width).lines.len() >= lines.len(),
    decreases w.len(),
{
    if width > 0 && w.len() > width {
        lemma_hard_broken_grows(lines.push(w.take(width)), w.skip(width), width);
    }
}

proof fn lemma_with_words_grow(st: WrapV, p: Seq<char>, i: int, width: int)
    ensures
        with_words(st, p, i, width).lines.len() >= st.lines.len(),
    decreases p.len() - i,
{
    if 0 <= i <= p.len() {
        lemma_word_bounds(p, i);
        let b = white_end(p, i);
        if b < p.len() {
            let e = word_end(p, b);
            let w = p.subrange(b, e);
            lemma_hard_broken_grows(st.lines, w, width);
            lemma_hard_broken_grows(st.lines.push(st.line), w, width);
            lemma_with_words_grow(with_word(st, w, width), p, e, width);
        }
    }
}

proof fn lemma_with_paragraphs_grow(lines: Seq<Seq<char>>, t: Seq<char>, i: int, width: int)
    requires
        0 <= i <= t.len(),
    ensures
        with_paragraphs(lines, t, i, width).len() > lines.len(),
    decreases t.len() - i,
{
    lemma_newline_at(t, i);
    let e = newline_at(t, i);
    let p = t.subrange(i, e);
    lemma_with_words_grow(WrapV { lines, line: Seq::empty() }, p, 0, width);
    if e < t.len() {
        lemma_with_paragraphs_grow(with_paragraph(lines, p, width), t, e + 1, width);
    }
}

/// Appends copies of lines.
fn append_lines(out: &mut Vec<String>, lines: Vec<String>)
    ensures
        text_views(final(out)@) == text_views(old(out)@) + text_views(lines@),
{
    let ghost before = text_views(out@);
    let mut lines = lines;
    let ghost more = text_views(lines@);
    out.append(&mut lines);
    assert(text_views(out@) =~= before + more);
}

/// Wraps a message for printing behind a prefix.
fn wrap_message(message: &str, prefix_len: usize, indent: usize, width: usize) -> (r: Vec<String>)
    ensures
        text_views(r@) == message_rows(message@, prefix_len as int, indent as int, width as int),
{
    if width == 0 {
        let mut one: Vec<String> = Vec::new();
        push_line(&mut one, message.to_string());
        assert(text_views(one@) =~= seq![message@]);
        return one;
    }
    let first = width.saturating_sub(prefix_len);
    let rest: usize = if width > indent {
        width - indent
    } else {
        1
    };
    if first == 0 {
        return wrap(message, rest);
    }
    let rows = wrap(message, first);
    let ghost views = text_views(rows@);
    proof {
        lemma_wrapped_nonempty(message@, first as int);
    }
    let mut out: Vec<String> = Vec::new();
    push_line(&mut out, rows[0].as_str().to_string());
    assert(text_views(out@) =~= seq![views[0]]);
    let ghost whole = seq![views[0]] + rewrapped(views, 1, rest as int);
    let mut k: usize = 1;
    while k < rows.len()
        invariant
            1 <= k <= rows.len(),
            rest > 0,
            views == text_views(rows@),
            text_views(out@) + rewrapped(views, k as int, rest as int) == whole,
        decreases rows.len() - k,
    {
        let ghost before = text_views(out@);
        let more = wrap(rows[k].as_str(), rest);
        assert(views[k as int] == rows[k as int]@);
        append_lines(&mut out, more);
        k += 1;
        assert(before + (text_views(more@) + rewrapped(views, k as int, rest as int)) =~= before
            + text_views(more@) + rewrapped(views, k as int, rest as int));
    }
    assert(text_views(out@) + Seq::empty() =~= text_views(out@));
    out
}

fn print_row(
    row: &str,
    first: bool,
    prefix: &str,
    color_code: &str,
    indent: usize,
    use_color: bool,
) -> (r: String)
    ensures
        r@ == printed_row(row@, first, prefix@, color_code@, indent as nat, use_color),
{
    let mut out = String::new();
    if first && use_color {
        out.append(color_code);
        out.append(BOLD);
        out.append(prefix);
        out.append(RESET);
        out.append(color_code);
        out.append(row);
        out.append(RESET);
    } else if first {
        out.append(prefix);
        out.append(row);
    } else {
        push_repeated(&mut out, ' ', indent);
        if use_color {
            out.append(color_code);
            out.append(row);
            out.append(RESET);
        } else {
            out.append(row);
        }
    }
    assert(out@ =~= printed_row(row@, first, prefix@, color_code@, indent as nat, use_color));
    out
}

/// The lines of a colored, wrapped log message. The prefix and message share
/// the level color; subsequent wrapped lines are indented to align under the
/// message. `width == 0` disables wrapping (the line is kept whole), which keeps
/// output grep- and file-friendly. `use_color` controls ANSI emission.
pub fn print_log_line(
    prefix: &str,
    message: &str,
    color_code: &str,
    indent: usize,
    width: usize,
    use_color: bool,
) -> (r: Vec<String>)
    ensures
        text_views(r@) == log_lines(
            prefix@,
            message@,
            color_code@,
            indent as nat,
            width as int,
            use_color,
        ),
{
    let rows = wrap_message(message, prefix.unicode_len(), indent, width);
    let ghost whole = log_lines(
        prefix@,
        message@,
        color_code@,
        indent as nat,
        width as int,
        use_color,
    );
    let ghost views = text_views(rows@);
    let mut out: Vec<String> = Vec::new();
    let mut k: usize = 0;
    assert(text_views(out@) =~= whole.take(0));
    while k < rows.len()
        invariant
            k <= rows.len(),
            views == text_views(rows@),
            whole.len() == rows.len(),
            forall|j: int|
                0 <= j < rows.len() ==> #[trigger] whole[j] == printed_row(
                    views[j],
                    j == 0,
                    prefix@,
                    color_code@,
                    indent as nat,
                    use_color,
                ),
            text_views(out@) == whole.take(k as int),
        decreases rows.len() - k,
    {
        let line = print_row(rows[k].as_str(), k == 0, prefix, color_code, indent, use_color);
        assert(views[k as int] == rows[k as int]@);
        assert(whole[k as int] == line@);
        push_line(&mut out, line);
        k += 1;
        assert(whole.take(k as int) =~= whole.take(k - 1).push(line@));
    }
    assert(whole.take(k as int) =~= whole);
    out
}

proof fn lemma_rewrapped_fits(rows: Seq<Seq<char>>, k: int, width: int)
    requires
        width > 0,
    ensures
        all_fit(rewrapped(rows, k, width), width),
    decreases rows.len() - k,
{
    if 0 <= k < rows.len() {
        wrapped_lines_fit(rows[k], width);
        lemma_rewrapped_fits(rows, k + 1, width);
    }
}

/// A printed line never exceeds the terminal, if prefix and indent leave room: not
/// counting the color codes, no row takes more than `width` columns.
pub proof fn printed_lines_fit_the_terminal(
    prefix: Seq<char>,
    message: Seq<char>,
    color: Seq<char>,
    indent: nat,
    width: int,
)
    requires
        prefix.len() < width,
        indent < width,
    ensures
        all_fit(log_lines(prefix, message, color, indent, width, false), width),
        ({
            let rows = message_rows(message, prefix.len() as int, indent as int, width);
            forall|k: int|
                0 <= k < rows.len() ==> (#[trigger] rows[k]).len() + (if k == 0 {
                    prefix.len()
                } else {
                    indent
                }) <= width
        }),
{
    let first = width - prefix.len();
    let rest = width - indent;
    let rows = wrapped(message, first);
    wrapped_lines_fit(message, first);
    lemma_wrapped_nonempty(message, first);
    lemma_rewrapped_fits(rows, 1, rest);
    let more = rewrapped(rows, 1, rest);
    let all = message_rows(message, prefix.len() as int, indent as int, width);
    assert(all == seq![rows[0]] + more);
    assert forall|k: int| 0 <= k < all.len() implies (#[trigger] all[k]).len() + (if k == 0 {
        prefix.len()
    } else {
        indent
    }) <= width by {
        if k > 0 {
            assert(all[k] == more[k - 1]);
        }
    }
    let lines = log_lines(prefix, message, color, indent, width, false);
    assert forall|k: int| 0 <= k < lines.len() implies (#[trigger] lines[k]).len() <= width by {
        assert(all[k].len() <= width);
    }
}

// ---- Hex dumps ----

/// The first `n` bytes of `chunk` in hexadecimal, with spaces between them.
pub open spec fn hex_bytes(chunk: Seq<u8>, n: int) -> Seq<char>
    decreases n,
{
    if n <= 0 {
        Seq::empty()
    } else if n == 1 {
        hex_padded(chunk[0] as nat, 2)
    } else {
        hex_bytes(chunk, n - 1).push(' ') + hex_padded(chunk[n - 1] as nat, 2)
    }
}

/// A byte as ASCII, a dot where it is not printable.
pub open spec fn ascii_char(b: u8) -> char {
    if 0x20 <= b < 0x7f {
        b as char
    } else {
        '.'
    }
}

/// The sixteen bytes of row `i`, fewer in the last row.
pub open spec fn dump_chunk(bytes: Seq<u8>, i: int) -> Seq<u8> {
    let end = 16 * i + 16;
    bytes.subrange(16 * i, if end <= bytes.len() {
        end
    } else {
        bytes.len() as int
    })
}

/// Row `i` of a dump: offset, hexadecimal and ASCII.
pub open spec fn dump_row(stamp: Seq<char>, bytes: Seq<u8>, i: int) -> Seq<char> {
    let chunk = dump_chunk(bytes, i);
    stamp + hex_padded(((16 * i) as u32) as nat, 8) + "  "@ + padded_end(
        hex_bytes(chunk, chunk.len() as int),
        48,
        ' ',
    ) + "  "@ + Seq::new(chunk.len(), |k: int| ascii_char(chunk[k]))
}

/// A hex + ASCII dump, 16 bytes per row, each row behind `stamp`.
pub open spec fn dump_rows(stamp: Seq<char>, bytes: Seq<u8>) -> Seq<Seq<char>> {
    Seq::new(((bytes.len() + 15) / 16) as nat, |i: int| dump_row(stamp, bytes, i))
}

fn dump_line(stamp: &str, bytes: &[u8], from: usize, to: usize) -> (r: String)
    requires
        from < to <= bytes.len(),
        to - from <= 16,
        from % 16 == 0,
        to == bytes.len() || to == from + 16,
    ensures
        r@ == dump_row(stamp@, bytes@, from as int / 16),
{
    let ghost chunk = dump_chunk(bytes@, from as int / 16);
    assert(chunk =~= bytes@.subrange(from as int, to as int));
    let mut hex = String::new();
    let mut ascii = String::new();
    let mut i: usize = from;
    assert(ascii@ =~= Seq::new(0, |k: int| ascii_char(chunk[k])));
    while i < to
        invariant
            from <= i <= to <= bytes.len(),
            chunk == bytes@.subrange(from as int, to as int),
            hex@ == hex_bytes(chunk, i - from),
            ascii@ == Seq::new((i - from) as nat, |k: int| ascii_char(chunk[k])),
        decreases to - i,
    {
        let b = bytes[i];
        let ghost before = ascii@;
        if i > from {
            hex.push(' ');
        }
        hex.append(hex_string(b as u64, 2).as_str());
        let c = if 0x20 <= b && b < 0x7f {
            b as char
        } else {
            '.'
        };
        ascii.push(c);
        i += 1;
        proof {
            assert(chunk[i - 1 - from] == b);
            if i - from == 1 {
                assert(hex@ =~= hex_padded(chunk[0] as nat, 2));
            }
            assert(ascii@ =~= Seq::new((i - from) as nat, |k: int| ascii_char(chunk[k])));
        }
    }
    let addr = from as u32;
    let mut line = stamp.to_string();
    line.append(hex_string(addr as u64, 8).as_str());
    line.append("  ");
    line.append(pad_end(hex.as_str(), 48, ' ').as_str());
    line.append("  ");
    line.append(ascii.as_str());
    assert(16 * (from as int / 16) == from);
    assert(line@ =~= dump_row(stamp@, bytes@, from as int / 16));
    line
}

/// The rows of a hex + ASCII dump of `bytes`, 16 bytes per row, each behind
/// `stamp`.
pub fn hexdump_lines(stamp: &str, bytes: &[u8]) -> (r: Vec<String>)
    ensures
        text_views(r@) == dump_rows(stamp@, bytes@),
{
    let ghost whole = dump_rows(stamp@, bytes@);
    let mut out: Vec<String> = Vec::new();
    let mut from: usize = 0;
    assert(text_views(out@) =~= whole.take(0));
    while from < bytes.len()
        invariant
            from <= bytes.len(),
            from % 16 == 0 || from == bytes.len(),
            whole == dump_rows(stamp@, bytes@),
            out@.len() == (from + 15) / 16,
            text_views(out@) == whole.take((from + 15) / 16),
        decreases bytes.len() - from,
    {
        let to: usize = if bytes.len() - from > 16 {
            from + 16
        } else {
            bytes.len()
        };
        let line = dump_line(stamp, bytes, from, to);
        let ghost k = from as int / 16;
        assert(k == (from + 15) / 16);
        assert(whole[k] == line@);
        push_line(&mut out, line);
        assert(whole.take(k + 1) =~= whole.take(k).push(line@));
        assert((to + 15) / 16 == k + 1);
        from = to;
    }
    assert(whole.take(whole.len() as int) =~= whole);
    out
}

// ---- Terminal width ----

/// Columns of the terminal: what it reports, else what `COLUMNS` says, else 80.
pub open spec fn width_of(reported: Option<u16>, columns: Option<Seq<char>>) -> nat {
    if reported matches Some(c) && c > 0 {
        reported->0 as nat
    } else {
        match columns {
            Some(s) => match parsed_decimal(s, usize::MAX as nat) {
                Some(c) => if c > 0 {
                    c
                } else {
                    80
                },
                None => 80,
            },
            None => 80,
        }
    }
}

/// Current terminal column count for stdout, or a default if undetectable:
/// `reported` is what the terminal says, `columns` the variable `COLUMNS`.
pub fn terminal_width(reported: Option<u16>, columns: Option<&str>) -> (r: usize)
    ensures
        r == width_of(
            reported,
            match columns {
                Some(s) => Some(s@),
                None => None,
            },
        ),
        r > 0,
{
    if let Some(c) = reported {
        if c > 0 {
            return c as usize;
        }
    }
    if let Some(s) = columns {
        if let Some(c) = parse_usize(s) {
            if c > 0 {
                return c;
            }
        }
    }
    80
}

} // verus!
