//! Laws of terminal output: where text is broken, and what a hex dump shows.

use crate::term::{
    ascii_char, dump_chunk, dump_row, dump_rows, hard_broken, hex_bytes, is_white,
    lemma_newline_at, lemma_word_bounds, newline_at, white_end, with_paragraph, with_paragraphs,
    width_of, with_word, with_words, word_end, wrapped, WrapV,
};
use crate::text::{
    decimal, decimal_value_of_decimal, digits, digits_end, hex_padded, is_digit, padded_end,
    unsigned_part,
};
use vstd::prelude::*;
use vstd::string::*;

verus! {

// ---- Paragraphs ----

proof fn lemma_front_of_broken(pre: Seq<Seq<char>>, lines: Seq<Seq<char>>, w: Seq<char>, width: int)
    ensures
        hard_broken(pre + lines, w, width) == (WrapV {
            lines: pre + hard_broken(lines, w, width).lines,
            line: hard_broken(lines, w, width).line,
        }),
    decreases w.len(),
{
    if width > 0 && w.len() > width {
        let head = w.take(width);
        assert((pre + lines).push(head) =~= pre + lines.push(head));
        lemma_front_of_broken(pre, lines.push(head), w.skip(width), width);
    }
}

proof fn lemma_front_of_words(pre: Seq<Seq<char>>, st: WrapV, p: Seq<char>, i: int, width: int)
    ensures
        with_words(WrapV { lines: pre + st.lines, line: st.line }, p, i, width) == (WrapV {
            lines: pre + with_words(st, p, i, width).lines,
            line: with_words(st, p, i, width).line,
        }),
    decreases p.len() - i,
{
    if 0 <= i <= p.len() {
        lemma_word_bounds(p, i);
        let b = white_end(p, i);
        if b < p.len() {
            let e = word_end(p, b);
            let w = p.subrange(b, e);
            lemma_front_of_broken(pre, st.lines, w, width);
            lemma_front_of_broken(pre, st.lines.push(st.line), w, width);
            assert((pre + st.lines).push(st.line) =~= pre + st.lines.push(st.line));
            lemma_front_of_words(pre, with_word(st, w, width), p, e, width);
        }
    }
}

proof fn lemma_front_of_paragraphs(
    pre: Seq<Seq<char>>,
    lines: Seq<Seq<char>>,
    t: Seq<char>,
    i: int,
    width: int,
)
    ensures
        with_paragraphs(pre + lines, t, i, width) == pre + with_paragraphs(lines, t, i, width),
    decreases t.len() - i,
{
    if 0 <= i <= t.len() {
        lemma_newline_at(t, i);
        let e = newline_at(t, i);
        let p = t.subrange(i, e);
        lemma_front_of_words(pre, WrapV { lines, line: Seq::empty() }, p, 0, width);
        let next = with_paragraph(lines, p, width);
        assert(with_paragraph(pre + lines, p, width) =~= pre + next);
        if e < t.len() {
            lemma_front_of_paragraphs(pre, next, t, e + 1, width);
        }
    }
}

proof fn lemma_skip_newline(t: Seq<char>, n: int, i: int)
    requires
        0 <= n <= t.len(),
        0 <= i <= t.len() - n,
    ensures
        newline_at(t, n + i) == n + newline_at(t.skip(n), i),
    decreases t.len() - n - i,
{
    if i < t.len() - n && t[n + i] != '\n' {
        lemma_skip_newline(t, n, i + 1);
    }
}

proof fn lemma_skip_paragraphs(lines: Seq<Seq<char>>, t: Seq<char>, n: int, i: int, width: int)
    requires
        0 <= n <= t.len(),
        0 <= i <= t.len() - n,
    ensures
        with_paragraphs(lines, t, n + i, width) == with_paragraphs(lines, t.skip(n), i, width),
    decreases t.len() - n - i,
{
    let s = t.skip(n);
    lemma_newline_at(s, i);
    lemma_newline_at(t, n + i);
    lemma_skip_newline(t, n, i);
    let e = newline_at(s, i);
    assert(t.subrange(n + i, n + e) =~= s.subrange(i, e));
    if e < s.len() {
        lemma_skip_paragraphs(
            with_paragraph(lines, s.subrange(i, e), width),
            t,
            n,
            e + 1,
            width,
        );
    }
}

proof fn lemma_newline_behind(t: Seq<char>, i: int, j: int)
    requires
        0 <= i <= j <= t.len(),
        forall|k: int| i <= k < j ==> #[trigger] t[k] != '\n',
        j < t.len() ==> t[j] == '\n',
    ensures
        newline_at(t, i) == j,
    decreases j - i,
{
    if i < j {
        assert(t[i] != '\n');
        lemma_newline_behind(t, i + 1, j);
    }
}

/// Each line of the text is wrapped by itself: a newline ends a row, and the rows of what
/// stands behind it follow.
pub proof fn newlines_end_rows(a: Seq<char>, b: Seq<char>, width: int)
    requires
        !a.contains('\n'),
        width > 0,
    ensures
        wrapped(a.push('\n') + b, width) == wrapped(a, width) + wrapped(b, width),
{
    let t = a.push('\n') + b;
    let n = a.len() as int;
    let none = Seq::<Seq<char>>::empty();
    assert forall|k: int| 0 <= k < n implies #[trigger] t[k] != '\n' by {
        assert(a.contains(a[k]));
    }
    assert forall|k: int| 0 <= k < n implies #[trigger] a[k] != '\n' by {
        assert(a.contains(a[k]));
    }
    lemma_newline_behind(t, 0, n);
    lemma_newline_behind(a, 0, n);
    assert(t.subrange(0, n) =~= a);
    assert(a.subrange(0, n) =~= a);
    let first = with_paragraph(none, a, width);
    lemma_skip_paragraphs(first, t, n + 1, 0, width);
    assert(t.skip(n + 1) =~= b);
    lemma_front_of_paragraphs(first, none, b, 0, width);
    assert(first + none =~= first);
}

// ---- Words ----

/// The words of a text from `i` on: the runs of characters between white space.
pub open spec fn words_from(p: Seq<char>, i: int) -> Seq<Seq<char>>
    decreases p.len() - i,
{
    if i < 0 || i > p.len() {
        Seq::empty()
    } else {
        proof {
            lemma_word_bounds(p, i);
        }
        let b = white_end(p, i);
        let e = word_end(p, b);
        if b >= p.len() {
            Seq::empty()
        } else {
            seq![p.subrange(b, e)] + words_from(p, e)
        }
    }
}

/// Texts joined by blanks.
pub open spec fn joined(list: Seq<Seq<char>>) -> Seq<char>
    decreases list.len(),
{
    if list.len() == 0 {
        Seq::empty()
    } else if list.len() == 1 {
        list[0]
    } else {
        joined(list.drop_last()) + seq![' '] + list.last()
    }
}

/// Texts joined by blanks behind another text.
spec fn joined_behind(front: Seq<char>, list: Seq<Seq<char>>) -> Seq<char>
    decreases list.len(),
{
    if list.len() == 0 {
        front
    } else {
        joined_behind(front, list.drop_last()) + seq![' '] + list.last()
    }
}

proof fn lemma_joined_behind(front: Seq<char>, list: Seq<Seq<char>>)
    ensures
        joined(seq![front] + list) == joined_behind(front, list),
    decreases list.len(),
{
    if list.len() == 0 {
        assert(seq![front] + list =~= seq![front]);
    } else {
        lemma_joined_behind(front, list.drop_last());
        assert((seq![front] + list).drop_last() =~= seq![front] + list.drop_last());
    }
}

proof fn lemma_joined_in_front(front: Seq<char>, x: Seq<char>, list: Seq<Seq<char>>)
    ensures
        joined_behind(front, seq![x] + list) == joined_behind(front + seq![' '] + x, list),
    decreases list.len(),
{
    let all = seq![x] + list;
    if list.len() == 0 {
        assert(all.drop_last() =~= Seq::empty());
        assert(joined_behind(front, all.drop_last()) == front);
    } else {
        lemma_joined_in_front(front, x, list.drop_last());
        assert(all.drop_last() =~= seq![x] + list.drop_last());
    }
}

/// The lines of a state, joined.
spec fn state_text(st: WrapV) -> Seq<char> {
    joined(st.lines.push(st.line))
}

proof fn lemma_words_joined(st: WrapV, p: Seq<char>, i: int, width: int)
    requires
        width > 0,
        0 <= i <= p.len(),
        st.line.len() > 0 || st.lines.len() == 0,
        forall|k: int|
            0 <= k < words_from(p, i).len() ==> (#[trigger] words_from(p, i)[k]).len() <= width,
    ensures
        st.line.len() > 0 ==> state_text(with_words(st, p, i, width)) == joined_behind(
            state_text(st),
            words_from(p, i),
        ),
        st.line.len() == 0 ==> state_text(with_words(st, p, i, width)) == joined(words_from(p, i)),
    decreases p.len() - i,
{
    lemma_word_bounds(p, i);
    let b = white_end(p, i);
    let list = words_from(p, i);
    if b < p.len() {
        let e = word_end(p, b);
        let w = p.subrange(b, e);
        let rest = words_from(p, e);
        assert(list == seq![w] + rest);
        assert(list[0] == w);
        assert forall|k: int| 0 <= k < rest.len() implies (#[trigger] rest[k]).len() <= width by {
            assert(list[k + 1] == rest[k]);
        }
        let next = with_word(st, w, width);
        assert(next.line.len() > 0);
        lemma_words_joined(next, p, e, width);
        let before = st.lines.push(st.line);
        let after = next.lines.push(next.line);
        if st.line.len() == 0 {
            assert(after =~= seq![w]);
            assert(state_text(next) == w);
            lemma_joined_behind(w, rest);
        } else {
            if st.line.len() + 1 + w.len() <= width {
                assert(before.drop_last() =~= st.lines);
                assert(after.drop_last() =~= st.lines);
                if st.lines.len() == 0 {
                    assert(joined(after) =~= joined(before) + seq![' '] + w);
                } else {
                    assert(joined(st.lines) + seq![' '] + (st.line.push(' ') + w) =~= joined(
                        st.lines,
                    ) + seq![' '] + st.line + seq![' '] + w);
                }
            } else {
                assert(next == (WrapV { lines: before, line: w }));
                assert(after.drop_last() =~= before);
            }
            assert(state_text(next) =~= state_text(st) + seq![' '] + w);
            lemma_joined_in_front(state_text(st), w, rest);
        }
    } else {
        assert(list =~= Seq::empty());
        if st.line.len() == 0 {
            assert(st.lines.push(st.line).len() == 1);
            assert(state_text(st) =~= Seq::empty());
        }
    }
}

/// Words that fit are not broken: where every word of a line of text fits the width, its
/// rows, joined by blanks, are its words, joined by blanks.
pub proof fn words_are_kept_whole(t: Seq<char>, width: int)
    requires
        !t.contains('\n'),
        width > 0,
        forall|k: int|
            0 <= k < words_from(t, 0).len() ==> (#[trigger] words_from(t, 0)[k]).len() <= width,
    ensures
        joined(wrapped(t, width)) == joined(words_from(t, 0)),
{
    let n = t.len() as int;
    assert forall|k: int| 0 <= k < n implies #[trigger] t[k] != '\n' by {
        assert(t.contains(t[k]));
    }
    lemma_newline_behind(t, 0, n);
    assert(t.subrange(0, n) =~= t);
    let st = WrapV { lines: Seq::empty(), line: Seq::empty() };
    lemma_words_joined(st, t, 0, width);
}

// ---- Full rows ----

/// True if the first word of each row would not have fit the row before it.
pub open spec fn is_full(rows: Seq<Seq<char>>, width: int) -> bool {
    forall|k: int|
        0 <= k && k + 1 < rows.len() ==> (#[trigger] rows[k]).len() + 1 + word_end(rows[k + 1], 0)
            > width
}

proof fn lemma_word_end_of_ink(w: Seq<char>, i: int)
    requires
        0 <= i <= w.len(),
        forall|k: int| 0 <= k < w.len() ==> !is_white(#[trigger] w[k]),
    ensures
        word_end(w, i) == w.len(),
    decreases w.len() - i,
{
    if i < w.len() {
        lemma_word_end_of_ink(w, i + 1);
    }
}

proof fn lemma_word_end_in_front(a: Seq<char>, b: Seq<char>, i: int)
    requires
        0 <= i <= a.len(),
        b.len() > 0 ==> is_white(b[0]),
    ensures
        word_end(a + b, i) == word_end(a, i),
        i <= word_end(a, i) <= a.len(),
    decreases a.len() - i,
{
    if i < a.len() {
        assert((a + b)[i] == a[i]);
        if !is_white(a[i]) {
            lemma_word_end_in_front(a, b, i + 1);
        }
    } else {
        assert(b.len() > 0 ==> (a + b)[i] == b[0]);
    }
}

proof fn lemma_full_push(rows: Seq<Seq<char>>, row: Seq<char>, width: int)
    requires
        is_full(rows, width),
        rows.len() > 0 ==> rows.last().len() + 1 + word_end(row, 0) > width,
    ensures
        is_full(rows.push(row), width),
{
    let all = rows.push(row);
    assert forall|k: int| 0 <= k && k + 1 < all.len() implies (#[trigger] all[k]).len() + 1
        + word_end(all[k + 1], 0) > width by {
        if k + 1 < rows.len() {
            assert(all[k] == rows[k] && all[k + 1] == rows[k + 1]);
        }
    }
}

proof fn lemma_full_broken(lines: Seq<Seq<char>>, w: Seq<char>, width: int)
    requires
        width > 0,
        is_full(lines, width),
        w.len() > 0,
        forall|k: int| 0 <= k < w.len() ==> !is_white(#[trigger] w[k]),
        lines.len() > 0 ==> lines.last().len() + 1 + w.len() > width,
        lines.len() > 0 ==> lines.last().len() > 0,
    ensures
        ({
            let st = hard_broken(lines, w, width);
            is_full(st.lines.push(st.line), width) && st.line.len() > 0
        }),
    decreases w.len(),
{
    if w.len() > width {
        let head = w.take(width);
        let tail = w.skip(width);
        assert forall|k: int| 0 <= k < head.len() implies !is_white(#[trigger] head[k]) by {
            assert(head[k] == w[k]);
        }
        assert forall|k: int| 0 <= k < tail.len() implies !is_white(#[trigger] tail[k]) by {
            assert(tail[k] == w[width + k]);
        }
        lemma_word_end_of_ink(head, 0);
        lemma_full_push(lines, head, width);
        lemma_full_broken(lines.push(head), tail, width);
    } else {
        lemma_word_end_of_ink(w, 0);
        lemma_full_push(lines, w, width);
    }
}

proof fn lemma_full_words(st: WrapV, p: Seq<char>, i: int, width: int)
    requires
        width > 0,
        0 <= i <= p.len(),
        is_full(st.lines.push(st.line), width),
        st.line.len() > 0 || st.lines.len() == 0,
    ensures
        ({
            let end = with_words(st, p, i, width);
            is_full(end.lines.push(end.line), width)
        }),
    decreases p.len() - i,
{
    lemma_word_bounds(p, i);
    let b = white_end(p, i);
    if b < p.len() {
        let e = word_end(p, b);
        let w = p.subrange(b, e);
        lemma_ink_of_word(p, b);
        let all = st.lines.push(st.line);
        if st.line.len() > 0 && st.line.len() + 1 + w.len() <= width {
            let line = st.line.push(' ') + w;
            let tail = seq![' '] + w;
            assert(line =~= st.line + tail);
            lemma_word_end_in_front(st.line, tail, 0);
            assert(is_full(st.lines, width)) by {
                assert forall|k: int| 0 <= k && k + 1 < st.lines.len() implies (
                #[trigger] st.lines[k]).len() + 1 + word_end(st.lines[k + 1], 0) > width by {
                    assert(all[k] == st.lines[k] && all[k + 1] == st.lines[k + 1]);
                }
            }
            if st.lines.len() > 0 {
                let k = st.lines.len() - 1;
                assert(all[k] == st.lines[k] && all[k + 1] == st.line);
            }
            lemma_full_push(st.lines, line, width);
        } else if st.line.len() > 0 {
            assert(all.last() == st.line);
            lemma_full_broken(all, w, width);
        } else {
            assert(is_full(st.lines, width));
            lemma_full_broken(st.lines, w, width);
        }
        lemma_full_words(with_word(st, w, width), p, e, width);
    }
}

proof fn lemma_ink_of_word(p: Seq<char>, b: int)
    requires
        0 <= b < p.len(),
        b < word_end(p, b) <= p.len(),
    ensures
        ({
            let w = p.subrange(b, word_end(p, b));
            w.len() > 0 && forall|k: int| 0 <= k < w.len() ==> !is_white(#[trigger] w[k])
        }),
{
    lemma_ink_up_to(p, b, word_end(p, b));
}

proof fn lemma_ink_up_to(p: Seq<char>, i: int, e: int)
    requires
        0 <= i <= e <= p.len(),
        e == word_end(p, i),
    ensures
        forall|k: int| i <= k < e ==> !is_white(#[trigger] p[k]),
    decreases e - i,
{
    if i < e {
        lemma_ink_up_to(p, i + 1, e);
    }
}

/// No row is broken early: the first word of each row of a line of text would not have
/// fit the row before it.
pub proof fn rows_are_full(t: Seq<char>, width: int)
    requires
        !t.contains('\n'),
        width > 0,
    ensures
        is_full(wrapped(t, width), width),
{
    let n = t.len() as int;
    assert forall|k: int| 0 <= k < n implies #[trigger] t[k] != '\n' by {
        assert(t.contains(t[k]));
    }
    lemma_newline_behind(t, 0, n);
    assert(t.subrange(0, n) =~= t);
    let st = WrapV { lines: Seq::empty(), line: Seq::empty() };
    lemma_full_words(st, t, 0, width);
}

proof fn lemma_one_word(w: Seq<char>, width: int)
    requires
        width > 0,
        w.len() > 0,
        forall|k: int| 0 <= k < w.len() ==> !is_white(#[trigger] w[k]),
    ensures
        wrapped(w, width) == hard_broken(Seq::empty(), w, width).lines.push(
            hard_broken(Seq::empty(), w, width).line,
        ),
{
    let n = w.len() as int;
    assert forall|k: int| 0 <= k < n implies #[trigger] w[k] != '\n' by {
        assert(!is_white(w[k]));
    }
    lemma_newline_behind(w, 0, n);
    assert(w.subrange(0, n) =~= w);
    lemma_word_end_of_ink(w, 0);
    assert(!is_white(w[0]));
    assert(white_end(w, 0) == 0);
    let none = WrapV { lines: Seq::empty(), line: Seq::empty() };
    let st = with_word(none, w, width);
    assert(with_words(st, w, n, width) == st);
}

/// A word that is too long is cut where the row is full: its first row holds as many of
/// its characters as fit, and the rest follows.
pub proof fn long_words_are_cut_at_the_width(w: Seq<char>, width: int)
    requires
        0 < width < w.len(),
        forall|k: int| 0 <= k < w.len() ==> !is_white(#[trigger] w[k]),
    ensures
        wrapped(w, width) == seq![w.take(width)] + wrapped(w.skip(width), width),
{
    let tail = w.skip(width);
    assert forall|k: int| 0 <= k < tail.len() implies !is_white(#[trigger] tail[k]) by {
        assert(tail[k] == w[width + k]);
    }
    let none = Seq::<Seq<char>>::empty();
    let first = none.push(w.take(width));
    lemma_one_word(w, width);
    lemma_one_word(tail, width);
    lemma_front_of_broken(first, none, tail, width);
    assert(first + none =~= first);
    assert(first =~= seq![w.take(width)]);
    let st = hard_broken(none, tail, width);
    assert((first + st.lines).push(st.line) =~= first + st.lines.push(st.line));
}

/// White space is what Unicode calls so.
pub proof fn white_space_is_that_of_unicode(c: char)
    ensures
        is_white(c) <==> {
            let v = c as u32;
            ||| 9 <= v <= 13
            ||| v == 0x20 || v == 0x85 || v == 0xa0 || v == 0x1680
            ||| 0x2000 <= v <= 0x200a
            ||| v == 0x2028 || v == 0x2029 || v == 0x202f || v == 0x205f || v == 0x3000
        },
{
}

// ---- Hex dumps ----

/// The hexadecimal digit of a number below sixteen.
pub open spec fn nibble(d: int) -> char {
    if d < 10 {
        (0x30 + d) as char
    } else {
        (0x61 + d - 10) as char
    }
}

proof fn lemma_two_digits(b: u8)
    ensures
        hex_padded(b as nat, 2) == seq![nibble(b as int / 16), nibble(b as int % 16)],
{
    let v = b as nat;
    reveal_with_fuel(digits, 3);
    if v < 16 {
        assert(digits(v, 16, false) == seq![nibble(v as int)]);
        assert(hex_padded(v, 2) =~= seq![nibble(0), nibble(v as int)]);
    } else {
        assert(v / 16 < 16);
        assert(digits(v / 16, 16, false) == seq![nibble(v as int / 16)]);
        assert(hex_padded(v, 2) =~= seq![nibble(v as int / 16), nibble(v as int % 16)]);
    }
}

proof fn lemma_hex_bytes(chunk: Seq<u8>, n: int)
    requires
        0 < n <= chunk.len(),
    ensures
        hex_bytes(chunk, n).len() == 3 * n - 1,
        forall|k: int|
            0 <= k < n ==> {
                let b = #[trigger] chunk[k] as int;
                &&& hex_bytes(chunk, n)[3 * k] == nibble(b / 16)
                &&& hex_bytes(chunk, n)[3 * k + 1] == nibble(b % 16)
                &&& k + 1 < n ==> hex_bytes(chunk, n)[3 * k + 2] == ' '
            },
    decreases n,
{
    lemma_two_digits(chunk[n - 1]);
    if n > 1 {
        lemma_hex_bytes(chunk, n - 1);
        let front = hex_bytes(chunk, n - 1);
        let all = hex_bytes(chunk, n);
        assert forall|k: int| 0 <= k < n implies {
            let b = #[trigger] chunk[k] as int;
            &&& all[3 * k] == nibble(b / 16)
            &&& all[3 * k + 1] == nibble(b % 16)
            &&& k + 1 < n ==> all[3 * k + 2] == ' '
        } by {
            if k < n - 1 {
                assert(all[3 * k] == front[3 * k]);
                assert(all[3 * k + 1] == front[3 * k + 1]);
                if k + 1 < n - 1 {
                    assert(all[3 * k + 2] == front[3 * k + 2]);
                }
            }
        }
    }
}

/// A dump shows every byte in its place: sixteen bytes to a row, each row behind the
/// offset of its first byte, each byte as two hexadecimal digits in columns of three, and
/// as a character behind them if it is a printable one of ASCII, else as a dot.
pub proof fn dump_shows_every_byte(stamp: Seq<char>, bytes: Seq<u8>, j: int)
    requires
        0 <= j < bytes.len(),
        bytes.len() <= u32::MAX,
    ensures
        ({
            let rows = dump_rows(stamp, bytes);
            let row = rows[j / 16];
            let at = stamp.len() as int;
            let k = j % 16;
            let b = bytes[j] as int;
            &&& rows.len() == (bytes.len() + 15) / 16
            &&& row.take(at) == stamp
            &&& row.subrange(at, at + 8) == hex_padded((j - k) as nat, 8)
            &&& row[at + 8] == ' ' && row[at + 9] == ' '
            &&& row[at + 10 + 3 * k] == nibble(b / 16)
            &&& row[at + 11 + 3 * k] == nibble(b % 16)
            &&& row[at + 12 + 3 * k] == ' '
            &&& row[at + 60 + k] == (if 0x20 <= b < 0x7f {
                b as char
            } else {
                '.'
            })
            &&& row.len() == at + 60 + (if bytes.len() - (j - k) < 16 {
                bytes.len() - (j - k)
            } else {
                16
            })
        }),
{
    let rows = dump_rows(stamp, bytes);
    let i = j / 16;
    let k = j % 16;
    let chunk = dump_chunk(bytes, i);
    let n = chunk.len() as int;
    let row = dump_row(stamp, bytes, i);
    assert(rows[i] == row);
    assert(chunk[k] == bytes[j]);
    lemma_hex_bytes(chunk, n);
    let off = hex_padded(((16 * i) as u32) as nat, 8);
    lemma_eight_digits((16 * i) as u32);
    let hex = padded_end(hex_bytes(chunk, n), 48, ' ');
    let ascii = Seq::new(chunk.len(), |m: int| ascii_char(chunk[m]));
    reveal_strlit("  ");
    let at = stamp.len() as int;
    assert(hex.len() == 48);
    assert(row == stamp + off + "  "@ + hex + "  "@ + ascii);
    assert(row.take(at) =~= stamp);
    assert(row.subrange(at, at + 8) =~= off);
    assert(row[at + 10 + 3 * k] == hex[3 * k]);
    assert(row[at + 11 + 3 * k] == hex[3 * k + 1]);
    if k < 15 {
        assert(row[at + 12 + 3 * k] == hex[3 * k + 2]);
        assert(hex[3 * k + 2] == ' ');
    } else {
        assert(hex[47] == ' ');
        assert(row[at + 57] == hex[47]);
    }
    assert(row[at + 60 + k] == ascii[k]);
    assert(ascii[k] == ascii_char(chunk[k]));
}

proof fn lemma_eight_digits(v: u32)
    ensures
        hex_padded(v as nat, 8).len() == 8,
{
    reveal_with_fuel(sixteens, 9);
    lemma_few_digits(v as nat, 8);
}

proof fn lemma_few_digits(v: nat, n: nat)
    requires
        n > 0,
        v < sixteens(n),
    ensures
        digits(v, 16, false).len() <= n,
    decreases n,
{
    if v >= 16 {
        assert(n > 1) by {
            if n == 1 {
                assert(sixteens(1) == 16 * sixteens(0));
            }
        }
        lemma_few_digits(v / 16, (n - 1) as nat);
    }
}

spec fn sixteens(n: nat) -> nat
    decreases n,
{
    if n == 0 {
        1
    } else {
        16 * sixteens((n - 1) as nat)
    }
}

// ---- Terminal width ----

proof fn lemma_all_digits_end(d: Seq<char>, i: int)
    requires
        0 <= i <= d.len(),
        forall|k: int| 0 <= k < d.len() ==> is_digit(#[trigger] d[k]),
    ensures
        digits_end(d, i) == d.len(),
    decreases d.len() - i,
{
    if i < d.len() {
        lemma_all_digits_end(d, i + 1);
    }
}

/// The width of the terminal is what it reports, if that is not zero; else the number
/// that the variable holds, if that is not zero; else 80.
pub proof fn terminal_width_is_the_first_that_is_known(c: u16, n: nat, columns: Option<Seq<char>>)
    requires
        n <= usize::MAX,
    ensures
        c > 0 ==> width_of(Some(c), columns) == c,
        c == 0 ==> width_of(Some(c), columns) == width_of(None, columns),
        n > 0 ==> width_of(None, Some(decimal(n))) == n,
        n == 0 ==> width_of(None, Some(decimal(n))) == 80,
        width_of(None, None) == 80,
        width_of(None, Some(Seq::empty())) == 80,
{
    let d = decimal(n);
    decimal_value_of_decimal(n);
    lemma_all_digits_end(d, 0);
    assert(d.len() > 0);
    assert(is_digit(d[0]));
    assert(unsigned_part(d) == d);
    assert(unsigned_part(Seq::empty()) =~= Seq::empty());
}

/// In the last row of a dump, blanks stand in the columns of the bytes that it has not.
pub proof fn missing_bytes_of_a_dump_are_blank(stamp: Seq<char>, bytes: Seq<u8>, c: int)
    requires
        0 < bytes.len() <= u32::MAX,
        3 * ((bytes.len() - 1) % 16 + 1) - 1 <= c < 50,
    ensures
        ({
            let row = dump_rows(stamp, bytes).last();
            row[stamp.len() + 10 + c] == ' '
        }),
{
    let rows = dump_rows(stamp, bytes);
    let i = rows.len() - 1;
    let chunk = dump_chunk(bytes, i);
    let n = chunk.len() as int;
    assert(n == (bytes.len() - 1) % 16 + 1);
    let row = dump_row(stamp, bytes, i);
    assert(rows.last() == row);
    lemma_hex_bytes(chunk, n);
    let off = hex_padded(((16 * i) as u32) as nat, 8);
    lemma_eight_digits((16 * i) as u32);
    let hex = padded_end(hex_bytes(chunk, n), 48, ' ');
    let ascii = Seq::new(chunk.len(), |m: int| ascii_char(chunk[m]));
    reveal_strlit("  ");
    assert(row == stamp + off + "  "@ + hex + "  "@ + ascii);
    if c < 48 {
        assert(row[stamp.len() + 10 + c] == hex[c]);
    }
}

} // verus!
