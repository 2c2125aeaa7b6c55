//! Plain text of the device: timestamps at line starts, and removal of ANSI escape
//! sequences. Both work on a stream, in chunks of any size.

use crate::utf8::{lossy_text, lossy_utf8};
use vstd::prelude::*;
use vstd::string::*;
use vstd::utf8::{encode_utf8, encode_utf8_decode_utf8, encode_utf8_valid_utf8};

verus! {

/// State machine for the streaming ANSI escape sequence parser.
///
/// Transitions: `Ground` -> (`0x1b`) -> `Escape` -> (`[`) -> `Csi` -> (final
/// byte 0x40-0x7e) -> `Ground`.
#[derive(Clone, Copy, Debug, Eq, PartialEq, Structural)]
pub enum AnsiStripState {
    /// Normal character output; no escape sequence in progress.
    Ground,
    /// Saw `0x1b` (ESC); waiting for the next byte to determine the sequence.
    Escape,
    /// Saw `[` after ESC; accumulating CSI parameters until the final byte.
    Csi,
}

/// The state after one byte.
pub open spec fn ansi_step(s: AnsiStripState, b: u8) -> AnsiStripState {
    match s {
        AnsiStripState::Ground => if b == 0x1b {
            AnsiStripState::Escape
        } else {
            AnsiStripState::Ground
        },
        AnsiStripState::Escape => if b == 0x5b {
            AnsiStripState::Csi
        } else {
            AnsiStripState::Ground
        },
        AnsiStripState::Csi => if 0x40 <= b <= 0x7e {
            AnsiStripState::Ground
        } else {
            AnsiStripState::Csi
        },
    }
}

/// The state after some bytes.
pub open spec fn ansi_after(s: AnsiStripState, bytes: Seq<u8>) -> AnsiStripState
    decreases bytes.len(),
{
    if bytes.len() == 0 {
        s
    } else {
        ansi_step(ansi_after(s, bytes.drop_last()), bytes.last())
    }
}

/// The bytes that belong to no escape sequence.
pub open spec fn stripped(s: AnsiStripState, bytes: Seq<u8>) -> Seq<u8>
    decreases bytes.len(),
{
    if bytes.len() == 0 {
        Seq::empty()
    } else {
        let front = stripped(s, bytes.drop_last());
        if ansi_after(s, bytes.drop_last()) == AnsiStripState::Ground && bytes.last() != 0x1b {
            front.push(bytes.last())
        } else {
            front
        }
    }
}

/// Streaming ANSI escape sequence remover. `state` tracks whether we are
/// inside an escape sequence across calls so that split sequences (spanning
/// multiple chunks) are handled correctly.
pub fn strip_ansi_stream(bytes: &[u8], state: &mut AnsiStripState) -> (r: Vec<u8>)
    ensures
        r@ == stripped(*old(state), bytes@),
        *final(state) == ansi_after(*old(state), bytes@),
{
    let ghost start = *state;
    let mut out: Vec<u8> = Vec::new();
    let mut i: usize = 0;
    while i < bytes.len()
        invariant
            i <= bytes.len(),
            out@ == stripped(start, bytes@.take(i as int)),
            *state == ansi_after(start, bytes@.take(i as int)),
        decreases bytes.len() - i,
    {
        let b = bytes[i];
        proof {
            assert(bytes@.take(i + 1).drop_last() =~= bytes@.take(i as int));
        }
        match *state {
            AnsiStripState::Ground => {
                if b == 0x1b {
                    *state = AnsiStripState::Escape;
                } else {
                    out.push(b);
                }
            },
            AnsiStripState::Escape => {
                if b == 0x5b {
                    *state = AnsiStripState::Csi;
                } else {
                    *state = AnsiStripState::Ground;
                }
            },
            AnsiStripState::Csi => {
                if 0x40 <= b && b <= 0x7e {
                    *state = AnsiStripState::Ground;
                }
            },
        }
        i += 1;
    }
    assert(bytes@.take(i as int) =~= bytes@);
    out
}

/// Remove ANSI escape sequences from `bytes` in a single pass.
pub fn strip_ansi_bytes(bytes: &[u8]) -> (r: Vec<u8>)
    ensures
        r@ == stripped(AnsiStripState::Ground, bytes@),
{
    let mut state = AnsiStripState::Ground;
    strip_ansi_stream(bytes, &mut state)
}

/// A text without its escape sequences, where asked for.
pub open spec fn cleaned(s: Seq<char>, strip: bool) -> Seq<char> {
    if strip {
        lossy_utf8(stripped(AnsiStripState::Ground, encode_utf8(s)))
    } else {
        s
    }
}

/// Conditionally strip ANSI escape sequences from a string. Returns the
/// original string (copied) when `strip_ansi` is false.
pub fn clean_string(s: &str, strip_ansi: bool) -> (r: String)
    ensures
        r@ == cleaned(s@, strip_ansi),
        !encode_utf8(s@).contains(0x1b) ==> r@ == s@,
{
    if !strip_ansi {
        return s.to_string();
    }
    proof {
        if !encode_utf8(s@).contains(0x1b) {
            stripping_keeps_plain_text(encode_utf8(s@));
            encode_utf8_valid_utf8(s@);
            encode_utf8_decode_utf8(s@);
        }
    }
    lossy_text(strip_ansi_bytes(s.as_bytes()).as_slice())
}

/// Tracks plain-text output position for inserting timestamps at line starts
/// and for stripping ANSI escape sequences.
#[derive(Clone, Copy, Debug, Eq, PartialEq, Structural)]
pub struct PlainTextState {
    /// Whether the next byte to be written is at the start of a fresh line.
    pub line_start: bool,
    /// Current state of the streaming ANSI escape sequence parser.
    pub ansi: AnsiStripState,
}

/// The state at the start of a line, outside any escape sequence.
pub open spec fn fresh() -> PlainTextState {
    PlainTextState { line_start: true, ansi: AnsiStripState::Ground }
}

impl PlainTextState {
    /// Create a new state positioned at the start of a line with the ANSI
    /// parser in the ground state.
    pub fn new() -> (r: Self)
        ensures
            r == fresh(),
    {
        PlainTextState { line_start: true, ansi: AnsiStripState::Ground }
    }

    /// Reset to line-start with ground ANSI state (called after a formatted
    /// on9log packet is rendered).
    pub fn reset_line(&mut self)
        ensures
            *final(self) == fresh(),
    {
        self.line_start = true;
        self.ansi = AnsiStripState::Ground;
    }
}

/// Whether the byte behind `bytes` starts a line. A timestamp counts as the start
/// of the line it stands on; without timestamps the mark stays until a newline.
pub open spec fn line_start_after(at_start: bool, bytes: Seq<u8>, stamping: bool) -> bool
    decreases bytes.len(),
{
    if bytes.len() == 0 {
        at_start
    } else if bytes.last() == 0x0a {
        true
    } else {
        !stamping && line_start_after(at_start, bytes.drop_last(), stamping)
    }
}

/// `bytes` with `stamp` in front of each line that starts in it.
pub open spec fn stamped(at_start: bool, bytes: Seq<u8>, stamping: bool, stamp: Seq<u8>) -> Seq<u8>
    decreases bytes.len(),
{
    if bytes.len() == 0 {
        Seq::empty()
    } else {
        let front = stamped(at_start, bytes.drop_last(), stamping, stamp);
        if stamping && line_start_after(at_start, bytes.drop_last(), stamping) {
            front + stamp + seq![bytes.last()]
        } else {
            front.push(bytes.last())
        }
    }
}

/// What is written for `bytes`.
pub open spec fn plain_bytes(
    st: PlainTextState,
    bytes: Seq<u8>,
    stamping: bool,
    stamp: Seq<u8>,
    strip: bool,
) -> Seq<u8> {
    let text = if strip {
        stripped(st.ansi, bytes)
    } else {
        bytes
    };
    stamped(st.line_start, text, stamping, stamp)
}

/// The state after `bytes`.
pub open spec fn plain_after(
    st: PlainTextState,
    bytes: Seq<u8>,
    stamping: bool,
    strip: bool,
) -> PlainTextState {
    PlainTextState {
        line_start: line_start_after(
            st.line_start,
            if strip {
                stripped(st.ansi, bytes)
            } else {
                bytes
            },
            stamping,
        ),
        ansi: if strip {
            ansi_after(st.ansi, bytes)
        } else {
            st.ansi
        },
    }
}

/// Appends `bytes`, inserting `stamp` at each line start.
fn stamp_lines(
    out: &mut Vec<u8>,
    bytes: &[u8],
    timestamp: bool,
    stamp: &[u8],
    at_start: bool,
) -> (r: bool)
    ensures
        final(out)@ == old(out)@ + stamped(at_start, bytes@, timestamp, stamp@),
        r == line_start_after(at_start, bytes@, timestamp),
{
    let ghost before = out@;
    let mut line_start = at_start;
    let mut i: usize = 0;
    assert(out@ =~= before + stamped(at_start, bytes@.take(0), timestamp, stamp@));
    while i < bytes.len()
        invariant
            i <= bytes.len(),
            out@ == before + stamped(at_start, bytes@.take(i as int), timestamp, stamp@),
            line_start == line_start_after(at_start, bytes@.take(i as int), timestamp),
        decreases bytes.len() - i,
    {
        let b = bytes[i];
        let ghost front = stamped(at_start, bytes@.take(i as int), timestamp, stamp@);
        proof {
            assert(bytes@.take(i + 1).drop_last() =~= bytes@.take(i as int));
        }
        if timestamp && line_start {
            out.extend_from_slice(stamp);
            assert(out@ =~= before + front + stamp@);
            line_start = false;
        }
        let ghost mid = out@;
        out.push(b);
        if b == 0x0a {
            line_start = true;
        }
        i += 1;
        proof {
            if mid =~= before + front + stamp@ {
                assert(out@ =~= before + (front + stamp@ + seq![b]));
            }
            assert(out@ =~= before + stamped(at_start, bytes@.take(i as int), timestamp, stamp@));
        }
    }
    assert(bytes@.take(i as int) =~= bytes@);
    line_start
}

/// Write raw plain-text bytes to the output, optionally inserting a timestamp
/// at each line start and optionally stripping ANSI escape sequences. Tracks
/// the line-start state across calls so that chunked input (e.g. from fragmented
/// SLIP frames) is timestamped correctly.
pub fn write_plain_text(
    out: &mut Vec<u8>,
    bytes: &[u8],
    timestamp: bool,
    stamp: &str,
    strip_ansi: bool,
    state: &mut PlainTextState,
)
    ensures
        final(out)@ == old(out)@ + plain_bytes(
            *old(state),
            bytes@,
            timestamp,
            encode_utf8(stamp@),
            strip_ansi,
        ),
        *final(state) == plain_after(*old(state), bytes@, timestamp, strip_ansi),
{
    if strip_ansi {
        let mut ansi = state.ansi;
        let clean = strip_ansi_stream(bytes, &mut ansi);
        state.ansi = ansi;
        state.line_start =
        stamp_lines(out, clean.as_slice(), timestamp, stamp.as_bytes(), state.line_start);
    } else {
        state.line_start =
        stamp_lines(out, bytes, timestamp, stamp.as_bytes(), state.line_start);
    }
}

/// Write a single annotation line (e.g. a crash backtrace marker) to the
/// output, prefixed with `stamp` and always terminated by a newline.
pub fn write_plain_annotation(out: &mut Vec<u8>, line: &str, stamp: &str)
    ensures
        final(out)@ == old(out)@ + encode_utf8(stamp@) + encode_utf8(line@) + seq![0x0au8],
{
    let ghost before = out@;
    out.extend_from_slice(stamp.as_bytes());
    assert(out@ =~= before + encode_utf8(stamp@));
    out.extend_from_slice(line.as_bytes());
    assert(out@ =~= before + encode_utf8(stamp@) + encode_utf8(line@));
    out.push(0x0a);
    assert(out@ =~= before + encode_utf8(stamp@) + encode_utf8(line@) + seq![0x0au8]);
}

/// `[stamp] `, or nothing.
pub open spec fn stamp_text(enabled: bool, stamp: Seq<char>) -> Seq<char> {
    if enabled {
        "["@ + stamp + "] "@
    } else {
        Seq::empty()
    }
}

/// Return the timestamp prefix string `[YYYYMMDD-HH:MM:SS.mmm] ` if `enabled`
/// is true, otherwise an empty string.
pub fn ts_prefix(enabled: bool, stamp: &str) -> (r: String)
    ensures
        r@ == stamp_text(enabled, stamp@),
{
    if !enabled {
        return String::new();
    }
    let mut s = "[".to_string();
    s.append(stamp);
    s.append("] ");
    s
}

// ---- Laws ----

/// Stripping a stream chunk by chunk is stripping it at once.
pub proof fn stripping_ignores_chunks(s: AnsiStripState, a: Seq<u8>, b: Seq<u8>)
    ensures
        ansi_after(s, a + b) == ansi_after(ansi_after(s, a), b),
        stripped(s, a + b) == stripped(s, a) + stripped(ansi_after(s, a), b),
    decreases b.len(),
{
    if b.len() == 0 {
        assert(a + b =~= a);
        assert(stripped(s, a) + Seq::empty() =~= stripped(s, a));
    } else {
        stripping_ignores_chunks(s, a, b.drop_last());
        assert((a + b).drop_last() =~= a + b.drop_last());
        assert(stripped(s, a + b) =~= stripped(s, a) + stripped(ansi_after(s, a), b));
    }
}

/// No escape byte is left.
pub proof fn stripping_removes_escapes(s: AnsiStripState, bytes: Seq<u8>)
    ensures
        !stripped(s, bytes).contains(0x1b),
    decreases bytes.len(),
{
    if bytes.len() > 0 {
        stripping_removes_escapes(s, bytes.drop_last());
        let front = stripped(s, bytes.drop_last());
        assert forall|k: int| 0 <= k < stripped(s, bytes).len() implies stripped(s, bytes)[k]
            != 0x1b by {
            if k < front.len() {
                assert(front.contains(front[k]));
            }
        }
    }
}

/// Text without escape bytes is left as it is.
pub proof fn stripping_keeps_plain_text(bytes: Seq<u8>)
    requires
        !bytes.contains(0x1b),
    ensures
        stripped(AnsiStripState::Ground, bytes) == bytes,
        ansi_after(AnsiStripState::Ground, bytes) == AnsiStripState::Ground,
    decreases bytes.len(),
{
    if bytes.len() > 0 {
        assert(bytes.contains(bytes.last()));
        assert forall|k: int| 0 <= k < bytes.drop_last().len() implies bytes.drop_last()[k]
            != 0x1b by {
            assert(bytes.contains(bytes[k]));
        }
        stripping_keeps_plain_text(bytes.drop_last());
        assert(bytes =~= bytes.drop_last().push(bytes.last()));
    }
}

/// Stripping what was stripped changes nothing.
pub proof fn stripping_is_idempotent(bytes: Seq<u8>)
    ensures
        stripped(AnsiStripState::Ground, stripped(AnsiStripState::Ground, bytes)) == stripped(
            AnsiStripState::Ground,
            bytes,
        ),
{
    stripping_removes_escapes(AnsiStripState::Ground, bytes);
    stripping_keeps_plain_text(stripped(AnsiStripState::Ground, bytes));
}

proof fn lemma_stamping_ignores_chunks(
    at_start: bool,
    a: Seq<u8>,
    b: Seq<u8>,
    stamping: bool,
    stamp: Seq<u8>,
)
    ensures
        line_start_after(at_start, a + b, stamping) == line_start_after(
            line_start_after(at_start, a, stamping),
            b,
            stamping,
        ),
        stamped(at_start, a + b, stamping, stamp) == stamped(at_start, a, stamping, stamp)
            + stamped(line_start_after(at_start, a, stamping), b, stamping, stamp),
    decreases b.len(),
{
    if b.len() == 0 {
        assert(a + b =~= a);
        assert(stamped(at_start, a, stamping, stamp) + Seq::empty() =~= stamped(
            at_start,
            a,
            stamping,
            stamp,
        ));
    } else {
        lemma_stamping_ignores_chunks(at_start, a, b.drop_last(), stamping, stamp);
        assert((a + b).drop_last() =~= a + b.drop_last());
        assert(stamped(at_start, a + b, stamping, stamp) =~= stamped(at_start, a, stamping, stamp)
            + stamped(line_start_after(at_start, a, stamping), b, stamping, stamp));
    }
}

/// Writing a stream chunk by chunk, all under one timestamp, is writing it at once.
pub proof fn plain_text_ignores_chunks(
    st: PlainTextState,
    a: Seq<u8>,
    b: Seq<u8>,
    stamping: bool,
    stamp: Seq<u8>,
    strip: bool,
)
    ensures
        plain_after(st, a + b, stamping, strip) == plain_after(
            plain_after(st, a, stamping, strip),
            b,
            stamping,
            strip,
        ),
        plain_bytes(st, a + b, stamping, stamp, strip) == plain_bytes(st, a, stamping, stamp, strip)
            + plain_bytes(plain_after(st, a, stamping, strip), b, stamping, stamp, strip),
{
    if strip {
        stripping_ignores_chunks(st.ansi, a, b);
        lemma_stamping_ignores_chunks(
            st.line_start,
            stripped(st.ansi, a),
            stripped(ansi_after(st.ansi, a), b),
            stamping,
            stamp,
        );
    } else {
        lemma_stamping_ignores_chunks(st.line_start, a, b, stamping, stamp);
    }
}

/// Without timestamps and stripping, the bytes of the device are passed on as they
/// are.
pub proof fn plain_text_passes_unchanged(st: PlainTextState, bytes: Seq<u8>, stamp: Seq<u8>)
    ensures
        plain_bytes(st, bytes, false, stamp, false) == bytes,
    decreases bytes.len(),
{
    if bytes.len() > 0 {
        plain_text_passes_unchanged(st, bytes.drop_last(), stamp);
        assert(bytes =~= bytes.drop_last().push(bytes.last()));
    }
}

proof fn lemma_stamped_inside(at_start: bool, line: Seq<u8>, stamp: Seq<u8>)
    requires
        !line.contains(0x0a),
    ensures
        stamped(at_start, line, true, stamp) == (if at_start && line.len() > 0 {
            stamp + line
        } else {
            line
        }),
        line_start_after(at_start, line, true) == (at_start && line.len() == 0),
    decreases line.len(),
{
    if line.len() > 0 {
        let front = line.drop_last();
        assert forall|k: int| 0 <= k < front.len() implies front[k] != 0x0a by {
            assert(line.contains(line[k]));
        }
        assert(line.contains(line.last()));
        lemma_stamped_inside(at_start, front, stamp);
        assert(front.push(line.last()) =~= line);
        if at_start {
            if front.len() == 0 {
                assert(Seq::<u8>::empty() + stamp + seq![line.last()] =~= stamp + line);
            } else {
                assert((stamp + front).push(line.last()) =~= stamp + line);
            }
        }
    }
}

/// A timestamp stands in front of each line, and nowhere else: a line that starts here is
/// written behind it, the rest of a line that started earlier is written as it is, and
/// behind the newline a line starts.
pub proof fn each_line_is_stamped_once(
    at_start: bool,
    line: Seq<u8>,
    rest: Seq<u8>,
    stamp: Seq<u8>,
)
    requires
        !line.contains(0x0a),
    ensures
        stamped(at_start, line.push(0x0a) + rest, true, stamp) == (if at_start {
            stamp
        } else {
            Seq::empty()
        }) + line.push(0x0a) + stamped(true, rest, true, stamp),
        stamped(at_start, line, true, stamp) == (if at_start && line.len() > 0 {
            stamp + line
        } else {
            line
        }),
        line_start_after(at_start, line.push(0x0a), true),
        line_start_after(at_start, line, true) == (at_start && line.len() == 0),
{
    lemma_stamped_inside(at_start, line, stamp);
    let whole = line.push(0x0a);
    assert(whole.drop_last() =~= line);
    assert(stamped(at_start, whole, true, stamp) =~= (if at_start {
        stamp
    } else {
        Seq::empty()
    }) + whole);
    lemma_stamping_ignores_chunks(at_start, whole, rest, true, stamp);
}

/// Without timestamps nothing is put into the text.
pub proof fn unstamped_text_is_unchanged(at_start: bool, bytes: Seq<u8>, stamp: Seq<u8>)
    ensures
        stamped(at_start, bytes, false, stamp) == bytes,
    decreases bytes.len(),
{
    if bytes.len() > 0 {
        unstamped_text_is_unchanged(at_start, bytes.drop_last(), stamp);
        assert(bytes =~= bytes.drop_last().push(bytes.last()));
    }
}

proof fn lemma_inside_sequence(params: Seq<u8>)
    requires
        forall|k: int| 0 <= k < params.len() ==> !(0x40 <= #[trigger] params[k] <= 0x7e),
    ensures
        ansi_after(AnsiStripState::Csi, params) == AnsiStripState::Csi,
        stripped(AnsiStripState::Csi, params) == Seq::<u8>::empty(),
    decreases params.len(),
{
    if params.len() > 0 {
        lemma_inside_sequence(params.drop_last());
    }
}

/// An escape sequence is removed whole, and nothing around it: the escape byte and `[`,
/// its parameters, and the byte that ends it.
pub proof fn escape_sequences_are_removed(a: Seq<u8>, params: Seq<u8>, end: u8, b: Seq<u8>)
    requires
        !a.contains(0x1b),
        forall|k: int| 0 <= k < params.len() ==> !(0x40 <= #[trigger] params[k] <= 0x7e),
        0x40 <= end <= 0x7e,
    ensures
        stripped(AnsiStripState::Ground, a + (seq![0x1bu8, 0x5bu8] + params).push(end) + b) == a
            + stripped(AnsiStripState::Ground, b),
{
    let ground = AnsiStripState::Ground;
    let opening = seq![0x1bu8, 0x5bu8];
    let middle = (opening + params).push(end);
    stripping_keeps_plain_text(a);
    assert(opening.drop_last() =~= seq![0x1bu8]);
    assert(seq![0x1bu8].drop_last() =~= Seq::<u8>::empty());
    assert(ansi_after(ground, seq![0x1bu8].drop_last()) == ground);
    assert(stripped(ground, seq![0x1bu8].drop_last()) =~= Seq::empty());
    assert(ansi_after(ground, seq![0x1bu8]) == AnsiStripState::Escape);
    assert(stripped(ground, seq![0x1bu8]) =~= Seq::empty());
    assert(ansi_after(ground, opening) == AnsiStripState::Csi);
    assert(stripped(ground, opening) =~= Seq::empty());
    lemma_inside_sequence(params);
    stripping_ignores_chunks(ground, opening, params);
    let front = opening + params;
    assert(ansi_after(ground, front) == AnsiStripState::Csi);
    assert(stripped(ground, front) =~= Seq::empty());
    assert(middle.drop_last() =~= front);
    assert(ansi_after(ground, middle) == ground);
    assert(stripped(ground, middle) =~= Seq::empty());
    stripping_ignores_chunks(ground, a, middle);
    stripping_ignores_chunks(ground, a + middle, b);
    assert(a + Seq::<u8>::empty() =~= a);
}

/// An escape byte that starts no such sequence takes the one byte behind it along.
pub proof fn short_escapes_are_removed(a: Seq<u8>, c: u8, b: Seq<u8>)
    requires
        !a.contains(0x1b),
        c != 0x5b,
    ensures
        stripped(AnsiStripState::Ground, a + seq![0x1bu8, c] + b) == a + stripped(
            AnsiStripState::Ground,
            b,
        ),
{
    let ground = AnsiStripState::Ground;
    let pair = seq![0x1bu8, c];
    stripping_keeps_plain_text(a);
    assert(pair.drop_last() =~= seq![0x1bu8]);
    assert(seq![0x1bu8].drop_last() =~= Seq::<u8>::empty());
    assert(ansi_after(ground, seq![0x1bu8].drop_last()) == ground);
    assert(stripped(ground, seq![0x1bu8].drop_last()) =~= Seq::empty());
    assert(ansi_after(ground, seq![0x1bu8]) == AnsiStripState::Escape);
    assert(stripped(ground, seq![0x1bu8]) =~= Seq::empty());
    assert(ansi_after(ground, pair) == ground);
    assert(stripped(ground, pair) =~= Seq::empty());
    stripping_ignores_chunks(ground, a, pair);
    stripping_ignores_chunks(ground, a + pair, b);
    assert(a + Seq::<u8>::empty() =~= a);
}

} // verus!
