//! Laws of rendering: what is printed and saved of a packet or of plain text.

use crate::decode::{PacketMeta, PacketV};
use crate::elf_resolv::ElfV;
use crate::framer::{OutcomeV, RawFrameV};
use crate::plain::{
    cleaned, fresh, plain_text_ignores_chunks, stamp_text, stamped, stripped, AnsiStripState,
    PlainTextState,
};
use crate::render::{
    annotation_actions, annotations_actions, buffer_head, colored, dropped_text, gap_text,
    head_text, log_actions, next_packet, outcome_actions, packet_actions, prints, renderer_after,
    saves, warn_actions, ActionV, RendererV,
};
use crate::term::{
    all_neat, color_of, dump_rows, ink, lemma_wrapped_nonempty, lines_ink, log_lines, message_rows,
    neat_lines_stay, printed_lines_fit_the_terminal, rewrapped, wrapped, wrapped_lines_are_neat,
    wrapped_lines_fit, wrapping_keeps_the_text, wrapping_twice_changes_nothing, BOLD,
};
use crate::text::{decimal, hex_padded, repeated};
use crate::utf8::lossy_utf8;
use crate::wire::Level;
use vstd::prelude::*;
use vstd::string::*;
use vstd::utf8::encode_utf8;

verus! {

/// `[time] ` where timestamps are on.
pub open spec fn stamp_of(r: RendererV, local: Seq<char>) -> Seq<char> {
    if r.opts.timestamp {
        "["@ + local + "] "@
    } else {
        Seq::empty()
    }
}

/// The letter of a level.
pub open spec fn letter(level: Level) -> char {
    match level {
        Level::NoLevel => 'N',
        Level::Error => 'E',
        Level::Warn => 'W',
        Level::Info => 'I',
        Level::Debug => 'D',
        Level::Verbose => 'V',
    }
}

/// What stands in front of a message: the time where timestamps are on, the letter of the
/// level, the device's time right-aligned in seven columns, and the tag.
pub open spec fn prefix_of(
    r: RendererV,
    local: Seq<char>,
    meta: PacketMeta,
    level: Level,
    tag: Seq<char>,
) -> Seq<char> {
    let ms = decimal(meta.time_ms as nat);
    let blanks = if ms.len() < 7 {
        repeated(' ', (7 - ms.len()) as nat)
    } else {
        Seq::empty()
    };
    stamp_of(r, local) + seq![letter(level)] + " ("@ + (blanks + ms) + ") "@ + tag + ": "@
}

/// The color of a level on a terminal.
pub open spec fn ansi_color(level: Level) -> Seq<char> {
    match level {
        Level::Error => "\x1b[31m"@,
        Level::Warn => "\x1b[33m"@,
        Level::Info => "\x1b[32m"@,
        _ => "\x1b[37m"@,
    }
}

/// One printed row of a message: the first one behind the prefix, the others indented by
/// its length.
pub open spec fn row_line(prefix: Seq<char>, rows: Seq<Seq<char>>, k: int) -> Seq<char> {
    if k == 0 {
        prefix + rows[0]
    } else {
        repeated(' ', prefix.len()) + rows[k]
    }
}

/// One printed row of a message in color, with a bold prefix.
pub open spec fn color_line(
    color: Seq<char>,
    prefix: Seq<char>,
    rows: Seq<Seq<char>>,
    k: int,
) -> Seq<char> {
    if k == 0 {
        color + "\x1b[1m"@ + prefix + "\x1b[0m"@ + color + rows[0] + "\x1b[0m"@
    } else {
        repeated(' ', prefix.len()) + color + rows[k] + "\x1b[0m"@
    }
}

/// The message as it is shown.
pub open spec fn shown_text(r: RendererV, message: Seq<char>) -> Seq<char> {
    if r.opts.strip_ansi {
        lossy_utf8(stripped(AnsiStripState::Ground, encode_utf8(message)))
    } else {
        message
    }
}

proof fn lemma_ink_of_lines(a: Seq<Seq<char>>, b: Seq<Seq<char>>)
    ensures
        lines_ink(a + b) == lines_ink(a) + lines_ink(b),
    decreases b.len(),
{
    if b.len() == 0 {
        assert(a + b =~= a);
        assert(lines_ink(a) + Seq::empty() =~= lines_ink(a));
    } else {
        lemma_ink_of_lines(a, b.drop_last());
        assert((a + b).drop_last() =~= a + b.drop_last());
        assert((a + b).last() == b.last());
        assert(lines_ink(a) + lines_ink(b.drop_last()) + ink(b.last()) =~= lines_ink(a)
            + lines_ink(b));
    }
}

proof fn lemma_ink_of_line(s: Seq<char>)
    ensures
        lines_ink(seq![s]) == ink(s),
{
    assert(seq![s].drop_last() =~= Seq::<Seq<char>>::empty());
    assert(lines_ink(Seq::<Seq<char>>::empty()) =~= Seq::empty());
    assert(Seq::<char>::empty() + ink(s) =~= ink(s));
}

proof fn lemma_rewrapped(rows: Seq<Seq<char>>, k: int, width: int)
    requires
        0 <= k <= rows.len(),
        width > 0,
    ensures
        lines_ink(rewrapped(rows, k, width)) == lines_ink(rows.skip(k)),
        all_neat(rewrapped(rows, k, width)),
    decreases rows.len() - k,
{
    if k < rows.len() {
        lemma_rewrapped(rows, k + 1, width);
        wrapping_keeps_the_text(rows[k], width);
        wrapped_lines_are_neat(rows[k], width);
        lemma_ink_of_lines(wrapped(rows[k], width), rewrapped(rows, k + 1, width));
        lemma_ink_of_lines(seq![rows[k]], rows.skip(k + 1));
        lemma_ink_of_line(rows[k]);
        assert(seq![rows[k]] + rows.skip(k + 1) =~= rows.skip(k));
    } else {
        assert(rows.skip(k) =~= Seq::empty());
    }
}

proof fn lemma_message_rows(message: Seq<char>, prefix_len: int, width: int)
    requires
        0 <= prefix_len,
        0 <= width,
    ensures
        ({
            let rows = message_rows(message, prefix_len, prefix_len, width);
            &&& rows.len() > 0
            &&& lines_ink(rows) == ink(message)
            &&& width > 0 ==> all_neat(rows)
            &&& width == 0 ==> rows == seq![message]
            &&& prefix_len < width ==> rows == wrapped(message, width - prefix_len)
        }),
{
    let rest = if width > prefix_len {
        width - prefix_len
    } else {
        1
    };
    let rows = message_rows(message, prefix_len, prefix_len, width);
    if width == 0 {
        lemma_ink_of_line(message);
    } else if width > prefix_len {
        let first = wrapped(message, width - prefix_len);
        lemma_wrapped_nonempty(message, width - prefix_len);
        wrapping_keeps_the_text(message, width - prefix_len);
        wrapped_lines_are_neat(message, width - prefix_len);
        lemma_rewrapped(first, 1, rest);
        lemma_ink_of_lines(seq![first[0]], rewrapped(first, 1, rest));
        lemma_ink_of_lines(seq![first[0]], first.skip(1));
        assert(seq![first[0]] + first.skip(1) =~= first);
        wrapped_lines_fit(message, rest);
        wrapping_twice_changes_nothing(message, rest);
        neat_lines_stay(first[0], rest);
        assert(rewrapped(first, 0, rest) == wrapped(first[0], rest) + rewrapped(first, 1, rest));
    } else {
        lemma_wrapped_nonempty(message, rest);
        wrapping_keeps_the_text(message, rest);
        wrapped_lines_are_neat(message, rest);
    }
}

/// True if `rows` are the rows of a text behind a prefix: they hold the text, apart from
/// white space; where the prefix leaves room they are the text wrapped to what it leaves,
/// and fit the width; and without a width there is one row, which is the text.
pub open spec fn are_rows_of(
    rows: Seq<Seq<char>>,
    text: Seq<char>,
    prefix_len: nat,
    width: nat,
) -> bool {
    &&& rows.len() > 0
    &&& lines_ink(rows) == ink(text)
    &&& width == 0 ==> rows == seq![text]
    &&& width > 0 ==> all_neat(rows)
    &&& prefix_len < width ==> rows == wrapped(text, width - prefix_len)
    &&& prefix_len < width ==> forall|k: int|
        0 <= k < rows.len() ==> prefix_len + (#[trigger] rows[k]).len() <= width
}

/// The lines that are saved, where there is a save file.
pub open spec fn saved_lines(r: RendererV, lines: Seq<Seq<char>>) -> Seq<ActionV> {
    if r.saving {
        Seq::new(lines.len(), |k: int| ActionV::SaveLine(lines[k]))
    } else {
        Seq::empty()
    }
}

/// A log packet that comes in order is printed as its message behind its prefix, wrapped
/// to the width and indented under the message, in the color of its level where colors
/// are on; and it is saved as one line without colors.
pub proof fn log_packet_is_printed_and_saved(
    r: RendererV,
    f: RawFrameV,
    elf: Option<ElfV>,
    local: Seq<char>,
    annotations: Seq<Seq<char>>,
    floats: Seq<Seq<char>>,
    meta: PacketMeta,
    level: Level,
    tag: Seq<char>,
    message: Seq<char>,
) -> (rows: Seq<Seq<char>>)
    requires
        next_packet(r, f, elf, floats) == (PacketV::Log { meta, level, tag, message }),
        meta.gap is None,
    ensures
        ({
            let prefix = prefix_of(r, local, meta, level, tag);
            let text = shown_text(r, message);
            let actions = outcome_actions(r, OutcomeV::Frame(f), elf, local, annotations, floats);
            let printed = Seq::new(
                rows.len(),
                |k: int|
                    ActionV::Print(
                        if r.opts.use_color {
                            color_line(ansi_color(level), prefix, rows, k)
                        } else {
                            row_line(prefix, rows, k)
                        },
                    ),
            );
            &&& are_rows_of(rows, text, prefix.len(), r.opts.width as nat)
            &&& actions == (if r.opts.to_stdout {
                printed
            } else {
                Seq::empty()
            }) + saved_lines(r, seq![prefix + text])
        }),
{
    let prefix = prefix_of(r, local, meta, level, tag);
    let text = shown_text(r, message);
    let actions = outcome_actions(r, OutcomeV::Frame(f), elf, local, annotations, floats);
    let rows = message_rows(
        text,
        prefix.len() as int,
        prefix.len() as int,
        r.opts.width as int,
    );
    lemma_message_rows(text, prefix.len() as int, r.opts.width as int);
    if prefix.len() < r.opts.width {
        printed_lines_fit_the_terminal(
            prefix,
            text,
            Seq::empty(),
            prefix.len(),
            r.opts.width as int,
        );
    }
    let printed = Seq::new(
        rows.len(),
        |k: int|
            ActionV::Print(
                if r.opts.use_color {
                    color_line(ansi_color(level), prefix, rows, k)
                } else {
                    row_line(prefix, rows, k)
                },
            ),
    );
    let stamp = stamp_of(r, local);
    assert(stamp_text(r.opts.timestamp, local) == stamp);
    assert(head_text(stamp, level, meta.time_ms, tag) + ": "@ =~= prefix);
    assert(cleaned(message, r.opts.strip_ansi) == text);
    let lines = log_lines(
        prefix,
        text,
        color_of(level),
        prefix.len(),
        r.opts.width as int,
        r.opts.use_color,
    );
    assert(color_of(level) == ansi_color(level));
    assert(prints(r, lines) =~= (if r.opts.to_stdout {
        printed
    } else {
        Seq::empty()
    }));
    assert(saves(r, seq![prefix + text]) =~= saved_lines(r, seq![prefix + text]));
    assert(log_actions(r, stamp, meta, level, tag, message) == Seq::<ActionV>::empty() + prints(
        r,
        lines,
    ) + saves(r, seq![prefix + text]));
    assert(Seq::<ActionV>::empty() + prints(r, lines) =~= prints(r, lines));
    rows
}

/// Every line that a log packet prints, but for the warning about missing packets, fits
/// the width of the terminal if its prefix does, whatever the message.
pub proof fn printed_log_lines_fit_the_width(
    r: RendererV,
    f: RawFrameV,
    elf: Option<ElfV>,
    local: Seq<char>,
    annotations: Seq<Seq<char>>,
    floats: Seq<Seq<char>>,
    meta: PacketMeta,
    level: Level,
    tag: Seq<char>,
    message: Seq<char>,
)
    requires
        next_packet(r, f, elf, floats) == (PacketV::Log { meta, level, tag, message }),
        r.opts.to_stdout,
        !r.opts.use_color,
        prefix_of(r, local, meta, level, tag).len() < r.opts.width,
    ensures
        ({
            let actions = outcome_actions(r, OutcomeV::Frame(f), elf, local, annotations, floats);
            forall|k: int|
                0 <= k < actions.len() && (k > 0 || meta.gap is None) ==> (
                #[trigger] actions[k] matches ActionV::Print(line) ==> line.len() <= r.opts.width)
        }),
{
    let actions = outcome_actions(r, OutcomeV::Frame(f), elf, local, annotations, floats);
    let stamp = stamp_of(r, local);
    let prefix = prefix_of(r, local, meta, level, tag);
    let text = shown_text(r, message);
    assert(stamp_text(r.opts.timestamp, local) == stamp);
    assert(head_text(stamp, level, meta.time_ms, tag) + ": "@ =~= prefix);
    assert(cleaned(message, r.opts.strip_ansi) == text);
    let lines = log_lines(
        prefix,
        text,
        color_of(level),
        prefix.len(),
        r.opts.width as int,
        false,
    );
    printed_lines_fit_the_terminal(
        prefix,
        text,
        color_of(level),
        prefix.len(),
        r.opts.width as int,
    );
    let warning = match meta.gap {
        Some(gap) => warn_actions(r, stamp, gap_text(gap, meta.seq)),
        None => Seq::empty(),
    };
    assert(actions == warning + prints(r, lines) + saves(r, seq![prefix + text]));
    assert forall|k: int| 0 <= k < actions.len() && (k > 0 || meta.gap is None) implies (
    #[trigger] actions[k] matches ActionV::Print(line) ==> line.len() <= r.opts.width) by {
        let i = k - warning.len();
        if 0 <= i < lines.len() {
            assert(actions[k] == prints(r, lines)[i]);
            assert(lines[i].len() <= r.opts.width);
        }
    }
}

/// A warning as it is printed, dim and yellow where colors are on, and as it is saved.
pub open spec fn warning_of(r: RendererV, text: Seq<char>) -> Seq<ActionV> {
    let shown = shown_text(r, text);
    (if r.opts.to_stdout {
        seq![
            ActionV::Print(
                if r.opts.use_color {
                    "\x1b[2m"@ + "\x1b[33m"@ + shown + "\x1b[0m"@
                } else {
                    shown
                },
            ),
        ]
    } else {
        Seq::empty()
    }) + saved_lines(r, seq![shown])
}

proof fn lemma_warning(r: RendererV, stamp: Seq<char>, msg: Seq<char>)
    ensures
        warn_actions(r, stamp, msg) == warning_of(r, stamp + msg),
{
    assert(warn_actions(r, stamp, msg) =~= warning_of(r, stamp + msg));
}

/// Missing packets are announced ahead of the log packet that follows them: how many,
/// and before which sequence number. What follows the warning is what the same packet
/// gives without the gap.
pub proof fn missing_packets_are_announced(
    r: RendererV,
    stamp: Seq<char>,
    seq: u16,
    time_ms: u32,
    gap: u32,
    level: Level,
    tag: Seq<char>,
    message: Seq<char>,
)
    ensures
        packet_actions(
            r,
            PacketV::Log { meta: PacketMeta { seq, time_ms, gap: Some(gap) }, level, tag, message },
            stamp,
        ) == warning_of(
            r,
            stamp + ("--- missed "@ + decimal(gap as nat) + " packet(s) before seq "@ + decimal(
                seq as nat,
            ) + " ---"@),
        ) + packet_actions(
            r,
            PacketV::Log { meta: PacketMeta { seq, time_ms, gap: None }, level, tag, message },
            stamp,
        ),
{
    let with_gap = PacketMeta { seq, time_ms, gap: Some(gap) };
    let without = PacketMeta { seq, time_ms, gap: None };
    let msg = gap_text(gap, seq);
    lemma_warning(r, stamp, msg);
    assert(log_actions(r, stamp, with_gap, level, tag, message) =~= warn_actions(r, stamp, msg)
        + log_actions(r, stamp, without, level, tag, message));
}

/// What the device says it dropped is announced: how many packets, at which sequence
/// number and at which time.
pub proof fn dropped_packets_are_announced(
    r: RendererV,
    stamp: Seq<char>,
    meta: PacketMeta,
    count: u32,
)
    ensures
        packet_actions(r, PacketV::Dropped { meta, count }, stamp) == warning_of(
            r,
            stamp + ("--- device dropped "@ + decimal(count as nat) + " packet(s) at seq "@
                + decimal(meta.seq as nat) + " (t="@ + decimal(meta.time_ms as nat) + "ms) ---"@),
        ),
{
    lemma_warning(r, stamp, dropped_text(count, meta));
}

/// A line in the color of a level, where colors are on.
pub open spec fn in_color(r: RendererV, color: Seq<char>, text: Seq<char>) -> Seq<char> {
    if r.opts.use_color {
        color + text + "\x1b[0m"@
    } else {
        text
    }
}

/// A buffer dump is printed and saved as a head line, which tells the length of the whole
/// buffer, the offset of this part and the number of its bytes, and then as the rows of a
/// hex dump of these bytes.
pub proof fn buffer_dump_is_printed_and_saved(
    r: RendererV,
    local: Seq<char>,
    meta: PacketMeta,
    level: Level,
    tag: Seq<char>,
    total_len: u32,
    offset: u32,
    bytes: Seq<u8>,
)
    ensures
        ({
            let stamp = stamp_of(r, local);
            let head = prefix_of(r, local, meta, level, tag).drop_last().drop_last() + " [buf "@
                + decimal(total_len as nat) + " @"@ + decimal(offset as nat) + " +"@ + decimal(
                bytes.len(),
            ) + "]: <buffer dump, "@ + decimal(bytes.len()) + " bytes>"@;
            let rows = dump_rows(stamp, bytes);
            let color = ansi_color(level);
            packet_actions(
                r,
                PacketV::Buffer { meta, level, tag, total_len, offset, bytes },
                stamp,
            ) == (if r.opts.to_stdout {
                seq![ActionV::Print(in_color(r, color + "\x1b[1m"@, head))]
            } else {
                Seq::empty()
            }) + saved_lines(r, seq![head]) + (if r.opts.to_stdout {
                Seq::new(rows.len(), |k: int| ActionV::Print(in_color(r, color, rows[k])))
            } else {
                Seq::empty()
            }) + saved_lines(r, rows)
        }),
{
    let stamp = stamp_of(r, local);
    let prefix = prefix_of(r, local, meta, level, tag);
    let top = head_text(stamp, level, meta.time_ms, tag);
    reveal_strlit(": ");
    assert(prefix =~= top + ": "@);
    assert(prefix.drop_last().drop_last() =~= top);
    let head = buffer_head(stamp, meta, level, tag, total_len, offset, bytes.len());
    let rows = dump_rows(stamp, bytes);
    let color = ansi_color(level);
    assert(color == color_of(level));
    let shown = Seq::new(rows.len(), |i: int| colored(r, color, rows[i]));
    assert(prints(r, seq![colored(r, color + BOLD@, head)]) =~= (if r.opts.to_stdout {
        seq![ActionV::Print(in_color(r, color + "\x1b[1m"@, head))]
    } else {
        Seq::empty()
    }));
    assert(saves(r, seq![head]) =~= saved_lines(r, seq![head]));
    assert(prints(r, shown) =~= (if r.opts.to_stdout {
        Seq::new(rows.len(), |k: int| ActionV::Print(in_color(r, color, rows[k])))
    } else {
        Seq::empty()
    }));
    assert(saves(r, rows) =~= saved_lines(r, rows));
}

/// Packets of other kinds and malformed packets are neither printed nor saved: each is
/// one diagnostic under the name of the program, which tells its kind or what is wrong
/// with it.
pub proof fn other_packets_are_diagnostics(
    r: RendererV,
    stamp: Seq<char>,
    meta: PacketMeta,
    kind: Seq<char>,
    payload: Seq<u8>,
    reason: Seq<char>,
)
    ensures
        packet_actions(r, PacketV::Other { meta, kind, payload }, stamp) == seq![
            ActionV::Note(
                r.program + ": "@ + (kind + " packet seq "@ + decimal(meta.seq as nat) + " t="@
                    + decimal(meta.time_ms as nat) + "ms ("@ + decimal(payload.len())
                    + " bytes)"@),
            ),
        ],
        packet_actions(r, PacketV::Malformed { meta: Some(meta), reason }, stamp) == seq![
            ActionV::Note(
                r.program + ": "@ + ("malformed packet seq "@ + decimal(meta.seq as nat) + ": "@
                    + reason),
            ),
        ],
        packet_actions(r, PacketV::Malformed { meta: None, reason }, stamp) == seq![
            ActionV::Note(r.program + ": "@ + ("malformed packet seq "@ + ": "@ + reason)),
        ],
{
    assert("malformed packet seq "@ + Seq::<char>::empty() =~= "malformed packet seq "@);
}

/// Every damaged frame is reported by one diagnostic that says what is wrong with it, and
/// changes nothing else.
pub proof fn damaged_frames_are_diagnostics(
    r: RendererV,
    o: OutcomeV,
    elf: Option<ElfV>,
    local: Seq<char>,
    annotations: Seq<Seq<char>>,
    floats: Seq<Seq<char>>,
)
    requires
        o !is Frame,
        o !is PlainText,
    ensures
        ({
            let actions = outcome_actions(r, o, elf, local, annotations, floats);
            let text = match o {
                OutcomeV::BadMagic => "frame with bad magic discarded"@,
                OutcomeV::CrcMismatch => "frame failed CRC, discarded"@,
                OutcomeV::Truncated => "truncated frame discarded"@,
                OutcomeV::LengthMismatch => "frame payload length mismatch, discarded"@,
                OutcomeV::FrameTooLong => "transport frame exceeded maximum length, discarded"@,
                OutcomeV::UnknownFrameType(t) => "unknown transport frame type 0x"@ + hex_padded(
                    t as nat,
                    2,
                ) + ", discarded"@,
                _ => "invalid SLIP escape, discarded"@,
            };
            actions == seq![ActionV::Note(r.program + ": "@ + text)]
        }),
        renderer_after(r, o, elf, floats) == r,
{
}

/// A log packet, a buffer dump and a drop notice end the line of plain text that was
/// being written, on stdout and in the save file: plain text behind them starts a line.
/// Other packets leave it alone. Every frame makes its number the last one seen, and none
/// changes how the renderer is set up.
pub proof fn packets_end_the_line_of_text(
    r: RendererV,
    f: RawFrameV,
    elf: Option<ElfV>,
    floats: Seq<Seq<char>>,
)
    ensures
        ({
            let packet = next_packet(r, f, elf, floats);
            let after = renderer_after(r, OutcomeV::Frame(f), elf, floats);
            let line = packet is Log || packet is Buffer || packet is Dropped;
            &&& after.last_seq == Some(f.header.seq)
            &&& line ==> after.plain.line_start && after.plain == fresh() && after.save_plain
                == fresh()
            &&& !line ==> after.plain == r.plain && after.save_plain == r.save_plain
            &&& after.opts == r.opts && after.saving == r.saving && after.program == r.program
        }),
{
}

/// Bytes without their escape sequences, where asked for.
pub open spec fn maybe_stripped(st: PlainTextState, bytes: Seq<u8>, strip: bool) -> Seq<u8> {
    if strip {
        stripped(st.ansi, bytes)
    } else {
        bytes
    }
}

/// The first `n` annotations, each printed and saved as a line behind the timestamp.
pub open spec fn noted(
    r: RendererV,
    stamp: Seq<char>,
    annotations: Seq<Seq<char>>,
    n: int,
) -> Seq<ActionV>
    decreases n,
{
    if n <= 0 {
        Seq::empty()
    } else {
        let text = shown_text(r, annotations[n - 1]);
        noted(r, stamp, annotations, n - 1) + (if r.opts.to_stdout {
            seq![ActionV::PrintBytes((encode_utf8(stamp) + encode_utf8(text)).push(0x0a))]
        } else {
            Seq::empty()
        }) + saved_lines(r, seq![stamp + text])
    }
}

proof fn lemma_noted(r: RendererV, stamp: Seq<char>, annotations: Seq<Seq<char>>, n: int)
    ensures
        annotations_actions(r, stamp, annotations, n) == noted(r, stamp, annotations, n),
    decreases n,
{
    if n > 0 {
        lemma_noted(r, stamp, annotations, n - 1);
        let line = annotations[n - 1];
        let text = shown_text(r, line);
        assert(cleaned(line, r.opts.strip_ansi) == text);
        assert(Seq::<u8>::empty() + encode_utf8(stamp) + encode_utf8(text) + seq![0x0au8] =~= (
        encode_utf8(stamp) + encode_utf8(text)).push(0x0a));
        assert(annotation_actions(r, stamp, line) =~= (if r.opts.to_stdout {
            seq![ActionV::PrintBytes((encode_utf8(stamp) + encode_utf8(text)).push(0x0a))]
        } else {
            Seq::empty()
        }) + saved_lines(r, seq![stamp + text]));
        assert(annotations_actions(r, stamp, annotations, n) =~= noted(r, stamp, annotations, n));
    }
}

/// Plain text of the device is printed and saved, each without escape sequences where
/// that is asked for, and behind a timestamp at each line start where timestamps are on.
/// Its annotations follow, each on a line of its own, and stdout is flushed.
pub proof fn plain_text_is_printed_and_saved(
    r: RendererV,
    bytes: Seq<u8>,
    elf: Option<ElfV>,
    local: Seq<char>,
    annotations: Seq<Seq<char>>,
    floats: Seq<Seq<char>>,
)
    ensures
        ({
            let stamp = stamp_of(r, local);
            let on = r.opts.timestamp;
            outcome_actions(r, OutcomeV::PlainText(bytes), elf, local, annotations, floats) == (
            if r.opts.to_stdout {
                seq![
                    ActionV::PrintBytes(
                        stamped(
                            r.plain.line_start,
                            maybe_stripped(r.plain, bytes, r.opts.strip_ansi),
                            on,
                            encode_utf8(stamp),
                        ),
                    ),
                ]
            } else {
                Seq::empty()
            }) + (if r.saving {
                seq![
                    ActionV::SaveBytes(
                        stamped(
                            r.save_plain.line_start,
                            maybe_stripped(r.save_plain, bytes, r.opts.strip_saved),
                            on,
                            encode_utf8(stamp),
                        ),
                    ),
                ]
            } else {
                Seq::empty()
            }) + noted(r, stamp, annotations, annotations.len() as int) + seq![ActionV::Flush]
        }),
{
    let stamp = stamp_of(r, local);
    let on = r.opts.timestamp;
    assert(stamp_text(on, local) == stamp);
    lemma_noted(r, stamp, annotations, annotations.len() as int);
    let printed = stamped(
        r.plain.line_start,
        maybe_stripped(r.plain, bytes, r.opts.strip_ansi),
        on,
        encode_utf8(stamp),
    );
    let saved = stamped(
        r.save_plain.line_start,
        maybe_stripped(r.save_plain, bytes, r.opts.strip_saved),
        on,
        encode_utf8(stamp),
    );
    assert(Seq::<u8>::empty() + printed =~= printed);
    assert(Seq::<u8>::empty() + saved =~= saved);
    let actions = outcome_actions(r, OutcomeV::PlainText(bytes), elf, local, annotations, floats);
    assert(actions =~= (if r.opts.to_stdout {
        seq![ActionV::PrintBytes(printed)]
    } else {
        Seq::empty()
    }) + (if r.saving {
        seq![ActionV::SaveBytes(saved)]
    } else {
        Seq::empty()
    }) + noted(r, stamp, annotations, annotations.len() as int) + seq![ActionV::Flush]);
}

/// Text that arrives in two parts, with no packet between them, is printed and saved as
/// if it had arrived at once, and leaves the renderer in the same state.
pub proof fn text_in_parts_is_text_at_once(
    r: RendererV,
    a: Seq<u8>,
    b: Seq<u8>,
    elf: Option<ElfV>,
    local: Seq<char>,
    floats: Seq<Seq<char>>,
)
    requires
        r.opts.to_stdout,
        r.saving,
    ensures
        ({
            let none = Seq::<Seq<char>>::empty();
            let text = |s: Seq<u8>| OutcomeV::PlainText(s);
            let between = renderer_after(r, text(a), elf, floats);
            let first = outcome_actions(r, text(a), elf, local, none, floats);
            let second = outcome_actions(between, text(b), elf, local, none, floats);
            let whole = outcome_actions(r, text(a + b), elf, local, none, floats);
            &&& whole[0]->PrintBytes_0 == first[0]->PrintBytes_0 + second[0]->PrintBytes_0
            &&& whole[1]->SaveBytes_0 == first[1]->SaveBytes_0 + second[1]->SaveBytes_0
            &&& renderer_after(r, text(a + b), elf, floats) == renderer_after(
                between,
                text(b),
                elf,
                floats,
            )
        }),
{
    let none = Seq::<Seq<char>>::empty();
    let between = renderer_after(r, OutcomeV::PlainText(a), elf, floats);
    plain_text_is_printed_and_saved(r, a, elf, local, none, floats);
    plain_text_is_printed_and_saved(between, b, elf, local, none, floats);
    plain_text_is_printed_and_saved(r, a + b, elf, local, none, floats);
    let stamp = encode_utf8(stamp_of(r, local));
    plain_text_ignores_chunks(r.plain, a, b, r.opts.timestamp, stamp, r.opts.strip_ansi);
    plain_text_ignores_chunks(r.save_plain, a, b, r.opts.timestamp, stamp, r.opts.strip_saved);
}

} // verus!
