//! Rendering decoded packets, text and diagnostics: what is printed and what is
//! saved, in which order.
//!
//! A [`Renderer`] performs no output. It turns each transport outcome into a list
//! of [`Action`]s, which the program carries out one after the other.

use crate::decode::{elf_view, gap_after, packet_floats, packet_of};
use crate::decode::{DecodedPacket, Decoder, PacketMeta, PacketV};
use crate::elf_resolv::{ElfStrings, ElfV};
use crate::float::{field_views, text_views, FloatField, FloatFieldV};
use crate::framer::{Outcome, OutcomeV};
use crate::plain::{
    clean_string, cleaned, fresh, plain_after, plain_bytes, stamp_text, ts_prefix,
    write_plain_annotation, write_plain_text, PlainTextState,
};
use crate::term::{
    color_of, dump_rows, hexdump_lines, level_color, log_lines, print_log_line, BOLD, DIM, RESET,
    YELLOW,
};
use crate::text::{decimal, decimal_string, hex_padded, hex_string, pad_start, padded_start};
use crate::wire::Level;
use vstd::prelude::*;
use vstd::string::*;
use vstd::utf8::encode_utf8;

verus! {

/// One step of output.
#[derive(Debug, Clone, PartialEq, Eq)]
pub enum Action {
    /// Print a line on stdout.
    Print(String),
    /// Write bytes to stdout.
    PrintBytes(Vec<u8>),
    /// Write a line to the save file.
    SaveLine(String),
    /// Write bytes to the save file.
    SaveBytes(Vec<u8>),
    /// Print a line on stderr.
    Note(String),
    /// Flush stdout.
    Flush,
}

/// One step of output.
#[verifier::ext_equal]
pub enum ActionV {
    Print(Seq<char>),
    PrintBytes(Seq<u8>),
    SaveLine(Seq<char>),
    SaveBytes(Seq<u8>),
    Note(Seq<char>),
    Flush,
}

impl View for Action {
    type V = ActionV;

    open spec fn view(&self) -> ActionV {
        match *self {
            Action::Print(s) => ActionV::Print(s@),
            Action::PrintBytes(b) => ActionV::PrintBytes(b@),
            Action::SaveLine(s) => ActionV::SaveLine(s@),
            Action::SaveBytes(b) => ActionV::SaveBytes(b@),
            Action::Note(s) => ActionV::Note(s@),
            Action::Flush => ActionV::Flush,
        }
    }
}

/// The steps of a list.
pub open spec fn action_views(actions: Seq<Action>) -> Seq<ActionV> {
    Seq::new(actions.len(), |i: int| actions[i]@)
}

/// Rendering options.
#[derive(Debug, Clone, Copy, PartialEq, Eq, Structural)]
pub struct RenderOptions {
    /// Whether to emit ANSI color codes.
    pub use_color: bool,
    /// Line-wrap width (0 = no wrapping, grep-friendly).
    pub width: usize,
    /// Whether to prefix each line with a local timestamp.
    pub timestamp: bool,
    /// When true, output goes to stdout; when false, only to the save file.
    pub to_stdout: bool,
    /// Whether to strip ANSI escape sequences from messages, and from device plain
    /// text that is printed.
    pub strip_ansi: bool,
    /// Whether to strip ANSI escape sequences from device plain text that is saved.
    pub strip_saved: bool,
}

/// Stateful renderer wrapping the on9log decode pipeline.
#[derive(Debug, Clone)]
pub struct Renderer {
    /// Name of the program, in front of each diagnostic.
    program: String,
    /// Rendering configuration (color, width, timestamp, etc.).
    opts: RenderOptions,
    /// Whether there is a save file.
    saving: bool,
    /// Protocol decoder for on9log binary frames.
    decoder: Decoder,
    /// Plain-text state for stdout output (tracks timestamps at line starts).
    plain: PlainTextState,
    /// Separate plain-text state for the save-file path.
    save_plain: PlainTextState,
}

/// A renderer.
#[verifier::ext_equal]
pub struct RendererV {
    pub program: Seq<char>,
    pub opts: RenderOptions,
    pub saving: bool,
    /// Last sequence number.
    pub last_seq: Option<u16>,
    pub plain: PlainTextState,
    pub save_plain: PlainTextState,
}

impl View for Renderer {
    type V = RendererV;

    closed spec fn view(&self) -> RendererV {
        RendererV {
            program: self.program@,
            opts: self.opts,
            saving: self.saving,
            last_seq: self.decoder@,
            plain: self.plain,
            save_plain: self.save_plain,
        }
    }
}

// ---- What is shown ----

/// Lines printed, where stdout is in use.
pub open spec fn prints(r: RendererV, lines: Seq<Seq<char>>) -> Seq<ActionV> {
    if r.opts.to_stdout {
        Seq::new(lines.len(), |i: int| ActionV::Print(lines[i]))
    } else {
        Seq::empty()
    }
}

/// Lines saved, where there is a save file.
pub open spec fn saves(r: RendererV, lines: Seq<Seq<char>>) -> Seq<ActionV> {
    if r.saving {
        Seq::new(lines.len(), |i: int| ActionV::SaveLine(lines[i]))
    } else {
        Seq::empty()
    }
}

/// A warning: dim and yellow where colors are in use.
pub open spec fn warn_actions(r: RendererV, stamp: Seq<char>, msg: Seq<char>) -> Seq<ActionV> {
    let text = cleaned(stamp + msg, r.opts.strip_ansi);
    let shown = if r.opts.use_color {
        DIM@ + YELLOW@ + text + RESET@
    } else {
        text
    };
    prints(r, seq![shown]) + saves(r, seq![text])
}

/// `stamp` + `I (   1234) TAG`: what stands in front of a message.
pub open spec fn head_text(stamp: Seq<char>, level: Level, time_ms: u32, tag: Seq<char>) -> Seq<
    char,
> {
    stamp + seq![level.tag_letter()] + " ("@ + padded_start(decimal(time_ms as nat), 7, ' ')
        + ") "@ + tag
}

/// The warning about missing packets.
pub open spec fn gap_text(gap: u32, seq: u16) -> Seq<char> {
    "--- missed "@ + decimal(gap as nat) + " packet(s) before seq "@ + decimal(seq as nat)
        + " ---"@
}

/// The warning about packets that the device dropped.
pub open spec fn dropped_text(count: u32, meta: PacketMeta) -> Seq<char> {
    "--- device dropped "@ + decimal(count as nat) + " packet(s) at seq "@ + decimal(
        meta.seq as nat,
    ) + " (t="@ + decimal(meta.time_ms as nat) + "ms) ---"@
}

/// What a log message gives.
pub open spec fn log_actions(
    r: RendererV,
    stamp: Seq<char>,
    meta: PacketMeta,
    level: Level,
    tag: Seq<char>,
    message: Seq<char>,
) -> Seq<ActionV> {
    let prefix = head_text(stamp, level, meta.time_ms, tag) + ": "@;
    let text = cleaned(message, r.opts.strip_ansi);
    let warning = match meta.gap {
        Some(gap) => warn_actions(r, stamp, gap_text(gap, meta.seq)),
        None => Seq::empty(),
    };
    warning + prints(
        r,
        log_lines(
            prefix,
            text,
            color_of(level),
            prefix.len(),
            r.opts.width as int,
            r.opts.use_color,
        ),
    ) + saves(r, seq![prefix + text])
}

/// The line above a buffer dump.
pub open spec fn buffer_head(
    stamp: Seq<char>,
    meta: PacketMeta,
    level: Level,
    tag: Seq<char>,
    total_len: u32,
    offset: u32,
    len: nat,
) -> Seq<char> {
    head_text(stamp, level, meta.time_ms, tag) + " [buf "@ + decimal(total_len as nat) + " @"@
        + decimal(offset as nat) + " +"@ + decimal(len) + "]: <buffer dump, "@ + decimal(len)
        + " bytes>"@
}

/// `color` + text + reset, where colors are in use.
pub open spec fn colored(r: RendererV, color: Seq<char>, text: Seq<char>) -> Seq<char> {
    if r.opts.use_color {
        color + text + RESET@
    } else {
        text
    }
}

/// What a buffer dump gives: its head, printed and saved, then its rows, printed and
/// saved.
pub open spec fn buffer_actions(
    r: RendererV,
    stamp: Seq<char>,
    level: Level,
    head: Seq<char>,
    bytes: Seq<u8>,
) -> Seq<ActionV> {
    let color = color_of(level);
    let rows = dump_rows(stamp, bytes);
    prints(r, seq![colored(r, color + BOLD@, head)]) + saves(r, seq![head]) + prints(
        r,
        Seq::new(rows.len(), |i: int| colored(r, color, rows[i])),
    ) + saves(r, rows)
}

/// A diagnostic on stderr, under the name of the program.
pub open spec fn note(r: RendererV, text: Seq<char>) -> Seq<ActionV> {
    seq![ActionV::Note(r.program + ": "@ + text)]
}

/// What a decoded packet gives.
pub open spec fn packet_actions(r: RendererV, packet: PacketV, stamp: Seq<char>) -> Seq<ActionV> {
    match packet {
        PacketV::Log { meta, level, tag, message } => log_actions(
            r,
            stamp,
            meta,
            level,
            tag,
            message,
        ),
        PacketV::Dropped { meta, count } => warn_actions(r, stamp, dropped_text(count, meta)),
        PacketV::Buffer { meta, level, tag, total_len, offset, bytes } => buffer_actions(
            r,
            stamp,
            level,
            buffer_head(stamp, meta, level, tag, total_len, offset, bytes.len()),
            bytes,
        ),
        PacketV::Other { meta, kind, payload } => note(
            r,
            kind + " packet seq "@ + decimal(meta.seq as nat) + " t="@ + decimal(
                meta.time_ms as nat,
            ) + "ms ("@ + decimal(payload.len()) + " bytes)"@,
        ),
        PacketV::Malformed { meta, reason } => note(
            r,
            "malformed packet seq "@ + (match meta {
                Some(m) => decimal(m.seq as nat),
                None => Seq::empty(),
            }) + ": "@ + reason,
        ),
    }
}

/// True for packets that end the current line of plain text.
pub open spec fn ends_line(packet: PacketV) -> bool {
    packet is Log || packet is Dropped || packet is Buffer
}

/// What one annotation of plain text gives.
pub open spec fn annotation_actions(r: RendererV, stamp: Seq<char>, line: Seq<char>) -> Seq<
    ActionV,
> {
    let text = cleaned(line, r.opts.strip_ansi);
    (if r.opts.to_stdout {
        seq![
            ActionV::PrintBytes(
                Seq::<u8>::empty() + encode_utf8(stamp) + encode_utf8(text) + seq![0x0au8],
            ),
        ]
    } else {
        Seq::empty()
    }) + saves(r, seq![stamp + text])
}

/// What the first `n` annotations give.
pub open spec fn annotations_actions(
    r: RendererV,
    stamp: Seq<char>,
    lines: Seq<Seq<char>>,
    n: int,
) -> Seq<ActionV>
    decreases n,
{
    if n <= 0 {
        Seq::empty()
    } else {
        annotations_actions(r, stamp, lines, n - 1) + annotation_actions(r, stamp, lines[n - 1])
    }
}

/// What plain text gives: the text itself, printed and saved, then its annotations.
pub open spec fn text_actions(
    r: RendererV,
    bytes: Seq<u8>,
    stamp: Seq<char>,
    annotations: Seq<Seq<char>>,
) -> Seq<ActionV> {
    let stamp_bytes = encode_utf8(stamp);
    let printed = if r.opts.to_stdout {
        seq![
            ActionV::PrintBytes(
                Seq::<u8>::empty() + plain_bytes(
                    r.plain,
                    bytes,
                    r.opts.timestamp,
                    stamp_bytes,
                    r.opts.strip_ansi,
                ),
            ),
        ]
    } else {
        Seq::empty()
    };
    let saved = if r.saving {
        seq![
            ActionV::SaveBytes(
                Seq::<u8>::empty() + plain_bytes(
                    r.save_plain,
                    bytes,
                    r.opts.timestamp,
                    stamp_bytes,
                    r.opts.strip_saved,
                ),
            ),
        ]
    } else {
        Seq::empty()
    };
    (printed + saved + annotations_actions(r, stamp, annotations, annotations.len() as int)).push(
        ActionV::Flush,
    )
}

/// The text of a diagnostic.
pub open spec fn diagnostic_text(o: OutcomeV) -> Seq<char> {
    match o {
        OutcomeV::BadMagic => "frame with bad magic discarded"@,
        OutcomeV::CrcMismatch => "frame failed CRC, discarded"@,
        OutcomeV::Truncated => "truncated frame discarded"@,
        OutcomeV::LengthMismatch => "frame payload length mismatch, discarded"@,
        OutcomeV::FrameTooLong => "transport frame exceeded maximum length, discarded"@,
        OutcomeV::UnknownFrameType(t) => "unknown transport frame type 0x"@ + hex_padded(
            t as nat,
            2,
        ) + ", discarded"@,
        _ => "invalid SLIP escape, discarded"@,
    }
}

/// The packet that a frame holds, seen after the packets before it.
pub open spec fn next_packet(
    r: RendererV,
    frame: crate::framer::RawFrameV,
    elf: Option<ElfV>,
    floats: Seq<Seq<char>>,
) -> PacketV {
    packet_of(
        frame,
        PacketMeta {
            seq: frame.header.seq,
            time_ms: frame.header.time_ms,
            gap: gap_after(r.last_seq, frame.header.seq),
        },
        elf,
        floats,
    )
}

/// What an outcome gives. `local` is the text of the local time, shown where
/// timestamps are in use.
pub open spec fn outcome_actions(
    r: RendererV,
    o: OutcomeV,
    elf: Option<ElfV>,
    local: Seq<char>,
    annotations: Seq<Seq<char>>,
    floats: Seq<Seq<char>>,
) -> Seq<ActionV> {
    let stamp = stamp_text(r.opts.timestamp, local);
    match o {
        OutcomeV::Frame(f) => packet_actions(r, next_packet(r, f, elf, floats), stamp),
        OutcomeV::PlainText(b) => text_actions(r, b, stamp, annotations),
        _ => note(r, diagnostic_text(o)),
    }
}

/// The renderer after an outcome.
pub open spec fn renderer_after(
    r: RendererV,
    o: OutcomeV,
    elf: Option<ElfV>,
    floats: Seq<Seq<char>>,
) -> RendererV {
    match o {
        OutcomeV::Frame(f) => {
            let ends = ends_line(next_packet(r, f, elf, floats));
            RendererV {
                last_seq: Some(f.header.seq),
                plain: if ends {
                    fresh()
                } else {
                    r.plain
                },
                save_plain: if ends {
                    fresh()
                } else {
                    r.save_plain
                },
                ..r
            }
        },
        OutcomeV::PlainText(b) => RendererV {
            plain: if r.opts.to_stdout {
                plain_after(r.plain, b, r.opts.timestamp, r.opts.strip_ansi)
            } else {
                r.plain
            },
            save_plain: if r.saving {
                plain_after(r.save_plain, b, r.opts.timestamp, r.opts.strip_saved)
            } else {
                r.save_plain
            },
            ..r
        },
        _ => r,
    }
}

/// The floating-point texts that rendering an outcome needs.
pub open spec fn outcome_floats(o: OutcomeV, elf: Option<ElfV>) -> Seq<FloatFieldV> {
    match o {
        OutcomeV::Frame(f) => packet_floats(f, elf),
        _ => Seq::empty(),
    }
}

// ---- Building the steps ----

fn push_action(out: &mut Vec<Action>, a: Action)
    ensures
        action_views(final(out)@) == action_views(old(out)@).push(a@),
{
    let ghost before = action_views(out@);
    out.push(a);
    assert(action_views(out@) =~= before.push(a@));
}

/// `head`, then `tail`.
fn joined(head: &str, tail: &str) -> (r: String)
    ensures
        r@ == head@ + tail@,
{
    let mut s = head.to_string();
    s.append(tail);
    s
}

impl Renderer {
    /// Create a new renderer for the program `program` with the given options;
    /// `saving` says whether there is a save file.
    pub fn new(program: &str, opts: RenderOptions, saving: bool) -> (r: Self)
        ensures
            r@ == (RendererV {
                program: program@,
                opts,
                saving,
                last_seq: None,
                plain: fresh(),
                save_plain: fresh(),
            }),
    {
        Renderer {
            program: program.to_string(),
            opts,
            saving,
            decoder: Decoder::new(),
            plain: PlainTextState::new(),
            save_plain: PlainTextState::new(),
        }
    }

    /// Forget the last sequence number (after a reset of the device).
    pub fn reset_sequence(&mut self)
        ensures
            final(self)@ == (RendererV { last_seq: None, ..old(self)@ }),
    {
        self.decoder.reset();
    }

    fn add_print(&self, out: &mut Vec<Action>, line: String)
        ensures
            action_views(final(out)@) == action_views(old(out)@) + prints(self@, seq![line@]),
    {
        let ghost before = action_views(out@);
        if self.opts.to_stdout {
            push_action(out, Action::Print(line));
        }
        assert(action_views(out@) =~= before + prints(self@, seq![line@]));
    }

    fn add_save(&self, out: &mut Vec<Action>, line: String)
        ensures
            action_views(final(out)@) == action_views(old(out)@) + saves(self@, seq![line@]),
    {
        let ghost before = action_views(out@);
        if self.saving {
            push_action(out, Action::SaveLine(line));
        }
        assert(action_views(out@) =~= before + saves(self@, seq![line@]));
    }

    fn add_prints(&self, out: &mut Vec<Action>, lines: &Vec<String>)
        ensures
            action_views(final(out)@) == action_views(old(out)@) + prints(
                self@,
                text_views(lines@),
            ),
    {
        let ghost before = action_views(out@);
        let ghost views = text_views(lines@);
        if !self.opts.to_stdout {
            assert(action_views(out@) =~= before + prints(self@, views));
            return;
        }
        let mut i: usize = 0;
        assert(action_views(out@) =~= before + prints(self@, views).take(0));
        while i < lines.len()
            invariant
                i <= lines.len(),
                self@.opts.to_stdout,
                views == text_views(lines@),
                action_views(out@) == before + prints(self@, views).take(i as int),
            decreases lines.len() - i,
        {
            push_action(out, Action::Print(lines[i].as_str().to_string()));
            i += 1;
            assert(prints(self@, views)[i - 1] == ActionV::Print(lines[i - 1]@));
            assert(action_views(out@) =~= before + prints(self@, views).take(i as int));
        }
        assert(prints(self@, views).take(i as int) =~= prints(self@, views));
    }

    fn add_saves(&self, out: &mut Vec<Action>, lines: &Vec<String>)
        ensures
            action_views(final(out)@) == action_views(old(out)@) + saves(
                self@,
                text_views(lines@),
            ),
    {
        let ghost before = action_views(out@);
        let ghost views = text_views(lines@);
        if !self.saving {
            assert(action_views(out@) =~= before + saves(self@, views));
            return;
        }
        let mut i: usize = 0;
        assert(action_views(out@) =~= before + saves(self@, views).take(0));
        while i < lines.len()
            invariant
                i <= lines.len(),
                self@.saving,
                views == text_views(lines@),
                action_views(out@) == before + saves(self@, views).take(i as int),
            decreases lines.len() - i,
        {
            push_action(out, Action::SaveLine(lines[i].as_str().to_string()));
            i += 1;
            assert(saves(self@, views)[i - 1] == ActionV::SaveLine(lines[i - 1]@));
            assert(action_views(out@) =~= before + saves(self@, views).take(i as int));
        }
        assert(saves(self@, views).take(i as int) =~= saves(self@, views));
    }

    fn add_note(&self, out: &mut Vec<Action>, text: &str)
        ensures
            action_views(final(out)@) == action_views(old(out)@) + note(self@, text@),
    {
        let ghost before = action_views(out@);
        let mut s = joined(self.program.as_str(), ": ");
        s.append(text);
        push_action(out, Action::Note(s));
        assert(action_views(out@) =~= before + note(self@, text@));
    }

    /// Adds a dim, yellow warning/progress line, behind the timestamp. The message
    /// is ANSI-stripped if the renderer is configured for stripping.
    fn warn_line(&self, out: &mut Vec<Action>, stamp: &str, msg: &str)
        ensures
            action_views(final(out)@) == action_views(old(out)@) + warn_actions(
                self@,
                stamp@,
                msg@,
            ),
    {
        let ghost before = action_views(out@);
        let text = clean_string(joined(stamp, msg).as_str(), self.opts.strip_ansi);
        let shown = if self.opts.use_color {
            let mut s = joined(DIM, YELLOW);
            s.append(text.as_str());
            s.append(RESET);
            s
        } else {
            text.as_str().to_string()
        };
        self.add_print(out, shown);
        self.add_save(out, text);
        assert(action_views(out@) =~= before + warn_actions(self@, stamp@, msg@));
    }

    fn head(stamp: &str, level: Level, time_ms: u32, tag: &str) -> (r: String)
        ensures
            r@ == head_text(stamp@, level, time_ms, tag@),
    {
        let mut s = stamp.to_string();
        s.push(level.letter());
        s.append(" (");
        s.append(pad_start(decimal_string(time_ms as u64).as_str(), 7, ' ').as_str());
        s.append(") ");
        s.append(tag);
        assert(s@ =~= head_text(stamp@, level, time_ms, tag@));
        s
    }

    fn add_log(
        &self,
        out: &mut Vec<Action>,
        stamp: &str,
        meta: &PacketMeta,
        level: Level,
        tag: &str,
        message: &str,
    )
        ensures
            action_views(final(out)@) == action_views(old(out)@) + log_actions(
                self@,
                stamp@,
                *meta,
                level,
                tag@,
                message@,
            ),
    {
        let ghost before = action_views(out@);
        let mut prefix = Self::head(stamp, level, meta.time_ms, tag);
        prefix.append(": ");
        let indent = prefix.as_str().unicode_len();
        if let Some(gap) = meta.gap {
            let mut msg = joined("--- missed ", decimal_string(gap as u64).as_str());
            msg.append(" packet(s) before seq ");
            msg.append(decimal_string(meta.seq as u64).as_str());
            msg.append(" ---");
            self.warn_line(out, stamp, msg.as_str());
        }
        let ghost mid = action_views(out@);
        let text = clean_string(message, self.opts.strip_ansi);
        let lines = print_log_line(
            prefix.as_str(),
            text.as_str(),
            level_color(level),
            indent,
            self.opts.width,
            self.opts.use_color,
        );
        self.add_prints(out, &lines);
        self.add_save(out, joined(prefix.as_str(), text.as_str()));
        proof {
            let warning = match meta.gap {
                Some(gap) => warn_actions(self@, stamp@, gap_text(gap, meta.seq)),
                None => Seq::empty(),
            };
            assert(mid =~= before + warning);
            assert(action_views(out@) =~= before + log_actions(
                self@,
                stamp@,
                *meta,
                level,
                tag@,
                message@,
            ));
        }
    }

    fn color_line(&self, color: &str, text: &str) -> (r: String)
        ensures
            r@ == colored(self@, color@, text@),
    {
        if self.opts.use_color {
            let mut s = joined(color, text);
            s.append(RESET);
            s
        } else {
            text.to_string()
        }
    }

    fn color_lines(&self, color: &str, rows: &Vec<String>) -> (r: Vec<String>)
        ensures
            text_views(r@) == Seq::new(
                rows@.len(),
                |i: int| colored(self@, color@, text_views(rows@)[i]),
            ),
    {
        let ghost views = text_views(rows@);
        let mut out: Vec<String> = Vec::new();
        let mut i: usize = 0;
        while i < rows.len()
            invariant
                i <= rows.len(),
                views == text_views(rows@),
                text_views(out@) == Seq::new(i as nat, |k: int| colored(self@, color@, views[k])),
            decreases rows.len() - i,
        {
            let line = self.color_line(color, rows[i].as_str());
            let ghost before = text_views(out@);
            assert(views[i as int] == rows[i as int]@);
            out.push(line);
            i += 1;
            assert(text_views(out@) =~= before.push(line@));
            assert(text_views(out@) =~= Seq::new(
                i as nat,
                |k: int| colored(self@, color@, views[k]),
            ));
        }
        out
    }

    fn add_buffer(
        &self,
        out: &mut Vec<Action>,
        stamp: &str,
        level: Level,
        head: &str,
        bytes: &[u8],
    )
        ensures
            action_views(final(out)@) == action_views(old(out)@) + buffer_actions(
                self@,
                stamp@,
                level,
                head@,
                bytes@,
            ),
    {
        let ghost before = action_views(out@);
        let color = level_color(level);
        let bold = joined(color, BOLD);
        self.add_print(out, self.color_line(bold.as_str(), head));
        self.add_save(out, head.to_string());
        let rows = hexdump_lines(stamp, bytes);
        let colored_rows = self.color_lines(color, &rows);
        self.add_prints(out, &colored_rows);
        self.add_saves(out, &rows);
        assert(action_views(out@) =~= before + buffer_actions(
            self@,
            stamp@,
            level,
            head@,
            bytes@,
        ));
    }

    /// The steps for a decoded packet, behind the timestamp `stamp`.
    pub fn render_packet(&self, packet: &DecodedPacket, stamp: &str) -> (r: Vec<Action>)
        ensures
            action_views(r@) == packet_actions(self@, packet@, stamp@),
    {
        let mut out: Vec<Action> = Vec::new();
        assert(action_views(out@) =~= Seq::empty());
        match packet {
            DecodedPacket::Log(l) => {
                self.add_log(
                    &mut out,
                    stamp,
                    &l.meta,
                    l.level,
                    l.tag.as_str(),
                    l.message.as_str(),
                );
            },
            DecodedPacket::Dropped(d) => {
                let mut msg = joined("--- device dropped ", decimal_string(d.count as u64).as_str());
                msg.append(" packet(s) at seq ");
                msg.append(decimal_string(d.meta.seq as u64).as_str());
                msg.append(" (t=");
                msg.append(decimal_string(d.meta.time_ms as u64).as_str());
                msg.append("ms) ---");
                self.warn_line(&mut out, stamp, msg.as_str());
            },
            DecodedPacket::Buffer(b) => {
                let len = decimal_string(b.bytes.len() as u64);
                let mut head = Self::head(stamp, b.level, b.meta.time_ms, b.tag.as_str());
                head.append(" [buf ");
                head.append(decimal_string(b.total_len as u64).as_str());
                head.append(" @");
                head.append(decimal_string(b.offset as u64).as_str());
                head.append(" +");
                head.append(len.as_str());
                head.append("]: <buffer dump, ");
                head.append(len.as_str());
                head.append(" bytes>");
                self.add_buffer(&mut out, stamp, b.level, head.as_str(), b.bytes.as_slice());
            },
            DecodedPacket::Other { meta, kind, payload } => {
                let mut text = joined(*kind, " packet seq ");
                text.append(decimal_string(meta.seq as u64).as_str());
                text.append(" t=");
                text.append(decimal_string(meta.time_ms as u64).as_str());
                text.append("ms (");
                text.append(decimal_string(payload.len() as u64).as_str());
                text.append(" bytes)");
                self.add_note(&mut out, text.as_str());
            },
            DecodedPacket::Malformed { meta, reason } => {
                let mut text = "malformed packet seq ".to_string();
                if let Some(m) = meta {
                    text.append(decimal_string(m.seq as u64).as_str());
                }
                text.append(": ");
                text.append(reason.as_str());
                proof {
                    let seq = match *meta {
                        Some(m) => decimal(m.seq as nat),
                        None => Seq::empty(),
                    };
                    assert(text@ =~= "malformed packet seq "@ + seq + ": "@ + reason@);
                }
                self.add_note(&mut out, text.as_str());
            },
        }
        assert(action_views(out@) =~= packet_actions(self@, packet@, stamp@));
        out
    }

    fn add_annotation(&self, out: &mut Vec<Action>, stamp: &str, line: &str)
        ensures
            action_views(final(out)@) == action_views(old(out)@) + annotation_actions(
                self@,
                stamp@,
                line@,
            ),
    {
        let ghost before = action_views(out@);
        let text = clean_string(line, self.opts.strip_ansi);
        if self.opts.to_stdout {
            let mut bytes: Vec<u8> = Vec::new();
            write_plain_annotation(&mut bytes, text.as_str(), stamp);
            push_action(out, Action::PrintBytes(bytes));
        }
        self.add_save(out, joined(stamp, text.as_str()));
        assert(action_views(out@) =~= before + annotation_actions(self@, stamp@, line@));
    }

    /// The steps for plain text of the device, with its annotations.
    pub fn render_text(&mut self, bytes: &[u8], stamp: &str, annotations: &[String]) -> (r: Vec<
        Action,
    >)
        ensures
            action_views(r@) == text_actions(
                old(self)@,
                bytes@,
                stamp@,
                text_views(annotations@),
            ),
            final(self)@ == (RendererV {
                plain: if old(self)@.opts.to_stdout {
                    plain_after(
                        old(self)@.plain,
                        bytes@,
                        old(self)@.opts.timestamp,
                        old(self)@.opts.strip_ansi,
                    )
                } else {
                    old(self)@.plain
                },
                save_plain: if old(self)@.saving {
                    plain_after(
                        old(self)@.save_plain,
                        bytes@,
                        old(self)@.opts.timestamp,
                        old(self)@.opts.strip_saved,
                    )
                } else {
                    old(self)@.save_plain
                },
                ..old(self)@
            }),
    {
        let ghost start = self@;
        let ghost views = text_views(annotations@);
        let mut out: Vec<Action> = Vec::new();
        assert(action_views(out@) =~= Seq::empty());
        if self.opts.to_stdout {
            let mut text: Vec<u8> = Vec::new();
            let mut state = self.plain;
            write_plain_text(
                &mut text,
                bytes,
                self.opts.timestamp,
                stamp,
                self.opts.strip_ansi,
                &mut state,
            );
            self.plain = state;
            push_action(&mut out, Action::PrintBytes(text));
        }
        if self.saving {
            let mut text: Vec<u8> = Vec::new();
            let mut state = self.save_plain;
            write_plain_text(
                &mut text,
                bytes,
                self.opts.timestamp,
                stamp,
                self.opts.strip_saved,
                &mut state,
            );
            self.save_plain = state;
            push_action(&mut out, Action::SaveBytes(text));
        }
        let ghost base = action_views(out@);
        let ghost finished = self@;
        let mut i: usize = 0;
        assert(base =~= base + annotations_actions(start, stamp@, views, 0));
        while i < annotations.len()
            invariant
                i <= annotations.len(),
                views == text_views(annotations@),
                self@ == finished,
                finished.opts == start.opts,
                finished.saving == start.saving,
                action_views(out@) == base + annotations_actions(start, stamp@, views, i as int),
            decreases annotations.len() - i,
        {
            assert(views[i as int] == annotations[i as int]@);
            self.add_annotation(&mut out, stamp, annotations[i].as_str());
            i += 1;
            assert(action_views(out@) =~= base + annotations_actions(
                start,
                stamp@,
                views,
                i as int,
            ));
        }
        push_action(&mut out, Action::Flush);
        assert(action_views(out@) =~= text_actions(start, bytes@, stamp@, views));
        out
    }

    fn diagnostic(outcome: &Outcome) -> (r: String)
        requires
            !(outcome is Frame),
            !(outcome is PlainText),
        ensures
            r@ == diagnostic_text(outcome@),
    {
        match outcome {
            Outcome::BadMagic => "frame with bad magic discarded".to_string(),
            Outcome::CrcMismatch => "frame failed CRC, discarded".to_string(),
            Outcome::Truncated => "truncated frame discarded".to_string(),
            Outcome::LengthMismatch => "frame payload length mismatch, discarded".to_string(),
            Outcome::FrameTooLong => {
                "transport frame exceeded maximum length, discarded".to_string()
            },
            Outcome::UnknownFrameType(t) => {
                let mut s = joined(
                    "unknown transport frame type 0x",
                    hex_string(*t as u64, 2).as_str(),
                );
                s.append(", discarded");
                s
            },
            _ => "invalid SLIP escape, discarded".to_string(),
        }
    }

    /// Lists the floating-point texts that [`Renderer::handle`] needs for an outcome.
    pub fn float_fields(outcome: &Outcome, elf: Option<&ElfStrings>) -> (r: Vec<FloatField>)
        ensures
            field_views(r@) == outcome_floats(outcome@, elf_view(elf)),
    {
        match outcome {
            Outcome::Frame(frame) => Decoder::float_fields(frame, elf),
            _ => {
                let none: Vec<FloatField> = Vec::new();
                assert(field_views(none@) =~= Seq::empty());
                none
            },
        }
    }

    /// Process a single [`Outcome`] through the decode pipeline and render it.
    /// `local` is the local time as text, `annotations` what is known about the
    /// addresses in plain text, and `floats` the texts that
    /// [`Renderer::float_fields`] lists.
    pub fn handle(
        &mut self,
        outcome: &Outcome,
        elf: Option<&ElfStrings>,
        local: &str,
        annotations: &[String],
        floats: &[String],
    ) -> (r: Vec<Action>)
        requires
            floats@.len() == outcome_floats(outcome@, elf_view(elf)).len(),
        ensures
            action_views(r@) == outcome_actions(
                old(self)@,
                outcome@,
                elf_view(elf),
                local@,
                text_views(annotations@),
                text_views(floats@),
            ),
            final(self)@ == renderer_after(
                old(self)@,
                outcome@,
                elf_view(elf),
                text_views(floats@),
            ),
    {
        let stamp = ts_prefix(self.opts.timestamp, local);
        match outcome {
            Outcome::Frame(frame) => {
                let ghost start = self@;
                let packet = self.decoder.decode(frame, elf, floats);
                let actions = self.render_packet(&packet, stamp.as_str());
                proof {
                    lemma_packet_actions_ignore_state(start, self@, packet@, stamp@);
                }
                match packet {
                    DecodedPacket::Log(_) | DecodedPacket::Dropped(_) | DecodedPacket::Buffer(
                        _,
                    ) => {
                        self.plain.reset_line();
                        self.save_plain.reset_line();
                    },
                    _ => {},
                }
                actions
            },
            Outcome::PlainText(bytes) => self.render_text(
                bytes.as_slice(),
                stamp.as_str(),
                annotations,
            ),
            _ => {
                let mut out: Vec<Action> = Vec::new();
                assert(action_views(out@) =~= Seq::empty());
                let text = Self::diagnostic(outcome);
                self.add_note(&mut out, text.as_str());
                assert(action_views(out@) =~= note(self@, diagnostic_text(outcome@)));
                out
            },
        }
    }

    /// Renders an outcome if `floats` holds as many texts as
    /// [`Renderer::float_fields`] lists; else gives nothing and leaves the renderer as
    /// it is.
    pub fn try_handle(
        &mut self,
        outcome: &Outcome,
        elf: Option<&ElfStrings>,
        local: &str,
        annotations: &[String],
        floats: &[String],
    ) -> (r: Option<Vec<Action>>)
        ensures
            r is Some <==> floats@.len() == outcome_floats(outcome@, elf_view(elf)).len(),
            r is None ==> *final(self) == *old(self),
            r matches Some(actions) ==> action_views(actions@) == outcome_actions(
                old(self)@,
                outcome@,
                elf_view(elf),
                local@,
                text_views(annotations@),
                text_views(floats@),
            ) && final(self)@ == renderer_after(
                old(self)@,
                outcome@,
                elf_view(elf),
                text_views(floats@),
            ),
    {
        let fields = Self::float_fields(outcome, elf);
        assert(field_views(fields@).len() == fields@.len());
        if fields.len() == floats.len() {
            Some(self.handle(outcome, elf, local, annotations, floats))
        } else {
            None
        }
    }
}

proof fn lemma_packet_actions_ignore_state(
    a: RendererV,
    b: RendererV,
    packet: PacketV,
    stamp: Seq<char>,
)
    requires
        a.program == b.program,
        a.opts == b.opts,
        a.saving == b.saving,
    ensures
        packet_actions(a, packet, stamp) == packet_actions(b, packet, stamp),
{
    assert forall|lines: Seq<Seq<char>>| #[trigger] prints(a, lines) == prints(b, lines) by {
        assert(prints(a, lines) =~= prints(b, lines));
    }
    assert forall|lines: Seq<Seq<char>>| #[trigger] saves(a, lines) == saves(b, lines) by {
        assert(saves(a, lines) =~= saves(b, lines));
    }
    if let PacketV::Buffer { meta, level, tag, total_len, offset, bytes } = packet {
        let rows = dump_rows(stamp, bytes);
        assert(Seq::new(rows.len(), |i: int| colored(a, color_of(level), rows[i])) =~= Seq::new(
            rows.len(),
            |i: int| colored(b, color_of(level), rows[i]),
        ));
    }
}

// ---- Laws ----

/// True if none of the actions prints to stdout.
pub open spec fn prints_nothing(actions: Seq<ActionV>) -> bool {
    forall|k: int|
        0 <= k < actions.len() ==> !(#[trigger] actions[k] is Print) && !(actions[k] is PrintBytes)
}

proof fn lemma_silent_annotations(
    r: RendererV,
    stamp: Seq<char>,
    lines: Seq<Seq<char>>,
    n: int,
)
    requires
        !r.opts.to_stdout,
    ensures
        prints_nothing(annotations_actions(r, stamp, lines, n)),
        !r.saving ==> annotations_actions(r, stamp, lines, n) == Seq::<ActionV>::empty(),
    decreases n,
{
    if n > 0 {
        lemma_silent_annotations(r, stamp, lines, n - 1);
        let before = annotations_actions(r, stamp, lines, n - 1);
        let last = annotation_actions(r, stamp, lines[n - 1]);
        assert(prints_nothing(before + last));
        if !r.saving {
            assert(last =~= Seq::empty());
        }
    }
}

/// With printing off nothing goes to stdout, saved or not; where nothing is saved
/// either, only diagnostics and the flush remain.
pub proof fn silent_renderer_never_prints(
    r: RendererV,
    o: OutcomeV,
    elf: Option<ElfV>,
    local: Seq<char>,
    annotations: Seq<Seq<char>>,
    floats: Seq<Seq<char>>,
)
    requires
        !r.opts.to_stdout,
    ensures
        ({
            let actions = outcome_actions(r, o, elf, local, annotations, floats);
            &&& prints_nothing(actions)
            &&& !r.saving ==> forall|k: int|
                0 <= k < actions.len() ==> (#[trigger] actions[k] is Note || actions[k] is Flush)
        }),
{
    lemma_silent_annotations(
        r,
        stamp_text(r.opts.timestamp, local),
        annotations,
        annotations.len() as int,
    );
}

} // verus!
