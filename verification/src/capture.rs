//! Captured events: one database row for each transport outcome.
//!
//! The capture side writes raw transport outcomes (deframed on9log binary
//! frames, SLIP-framed plain text, raw plain text, and deframer diagnostics)
//! verbatim, stamped with the host wall-clock millisecond at which each outcome
//! was received. The decode side replays them in capture order.
//!
//! Storage is intentionally ELF-independent: the customer, who does not have the
//! firmware ELF with the secret format strings, captures raw header+payload bytes.
//! Each on9log frame stores its 18-byte header and payload as BLOBs; the parsed
//! header fields are also written as normal columns so a capture database can be
//! queried directly (`WHERE level = 1`, `ORDER BY seq`, ...) without re-parsing.

use crate::elf_resolv::{optional_text, same_text};
use crate::framer::{Outcome, OutcomeV, RawFrame, RawFrameV};
use crate::text::{
    chars_of, digits, digits_denote_their_number, hex_padded, hex_string,
    hex_text_denotes_its_number, number_in, parse_hex, parsed_hex,
};
use crate::wire::{header_fields_stand_in_order, Header, Level, PacketType};
use vstd::prelude::*;
use vstd::string::*;

verus! {

/// One row of the `events` table.
#[derive(Debug, Clone, PartialEq, Eq)]
pub struct EventRow {
    /// Host time of receipt, milliseconds since the Unix epoch.
    pub captured_at_ms: i64,
    /// What the row holds.
    pub kind: String,
    /// Sequence number of a frame.
    pub seq: Option<i64>,
    /// Device time of a frame.
    pub device_time_ms: Option<i64>,
    /// Level of a frame.
    pub level: Option<i64>,
    /// Packet type of a frame.
    pub ptype: Option<i64>,
    /// Tag address of a frame.
    pub tag_id: Option<i64>,
    /// Format string address of a frame.
    pub fmt_id: Option<i64>,
    /// Payload length field of a frame.
    pub payload_len: Option<i64>,
    /// Header of a frame.
    pub header: Option<Vec<u8>>,
    /// Payload of a frame, or text.
    pub payload: Option<Vec<u8>>,
    /// Detail of a diagnostic.
    pub detail: Option<String>,
}

/// Bytes that may be missing.
pub open spec fn optional_bytes(b: Option<Vec<u8>>) -> Option<Seq<u8>> {
    match b {
        Some(v) => Some(v@),
        None => None,
    }
}

/// One row.
#[verifier::ext_equal]
pub struct EventRowV {
    pub captured_at_ms: i64,
    pub kind: Seq<char>,
    pub seq: Option<i64>,
    pub device_time_ms: Option<i64>,
    pub level: Option<i64>,
    pub ptype: Option<i64>,
    pub tag_id: Option<i64>,
    pub fmt_id: Option<i64>,
    pub payload_len: Option<i64>,
    pub header: Option<Seq<u8>>,
    pub payload: Option<Seq<u8>>,
    pub detail: Option<Seq<char>>,
}

impl View for EventRow {
    type V = EventRowV;

    open spec fn view(&self) -> EventRowV {
        EventRowV {
            captured_at_ms: self.captured_at_ms,
            kind: self.kind@,
            seq: self.seq,
            device_time_ms: self.device_time_ms,
            level: self.level,
            ptype: self.ptype,
            tag_id: self.tag_id,
            fmt_id: self.fmt_id,
            payload_len: self.payload_len,
            header: optional_bytes(self.header),
            payload: optional_bytes(self.payload),
            detail: optional_text(self.detail),
        }
    }
}

/// A row of a kind that holds nothing else.
pub open spec fn bare_row(ts: u64, kind: Seq<char>) -> EventRowV {
    EventRowV {
        captured_at_ms: ts as i64,
        kind,
        seq: None,
        device_time_ms: None,
        level: None,
        ptype: None,
        tag_id: None,
        fmt_id: None,
        payload_len: None,
        header: None,
        payload: None,
        detail: None,
    }
}

/// The kind of a row.
pub open spec fn kind_of(o: OutcomeV) -> Seq<char> {
    match o {
        OutcomeV::Frame(_) => "on9log"@,
        OutcomeV::PlainText(_) => "text"@,
        OutcomeV::UnknownFrameType(_) => "unknown_frame_type"@,
        OutcomeV::BadMagic => "bad_magic"@,
        OutcomeV::CrcMismatch => "crc_mismatch"@,
        OutcomeV::Truncated => "truncated"@,
        OutcomeV::LengthMismatch => "length_mismatch"@,
        OutcomeV::FrameTooLong => "frame_too_long"@,
        OutcomeV::InvalidEscape => "invalid_escape"@,
    }
}

/// The row that an outcome is stored as.
pub open spec fn row_of(o: OutcomeV, ts: u64) -> EventRowV {
    let bare = bare_row(ts, kind_of(o));
    match o {
        OutcomeV::Frame(f) => EventRowV {
            seq: Some(f.header.seq as i64),
            device_time_ms: Some(f.header.time_ms as i64),
            level: Some(f.header.level.code() as i64),
            ptype: Some(f.header.ptype.code() as i64),
            tag_id: Some(f.header.tag_id as i64),
            fmt_id: Some(f.header.fmt_id as i64),
            payload_len: Some(f.header.payload_len as i64),
            header: Some(f.header_bytes),
            payload: Some(f.payload),
            ..bare
        },
        OutcomeV::PlainText(b) => EventRowV { payload: Some(b), ..bare },
        OutcomeV::UnknownFrameType(t) => EventRowV {
            detail: Some(hex_padded(t as nat, 2)),
            ..bare
        },
        _ => bare,
    }
}

/// Bytes, or none of them.
pub open spec fn bytes_or_empty(b: Option<Seq<u8>>) -> Seq<u8> {
    match b {
        Some(s) => s,
        None => Seq::empty(),
    }
}

/// The outcome that a row holds, if it holds one. The kind decides; the header of a
/// frame is parsed again, and the other header columns are not looked at.
pub open spec fn outcome_of(
    kind: Seq<char>,
    header: Option<Seq<u8>>,
    payload: Option<Seq<u8>>,
    detail: Option<Seq<char>>,
) -> Option<OutcomeV> {
    if kind == "on9log"@ {
        match header {
            None => None,
            Some(h) => match Header::parsed(h) {
                None => None,
                Some(parsed) => Some(
                    OutcomeV::Frame(
                        RawFrameV {
                            header: parsed,
                            header_bytes: h,
                            payload: bytes_or_empty(payload),
                        },
                    ),
                ),
            },
        }
    } else if kind == "text"@ {
        Some(OutcomeV::PlainText(bytes_or_empty(payload)))
    } else if kind == "bad_magic"@ {
        Some(OutcomeV::BadMagic)
    } else if kind == "crc_mismatch"@ {
        Some(OutcomeV::CrcMismatch)
    } else if kind == "truncated"@ {
        Some(OutcomeV::Truncated)
    } else if kind == "length_mismatch"@ {
        Some(OutcomeV::LengthMismatch)
    } else if kind == "frame_too_long"@ {
        Some(OutcomeV::FrameTooLong)
    } else if kind == "unknown_frame_type"@ {
        match detail {
            None => None,
            Some(d) => match parsed_hex(d, u8::MAX as nat) {
                None => None,
                Some(t) => Some(OutcomeV::UnknownFrameType(t as u8)),
            },
        }
    } else if kind == "invalid_escape"@ {
        Some(OutcomeV::InvalidEscape)
    } else {
        None
    }
}

fn copy_bytes(bytes: &Vec<u8>) -> (r: Vec<u8>)
    ensures
        r@ == bytes@,
{
    let mut v: Vec<u8> = Vec::new();
    v.extend_from_slice(bytes.as_slice());
    assert(v@ =~= bytes@);
    v
}

fn bare(ts: u64, kind: &str) -> (r: EventRow)
    ensures
        r@ == bare_row(ts, kind@),
{
    EventRow {
        captured_at_ms: ts as i64,
        kind: kind.to_string(),
        seq: None,
        device_time_ms: None,
        level: None,
        ptype: None,
        tag_id: None,
        fmt_id: None,
        payload_len: None,
        header: None,
        payload: None,
        detail: None,
    }
}

/// The row that a single [`Outcome`] is stored as. Dispatches on the outcome variant
/// to set the correct `kind` column and relevant field values; of a diagnostic, only
/// the `kind` and optional `detail` columns are populated.
pub fn event_row(outcome: &Outcome, ts: u64) -> (r: EventRow)
    ensures
        r@ == row_of(outcome@, ts),
{
    match outcome {
        Outcome::Frame(f) => {
            let mut row = bare(ts, "on9log");
            row.seq = Some(f.header.seq as i64);
            row.device_time_ms = Some(f.header.time_ms as i64);
            row.level = Some(f.header.level.to_byte() as i64);
            row.ptype = Some(f.header.ptype.to_byte() as i64);
            row.tag_id = Some(f.header.tag_id as i64);
            row.fmt_id = Some(f.header.fmt_id as i64);
            row.payload_len = Some(f.header.payload_len as i64);
            row.header = Some(copy_bytes(&f.header_bytes));
            row.payload = Some(copy_bytes(&f.payload));
            row
        },
        Outcome::PlainText(bytes) => {
            let mut row = bare(ts, "text");
            row.payload = Some(copy_bytes(bytes));
            row
        },
        Outcome::UnknownFrameType(t) => {
            let mut row = bare(ts, "unknown_frame_type");
            row.detail = Some(hex_string(*t as u64, 2));
            row
        },
        Outcome::BadMagic => bare(ts, "bad_magic"),
        Outcome::CrcMismatch => bare(ts, "crc_mismatch"),
        Outcome::Truncated => bare(ts, "truncated"),
        Outcome::LengthMismatch => bare(ts, "length_mismatch"),
        Outcome::FrameTooLong => bare(ts, "frame_too_long"),
        Outcome::InvalidEscape => bare(ts, "invalid_escape"),
    }
}

fn or_empty(b: &Option<Vec<u8>>) -> (r: Vec<u8>)
    ensures
        r@ == bytes_or_empty(optional_bytes(*b)),
{
    match b {
        Some(v) => copy_bytes(v),
        None => {
            let v: Vec<u8> = Vec::new();
            assert(v@ =~= Seq::empty());
            v
        },
    }
}

/// An outcome that may be missing.
pub open spec fn optional_outcome(o: Option<Outcome>) -> Option<OutcomeV> {
    match o {
        Some(x) => Some(x@),
        None => None,
    }
}

/// Reconstruct an [`Outcome`] from stored database columns.
///
/// The `kind` column determines which variant to use. For `"on9log"` frames
/// the header BLOB is re-parsed; for diagnostic kinds the string detail is
/// used when applicable. Returns `None` if the stored data cannot be parsed
/// (indicating a corrupted or hand-edited database).
pub fn reconstruct(
    kind: &str,
    header: &Option<Vec<u8>>,
    payload: &Option<Vec<u8>>,
    detail: &Option<String>,
) -> (r: Option<Outcome>)
    ensures
        optional_outcome(r) == outcome_of(
            kind@,
            optional_bytes(*header),
            optional_bytes(*payload),
            optional_text(*detail),
        ),
{
    if same_text(kind, "on9log") {
        let header_bytes = match header {
            Some(h) => copy_bytes(h),
            None => return None,
        };
        match Header::parse(header_bytes.as_slice()) {
            Some(header) => Some(
                Outcome::Frame(RawFrame { header, header_bytes, payload: or_empty(payload) }),
            ),
            None => None,
        }
    } else if same_text(kind, "text") {
        Some(Outcome::PlainText(or_empty(payload)))
    } else if same_text(kind, "bad_magic") {
        Some(Outcome::BadMagic)
    } else if same_text(kind, "crc_mismatch") {
        Some(Outcome::CrcMismatch)
    } else if same_text(kind, "truncated") {
        Some(Outcome::Truncated)
    } else if same_text(kind, "length_mismatch") {
        Some(Outcome::LengthMismatch)
    } else if same_text(kind, "frame_too_long") {
        Some(Outcome::FrameTooLong)
    } else if same_text(kind, "unknown_frame_type") {
        match detail {
            Some(d) => {
                let chars = chars_of(d.as_str());
                match parse_hex(chars.as_slice(), u8::MAX as u64) {
                    Some(t) => Some(Outcome::UnknownFrameType(t as u8)),
                    None => None,
                }
            },
            None => None,
        }
    } else if same_text(kind, "invalid_escape") {
        Some(Outcome::InvalidEscape)
    } else {
        None
    }
}

/// A stored outcome comes back as it was captured: a frame, where its header is what
/// its header bytes say, and text and diagnostics always.
pub proof fn stored_outcome_comes_back(o: OutcomeV, ts: u64)
    requires
        o matches OutcomeV::Frame(f) ==> Header::parsed(f.header_bytes) == Some(f.header),
    ensures
        ({
            let row = row_of(o, ts);
            outcome_of(row.kind, row.header, row.payload, row.detail) == Some(o)
        }),
{
    reveal_strlit("on9log");
    reveal_strlit("text");
    reveal_strlit("unknown_frame_type");
    reveal_strlit("bad_magic");
    reveal_strlit("crc_mismatch");
    reveal_strlit("truncated");
    reveal_strlit("length_mismatch");
    reveal_strlit("frame_too_long");
    reveal_strlit("invalid_escape");
    assert("on9log"@.len() == 6 && "text"@.len() == 4 && "unknown_frame_type"@.len() == 18
        && "bad_magic"@.len() == 9 && "crc_mismatch"@.len() == 12 && "truncated"@.len() == 9
        && "length_mismatch"@.len() == 15 && "frame_too_long"@.len() == 14
        && "invalid_escape"@.len() == 14);
    assert("bad_magic"@[0] != "truncated"@[0]);
    assert("frame_too_long"@[0] != "invalid_escape"@[0]);
    if let OutcomeV::UnknownFrameType(t) = o {
        hex_text_denotes_its_number(t as nat, 2, u8::MAX as nat);
    }
}

/// The time of receipt comes back from the signed column that holds it.
pub proof fn stored_time_comes_back(o: OutcomeV, ts: u64)
    ensures
        row_of(o, ts).captured_at_ms as u64 == ts,
{
    assert((ts as i64) as u64 == ts) by (bit_vector);
}

/// How many events were captured, and how many since the last report.
#[derive(Debug, Clone, Copy, PartialEq, Eq, Structural)]
pub struct Progress {
    /// Events in the database.
    pub total: u64,
    /// Events since the last report.
    pub since_print: u64,
}

/// Events between two reports.
pub const REPORT_EVERY: u64 = 100;

impl Progress {
    /// Progress of a capture that goes on with `existing` events.
    pub fn new(existing: u64) -> (r: Self)
        ensures
            r.total == existing,
            r.since_print == 0,
    {
        Progress { total: existing, since_print: 0 }
    }

    /// Counts `n` more events, and says whether to report.
    pub fn add_events(&mut self, n: u64) -> (r: bool)
        requires
            old(self).total + n <= u64::MAX,
            old(self).since_print <= old(self).total,
        ensures
            final(self).total == old(self).total + n,
            r == (old(self).since_print + n >= REPORT_EVERY),
            final(self).since_print == (if r {
                0
            } else {
                old(self).since_print + n
            }),
    {
        self.total = self.total + n;
        self.since_print = self.since_print + n;
        if self.since_print >= REPORT_EVERY {
            self.since_print = 0;
            true
        } else {
            false
        }
    }
}

/// The row of a frame shows what its header bytes say, so that it can be looked for, and
/// keeps the bytes of the header and of the payload.
pub proof fn columns_show_the_header(f: RawFrameV, ts: u64)
    requires
        Header::parsed(f.header_bytes) == Some(f.header),
    ensures
        ({
            let row = row_of(OutcomeV::Frame(f), ts);
            let b = f.header_bytes;
            &&& row.kind == "on9log"@
            &&& row.ptype == Some((b[1] / 16) as i64)
            &&& row.level == Some((b[1] % 16) as i64)
            &&& row.seq == Some((b[2] + 256 * b[3]) as i64)
            &&& row.device_time_ms == Some(
                (b[4] + 256 * (b[5] + 256 * (b[6] + 256 * b[7]))) as i64,
            )
            &&& row.tag_id == Some((b[8] + 256 * (b[9] + 256 * (b[10] + 256 * b[11]))) as i64)
            &&& row.fmt_id == Some((b[12] + 256 * (b[13] + 256 * (b[14] + 256 * b[15]))) as i64)
            &&& row.payload_len == Some((b[16] + 256 * b[17]) as i64)
            &&& row.header == Some(b)
            &&& row.payload == Some(f.payload)
            &&& row.detail is None
        }),
{
    header_fields_stand_in_order(f.header_bytes);
}

/// Only the row of a frame has columns of a header, only the rows of frames and of text
/// have a payload, and only that of an unknown frame type has a detail, which is the type
/// in two hexadecimal digits.
pub proof fn other_columns_are_empty(o: OutcomeV, ts: u64)
    requires
        !(o is Frame),
    ensures
        ({
            let row = row_of(o, ts);
            &&& row.seq is None && row.device_time_ms is None && row.level is None
            &&& row.ptype is None && row.tag_id is None && row.fmt_id is None
            &&& row.payload_len is None && row.header is None
            &&& row.payload == (match o {
                OutcomeV::PlainText(b) => Some(b),
                _ => None,
            })
            &&& row.detail is Some <==> o is UnknownFrameType
        }),
        o matches OutcomeV::UnknownFrameType(t) ==> row_of(o, ts).detail->0.len() == 2
            && number_in(row_of(o, ts).detail->0, 16) == t,
{
    if let OutcomeV::UnknownFrameType(t) = o {
        let s = digits(t as nat, 16, false);
        let d = hex_padded(t as nat, 2);
        digits_denote_their_number(t as nat, 16, false);
        reveal_with_fuel(digits, 3);
        reveal_with_fuel(number_in, 3);
        if s.len() == 1 {
            assert(d =~= seq!['0'] + s);
            assert(d.drop_last() =~= seq!['0']);
            assert(seq!['0'].drop_last() =~= Seq::<char>::empty());
            assert(s.drop_last() =~= Seq::<char>::empty());
        }
    }
}

/// A row without a payload holds an empty one. A row that lacks what its kind needs, or
/// holds something else in its place, holds no outcome, and neither does a row of a kind
/// that is not known.
pub proof fn damaged_rows_hold_no_outcome(
    kind: Seq<char>,
    header: Option<Seq<u8>>,
    payload: Option<Seq<u8>>,
    detail: Option<Seq<char>>,
)
    ensures
        outcome_of(kind, header, None, detail) == outcome_of(
            kind,
            header,
            Some(Seq::empty()),
            detail,
        ),
        kind == "on9log"@ && (header is None || Header::parsed(header->0) is None) ==> outcome_of(
            kind,
            header,
            payload,
            detail,
        ) is None,
        kind == "unknown_frame_type"@ && (detail is None || parsed_hex(detail->0, 0xff) is None)
            ==> outcome_of(kind, header, payload, detail) is None,
        outcome_of(kind, header, payload, detail) matches Some(o) ==> kind_of(o) == kind,
{
    reveal_strlit("on9log");
    reveal_strlit("text");
    reveal_strlit("unknown_frame_type");
    reveal_strlit("bad_magic");
    reveal_strlit("crc_mismatch");
    reveal_strlit("truncated");
    reveal_strlit("length_mismatch");
    reveal_strlit("frame_too_long");
    reveal_strlit("invalid_escape");
    assert("on9log"@.len() == 6 && "text"@.len() == 4 && "unknown_frame_type"@.len() == 18
        && "bad_magic"@.len() == 9 && "crc_mismatch"@.len() == 12 && "truncated"@.len() == 9
        && "length_mismatch"@.len() == 15 && "frame_too_long"@.len() == 14
        && "invalid_escape"@.len() == 14);
}

} // verus!
