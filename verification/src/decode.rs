//! Decode verified frames into structured records, resolving format/tag
//! strings through an optional [`ElfStrings`] table.

use crate::elf_resolv::{ElfStrings, ElfV};
use crate::float::{field_views, text_views, FloatField, FloatFieldV};
use crate::framer::{
    body_of, events, framed, outcomes, outside, sent_packet_is_received, OutcomeV, RawFrame,
    RawFrameV,
};
use crate::printf::{
    arg_views, format_float_fields, format_floats, format_text, render_format, Arg, ArgV,
};
use crate::text::{decimal, decimal_string, digits, digits_string, hex_padded, hex_string};
use crate::utf8::{lossy_text, lossy_utf8};
use crate::wire::{
    le_u32, le_u64, lemma_le_u32_of_bytes, read_u32, read_u64, u32_bytes, ArgType, Header, Level,
    PacketType, NULL_STRING_LEN, PACKET_MAGIC, PAYLOAD_LEN_STREAMING, TRANSPORT_FRAME_ON9LOG,
    TRANSPORT_MAX_PAYLOAD,
};
use vstd::prelude::*;
use vstd::string::*;

verus! {

/// Common per-packet metadata, including detected sequence gaps.
#[derive(Debug, Clone, Copy, PartialEq, Eq, Structural)]
pub struct PacketMeta {
    /// Sequence number.
    pub seq: u16,
    /// Milliseconds since device boot.
    pub time_ms: u32,
    /// Number of packets missed between the previous received seq and this one,
    /// using wrapping arithmetic. `None` for the first packet.
    pub gap: Option<u32>,
}

/// A decoded log packet: tag and fully rendered message.
#[derive(Debug, Clone)]
pub struct LogRecord {
    pub meta: PacketMeta,
    pub level: Level,
    pub tag: String,
    pub message: String,
}

/// A decoded buffer-dump packet.
#[derive(Debug, Clone)]
pub struct BufferRecord {
    pub meta: PacketMeta,
    pub level: Level,
    pub tag: String,
    pub total_len: u32,
    pub offset: u32,
    pub bytes: Vec<u8>,
}

/// A device-side dropped-packet notification.
#[derive(Debug, Clone)]
pub struct DroppedRecord {
    pub meta: PacketMeta,
    pub count: u32,
}

/// A fully decoded packet, dispatched by type from a raw frame.
#[derive(Debug, Clone)]
pub enum DecodedPacket {
    /// A decoded log message with tag and rendered message.
    Log(LogRecord),
    /// A decoded buffer-dump chunk.
    Buffer(BufferRecord),
    /// A device-side dropped-packet notification.
    Dropped(DroppedRecord),
    /// Time-sync / boot packets are not currently emitted by the firmware; their
    /// raw payload is surfaced for forward compatibility.
    Other { meta: PacketMeta, kind: &'static str, payload: Vec<u8> },
    /// A frame whose header parsed but whose payload could not be decoded.
    Malformed { meta: Option<PacketMeta>, reason: String },
}

/// A decoded packet.
#[verifier::ext_equal]
pub enum PacketV {
    Log { meta: PacketMeta, level: Level, tag: Seq<char>, message: Seq<char> },
    Buffer {
        meta: PacketMeta,
        level: Level,
        tag: Seq<char>,
        total_len: u32,
        offset: u32,
        bytes: Seq<u8>,
    },
    Dropped { meta: PacketMeta, count: u32 },
    Other { meta: PacketMeta, kind: Seq<char>, payload: Seq<u8> },
    Malformed { meta: Option<PacketMeta>, reason: Seq<char> },
}

impl View for DecodedPacket {
    type V = PacketV;

    open spec fn view(&self) -> PacketV {
        match *self {
            DecodedPacket::Log(l) => PacketV::Log {
                meta: l.meta,
                level: l.level,
                tag: l.tag@,
                message: l.message@,
            },
            DecodedPacket::Buffer(b) => PacketV::Buffer {
                meta: b.meta,
                level: b.level,
                tag: b.tag@,
                total_len: b.total_len,
                offset: b.offset,
                bytes: b.bytes@,
            },
            DecodedPacket::Dropped(d) => PacketV::Dropped { meta: d.meta, count: d.count },
            DecodedPacket::Other { meta, kind, payload } => PacketV::Other {
                meta,
                kind: kind@,
                payload: payload@,
            },
            DecodedPacket::Malformed { meta, reason } => PacketV::Malformed {
                meta,
                reason: reason@,
            },
        }
    }
}

/// The image behind an optional table.
pub open spec fn elf_view(elf: Option<&ElfStrings>) -> Option<ElfV> {
    match elf {
        Some(e) => Some(e@),
        None => None,
    }
}

// ---- Arguments ----

/// The argument of type `t` at offset `i` of the payload, and the offset behind it.
pub open spec fn arg_at(t: ArgType, p: Seq<u8>, i: int) -> Result<(ArgV, int), Seq<char>> {
    match t {
        ArgType::NoArg => Ok((ArgV::U32(0), i)),
        ArgType::Bits64 => if i + 8 > p.len() {
            Err("truncated u64"@)
        } else {
            Ok((ArgV::U64(le_u64(p, i)), i + 8))
        },
        _ => if i + 4 > p.len() {
            Err("truncated u32"@)
        } else {
            let v = le_u32(p, i);
            match t {
                ArgType::Bits32 => Ok((ArgV::U32(v), i + 4)),
                ArgType::Pointer => Ok((ArgV::Ptr(v), i + 4)),
                _ => if v == NULL_STRING_LEN {
                    Ok((ArgV::Str(None), i + 4))
                } else if i + 4 + v > p.len() {
                    Err("dynamic string truncated"@)
                } else {
                    Ok((ArgV::Str(Some(p.subrange(i + 4, i + 4 + v))), i + 4 + v))
                },
            }
        },
    }
}

/// `arg` in front of the arguments of `rest`.
pub open spec fn arg_in_front(arg: ArgV, rest: Result<Seq<ArgV>, Seq<char>>) -> Result<
    Seq<ArgV>,
    Seq<char>,
> {
    match rest {
        Ok(args) => Ok(seq![arg] + args),
        Err(e) => Err(e),
    }
}

/// The arguments whose types stand in the payload from offset `k` up to `n`, and
/// whose values stand from offset `i` on; or the first error among them.
pub open spec fn args_from(p: Seq<u8>, k: int, n: int, i: int) -> Result<Seq<ArgV>, Seq<char>>
    decreases n - k,
{
    if k >= n {
        Ok(Seq::empty())
    } else {
        match ArgType::of_code(p[k] as int) {
            None => Err("unknown arg type 0x"@ + digits(p[k] as nat, 16, false)),
            Some(t) => match arg_at(t, p, i) {
                Err(e) => Err(e),
                Ok((arg, next)) => arg_in_front(arg, args_from(p, k + 1, n, next)),
            },
        }
    }
}

/// The arguments of a log payload: a count, one type byte for each argument, then
/// the values.
pub open spec fn log_args(p: Seq<u8>) -> Result<Seq<ArgV>, Seq<char>> {
    if p.len() == 0 {
        Err("empty log payload"@)
    } else if 1 + p[0] > p.len() {
        Err("arg type table truncated"@)
    } else {
        args_from(p, 1, 1 + p[0], 1 + p[0])
    }
}

/// One argument of a summary.
pub open spec fn arg_summary(arg: ArgV) -> Seq<char> {
    match arg {
        ArgV::U32(v) => "u32:"@ + decimal(v as nat),
        ArgV::U64(v) => "u64:"@ + decimal(v as nat),
        ArgV::Ptr(v) => "ptr:0x"@ + hex_padded(v as nat, 8),
        ArgV::Str(Some(s)) => "str:"@ + lossy_utf8(s),
        ArgV::Str(None) => "str:null"@,
    }
}

/// The first `n` arguments of a summary.
pub open spec fn joined_summaries(args: Seq<ArgV>, n: int) -> Seq<char>
    decreases n,
{
    if n <= 0 {
        Seq::empty()
    } else if n == 1 {
        arg_summary(args[0])
    } else {
        joined_summaries(args, n - 1) + ", "@ + arg_summary(args[n - 1])
    }
}

/// `[u32:42, str:text]`: the arguments, where no format string is at hand.
pub open spec fn summary(args: Seq<ArgV>) -> Seq<char> {
    "["@ + joined_summaries(args, args.len() as int) + "]"@
}

// ---- Packets ----

/// How many packets are missing between the last sequence number and `seq`.
pub open spec fn gap_after(last: Option<u16>, seq: u16) -> Option<u32> {
    match last {
        None => None,
        Some(l) => {
            let missed = (seq - l - 1) % 0x1_0000;
            if missed == 0 {
                None
            } else {
                Some(missed as u32)
            }
        },
    }
}

/// The tag at `addr`, or the address where it is not known.
pub open spec fn tag_text(elf: Option<ElfV>, addr: u32) -> Seq<char> {
    if elf matches Some(e) && e.tag(addr) is Some {
        elf->0.tag(addr)->0
    } else {
        "@0x"@ + hex_padded(addr as nat, 8)
    }
}

/// The format string at `addr`.
pub open spec fn format_at(elf: Option<ElfV>, addr: u32) -> Option<Seq<char>> {
    match elf {
        Some(e) => e.format(addr),
        None => None,
    }
}

/// The message of a log packet.
pub open spec fn message_text(
    elf: Option<ElfV>,
    addr: u32,
    args: Seq<ArgV>,
    floats: Seq<Seq<char>>,
) -> Seq<char> {
    match format_at(elf, addr) {
        Some(fmt) => format_text(fmt, args, floats),
        None => "<fmt @0x"@ + hex_padded(addr as nat, 8) + "> "@ + summary(args),
    }
}

/// The packet that a frame holds.
pub open spec fn packet_of(
    frame: RawFrameV,
    meta: PacketMeta,
    elf: Option<ElfV>,
    floats: Seq<Seq<char>>,
) -> PacketV {
    let p = frame.payload;
    let h = frame.header;
    match h.ptype {
        PacketType::Log => match log_args(p) {
            Err(reason) => PacketV::Malformed { meta: Some(meta), reason },
            Ok(args) => PacketV::Log {
                meta,
                level: h.level,
                tag: tag_text(elf, h.tag_id),
                message: message_text(elf, h.fmt_id, args, floats),
            },
        },
        PacketType::Buffer => if p.len() < 12 {
            PacketV::Malformed { meta: Some(meta), reason: "buffer header truncated"@ }
        } else if p.len() != 12 + le_u32(p, 8) {
            PacketV::Malformed { meta: Some(meta), reason: "buffer payload length mismatch"@ }
        } else {
            PacketV::Buffer {
                meta,
                level: h.level,
                tag: tag_text(elf, h.tag_id),
                total_len: le_u32(p, 0),
                offset: le_u32(p, 4),
                bytes: p.skip(12),
            }
        },
        PacketType::Dropped => if p.len() < 4 {
            PacketV::Malformed { meta: Some(meta), reason: "dropped payload truncated"@ }
        } else if p.len() != 4 {
            PacketV::Malformed { meta: Some(meta), reason: "dropped payload length mismatch"@ }
        } else {
            PacketV::Dropped { meta, count: le_u32(p, 0) }
        },
        PacketType::TimeSync => PacketV::Other { meta, kind: "time_sync"@, payload: p },
        PacketType::Boot => PacketV::Other { meta, kind: "boot"@, payload: p },
    }
}

/// The floating-point texts that decoding a frame needs.
pub open spec fn packet_floats(frame: RawFrameV, elf: Option<ElfV>) -> Seq<FloatFieldV> {
    match (frame.header.ptype, log_args(frame.payload), format_at(elf, frame.header.fmt_id)) {
        (PacketType::Log, Ok(args), Some(fmt)) => format_floats(fmt, args),
        _ => Seq::empty(),
    }
}

/// What a single decoded argument says.
pub open spec fn arg_says(r: Result<(Arg, usize), String>) -> Result<(ArgV, int), Seq<char>> {
    match r {
        Ok((arg, next)) => Ok((arg@, next as int)),
        Err(e) => Err(e@),
    }
}

/// Decodes a single argument at offset `i` of the payload according to its
/// [`ArgType`], and gives the offset behind it. Returns an error if the payload is
/// truncated for the expected argument size.
fn decode_arg(t: ArgType, p: &[u8], i: usize) -> (r: Result<(Arg, usize), String>)
    requires
        i <= p.len(),
    ensures
        arg_says(r) == arg_at(t, p@, i as int),
        r matches Ok((_, next)) ==> next <= p.len(),
{
    match t {
        ArgType::NoArg => Ok((Arg::U32(0), i)),
        ArgType::Bits64 => if p.len() - i < 8 {
            Err("truncated u64".to_string())
        } else {
            Ok((Arg::U64(read_u64(p, i)), i + 8))
        },
        _ => {
            if p.len() - i < 4 {
                return Err("truncated u32".to_string());
            }
            let v = read_u32(p, i);
            match t {
                ArgType::Bits32 => Ok((Arg::U32(v), i + 4)),
                ArgType::Pointer => Ok((Arg::Ptr(v), i + 4)),
                _ => {
                    if v == NULL_STRING_LEN {
                        return Ok((Arg::Str(None), i + 4));
                    }
                    let len = v as usize;
                    if p.len() - (i + 4) < len {
                        return Err("dynamic string truncated".to_string());
                    }
                    let mut s: Vec<u8> = Vec::new();
                    s.extend_from_slice(vstd::slice::slice_subrange(p, i + 4, i + 4 + len));
                    assert(s@ =~= p@.subrange(i + 4, i + 4 + len));
                    Ok((Arg::Str(Some(s)), i + 4 + len))
                },
            }
        },
    }
}

/// What decoded arguments say.
pub open spec fn args_say(r: Result<Vec<Arg>, String>) -> Result<Seq<ArgV>, Seq<char>> {
    match r {
        Ok(args) => Ok(arg_views(args@)),
        Err(e) => Err(e@),
    }
}

/// `front` with the arguments of `rest` behind it.
pub open spec fn args_behind(front: Seq<ArgV>, rest: Result<Seq<ArgV>, Seq<char>>) -> Result<
    Seq<ArgV>,
    Seq<char>,
> {
    match rest {
        Ok(args) => Ok(front + args),
        Err(e) => Err(e),
    }
}

/// Decodes the arguments of a log payload.
pub fn decode_args(p: &[u8]) -> (r: Result<Vec<Arg>, String>)
    ensures
        args_say(r) == log_args(p@),
        r matches Ok(args) ==> args@.len() == p[0],
{
    if p.len() == 0 {
        return Err("empty log payload".to_string());
    }
    let arg_count = p[0] as usize;
    if p.len() - 1 < arg_count {
        return Err("arg type table truncated".to_string());
    }
    let n: usize = 1 + arg_count;
    let ghost whole = log_args(p@);
    let mut args: Vec<Arg> = Vec::new();
    let mut k: usize = 1;
    let mut i: usize = n;
    proof {
        if whole is Ok {
            assert(arg_views(args@) + whole->Ok_0 =~= whole->Ok_0);
        }
    }
    while k < n
        invariant
            1 <= k <= n <= p.len(),
            n == 1 + p[0],
            i <= p.len(),
            whole == log_args(p@),
            args@.len() == k - 1,
            args_behind(arg_views(args@), args_from(p@, k as int, n as int, i as int)) == whole,
        decreases n - k,
    {
        let ghost before = arg_views(args@);
        let t = match ArgType::from_byte(p[k]) {
            Some(t) => t,
            None => {
                let mut e = "unknown arg type 0x".to_string();
                e.append(digits_string(p[k] as u64, 16, false).as_str());
                return Err(e);
            },
        };
        match decode_arg(t, p, i) {
            Err(e) => return Err(e),
            Ok((arg, next)) => {
                let ghost rest = args_from(p@, k + 1, n as int, next as int);
                args.push(arg);
                i = next;
                k += 1;
                proof {
                    assert(arg_views(args@) =~= before.push(arg@));
                    if rest is Ok {
                        crate::text::lemma_push_in_front(before, arg@, rest->Ok_0);
                    }
                }
            },
        }
    }
    assert(arg_views(args@) + Seq::empty() =~= arg_views(args@));
    Ok(args)
}

fn summarize_arg(arg: &Arg) -> (r: String)
    ensures
        r@ == arg_summary(arg@),
{
    match arg {
        Arg::U32(v) => {
            let mut s = "u32:".to_string();
            s.append(decimal_string(*v as u64).as_str());
            s
        },
        Arg::U64(v) => {
            let mut s = "u64:".to_string();
            s.append(decimal_string(*v).as_str());
            s
        },
        Arg::Ptr(v) => {
            let mut s = "ptr:0x".to_string();
            s.append(hex_string(*v as u64, 8).as_str());
            s
        },
        Arg::Str(Some(b)) => {
            let mut s = "str:".to_string();
            s.append(lossy_text(b.as_slice()).as_str());
            s
        },
        Arg::Str(None) => "str:null".to_string(),
    }
}

/// Builds a compact, human-readable summary of decoded arguments (used when
/// the format string itself is unavailable).
pub fn summarize_args(args: &[Arg]) -> (r: String)
    ensures
        r@ == summary(arg_views(args@)),
{
    let ghost views = arg_views(args@);
    let mut out = "[".to_string();
    let mut i: usize = 0;
    assert("["@ + joined_summaries(views, 0) =~= "["@);
    while i < args.len()
        invariant
            i <= args.len(),
            views == arg_views(args@),
            out@ == "["@ + joined_summaries(views, i as int),
        decreases args.len() - i,
    {
        let ghost before = joined_summaries(views, i as int);
        if i > 0 {
            out.append(", ");
        }
        let part = summarize_arg(&args[i]);
        out.append(part.as_str());
        i += 1;
        proof {
            assert(views[i - 1] == args[i - 1]@);
            if i > 1 {
                assert(out@ =~= "["@ + (before + ", "@ + part@));
            } else {
                assert(out@ =~= "["@ + part@);
            }
        }
    }
    out.append("]");
    out
}

/// `@0x4000abcd`.
fn address_string(head: &str, addr: u32) -> (r: String)
    ensures
        r@ == head@ + hex_padded(addr as nat, 8),
{
    let mut s = head.to_string();
    s.append(hex_string(addr as u64, 8).as_str());
    s
}

/// Resolves a tag address to a human-readable string via ELF, falling back
/// to a hex address when the ELF is unavailable or the address is unknown.
pub fn resolve_tag(elf: Option<&ElfStrings>, addr: u32) -> (r: String)
    ensures
        r@ == tag_text(elf_view(elf), addr),
{
    match elf {
        Some(e) => match e.read_tag(addr) {
            Some(s) => s.to_string(),
            None => address_string("@0x", addr),
        },
        None => address_string("@0x", addr),
    }
}

fn find_format<'a>(elf: Option<&'a ElfStrings>, addr: u32) -> (r: Option<&'a str>)
    ensures
        match r {
            Some(s) => format_at(elf_view(elf), addr) == Some(s@),
            None => format_at(elf_view(elf), addr) is None,
        },
{
    match elf {
        Some(e) => e.read_format(addr),
        None => None,
    }
}

fn copy_bytes(bytes: &[u8]) -> (r: Vec<u8>)
    ensures
        r@ == bytes@,
{
    let mut v: Vec<u8> = Vec::new();
    v.extend_from_slice(bytes);
    assert(v@ =~= bytes@);
    v
}

fn malformed(meta: PacketMeta, reason: &str) -> (r: DecodedPacket)
    ensures
        r@ == (PacketV::Malformed { meta: Some(meta), reason: reason@ }),
{
    DecodedPacket::Malformed { meta: Some(meta), reason: reason.to_string() }
}

/// Stateful decoder tracking the sequence counter for gap detection.
///
/// The [`Decoder`] wraps a sequence tracker used to compute the number of
/// packets missed between consecutive frames. It also contains the packet-type
/// dispatch logic that decodes log, buffer, and dropped frames.
#[derive(Debug, Clone, Copy, PartialEq, Eq, Structural)]
pub struct Decoder {
    /// The sequence number of the last decoded frame, used for gap detection.
    last_seq: Option<u16>,
}

impl View for Decoder {
    type V = Option<u16>;

    /// The last sequence number.
    closed spec fn view(&self) -> Option<u16> {
        self.last_seq
    }
}

impl Default for Decoder {
    fn default() -> (r: Self)
        ensures
            r@ is None,
    {
        Self::new()
    }
}

impl Decoder {
    /// Create a new `Decoder` with no prior sequence state.
    pub fn new() -> (r: Self)
        ensures
            r@ is None,
    {
        Self { last_seq: None }
    }

    /// Reset sequence tracking (e.g. after a device reboot).
    pub fn reset(&mut self)
        ensures
            final(self)@ is None,
    {
        self.last_seq = None;
    }

    /// Records a sequence number and returns the gap from the last recorded
    /// sequence (wrapping arithmetic). Returns `None` for the first packet
    /// or when no gap is detected.
    pub fn record_seq(&mut self, seq: u16) -> (r: Option<u32>)
        ensures
            r == gap_after(old(self)@, seq),
            final(self)@ == Some(seq),
    {
        let gap = match self.last_seq {
            None => None,
            Some(last) => {
                let expected = last.wrapping_add(1);
                if seq == expected {
                    None
                } else {
                    Some(seq.wrapping_sub(expected) as u32)
                }
            },
        };
        self.last_seq = Some(seq);
        gap
    }

    /// Lists the floating-point texts that decoding `frame` needs.
    pub fn float_fields(frame: &RawFrame, elf: Option<&ElfStrings>) -> (r: Vec<FloatField>)
        ensures
            field_views(r@) == packet_floats(frame@, elf_view(elf)),
    {
        if let PacketType::Log = frame.header.ptype {
            if let Some(fmt) = find_format(elf, frame.header.fmt_id) {
                if let Ok(args) = decode_args(frame.payload.as_slice()) {
                    return format_float_fields(fmt, args.as_slice());
                }
            }
        }
        let none: Vec<FloatField> = Vec::new();
        assert(field_views(none@) =~= Seq::empty());
        none
    }

    /// Decode one verified frame. `elf` resolves `fmt_id`/`tag_id`; pass `None`
    /// when no ELF was supplied (addresses render as hex). `floats` holds the texts
    /// that [`Decoder::float_fields`] lists.
    pub fn decode(
        &mut self,
        frame: &RawFrame,
        elf: Option<&ElfStrings>,
        floats: &[String],
    ) -> (r: DecodedPacket)
        requires
            floats@.len() == packet_floats(frame@, elf_view(elf)).len(),
        ensures
            final(self)@ == Some(frame.header.seq),
            r@ == packet_of(
                frame@,
                (PacketMeta {
                    seq: frame.header.seq,
                    time_ms: frame.header.time_ms,
                    gap: gap_after(old(self)@, frame.header.seq),
                }),
                elf_view(elf),
                text_views(floats@),
            ),
    {
        let h = &frame.header;
        let gap = self.record_seq(h.seq);
        let meta = PacketMeta { seq: h.seq, time_ms: h.time_ms, gap };
        match h.ptype {
            PacketType::Log => Self::decode_log(frame, elf, meta, floats),
            PacketType::Buffer => Self::decode_buffer(frame, elf, meta),
            PacketType::Dropped => Self::decode_dropped(frame, meta),
            PacketType::TimeSync => DecodedPacket::Other {
                meta,
                kind: "time_sync",
                payload: copy_bytes(frame.payload.as_slice()),
            },
            PacketType::Boot => DecodedPacket::Other {
                meta,
                kind: "boot",
                payload: copy_bytes(frame.payload.as_slice()),
            },
        }
    }

    /// Decodes one verified frame if `floats` holds as many texts as
    /// [`Decoder::float_fields`] lists; else gives nothing and leaves the sequence
    /// tracking as it is.
    pub fn try_decode(
        &mut self,
        frame: &RawFrame,
        elf: Option<&ElfStrings>,
        floats: &[String],
    ) -> (r: Option<DecodedPacket>)
        ensures
            r is Some <==> floats@.len() == packet_floats(frame@, elf_view(elf)).len(),
            r is None ==> *final(self) == *old(self),
            r is Some ==> final(self)@ == Some(frame.header.seq),
            r matches Some(packet) ==> packet@ == packet_of(
                frame@,
                (PacketMeta {
                    seq: frame.header.seq,
                    time_ms: frame.header.time_ms,
                    gap: gap_after(old(self)@, frame.header.seq),
                }),
                elf_view(elf),
                text_views(floats@),
            ),
    {
        let fields = Self::float_fields(frame, elf);
        assert(field_views(fields@).len() == fields@.len());
        if fields.len() == floats.len() {
            Some(self.decode(frame, elf, floats))
        } else {
            None
        }
    }

    /// Decodes a log-type packet: extract arg-type table, decode each argument,
    /// resolve the tag and format string from ELF, and render the message.
    fn decode_log(
        frame: &RawFrame,
        elf: Option<&ElfStrings>,
        meta: PacketMeta,
        floats: &[String],
    ) -> (r: DecodedPacket)
        requires
            frame.header.ptype == PacketType::Log,
            floats@.len() == packet_floats(frame@, elf_view(elf)).len(),
        ensures
            r@ == packet_of(frame@, meta, elf_view(elf), text_views(floats@)),
    {
        let args = match decode_args(frame.payload.as_slice()) {
            Ok(args) => args,
            Err(reason) => return DecodedPacket::Malformed { meta: Some(meta), reason },
        };
        let tag = resolve_tag(elf, frame.header.tag_id);
        let message = match find_format(elf, frame.header.fmt_id) {
            Some(fmt) => render_format(fmt, args.as_slice(), floats),
            None => {
                // No format string available: show address and a compact arg dump.
                let mut s = address_string("<fmt @0x", frame.header.fmt_id);
                s.append("> ");
                s.append(summarize_args(args.as_slice()).as_str());
                s
            },
        };
        DecodedPacket::Log(LogRecord { meta, level: frame.header.level, tag, message })
    }

    /// Decodes a buffer-dump packet: extract total_len, offset, chunk_len, and bytes.
    fn decode_buffer(frame: &RawFrame, elf: Option<&ElfStrings>, meta: PacketMeta) -> (r:
        DecodedPacket)
        requires
            frame.header.ptype == PacketType::Buffer,
        ensures
            forall|floats: Seq<Seq<char>>|
                r@ == #[trigger] packet_of(frame@, meta, elf_view(elf), floats),
    {
        let p = frame.payload.as_slice();
        if p.len() < 12 {
            return malformed(meta, "buffer header truncated");
        }
        let total_len = read_u32(p, 0);
        let offset = read_u32(p, 4);
        let chunk_len = read_u32(p, 8);
        if p.len() - 12 != chunk_len as usize {
            return malformed(meta, "buffer payload length mismatch");
        }
        let bytes = copy_bytes(vstd::slice::slice_subrange(p, 12, p.len()));
        assert(bytes@ =~= p@.skip(12));
        DecodedPacket::Buffer(
            BufferRecord {
                meta,
                level: frame.header.level,
                tag: resolve_tag(elf, frame.header.tag_id),
                total_len,
                offset,
                bytes,
            },
        )
    }

    /// Decodes a dropped-packet notification: extract the dropped count (u32 LE).
    fn decode_dropped(frame: &RawFrame, meta: PacketMeta) -> (r: DecodedPacket)
        requires
            frame.header.ptype == PacketType::Dropped,
        ensures
            forall|elf: Option<ElfV>, floats: Seq<Seq<char>>|
                r@ == #[trigger] packet_of(frame@, meta, elf, floats),
    {
        let p = frame.payload.as_slice();
        if p.len() < 4 {
            return malformed(meta, "dropped payload truncated");
        }
        if p.len() != 4 {
            return malformed(meta, "dropped payload length mismatch");
        }
        DecodedPacket::Dropped(DroppedRecord { meta, count: read_u32(p, 0) })
    }
}

/// Sanity helper exposed for the CLI: validate a frame's magic byte.
pub fn frame_magic_ok(frame: &RawFrame) -> (r: bool)
    ensures
        r == (frame.header.magic == PACKET_MAGIC),
{
    frame.header.magic == PACKET_MAGIC
}

// ---- Laws ----

/// The first packet and packets that come in order show no gap, and a gap is the
/// number of packets that are missing, whatever the counter's wrap-around.
pub proof fn gap_counts_missing_packets(last: u16, missing: u16)
    ensures
        gap_after(None, missing) is None,
        gap_after(Some(last), ((last + 1) % 0x1_0000) as u16) is None,
        missing > 0 ==> gap_after(Some(last), ((last + 1 + missing) % 0x1_0000) as u16) == Some(
            missing as u32,
        ),
{
}

/// After the number `a`, the number `b` shows no gap if it is the next one, and else
/// how far it lies behind the next one, both round the wrap-around of the counter; a
/// decoder that has recorded no number shows none.
pub proof fn gap_between_two_packets(a: u16, b: u16)
    ensures
        gap_after(Some(a), b) == (if b == a.wrapping_add(1) {
            None
        } else {
            Some(b.wrapping_sub(a).wrapping_sub(1) as u32)
        }),
        gap_after(None, b) is None,
{
}

/// The type under which an argument is sent.
pub open spec fn arg_type(arg: ArgV) -> ArgType {
    match arg {
        ArgV::U32(_) => ArgType::Bits32,
        ArgV::U64(_) => ArgType::Bits64,
        ArgV::Ptr(_) => ArgType::Pointer,
        ArgV::Str(_) => ArgType::DynamicString,
    }
}

/// The bytes of an argument's value.
pub open spec fn arg_bytes(arg: ArgV) -> Seq<u8> {
    match arg {
        ArgV::U32(v) => u32_bytes(v),
        ArgV::U64(v) => u32_bytes((v % 0x1_0000_0000) as u32) + u32_bytes(
            (v / 0x1_0000_0000) as u32,
        ),
        ArgV::Ptr(v) => u32_bytes(v),
        ArgV::Str(Some(s)) => u32_bytes(s.len() as u32) + s,
        ArgV::Str(None) => u32_bytes(NULL_STRING_LEN),
    }
}

/// The values of the arguments from the `k`th on.
pub open spec fn values_from(args: Seq<ArgV>, k: int) -> Seq<u8>
    decreases args.len() - k,
{
    if k >= args.len() {
        Seq::empty()
    } else {
        arg_bytes(args[k]) + values_from(args, k + 1)
    }
}

/// The payload of a log packet with these arguments.
pub open spec fn log_payload(args: Seq<ArgV>) -> Seq<u8> {
    seq![args.len() as u8] + Seq::new(args.len(), |k: int| arg_type(args[k]).code()) + values_from(
        args,
        0,
    )
}

/// Whether every string is short enough to have a length on the wire.
pub open spec fn sendable(args: Seq<ArgV>) -> bool {
    &&& args.len() <= 255
    &&& forall|k: int| 0 <= k < args.len() ==> match #[trigger] args[k] {
        ArgV::Str(Some(s)) => s.len() < NULL_STRING_LEN,
        _ => true,
    }
}

proof fn lemma_u32_at(p: Seq<u8>, i: int, v: u32)
    requires
        0 <= i,
        i + 4 <= p.len(),
        p.subrange(i, i + 4) == u32_bytes(v),
    ensures
        le_u32(p, i) == v,
{
    assert forall|k: int| 0 <= k < 4 implies p[i + k] == #[trigger] u32_bytes(v)[k] by {
        assert(p.subrange(i, i + 4)[k] == p[i + k]);
    }
    lemma_le_u32_of_bytes(p, i, v);
}

proof fn lemma_arg_comes_back(arg: ArgV, p: Seq<u8>, i: int)
    requires
        0 <= i,
        i + arg_bytes(arg).len() <= p.len(),
        p.subrange(i, i + arg_bytes(arg).len()) == arg_bytes(arg),
        arg matches ArgV::Str(Some(s)) ==> s.len() < NULL_STRING_LEN,
    ensures
        arg_at(arg_type(arg), p, i) == Ok::<(ArgV, int), Seq<char>>(
            (arg, i + arg_bytes(arg).len()),
        ),
{
    let b = arg_bytes(arg);
    let q = p.subrange(i, i + b.len());
    match arg {
        ArgV::U64(v) => {
            let low = (v % 0x1_0000_0000) as u32;
            let high = (v / 0x1_0000_0000) as u32;
            assert(p.subrange(i, i + 4) =~= q.subrange(0, 4));
            assert(q.subrange(0, 4) =~= u32_bytes(low));
            assert(p.subrange(i + 4, i + 8) =~= q.subrange(4, 8));
            assert(q.subrange(4, 8) =~= u32_bytes(high));
            lemma_u32_at(p, i, low);
            lemma_u32_at(p, i + 4, high);
        },
        ArgV::Str(Some(s)) => {
            assert(p.subrange(i, i + 4) =~= q.subrange(0, 4));
            assert(q.subrange(0, 4) =~= u32_bytes(s.len() as u32));
            lemma_u32_at(p, i, s.len() as u32);
            assert(p.subrange(i + 4, i + 4 + s.len()) =~= q.subrange(4, b.len() as int));
            assert(q.subrange(4, b.len() as int) =~= s);
        },
        ArgV::U32(v) => {
            lemma_u32_at(p, i, v);
        },
        ArgV::Ptr(v) => {
            lemma_u32_at(p, i, v);
        },
        ArgV::Str(None) => {
            lemma_u32_at(p, i, NULL_STRING_LEN);
        },
    }
}

proof fn lemma_args_come_back(args: Seq<ArgV>, k: int, i: int)
    requires
        sendable(args),
        0 <= k <= args.len(),
        1 + args.len() <= i <= log_payload(args).len(),
        log_payload(args).skip(i) == values_from(args, k),
    ensures
        args_from(log_payload(args), 1 + k, 1int + args.len(), i) == Ok::<Seq<ArgV>, Seq<char>>(
            args.skip(k),
        ),
    decreases args.len() - k,
{
    let p = log_payload(args);
    if k < args.len() {
        let arg = args[k];
        let b = arg_bytes(arg);
        assert(p.skip(i).take(b.len() as int) =~= b);
        assert(p.skip(i).len() == b.len() + values_from(args, k + 1).len());
        assert(p.subrange(i, i + b.len()) =~= p.skip(i).take(b.len() as int));
        assert(p.skip(i + b.len()) =~= p.skip(i).skip(b.len() as int));
        assert(p.skip(i).skip(b.len() as int) =~= values_from(args, k + 1));
        lemma_arg_comes_back(arg, p, i);
        lemma_args_come_back(args, k + 1, i + b.len());
        assert(p[1 + k] == arg_type(arg).code());
        assert(seq![arg] + args.skip(k + 1) =~= args.skip(k));
    } else {
        assert(args.skip(k) =~= Seq::<ArgV>::empty());
    }
}

/// Decoding gives back the arguments that were logged.
pub proof fn logged_arguments_come_back(args: Seq<ArgV>)
    requires
        sendable(args),
    ensures
        log_args(log_payload(args)) == Ok::<Seq<ArgV>, Seq<char>>(args),
{
    let p = log_payload(args);
    assert(p.skip(1int + args.len()) =~= values_from(args, 0));
    lemma_args_come_back(args, 0, 1int + args.len());
    assert(args.skip(0) =~= args);
}

/// A logged message comes through: the frame that carries a format string's address and
/// its arguments is deframed and decoded to the message that they make, under the tag
/// and the level that were sent.
pub proof fn logged_message_comes_through(
    header: Header,
    args: Seq<ArgV>,
    meta: PacketMeta,
    elf: Option<ElfV>,
    floats: Seq<Seq<char>>,
)
    requires
        header.magic == PACKET_MAGIC,
        header.ptype == PacketType::Log,
        header.payload_len == PAYLOAD_LEN_STREAMING || header.payload_len == log_payload(
            args,
        ).len(),
        sendable(args),
        log_payload(args).len() <= TRANSPORT_MAX_PAYLOAD,
    ensures
        ({
            let payload = log_payload(args);
            let stream = framed(body_of(TRANSPORT_FRAME_ON9LOG, header.encoded() + payload));
            let frame = RawFrameV { header, header_bytes: header.encoded(), payload };
            &&& outcomes(events(outside(), stream)) == seq![OutcomeV::Frame(frame)]
            &&& packet_of(frame, meta, elf, floats) == PacketV::Log {
                meta,
                level: header.level,
                tag: tag_text(elf, header.tag_id),
                message: message_text(elf, header.fmt_id, args, floats),
            }
        }),
{
    logged_arguments_come_back(args);
    sent_packet_is_received(header, log_payload(args));
}

proof fn lemma_arguments_in_front(args: Seq<ArgV>, p: Seq<u8>, k: int, n: int, i: int)
    requires
        sendable(args),
        0 <= k <= args.len(),
        1 + args.len() <= n,
        0 <= i,
        i + values_from(args, k).len() <= p.len(),
        p.subrange(i, i + values_from(args, k).len()) == values_from(args, k),
        forall|m: int| k <= m < args.len() ==> p[1 + m] == arg_type(#[trigger] args[m]).code(),
    ensures
        args_from(p, 1 + k, n, i) == args_behind(
            args.skip(k),
            args_from(p, 1int + args.len(), n, i + values_from(args, k).len()),
        ),
    decreases args.len() - k,
{
    let last = args_from(p, 1int + args.len(), n, i + values_from(args, k).len());
    if k < args.len() {
        let arg = args[k];
        let b = arg_bytes(arg);
        let v = values_from(args, k);
        let rest = values_from(args, k + 1);
        assert(v == b + rest);
        assert(p.subrange(i, i + b.len()) =~= p.subrange(i, i + v.len()).take(b.len() as int));
        assert(v.take(b.len() as int) =~= b);
        assert(p.subrange(i + b.len(), i + v.len()) =~= p.subrange(i, i + v.len()).skip(
            b.len() as int,
        ));
        assert(v.skip(b.len() as int) =~= rest);
        lemma_arg_comes_back(arg, p, i);
        lemma_arguments_in_front(args, p, k + 1, n, i + b.len());
        assert(p[1 + k] == arg_type(arg).code());
        if let Ok(more) = last {
            assert(seq![arg] + (args.skip(k + 1) + more) =~= args.skip(k) + more);
        }
    } else {
        if let Ok(more) = last {
            assert(args.skip(k) + more =~= more);
        }
    }
}

/// An argument that cannot be read is an error, which says why, whatever arguments stand
/// in front of it: it is of no known type, or the payload ends before it does.
pub proof fn unreadable_arguments_have_reasons(args: Seq<ArgV>, code: u8, tail: Seq<u8>)
    requires
        sendable(args),
        args.len() < 255,
    ensures
        ({
            let p = seq![(args.len() + 1) as u8] + Seq::new(
                args.len(),
                |k: int| arg_type(args[k]).code(),
            ) + seq![code] + values_from(args, 0) + tail;
            &&& code > 5 ==> log_args(p) == Err::<Seq<ArgV>, Seq<char>>(
                "unknown arg type 0x"@ + digits(code as nat, 16, false),
            )
            &&& code == 2 && tail.len() < 8 ==> log_args(p) == Err::<Seq<ArgV>, Seq<char>>(
                "truncated u64"@,
            )
            &&& (code == 1 || 3 <= code <= 5) && tail.len() < 4 ==> log_args(p) == Err::<
                Seq<ArgV>,
                Seq<char>,
            >("truncated u32"@)
            &&& 4 <= code <= 5 && tail.len() >= 4 && le_u32(tail, 0) != 0xffff_ffff && tail.len()
                < 4 + le_u32(tail, 0) ==> log_args(p) == Err::<Seq<ArgV>, Seq<char>>(
                "dynamic string truncated"@,
            )
        }),
{
    let n = args.len() as int;
    let codes = Seq::new(args.len(), |k: int| arg_type(args[k]).code());
    let v = values_from(args, 0);
    let p = seq![(args.len() + 1) as u8] + codes + seq![code] + v + tail;
    assert(p[0] == n + 1);
    assert forall|m: int| 0 <= m < args.len() implies p[1 + m] == arg_type(
        #[trigger] args[m],
    ).code() by {
        assert(p[1 + m] == codes[m]);
    }
    assert(p[1 + n] == code);
    assert(p.subrange(n + 2, n + 2 + v.len()) =~= v);
    lemma_arguments_in_front(args, p, 0, n + 2, n + 2);
    let at = n + 2 + v.len();
    assert(p.len() == at + tail.len());
    assert(forall|k: int| 0 <= k < tail.len() ==> p[at + k] == #[trigger] tail[k]);
    if tail.len() >= 4 {
        assert(p[at + 0] == tail[0] && p[at + 1] == tail[1] && p[at + 2] == tail[2] && p[at + 3]
            == tail[3]);
        assert(le_u32(p, at) == le_u32(tail, 0));
    }
}

/// What stands behind the arguments of a log packet is not looked at.
pub proof fn bytes_behind_the_arguments_are_ignored(args: Seq<ArgV>, tail: Seq<u8>)
    requires
        sendable(args),
    ensures
        log_args(log_payload(args) + tail) == Ok::<Seq<ArgV>, Seq<char>>(args),
{
    let n = args.len() as int;
    let p = log_payload(args) + tail;
    let v = values_from(args, 0);
    assert(p[0] == n);
    assert forall|m: int| 0 <= m < args.len() implies p[1 + m] == arg_type(
        #[trigger] args[m],
    ).code() by {
        assert(log_payload(args)[1 + m] == arg_type(args[m]).code());
    }
    assert(p.subrange(n + 1, n + 1 + v.len()) =~= v);
    lemma_arguments_in_front(args, p, 0, n + 1, n + 1);
    assert(args.skip(0) + Seq::<ArgV>::empty() =~= args);
}

} // verus!
