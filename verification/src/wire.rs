//! on9log wire format: packet header, packet types, log levels, argument types.
//!
//! All multi-byte fields are little-endian.

use vstd::prelude::*;

verus! {

/// Magic byte that begins every on9log packet header.
pub const PACKET_MAGIC: u8 = 0x9a;
/// Special payload-length value indicating a streaming (indeterminate-length) packet.
pub const PAYLOAD_LEN_STREAMING: u16 = 0xffff;
/// Size of a parsed on9log packet header in bytes.
pub const HEADER_LEN: usize = 18;
/// Sentinel length value representing a null dynamic string.
pub const NULL_STRING_LEN: u32 = 0xffff_ffff;
/// Maximum payload size allowed in a single transport frame (3 KiB).
pub const TRANSPORT_MAX_PAYLOAD: usize = 3072;
/// Transport frame type byte for on9log binary packets.
pub const TRANSPORT_FRAME_ON9LOG: u8 = 0x01;
/// Transport frame type byte for plain text (stdout/stderr) packets.
pub const TRANSPORT_FRAME_TEXT: u8 = 0x02;

/// CRC-16-CCITT (CCITT-FALSE) initial value.
pub const CRC16_CCITT_INIT: u16 = 0xffff;

/// SLIP frame-start marker byte.
pub const SLIP_START: u8 = 0xa5;
/// SLIP frame-end marker byte.
pub const SLIP_END: u8 = 0xc0;
/// SLIP escape byte: the byte that follows is the escaped form.
pub const SLIP_ESC: u8 = 0xdb;
/// Escaped form of [`SLIP_END`] (`0xc0`).
pub const SLIP_ESC_END: u8 = 0xdc;
/// Escaped form of [`SLIP_ESC`] (`0xdb`).
pub const SLIP_ESC_ESC: u8 = 0xdd;
/// Escaped form of [`SLIP_START`] (`0xa5`).
pub const SLIP_ESC_START: u8 = 0xde;
/// Escaped form of `\r` (`0x0d`).
pub const SLIP_ESC_CR: u8 = 0xd0;
/// Escaped form of `\n` (`0x0a`).
pub const SLIP_ESC_LF: u8 = 0xd1;

/// The little-endian 16-bit value at offset `i`.
pub open spec fn le_u16(s: Seq<u8>, i: int) -> u16 {
    (s[i] + 0x100 * s[i + 1]) as u16
}

/// The little-endian 32-bit value at offset `i`.
pub open spec fn le_u32(s: Seq<u8>, i: int) -> u32 {
    (s[i] + 0x100 * s[i + 1] + 0x1_0000 * s[i + 2] + 0x100_0000 * s[i + 3]) as u32
}

/// The little-endian 64-bit value at offset `i`.
pub open spec fn le_u64(s: Seq<u8>, i: int) -> u64 {
    (le_u32(s, i) + 0x1_0000_0000 * le_u32(s, i + 4)) as u64
}

/// The two little-endian bytes of `v`.
pub open spec fn u16_bytes(v: u16) -> Seq<u8> {
    seq![(v % 0x100) as u8, (v / 0x100) as u8]
}

/// The four little-endian bytes of `v`.
pub open spec fn u32_bytes(v: u32) -> Seq<u8> {
    seq![
        (v % 0x100) as u8,
        (v / 0x100 % 0x100) as u8,
        (v / 0x1_0000 % 0x100) as u8,
        (v / 0x100_0000) as u8,
    ]
}

/// Reads the little-endian 16-bit value at offset `i`.
pub fn read_u16(buf: &[u8], i: usize) -> (r: u16)
    requires
        i + 2 <= buf.len(),
    ensures
        r == le_u16(buf@, i as int),
{
    buf[i] as u16 + 0x100 * (buf[i + 1] as u16)
}

/// Reads the little-endian 32-bit value at offset `i`.
pub fn read_u32(buf: &[u8], i: usize) -> (r: u32)
    requires
        i + 4 <= buf.len(),
    ensures
        r == le_u32(buf@, i as int),
{
    buf[i] as u32 + 0x100 * (buf[i + 1] as u32) + 0x1_0000 * (buf[i + 2] as u32) + 0x100_0000 * (
    buf[i + 3] as u32)
}

/// Reads the little-endian 64-bit value at offset `i`.
pub fn read_u64(buf: &[u8], i: usize) -> (r: u64)
    requires
        i + 8 <= buf.len(),
    ensures
        r == le_u64(buf@, i as int),
{
    read_u32(buf, i) as u64 + 0x1_0000_0000 * (read_u32(buf, i + 4) as u64)
}

/// Packet type, stored in the high nibble of `type_level`.
#[derive(Debug, Clone, Copy, PartialEq, Eq, Structural)]
pub enum PacketType {
    /// Normal log message with a format string and typed arguments.
    Log,
    /// Notification that the device dropped one or more log packets.
    Dropped,
    /// Time-synchronisation packet (reserved, not currently emitted).
    TimeSync,
    /// Boot event packet (reserved, not currently emitted).
    Boot,
    /// Buffer-dump packet carrying a chunk of a memory/binary buffer.
    Buffer,
}

impl PacketType {
    /// The wire value of this packet type.
    pub open spec fn code(self) -> u8 {
        match self {
            PacketType::Log => 0,
            PacketType::Dropped => 1,
            PacketType::TimeSync => 2,
            PacketType::Boot => 3,
            PacketType::Buffer => 4,
        }
    }

    /// The packet type with wire value `b`.
    pub open spec fn of_code(b: int) -> Option<PacketType> {
        if b == 0 {
            Some(PacketType::Log)
        } else if b == 1 {
            Some(PacketType::Dropped)
        } else if b == 2 {
            Some(PacketType::TimeSync)
        } else if b == 3 {
            Some(PacketType::Boot)
        } else if b == 4 {
            Some(PacketType::Buffer)
        } else {
            None
        }
    }

    /// Convert a raw byte to a [`PacketType`], returning `None` for unknown values.
    pub fn from_byte(b: u8) -> (r: Option<Self>)
        ensures
            r == PacketType::of_code(b as int),
    {
        match b {
            0 => Some(Self::Log),
            1 => Some(Self::Dropped),
            2 => Some(Self::TimeSync),
            3 => Some(Self::Boot),
            4 => Some(Self::Buffer),
            _ => None,
        }
    }

    /// The wire value of this packet type.
    pub fn to_byte(self) -> (r: u8)
        ensures
            r == self.code(),
    {
        match self {
            Self::Log => 0,
            Self::Dropped => 1,
            Self::TimeSync => 2,
            Self::Boot => 3,
            Self::Buffer => 4,
        }
    }
}

/// Log level, stored in the low nibble of `type_level`.
#[derive(Debug, Clone, Copy, PartialEq, Eq, Structural)]
pub enum Level {
    /// No level (used for non-log packets such as dropped notifications).
    NoLevel,
    /// Error-level log message.
    Error,
    /// Warning-level log message.
    Warn,
    /// Info-level log message.
    Info,
    /// Debug-level log message.
    Debug,
    /// Verbose-level log message.
    Verbose,
}

impl Level {
    /// The wire value of this level.
    pub open spec fn code(self) -> u8 {
        match self {
            Level::NoLevel => 0,
            Level::Error => 1,
            Level::Warn => 2,
            Level::Info => 3,
            Level::Debug => 4,
            Level::Verbose => 5,
        }
    }

    /// The level with wire value `b`.
    pub open spec fn of_code(b: int) -> Option<Level> {
        if b == 0 {
            Some(Level::NoLevel)
        } else if b == 1 {
            Some(Level::Error)
        } else if b == 2 {
            Some(Level::Warn)
        } else if b == 3 {
            Some(Level::Info)
        } else if b == 4 {
            Some(Level::Debug)
        } else if b == 5 {
            Some(Level::Verbose)
        } else {
            None
        }
    }

    /// The letter by which this level is shown.
    pub open spec fn tag_letter(self) -> char {
        match self {
            Level::NoLevel => 'N',
            Level::Error => 'E',
            Level::Warn => 'W',
            Level::Info => 'I',
            Level::Debug => 'D',
            Level::Verbose => 'V',
        }
    }

    /// Convert a raw byte to a [`Level`], returning `None` for unknown values.
    pub fn from_byte(b: u8) -> (r: Option<Self>)
        ensures
            r == Level::of_code(b as int),
    {
        match b {
            0 => Some(Self::NoLevel),
            1 => Some(Self::Error),
            2 => Some(Self::Warn),
            3 => Some(Self::Info),
            4 => Some(Self::Debug),
            5 => Some(Self::Verbose),
            _ => None,
        }
    }

    /// The wire value of this level.
    pub fn to_byte(self) -> (r: u8)
        ensures
            r == self.code(),
    {
        match self {
            Self::NoLevel => 0,
            Self::Error => 1,
            Self::Warn => 2,
            Self::Info => 3,
            Self::Debug => 4,
            Self::Verbose => 5,
        }
    }

    /// Single-character ESP-IDF-style level tag (e.g. `I` for INFO).
    pub fn letter(self) -> (r: char)
        ensures
            r == self.tag_letter(),
    {
        match self {
            Self::NoLevel => 'N',
            Self::Error => 'E',
            Self::Warn => 'W',
            Self::Info => 'I',
            Self::Debug => 'D',
            Self::Verbose => 'V',
        }
    }
}

/// Argument type values.
#[derive(Debug, Clone, Copy, PartialEq, Eq, Structural)]
pub enum ArgType {
    /// No argument (placeholder, treated as zero).
    NoArg,
    /// 32-bit unsigned integer argument.
    Bits32,
    /// 64-bit unsigned integer argument (also used for double bit patterns).
    Bits64,
    /// Pointer-width (32-bit on ESP32) argument.
    Pointer,
    /// Dynamic string argument preceded by a 32-bit length.
    DynamicString,
    /// Length-aware dynamic string argument preceded by a 32-bit length.
    DynamicStringView,
}

impl ArgType {
    /// The wire value of this argument type.
    pub open spec fn code(self) -> u8 {
        match self {
            ArgType::NoArg => 0,
            ArgType::Bits32 => 1,
            ArgType::Bits64 => 2,
            ArgType::Pointer => 3,
            ArgType::DynamicString => 4,
            ArgType::DynamicStringView => 5,
        }
    }

    /// The argument type with wire value `b`.
    pub open spec fn of_code(b: int) -> Option<ArgType> {
        if b == 0 {
            Some(ArgType::NoArg)
        } else if b == 1 {
            Some(ArgType::Bits32)
        } else if b == 2 {
            Some(ArgType::Bits64)
        } else if b == 3 {
            Some(ArgType::Pointer)
        } else if b == 4 {
            Some(ArgType::DynamicString)
        } else if b == 5 {
            Some(ArgType::DynamicStringView)
        } else {
            None
        }
    }

    /// Convert a raw byte to an [`ArgType`], returning `None` for unknown values.
    pub fn from_byte(b: u8) -> (r: Option<Self>)
        ensures
            r == ArgType::of_code(b as int),
    {
        match b {
            0 => Some(Self::NoArg),
            1 => Some(Self::Bits32),
            2 => Some(Self::Bits64),
            3 => Some(Self::Pointer),
            4 => Some(Self::DynamicString),
            5 => Some(Self::DynamicStringView),
            _ => None,
        }
    }
}

/// Parsed 18-byte packet header.
#[derive(Debug, Clone, Copy, PartialEq, Eq, Structural)]
pub struct Header {
    /// Packet magic byte ([`PACKET_MAGIC`]).
    pub magic: u8,
    /// Packet type (log, dropped, buffer, etc.).
    pub ptype: PacketType,
    /// Log severity level.
    pub level: Level,
    /// Monotonic sequence number (wrapping, used for gap detection).
    pub seq: u16,
    /// Timestamp in milliseconds since device boot.
    pub time_ms: u32,
    /// Address of the tag string in ELF memory.
    pub tag_id: u32,
    /// Address of the format string in ELF memory.
    pub fmt_id: u32,
    /// Length of the payload following the header (or [`PAYLOAD_LEN_STREAMING`]).
    pub payload_len: u16,
}

impl Header {
    /// What the first 18 bytes of `buf` say, if they are a header.
    pub open spec fn parsed(buf: Seq<u8>) -> Option<Header> {
        if buf.len() < HEADER_LEN || buf[0] != PACKET_MAGIC {
            None
        } else {
            match (
                PacketType::of_code(buf[1] as int / 16),
                Level::of_code(buf[1] as int % 16),
            ) {
                (Some(ptype), Some(level)) => Some(
                    Header {
                        magic: PACKET_MAGIC,
                        ptype,
                        level,
                        seq: le_u16(buf, 2),
                        time_ms: le_u32(buf, 4),
                        tag_id: le_u32(buf, 8),
                        fmt_id: le_u32(buf, 12),
                        payload_len: le_u16(buf, 16),
                    },
                ),
                _ => None,
            }
        }
    }

    /// The 18 bytes that stand for this header on the wire.
    pub open spec fn encoded(self) -> Seq<u8> {
        seq![self.magic, (16 * self.ptype.code() + self.level.code()) as u8] + u16_bytes(self.seq)
            + u32_bytes(self.time_ms) + u32_bytes(self.tag_id) + u32_bytes(self.fmt_id)
            + u16_bytes(self.payload_len)
    }

    /// Parse an 18-byte little-endian header. Returns `None` on magic mismatch or
    /// unknown type/level nibbles.
    pub fn parse(buf: &[u8]) -> (r: Option<Self>)
        ensures
            r == Header::parsed(buf@),
    {
        if buf.len() < HEADER_LEN {
            return None;
        }
        let magic = buf[0];
        if magic != PACKET_MAGIC {
            return None;
        }
        let type_level = buf[1];
        let ptype = match PacketType::from_byte(type_level / 16) {
            Some(t) => t,
            None => return None,
        };
        let level = match Level::from_byte(type_level % 16) {
            Some(l) => l,
            None => return None,
        };
        // payload_len occupies the final two bytes of the packed 18-byte header.
        Some(
            Header {
                magic,
                ptype,
                level,
                seq: read_u16(buf, 2),
                time_ms: read_u32(buf, 4),
                tag_id: read_u32(buf, 8),
                fmt_id: read_u32(buf, 12),
                payload_len: read_u16(buf, 16),
            },
        )
    }
}

proof fn lemma_split_u32(a: u8, b: u8, c: u8, d: u8, v: u32)
    by (bit_vector)
    requires
        v == a + 0x100 * b + 0x1_0000 * c + 0x100_0000 * d,
    ensures
        v % 0x100 == a,
        v / 0x100 % 0x100 == b,
        v / 0x1_0000 % 0x100 == c,
        v / 0x100_0000 == d,
{
}

proof fn lemma_join_u32(v: u32)
    by (bit_vector)
    ensures
        v == v % 0x100 + 0x100 * (v / 0x100 % 0x100) + 0x1_0000 * (v / 0x1_0000 % 0x100)
            + 0x100_0000 * (v / 0x100_0000),
        v / 0x100_0000 < 0x100,
{
}

/// Reading a 32-bit value gives back what its bytes stand for.
pub proof fn lemma_le_u32_of_bytes(s: Seq<u8>, i: int, v: u32)
    requires
        0 <= i,
        i + 4 <= s.len(),
        forall|k: int| 0 <= k < 4 ==> s[i + k] == #[trigger] u32_bytes(v)[k],
    ensures
        le_u32(s, i) == v,
{
    lemma_join_u32(v);
    let b = u32_bytes(v);
    assert(s[i + 0] == b[0] && s[i + 1] == b[1] && s[i + 2] == b[2] && s[i + 3] == b[3]);
}

/// Parsing reads back every header from its encoding, whatever follows it.
pub proof fn header_parse_inverts_encoding(h: Header, tail: Seq<u8>)
    requires
        h.magic == PACKET_MAGIC,
    ensures
        h.encoded().len() == HEADER_LEN,
        Header::parsed(h.encoded() + tail) == Some(h),
{
    let buf = h.encoded() + tail;
    let b = u16_bytes(h.seq);
    assert(buf[2] == b[0] && buf[3] == b[1]);
    lemma_le_u32_of_bytes(buf, 4, h.time_ms);
    lemma_le_u32_of_bytes(buf, 8, h.tag_id);
    lemma_le_u32_of_bytes(buf, 12, h.fmt_id);
    let b = u16_bytes(h.payload_len);
    assert(buf[16] == b[0] && buf[17] == b[1]);
}

proof fn lemma_u16_bytes(s: Seq<u8>, i: int)
    requires
        0 <= i,
        i + 2 <= s.len(),
    ensures
        u16_bytes(le_u16(s, i)) == s.subrange(i, i + 2),
{
    assert(u16_bytes(le_u16(s, i)) =~= s.subrange(i, i + 2));
}

proof fn lemma_u32_bytes(s: Seq<u8>, i: int)
    requires
        0 <= i,
        i + 4 <= s.len(),
    ensures
        u32_bytes(le_u32(s, i)) == s.subrange(i, i + 4),
{
    lemma_split_u32(s[i], s[i + 1], s[i + 2], s[i + 3], le_u32(s, i));
    assert(u32_bytes(le_u32(s, i)) =~= s.subrange(i, i + 4));
}

/// A header determines the 18 bytes it was parsed from.
pub proof fn header_encoding_inverts_parse(buf: Seq<u8>)
    requires
        Header::parsed(buf) is Some,
    ensures
        Header::parsed(buf)->0.encoded() == buf.take(HEADER_LEN as int),
{
    lemma_u16_bytes(buf, 2);
    lemma_u32_bytes(buf, 4);
    lemma_u32_bytes(buf, 8);
    lemma_u32_bytes(buf, 12);
    lemma_u16_bytes(buf, 16);
    let h = Header::parsed(buf)->0;
    let head = seq![h.magic, (16 * h.ptype.code() + h.level.code()) as u8];
    assert(head =~= buf.subrange(0, 2));
    assert(buf.take(18) =~= buf.subrange(0, 2) + buf.subrange(2, 4) + buf.subrange(4, 8)
        + buf.subrange(8, 12) + buf.subrange(12, 16) + buf.subrange(16, 18));
}

/// Where the fields of a header stand: the magic byte, the type and the level in the two
/// halves of one byte, and then the numbers, each with its least significant byte first.
pub proof fn header_fields_stand_in_order(buf: Seq<u8>)
    ensures
        Header::parsed(buf) is Some <==> buf.len() >= 18 && buf[0] == 0x9a && buf[1] / 16 <= 4
            && buf[1] % 16 <= 5,
        Header::parsed(buf) matches Some(h) ==> {
            &&& h.magic == buf[0]
            &&& h.ptype.code() == buf[1] / 16
            &&& h.level.code() == buf[1] % 16
            &&& h.seq == buf[2] + 256 * buf[3]
            &&& h.time_ms == buf[4] + 256 * (buf[5] + 256 * (buf[6] + 256 * buf[7]))
            &&& h.tag_id == buf[8] + 256 * (buf[9] + 256 * (buf[10] + 256 * buf[11]))
            &&& h.fmt_id == buf[12] + 256 * (buf[13] + 256 * (buf[14] + 256 * buf[15]))
            &&& h.payload_len == buf[16] + 256 * buf[17]
        },
{
}

/// The numbers that stand for the packet types, the levels and the argument types.
pub proof fn codes_of_the_wire(b: int)
    ensures
        PacketType::of_code(b) matches Some(t) ==> t.code() == b,
        PacketType::of_code(b) is Some <==> 0 <= b <= 4,
        PacketType::Log.code() == 0 && PacketType::Dropped.code() == 1
            && PacketType::TimeSync.code() == 2 && PacketType::Boot.code() == 3
            && PacketType::Buffer.code() == 4,
        Level::of_code(b) matches Some(l) ==> l.code() == b,
        Level::of_code(b) is Some <==> 0 <= b <= 5,
        Level::NoLevel.code() == 0 && Level::Error.code() == 1 && Level::Warn.code() == 2
            && Level::Info.code() == 3 && Level::Debug.code() == 4 && Level::Verbose.code() == 5,
        ArgType::of_code(b) matches Some(a) ==> a.code() == b,
        ArgType::of_code(b) is Some <==> 0 <= b <= 5,
        ArgType::NoArg.code() == 0 && ArgType::Bits32.code() == 1 && ArgType::Bits64.code() == 2
            && ArgType::Pointer.code() == 3 && ArgType::DynamicString.code() == 4
            && ArgType::DynamicStringView.code() == 5,
{
}

} // verus!
