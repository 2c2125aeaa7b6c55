//! Protocol decoder library for on9log binary log streams.
//!
//! The firmware sends typed SLIP frames with a checksum over a serial line. This
//! crate holds what the host makes of them: deframing, decoding packets, rendering printf and
//! C++23 format strings, resolving addresses against the firmware image, laying out
//! log lines, and the rows of a capture database. It performs no input or output.

pub mod capture;
pub mod clock;
pub mod cppfmt;
pub mod cppfmt_laws;
pub mod crc;
pub mod decode;
pub mod decode_laws;
pub mod elf_laws;
pub mod elf_resolv;
pub mod float;
pub mod framer;
pub mod keys;
pub mod load_commands;
pub mod plain;
pub mod preamble;
pub mod printf;
pub mod printf_laws;
pub mod render;
pub mod render_laws;
pub mod session;
pub mod sorting;
pub mod term;
pub mod term_laws;
pub mod text;
pub mod utf8;
pub mod web;
pub mod wire;

/// Core decode API: [`Decoder`], [`DecodedPacket`], and record types.
pub use decode::{BufferRecord, DecodedPacket, Decoder, DroppedRecord, LogRecord, PacketMeta};
/// ELF resolution types for string and symbol lookups.
pub use elf_resolv::{ElfStrings, ResolvedSymbol, SourceLocation};
/// Transport deframing types: [`Deframer`], [`Outcome`], [`RawFrame`].
pub use framer::{Deframer, Outcome, RawFrame};
/// Printf-style argument type and top-level dispatch renderer.
pub use printf::{render_format, Arg};
/// Wire protocol primitives: [`ArgType`], [`Header`], [`Level`], [`PacketType`].
pub use wire::{ArgType, Header, Level, PacketType};
