//! Laws of decoding: what comes back of the packets that a device sends.

use crate::decode::{
    args_from, joined_summaries, log_args, log_payload, logged_arguments_come_back, packet_floats,
    packet_of, sendable, summary, PacketMeta, PacketV,
};
use crate::elf_resolv::ElfV;
use crate::framer::RawFrameV;
use crate::printf::{format_floats, format_text, ArgV};
use crate::text::{decimal, hex_padded};
use crate::utf8::lossy_utf8;
use crate::wire::{le_u32, lemma_le_u32_of_bytes, u32_bytes, PacketType};
use vstd::prelude::*;
use vstd::string::*;

verus! {

/// True if `tag` is what the tag address of a packet stands for: the string that the
/// image holds there, or the address itself where it holds none or there is no image.
pub open spec fn is_tag_at(tag: Seq<char>, elf: Option<ElfV>, addr: u32) -> bool {
    match elf {
        Some(e) => match e.tag(addr) {
            Some(t) => tag == t,
            None => tag == "@0x"@ + hex_padded(addr as nat, 8),
        },
        None => tag == "@0x"@ + hex_padded(addr as nat, 8),
    }
}

/// A log packet with these arguments decodes to a log record under its level. Its tag is
/// the image's string at the tag address. Its message is the format string at the format
/// address, rendered with the arguments; without a format string it shows the address
/// and the arguments.
pub proof fn log_packet_comes_through(
    frame: RawFrameV,
    args: Seq<ArgV>,
    meta: PacketMeta,
    elf: Option<ElfV>,
    floats: Seq<Seq<char>>,
)
    requires
        frame.header.ptype == PacketType::Log,
        sendable(args),
        frame.payload == log_payload(args),
    ensures
        packet_of(frame, meta, elf, floats) matches PacketV::Log { meta: m, level, tag, message }
            && {
            let addr = frame.header.fmt_id;
            &&& m == meta
            &&& level == frame.header.level
            &&& is_tag_at(tag, elf, frame.header.tag_id)
            &&& elf is Some && elf->0.format(addr) is Some ==> message == format_text(
                elf->0.format(addr)->0,
                args,
                floats,
            ) && packet_floats(frame, elf) == format_floats(elf->0.format(addr)->0, args)
            &&& elf is None || elf->0.format(addr) is None ==> message == "<fmt @0x"@ + hex_padded(
                addr as nat,
                8,
            ) + "> "@ + summary(args) && packet_floats(frame, elf).len() == 0
        },
{
    logged_arguments_come_back(args);
}

/// The payload of a buffer dump: the length of the whole buffer, the offset of this part,
/// the number of its bytes, and the bytes.
pub open spec fn buffer_payload(total_len: u32, offset: u32, bytes: Seq<u8>) -> Seq<u8> {
    u32_bytes(total_len) + u32_bytes(offset) + u32_bytes(bytes.len() as u32) + bytes
}

proof fn lemma_numbers(p: Seq<u8>, i: int, v: u32)
    requires
        0 <= i,
        i + 4 <= p.len(),
        p.subrange(i, i + 4) == u32_bytes(v),
    ensures
        le_u32(p, i) == v,
{
    assert forall|k: int| 0 <= k < 4 implies p[i + k] == #[trigger] u32_bytes(v)[k] by {
        assert(p.subrange(i, i + 4)[k] == p[i + k]);
    }
    lemma_le_u32_of_bytes(p, i, v);
}

/// A buffer dump that was sent decodes to a buffer record with its level, length, offset
/// and bytes, under the tag that a log packet with the same header has.
pub proof fn buffer_dump_comes_through(
    frame: RawFrameV,
    total_len: u32,
    offset: u32,
    bytes: Seq<u8>,
    meta: PacketMeta,
    elf: Option<ElfV>,
    floats: Seq<Seq<char>>,
)
    requires
        frame.header.ptype == PacketType::Buffer,
        bytes.len() <= u32::MAX,
        frame.payload == buffer_payload(total_len, offset, bytes),
    ensures
        packet_of(frame, meta, elf, floats) matches PacketV::Buffer {
            meta: m,
            level,
            tag,
            total_len: t,
            offset: o,
            bytes: b,
        } && {
            &&& m == meta
            &&& level == frame.header.level
            &&& is_tag_at(tag, elf, frame.header.tag_id)
            &&& t == total_len
            &&& o == offset
            &&& b == bytes
        },
        packet_floats(frame, elf).len() == 0,
{
    let p = frame.payload;
    assert(p.subrange(0, 4) =~= u32_bytes(total_len));
    assert(p.subrange(4, 8) =~= u32_bytes(offset));
    assert(p.subrange(8, 12) =~= u32_bytes(bytes.len() as u32));
    lemma_numbers(p, 0, total_len);
    lemma_numbers(p, 4, offset);
    lemma_numbers(p, 8, bytes.len() as u32);
    assert(p.skip(12) =~= bytes);
}

/// The number of packets that a device has dropped comes through.
pub proof fn dropped_count_comes_through(
    frame: RawFrameV,
    count: u32,
    meta: PacketMeta,
    elf: Option<ElfV>,
    floats: Seq<Seq<char>>,
)
    requires
        frame.header.ptype == PacketType::Dropped,
        frame.payload == u32_bytes(count),
    ensures
        packet_of(frame, meta, elf, floats) == (PacketV::Dropped { meta, count }),
{
    assert(frame.payload.subrange(0, 4) =~= u32_bytes(count));
    lemma_numbers(frame.payload, 0, count);
}

/// Time synchronisation and boot packets keep their payload.
pub proof fn other_packets_keep_their_payload(
    frame: RawFrameV,
    meta: PacketMeta,
    elf: Option<ElfV>,
    floats: Seq<Seq<char>>,
)
    ensures
        frame.header.ptype == PacketType::TimeSync ==> packet_of(frame, meta, elf, floats) == (
        PacketV::Other { meta, kind: "time_sync"@, payload: frame.payload }),
        frame.header.ptype == PacketType::Boot ==> packet_of(frame, meta, elf, floats) == (
        PacketV::Other { meta, kind: "boot"@, payload: frame.payload }),
{
}

/// A payload of the wrong length is reported, not decoded: a log packet without its
/// count or with a type table that is cut off, a buffer dump that holds more or fewer
/// bytes than it says, and a drop count of any length but four bytes.
pub proof fn payload_of_wrong_length_is_reported(
    frame: RawFrameV,
    meta: PacketMeta,
    elf: Option<ElfV>,
    floats: Seq<Seq<char>>,
)
    requires
        ({
            let p = frame.payload;
            ||| frame.header.ptype == PacketType::Log && (p.len() == 0 || p.len() <= p[0])
            ||| frame.header.ptype == PacketType::Buffer && (p.len() < 12 || p.len() - 12 != le_u32(
                p,
                8,
            ))
            ||| frame.header.ptype == PacketType::Dropped && p.len() != 4
        }),
    ensures
        packet_of(frame, meta, elf, floats) matches PacketV::Malformed { meta: m, .. } && m == Some(
            meta,
        ),
{
}

/// A log packet whose arguments cannot be read is reported with the reason, under its
/// sequence number.
pub proof fn unreadable_arguments_are_reported(
    frame: RawFrameV,
    meta: PacketMeta,
    elf: Option<ElfV>,
    floats: Seq<Seq<char>>,
)
    requires
        frame.header.ptype == PacketType::Log,
        log_args(frame.payload) is Err,
    ensures
        packet_of(frame, meta, elf, floats) == (PacketV::Malformed {
            meta: Some(meta),
            reason: log_args(frame.payload)->Err_0,
        }),
{
}

/// A summary names each argument by its kind and shows its value.
pub proof fn summary_shows_one_argument(v: u32, w: u64, bytes: Seq<u8>)
    ensures
        summary(Seq::empty()) == "["@ + "]"@,
        summary(seq![ArgV::U32(v)]) == "["@ + ("u32:"@ + decimal(v as nat)) + "]"@,
        summary(seq![ArgV::U64(w)]) == "["@ + ("u64:"@ + decimal(w as nat)) + "]"@,
        summary(seq![ArgV::Ptr(v)]) == "["@ + ("ptr:0x"@ + hex_padded(v as nat, 8)) + "]"@,
        summary(seq![ArgV::Str(Some(bytes))]) == "["@ + ("str:"@ + lossy_utf8(bytes)) + "]"@,
        summary(seq![ArgV::Str(None)]) == "["@ + "str:null"@ + "]"@,
{
    assert("["@ + Seq::<char>::empty() =~= "["@);
}

/// One more argument stands behind a comma: a summary of several arguments is the
/// summary of the first ones and of the last one, joined where their brackets meet.
pub proof fn summary_lists_the_arguments(args: Seq<ArgV>, last: ArgV)
    requires
        args.len() > 0,
    ensures
        ({
            let front = summary(args);
            let back = summary(seq![last]);
            summary(args.push(last)) == front.drop_last() + ", "@ + back.skip(1)
        }),
{
    let n = args.len() as int;
    reveal_strlit("[");
    reveal_strlit("]");
    lemma_summaries_of_front(args, last, n);
    let front = summary(args);
    let back = summary(seq![last]);
    let one = joined_summaries(seq![last], 1);
    assert(args.push(last)[n] == last);
    assert(front.drop_last() =~= "["@ + joined_summaries(args, n));
    assert(back.skip(1) =~= one + "]"@);
    assert(summary(args.push(last)) =~= front.drop_last() + ", "@ + back.skip(1));
}

proof fn lemma_summaries_of_front(args: Seq<ArgV>, last: ArgV, n: int)
    requires
        0 <= n <= args.len(),
    ensures
        joined_summaries(args.push(last), n) == joined_summaries(args, n),
    decreases n,
{
    if n > 0 {
        lemma_summaries_of_front(args, last, n - 1);
    }
}

/// A string view is a string: under either type it is sent as its length and its bytes. An
/// argument of no type takes no bytes and counts as zero.
pub proof fn string_views_are_strings(bytes: Seq<u8>)
    requires
        bytes.len() < u32::MAX,
    ensures
        log_args(seq![1u8, 4u8] + u32_bytes(bytes.len() as u32) + bytes) == Ok::<
            Seq<ArgV>,
            Seq<char>,
        >(seq![ArgV::Str(Some(bytes))]),
        log_args(seq![1u8, 5u8] + u32_bytes(bytes.len() as u32) + bytes) == Ok::<
            Seq<ArgV>,
            Seq<char>,
        >(seq![ArgV::Str(Some(bytes))]),
        log_args(seq![1u8, 5u8] + u32_bytes(u32::MAX)) == Ok::<Seq<ArgV>, Seq<char>>(
            seq![ArgV::Str(None)],
        ),
        log_args(seq![1u8, 0u8]) == Ok::<Seq<ArgV>, Seq<char>>(seq![ArgV::U32(0)]),
{
    reveal_with_fuel(args_from, 2);
    let n = u32_bytes(bytes.len() as u32);
    let p = seq![1u8, 4u8] + n + bytes;
    let q = seq![1u8, 5u8] + n + bytes;
    let r = seq![1u8, 5u8] + u32_bytes(u32::MAX);
    assert(p.subrange(2, 6) =~= n);
    assert(q.subrange(2, 6) =~= n);
    assert(r.subrange(2, 6) =~= u32_bytes(u32::MAX));
    lemma_numbers(p, 2, bytes.len() as u32);
    lemma_numbers(q, 2, bytes.len() as u32);
    lemma_numbers(r, 2, u32::MAX);
    assert(p.subrange(6, 6int + bytes.len()) =~= bytes);
    assert(q.subrange(6, 6int + bytes.len()) =~= bytes);
    assert(seq![ArgV::Str(Some(bytes))] + Seq::<ArgV>::empty() =~= seq![ArgV::Str(Some(bytes))]);
    assert(seq![ArgV::Str(None)] + Seq::<ArgV>::empty() =~= seq![ArgV::Str(None)]);
    assert(seq![ArgV::U32(0)] + Seq::<ArgV>::empty() =~= seq![ArgV::U32(0)]);
}

/// A packet that cannot be decoded says why.
pub proof fn malformed_packets_have_reasons(
    frame: RawFrameV,
    meta: PacketMeta,
    elf: Option<ElfV>,
    floats: Seq<Seq<char>>,
)
    ensures
        ({
            let p = frame.payload;
            let ptype = frame.header.ptype;
            let packet = packet_of(frame, meta, elf, floats);
            let because = |reason: Seq<char>| PacketV::Malformed { meta: Some(meta), reason };
            &&& ptype == PacketType::Log && p.len() == 0 ==> packet == because(
                "empty log payload"@,
            )
            &&& ptype == PacketType::Log && 0 < p.len() <= p[0] ==> packet == because(
                "arg type table truncated"@,
            )
            &&& ptype == PacketType::Buffer && p.len() < 12 ==> packet == because(
                "buffer header truncated"@,
            )
            &&& ptype == PacketType::Buffer && p.len() >= 12 && p.len() - 12 != le_u32(p, 8)
                ==> packet == because("buffer payload length mismatch"@)
            &&& ptype == PacketType::Dropped && p.len() < 4 ==> packet == because(
                "dropped payload truncated"@,
            )
            &&& ptype == PacketType::Dropped && p.len() > 4 ==> packet == because(
                "dropped payload length mismatch"@,
            )
        }),
{
}

} // verus!
