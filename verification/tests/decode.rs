use on9log::crc;
use on9log::decode::{decode_args, frame_magic_ok, summarize_args};
use on9log::elf_resolv::Section;
use on9log::float::FloatField;
use on9log::wire::{Header, PACKET_MAGIC};
use on9log::{
    Arg, ArgType, DecodedPacket, Decoder, Deframer, ElfStrings, Level, Outcome, PacketType,
    RawFrame,
};

fn build_log_payload(arg_types: &[u8], body: &[u8]) -> Vec<u8> {
    let mut p = vec![arg_types.len() as u8];
    p.extend_from_slice(arg_types);
    p.extend_from_slice(body);
    p
}

fn header(ptype: PacketType, level: Level, seq: u16) -> Header {
    Header {
        magic: PACKET_MAGIC,
        ptype,
        level,
        seq,
        time_ms: 1000,
        tag_id: 0x4000_0000,
        fmt_id: 0x4000_1000,
        payload_len: 0xffff,
    }
}

fn frame(header: Header, payload: Vec<u8>) -> RawFrame {
    RawFrame {
        header,
        header_bytes: vec![],
        payload,
    }
}

#[test]
fn decodes_simple_log_without_elf() {
    // fmt_id/tag_id unresolved; payload: one u32 arg.
    let payload = build_log_payload(&[ArgType::Bits32 as u8], &42u32.to_le_bytes());
    let frame = frame(header(PacketType::Log, Level::Info, 5), payload);
    let mut dec = Decoder::new();
    match dec.decode(&frame, None, &[]) {
        DecodedPacket::Log(l) => {
            assert_eq!(l.level, Level::Info);
            assert_eq!(l.tag, "@0x40000000");
            assert!(l.message.starts_with("<fmt @0x40001000>"));
            assert!(l.message.contains("u32:42"));
            assert_eq!(l.message, "<fmt @0x40001000> [u32:42]");
        }
        other => panic!("expected Log, got {other:?}"),
    }
}

#[test]
fn decodes_dynamic_string_view_as_string() {
    let mut body = Vec::new();
    body.extend_from_slice(&10u32.to_le_bytes());
    body.extend_from_slice(b"hello\0view");
    let payload = build_log_payload(&[ArgType::DynamicStringView as u8], &body);
    let frame = frame(header(PacketType::Log, Level::Info, 1), payload);
    let mut dec = Decoder::new();
    match dec.decode(&frame, None, &[]) {
        DecodedPacket::Log(l) => {
            assert!(l.message.starts_with("<fmt @0x40001000>"));
            assert!(l.message.contains("str:hello\0view"));
        }
        other => panic!("expected Log, got {other:?}"),
    }
}

#[test]
fn detects_seq_gap() {
    let mk = |seq: u16| Header {
        time_ms: 0,
        tag_id: 0,
        fmt_id: 0,
        ..header(PacketType::Dropped, Level::NoLevel, seq)
    };
    let mut dec = Decoder::new();
    let f1 = frame(mk(1), 1u32.to_le_bytes().to_vec());
    let f2 = frame(mk(4), 1u32.to_le_bytes().to_vec());
    let _ = dec.decode(&f1, None, &[]);
    match dec.decode(&f2, None, &[]) {
        DecodedPacket::Dropped(d) => assert_eq!(d.meta.gap, Some(2)),
        other => panic!("expected Dropped, got {other:?}"),
    }
}

#[test]
fn rejects_truncated_buffer_payload() {
    let mut payload = Vec::new();
    payload.extend_from_slice(&8u32.to_le_bytes());
    payload.extend_from_slice(&0u32.to_le_bytes());
    payload.extend_from_slice(&4u32.to_le_bytes());
    payload.extend_from_slice(&[1, 2]);
    let header = Header {
        time_ms: 0,
        tag_id: 0,
        fmt_id: 0,
        ..header(PacketType::Buffer, Level::Info, 1)
    };
    let frame = frame(header, payload);

    let mut dec = Decoder::new();
    match dec.decode(&frame, None, &[]) {
        DecodedPacket::Malformed { reason, .. } => {
            assert_eq!(reason, "buffer payload length mismatch");
        }
        other => panic!("expected Malformed, got {other:?}"),
    }
}

#[test]
fn rejects_dropped_payload_with_extra_bytes() {
    let mut payload = 1u32.to_le_bytes().to_vec();
    payload.push(0);
    let header = Header {
        time_ms: 0,
        tag_id: 0,
        fmt_id: 0,
        payload_len: 4,
        ..header(PacketType::Dropped, Level::NoLevel, 1)
    };
    let frame = frame(header, payload);

    let mut dec = Decoder::new();
    match dec.decode(&frame, None, &[]) {
        DecodedPacket::Malformed { reason, .. } => {
            assert_eq!(reason, "dropped payload length mismatch");
        }
        other => panic!("expected Malformed, got {other:?}"),
    }
}

#[test]
fn recorded_numbers_show_gaps() {
    let mut dec = Decoder::new();
    assert_eq!(dec.record_seq(65535), None);
    assert_eq!(dec.record_seq(0), None);
    assert_eq!(dec.record_seq(0), Some(65535));
    assert_eq!(dec.record_seq(65535), Some(65534));
    assert_eq!(dec.record_seq(2), Some(2));
    assert_eq!(dec.record_seq(4), Some(1));
    assert_eq!(dec.record_seq(3), Some(65534));
    dec.reset();
    assert_eq!(dec.record_seq(9), None);
}

fn gap_of(dec: &mut Decoder, seq: u16) -> Option<u32> {
    let f = frame(
        header(PacketType::Dropped, Level::NoLevel, seq),
        vec![0, 0, 0, 0],
    );
    match dec.decode(&f, None, &[]) {
        DecodedPacket::Dropped(d) => d.meta.gap,
        other => panic!("expected Dropped, got {other:?}"),
    }
}

#[test]
fn gaps_count_across_the_wrap() {
    let mut dec = Decoder::default();
    assert_eq!(gap_of(&mut dec, 0xfffe), None);
    assert_eq!(gap_of(&mut dec, 0xffff), None);
    assert_eq!(gap_of(&mut dec, 0), None);
    assert_eq!(gap_of(&mut dec, 0), Some(0xffff));
    assert_eq!(gap_of(&mut dec, 4), Some(3));
    dec.reset();
    assert_eq!(gap_of(&mut dec, 9), None);
}

fn reason(ptype: PacketType, payload: &[u8]) -> String {
    let f = frame(header(ptype, Level::Info, 1), payload.to_vec());
    match Decoder::new().decode(&f, None, &[]) {
        DecodedPacket::Malformed { meta, reason } => {
            assert_eq!(meta.unwrap().seq, 1);
            reason
        }
        other => panic!("expected Malformed, got {other:?}"),
    }
}

#[test]
fn malformed_payloads_have_reasons() {
    let log = PacketType::Log;
    assert_eq!(reason(log, &[]), "empty log payload");
    assert_eq!(reason(log, &[2, 1]), "arg type table truncated");
    assert_eq!(reason(log, &[1, 0x2a]), "unknown arg type 0x2a");
    assert_eq!(reason(log, &[1, 1, 0, 0, 0]), "truncated u32");
    assert_eq!(reason(log, &[1, 2, 0, 0, 0, 0, 0, 0, 0]), "truncated u64");
    assert_eq!(
        reason(log, &[1, 4, 3, 0, 0, 0, b'a', b'b']),
        "dynamic string truncated"
    );
    assert_eq!(reason(PacketType::Buffer, &[0; 11]), "buffer header truncated");
    assert_eq!(
        reason(PacketType::Dropped, &[0; 3]),
        "dropped payload truncated"
    );
}

#[test]
fn arguments_are_decoded_in_order() {
    let mut body = Vec::new();
    body.extend_from_slice(&7u32.to_le_bytes());
    body.extend_from_slice(&(1u64 << 40).to_le_bytes());
    body.extend_from_slice(&0x4008_0000u32.to_le_bytes());
    body.extend_from_slice(&2u32.to_le_bytes());
    body.extend_from_slice(b"ok");
    body.extend_from_slice(&0xffff_ffffu32.to_le_bytes());
    let payload = build_log_payload(&[1, 2, 3, 4, 5, 0], &body);
    let args = decode_args(&payload).unwrap();
    assert_eq!(
        summarize_args(&args),
        "[u32:7, u64:1099511627776, ptr:0x40080000, str:ok, str:null, u32:0]"
    );
    assert_eq!(summarize_args(&[]), "[]");
}

#[test]
fn decodes_buffer_and_other_packets() {
    let mut payload = Vec::new();
    payload.extend_from_slice(&8u32.to_le_bytes());
    payload.extend_from_slice(&4u32.to_le_bytes());
    payload.extend_from_slice(&2u32.to_le_bytes());
    payload.extend_from_slice(&[9, 8]);
    let f = frame(header(PacketType::Buffer, Level::Warn, 1), payload);
    match Decoder::new().decode(&f, None, &[]) {
        DecodedPacket::Buffer(b) => {
            assert_eq!((b.total_len, b.offset), (8, 4));
            assert_eq!(b.bytes, vec![9, 8]);
            assert_eq!(b.level, Level::Warn);
            assert_eq!(b.tag, "@0x40000000");
        }
        other => panic!("expected Buffer, got {other:?}"),
    }
    let f = frame(header(PacketType::Boot, Level::NoLevel, 1), vec![1]);
    match Decoder::new().decode(&f, None, &[]) {
        DecodedPacket::Other { kind, payload, .. } => {
            assert_eq!(kind, "boot");
            assert_eq!(payload, vec![1]);
        }
        other => panic!("expected Other, got {other:?}"),
    }
    let f = frame(header(PacketType::TimeSync, Level::NoLevel, 1), vec![]);
    match Decoder::new().decode(&f, None, &[]) {
        DecodedPacket::Other { kind, .. } => assert_eq!(kind, "time_sync"),
        other => panic!("expected Other, got {other:?}"),
    }
}

fn image() -> ElfStrings {
    ElfStrings::from_tables(
        vec![
            Section {
                name: ".noload".to_string(),
                addr: 0x4000_1000,
                end: 0x4000_1010,
                data: b"v=%.1f n=%u\0".to_vec(),
            },
            Section {
                name: ".rodata".to_string(),
                addr: 0x4000_0000,
                end: 0x4000_0010,
                data: b"TAG\0".to_vec(),
            },
        ],
        vec![],
    )
}

#[test]
fn renders_against_an_image() {
    let elf = image();
    let mut body = Vec::new();
    body.extend_from_slice(&2.5f64.to_bits().to_le_bytes());
    body.extend_from_slice(&3u32.to_le_bytes());
    let f = frame(
        header(PacketType::Log, Level::Error, 1),
        build_log_payload(&[2, 1], &body),
    );
    let fields = Decoder::float_fields(&f, Some(&elf));
    assert_eq!(
        fields,
        vec![FloatField::Printf {
            conversion: "%.1f".to_string(),
            bits: 2.5f64.to_bits()
        }]
    );
    let mut dec = Decoder::new();
    assert!(dec.try_decode(&f, Some(&elf), &[]).is_none());
    assert_eq!(dec, Decoder::new());
    match dec.try_decode(&f, Some(&elf), &["2.5".to_string()]) {
        Some(DecodedPacket::Log(l)) => {
            assert_eq!(l.tag, "TAG");
            assert_eq!(l.message, "v=2.5 n=3");
        }
        other => panic!("expected Log, got {other:?}"),
    }
    assert!(Decoder::float_fields(&f, None).is_empty());
}

#[test]
fn logged_message_comes_through_the_wire() {
    let elf = image();
    let mut content = vec![PACKET_MAGIC, 0x01];
    content.extend_from_slice(&9u16.to_le_bytes());
    content.extend_from_slice(&7u32.to_le_bytes());
    content.extend_from_slice(&0x4000_0000u32.to_le_bytes());
    content.extend_from_slice(&0x4000_1000u32.to_le_bytes());
    content.extend_from_slice(&0xffffu16.to_le_bytes());
    let mut body = 2.5f64.to_bits().to_le_bytes().to_vec();
    body.extend_from_slice(&3u32.to_le_bytes());
    content.extend_from_slice(&build_log_payload(&[2, 1], &body));
    let mut stream = vec![0xa5, 0x01];
    for b in content.iter().chain(&crc::compute(&content, &[]).to_le_bytes()) {
        match b {
            0xc0 => stream.extend_from_slice(&[0xdb, 0xdc]),
            0xdb => stream.extend_from_slice(&[0xdb, 0xdd]),
            0xa5 => stream.extend_from_slice(&[0xdb, 0xde]),
            0x0d => stream.extend_from_slice(&[0xdb, 0xd0]),
            0x0a => stream.extend_from_slice(&[0xdb, 0xd1]),
            _ => stream.push(*b),
        }
    }
    stream.push(0xc0);
    let f = match Deframer::new().feed(&stream).as_slice() {
        [Outcome::Frame(f)] => f.clone(),
        other => panic!("expected one frame, got {other:?}"),
    };
    match Decoder::new().try_decode(&f, Some(&elf), &["2.5".to_string()]) {
        Some(DecodedPacket::Log(l)) => {
            assert_eq!(l.level, Level::Error);
            assert_eq!((l.meta.seq, l.meta.time_ms, l.meta.gap), (9, 7, None));
            assert_eq!(l.tag, "TAG");
            assert_eq!(l.message, "v=2.5 n=3");
        }
        other => panic!("expected Log, got {other:?}"),
    }
}

#[test]
fn magic_is_checked() {
    let mut f = frame(header(PacketType::Log, Level::Info, 1), vec![]);
    assert!(frame_magic_ok(&f));
    f.header.magic = 0;
    assert!(!frame_magic_ok(&f));
}

#[test]
fn strings_keep_their_bytes() {
    let args = decode_args(&[1, 4, 3, 0, 0, 0, 0xff, 0, b'a']).unwrap();
    match &args[0] {
        Arg::Str(Some(b)) => assert_eq!(b, &vec![0xff, 0, b'a']),
        other => panic!("expected a string, got {other:?}"),
    }
}
