use on9log::capture::{event_row, reconstruct, EventRow, Progress};
use on9log::wire::{PACKET_MAGIC, PAYLOAD_LEN_STREAMING};
use on9log::{ArgType, Header, Level, Outcome, PacketType, RawFrame};

/// Build a minimal valid on9log LOG frame payload (one u32 arg).
fn log_payload() -> Vec<u8> {
    let mut p = vec![1u8, ArgType::Bits32 as u8];
    p.extend_from_slice(&42u32.to_le_bytes());
    p
}

fn frame(seq: u16) -> RawFrame {
    let mut header_bytes = Vec::with_capacity(18);
    header_bytes.push(PACKET_MAGIC);
    header_bytes.push(((PacketType::Log as u8) << 4) | (Level::Info as u8));
    header_bytes.extend_from_slice(&seq.to_le_bytes());
    header_bytes.extend_from_slice(&1000u32.to_le_bytes()); // time_ms
    header_bytes.extend_from_slice(&0x4000_0000u32.to_le_bytes()); // tag_id
    header_bytes.extend_from_slice(&0x4000_1000u32.to_le_bytes()); // fmt_id
    header_bytes.extend_from_slice(&PAYLOAD_LEN_STREAMING.to_le_bytes());
    let header = Header::parse(&header_bytes).unwrap();
    RawFrame {
        header,
        header_bytes,
        payload: log_payload(),
    }
}

fn replay(row: &EventRow) -> Option<Outcome> {
    reconstruct(&row.kind, &row.header, &row.payload, &row.detail)
}

#[test]
fn round_trips_frame_text_and_errors() {
    let raw = frame(7);
    let stamped: Vec<(Outcome, u64)> = vec![
        (Outcome::Frame(raw.clone()), 1_700_000_000_000u64),
        (Outcome::PlainText(b"I (1) boot: hello\n".to_vec()), 1_700_000_000_500),
        (Outcome::CrcMismatch, 1_700_000_000_900),
        (Outcome::UnknownFrameType(0x42), 1_700_000_001_000),
    ];
    let rows: Vec<EventRow> = stamped.iter().map(|(o, ts)| event_row(o, *ts)).collect();
    assert_eq!(rows.len(), 4);
    for ((outcome, ts), row) in stamped.iter().zip(&rows) {
        assert_eq!(replay(row).as_ref(), Some(outcome));
        assert_eq!(row.captured_at_ms as u64, *ts);
    }
    match replay(&rows[0]) {
        Some(Outcome::Frame(f)) => {
            assert_eq!(f.header.seq, 7);
            assert_eq!(f.header.level, Level::Info);
            assert_eq!(f.header.ptype, PacketType::Log);
            assert_eq!(f.payload, raw.payload);
            assert_eq!(f.header_bytes, raw.header_bytes);
        }
        other => panic!("expected a frame, got {other:?}"),
    }
}

#[test]
fn all_diagnostics_round_trip() {
    let mut all = vec![
        Outcome::BadMagic,
        Outcome::CrcMismatch,
        Outcome::Truncated,
        Outcome::LengthMismatch,
        Outcome::FrameTooLong,
        Outcome::InvalidEscape,
    ];
    for t in 0..=255 {
        all.push(Outcome::UnknownFrameType(t));
    }
    for o in all {
        assert_eq!(replay(&event_row(&o, u64::MAX)), Some(o));
    }
    assert_eq!(event_row(&Outcome::BadMagic, u64::MAX).captured_at_ms, -1);
}

#[test]
fn frame_rows_carry_the_header_fields() {
    let row = event_row(&Outcome::Frame(frame(0xfffe)), 5);
    assert_eq!(row.kind, "on9log");
    assert_eq!(row.captured_at_ms, 5);
    assert_eq!(row.seq, Some(0xfffe));
    assert_eq!(row.device_time_ms, Some(1000));
    assert_eq!(row.level, Some(3));
    assert_eq!(row.ptype, Some(0));
    assert_eq!(row.tag_id, Some(0x4000_0000));
    assert_eq!(row.fmt_id, Some(0x4000_1000));
    assert_eq!(row.payload_len, Some(0xffff));
    assert_eq!(row.payload, Some(log_payload()));
    assert_eq!(row.detail, None);
    let row = event_row(&Outcome::UnknownFrameType(7), 5);
    assert_eq!(row.detail, Some("07".to_string()));
    assert_eq!((row.seq, row.header, row.payload), (None, None, None));
}

#[test]
fn damaged_rows_are_skipped() {
    let detail = |s: &str| Some(s.to_string());
    assert_eq!(reconstruct("on9log", &None, &None, &None), None);
    assert_eq!(reconstruct("on9log", &Some(vec![0; 18]), &None, &None), None);
    assert_eq!(reconstruct("unknown_frame_type", &None, &None, &None), None);
    assert_eq!(
        reconstruct("unknown_frame_type", &None, &None, &detail("100")),
        None
    );
    assert_eq!(
        reconstruct("unknown_frame_type", &None, &None, &detail("g")),
        None
    );
    assert_eq!(
        reconstruct("unknown_frame_type", &None, &None, &detail("+F")),
        Some(Outcome::UnknownFrameType(15))
    );
    assert_eq!(reconstruct("other", &None, &None, &None), None);
    // A missing payload is an empty one.
    assert_eq!(
        reconstruct("text", &None, &None, &None),
        Some(Outcome::PlainText(vec![]))
    );
}

#[test]
fn progress_is_reported_every_hundred_events() {
    let mut p = Progress::new(1000);
    assert!(!p.add_events(99));
    assert_eq!((p.total, p.since_print), (1099, 99));
    assert!(p.add_events(3));
    assert_eq!((p.total, p.since_print), (1102, 0));
}
