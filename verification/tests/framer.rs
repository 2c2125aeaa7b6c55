use on9log::crc;
use on9log::framer::{parse_body, MAX_BODY};
use on9log::wire::{
    PACKET_MAGIC, PAYLOAD_LEN_STREAMING, TRANSPORT_FRAME_ON9LOG, TRANSPORT_FRAME_TEXT,
    TRANSPORT_MAX_PAYLOAD,
};
use on9log::{Deframer, Header, Outcome, RawFrame};

fn header_bytes(payload_len: u16) -> Vec<u8> {
    let mut h = vec![PACKET_MAGIC, 0x03];
    h.extend_from_slice(&0xc0dbu16.to_le_bytes());
    h.extend_from_slice(&1000u32.to_le_bytes());
    h.extend_from_slice(&0x4000_0a0du32.to_le_bytes());
    h.extend_from_slice(&0x4000_10a5u32.to_le_bytes());
    h.extend_from_slice(&payload_len.to_le_bytes());
    h
}

fn body(kind: u8, content: &[u8]) -> Vec<u8> {
    let mut b = vec![kind];
    b.extend_from_slice(content);
    b.extend_from_slice(&crc::compute(content, &[]).to_le_bytes());
    b
}

fn framed(body: &[u8]) -> Vec<u8> {
    let mut f = vec![0xa5];
    for &b in body {
        match b {
            0xc0 => f.extend_from_slice(&[0xdb, 0xdc]),
            0xdb => f.extend_from_slice(&[0xdb, 0xdd]),
            0xa5 => f.extend_from_slice(&[0xdb, 0xde]),
            0x0d => f.extend_from_slice(&[0xdb, 0xd0]),
            0x0a => f.extend_from_slice(&[0xdb, 0xd1]),
            _ => f.push(b),
        }
    }
    f.push(0xc0);
    f
}

fn packet(payload_len: u16, payload: &[u8]) -> (Vec<u8>, Outcome) {
    let header_bytes = header_bytes(payload_len);
    let mut content = header_bytes.clone();
    content.extend_from_slice(payload);
    let outcome = Outcome::Frame(RawFrame {
        header: Header::parse(&header_bytes).unwrap(),
        header_bytes,
        payload: payload.to_vec(),
    });
    (framed(&body(TRANSPORT_FRAME_ON9LOG, &content)), outcome)
}

fn deframe(bytes: &[u8]) -> Vec<Outcome> {
    Deframer::new().feed(bytes)
}

fn text(s: &[u8]) -> Outcome {
    Outcome::PlainText(s.to_vec())
}

#[test]
fn packets_come_back() {
    let all: Vec<u8> = (0..=255).collect();
    let (bytes, outcome) = packet(PAYLOAD_LEN_STREAMING, &all);
    assert_eq!(deframe(&bytes), vec![outcome]);
    let (bytes, outcome) = packet(256, &all);
    assert_eq!(deframe(&bytes), vec![outcome]);
    let (bytes, outcome) = packet(0, &[]);
    assert_eq!(deframe(&bytes), vec![outcome]);
}

#[test]
fn framed_text_comes_back() {
    let f = framed(&body(TRANSPORT_FRAME_TEXT, b"I (1) boot\r\n"));
    assert_eq!(deframe(&f), vec![text(b"I (1) boot\r\n")]);
    let f = framed(&body(TRANSPORT_FRAME_TEXT, b""));
    assert_eq!(deframe(&f), vec![text(b"")]);
}

#[test]
fn text_around_frames_is_kept() {
    let (bytes, outcome) = packet(PAYLOAD_LEN_STREAMING, b"x");
    let mut stream = b"before\n".to_vec();
    stream.extend_from_slice(&bytes);
    stream.extend_from_slice(b"after");
    assert_eq!(
        deframe(&stream),
        vec![text(b"before\n"), outcome, text(b"after")]
    );
    assert_eq!(deframe(b""), vec![]);
    assert_eq!(deframe(b"\xc0\xdb\n"), vec![text(b"\xc0\xdb\n")]);
}

#[test]
fn chunks_do_not_matter() {
    let (bytes, outcome) = packet(PAYLOAD_LEN_STREAMING, b"\xa5\xc0\xdb\r\nend");
    for cut in 0..=bytes.len() {
        let mut d = Deframer::default();
        let mut out = d.feed(&bytes[..cut]);
        out.extend(d.feed(&bytes[cut..]));
        assert_eq!(out, vec![outcome.clone()]);
    }
}

#[test]
fn frames_are_read_from_any_state() {
    let (bytes, outcome) = packet(PAYLOAD_LEN_STREAMING, b"ok");
    let after = |head: &[u8], first: Option<Outcome>| {
        let mut stream = head.to_vec();
        stream.extend_from_slice(&bytes);
        let mut want: Vec<Outcome> = first.into_iter().collect();
        want.push(outcome.clone());
        assert_eq!(deframe(&stream), want);
    };
    after(b"\xa5cut", Some(Outcome::Truncated));
    after(b"\xa5cut\xdb", Some(Outcome::InvalidEscape));
    after(b"\xa5\xdbzz", Some(Outcome::InvalidEscape));
    after(b"\xa5\xdbzz\xc0", Some(Outcome::InvalidEscape));
    after(b"\xa5\xdb\xc0", Some(Outcome::InvalidEscape));
}

#[test]
fn long_frames_are_given_up() {
    let payload = vec![b'x'; TRANSPORT_MAX_PAYLOAD];
    let (bytes, outcome) = packet(PAYLOAD_LEN_STREAMING, &payload);
    assert_eq!(deframe(&bytes), vec![outcome]);
    let payload = vec![b'x'; TRANSPORT_MAX_PAYLOAD + 1];
    let (mut bytes, _) = packet(PAYLOAD_LEN_STREAMING, &payload);
    bytes.extend_from_slice(b"text");
    assert_eq!(deframe(&bytes), vec![Outcome::FrameTooLong, text(b"text")]);
    assert_eq!(MAX_BODY, 3093);
}

#[test]
fn damage_is_reported() {
    assert_eq!(parse_body(&[]), Outcome::Truncated);
    assert_eq!(parse_body(&[0x42]), Outcome::UnknownFrameType(0x42));
    assert_eq!(parse_body(&[TRANSPORT_FRAME_TEXT, 1]), Outcome::Truncated);
    assert_eq!(parse_body(&[TRANSPORT_FRAME_ON9LOG; 20]), Outcome::Truncated);
    let good = body(TRANSPORT_FRAME_ON9LOG, &header_bytes(0));
    for i in 1..good.len() {
        let mut bad = good.clone();
        bad[i] ^= 0x10;
        assert_eq!(parse_body(&bad), Outcome::CrcMismatch);
    }
    let mut h = header_bytes(0);
    h[0] = 0x9b;
    assert_eq!(parse_body(&body(TRANSPORT_FRAME_ON9LOG, &h)), Outcome::BadMagic);
    assert_eq!(
        parse_body(&body(TRANSPORT_FRAME_ON9LOG, &header_bytes(1))),
        Outcome::LengthMismatch
    );
}
