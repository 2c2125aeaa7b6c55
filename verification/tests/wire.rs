use on9log::crc::{compute, verify};
use on9log::wire::{read_u64, Header, HEADER_LEN, PACKET_MAGIC};
use on9log::{ArgType, Level, PacketType};

// "123456789" with CRC-16/CCITT-FALSE = 0x29B1 (standard check value).
#[test]
fn ccitt_false_check_value() {
    assert_eq!(compute(b"123456789", b""), 0x29b1);
}

#[test]
fn checksum_covers_header_and_payload() {
    assert_eq!(compute(b"1234", b"56789"), 0x29b1);
    assert_eq!(compute(b"", b""), 0xffff);
    assert!(verify(b"1234", b"56789", &[0xb1, 0x29]));
    assert!(!verify(b"1234", b"56789", &[0x29, 0xb1]));
}

#[test]
fn changed_byte_changes_the_checksum() {
    let data = b"on9log frame".to_vec();
    let sum = compute(&data, b"");
    for i in 0..data.len() {
        let mut other = data.clone();
        other[i] ^= 0x10;
        assert_ne!(compute(&other, b""), sum);
    }
}

fn header_bytes() -> Vec<u8> {
    let mut b = vec![PACKET_MAGIC, 0x43];
    b.extend_from_slice(&0x1234u16.to_le_bytes());
    b.extend_from_slice(&0xdead_beefu32.to_le_bytes());
    b.extend_from_slice(&0x3f00_0010u32.to_le_bytes());
    b.extend_from_slice(&0x0000_0020u32.to_le_bytes());
    b.extend_from_slice(&0xfffeu16.to_le_bytes());
    b
}

#[test]
fn header_fields_are_little_endian() {
    let b = header_bytes();
    assert_eq!(b.len(), HEADER_LEN);
    let h = Header::parse(&b).unwrap();
    assert_eq!(h.magic, PACKET_MAGIC);
    assert_eq!(h.ptype, PacketType::Buffer);
    assert_eq!(h.level, Level::Info);
    assert_eq!(h.seq, 0x1234);
    assert_eq!(h.time_ms, 0xdead_beef);
    assert_eq!(h.tag_id, 0x3f00_0010);
    assert_eq!(h.fmt_id, 0x20);
    assert_eq!(h.payload_len, 0xfffe);
    // What follows the header does not matter.
    let mut longer = b.clone();
    longer.push(7);
    assert_eq!(Header::parse(&longer), Some(h));
}

#[test]
fn bad_headers_are_rejected() {
    let b = header_bytes();
    assert_eq!(Header::parse(&b[..17]), None);
    let mut wrong = b.clone();
    wrong[0] = 0x9b;
    assert_eq!(Header::parse(&wrong), None);
    let mut wrong = b.clone();
    wrong[1] = 0x53;
    assert_eq!(Header::parse(&wrong), None);
    let mut wrong = b.clone();
    wrong[1] = 0x46;
    assert_eq!(Header::parse(&wrong), None);
}

#[test]
fn bytes_of_types_and_levels() {
    for b in 0..=255u8 {
        match PacketType::from_byte(b) {
            Some(t) => assert_eq!(t.to_byte(), b),
            None => assert!(b > 4),
        }
        match Level::from_byte(b) {
            Some(l) => assert_eq!(l.to_byte(), b),
            None => assert!(b > 5),
        }
        assert_eq!(ArgType::from_byte(b).is_some(), b <= 5);
    }
    assert_eq!(ArgType::from_byte(4), Some(ArgType::DynamicString));
    let letters: String = (0..=5).map(|b| Level::from_byte(b).unwrap().letter()).collect();
    assert_eq!(letters, "NEWIDV");
}

#[test]
fn wide_values_are_little_endian() {
    let b = 0x0123_4567_89ab_cdefu64.to_le_bytes();
    assert_eq!(read_u64(&b, 0), 0x0123_4567_89ab_cdef);
}
