use on9log::elf_resolv::Section;
use on9log::render::{Action, RenderOptions, Renderer};
use on9log::term::{BOLD, DIM, GREEN, RED, RESET, YELLOW};
use on9log::wire::{Header, PACKET_MAGIC};
use on9log::{ElfStrings, Level, Outcome, PacketType, RawFrame};

fn options() -> RenderOptions {
    RenderOptions {
        use_color: false,
        width: 0,
        timestamp: false,
        to_stdout: true,
        strip_ansi: false,
        strip_saved: true,
    }
}

fn frame(ptype: PacketType, level: Level, seq: u16, payload: Vec<u8>) -> Outcome {
    Outcome::Frame(RawFrame {
        header: Header {
            magic: PACKET_MAGIC,
            ptype,
            level,
            seq,
            time_ms: 1234,
            tag_id: 0x100,
            fmt_id: 0,
            payload_len: 0xffff,
        },
        header_bytes: vec![],
        payload,
    })
}

fn image(format: &str) -> ElfStrings {
    let mut data = format.as_bytes().to_vec();
    data.push(0);
    ElfStrings::from_tables(
        vec![
            Section {
                name: ".noload".to_string(),
                addr: 0,
                end: data.len() as u32,
                data,
            },
            Section {
                name: ".rodata".to_string(),
                addr: 0x100,
                end: 0x104,
                data: b"TAG\0".to_vec(),
            },
        ],
        vec![],
    )
}

fn print(s: &str) -> Action {
    Action::Print(s.to_string())
}

fn save(s: &str) -> Action {
    Action::SaveLine(s.to_string())
}

#[test]
fn log_lines_are_printed_and_saved() {
    let elf = image("rendered %u");
    let mut r = Renderer::new("on9log", options(), true);
    let mut payload = vec![1, 1];
    payload.extend_from_slice(&5u32.to_le_bytes());
    let o = frame(PacketType::Log, Level::Info, 1, payload);
    assert_eq!(
        r.handle(&o, Some(&elf), "", &[], &[]),
        vec![
            print("I (   1234) TAG: rendered 5"),
            save("I (   1234) TAG: rendered 5"),
        ]
    );
}

#[test]
fn timestamps_and_gaps() {
    let elf = image("x");
    let mut r = Renderer::new(
        "on9log",
        RenderOptions { timestamp: true, use_color: true, ..options() },
        true,
    );
    r.handle(&frame(PacketType::Log, Level::Error, 1, vec![0]), Some(&elf), "T", &[], &[]);
    let actions = r.handle(
        &frame(PacketType::Log, Level::Error, 4, vec![0]),
        Some(&elf),
        "T",
        &[],
        &[],
    );
    assert_eq!(
        actions,
        vec![
            print(&format!(
                "{DIM}{YELLOW}[T] --- missed 2 packet(s) before seq 4 ---{RESET}"
            )),
            save("[T] --- missed 2 packet(s) before seq 4 ---"),
            print(&format!("{RED}{BOLD}[T] E (   1234) TAG: {RESET}{RED}x{RESET}")),
            save("[T] E (   1234) TAG: x"),
        ]
    );
    r.reset_sequence();
    let actions = r.handle(
        &frame(PacketType::Log, Level::Error, 9, vec![0]),
        Some(&elf),
        "T",
        &[],
        &[],
    );
    assert_eq!(actions.len(), 2);
}

#[test]
fn dropped_packets_are_warned_about() {
    let mut r = Renderer::new("on9log", options(), false);
    let o = frame(PacketType::Dropped, Level::NoLevel, 7, vec![3, 0, 0, 0]);
    assert_eq!(
        r.handle(&o, None, "", &[], &[]),
        vec![print("--- device dropped 3 packet(s) at seq 7 (t=1234ms) ---")]
    );
}

#[test]
fn buffers_are_dumped() {
    let mut payload = Vec::new();
    payload.extend_from_slice(&20u32.to_le_bytes());
    payload.extend_from_slice(&4u32.to_le_bytes());
    payload.extend_from_slice(&17u32.to_le_bytes());
    payload.extend_from_slice(&[0x41; 17]);
    let o = frame(PacketType::Buffer, Level::Info, 7, payload);
    let head = "I (   1234) @0x00000100 [buf 20 @4 +17]: <buffer dump, 17 bytes>";
    let row0 = "00000000  41 41 41 41 41 41 41 41 41 41 41 41 41 41 41 41   AAAAAAAAAAAAAAAA";
    let row1 = "00000010  41                                                A";
    let mut r = Renderer::new("on9log", options(), true);
    assert_eq!(
        r.handle(&o, None, "", &[], &[]),
        vec![
            print(head),
            save(head),
            print(row0),
            print(row1),
            save(row0),
            save(row1),
        ]
    );
    let mut r = Renderer::new("on9log", RenderOptions { use_color: true, ..options() }, false);
    assert_eq!(
        r.handle(&o, None, "", &[], &[]),
        vec![
            print(&format!("{GREEN}{BOLD}{head}{RESET}")),
            print(&format!("{GREEN}{row0}{RESET}")),
            print(&format!("{GREEN}{row1}{RESET}")),
        ]
    );
}

#[test]
fn diagnostics_go_to_stderr() {
    let mut r = Renderer::new("on9log-capture", options(), true);
    let mut note = |o: Outcome| match r.handle(&o, None, "", &[], &[]).as_slice() {
        [Action::Note(s)] => s.clone(),
        other => panic!("expected one note, got {other:?}"),
    };
    assert_eq!(note(Outcome::BadMagic), "on9log-capture: frame with bad magic discarded");
    assert_eq!(note(Outcome::CrcMismatch), "on9log-capture: frame failed CRC, discarded");
    assert_eq!(note(Outcome::Truncated), "on9log-capture: truncated frame discarded");
    assert_eq!(
        note(Outcome::LengthMismatch),
        "on9log-capture: frame payload length mismatch, discarded"
    );
    assert_eq!(
        note(Outcome::FrameTooLong),
        "on9log-capture: transport frame exceeded maximum length, discarded"
    );
    assert_eq!(
        note(Outcome::UnknownFrameType(9)),
        "on9log-capture: unknown transport frame type 0x09, discarded"
    );
    assert_eq!(
        note(Outcome::InvalidEscape),
        "on9log-capture: invalid SLIP escape, discarded"
    );
    assert_eq!(
        note(frame(PacketType::Boot, Level::NoLevel, 2, vec![1, 2])),
        "on9log-capture: boot packet seq 2 t=1234ms (2 bytes)"
    );
    assert_eq!(
        note(frame(PacketType::Log, Level::Info, 3, vec![])),
        "on9log-capture: malformed packet seq 3: empty log payload"
    );
}

#[test]
fn text_is_passed_on_and_saved_without_colors() {
    let mut r = Renderer::new("on9log", RenderOptions { timestamp: true, ..options() }, true);
    let o = Outcome::PlainText(b"\x1b[32mhi\x1b[0m\n".to_vec());
    assert_eq!(
        r.handle(&o, None, "T", &["--- note".to_string()], &[]),
        vec![
            Action::PrintBytes(b"[T] \x1b[32mhi\x1b[0m\n".to_vec()),
            Action::SaveBytes(b"[T] hi\n".to_vec()),
            Action::PrintBytes(b"[T] --- note\n".to_vec()),
            save("[T] --- note"),
            Action::Flush,
        ]
    );
}

#[test]
fn stripping_applies_to_messages() {
    let elf = image("\x1b[1mbold\x1b[0m");
    let mut r = Renderer::new(
        "on9log-capture",
        RenderOptions { strip_ansi: true, to_stdout: false, ..options() },
        true,
    );
    let o = frame(PacketType::Log, Level::Info, 1, vec![0]);
    assert_eq!(
        r.handle(&o, Some(&elf), "", &[], &[]),
        vec![save("I (   1234) TAG: bold")]
    );
}

#[test]
fn packets_end_the_line_of_text() {
    let mut r = Renderer::new("on9log", RenderOptions { timestamp: true, ..options() }, false);
    let half = Outcome::PlainText(b"half".to_vec());
    let bytes = |b: &[u8]| vec![Action::PrintBytes(b.to_vec()), Action::Flush];
    assert_eq!(r.handle(&half, None, "T", &[], &[]), bytes(b"[T] half"));
    assert_eq!(r.handle(&half, None, "T", &[], &[]), bytes(b"half"));
    r.handle(
        &frame(PacketType::Dropped, Level::NoLevel, 7, vec![3, 0, 0, 0]),
        None,
        "T",
        &[],
        &[],
    );
    assert_eq!(r.handle(&half, None, "T", &[], &[]), bytes(b"[T] half"));
    // A malformed packet does not.
    r.handle(&frame(PacketType::Log, Level::Info, 8, vec![]), None, "T", &[], &[]);
    assert_eq!(r.handle(&half, None, "T", &[], &[]), bytes(b"half"));
}

#[test]
fn silent_renderer_prints_nothing() {
    let elf = image("x");
    let mut r = Renderer::new("on9log", RenderOptions { to_stdout: false, ..options() }, false);
    let o = frame(PacketType::Log, Level::Info, 1, vec![0]);
    assert_eq!(r.handle(&o, Some(&elf), "", &[], &[]), vec![]);
    let o = Outcome::PlainText(b"text".to_vec());
    assert_eq!(r.handle(&o, None, "", &[], &[]), vec![Action::Flush]);
}

#[test]
fn silent_renderer_still_saves() {
    let elf = image("x");
    let mut r = Renderer::new("on9log", RenderOptions { to_stdout: false, ..options() }, true);
    let log = frame(PacketType::Log, Level::Info, 1, vec![0]);
    let text = Outcome::PlainText(b"text".to_vec());
    let notes = ["a note".to_string()];
    for o in [&log, &text] {
        let actions = r.handle(o, Some(&elf), "", &notes, &[]);
        assert!(actions
            .iter()
            .all(|a| !matches!(a, Action::Print(_) | Action::PrintBytes(_))));
        assert!(actions
            .iter()
            .any(|a| matches!(a, Action::SaveLine(_) | Action::SaveBytes(_))));
    }
}

#[test]
fn float_texts_must_be_there() {
    let elf = image("%.1f");
    let mut payload = vec![1, 2];
    payload.extend_from_slice(&0.5f64.to_bits().to_le_bytes());
    let o = frame(PacketType::Log, Level::Info, 1, payload);
    assert_eq!(Renderer::float_fields(&o, Some(&elf)).len(), 1);
    let mut r = Renderer::new("on9log", options(), false);
    assert_eq!(r.try_handle(&o, Some(&elf), "", &[], &[]), None);
    assert_eq!(
        r.try_handle(&o, Some(&elf), "", &[], &["0.5".to_string()]),
        Some(vec![print("I (   1234) TAG: 0.5")])
    );
}
