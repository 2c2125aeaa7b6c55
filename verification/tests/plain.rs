use on9log::keys::{MonitorKeyState, CTRL_RBRACKET, CTRL_T};
use on9log::plain::{
    clean_string, strip_ansi_bytes, strip_ansi_stream, ts_prefix, write_plain_annotation,
    AnsiStripState, PlainTextState,
};
use on9log::preamble::{ReplayPreamble, ReplayPreambleResult};

const STAMP: &str = "[20231114-22:13:20.000] ";

fn write_plain_text(
    out: &mut Vec<u8>,
    bytes: &[u8],
    timestamp: bool,
    strip: bool,
    state: &mut PlainTextState,
) {
    on9log::plain::write_plain_text(out, bytes, timestamp, STAMP, strip, state);
}

#[test]
fn timestamps_each_plain_text_line() {
    let mut out = Vec::new();
    let mut state = PlainTextState::new();
    write_plain_text(&mut out, b"a\nb", true, false, &mut state);
    let s = String::from_utf8(out).unwrap();

    assert_eq!(s.matches('[').count(), 2);
    assert!(s.ends_with("b"));
    assert!(!state.line_start);
}

#[test]
fn main_timestamps_each_plain_text_line() {
    let mut out = Vec::new();
    let mut state = PlainTextState::new();
    let stamp = ts_prefix(true, "20231114-22:13:20.000");
    on9log::plain::write_plain_text(&mut out, b"a\nb", true, &stamp, false, &mut state);
    let s = String::from_utf8(out).unwrap();

    assert_eq!(s.matches('[').count(), 2);
    assert!(s.ends_with("b"));
    assert!(!state.line_start);
    assert_eq!(
        s,
        "[20231114-22:13:20.000] a\n[20231114-22:13:20.000] b"
    );
}

#[test]
fn plain_text_timestamp_state_spans_chunks() {
    let mut out = Vec::new();
    let mut state = PlainTextState::new();
    write_plain_text(&mut out, b"a", true, false, &mut state);
    write_plain_text(&mut out, b"b\n", true, false, &mut state);
    let s = String::from_utf8(out).unwrap();

    assert_eq!(s.matches('[').count(), 1);
    assert!(state.line_start);
}

#[test]
fn main_plain_text_timestamp_state_spans_chunks() {
    let mut out = Vec::new();
    let mut state = PlainTextState::new();
    on9log::plain::write_plain_text(&mut out, b"a", true, "[1] ", false, &mut state);
    on9log::plain::write_plain_text(&mut out, b"b\n", true, "[2] ", false, &mut state);
    let s = String::from_utf8(out).unwrap();

    assert_eq!(s.matches('[').count(), 1);
    assert!(state.line_start);
}

#[test]
fn preserves_device_ansi_plain_text_colors() {
    let mut out = Vec::new();
    let mut state = PlainTextState::new();
    write_plain_text(
        &mut out,
        b"\x1b[0;32mI (1519) demo: esp_log plain text main heartbeat 2\x1b[0m\n",
        false,
        false,
        &mut state,
    );

    assert_eq!(
        out,
        b"\x1b[0;32mI (1519) demo: esp_log plain text main heartbeat 2\x1b[0m\n"
    );
}

#[test]
fn main_preserves_device_ansi_plain_text_colors() {
    let mut out = Vec::new();
    let mut state = PlainTextState::new();
    write_plain_text(
        &mut out,
        b"\x1b[0;32mI (1519) demo: heartbeat 2\x1b[0m\n",
        false,
        false,
        &mut state,
    );

    assert_eq!(out, b"\x1b[0;32mI (1519) demo: heartbeat 2\x1b[0m\n");
}

#[test]
fn strips_device_ansi_plain_text_when_requested() {
    let mut out = Vec::new();
    let mut state = PlainTextState::new();
    write_plain_text(
        &mut out,
        b"\x1b[0;32mI (1519) demo: heartbeat 2\x1b[0m\n",
        false,
        true,
        &mut state,
    );

    assert_eq!(out, b"I (1519) demo: heartbeat 2\n");
}

#[test]
fn does_not_infer_plain_text_color_from_prefix() {
    let mut out = Vec::new();
    let mut state = PlainTextState::new();
    write_plain_text(
        &mut out,
        b"I (1519) demo: uncolored\n",
        false,
        false,
        &mut state,
    );

    assert_eq!(out, b"I (1519) demo: uncolored\n");
}

#[test]
fn plain_annotation_honors_timestamp_flag() {
    let mut out = Vec::new();
    write_plain_annotation(
        &mut out,
        "--- 0x42000000: app_main",
        &ts_prefix(false, "now"),
    );
    assert_eq!(
        String::from_utf8(out).unwrap(),
        "--- 0x42000000: app_main\n"
    );
    let mut out = Vec::new();
    write_plain_annotation(&mut out, "x", &ts_prefix(true, "now"));
    assert_eq!(out, b"[now] x\n");
}

#[test]
fn strip_ansi_removes_color_sequences() {
    assert_eq!(
        strip_ansi_bytes(b"\x1b[0;32mI (1) tag: colored\x1b[0m\n"),
        b"I (1) tag: colored\n"
    );
}

#[test]
fn main_strip_ansi_removes_color_sequences() {
    let mut state = AnsiStripState::Ground;
    assert_eq!(
        strip_ansi_stream(b"\x1b[0;32mI (1) tag: colored\x1b[0m\n", &mut state),
        b"I (1) tag: colored\n"
    );
}

#[test]
fn strip_ansi_stream_handles_split_sequences() {
    let mut state = AnsiStripState::Ground;
    let mut out = strip_ansi_stream(b"\x1b[0;", &mut state);
    assert_eq!(out, b"");
    out.extend(strip_ansi_stream(b"32mgreen\x1b", &mut state));
    out.extend(strip_ansi_stream(b"[0m\n", &mut state));
    assert_eq!(out, b"green\n");
    assert_eq!(state, AnsiStripState::Ground);
}

#[test]
fn main_strip_ansi_stream_handles_split_sequences() {
    let mut state = AnsiStripState::Ground;
    let mut out = strip_ansi_stream(b"\x1b[0;", &mut state);
    assert_eq!(out, b"");
    out.extend(strip_ansi_stream(b"32mgreen\x1b", &mut state));
    out.extend(strip_ansi_stream(b"[0m\n", &mut state));
    assert_eq!(out, b"green\n");
    assert_eq!(state, AnsiStripState::Ground);
}

#[test]
fn sequences_can_be_split_anywhere() {
    let whole = b"\x1b[0;32mgreen\x1b[0m\n";
    for cut in 0..=whole.len() {
        let mut state = AnsiStripState::Ground;
        let mut out = strip_ansi_stream(&whole[..cut], &mut state);
        out.extend(strip_ansi_stream(&whole[cut..], &mut state));
        assert_eq!(out, b"green\n");
        assert_eq!(state, AnsiStripState::Ground);
    }
}

#[test]
fn stripping_leaves_text_that_was_stripped() {
    let once = strip_ansi_bytes(b"a\x1b7b\x1b[31;1mc\x1b");
    assert_eq!(once, b"abc");
    assert_eq!(strip_ansi_bytes(&once), once);
}

#[test]
fn cleaning_strings() {
    assert_eq!(clean_string("\x1b[1mbold\x1b[0m é", true), "bold é");
    assert_eq!(clean_string("\x1b[1mbold", false), "\x1b[1mbold");
    // The byte behind a lone escape goes with it, even out of a character.
    assert_eq!(clean_string("a\x1béb", true), "a\u{fffd}b");
}

#[test]
fn writing_ignores_how_text_is_cut() {
    let text = b"one\n\x1b[31mtwo\x1b[0m\n\nthree";
    let mut whole = Vec::new();
    let mut state = PlainTextState::new();
    write_plain_text(&mut whole, text, true, true, &mut state);
    for cut in 0..=text.len() {
        let mut parts = Vec::new();
        let mut st = PlainTextState::new();
        write_plain_text(&mut parts, &text[..cut], true, true, &mut st);
        write_plain_text(&mut parts, &text[cut..], true, true, &mut st);
        assert_eq!(parts, whole);
        assert_eq!(st, state);
    }
    state.reset_line();
    assert_eq!(state, PlainTextState::new());
}

#[test]
fn monitor_keys_quit_on_ctrl_rbracket_then_ctrl_t() {
    let mut keys = MonitorKeyState::new();
    assert!(!keys.feed(&[CTRL_RBRACKET]));
    assert!(keys.feed(&[CTRL_T]));
}

#[test]
fn monitor_keys_quit_sequence_can_span_chunks() {
    let mut keys = MonitorKeyState::new();
    assert!(!keys.feed(b"abc"));
    assert!(!keys.feed(&[CTRL_RBRACKET]));
    assert!(keys.feed(&[CTRL_T]));
}

#[test]
fn monitor_keys_reset_on_other_byte() {
    let mut keys = MonitorKeyState::new();
    assert!(!keys.feed(&[CTRL_RBRACKET, b'x', CTRL_T]));
    assert!(!keys.feed(&[CTRL_T]));
}

#[test]
fn monitor_keys_take_the_last_bracket() {
    let mut keys = MonitorKeyState::new();
    assert!(keys.feed(&[b'a', CTRL_RBRACKET, CTRL_RBRACKET, CTRL_T, b'z']));
}

#[test]
fn replay_preamble_parses_split_image_slide() {
    let mut preamble = ReplayPreamble::new();
    assert!(matches!(
        preamble.feed(b"@on9log-image-"),
        ReplayPreambleResult::Pending
    ));
    match preamble.feed(b"slide=0123abcd\n\xa5rest") {
        ReplayPreambleResult::ImageSlide(slide, data) => {
            assert_eq!(slide, 0x0123_abcd);
            assert_eq!(data, b"\xa5rest");
        }
        _ => panic!("expected image-slide metadata"),
    }
}

#[test]
fn replay_preamble_preserves_normal_binary_input() {
    let mut preamble = ReplayPreamble::new();
    match preamble.feed(b"\xa5\x01binary") {
        ReplayPreambleResult::Data(data) => assert_eq!(data, b"\xa5\x01binary"),
        _ => panic!("expected normal input passthrough"),
    }
}

fn preamble_of(input: &[u8]) -> ReplayPreambleResult {
    ReplayPreamble::new().feed(input)
}

#[test]
fn preamble_values() {
    let slide = |v: &str| preamble_of(format!("@on9log-image-slide={v}\nx").as_bytes());
    assert_eq!(slide("+1F"), ReplayPreambleResult::ImageSlide(0x1f, b"x".to_vec()));
    assert_eq!(
        slide("0000000000FFFFFFFF"),
        ReplayPreambleResult::ImageSlide(u32::MAX, b"x".to_vec())
    );
    for bad in ["", "+", "-1", "xyz", "100000000", " 1", "é"] {
        let line = format!("@on9log-image-slide={bad}\nx").into_bytes();
        assert_eq!(slide(bad), ReplayPreambleResult::Data(line));
    }
}

#[test]
fn preamble_gives_up_on_long_lines() {
    let mut line = b"@on9log-image-slide=".to_vec();
    line.resize(127, b'0');
    assert_eq!(preamble_of(&line), ReplayPreambleResult::Pending);
    line.push(b'0');
    assert_eq!(preamble_of(&line), ReplayPreambleResult::Data(line.clone()));
    assert_eq!(preamble_of(b""), ReplayPreambleResult::Pending);
}

#[test]
fn later_input_changes_no_decision() {
    let line = b"@on9log-image-slide=1f\nab\n";
    assert_eq!(
        preamble_of(&line[..24]),
        ReplayPreambleResult::ImageSlide(0x1f, b"a".to_vec())
    );
    assert_eq!(
        preamble_of(line),
        ReplayPreambleResult::ImageSlide(0x1f, b"ab\n".to_vec())
    );
    assert_eq!(preamble_of(b"@x"), ReplayPreambleResult::Data(b"@x".to_vec()));
    assert_eq!(preamble_of(b"@xyz"), ReplayPreambleResult::Data(b"@xyz".to_vec()));
    // A line that was given up for its length is the exception.
    let mut long = b"@on9log-image-slide=".to_vec();
    long.resize(128, b'0');
    assert_eq!(preamble_of(&long), ReplayPreambleResult::Data(long.clone()));
    long.push(b'\n');
    assert_eq!(preamble_of(&long), ReplayPreambleResult::ImageSlide(0, vec![]));
}

#[test]
fn preamble_loses_nothing() {
    let mut p = ReplayPreamble::new();
    let a = p.accept(b"@on9");
    assert_eq!((a.slide, a.data.len()), (None, 0));
    assert!(!p.is_decided());
    let a = p.accept(b"xyz");
    assert_eq!(a.slide, None);
    assert_eq!(a.data, b"@on9xyz");
    assert!(p.is_decided());
    let a = p.accept(b"@on9log-image-slide=1\n");
    assert_eq!(a.data, b"@on9log-image-slide=1\n");
    assert_eq!(p.finish(), None);

    let mut p = ReplayPreamble::new();
    p.accept(b"@on9log");
    assert_eq!(p.finish(), Some(b"@on9log".to_vec()));
    assert_eq!(p.finish(), None);

    let mut p = ReplayPreamble::new();
    let a = p.accept(b"@on9log-image-slide=10\nrest");
    assert_eq!(a.slide, Some(0x10));
    assert_eq!(a.data, b"rest");
}
