use on9log::clock::{
    capture_path, civil_from_days, default_capture_path, default_save_path, format_time,
    host_now_ms, local_ts_string, save_path, to_millis, to_secs, utc_time, utc_ts_string,
    CalendarTime,
};
use on9log::term::{
    hexdump_lines, level_color, print_log_line, terminal_width, wrap, BOLD, GREEN, RED, RESET,
    WHITE, YELLOW,
};
use on9log::Level;

#[test]
fn wrap_zero_width_returns_single_line() {
    let lines = wrap("the quick brown fox", 0);
    assert_eq!(lines, vec!["the quick brown fox".to_string()]);
}

#[test]
fn wrap_long_line_breaks() {
    let lines = wrap("the quick brown fox jumps over the lazy dog", 10);
    assert!(lines.len() > 1);
    for l in &lines {
        assert!(l.chars().count() <= 10);
    }
}

#[test]
fn wraps_long_line() {
    let lines = wrap("the quick brown fox jumps over the lazy dog", 10);
    assert!(lines.len() > 1);
    for l in &lines {
        assert!(l.chars().count() <= 10);
    }
    assert_eq!(
        lines,
        vec!["the quick", "brown fox", "jumps over", "the lazy", "dog"]
    );
}

#[test]
fn empty_input_returns_empty_line() {
    let lines = wrap("", 10);
    assert_eq!(lines, vec!["".to_string()]);
}

#[test]
fn paragraphs_and_long_words() {
    assert_eq!(wrap("a\n\nb", 5), vec!["a", "", "b"]);
    assert_eq!(wrap("abcdefgh", 3), vec!["abc", "def", "gh"]);
    assert_eq!(wrap("ab cdefghij k", 4), vec!["ab", "cdef", "ghij", "k"]);
    assert_eq!(wrap("xy abcdef", 3), vec!["xy", "abc", "def"]);
    assert_eq!(wrap("  spaced\t out\u{3000}text ", 20), vec!["spaced out text"]);
}

#[test]
fn wrapping_loses_no_ink() {
    let text = "  αβγ δεζηθικλμν\n1234567890abcdef \u{2003}end ";
    for width in 1..20 {
        let lines = wrap(text, width);
        let ink = |s: &str| s.chars().filter(|c| !c.is_whitespace()).collect::<String>();
        assert_eq!(ink(&lines.concat()), ink(text));
        assert!(lines.iter().all(|l| l.chars().count() <= width));
    }
}

#[test]
fn white_space_is_that_of_unicode() {
    for v in 0..=0x10_ffffu32 {
        if let Some(c) = char::from_u32(v) {
            if c == '\n' {
                continue;
            }
            let s = format!("a{c}b");
            assert_eq!(wrap(&s, 1).len() == 2, c.is_whitespace(), "{v:x}");
        }
        if v == 0x3100 {
            break;
        }
    }
}

#[test]
fn levels_have_colors() {
    assert_eq!(level_color(Level::Error), RED);
    assert_eq!(level_color(Level::Warn), YELLOW);
    assert_eq!(level_color(Level::Info), GREEN);
    assert_eq!(level_color(Level::Verbose), WHITE);
    assert_eq!(level_color(Level::NoLevel), WHITE);
}

#[test]
fn log_lines_are_laid_out() {
    assert_eq!(
        print_log_line("P: ", "one two three", GREEN, 3, 10, false),
        vec!["P: one two", "   three"]
    );
    assert_eq!(
        print_log_line("P: ", "one two three", GREEN, 3, 10, true),
        vec![
            format!("{GREEN}{BOLD}P: {RESET}{GREEN}one two{RESET}"),
            format!("   {GREEN}three{RESET}"),
        ]
    );
    assert_eq!(
        print_log_line("P: ", "one two three", GREEN, 3, 0, false),
        vec!["P: one two three"]
    );
    // A prefix as wide as the terminal leaves one column for the message.
    assert_eq!(
        print_log_line("wide", "ab", RED, 4, 4, false),
        vec!["widea", "    b"]
    );
}

#[test]
fn hexdump_rows() {
    assert!(hexdump_lines("", &[]).is_empty());
    let bytes: Vec<u8> = (0x30..0x42).collect();
    assert_eq!(
        hexdump_lines("> ", &bytes),
        vec![
            "> 00000000  30 31 32 33 34 35 36 37 38 39 3a 3b 3c 3d 3e 3f   0123456789:;<=>?",
            "> 00000010  40 41                                             @A",
        ]
    );
    assert_eq!(
        hexdump_lines("", &[0x1f, 0x20, 0x7e, 0x7f]),
        vec!["00000000  1f 20 7e 7f                                       . ~."]
    );
}

#[test]
fn terminal_width_falls_back() {
    assert_eq!(terminal_width(Some(132), Some("40")), 132);
    assert_eq!(terminal_width(Some(0), Some("40")), 40);
    assert_eq!(terminal_width(None, Some("+40")), 40);
    assert_eq!(terminal_width(None, Some("0")), 80);
    assert_eq!(terminal_width(None, Some("4x")), 80);
    assert_eq!(terminal_width(None, Some("")), 80);
    assert_eq!(terminal_width(None, Some("99999999999999999999999")), 80);
    assert_eq!(terminal_width(None, None), 80);
}

#[test]
fn local_ts_string_formats_known_epoch() {
    // 2024-01-01T00:00:00Z == 1704067200000 ms.
    let t = utc_time(1_704_067_200);
    let s = local_ts_string(1_704_067_200_000, Some(&t));
    // "YYYYMMDD-HH:MM:SS.mmm" is 21 chars (22 with the trailing 'Z' UTC
    // fallback). The date/time separator is at byte index 8.
    assert!(s.len() >= 21);
    assert_eq!(s.as_bytes()[8], b'-');
    assert!(s.as_bytes()[4].is_ascii_digit());
    assert_eq!(s, "20240101-00:00:00.000");
}

#[test]
fn timestamps_without_a_breakdown() {
    assert_eq!(local_ts_string(0, None), "--------------------.---");
    assert_eq!(local_ts_string(0, Some(&utc_time(0))), "--------------------.---");
    assert_eq!(local_ts_string(1_704_067_200_007, None), "@1704067200s");
    assert_eq!(utc_ts_string(1_704_067_199_999), "20231231-23:59:59.999Z");
    assert_eq!(utc_ts_string(0), "--------------------.---");
}

#[test]
fn negative_years_keep_their_sign() {
    let t = CalendarTime { year: -5, month: 1, day: 2, hour: 3, minute: 4, second: 5 };
    assert_eq!(format_time(&t, 6), "-0050102-03:04:05.006");
}

#[test]
fn dates_of_days() {
    assert_eq!(civil_from_days(0), (1970, 1, 1));
    assert_eq!(civil_from_days(-1), (1969, 12, 31));
    assert_eq!(civil_from_days(11_016), (2000, 2, 29));
    assert_eq!(civil_from_days(11_017), (2000, 3, 1));
    assert_eq!(civil_from_days(-25_509), (1900, 2, 28));
    assert_eq!(civil_from_days(-25_508), (1900, 3, 1));
    assert_eq!(civil_from_days(19_782), (2024, 2, 29));
    assert_eq!(civil_from_days(-719_528), (0, 1, 1));
    assert_eq!(civil_from_days(-719_529), (-1, 12, 31));
    assert_eq!(civil_from_days(i64::MIN), (-25_252_734_927_764_585, 6, 7));
    assert_eq!(civil_from_days(i64::MAX - 719_468), (25_252_734_927_766_554, 9, 25));
    // Every day of four centuries follows the one before it.
    let mut last = civil_from_days(-200_000);
    for z in -199_999..-50_000 {
        let next = civil_from_days(z);
        assert!(next > last);
        assert!(next.2 == last.2 + 1 || next.2 == 1);
        last = next;
    }
}

#[test]
fn default_capture_path_shape() {
    let name = default_capture_path();
    assert!(name.starts_with("on9log-capture-"));
    assert!(name.ends_with(".sqlite"));
    assert!(name["on9log-capture-".len()..name.len() - ".sqlite".len()]
        .chars()
        .all(|c| c.is_ascii_digit()));
    assert_eq!(capture_path(17), "on9log-capture-17.sqlite");
}

#[test]
fn default_save_path_uses_unix_timestamp_shape() {
    let name = default_save_path();
    assert!(name.starts_with("on9log-"));
    assert!(name.ends_with(".log"));
    assert!(name["on9log-".len()..name.len() - ".log".len()]
        .chars()
        .all(|c| c.is_ascii_digit()));
    assert_eq!(save_path(17), "on9log-17.log");
}

#[test]
fn clock_counts_milliseconds() {
    assert_eq!(to_millis(Some((3, 999_999_999))), 3_999);
    assert_eq!(to_millis(None), 0);
    assert_eq!(to_secs(Some((3, 999_999_999))), 3);
    assert_eq!(to_secs(None), 0);
    // Any clock that runs this test shows a time after 2020.
    assert!(host_now_ms() > 1_577_836_800_000);
}

#[test]
fn wrapping_twice_is_wrapping_once() {
    let text = "  the quick\tbrown\u{a0}fox jumps_over_the_lazy_dog\n\n and  so on ";
    for width in [0, 1, 3, 5, 8, 13, 80] {
        let once = wrap(text, width);
        let mut twice: Vec<String> = Vec::new();
        for line in &once {
            twice.extend(wrap(line, width));
        }
        assert_eq!(twice, once);
    }
}

#[test]
fn wrapped_words_stand_one_space_apart() {
    let text = "  the quick\tbrown\u{a0}fox jumps_over_the_lazy_dog\n\n and  so on ";
    for width in [1, 3, 5, 8, 13, 80] {
        for line in wrap(text, width) {
            let words: Vec<&str> = line.split_whitespace().collect();
            assert_eq!(line, words.join(" "));
        }
    }
    assert_eq!(wrap(" a\t b  c ", 80), vec!["a b c".to_string()]);
}

#[test]
fn printed_lines_stay_within_the_terminal() {
    let message = "a message with some words and one_that_is_much_too_long_for_a_line\nand more";
    for width in 12..60 {
        for line in print_log_line("I (1) tag: ", message, GREEN, 4, width, false) {
            assert!(line.chars().count() <= width);
        }
    }
}
