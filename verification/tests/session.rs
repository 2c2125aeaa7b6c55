use on9log::session::{LiveSession, LiveStep, Replay};
use on9log::Outcome;

fn text(s: &[u8]) -> Outcome {
    Outcome::PlainText(s.to_vec())
}

#[test]
fn live_session_steps() {
    let mut s = LiveSession::new();
    assert_eq!(s.received(b"hello\n"), LiveStep::Show(vec![text(b"hello\n")]));
    assert_eq!(s.received(b"\xa5"), LiveStep::Show(vec![]));
    assert_eq!(s.typed(b"x\x1d"), LiveStep::Show(vec![]));
    assert_eq!(s.received(b"\xa5"), LiveStep::Show(vec![Outcome::Truncated]));
    assert_eq!(s.typed(b"\x14"), LiveStep::Quit);
    assert_eq!(s.received(b""), LiveStep::EndOfStream);
}

#[test]
fn replay_takes_the_metadata_line_out() {
    let mut r = Replay::new();
    let part = r.chunk(b"@on9log-image-sl");
    assert_eq!((part.slide, part.outcomes), (None, vec![]));
    let part = r.chunk(b"ide=10\nboot");
    assert_eq!((part.slide, part.outcomes), (Some(0x10), vec![text(b"boot")]));
    let part = r.chunk(b"@on9log-image-slide=10\n");
    assert_eq!(part.slide, None);
    assert_eq!(part.outcomes, vec![text(b"@on9log-image-slide=10\n")]);
    assert_eq!(r.end(), vec![]);
}

#[test]
fn replay_shows_what_was_held_back() {
    let mut r = Replay::new();
    assert_eq!(r.chunk(b"@on9log-image").outcomes, vec![]);
    assert_eq!(r.end(), vec![text(b"@on9log-image")]);
    assert_eq!(r.end(), vec![]);
}

#[test]
fn replay_ignores_how_the_stream_is_cut() {
    let stream = b"@on9log-image-slide=1\n\xa5\xdbz\xc0\xa5\xc0";
    for cut in 0..=stream.len() {
        let mut r = Replay::new();
        let first = r.chunk(&stream[..cut]);
        let second = r.chunk(&stream[cut..]);
        let mut all = first.outcomes;
        all.extend(second.outcomes);
        all.extend(r.end());
        assert_eq!(first.slide.or(second.slide), Some(1));
        assert_eq!(all, vec![Outcome::InvalidEscape, Outcome::Truncated]);
    }
}

#[test]
fn a_metadata_line_changes_nothing_but_the_slide() {
    let line = b"@on9log-image-slide=0123abcd\n";
    for x in [&b"boot\n"[..], b"\xa5\xdbz\xc0tail", b"", b"\n@on9log-image-slide=1\n"] {
        let mut alone = Replay::new();
        let plain = alone.chunk(x);
        let mut plain_shown = plain.outcomes;
        plain_shown.extend(alone.end());
        assert_eq!(plain.slide, None);

        let mut with_line = Replay::new();
        let part = with_line.chunk(&[&line[..], x].concat());
        let mut shown = part.outcomes;
        shown.extend(with_line.end());
        assert_eq!(part.slide, Some(0x0123_abcd));
        assert_eq!(shown, plain_shown);
    }
}

#[test]
fn an_unfinished_metadata_line_is_input() {
    let line = b"@on9log-image-slide=0123abcd\n";
    for k in 1..line.len() {
        let mut r = Replay::new();
        let part = r.chunk(&line[..k]);
        assert_eq!(part.slide, None);
        assert_eq!(part.outcomes, vec![]);
        assert_eq!(r.end(), vec![text(&line[..k])]);
    }
}

#[test]
fn quitting_leaves_the_first_key_typed() {
    let mut s = LiveSession::new();
    assert_eq!(s.typed(b"\x1d\x14x"), LiveStep::Quit);
    assert_eq!(s.typed(b"\x14"), LiveStep::Quit);
}
