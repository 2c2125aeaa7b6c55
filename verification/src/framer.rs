//! Transport frames: finding them in a byte stream and taking them apart.
//!
//! A frame is a start byte, an escaped body and an end byte. The body is a type byte,
//! the content and the checksum of the content, little-endian. What stands outside
//! frames is plain text.

use crate::crc::{self, checksum, checksum_detects_a_changed_byte};
use crate::wire::{
    le_u16, u16_bytes, Header, HEADER_LEN, PAYLOAD_LEN_STREAMING, SLIP_END, SLIP_ESC, SLIP_ESC_CR,
    SLIP_ESC_END, SLIP_ESC_ESC, SLIP_ESC_LF, SLIP_ESC_START, SLIP_START, TRANSPORT_FRAME_ON9LOG,
    TRANSPORT_FRAME_TEXT, TRANSPORT_MAX_PAYLOAD,
};
use vstd::prelude::*;

verus! {

/// A frame whose checksum was verified.
#[derive(Debug, Clone, PartialEq, Eq)]
pub struct RawFrame {
    /// The parsed packet header.
    pub header: Header,
    /// The header as it came over the wire.
    pub header_bytes: Vec<u8>,
    /// The bytes between header and checksum.
    pub payload: Vec<u8>,
}

/// A frame.
#[verifier::ext_equal]
pub struct RawFrameV {
    pub header: Header,
    pub header_bytes: Seq<u8>,
    pub payload: Seq<u8>,
}

impl View for RawFrame {
    type V = RawFrameV;

    open spec fn view(&self) -> RawFrameV {
        RawFrameV {
            header: self.header,
            header_bytes: self.header_bytes@,
            payload: self.payload@,
        }
    }
}

/// What deframing yields: a frame, text, or a diagnostic.
#[derive(Debug, Clone, PartialEq, Eq)]
pub enum Outcome {
    /// A verified on9log frame.
    Frame(RawFrame),
    /// Plain text (stdout/stderr of the device).
    PlainText(Vec<u8>),
    /// A frame of a type that is not known.
    UnknownFrameType(u8),
    /// A frame whose header is none.
    BadMagic,
    /// A frame whose checksum is wrong.
    CrcMismatch,
    /// A frame too short to hold what it must.
    Truncated,
    /// A frame whose payload has another length than its header says.
    LengthMismatch,
    /// A frame longer than a frame can be.
    FrameTooLong,
    /// An escape byte followed by a byte that is no escaped form.
    InvalidEscape,
}

/// An outcome.
#[verifier::ext_equal]
pub enum OutcomeV {
    Frame(RawFrameV),
    PlainText(Seq<u8>),
    UnknownFrameType(u8),
    BadMagic,
    CrcMismatch,
    Truncated,
    LengthMismatch,
    FrameTooLong,
    InvalidEscape,
}

impl View for Outcome {
    type V = OutcomeV;

    open spec fn view(&self) -> OutcomeV {
        match *self {
            Outcome::Frame(f) => OutcomeV::Frame(f@),
            Outcome::PlainText(b) => OutcomeV::PlainText(b@),
            Outcome::UnknownFrameType(t) => OutcomeV::UnknownFrameType(t),
            Outcome::BadMagic => OutcomeV::BadMagic,
            Outcome::CrcMismatch => OutcomeV::CrcMismatch,
            Outcome::Truncated => OutcomeV::Truncated,
            Outcome::LengthMismatch => OutcomeV::LengthMismatch,
            Outcome::FrameTooLong => OutcomeV::FrameTooLong,
            Outcome::InvalidEscape => OutcomeV::InvalidEscape,
        }
    }
}

/// Most bytes a frame's body can hold: type, header, payload, checksum.
pub const MAX_BODY: usize = 1 + HEADER_LEN + TRANSPORT_MAX_PAYLOAD + 2;

/// The byte that stands behind an escape byte as `b`, if one does.
pub open spec fn escaped_form(b: u8) -> Option<u8> {
    if b == SLIP_ESC_END {
        Some(SLIP_END)
    } else if b == SLIP_ESC_ESC {
        Some(SLIP_ESC)
    } else if b == SLIP_ESC_START {
        Some(SLIP_START)
    } else if b == SLIP_ESC_CR {
        Some(0x0d)
    } else if b == SLIP_ESC_LF {
        Some(0x0a)
    } else {
        None
    }
}

fn unescape(b: u8) -> (r: Option<u8>)
    ensures
        r == escaped_form(b),
{
    match b {
        SLIP_ESC_END => Some(SLIP_END),
        SLIP_ESC_ESC => Some(SLIP_ESC),
        SLIP_ESC_START => Some(SLIP_START),
        SLIP_ESC_CR => Some(0x0d),
        SLIP_ESC_LF => Some(0x0a),
        _ => None,
    }
}

/// The content of a body: what stands between the type byte and the checksum.
pub open spec fn content(body: Seq<u8>) -> Seq<u8> {
    body.subrange(1, body.len() - 2)
}

/// Whether the last two bytes of a body are the checksum of its content.
pub open spec fn checksum_holds(body: Seq<u8>) -> bool {
    checksum(content(body)) == le_u16(body, body.len() - 2)
}

/// What the content of a verified packet frame is.
pub open spec fn packet_outcome(content: Seq<u8>) -> OutcomeV {
    let header_bytes = content.take(HEADER_LEN as int);
    let payload = content.skip(HEADER_LEN as int);
    match Header::parsed(header_bytes) {
        None => OutcomeV::BadMagic,
        Some(header) => if header.payload_len != PAYLOAD_LEN_STREAMING && header.payload_len
            != payload.len() {
            OutcomeV::LengthMismatch
        } else {
            OutcomeV::Frame(RawFrameV { header, header_bytes, payload })
        },
    }
}

/// What a body is.
pub open spec fn body_outcome(body: Seq<u8>) -> OutcomeV {
    if body.len() == 0 {
        OutcomeV::Truncated
    } else if body[0] == TRANSPORT_FRAME_ON9LOG {
        if body.len() < 1 + HEADER_LEN + 2 {
            OutcomeV::Truncated
        } else if !checksum_holds(body) {
            OutcomeV::CrcMismatch
        } else {
            packet_outcome(content(body))
        }
    } else if body[0] == TRANSPORT_FRAME_TEXT {
        if body.len() < 1 + 2 {
            OutcomeV::Truncated
        } else if !checksum_holds(body) {
            OutcomeV::CrcMismatch
        } else {
            OutcomeV::PlainText(content(body))
        }
    } else {
        OutcomeV::UnknownFrameType(body[0])
    }
}

/// The bytes of `s` from `from` to `to`.
fn bytes_between(s: &[u8], from: usize, to: usize) -> (r: Vec<u8>)
    requires
        from <= to <= s.len(),
    ensures
        r@ == s@.subrange(from as int, to as int),
{
    let mut r: Vec<u8> = Vec::new();
    let mut i: usize = from;
    while i < to
        invariant
            from <= i <= to <= s.len(),
            r@ == s@.subrange(from as int, i as int),
        decreases to - i,
    {
        r.push(s[i]);
        i = i + 1;
    }
    r
}

/// Take a body apart.
pub fn parse_body(body: &[u8]) -> (r: Outcome)
    ensures
        r@ == body_outcome(body@),
{
    if body.len() == 0 {
        return Outcome::Truncated;
    }
    let n: usize = body.len();
    let kind = body[0];
    if kind == TRANSPORT_FRAME_ON9LOG {
        if n < 1 + HEADER_LEN + 2 {
            return Outcome::Truncated;
        }
        let header_bytes = bytes_between(body, 1, 1 + HEADER_LEN);
        let payload = bytes_between(body, 1 + HEADER_LEN, n - 2);
        proof {
            assert(header_bytes@ + payload@ =~= content(body@));
            assert(header_bytes@ =~= content(body@).take(HEADER_LEN as int));
            assert(payload@ =~= content(body@).skip(HEADER_LEN as int));
        }
        if !crc::verify(header_bytes.as_slice(), payload.as_slice(), &[body[n - 2], body[n - 1]]) {
            return Outcome::CrcMismatch;
        }
        match Header::parse(header_bytes.as_slice()) {
            None => Outcome::BadMagic,
            Some(header) => if header.payload_len != PAYLOAD_LEN_STREAMING
                && header.payload_len as usize != payload.len() {
                Outcome::LengthMismatch
            } else {
                Outcome::Frame(RawFrame { header, header_bytes, payload })
            },
        }
    } else if kind == TRANSPORT_FRAME_TEXT {
        if n < 1 + 2 {
            return Outcome::Truncated;
        }
        let text = bytes_between(body, 1, n - 2);
        assert(text@ + Seq::<u8>::empty() =~= content(body@));
        if crc::verify(text.as_slice(), &[], &[body[n - 2], body[n - 1]]) {
            Outcome::PlainText(text)
        } else {
            Outcome::CrcMismatch
        }
    } else {
        Outcome::UnknownFrameType(kind)
    }
}

/// Where in the stream a deframer is.
#[derive(Debug, Clone, Copy, PartialEq, Eq, Structural)]
pub enum Mode {
    /// Outside frames.
    Text,
    /// In a body.
    Body,
    /// In a body, behind an escape byte.
    Escape,
    /// In a body that was given up.
    Skip,
}

/// Finds frames in a byte stream that arrives in chunks.
#[derive(Debug, Clone)]
pub struct Deframer {
    mode: Mode,
    body: Vec<u8>,
}

/// A deframer: where it is, and what it holds of the current body.
#[verifier::ext_equal]
pub struct DeframerV {
    pub mode: Mode,
    pub body: Seq<u8>,
}

impl View for Deframer {
    type V = DeframerV;

    closed spec fn view(&self) -> DeframerV {
        DeframerV { mode: self.mode, body: self.body@ }
    }
}

/// A deframer outside frames.
pub open spec fn outside() -> DeframerV {
    DeframerV { mode: Mode::Text, body: Seq::empty() }
}

/// A deframer behind a start byte.
pub open spec fn started() -> DeframerV {
    DeframerV { mode: Mode::Body, body: Seq::empty() }
}

/// A deframer that waits for the end of a body that was given up.
pub open spec fn skipping() -> DeframerV {
    DeframerV { mode: Mode::Skip, body: Seq::empty() }
}

/// What one byte of the stream shows.
#[verifier::ext_equal]
pub enum EventV {
    /// A byte of plain text outside frames.
    Text(u8),
    /// The end of a frame, or of the attempt to read one.
    Yield(OutcomeV),
}

/// The deframer with one more byte of the body.
pub open spec fn with_body_byte(d: DeframerV, b: u8) -> (DeframerV, Option<EventV>) {
    if d.body.len() < MAX_BODY {
        (DeframerV { mode: Mode::Body, body: d.body.push(b) }, None)
    } else {
        (skipping(), Some(EventV::Yield(OutcomeV::FrameTooLong)))
    }
}

/// The deframer behind the byte `b`, and what that byte shows.
pub open spec fn deframed_byte(d: DeframerV, b: u8) -> (DeframerV, Option<EventV>) {
    match d.mode {
        Mode::Text => if b == SLIP_START {
            (started(), None)
        } else {
            (outside(), Some(EventV::Text(b)))
        },
        Mode::Body => if b == SLIP_START {
            (started(), Some(EventV::Yield(OutcomeV::Truncated)))
        } else if b == SLIP_END {
            (outside(), Some(EventV::Yield(body_outcome(d.body))))
        } else if b == SLIP_ESC {
            (DeframerV { mode: Mode::Escape, body: d.body }, None)
        } else {
            with_body_byte(d, b)
        },
        Mode::Escape => match escaped_form(b) {
            Some(x) => with_body_byte(d, x),
            None => (
                if b == SLIP_START {
                    started()
                } else if b == SLIP_END {
                    outside()
                } else {
                    skipping()
                },
                Some(EventV::Yield(OutcomeV::InvalidEscape)),
            ),
        },
        Mode::Skip => (
            if b == SLIP_START {
                started()
            } else if b == SLIP_END {
                outside()
            } else {
                skipping()
            },
            None,
        ),
    }
}

/// The deframer behind the bytes of `s`.
pub open spec fn after_stream(d: DeframerV, s: Seq<u8>) -> DeframerV
    decreases s.len(),
{
    if s.len() == 0 {
        d
    } else {
        deframed_byte(after_stream(d, s.drop_last()), s.last()).0
    }
}

/// What the bytes of `s` show.
pub open spec fn events(d: DeframerV, s: Seq<u8>) -> Seq<EventV>
    decreases s.len(),
{
    if s.len() == 0 {
        Seq::empty()
    } else {
        match deframed_byte(after_stream(d, s.drop_last()), s.last()).1 {
            Some(e) => events(d, s.drop_last()).push(e),
            None => events(d, s.drop_last()),
        }
    }
}

/// The run of plain text at the end of `e`.
pub open spec fn text_run(e: Seq<EventV>) -> Seq<u8>
    decreases e.len(),
{
    if e.len() == 0 {
        Seq::empty()
    } else {
        match e.last() {
            EventV::Text(b) => text_run(e.drop_last()).push(b),
            EventV::Yield(_) => Seq::empty(),
        }
    }
}

/// A run of plain text as an outcome; an empty one is none.
pub open spec fn run_outcome(run: Seq<u8>) -> Seq<OutcomeV> {
    if run.len() == 0 {
        Seq::empty()
    } else {
        seq![OutcomeV::PlainText(run)]
    }
}

/// The outcomes of `e` up to the run of plain text at its end.
pub open spec fn outcomes_before_run(e: Seq<EventV>) -> Seq<OutcomeV>
    decreases e.len(),
{
    if e.len() == 0 {
        Seq::empty()
    } else {
        let rest = e.drop_last();
        match e.last() {
            EventV::Text(_) => outcomes_before_run(rest),
            EventV::Yield(o) => (outcomes_before_run(rest) + run_outcome(text_run(rest))).push(o),
        }
    }
}

/// The outcomes of `e`, each run of plain text joined to one.
pub open spec fn outcomes(e: Seq<EventV>) -> Seq<OutcomeV> {
    outcomes_before_run(e) + run_outcome(text_run(e))
}

/// The views of outcomes.
pub open spec fn outcome_views(s: Seq<Outcome>) -> Seq<OutcomeV> {
    Seq::new(s.len(), |i: int| s[i]@)
}

proof fn lemma_outcome_views_push(s: Seq<Outcome>, o: Outcome)
    ensures
        outcome_views(s.push(o)) == outcome_views(s).push(o@),
{
    assert(outcome_views(s.push(o)) =~= outcome_views(s).push(o@));
}

/// Move a run of plain text to the end of `out`.
fn flush_text(out: &mut Vec<Outcome>, text: Vec<u8>)
    ensures
        outcome_views(final(out)@) == outcome_views(old(out)@) + run_outcome(text@),
{
    if text.len() > 0 {
        let o = Outcome::PlainText(text);
        proof {
            lemma_outcome_views_push(out@, o);
        }
        out.push(o);
    }
    assert(outcome_views(out@) =~= outcome_views(old(out)@) + run_outcome(text@));
}

impl Deframer {
    /// A deframer at the start of a stream.
    pub fn new() -> (r: Self)
        ensures
            r@ == outside(),
    {
        let r = Deframer { mode: Mode::Text, body: Vec::new() };
        assert(r@ =~= outside());
        r
    }

    fn enter(&mut self, mode: Mode)
        ensures
            final(self)@ == (DeframerV { mode, body: Seq::empty() }),
    {
        self.mode = mode;
        self.body = Vec::new();
        assert(self.body@ =~= Seq::<u8>::empty());
    }

    fn take_body_byte(&mut self, b: u8) -> (r: Option<Outcome>)
        ensures
            with_body_byte(old(self)@, b) == (final(self)@, yielded(r)),
    {
        if self.body.len() < MAX_BODY {
            self.mode = Mode::Body;
            self.body.push(b);
            None
        } else {
            self.enter(Mode::Skip);
            Some(Outcome::FrameTooLong)
        }
    }

    /// Take a byte inside a frame.
    fn take_byte(&mut self, b: u8) -> (r: Option<Outcome>)
        requires
            old(self)@.mode != Mode::Text,
        ensures
            deframed_byte(old(self)@, b) == (final(self)@, yielded(r)),
    {
        match self.mode {
            Mode::Text => None,
            Mode::Body => if b == SLIP_START {
                self.enter(Mode::Body);
                Some(Outcome::Truncated)
            } else if b == SLIP_END {
                let o = parse_body(self.body.as_slice());
                self.enter(Mode::Text);
                Some(o)
            } else if b == SLIP_ESC {
                self.mode = Mode::Escape;
                None
            } else {
                self.take_body_byte(b)
            },
            Mode::Escape => match unescape(b) {
                Some(x) => self.take_body_byte(x),
                None => {
                    self.leave(b);
                    Some(Outcome::InvalidEscape)
                },
            },
            Mode::Skip => {
                self.leave(b);
                None
            },
        }
    }

    fn leave(&mut self, b: u8)
        ensures
            final(self)@ == (if b == SLIP_START {
                started()
            } else if b == SLIP_END {
                outside()
            } else {
                skipping()
            }),
    {
        if b == SLIP_START {
            self.enter(Mode::Body);
        } else if b == SLIP_END {
            self.enter(Mode::Text);
        } else {
            self.enter(Mode::Skip);
        }
    }

    /// Feed the next chunk of the stream. Plain text that the chunk holds is yielded
    /// with it; a frame is yielded with the chunk that ends it.
    pub fn feed(&mut self, bytes: &[u8]) -> (r: Vec<Outcome>)
        ensures
            final(self)@ == after_stream(old(self)@, bytes@),
            outcome_views(r@) == outcomes(events(old(self)@, bytes@)),
    {
        let ghost d = self@;
        let mut out: Vec<Outcome> = Vec::new();
        let mut text: Vec<u8> = Vec::new();
        let mut i: usize = 0;
        assert(outcome_views(out@) =~= Seq::<OutcomeV>::empty());
        assert(bytes@.take(0) =~= Seq::<u8>::empty());
        while i < bytes.len()
            invariant
                0 <= i <= bytes.len(),
                self@ == after_stream(d, bytes@.take(i as int)),
                outcome_views(out@) == outcomes_before_run(events(d, bytes@.take(i as int))),
                text@ == text_run(events(d, bytes@.take(i as int))),
            decreases bytes.len() - i,
        {
            let b = bytes[i];
            let ghost seen = events(d, bytes@.take(i as int));
            assert(bytes@.take(i + 1).drop_last() =~= bytes@.take(i as int));
            if let Mode::Text = self.mode {
                if b == SLIP_START {
                    self.enter(Mode::Body);
                } else {
                    self.enter(Mode::Text);
                    text.push(b);
                    assert(seen.push(EventV::Text(b)).drop_last() =~= seen);
                }
            } else {
                match self.take_byte(b) {
                    Some(o) => {
                        flush_text(&mut out, text);
                        proof {
                            lemma_outcome_views_push(out@, o);
                            assert(seen.push(EventV::Yield(o@)).drop_last() =~= seen);
                        }
                        out.push(o);
                        text = Vec::new();
                        assert(text@ =~= Seq::<u8>::empty());
                    },
                    None => {},
                }
            }
            i = i + 1;
        }
        assert(bytes@.take(i as int) =~= bytes@);
        flush_text(&mut out, text);
        out
    }
}

impl Default for Deframer {
    fn default() -> (r: Self)
        ensures
            r@ == outside(),
    {
        Self::new()
    }
}

/// What an optional outcome shows.
pub open spec fn yielded(o: Option<Outcome>) -> Option<EventV> {
    match o {
        Some(o) => Some(EventV::Yield(o@)),
        None => None,
    }
}

/// Deframing does not depend on how the stream is cut into chunks.
pub proof fn deframing_ignores_chunks(d: DeframerV, a: Seq<u8>, b: Seq<u8>)
    ensures
        after_stream(d, a + b) == after_stream(after_stream(d, a), b),
        events(d, a + b) == events(d, a) + events(after_stream(d, a), b),
    decreases b.len(),
{
    if b.len() == 0 {
        assert(a + b =~= a);
        assert(events(d, a) + events(after_stream(d, a), b) =~= events(d, a));
    } else {
        deframing_ignores_chunks(d, a, b.drop_last());
        assert((a + b).drop_last() =~= a + b.drop_last());
        assert(events(d, a + b) =~= events(d, a) + events(after_stream(d, a), b));
    }
}

/// What stands for the byte `b` of a body on the wire.
pub open spec fn escaped_byte(b: u8) -> Seq<u8> {
    if b == SLIP_END {
        seq![SLIP_ESC, SLIP_ESC_END]
    } else if b == SLIP_ESC {
        seq![SLIP_ESC, SLIP_ESC_ESC]
    } else if b == SLIP_START {
        seq![SLIP_ESC, SLIP_ESC_START]
    } else if b == 0x0d {
        seq![SLIP_ESC, SLIP_ESC_CR]
    } else if b == 0x0a {
        seq![SLIP_ESC, SLIP_ESC_LF]
    } else {
        seq![b]
    }
}

/// What stands for a body on the wire.
pub open spec fn escaped(body: Seq<u8>) -> Seq<u8>
    decreases body.len(),
{
    if body.len() == 0 {
        Seq::empty()
    } else {
        escaped(body.drop_last()) + escaped_byte(body.last())
    }
}

/// The frame around a body.
pub open spec fn framed(body: Seq<u8>) -> Seq<u8> {
    seq![SLIP_START] + escaped(body) + seq![SLIP_END]
}

/// The body around a content.
pub open spec fn body_of(kind: u8, content: Seq<u8>) -> Seq<u8> {
    seq![kind] + content + u16_bytes(checksum(content))
}

proof fn lemma_one_byte(d: DeframerV, b: u8)
    ensures
        after_stream(d, seq![b]) == deframed_byte(d, b).0,
        events(d, seq![b]) == match deframed_byte(d, b).1 {
            Some(e) => seq![e],
            None => Seq::<EventV>::empty(),
        },
{
    let s = seq![b];
    assert(s.drop_last() =~= Seq::<u8>::empty());
    assert(after_stream(d, s.drop_last()) == d);
    assert(events(d, s.drop_last()) == Seq::<EventV>::empty());
    match deframed_byte(d, b).1 {
        Some(e) => {
            assert(events(d, s) =~= seq![e]);
        },
        None => {},
    }
}

proof fn lemma_escaped_byte(body: Seq<u8>, b: u8)
    requires
        body.len() < MAX_BODY,
    ensures
        ({
            let d = DeframerV { mode: Mode::Body, body };
            &&& after_stream(d, escaped_byte(b)) == (DeframerV {
                mode: Mode::Body,
                body: body.push(b),
            })
            &&& events(d, escaped_byte(b)) == Seq::<EventV>::empty()
        }),
{
    let d = DeframerV { mode: Mode::Body, body };
    let e = escaped_byte(b);
    if e.len() == 1 {
        lemma_one_byte(d, b);
    } else {
        let x = seq![SLIP_ESC];
        let y = seq![e[1]];
        assert(e =~= x + y);
        lemma_one_byte(d, SLIP_ESC);
        let m = DeframerV { mode: Mode::Escape, body };
        assert(after_stream(d, x) == m);
        lemma_one_byte(m, e[1]);
        assert(escaped_form(e[1]) == Some(b));
        deframing_ignores_chunks(d, x, y);
        assert(events(d, x) + events(m, y) =~= Seq::<EventV>::empty());
    }
}

proof fn lemma_escaped(body: Seq<u8>)
    requires
        body.len() <= MAX_BODY,
    ensures
        after_stream(started(), escaped(body)) == (DeframerV { mode: Mode::Body, body }),
        events(started(), escaped(body)) == Seq::<EventV>::empty(),
    decreases body.len(),
{
    if body.len() == 0 {
        assert(body =~= Seq::<u8>::empty());
    } else {
        let head = body.drop_last();
        lemma_escaped(head);
        lemma_escaped_byte(head, body.last());
        deframing_ignores_chunks(started(), escaped(head), escaped_byte(body.last()));
        assert(head.push(body.last()) =~= body);
        assert(Seq::<EventV>::empty() + Seq::<EventV>::empty() =~= Seq::<EventV>::empty());
    }
}

/// A frame is read whole whatever state the deframer is in when it starts: its last
/// event is what the body is, and the deframer is outside frames again.
pub proof fn frame_is_read_from_any_state(d: DeframerV, body: Seq<u8>)
    requires
        body.len() <= MAX_BODY,
    ensures
        after_stream(d, framed(body)) == outside(),
        events(d, framed(body)).len() > 0,
        events(d, framed(body)).last() == EventV::Yield(body_outcome(body)),
        d.mode == Mode::Text ==> events(d, framed(body)) == seq![
            EventV::Yield(body_outcome(body)),
        ],
{
    let a = seq![SLIP_START];
    let b = escaped(body);
    let c = seq![SLIP_END];
    lemma_one_byte(d, SLIP_START);
    assert(after_stream(d, a) == started());
    deframing_ignores_chunks(d, a, b);
    lemma_escaped(body);
    let m = DeframerV { mode: Mode::Body, body };
    deframing_ignores_chunks(d, a + b, c);
    lemma_one_byte(m, SLIP_END);
    assert(events(d, a + b) =~= events(d, a));
    assert(events(d, framed(body)) =~= events(d, a).push(EventV::Yield(body_outcome(body))));
}

proof fn lemma_body_of(kind: u8, data: Seq<u8>)
    ensures
        content(body_of(kind, data)) == data,
        checksum_holds(body_of(kind, data)),
{
    let body = body_of(kind, data);
    assert(content(body) =~= data);
    let c = checksum(data);
    let two = u16_bytes(c);
    assert(body[body.len() - 2] == two[0] && body[body.len() - 1] == two[1]);
}

/// Deframing gives back the packet that was framed: header and payload.
pub proof fn sent_packet_is_received(header: Header, payload: Seq<u8>)
    requires
        header.magic == crate::wire::PACKET_MAGIC,
        header.payload_len == PAYLOAD_LEN_STREAMING || header.payload_len == payload.len(),
        payload.len() <= TRANSPORT_MAX_PAYLOAD,
    ensures
        outcomes(
            events(
                outside(),
                framed(body_of(TRANSPORT_FRAME_ON9LOG, header.encoded() + payload)),
            ),
        ) == seq![
            OutcomeV::Frame(
                RawFrameV { header, header_bytes: header.encoded(), payload },
            ),
        ],
{
    let data = header.encoded() + payload;
    let body = body_of(TRANSPORT_FRAME_ON9LOG, data);
    crate::wire::header_parse_inverts_encoding(header, Seq::empty());
    assert(header.encoded() + Seq::<u8>::empty() =~= header.encoded());
    assert(data.take(HEADER_LEN as int) =~= header.encoded());
    assert(data.skip(HEADER_LEN as int) =~= payload);
    lemma_body_of(TRANSPORT_FRAME_ON9LOG, data);
    frame_is_read_from_any_state(outside(), body);
    lemma_one_outcome(body_outcome(body));
}

/// Deframing gives back the text that was framed.
pub proof fn sent_text_is_received(text: Seq<u8>)
    requires
        text.len() <= TRANSPORT_MAX_PAYLOAD,
    ensures
        outcomes(events(outside(), framed(body_of(TRANSPORT_FRAME_TEXT, text)))) == seq![
            OutcomeV::PlainText(text),
        ],
{
    let body = body_of(TRANSPORT_FRAME_TEXT, text);
    lemma_body_of(TRANSPORT_FRAME_TEXT, text);
    frame_is_read_from_any_state(outside(), body);
    lemma_one_outcome(body_outcome(body));
}

proof fn lemma_one_outcome(o: OutcomeV)
    ensures
        outcomes(seq![EventV::Yield(o)]) == seq![o],
{
    let e = seq![EventV::Yield(o)];
    assert(e.drop_last() =~= Seq::<EventV>::empty());
    assert(outcomes_before_run(e.drop_last()) =~= Seq::<OutcomeV>::empty());
    assert(text_run(e.drop_last()) =~= Seq::<u8>::empty());
    assert(outcomes(e) =~= seq![o]);
}

/// A frame in which one byte of the content was changed is never taken for a packet or
/// for text: the checksum shows it.
pub proof fn damaged_content_is_reported(kind: u8, data: Seq<u8>, i: int, b: u8)
    requires
        kind == TRANSPORT_FRAME_TEXT || kind == TRANSPORT_FRAME_ON9LOG && data.len() >= HEADER_LEN,
        0 <= i < data.len(),
        b != data[i],
    ensures
        body_outcome(body_of(kind, data).update(i + 1, b)) == OutcomeV::CrcMismatch,
{
    let body = body_of(kind, data);
    let bad = body.update(i + 1, b);
    lemma_body_of(kind, data);
    assert(content(bad) =~= data.update(i, b));
    checksum_detects_a_changed_byte(data, i, b);
}

/// Plain text outside frames comes through as it is.
pub proof fn text_outside_frames_is_kept(s: Seq<u8>)
    requires
        s.len() > 0,
        forall|i: int| 0 <= i < s.len() ==> s[i] != SLIP_START,
    ensures
        outcomes(events(outside(), s)) == seq![OutcomeV::PlainText(s)],
        after_stream(outside(), s) == outside(),
{
    lemma_text_events(s);
    assert(outcomes(events(outside(), s)) =~= seq![OutcomeV::PlainText(s)]);
}

proof fn lemma_text_events(s: Seq<u8>)
    requires
        forall|i: int| 0 <= i < s.len() ==> s[i] != SLIP_START,
    ensures
        after_stream(outside(), s) == outside(),
        outcomes_before_run(events(outside(), s)) == Seq::<OutcomeV>::empty(),
        text_run(events(outside(), s)) == s,
    decreases s.len(),
{
    if s.len() > 0 {
        let head = s.drop_last();
        lemma_text_events(head);
        let e = events(outside(), head);
        assert(e.push(EventV::Text(s.last())).drop_last() =~= e);
        assert(head.push(s.last()) =~= s);
    } else {
        assert(s =~= Seq::<u8>::empty());
    }
}

/// What a body is that holds no packet and no text: a frame of an unknown type is
/// reported with its type, one that is too short for its type as cut off, and one whose
/// checksum does not fit its content as damaged.
pub proof fn bad_bodies_are_reported(body: Seq<u8>)
    ensures
        body.len() == 0 ==> body_outcome(body) == OutcomeV::Truncated,
        body.len() > 0 && body[0] != 1 && body[0] != 2 ==> body_outcome(body)
            == OutcomeV::UnknownFrameType(body[0]),
        0 < body.len() < 21 && body[0] == 1 ==> body_outcome(body) == OutcomeV::Truncated,
        0 < body.len() < 3 && body[0] == 2 ==> body_outcome(body) == OutcomeV::Truncated,
        ({
            let n = body.len();
            let fits = n >= 3 && checksum(body.subrange(1, n - 2)) == body[n - 2] + 256 * body[n
                - 1];
            &&& n >= 21 && body[0] == 1 && !fits ==> body_outcome(body) == OutcomeV::CrcMismatch
            &&& n >= 3 && body[0] == 2 && !fits ==> body_outcome(body) == OutcomeV::CrcMismatch
            &&& n >= 3 && body[0] == 2 && fits ==> body_outcome(body) == OutcomeV::PlainText(
                body.subrange(1, n - 2),
            )
        }),
{
}

/// An undamaged packet frame without the magic byte is no packet, and one whose header
/// tells another length than that of its payload is reported as such; the length of a
/// streamed payload is not told.
pub proof fn bad_packets_are_reported(header: Header, payload: Seq<u8>)
    ensures
        header.magic != crate::wire::PACKET_MAGIC ==> body_outcome(
            body_of(TRANSPORT_FRAME_ON9LOG, header.encoded() + payload),
        ) == OutcomeV::BadMagic,
        header.magic == crate::wire::PACKET_MAGIC && header.payload_len != PAYLOAD_LEN_STREAMING
            && header.payload_len != payload.len() ==> body_outcome(
            body_of(TRANSPORT_FRAME_ON9LOG, header.encoded() + payload),
        ) == OutcomeV::LengthMismatch,
{
    let data = header.encoded() + payload;
    let body = body_of(TRANSPORT_FRAME_ON9LOG, data);
    assert(header.encoded().len() == 18);
    assert(data.take(HEADER_LEN as int) =~= header.encoded());
    assert(data.skip(HEADER_LEN as int) =~= payload);
    lemma_body_of(TRANSPORT_FRAME_ON9LOG, data);
    if header.magic == crate::wire::PACKET_MAGIC {
        crate::wire::header_parse_inverts_encoding(header, Seq::empty());
        assert(header.encoded() + Seq::<u8>::empty() =~= header.encoded());
    }
}

/// A frame of an unknown type or without the right checksum comes out of the stream as
/// the report that its body gives, and text in front of a frame comes out ahead of it.
pub proof fn text_and_frames_keep_their_order(text: Seq<u8>, body: Seq<u8>, behind: Seq<u8>)
    requires
        body.len() <= MAX_BODY,
        forall|i: int| 0 <= i < text.len() ==> text[i] != SLIP_START,
        forall|i: int| 0 <= i < behind.len() ==> behind[i] != SLIP_START,
    ensures
        outcomes(events(outside(), text + framed(body) + behind)) == run_of(text) + seq![
            body_outcome(body),
        ] + run_of(behind),
{
    let a = text;
    let b = framed(body);
    let c = behind;
    lemma_text_events(a);
    frame_is_read_from_any_state(outside(), body);
    lemma_text_events(c);
    deframing_ignores_chunks(outside(), a, b);
    deframing_ignores_chunks(outside(), a + b, c);
    let ea = events(outside(), a);
    let y = EventV::Yield(body_outcome(body));
    let eb = ea + seq![y];
    assert(eb.drop_last() =~= ea);
    assert(outcomes_before_run(eb) =~= run_of(a).push(body_outcome(body)));
    assert(text_run(eb) =~= Seq::<u8>::empty());
    lemma_run_behind(eb, c);
    assert(outcomes(events(outside(), a + b + c)) =~= run_of(a) + seq![body_outcome(body)]
        + run_of(c));
}

/// Text as an outcome; empty text is none.
pub open spec fn run_of(text: Seq<u8>) -> Seq<OutcomeV> {
    if text.len() == 0 {
        Seq::empty()
    } else {
        seq![OutcomeV::PlainText(text)]
    }
}

proof fn lemma_run_behind(e: Seq<EventV>, s: Seq<u8>)
    requires
        text_run(e).len() == 0,
        forall|i: int| 0 <= i < s.len() ==> s[i] != SLIP_START,
    ensures
        text_run(e + events(outside(), s)) == s,
        outcomes_before_run(e + events(outside(), s)) == outcomes_before_run(e),
    decreases s.len(),
{
    if s.len() > 0 {
        let head = s.drop_last();
        lemma_run_behind(e, head);
        lemma_text_events(head);
        let x = EventV::Text(s.last());
        let all = e + events(outside(), s);
        assert(events(outside(), s) == events(outside(), head).push(x));
        assert(all.drop_last() =~= e + events(outside(), head));
        assert(all.last() == x);
        assert(head.push(s.last()) =~= s);
    } else {
        assert(e + events(outside(), s) =~= e);
        assert(text_run(e) =~= s);
    }
}

/// A body that is one byte too long is given up with a report: what follows is passed
/// over up to the end of the frame, and then text and frames are read again.
pub proof fn overlong_frames_are_given_up(body: Seq<u8>, b: u8, rest: Seq<u8>)
    requires
        body.len() == MAX_BODY,
        b != SLIP_START && b != SLIP_END && b != SLIP_ESC,
        forall|i: int| 0 <= i < rest.len() ==> rest[i] != SLIP_START && rest[i] != SLIP_END,
    ensures
        ({
            let d = DeframerV { mode: Mode::Body, body };
            let s = seq![b] + rest + seq![SLIP_END];
            &&& events(d, s) == seq![EventV::Yield(OutcomeV::FrameTooLong)]
            &&& after_stream(d, s) == outside()
        }),
{
    let d = DeframerV { mode: Mode::Body, body };
    let a = seq![b];
    lemma_one_byte(d, b);
    lemma_skipping(rest);
    lemma_one_byte(skipping(), SLIP_END);
    deframing_ignores_chunks(d, a, rest);
    deframing_ignores_chunks(d, a + rest, seq![SLIP_END]);
    assert(events(d, seq![b] + rest + seq![SLIP_END]) =~= seq![
        EventV::Yield(OutcomeV::FrameTooLong),
    ]);
}

proof fn lemma_skipping(s: Seq<u8>)
    requires
        forall|i: int| 0 <= i < s.len() ==> s[i] != SLIP_START && s[i] != SLIP_END,
    ensures
        after_stream(skipping(), s) == skipping(),
        events(skipping(), s) == Seq::<EventV>::empty(),
    decreases s.len(),
{
    if s.len() > 0 {
        lemma_skipping(s.drop_last());
    }
}

/// An escape byte with anything behind it but the five escaped forms gives the frame up
/// with a report; a start byte behind it starts the next frame, and an end byte ends this
/// one.
pub proof fn invalid_escapes_are_reported(body: Seq<u8>, b: u8)
    requires
        b != 0xdc && b != 0xdd && b != 0xde && b != 0xd0 && b != 0xd1,
    ensures
        ({
            let d = DeframerV { mode: Mode::Body, body };
            let s = seq![SLIP_ESC, b];
            &&& events(d, s) == seq![EventV::Yield(OutcomeV::InvalidEscape)]
            &&& after_stream(d, s) == (if b == SLIP_START {
                started()
            } else if b == SLIP_END {
                outside()
            } else {
                skipping()
            })
        }),
{
    let d = DeframerV { mode: Mode::Body, body };
    let m = DeframerV { mode: Mode::Escape, body };
    let s = seq![SLIP_ESC, b];
    lemma_one_byte(d, SLIP_ESC);
    lemma_one_byte(m, b);
    assert(s =~= seq![SLIP_ESC] + seq![b]);
    deframing_ignores_chunks(d, seq![SLIP_ESC], seq![b]);
    assert(events(d, s) =~= seq![EventV::Yield(OutcomeV::InvalidEscape)]);
}

/// A start byte in the middle of a frame reports it as cut off and starts the next one.
pub proof fn interrupted_frames_are_reported(body: Seq<u8>)
    ensures
        ({
            let d = DeframerV { mode: Mode::Body, body };
            &&& events(d, seq![SLIP_START]) == seq![EventV::Yield(OutcomeV::Truncated)]
            &&& after_stream(d, seq![SLIP_START]) == started()
        }),
{
    lemma_one_byte(DeframerV { mode: Mode::Body, body }, SLIP_START);
}

/// The bytes that frames are made of: where a frame starts and ends, and what stands for a
/// byte of the body that must not stand there itself.
pub proof fn bytes_of_the_framing(b: u8, body: Seq<u8>)
    ensures
        framed(body)[0] == 0xa5 && framed(body).last() == 0xc0,
        escaped_byte(b) == (if b == 0xc0 {
            seq![0xdbu8, 0xdc]
        } else if b == 0xdb {
            seq![0xdbu8, 0xdd]
        } else if b == 0xa5 {
            seq![0xdbu8, 0xde]
        } else if b == 0x0d {
            seq![0xdbu8, 0xd0]
        } else if b == 0x0a {
            seq![0xdbu8, 0xd1]
        } else {
            seq![b]
        }),
        MAX_BODY == 1 + 18 + 3072 + 2,
{
}

} // verus!
