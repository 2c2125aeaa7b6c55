//! The two ways a stream is read: live from a device, and replayed from a file or a
//! pipe.

use crate::framer::{
    after_stream, deframing_ignores_chunks, events, outcome_views, outcomes, outside, Deframer,
    DeframerV, EventV, Outcome, OutcomeV,
};
use crate::keys::{armed_after, quits, MonitorKeyState};
use crate::preamble::{
    accepted, accepting_ignores_chunks, announced, gives_up, is_metadata_line,
    metadata_line_is_taken_out, other_streams_have_no_metadata_line, preamble_after,
    short_line_is_not_given_up, unfinished_line_is_held_back, PreambleV, ReplayPreamble, MAX_LINE,
};
use vstd::prelude::*;

verus! {

/// What follows from an event of a live session.
#[derive(Debug, Clone, PartialEq, Eq)]
pub enum LiveStep {
    /// Show these outcomes and go on.
    Show(Vec<Outcome>),
    /// The user asked to quit.
    Quit,
    /// The device is gone.
    EndOfStream,
}

/// What follows from an event of a live session.
#[verifier::ext_equal]
pub enum LiveStepV {
    Show(Seq<OutcomeV>),
    Quit,
    EndOfStream,
}

impl View for LiveStep {
    type V = LiveStepV;

    open spec fn view(&self) -> LiveStepV {
        match *self {
            LiveStep::Show(list) => LiveStepV::Show(outcome_views(list@)),
            LiveStep::Quit => LiveStepV::Quit,
            LiveStep::EndOfStream => LiveStepV::EndOfStream,
        }
    }
}

/// A stream that is read from a device while the user may type.
#[derive(Debug, Clone)]
pub struct LiveSession {
    deframer: Deframer,
    keys: MonitorKeyState,
}

/// A live session: its deframer, and whether the first key of the quit sequence was the
/// last one typed.
#[verifier::ext_equal]
pub struct LiveSessionV {
    pub deframer: DeframerV,
    pub armed: bool,
}

impl View for LiveSession {
    type V = LiveSessionV;

    closed spec fn view(&self) -> LiveSessionV {
        LiveSessionV { deframer: self.deframer@, armed: self.keys.saw_ctrl_rbracket }
    }
}

impl LiveSession {
    /// A session before any event.
    pub fn new() -> (r: Self)
        ensures
            r@ == (LiveSessionV { deframer: outside(), armed: false }),
    {
        LiveSession { deframer: Deframer::new(), keys: MonitorKeyState::new() }
    }

    /// The device sent `bytes`; an empty read is the end of the stream.
    pub fn received(&mut self, bytes: &[u8]) -> (r: LiveStep)
        ensures
            r@ == (if bytes@.len() == 0 {
                LiveStepV::EndOfStream
            } else {
                LiveStepV::Show(outcomes(events(old(self)@.deframer, bytes@)))
            }),
            final(self)@ == (LiveSessionV {
                deframer: after_stream(old(self)@.deframer, bytes@),
                ..old(self)@
            }),
    {
        if bytes.len() == 0 {
            return LiveStep::EndOfStream;
        }
        LiveStep::Show(self.deframer.feed(bytes))
    }

    /// The user typed `bytes`.
    pub fn typed(&mut self, bytes: &[u8]) -> (r: LiveStep)
        ensures
            r@ == (if quits(bytes@, old(self)@.armed) {
                LiveStepV::Quit
            } else {
                LiveStepV::Show(Seq::empty())
            }),
            final(self)@.deframer == old(self)@.deframer,
            final(self)@.armed == (if quits(bytes@, old(self)@.armed) {
                true
            } else {
                armed_after(bytes@, old(self)@.armed)
            }),
    {
        if self.keys.feed(bytes) {
            return LiveStep::Quit;
        }
        let none: Vec<Outcome> = Vec::new();
        assert(outcome_views(none@) =~= Seq::empty());
        LiveStep::Show(none)
    }
}

/// What one chunk of a replayed stream gives.
#[derive(Debug, Clone, PartialEq, Eq)]
pub struct Replayed {
    /// The slide of the image, to be applied before the outcomes are shown.
    pub slide: Option<u32>,
    /// What was deframed.
    pub outcomes: Vec<Outcome>,
}

/// A stream that is read from a file or a pipe.
#[derive(Debug, Clone)]
pub struct Replay {
    preamble: ReplayPreamble,
    deframer: Deframer,
}

/// A replay: the parser of its metadata line, and its deframer.
#[verifier::ext_equal]
pub struct ReplayV {
    pub preamble: PreambleV,
    pub deframer: DeframerV,
}

impl View for Replay {
    type V = ReplayV;

    closed spec fn view(&self) -> ReplayV {
        ReplayV { preamble: self.preamble@, deframer: self.deframer@ }
    }
}

impl ReplayV {
    /// A replay holds back input only while it may be the metadata line.
    pub open spec fn wf(self) -> bool {
        self.preamble.wf()
    }
}

/// A replay behind a chunk.
pub open spec fn replay_after(r: ReplayV, chunk: Seq<u8>) -> ReplayV {
    ReplayV {
        preamble: preamble_after(r.preamble, chunk),
        deframer: after_stream(r.deframer, accepted(r.preamble, chunk).data),
    }
}

/// What a chunk shows.
pub open spec fn replay_events(r: ReplayV, chunk: Seq<u8>) -> Seq<EventV> {
    events(r.deframer, accepted(r.preamble, chunk).data)
}

/// A replay before any input.
pub open spec fn fresh_replay() -> ReplayV {
    ReplayV {
        preamble: PreambleV { pending: Seq::empty(), decided: false },
        deframer: outside(),
    }
}

/// All that a replay of the stream `s` shows, its end included.
pub open spec fn shown_whole(s: Seq<u8>) -> Seq<EventV> {
    let last = replay_after(fresh_replay(), s);
    replay_events(fresh_replay(), s) + events(last.deframer, last.preamble.pending)
}

impl Replay {
    /// A replay before any input.
    pub fn new() -> (r: Self)
        ensures
            r@.wf(),
            r@ == fresh_replay(),
    {
        Replay { preamble: ReplayPreamble::new(), deframer: Deframer::new() }
    }

    /// Takes the next chunk of the stream.
    pub fn chunk(&mut self, bytes: &[u8]) -> (r: Replayed)
        requires
            old(self)@.wf(),
        ensures
            final(self)@.wf(),
            final(self)@ == replay_after(old(self)@, bytes@),
            r.slide == accepted(old(self)@.preamble, bytes@).slide,
            outcome_views(r.outcomes@) == outcomes(replay_events(old(self)@, bytes@)),
    {
        let part = self.preamble.accept(bytes);
        let outcomes = self.deframer.feed(part.data.as_slice());
        Replayed { slide: part.slide, outcomes }
    }

    /// The stream has ended: what was held back is no metadata line.
    pub fn end(&mut self) -> (r: Vec<Outcome>)
        requires
            old(self)@.wf(),
        ensures
            final(self)@.wf(),
            final(self)@.preamble.pending.len() == 0,
            final(self)@.deframer == after_stream(
                old(self)@.deframer,
                old(self)@.preamble.pending,
            ),
            outcome_views(r@) == outcomes(
                events(old(self)@.deframer, old(self)@.preamble.pending),
            ),
    {
        let ghost held = self@.preamble.pending;
        match self.preamble.finish() {
            Some(data) => self.deframer.feed(data.as_slice()),
            None => {
                assert(held =~= Seq::empty());
                let none: Vec<Outcome> = Vec::new();
                assert(outcome_views(none@) =~= outcomes(events(self@.deframer, held)));
                none
            },
        }
    }
}

/// Replaying a stream chunk by chunk shows what replaying it at once shows, but for a
/// marked line that is given up between the chunks.
pub proof fn replay_ignores_chunks(r: ReplayV, a: Seq<u8>, b: Seq<u8>)
    requires
        r.wf(),
        !gives_up(r.preamble, a),
    ensures
        replay_after(r, a + b) == replay_after(replay_after(r, a), b),
        replay_events(r, a + b) == replay_events(r, a) + replay_events(replay_after(r, a), b),
{
    accepting_ignores_chunks(r.preamble, a, b);
    let first = accepted(r.preamble, a).data;
    let second = accepted(preamble_after(r.preamble, a), b).data;
    deframing_ignores_chunks(r.deframer, first, second);
}

/// A stream without a metadata line is shown whole once it has ended.
pub proof fn plain_stream_is_shown_whole(s: Seq<u8>)
    requires
        accepted(fresh_replay().preamble, s).slide is None,
    ensures
        shown_whole(s) == events(outside(), s),
{
    let p = fresh_replay().preamble;
    assert(p.pending + s =~= s);
    let data = accepted(p, s).data;
    let held = preamble_after(p, s).pending;
    assert(data + held =~= s);
    deframing_ignores_chunks(outside(), data, held);
}

/// A metadata line in front of a stream changes nothing but the slide: what is shown is
/// what the stream shows that has no such line, and nothing of the line is. A stream
/// that does not start with `@` has no such line.
pub proof fn metadata_line_changes_only_the_slide(line: Seq<u8>, x: Seq<u8>)
    requires
        is_metadata_line(line),
    ensures
        accepted(fresh_replay().preamble, line + x).slide == Some(announced(line)),
        replay_events(fresh_replay(), line + x) == events(outside(), x),
        shown_whole(line + x) == events(outside(), x),
        accepted(fresh_replay().preamble, x).slide is None ==> shown_whole(line + x)
            == shown_whole(x),
        x.len() == 0 || x[0] != 0x40 ==> accepted(fresh_replay().preamble, x).slide is None,
{
    let p = fresh_replay().preamble;
    metadata_line_is_taken_out(line, x);
    assert(p.pending + (line + x) =~= line + x);
    deframing_ignores_chunks(outside(), x, Seq::empty());
    assert(x + Seq::<u8>::empty() =~= x);
    assert(p.pending + x =~= x);
    if x.len() == 0 || x[0] != 0x40 {
        other_streams_have_no_metadata_line(x);
    }
    if accepted(p, x).slide is None {
        plain_stream_is_shown_whole(x);
    }
}

/// A metadata line below the limit is found wherever the stream is cut: what the two
/// chunks show is what the stream behind the line shows.
pub proof fn metadata_line_can_be_cut(line: Seq<u8>, x: Seq<u8>, k: int)
    requires
        is_metadata_line(line),
        line.len() <= MAX_LINE,
        0 <= k <= line.len() + x.len(),
    ensures
        ({
            let a = (line + x).take(k);
            let b = (line + x).skip(k);
            let mid = replay_after(fresh_replay(), a);
            &&& replay_events(fresh_replay(), a) + replay_events(mid, b) == events(outside(), x)
            &&& accepted(fresh_replay().preamble, a).slide == Some(announced(line))
                || accepted(mid.preamble, b).slide == Some(announced(line))
        }),
{
    let p = fresh_replay().preamble;
    let s = line + x;
    let a = s.take(k);
    assert(p.pending + a =~= a);
    short_line_is_not_given_up(line, x, k);
    assert(a + s.skip(k) =~= s);
    replay_ignores_chunks(fresh_replay(), a, s.skip(k));
    accepting_ignores_chunks(p, a, s.skip(k));
    metadata_line_changes_only_the_slide(line, x);
}

/// A stream that ends within a metadata line is not lost: it announces no slide and is
/// shown whole at the end, up to which a line below the limit is held back.
pub proof fn unfinished_metadata_line_is_shown(line: Seq<u8>, k: int)
    requires
        is_metadata_line(line),
        0 <= k < line.len(),
    ensures
        accepted(fresh_replay().preamble, line.take(k)).slide is None,
        shown_whole(line.take(k)) == events(outside(), line.take(k)),
        k < MAX_LINE ==> replay_after(fresh_replay(), line.take(k)).preamble.pending == line.take(
            k,
        ),
{
    unfinished_line_is_held_back(line, k);
    assert(fresh_replay().preamble.pending + line.take(k) =~= line.take(k));
    plain_stream_is_shown_whole(line.take(k));
}

} // verus!
