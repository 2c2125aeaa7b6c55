//! The metadata line in front of a replayed stream.
//!
//! On macOS, the binary demo writes one `@on9log-image-slide=...` line before its
//! framed stream. Replay consumes this line and applies the slide; it is not
//! printed as device output.

use crate::text::{hex_padded, hex_text_denotes_its_number, parse_hex, parsed_hex};
use vstd::prelude::*;
use vstd::string::*;
use vstd::utf8::{encode_utf8, is_ascii_chars};

verus! {

/// What the line starts with.
pub const IMAGE_SLIDE_PREFIX: &'static str = "@on9log-image-slide=";

/// How long an unfinished line is waited for.
pub const MAX_LINE: usize = 128;

/// What the line starts with, in bytes.
pub open spec fn slide_prefix() -> Seq<u8> {
    encode_utf8(IMAGE_SLIDE_PREFIX@)
}

/// Startup-only parser for the macOS host demo's image-slide metadata line.
/// Non-matching input is passed through unchanged to the normal deframer.
#[derive(Debug, Clone)]
pub struct ReplayPreamble {
    /// Input that is held back.
    pending: Vec<u8>,
    /// True once it is known whether there is such a line.
    decided: bool,
}

/// A parser.
#[verifier::ext_equal]
pub struct PreambleV {
    pub pending: Seq<u8>,
    pub decided: bool,
}

impl PreambleV {
    /// Nothing is held back once it is known what the first input is.
    pub open spec fn wf(self) -> bool {
        self.decided ==> self.pending.len() == 0
    }
}

impl View for ReplayPreamble {
    type V = PreambleV;

    closed spec fn view(&self) -> PreambleV {
        PreambleV { pending: self.pending@, decided: self.decided }
    }
}

/// What the parser makes of its input.
#[derive(Debug, Clone, PartialEq, Eq)]
pub enum ReplayPreambleResult {
    /// More input is needed.
    Pending,
    /// There is no metadata line; the input.
    Data(Vec<u8>),
    /// The slide, and the input behind its line.
    ImageSlide(u32, Vec<u8>),
}

/// What the parser makes of its input.
#[verifier::ext_equal]
pub enum PreambleResultV {
    Pending,
    Data(Seq<u8>),
    ImageSlide(u32, Seq<u8>),
}

impl View for ReplayPreambleResult {
    type V = PreambleResultV;

    open spec fn view(&self) -> PreambleResultV {
        match *self {
            ReplayPreambleResult::Pending => PreambleResultV::Pending,
            ReplayPreambleResult::Data(d) => PreambleResultV::Data(d@),
            ReplayPreambleResult::ImageSlide(s, d) => PreambleResultV::ImageSlide(s, d@),
        }
    }
}

/// Position of the first newline at or after `i`, or the length.
pub open spec fn newline_from(s: Seq<u8>, i: int) -> int
    decreases s.len() - i,
{
    if 0 <= i < s.len() && s[i] != 0x0a {
        newline_from(s, i + 1)
    } else {
        i
    }
}

/// The number that bytes denote in hexadecimal, if they are a 32-bit one.
pub open spec fn slide_value(s: Seq<u8>) -> Option<nat> {
    parsed_hex(Seq::new(s.len(), |i: int| s[i] as char), u32::MAX as nat)
}

/// True if `p` starts with the mark of a metadata line.
pub open spec fn is_marked(p: Seq<u8>) -> bool {
    slide_prefix().len() <= p.len() && p.take(slide_prefix().len() as int) == slide_prefix()
}

/// What the parser makes of `p`, all the input so far: it waits while `p` may still
/// become a metadata line, takes such a line out, and passes anything else on.
pub open spec fn preamble_result(p: Seq<u8>) -> PreambleResultV {
    let mark = slide_prefix();
    let nl = newline_from(p, 0);
    if p.len() <= mark.len() && mark.take(p.len() as int) == p {
        PreambleResultV::Pending
    } else if is_marked(p) && nl < p.len() {
        match slide_value(p.subrange(mark.len() as int, nl)) {
            Some(v) => PreambleResultV::ImageSlide(v as u32, p.skip(nl + 1)),
            None => PreambleResultV::Data(p),
        }
    } else if is_marked(p) && p.len() < MAX_LINE {
        PreambleResultV::Pending
    } else {
        PreambleResultV::Data(p)
    }
}

proof fn lemma_newline_from(s: Seq<u8>, i: int)
    requires
        0 <= i <= s.len(),
    ensures
        i <= newline_from(s, i) <= s.len(),
        forall|k: int| i <= k < newline_from(s, i) ==> #[trigger] s[k] != 0x0a,
        newline_from(s, i) < s.len() ==> s[newline_from(s, i)] == 0x0a,
    decreases s.len() - i,
{
    if i < s.len() && s[i] != 0x0a {
        lemma_newline_from(s, i + 1);
    }
}

fn newline_stop(s: &[u8]) -> (r: usize)
    ensures
        r == newline_from(s@, 0),
        r <= s.len(),
{
    let mut j: usize = 0;
    while j < s.len() && s[j] != 0x0a
        invariant
            j <= s.len(),
            newline_from(s@, j as int) == newline_from(s@, 0),
        decreases s.len() - j,
    {
        j += 1;
    }
    j
}

/// True if `p` and `q` agree on their first `n` bytes.
fn agree(p: &[u8], q: &[u8], n: usize) -> (r: bool)
    requires
        n <= p.len(),
        n <= q.len(),
    ensures
        r == (p@.take(n as int) == q@.take(n as int)),
{
    let mut i: usize = 0;
    while i < n
        invariant
            i <= n <= p.len(),
            n <= q.len(),
            p@.take(i as int) == q@.take(i as int),
        decreases n - i,
    {
        if p[i] != q[i] {
            assert(p@.take(n as int)[i as int] != q@.take(n as int)[i as int]);
            return false;
        }
        assert(p@.take(i + 1) =~= p@.take(i as int).push(p[i as int]));
        assert(q@.take(i + 1) =~= q@.take(i as int).push(q[i as int]));
        i += 1;
    }
    true
}

fn parse_slide(s: &[u8]) -> (r: Option<u32>)
    ensures
        r matches Some(v) ==> slide_value(s@) == Some(v as nat),
        r is None ==> slide_value(s@) is None,
{
    let mut chars: Vec<char> = Vec::new();
    let mut i: usize = 0;
    while i < s.len()
        invariant
            i <= s.len(),
            chars@ == Seq::new(i as nat, |k: int| s[k] as char),
        decreases s.len() - i,
    {
        chars.push(s[i] as char);
        i += 1;
        assert(chars@ =~= Seq::new(i as nat, |k: int| s[k] as char));
    }
    assert(chars@ =~= Seq::new(s@.len(), |k: int| s@[k] as char));
    match parse_hex(chars.as_slice(), u32::MAX as u64) {
        Some(v) => Some(v as u32),
        None => None,
    }
}

fn copy_from(bytes: &[u8], from: usize) -> (r: Vec<u8>)
    requires
        from <= bytes.len(),
    ensures
        r@ == bytes@.skip(from as int),
{
    let mut v: Vec<u8> = Vec::new();
    v.extend_from_slice(vstd::slice::slice_subrange(bytes, from, bytes.len()));
    assert(v@ =~= bytes@.skip(from as int));
    v
}

/// What one chunk of input gives.
#[derive(Debug, Clone, PartialEq, Eq)]
pub struct Accepted {
    /// The slide that the chunk announced.
    pub slide: Option<u32>,
    /// Input for the deframer.
    pub data: Vec<u8>,
}

/// What one chunk of input gives.
#[verifier::ext_equal]
pub struct AcceptedV {
    pub slide: Option<u32>,
    pub data: Seq<u8>,
}

impl View for Accepted {
    type V = AcceptedV;

    open spec fn view(&self) -> AcceptedV {
        AcceptedV { slide: self.slide, data: self.data@ }
    }
}

/// What a chunk gives: all of it, once it is known what the first input is; else what
/// the parser makes of it and of what was held back.
pub open spec fn accepted(p: PreambleV, chunk: Seq<u8>) -> AcceptedV {
    if p.decided {
        AcceptedV { slide: None, data: chunk }
    } else {
        match preamble_result(p.pending + chunk) {
            PreambleResultV::Pending => AcceptedV { slide: None, data: Seq::empty() },
            PreambleResultV::Data(d) => AcceptedV { slide: None, data: d },
            PreambleResultV::ImageSlide(s, d) => AcceptedV { slide: Some(s), data: d },
        }
    }
}

/// The parser behind a chunk.
pub open spec fn preamble_after(p: PreambleV, chunk: Seq<u8>) -> PreambleV {
    if p.decided {
        p
    } else if preamble_result(p.pending + chunk) is Pending {
        PreambleV { pending: p.pending + chunk, decided: false }
    } else {
        PreambleV { pending: Seq::empty(), decided: true }
    }
}

impl ReplayPreamble {
    /// A parser that has seen no input.
    pub fn new() -> (r: Self)
        ensures
            r@ == (PreambleV { pending: Seq::empty(), decided: false }),
    {
        let r = ReplayPreamble { pending: Vec::new(), decided: false };
        assert(r@.pending =~= Seq::empty());
        r
    }

    /// True once it is known whether there is a metadata line.
    pub fn is_decided(&self) -> (r: bool)
        ensures
            r == self@.decided,
    {
        self.decided
    }

    /// Feeds input. What was held back and the new input are looked at together.
    pub fn feed(&mut self, bytes: &[u8]) -> (r: ReplayPreambleResult)
        ensures
            r@ == preamble_result(old(self)@.pending + bytes@),
            final(self)@ == (if r is Pending {
                PreambleV {
                    pending: old(self)@.pending + bytes@,
                    decided: old(self)@.decided,
                }
            } else {
                PreambleV { pending: Seq::empty(), decided: true }
            }),
    {
        let ghost p = self@.pending + bytes@;
        self.pending.extend_from_slice(bytes);
        assert(self.pending@ =~= p);
        let input = self.pending.as_slice();
        let mark = IMAGE_SLIDE_PREFIX.as_bytes();
        assert(mark@ == slide_prefix());
        if input.len() <= mark.len() && agree(mark, input, input.len()) {
            assert(input@.take(input@.len() as int) =~= input@);
            return ReplayPreambleResult::Pending;
        }
        proof {
            assert(input@.take(input@.len() as int) =~= input@);
            assert(mark@.take(mark@.len() as int) =~= mark@);
        }
        let marked = mark.len() <= input.len() && agree(input, mark, mark.len());
        assert(marked == is_marked(p));
        if marked {
            let nl = newline_stop(input);
            proof {
                lemma_mark_has_no_newline();
                lemma_newline_from(p, 0);
                if nl < mark@.len() {
                    assert(p.take(mark@.len() as int)[nl as int] == slide_prefix()[nl as int]);
                }
            }
            if nl < input.len() {
                let value = vstd::slice::slice_subrange(input, mark.len(), nl);
                if let Some(slide) = parse_slide(value) {
                    let rest = copy_from(input, nl + 1);
                    self.pending = Vec::new();
                    self.decided = true;
                    assert(self@.pending =~= Seq::empty());
                    return ReplayPreambleResult::ImageSlide(slide, rest);
                }
            } else if input.len() < MAX_LINE {
                return ReplayPreambleResult::Pending;
            }
        }
        let data = copy_from(input, 0);
        assert(data@ =~= p);
        self.pending = Vec::new();
        self.decided = true;
        assert(self@.pending =~= Seq::empty());
        ReplayPreambleResult::Data(data)
    }

    /// Gives what is still held back at the end of the input.
    pub fn finish(&mut self) -> (r: Option<Vec<u8>>)
        ensures
            r is Some <==> old(self)@.pending.len() > 0,
            r matches Some(d) ==> d@ == old(self)@.pending && final(self)@ == (PreambleV {
                pending: Seq::empty(),
                decided: true,
            }),
            r is None ==> *final(self) == *old(self),
    {
        if self.pending.len() == 0 {
            return None;
        }
        let data = copy_from(self.pending.as_slice(), 0);
        assert(data@ =~= self@.pending);
        self.pending = Vec::new();
        self.decided = true;
        assert(self@.pending =~= Seq::empty());
        Some(data)
    }

    /// Takes one chunk of the stream: gives the slide that it announced, if any, and
    /// the input that the deframer gets. Nothing is lost: what was held back and the
    /// chunk are the metadata line, the input given on, and what is held back now.
    pub fn accept(&mut self, chunk: &[u8]) -> (r: Accepted)
        requires
            old(self)@.wf(),
        ensures
            final(self)@.wf(),
            r@ == accepted(old(self)@, chunk@),
            final(self)@ == preamble_after(old(self)@, chunk@),
            r.slide is None ==> old(self)@.pending + chunk@ == r.data@ + final(self)@.pending,
            r.slide is Some ==> exists|line: Seq<u8>|
                old(self)@.pending + chunk@ == #[trigger] (line + r.data@) && is_marked(line)
                    && line.last() == 0x0a,
    {
        if self.decided {
            let data = copy_from(chunk, 0);
            assert(data@ =~= chunk@);
            assert(self@.pending + chunk@ =~= data@ + self@.pending);
            return Accepted { slide: None, data };
        }
        let ghost p = self@.pending + chunk@;
        match self.feed(chunk) {
            ReplayPreambleResult::Pending => {
                let data: Vec<u8> = Vec::new();
                assert(p =~= data@ + self@.pending);
                Accepted { slide: None, data }
            },
            ReplayPreambleResult::Data(data) => {
                assert(p =~= data@ + self@.pending);
                Accepted { slide: None, data }
            },
            ReplayPreambleResult::ImageSlide(slide, data) => {
                proof {
                    lemma_newline_from(p, 0);
                    lemma_mark_has_no_newline();
                    let nl = newline_from(p, 0);
                    let n = slide_prefix().len() as int;
                    let line = p.take(nl + 1);
                    if nl < n {
                        assert(p.take(n)[nl] == slide_prefix()[nl]);
                    }
                    assert(line.take(n) =~= p.take(n));
                    assert(p =~= line + data@);
                    assert(line.last() == 0x0a);
                }
                Accepted { slide: Some(slide), data }
            },
        }
    }
}

proof fn lemma_mark_has_no_newline()
    ensures
        forall|k: int| 0 <= k < slide_prefix().len() ==> #[trigger] slide_prefix()[k] != 0x0a,
{
    reveal_strlit("@on9log-image-slide=");
    let s = IMAGE_SLIDE_PREFIX@;
    assert(is_ascii_chars(s));
    vstd::utf8::is_ascii_chars_encode_utf8(s);
    assert forall|k: int| 0 <= k < slide_prefix().len() implies #[trigger] slide_prefix()[k]
        != 0x0a by {
        assert(slide_prefix()[k] == s[k] as u8);
    }
}

// ---- Laws ----

/// `r` with more input behind it.
pub open spec fn with_more(r: PreambleResultV, more: Seq<u8>) -> PreambleResultV {
    match r {
        PreambleResultV::Pending => PreambleResultV::Pending,
        PreambleResultV::Data(d) => PreambleResultV::Data(d + more),
        PreambleResultV::ImageSlide(s, d) => PreambleResultV::ImageSlide(s, d + more),
    }
}

/// Once it is known what the first input is, more input changes nothing of it, but for
/// a marked line that was given up because it was too long.
pub proof fn decision_ignores_later_input(a: Seq<u8>, b: Seq<u8>)
    requires
        !(preamble_result(a) is Pending),
        !(is_marked(a) && newline_from(a, 0) == a.len()),
    ensures
        preamble_result(a + b) == with_more(preamble_result(a), b),
{
    let p = a + b;
    let mark = slide_prefix();
    let n = mark.len() as int;
    lemma_newline_from(a, 0);
    lemma_mark_has_no_newline();
    if is_marked(a) {
        let nl = newline_from(a, 0);
        lemma_newline_of_longer(a, b, 0);
        if nl < n {
            assert(a.take(n)[nl] == mark[nl]);
        }
        assert(p.take(n) =~= a.take(n));
        assert(p.subrange(n, nl) =~= a.subrange(n, nl));
        assert(p.skip(nl + 1) =~= a.skip(nl + 1) + b);
        assert(p.len() > n);
    } else if a.len() < n {
        if p.len() <= n && mark.take(p.len() as int) == p {
            assert(mark.take(a.len() as int) =~= mark.take(p.len() as int).take(a.len() as int));
            assert(p.take(a.len() as int) =~= a);
        }
        if is_marked(p) {
            assert(mark.take(a.len() as int) =~= p.take(n).take(a.len() as int));
            assert(p.take(n).take(a.len() as int) =~= a);
        }
    } else {
        assert(p.take(n) =~= a.take(n));
        if p.len() == n {
            assert(b =~= Seq::empty());
            assert(p =~= a);
        }
    }
}

proof fn lemma_newline_of_longer(a: Seq<u8>, b: Seq<u8>, i: int)
    requires
        0 <= i <= a.len(),
        newline_from(a, i) < a.len(),
    ensures
        newline_from(a + b, i) == newline_from(a, i),
    decreases a.len() - i,
{
    if i < a.len() && a[i] != 0x0a {
        lemma_newline_of_longer(a, b, i + 1);
    }
}

/// True if `line` is one metadata line: the mark, a 32-bit number in hexadecimal, and
/// a newline at the end.
pub open spec fn is_metadata_line(line: Seq<u8>) -> bool {
    &&& is_marked(line)
    &&& line.len() > slide_prefix().len()
    &&& newline_from(line, 0) == line.len() - 1
    &&& slide_value(line.subrange(slide_prefix().len() as int, line.len() - 1)) is Some
}

/// The slide that a metadata line announces.
pub open spec fn announced(line: Seq<u8>) -> u32 {
    slide_value(line.subrange(slide_prefix().len() as int, line.len() - 1))->0 as u32
}

/// The metadata line for `slide`: the mark, at least eight hexadecimal digits, and a
/// newline.
pub open spec fn line_for(slide: u32) -> Seq<u8> {
    let text = hex_padded(slide as nat, 8);
    slide_prefix() + Seq::new(text.len(), |i: int| text[i] as u8) + seq![0x0au8]
}

/// Every slide has its metadata line.
pub proof fn every_slide_can_be_announced(slide: u32)
    ensures
        is_metadata_line(line_for(slide)),
        announced(line_for(slide)) == slide,
{
    let line = line_for(slide);
    let mark = slide_prefix();
    let n = mark.len() as int;
    let text = hex_padded(slide as nat, 8);
    let value = line.subrange(n, line.len() - 1);
    hex_text_denotes_its_number(slide as nat, 8, u32::MAX as nat);
    assert(forall|k: int| 0 <= k < text.len() ==> '0' <= #[trigger] text[k] <= 'f');
    assert(Seq::new(value.len(), |i: int| value[i] as char) =~= text);
    assert(line.take(n) =~= mark);
    lemma_mark_has_no_newline();
    lemma_newline_from(line, 0);
    let nl = newline_from(line, 0);
    assert(line[line.len() - 1] == 0x0a);
    if nl < line.len() - 1 {
        if nl < n {
            assert(line[nl] == mark[nl]);
        } else {
            assert(line[nl] == text[nl - n] as u8);
        }
    }
}

/// A metadata line in front of a stream is taken out of it, whatever follows.
pub proof fn metadata_line_is_taken_out(line: Seq<u8>, x: Seq<u8>)
    requires
        is_metadata_line(line),
    ensures
        preamble_result(line + x) == PreambleResultV::ImageSlide(announced(line), x),
{
    assert(line.skip(line.len() as int) =~= Seq::empty());
    decision_ignores_later_input(line, x);
    assert(Seq::<u8>::empty() + x =~= x);
}

/// What starts as a metadata line and has no newline yet is held back, up to the limit.
pub proof fn unfinished_line_is_held_back(line: Seq<u8>, k: int)
    requires
        is_metadata_line(line),
        0 <= k < line.len(),
    ensures
        k < MAX_LINE ==> preamble_result(line.take(k)) is Pending,
        k >= MAX_LINE ==> preamble_result(line.take(k)) is Pending || preamble_result(line.take(k))
            == PreambleResultV::Data(line.take(k)),
{
    let s = line.take(k);
    let mark = slide_prefix();
    let n = mark.len() as int;
    lemma_newline_from(line, 0);
    lemma_newline_from(s, 0);
    if newline_from(s, 0) < s.len() {
        assert(s[newline_from(s, 0)] == line[newline_from(s, 0)]);
    }
    if k <= n {
        assert(mark.take(k) =~= line.take(n).take(k));
        assert(line.take(n).take(k) =~= s);
    } else {
        assert(s.take(n) =~= line.take(n));
    }
}

/// A stream that does not start with `@` has no metadata line.
pub proof fn other_streams_have_no_metadata_line(x: Seq<u8>)
    requires
        x.len() == 0 || x[0] != 0x40,
    ensures
        preamble_result(x) == (if x.len() == 0 {
            PreambleResultV::Pending
        } else {
            PreambleResultV::Data(x)
        }),
{
    reveal_strlit("@on9log-image-slide=");
    let s = IMAGE_SLIDE_PREFIX@;
    assert(is_ascii_chars(s));
    vstd::utf8::is_ascii_chars_encode_utf8(s);
    let mark = slide_prefix();
    assert(mark[0] == s[0] as u8);
    if x.len() == 0 {
        assert(mark.take(0) =~= x);
    } else {
        if x.len() <= mark.len() && mark.take(x.len() as int) == x {
            assert(mark.take(x.len() as int)[0] == x[0]);
        }
        if is_marked(x) {
            assert(x.take(mark.len() as int)[0] == x[0]);
        }
    }
}

/// True if the chunk is where a marked line is given up because it is too long.
pub open spec fn gives_up(p: PreambleV, chunk: Seq<u8>) -> bool {
    let q = p.pending + chunk;
    !p.decided && is_marked(q) && newline_from(q, 0) == q.len() && q.len() >= MAX_LINE
}

/// A metadata line below the limit is not given up, wherever the stream is cut.
pub proof fn short_line_is_not_given_up(line: Seq<u8>, x: Seq<u8>, k: int)
    requires
        is_metadata_line(line),
        line.len() <= MAX_LINE,
        0 <= k <= line.len() + x.len(),
    ensures
        !gives_up(PreambleV { pending: Seq::empty(), decided: false }, (line + x).take(k)),
{
    let a = (line + x).take(k);
    assert(Seq::<u8>::empty() + a =~= a);
    if k >= line.len() {
        assert(a =~= line + x.take(k - line.len()));
        lemma_newline_of_longer(line, x.take(k - line.len()), 0);
    }
}

/// Taking a stream chunk by chunk is taking it at once, but for a marked line that is
/// given up between the chunks.
pub proof fn accepting_ignores_chunks(p: PreambleV, a: Seq<u8>, b: Seq<u8>)
    requires
        p.wf(),
        !gives_up(p, a),
    ensures
        ({
            let first = accepted(p, a);
            let mid = preamble_after(p, a);
            let second = accepted(mid, b);
            &&& accepted(p, a + b).data == first.data + second.data
            &&& accepted(p, a + b).slide == (if first.slide is Some {
                first.slide
            } else {
                second.slide
            })
            &&& preamble_after(p, a + b) == preamble_after(mid, b)
        }),
{
    let first = accepted(p, a);
    let mid = preamble_after(p, a);
    let q = p.pending + a;
    assert(p.pending + (a + b) =~= q + b);
    if !p.decided {
        if preamble_result(q) is Pending {
            assert(first.data + accepted(mid, b).data =~= accepted(mid, b).data);
        } else {
            lemma_newline_from(q, 0);
            decision_ignores_later_input(q, b);
        }
    }
}

/// The mark of a metadata line is the ASCII text `@on9log-image-slide=`.
pub proof fn mark_of_the_metadata_line()
    ensures
        slide_prefix() == seq![
            0x40u8, 0x6f, 0x6e, 0x39, 0x6c, 0x6f, 0x67, 0x2d, 0x69, 0x6d, 0x61, 0x67, 0x65, 0x2d,
            0x73, 0x6c, 0x69, 0x64, 0x65, 0x3d,
        ],
{
    reveal_strlit("@on9log-image-slide=");
    let s = IMAGE_SLIDE_PREFIX@;
    assert(is_ascii_chars(s));
    vstd::utf8::is_ascii_chars_encode_utf8(s);
    assert(slide_prefix() =~= seq![
        0x40u8, 0x6f, 0x6e, 0x39, 0x6c, 0x6f, 0x67, 0x2d, 0x69, 0x6d, 0x61, 0x67, 0x65, 0x2d, 0x73,
        0x6c, 0x69, 0x64, 0x65, 0x3d,
    ]);
}

proof fn lemma_first_newline(p: Seq<u8>, i: int, nl: int)
    requires
        0 <= i <= nl <= p.len(),
        nl < p.len() ==> p[nl] == 0x0a,
        forall|k: int| i <= k < nl ==> #[trigger] p[k] != 0x0a,
    ensures
        newline_from(p, i) == nl,
    decreases nl - i,
{
    if i < nl {
        assert(p[i] != 0x0a);
        lemma_first_newline(p, i + 1, nl);
    }
}

/// Between the mark and the newline stands the slide. If that is a hexadecimal number of
/// 32 bits, the line is taken out and announces it; if it is anything else, the line is
/// passed on like any other input.
pub proof fn slide_stands_behind_the_mark(value: Seq<u8>, x: Seq<u8>)
    requires
        forall|k: int| 0 <= k < value.len() ==> #[trigger] value[k] != 0x0a,
    ensures
        ({
            let text = Seq::new(value.len(), |k: int| value[k] as char);
            let input = slide_prefix() + value + seq![0x0au8] + x;
            preamble_result(input) == (match parsed_hex(text, 0xffff_ffff) {
                Some(slide) => PreambleResultV::ImageSlide(slide as u32, x),
                None => PreambleResultV::Data(input),
            })
        }),
{
    let mark = slide_prefix();
    let n = mark.len() as int;
    let p = mark + value + seq![0x0au8] + x;
    let nl = n + value.len();
    lemma_mark_has_no_newline();
    assert forall|k: int| 0 <= k < nl implies #[trigger] p[k] != 0x0a by {
        if k < n {
            assert(p[k] == mark[k]);
        } else {
            assert(p[k] == value[k - n]);
        }
    }
    assert(p[nl] == 0x0a);
    lemma_first_newline(p, 0, nl);
    assert(p.take(n) =~= mark);
    assert(p.subrange(n, nl) =~= value);
    assert(p.skip(nl + 1) =~= x);
    assert(Seq::new(value.len(), |k: int| value[k] as char) =~= Seq::new(
        p.subrange(n, nl).len(),
        |k: int| p.subrange(n, nl)[k] as char,
    ));
}

/// A marked line without a newline is waited for until it is 128 bytes long.
pub proof fn overlong_lines_are_given_up(p: Seq<u8>)
    requires
        is_marked(p),
        forall|k: int| 0 <= k < p.len() ==> #[trigger] p[k] != 0x0a,
    ensures
        preamble_result(p) == (if p.len() < 128 {
            PreambleResultV::Pending
        } else {
            PreambleResultV::Data(p)
        }),
{
    lemma_first_newline(p, 0, p.len() as int);
    mark_of_the_metadata_line();
}

} // verus!
