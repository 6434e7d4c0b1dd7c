//! Output sinks: where rendered text goes, and what it means for a piece of
//! text to have been delivered to one.

use vstd::prelude::*;
use vstd::string::*;

verus! {

/// A sink refused a write, or a formatter failed on an element.
#[derive(Clone, Copy, Debug, PartialEq, Eq, Structural)]
pub struct FormatError;

/// What a piece of rendering amounts to on a sink that refuses nothing: the
/// text it writes, and whether it gets to its end. A rendering that does not
/// is cut short by a formatter that failed; `text` then holds what was
/// written before.
pub struct Outcome {
    /// The text written.
    pub text: Seq<char>,
    /// Whether the rendering got to its end.
    pub complete: bool,
}

impl Outcome {
    /// The outcome of writing `text`.
    pub open spec fn done(text: Seq<char>) -> Outcome {
        Outcome { text, complete: true }
    }

    /// The outcome of failing before anything is written.
    pub open spec fn failed() -> Outcome {
        Outcome { text: Seq::empty(), complete: false }
    }

    /// The outcome of `self` followed by `next`: nothing of `next` happens
    /// once `self` was cut short.
    pub open spec fn followed_by(self, next: Outcome) -> Outcome {
        if self.complete {
            Outcome { text: self.text + next.text, complete: next.complete }
        } else {
            self
        }
    }
}

/// True when a sink that promises `room` takes `n` more characters.
pub open spec fn enough_room(room: Option<nat>, n: nat) -> bool {
    match room {
        None => true,
        Some(k) => n <= k,
    }
}

/// What is left of `room` once `n` characters were taken.
pub open spec fn room_after(room: Option<nat>, n: nat) -> Option<nat> {
    match room {
        None => None,
        Some(k) => Some((k - n) as nat),
    }
}

/// A sink as its users see it.
pub struct SinkState {
    /// The text accepted so far.
    pub text: Seq<char>,
    /// The number of further characters that the sink promises to accept:
    /// `None` where it accepts any number, `Some(0)` where it promises
    /// nothing.
    pub room: Option<nat>,
}

/// Something that accepts text fragments in order and may refuse one. What it
/// accepted stays: there is no undo.
pub trait Sink: View<V = SinkState> + Sized {
    /// Appends `s`. A sink that refuses may have taken a leading part of `s`.
    fn write_str(&mut self, s: &str) -> (r: Result<(), FormatError>)
        ensures
            delivers(old(self)@, final(self)@, r, Outcome::done(s@)),
    ;
}

/// Relates a sink before and after an attempt at `outcome`, and the result of
/// the attempt.
///
/// - Whatever happened, the sink holds what it held, then a leading part of
///   the outcome's text.
/// - On `Ok` the outcome was complete and all its text is there.
/// - Where the sink had promised room for all the text, all the text is
///   there, the result is `Ok` exactly when the outcome is complete, and the
///   promise is reduced by what was taken.
pub open spec fn delivers(
    before: SinkState,
    after: SinkState,
    r: Result<(), FormatError>,
    outcome: Outcome,
) -> bool {
    &&& before.text.is_prefix_of(after.text)
    &&& after.text.is_prefix_of(before.text + outcome.text)
    &&& r is Ok ==> outcome.complete && after.text == before.text + outcome.text
    &&& enough_room(before.room, outcome.text.len()) ==> {
        &&& after.text == before.text + outcome.text
        &&& r is Ok <==> outcome.complete
        &&& after.room == room_after(before.room, outcome.text.len())
    }
}

/// Nothing attempted is nothing delivered.
pub proof fn lemma_delivers_nothing(sink: SinkState)
    ensures
        delivers(sink, sink, Ok(()), Outcome::done(Seq::empty())),
        delivers(sink, sink, Err(FormatError), Outcome::failed()),
{
    assert(sink.text + Seq::<char>::empty() =~= sink.text);
}

/// Two deliveries in a row, the first of them successful, deliver the two
/// outcomes in a row.
pub proof fn lemma_delivers_then(
    before: SinkState,
    between: SinkState,
    after: SinkState,
    r: Result<(), FormatError>,
    first: Outcome,
    second: Outcome,
)
    requires
        delivers(before, between, Ok(()), first),
        delivers(between, after, r, second),
    ensures
        delivers(before, after, r, first.followed_by(second)),
{
    let a = before.text;
    let b = between.text;
    let c = after.text;
    assert(a + (first.text + second.text) =~= (a + first.text) + second.text);
    assert(c =~= (b + second.text).subrange(0, c.len() as int));
    assert(c =~= (a + first.followed_by(second).text).subrange(0, c.len() as int));
    assert(a =~= c.subrange(0, a.len() as int));
}

/// A delivery that failed is also a failed delivery of anything longer.
pub proof fn lemma_delivers_stop(
    before: SinkState,
    after: SinkState,
    first: Outcome,
    second: Outcome,
)
    requires
        delivers(before, after, Err(FormatError), first),
    ensures
        delivers(before, after, Err(FormatError), first.followed_by(second)),
{
    let a = before.text;
    let c = after.text;
    if first.complete {
        assert(c =~= (a + first.text).subrange(0, c.len() as int));
        assert(c =~= (a + (first.text + second.text)).subrange(0, c.len() as int));
    }
}

/// One more step after a successful delivery of `written`: where the step
/// fails, the whole delivery has failed, whatever was to follow; where it
/// succeeds, its text counts among what is written.
pub proof fn lemma_delivers_step(
    start: SinkState,
    before: SinkState,
    after: SinkState,
    r: Result<(), FormatError>,
    written: Seq<char>,
    step: Outcome,
    rest: Outcome,
)
    requires
        delivers(start, before, Ok(()), Outcome::done(written)),
        delivers(before, after, r, step),
    ensures
        r is Err ==> delivers(start, after, r, Outcome::done(written).followed_by(step.followed_by(rest))),
        r is Ok ==> {
            &&& step.complete
            &&& delivers(start, after, Ok(()), Outcome::done(written + step.text))
            &&& Outcome::done(written).followed_by(step.followed_by(rest)) == Outcome::done(
                written + step.text,
            ).followed_by(rest)
        },
{
    if r is Err {
        lemma_delivers_stop(before, after, step, rest);
        lemma_delivers_then(start, before, after, r, Outcome::done(written), step.followed_by(rest));
    } else {
        lemma_delivers_then(start, before, after, r, Outcome::done(written), step);
        assert(written + (step.text + rest.text) =~= (written + step.text) + rest.text);
    }
}

/// A growable in-memory sink that never refuses.
pub struct TextBuffer {
    buf: String,
}

impl TextBuffer {
    /// An empty buffer.
    pub fn new() -> (b: TextBuffer)
        ensures
            b@ == (SinkState { text: Seq::empty(), room: None }),
    {
        TextBuffer { buf: String::new() }
    }

    /// The text accepted so far.
    pub fn as_str(&self) -> (s: &str)
        ensures
            s@ == self@.text,
    {
        self.buf.as_str()
    }
}

impl View for TextBuffer {
    type V = SinkState;

    closed spec fn view(&self) -> SinkState {
        SinkState { text: self.buf@, room: None }
    }
}

impl Sink for TextBuffer {
    fn write_str(&mut self, s: &str) -> (r: Result<(), FormatError>) {
        self.buf.append(s);
        assert(old(self)@.text =~= self@.text.subrange(0, old(self)@.text.len() as int));
        Ok(())
    }
}

/// An in-memory sink that takes a fixed number of characters and refuses what
/// goes beyond, keeping the part that fits.
pub struct BoundedBuffer {
    buf: String,
    room: usize,
}

impl BoundedBuffer {
    /// An empty buffer that takes `capacity` characters.
    pub fn with_capacity(capacity: usize) -> (b: BoundedBuffer)
        ensures
            b@ == (SinkState { text: Seq::empty(), room: Some(capacity as nat) }),
    {
        BoundedBuffer { buf: String::new(), room: capacity }
    }

    /// The text accepted so far.
    pub fn as_str(&self) -> (s: &str)
        ensures
            s@ == self@.text,
    {
        self.buf.as_str()
    }
}

impl View for BoundedBuffer {
    type V = SinkState;

    closed spec fn view(&self) -> SinkState {
        SinkState { text: self.buf@, room: Some(self.room as nat) }
    }
}

impl Sink for BoundedBuffer {
    fn write_str(&mut self, s: &str) -> (r: Result<(), FormatError>)
        ensures
            r is Ok <==> enough_room(old(self)@.room, s@.len()),
            r is Err ==> final(self)@ == (SinkState {
                text: old(self)@.text + s@.take(old(self)@.room->Some_0 as int),
                room: Some(0nat),
            }),
    {
        let n = s.unicode_len();
        if n <= self.room {
            self.buf.append(s);
            self.room = self.room - n;
            assert(old(self)@.text =~= self@.text.subrange(0, old(self)@.text.len() as int));
            Ok(())
        } else {
            let part = s.substring_char(0, self.room);
            self.buf.append(part);
            self.room = 0;
            assert(old(self)@.text =~= self@.text.subrange(0, old(self)@.text.len() as int));
            assert(self@.text =~= (old(self)@.text + s@).subrange(0, self@.text.len() as int));
            Err(FormatError)
        }
    }
}

} // verus!
