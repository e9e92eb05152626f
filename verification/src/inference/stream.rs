//! The events that a generation sends: text as it comes, and one end.
use crate::inference::engine::{
    corrupt_text, decode_failed, decode_failed_text, Draw, Generation, Step,
};
use crate::inference::output;
use crate::inference::scheduler::{ActiveSequence, Verdict};
use crate::inference::{StopReason, StreamEvent};
use crate::text;
use vstd::prelude::*;

verus! {

/// The event ends a stream.
pub open spec fn is_end(e: StreamEvent) -> bool {
    !(e is Token)
}

/// The events of a stream that goes on: text, and none of it empty.
pub open spec fn underway(events: Seq<StreamEvent>) -> bool {
    forall|i: int|
        0 <= i < events.len() ==> (#[trigger] events[i] matches StreamEvent::Token(t) && t@.len()
            > 0)
}

/// The events of a stream that is over: text, and an end behind it.
pub open spec fn over(events: Seq<StreamEvent>) -> bool {
    events.len() > 0 && underway(events.drop_last()) && is_end(events.last())
}

/// The text that the events carry.
pub open spec fn spoken(events: Seq<StreamEvent>) -> Seq<char>
    decreases events.len(),
{
    if events.len() == 0 {
        Seq::empty()
    } else {
        spoken(events.drop_last()) + match events.last() {
            StreamEvent::Token(t) => t@,
            _ => Seq::empty(),
        }
    }
}

/// The events carry a text in one piece, and none where it is empty.
pub open spec fn tells(events: Seq<StreamEvent>, said: Seq<char>) -> bool {
    if said.len() == 0 {
        events.len() == 0
    } else {
        events.len() == 1 && (events[0] matches StreamEvent::Token(t) && t@ == said)
    }
}

/// The events carry a text, and report the end behind it.
pub open spec fn completes(
    events: Seq<StreamEvent>,
    said: Seq<char>,
    tokens_generated: u32,
    tokens_prompt: u32,
    duration_ms: u64,
    stop_reason: StopReason,
) -> bool {
    &&& events.len() > 0
    &&& tells(events.drop_last(), said)
    &&& events.last() == (StreamEvent::Done {
        tokens_generated,
        tokens_prompt,
        duration_ms,
        stop_reason,
    })
}

/// The events are an error and nothing else.
pub open spec fn fails(events: Seq<StreamEvent>, message: Seq<char>) -> bool {
    events.len() == 1 && (events[0] matches StreamEvent::Error(m) && m@ == message)
}

/// Text in one piece leaves a stream under way, and is all that it carries.
proof fn lemma_tells(events: Seq<StreamEvent>, said: Seq<char>)
    requires
        tells(events, said),
    ensures
        underway(events),
        spoken(events) == said,
{
    reveal_with_fuel(spoken, 2);
    if said.len() > 0 {
        assert(events.drop_last() =~= Seq::empty());
        assert(Seq::<char>::empty() + said =~= said);
    } else {
        assert(said =~= Seq::empty());
    }
}

proof fn lemma_completes(
    events: Seq<StreamEvent>,
    said: Seq<char>,
    tokens_generated: u32,
    tokens_prompt: u32,
    duration_ms: u64,
    stop_reason: StopReason,
)
    requires
        completes(events, said, tokens_generated, tokens_prompt, duration_ms, stop_reason),
    ensures
        over(events),
        spoken(events) == said,
{
    lemma_tells(events.drop_last(), said);
    assert(said + Seq::<char>::empty() =~= said);
}

/// The events of a text.
pub fn text_events(said: String) -> (r: Vec<StreamEvent>)
    ensures
        tells(r@, said@),
        underway(r@),
        spoken(r@) == said@,
{
    let mut r: Vec<StreamEvent> = Vec::new();
    let c: Vec<char> = text::to_chars(said.as_str());
    if c.len() > 0 {
        r.push(StreamEvent::Token(said));
    }
    proof {
        lemma_tells(r@, said@);
    }
    r
}

/// The events of a last text and the end behind it.
pub fn end_events(
    said: String,
    tokens_generated: u32,
    tokens_prompt: u32,
    duration_ms: u64,
    stop_reason: StopReason,
) -> (r: Vec<StreamEvent>)
    ensures
        completes(r@, said@, tokens_generated, tokens_prompt, duration_ms, stop_reason),
        over(r@),
        spoken(r@) == said@,
{
    let mut r: Vec<StreamEvent> = text_events(said);
    let ghost before = r@;
    r.push(StreamEvent::Done { tokens_generated, tokens_prompt, duration_ms, stop_reason });
    proof {
        assert(r@.drop_last() =~= before);
        lemma_completes(r@, said@, tokens_generated, tokens_prompt, duration_ms, stop_reason);
    }
    r
}

/// The events of a generation that failed, or was refused before it began.
pub fn error_events(message: String) -> (r: Vec<StreamEvent>)
    ensures
        fails(r@, message@),
        over(r@),
        spoken(r@).len() == 0,
{
    let mut r: Vec<StreamEvent> = Vec::new();
    r.push(StreamEvent::Error(message));
    proof {
        reveal_with_fuel(spoken, 2);
        assert(r@.drop_last() =~= Seq::empty());
    }
    r
}

/// How decoding a token went. A stream does not name the cause of a failure.
#[derive(Debug)]
pub enum Decoded {
    Fine,
    Failed { cause: Option<String> },
}

/// What a sequential generation needs next.
#[derive(Debug, Clone, Copy, PartialEq, Eq, Structural)]
pub enum Next {
    /// Sample a token.
    Sample,
    /// Decode the token that was sampled.
    Decode,
    /// Nothing: the stream is over.
    Stop,
}

/// The stream of a sequential generation. Each step gives the events to send,
/// in order, and what is needed next.
#[derive(Debug)]
pub struct Streaming {
    pub generation: Generation,
    pub next: Next,
}

impl Streaming {
    /// The generation is where the next step can be taken.
    pub open spec fn wf(self) -> bool {
        &&& self.generation.wf()
        &&& !(self.next is Stop) ==> self.generation.goes_on()
    }

    /// The events that a step sent leave the stream as it says: ended exactly
    /// where nothing more is needed.
    pub open spec fn after(self, events: Seq<StreamEvent>) -> bool {
        if self.next is Stop {
            over(events)
        } else {
            underway(events)
        }
    }

    /// What is needed of a generation between two tokens.
    pub open spec fn due(g: Generation) -> Next {
        if g.goes_on() {
            Next::Sample
        } else {
            Next::Stop
        }
    }

    /// The events of a generation that has ended: what it still owes, and the
    /// end.
    pub open spec fn closes(g: Generation, events: Seq<StreamEvent>, duration_ms: u64) -> bool {
        completes(
            events,
            if g.reason() == StopReason::Length {
                g.pending@
            } else {
                Seq::empty()
            },
            g.tokens_generated,
            g.tokens_prompt,
            duration_ms,
            g.reason(),
        )
    }

    fn close(generation: &mut Generation, duration_ms: u64) -> (r: Vec<StreamEvent>)
        ensures
            Self::closes(*old(generation), r@, duration_ms),
            over(r@),
            final(generation).same_place(*old(generation)),
    {
        let (tail, reason): (String, StopReason) = generation.finish();
        end_events(
            tail,
            generation.tokens_generated,
            generation.tokens_prompt,
            duration_ms,
            reason,
        )
    }

    /// Begins a generation whose prompt has been decoded. One without room for
    /// output is over at once.
    pub fn begin(generation: Generation, duration_ms: u64) -> (r: (Streaming, Vec<StreamEvent>))
        requires
            generation.wf(),
        ensures
            r.0.wf(),
            r.0.after(r.1@),
            r.0.next == Self::due(generation),
            r.0.generation.same_place(generation),
            if generation.goes_on() {
                r.0.generation == generation && r.1@.len() == 0
            } else {
                Self::closes(generation, r.1@, duration_ms)
            },
    {
        let mut g: Generation = generation;
        if g.wants_token() {
            (Streaming { generation: g, next: Next::Sample }, Vec::new())
        } else {
            let events: Vec<StreamEvent> = Self::close(&mut g, duration_ms);
            (Streaming { generation: g, next: Next::Stop }, events)
        }
    }

    /// Takes a sampled token. Text goes out before the token is decoded; a
    /// token that ends the generation ends the stream.
    pub fn sampled(&mut self, draw: &Draw, duration_ms: u64) -> (r: Vec<StreamEvent>)
        requires
            old(self).wf(),
            old(self).next is Sample,
        ensures
            final(self).wf(),
            final(self).after(r@),
            final(self).generation.same_place(old(self).generation),
            ({
                let g = old(self).generation;
                let ends = |said: Seq<char>, reason: StopReason|
                    final(self).next is Stop && completes(
                        r@,
                        said,
                        g.tokens_generated,
                        g.tokens_prompt,
                        duration_ms,
                        reason,
                    );
                match draw {
                    Draw::Corrupt => final(self).next is Stop && fails(r@, corrupt_text()),
                    Draw::Eog => ends(Seq::empty(), StopReason::Stop),
                    Draw::Untranslatable => ends(g.pending@, StopReason::Length),
                    Draw::Piece(p) => match g.piece_fed(p@) {
                        output::Fed::Stop { out } => ends(out, StopReason::Stop),
                        output::Fed::Emit { out, held } => {
                            &&& final(self).next is Decode
                            &&& final(self).generation.pending@ == held
                            &&& tells(r@, out)
                        },
                    },
                }
            }),
    {
        match self.generation.take(draw) {
            Step::Fail(m) => {
                self.next = Next::Stop;
                error_events(m)
            },
            Step::Decode { text } => {
                self.next = Next::Decode;
                text_events(text)
            },
            Step::End { text } => {
                self.next = Next::Stop;
                let (tail, reason): (String, StopReason) = self.generation.finish();
                let mut all: String = text;
                let ghost said = all@;
                all.append(tail.as_str());
                proof {
                    assert(said + Seq::<char>::empty() =~= said);
                    assert(Seq::<char>::empty() + tail@ =~= tail@);
                    assert(said.len() == 0 ==> said =~= Seq::empty());
                }
                end_events(
                    all,
                    self.generation.tokens_generated,
                    self.generation.tokens_prompt,
                    duration_ms,
                    reason,
                )
            },
        }
    }

    /// Takes word of how the token was decoded. A budget that is used up ends
    /// the stream, with the text that was held back.
    pub fn decoded(&mut self, how: Decoded, duration_ms: u64) -> (r: Vec<StreamEvent>)
        requires
            old(self).wf(),
            old(self).next is Decode,
        ensures
            final(self).wf(),
            final(self).after(r@),
            ({
                let g = old(self).generation;
                match how {
                    Decoded::Failed { cause } => {
                        &&& final(self).next is Stop
                        &&& final(self).generation == g
                        &&& fails(
                            r@,
                            decode_failed_text(
                                g.tokens_generated,
                                match cause {
                                    Some(c) => Some(c@),
                                    None => None,
                                },
                            ),
                        )
                    },
                    Decoded::Fine => {
                        let on = Generation {
                            n_cur: (g.n_cur + 1) as i64,
                            tokens_generated: (g.tokens_generated + 1) as u32,
                            ..g
                        };
                        &&& final(self).next == Self::due(on)
                        &&& final(self).generation.same_place(on)
                        &&& if on.goes_on() {
                            final(self).generation == on && r@.len() == 0
                        } else {
                            Self::closes(on, r@, duration_ms)
                        }
                    },
                }
            }),
    {
        match how {
            Decoded::Failed { cause } => {
                self.next = Next::Stop;
                let named: Option<&str> = match &cause {
                    Some(c) => Some(c.as_str()),
                    None => None,
                };
                error_events(decode_failed(self.generation.tokens_generated, named))
            },
            Decoded::Fine => {
                self.generation.note_decoded();
                if self.generation.wants_token() {
                    self.next = Next::Sample;
                    Vec::new()
                } else {
                    self.next = Next::Stop;
                    Self::close(&mut self.generation, duration_ms)
                }
            },
        }
    }
}

/// The events that a verdict on a batched sequence sends: its text, and the end
/// where it is one. A client that has gone is sent nothing.
pub fn verdict_events(verdict: &Verdict, seq: &ActiveSequence, duration_ms: u64) -> (r: Vec<
    StreamEvent,
>)
    ensures
        match verdict {
            Verdict::Finish { text, reason } => over(r@) && completes(
                r@,
                text@,
                seq.tokens_generated,
                seq.tokens_prompt,
                duration_ms,
                *reason,
            ),
            Verdict::Abandon => over(r@) && completes(
                r@,
                Seq::empty(),
                seq.tokens_generated,
                seq.tokens_prompt,
                duration_ms,
                StopReason::Length,
            ),
            Verdict::Deliver { text } => underway(r@) && tells(r@, text@),
            Verdict::Disconnected | Verdict::Continue => r@.len() == 0,
        },
{
    match verdict {
        Verdict::Finish { text, reason } => end_events(
            text::copy_text(text.as_str()),
            seq.tokens_generated,
            seq.tokens_prompt,
            duration_ms,
            *reason,
        ),
        Verdict::Abandon => {
            let none: String = String::new();
            assert(none@ =~= Seq::empty());
            end_events(
                none,
                seq.tokens_generated,
                seq.tokens_prompt,
                duration_ms,
                StopReason::Length,
            )
        },
        Verdict::Deliver { text } => text_events(text::copy_text(text.as_str())),
        Verdict::Disconnected | Verdict::Continue => Vec::new(),
    }
}

/// The events of all steps, one after the other.
pub open spec fn all_events(steps: Seq<Seq<StreamEvent>>) -> Seq<StreamEvent>
    decreases steps.len(),
{
    if steps.len() == 0 {
        Seq::empty()
    } else {
        all_events(steps.drop_last()) + steps.last()
    }
}

proof fn lemma_underway(steps: Seq<Seq<StreamEvent>>)
    requires
        forall|i: int| 0 <= i < steps.len() ==> underway(#[trigger] steps[i]),
    ensures
        underway(all_events(steps)),
    decreases steps.len(),
{
    if steps.len() > 0 {
        let front = steps.drop_last();
        assert forall|i: int| 0 <= i < front.len() implies underway(#[trigger] front[i]) by {
            assert(front[i] == steps[i]);
        }
        lemma_underway(front);
        let (a, b) = (all_events(front), steps.last());
        assert(underway(steps[steps.len() - 1]));
        assert forall|i: int| 0 <= i < (a + b).len() implies (
        #[trigger] (a + b)[i] matches StreamEvent::Token(t) && t@.len() > 0) by {
            if i < a.len() {
                assert((a + b)[i] == a[i]);
            } else {
                assert((a + b)[i] == b[i - a.len()]);
            }
        }
    }
}

/// A streamed generation sends only text that is not empty, and then exactly one
/// end: the events of its steps, the last of which left the stream over and the
/// others under way, are such a stream together.
pub proof fn law_a_stream_ends_once(steps: Seq<Seq<StreamEvent>>)
    requires
        steps.len() > 0,
        forall|i: int| 0 <= i < steps.len() - 1 ==> underway(#[trigger] steps[i]),
        over(steps.last()),
    ensures
        over(all_events(steps)),
        forall|i: int|
            0 <= i < all_events(steps).len() ==> (is_end(#[trigger] all_events(steps)[i]) <==> i
                == all_events(steps).len() - 1),
{
    let last = steps.last();
    let changed = steps.drop_last().push(last.drop_last());
    assert forall|i: int| 0 <= i < changed.len() implies underway(#[trigger] changed[i]) by {
        if i < steps.len() - 1 {
            assert(changed[i] == steps[i]);
        }
    }
    lemma_underway(changed);
    assert(changed.drop_last() =~= steps.drop_last());
    let all = all_events(steps);
    assert(all.drop_last() =~= all_events(changed));
    assert forall|i: int| 0 <= i < all.len() implies (is_end(#[trigger] all[i]) <==> i == all.len()
        - 1) by {
        if i < all.len() - 1 {
            assert(all.drop_last()[i] == all[i]);
        }
    }
}

} // verus!
