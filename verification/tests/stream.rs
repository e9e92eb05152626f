use eullm::inference::engine::{Draw, Generation};
use eullm::inference::scheduler::{begin, Admitted, Verdict};
use eullm::inference::stream::{
    end_events, error_events, text_events, verdict_events, Decoded, Next, Streaming,
};
use eullm::inference::{GenerateRequest, StopReason, StreamEvent};

/// Events as text: pieces as they are, the end in brackets.
fn shown(events: &[StreamEvent]) -> Vec<String> {
    events
        .iter()
        .map(|e| match e {
            StreamEvent::Token(t) => t.clone(),
            StreamEvent::Done { tokens_generated, tokens_prompt, duration_ms, stop_reason } => {
                format!("[{tokens_generated} {tokens_prompt} {duration_ms} {stop_reason:?}]")
            }
            StreamEvent::Error(m) => format!("[error: {m}]"),
        })
        .collect()
}

fn run(max_tokens: u32, draws: Vec<Draw>) -> Vec<String> {
    let stops = vec!["</s>".to_string()];
    let g = Generation::new(4, 4, max_tokens, &stops, &[]);
    let (mut s, mut all) = Streaming::begin(g, 7);
    let mut draws = draws.into_iter();
    while s.next != Next::Stop {
        let more = match s.next {
            Next::Sample => s.sampled(&draws.next().unwrap(), 7),
            _ => s.decoded(Decoded::Fine, 7),
        };
        all.extend(more);
    }
    shown(&all)
}

fn piece(s: &str) -> Draw {
    Draw::Piece(s.to_string())
}

#[test]
fn a_stream_ends_once_and_sends_no_empty_text() {
    assert_eq!(run(9, vec![piece("a"), piece(""), piece("b</"), piece("s>c")]), ["a", "b", "[3 4 7 Stop]"]);
    assert_eq!(run(9, vec![piece("a</"), Draw::Eog]), ["a", "[1 4 7 Stop]"]);
    assert_eq!(run(2, vec![piece("a"), piece("b</")]), ["a", "b", "</", "[2 4 7 Length]"]);
    assert_eq!(run(9, vec![piece("a</"), Draw::Untranslatable]), ["a", "</", "[1 4 7 Length]"]);
    assert_eq!(run(0, vec![]), ["[0 4 7 Length]"]);
    let corrupt = run(9, vec![piece("a"), Draw::Corrupt]);
    assert_eq!(corrupt.len(), 2);
    assert!(corrupt[1].starts_with("[error: the model produced a numerically invalid result"));
}

#[test]
fn a_failed_decode_ends_the_stream() {
    for (cause, said) in [
        (None, "[error: Decode failed at token 0]"),
        (Some("no slot".to_string()), "[error: Decode failed at token 0: no slot]"),
    ] {
        let (mut s, begun) = Streaming::begin(Generation::new(1, 1, 5, &[], &[]), 0);
        assert!(begun.is_empty());
        assert_eq!(shown(&s.sampled(&piece("x"), 0)), ["x"]);
        assert_eq!(s.next, Next::Decode);
        assert_eq!(shown(&s.decoded(Decoded::Failed { cause }, 0)), [said]);
        assert_eq!(s.next, Next::Stop);
    }
    assert_eq!(shown(&error_events("too long".to_string())), ["[error: too long]"]);
}

#[test]
fn verdicts_are_sent_as_events() {
    let admitted = Admitted { tokens: vec![1, 2], seq_id: 0, reuse_len: 0 };
    let seq = begin(&admitted, &GenerateRequest::default(), 0);
    let of = |v: Verdict| shown(&verdict_events(&v, &seq, 3));
    let end = format!("[{} {} 3", seq.tokens_generated, seq.tokens_prompt);
    let text = "t".to_string();
    assert_eq!(
        of(Verdict::Finish { text: text.clone(), reason: StopReason::Stop }),
        ["t".to_string(), format!("{end} Stop]")]
    );
    assert_eq!(of(Verdict::Abandon), [format!("{end} Length]")]);
    assert_eq!(of(Verdict::Deliver { text }), ["t"]);
    assert!(of(Verdict::Deliver { text: String::new() }).is_empty());
    assert!(of(Verdict::Continue).is_empty());
    assert!(of(Verdict::Disconnected).is_empty());
    assert!(text_events(String::new()).is_empty());
    assert_eq!(shown(&end_events(String::new(), 1, 2, 3, StopReason::Stop)), ["[1 2 3 Stop]"]);
}
