use eullm::inference::output::{flush, process_piece, PieceOutcome};

fn run(stops: &[&str], filters: &[&str], pieces: &[&str]) -> (String, bool) {
    let stops: Vec<String> = stops.iter().map(|s| s.to_string()).collect();
    let filters: Vec<String> = filters.iter().map(|s| s.to_string()).collect();
    let mut pending = String::new();
    let mut out = String::new();
    for p in pieces {
        match process_piece(&mut pending, &stops, &filters, p) {
            PieceOutcome::Emit(s) => out.push_str(&s),
            PieceOutcome::Stop(s) => {
                out.push_str(&s);
                return (out, true);
            }
        }
    }
    (out, false)
}

// Defect 1 of the old per-loop check: `output.ends_with(stop)` only sees a
// marker that finishes the piece. Here the model emits the delimiter and a
// newline in one token, and the old code ran straight past the turn end.
#[test]
fn a_stop_sequence_not_at_the_end_of_a_piece_still_stops() {
    let (out, stopped) = run(&["<|im_end|>"], &[], &["Rome", "<|im_end|>\nUser: "]);
    assert!(stopped, "the marker was inside the piece, not at its end");
    assert_eq!(out, "Rome");
}

// Defect 2: split across two tokens. The old streaming paths had already
// sent the first half before noticing.
#[test]
fn a_stop_sequence_split_across_tokens_never_reaches_the_client() {
    let (out, stopped) = run(&["<|im_end|>"], &[], &["Rome", "<|im_", "end|>"]);
    assert!(stopped);
    assert_eq!(out, "Rome", "no fragment of the marker may be emitted");
}

// Defect 3: the old cut was a byte slice, so a stop landing mid-character
// panicked. Multi-byte text either side of the marker must be safe.
#[test]
fn multibyte_text_around_a_stop_does_not_panic_and_is_not_cut() {
    let (out, stopped) = run(&["<|im_end|>"], &[], &["Perché", " è così", "<|im_end|>"]);
    assert!(stopped);
    assert_eq!(out, "Perché è così");
}

#[test]
fn a_multibyte_character_split_across_pieces_survives() {
    // "è" is 0xC3 0xA8; a decoder can hand the two halves over separately
    // only as complete pieces, but the hold-back arithmetic must still land
    // on character boundaries when the marker shares a first byte.
    let (out, stopped) = run(&["<|im_end|>"], &[], &["è", "à", "ù"]);
    assert!(!stopped);
    assert_eq!(out, "èàù");
}

// Filters were absent outside the scheduler, so this scaffolding reached
// the user verbatim on the multimodal path.
#[test]
fn filter_sequences_are_elided_without_stopping() {
    let (out, stopped) = run(
        &["<|im_end|>"],
        &["<|channel|>analysis"],
        &["Answer: ", "<|channel|>analysis", "42"],
    );
    assert!(!stopped);
    assert_eq!(out, "Answer: 42");
}

#[test]
fn a_filter_split_across_tokens_is_still_elided() {
    let (out, _) = run(
        &["<|im_end|>"],
        &["<|channel|>"],
        &["a", "<|chan", "nel|>", "b"],
    );
    assert_eq!(out, "ab");
}

// The hold-back must not swallow text that merely starts like a marker.
#[test]
fn text_that_only_resembles_a_marker_is_released() {
    let (out, stopped) = run(&["<|im_end|>"], &[], &["a<|im", "possible"]);
    assert!(!stopped);
    assert_eq!(out, "a<|impossible");
}

#[test]
fn the_tail_is_recoverable_when_generation_ends_without_a_stop() {
    let stops = vec!["<end_of_turn>".to_string()];
    let mut pending = String::new();
    let mut out = String::new();
    for p in ["Rome", "<end_of_turn"] {
        if let PieceOutcome::Emit(s) = process_piece(&mut pending, &stops, &[], p) {
            out.push_str(&s);
        }
    }
    // Held back because it could still become the marker.
    assert_eq!(out, "Rome");
    assert_eq!(pending, "<end_of_turn");
    // A caller ending on the token budget takes it; one seeing EOG drops it.
    assert_eq!(flush(&mut pending), "<end_of_turn");
    assert!(pending.is_empty());
}

#[test]
fn an_empty_stop_list_emits_everything_immediately() {
    let (out, stopped) = run(&[], &[], &["a", "b", "c"]);
    assert!(!stopped);
    assert_eq!(out, "abc");
}

#[test]
fn nothing_of_a_marker_survives_a_stop() {
    let (out, stopped) = run(&["</s>", "END"], &["<x>"], &["a<x", ">b EN", "D c</s>"]);
    assert!(stopped);
    assert_eq!(out, "ab ");
}

#[test]
fn the_pieces_of_a_stream_without_markers_add_up_to_the_text() {
    let stops = vec!["<|im_end|>".to_string()];
    let filters = vec!["<|channel|>".to_string()];
    let mut pending = String::new();
    let mut out = String::new();
    for p in ["one <|", "two <", "|im_", "three"] {
        match process_piece(&mut pending, &stops, &filters, p) {
            PieceOutcome::Emit(s) => out.push_str(&s),
            PieceOutcome::Stop(_) => panic!("no stop in this text"),
        }
    }
    out.push_str(&flush(&mut pending));
    assert_eq!(out, "one <|two <|im_three");
}
