use eullm::inference::output::{process_piece, stop_prefix_holdback, PieceOutcome};
use eullm::inference::scheduler::{
    begin, best_checkpoint, check_rollback, checkpoint_due, common_prefix_len, detect_disconnect,
    finish_sequence_clean, note_prefilled, pick_slot, plan_prefill, plan_retry, resident_text,
    resident_tokens, store_checkpoint, take_checkpoint, text_prefix_match, AdmitError, CachedSlot,
    Delivery, Move, PromptCheckpoint, Queue, Retry, Route, Sampled, Scheduler, SchedulerConfig,
    Verdict,
};
use eullm::inference::{GenerateRequest, StopReason, StreamEvent, DEFAULT_HARMONY_FILTERS};
use tokio::sync::mpsc;

const NOW: u64 = 1_000_000;

/// Sends text to a client and reports whether the client has gone.
fn send_or_detect_disconnect(tx: &mpsc::Sender<StreamEvent>, out: String, _seq_id: i32) -> bool {
    let is_empty = out.is_empty();
    let closed = tx.is_closed();
    let delivery = if is_empty {
        Delivery::Sent
    } else {
        match tx.try_send(StreamEvent::Token(out)) {
            Ok(()) => Delivery::Sent,
            Err(mpsc::error::TrySendError::Full(_)) => Delivery::Full,
            Err(mpsc::error::TrySendError::Closed(_)) => Delivery::Closed,
        }
    };
    detect_disconnect(is_empty, closed, delivery)
}

fn gemma_stops() -> Vec<String> {
    vec!["<end_of_turn>".to_string()]
}

fn drain(pending: &mut String, stops: &[String], pieces: &[&str]) -> (String, bool) {
    drain_with_filters(pending, stops, &[], pieces)
}

fn drain_with_filters(
    pending: &mut String,
    stops: &[String],
    filters: &[String],
    pieces: &[&str],
) -> (String, bool) {
    let mut emitted = String::new();
    let mut stopped = false;
    for p in pieces {
        match process_piece(pending, stops, filters, p) {
            PieceOutcome::Emit(s) => emitted.push_str(&s),
            PieceOutcome::Stop(s) => {
                emitted.push_str(&s);
                stopped = true;
                break;
            }
        }
    }
    (emitted, stopped)
}

#[test]
fn holdback_detects_partial_prefix() {
    let stops = gemma_stops();
    // A trailing partial delimiter must be held back.
    assert_eq!(stop_prefix_holdback("hello<end_of_turn", &stops), "<end_of_turn".len());
    // No overlap → nothing held back.
    assert_eq!(stop_prefix_holdback("hello world", &stops), 0);
    // Only the suffix that overlaps a prefix is held back.
    assert_eq!(stop_prefix_holdback("a<end", &stops), "<end".len());
}

#[test]
fn gemma_text_delimiter_then_eog_does_not_leak() {
    // Model spells the delimiter out as plain text (the real Gemma 4 case):
    // < end _ of _ turn, then an EOG token (no further piece). The partial
    // `<end_of_turn` must stay buffered and never be emitted.
    let stops = gemma_stops();
    let mut pending = String::new();
    let (emitted, stopped) =
        drain(&mut pending, &stops, &["hello", " world", "<", "end", "_", "of", "_", "turn"]);
    assert_eq!(emitted, "hello world");
    assert!(!stopped, "no full stop seq seen yet — EOG handles termination");
    // Caller discards `pending` on EOG; confirm it holds only the partial.
    assert_eq!(pending, "<end_of_turn");
}

#[test]
fn full_stop_sequence_truncates_cleanly() {
    let stops = gemma_stops();
    let mut pending = String::new();
    let (emitted, stopped) =
        drain(&mut pending, &stops, &["Rome.", "<end_of_turn>"]);
    assert!(stopped);
    assert_eq!(emitted, "Rome.");
    assert!(pending.is_empty());
}

#[test]
fn false_alarm_prefix_is_released() {
    // `<end` looks like the start of `<end_of_turn>` but turns out to be
    // ordinary text — it must be released once disambiguated.
    let stops = gemma_stops();
    let mut pending = String::new();
    let (emitted, stopped) =
        drain(&mut pending, &stops, &["the ", "<end", "point", " is near"]);
    assert!(!stopped);
    assert_eq!(emitted, "the <endpoint is near");
    assert!(pending.is_empty());
}

fn harmony_filters() -> Vec<String> {
    DEFAULT_HARMONY_FILTERS
        .iter()
        .map(|s| (*s).to_string())
        .collect()
}

#[test]
fn filter_strips_complete_harmony_block_with_known_role() {
    // Gemma 4 12B emits `<|channel>thought<channel|>` at the start of a
    // reply. The combined pattern in DEFAULT_HARMONY_FILTERS catches the
    // whole block (including the "thought" word) as one unit, so nothing
    // residual appears in the output.
    let stops = gemma_stops();
    let filters = harmony_filters();
    let mut pending = String::new();
    let (emitted, stopped) = drain_with_filters(
        &mut pending,
        &stops,
        &filters,
        &["<|channel>thought<channel|>Ciao!"],
    );
    assert!(!stopped, "filter must NEVER terminate generation");
    assert_eq!(emitted, "Ciao!");
}

#[test]
fn unknown_channel_role_passes_through_untouched() {
    // Contract (since `<|channel>` / `<channel|>` were removed from the
    // single-delimiter fallback): if the model produces a Harmony channel
    // with a role we have NOT enumerated, the whole `<|channel>ROLE<channel|>`
    // block reaches the client verbatim. The UI can then choose how to
    // surface it (e.g. as a Reasoning box for `thought`). The old fallback
    // was actively harmful for Gemma 4: it stripped `<|channel>` and
    // `<channel|>` separately and left `thought\n[reasoning]` as naked text.
    let stops = gemma_stops();
    let filters = harmony_filters();
    let mut pending = String::new();
    let (emitted, stopped) = drain_with_filters(
        &mut pending,
        &stops,
        &filters,
        &["<|channel>banana<channel|>Hello"],
    );
    assert!(!stopped);
    assert_eq!(emitted, "<|channel>banana<channel|>Hello");
}

#[test]
fn filter_works_across_token_boundaries() {
    // Realistic case: a known stray marker (`<|image>`) split across two
    // model pieces still gets scrubbed.
    let stops = gemma_stops();
    let filters = harmony_filters();
    let mut pending = String::new();
    let (emitted, stopped) = drain_with_filters(
        &mut pending,
        &stops,
        &filters,
        &["before <|ima", "ge>after"],
    );
    assert!(!stopped);
    assert_eq!(emitted, "before after");
    assert!(pending.is_empty());
}

#[test]
fn filter_mid_word_artifact_is_removed() {
    // Real screenshot: the model wrote "vor<image|>resti" — must become "vorresti".
    let stops = gemma_stops();
    let filters = harmony_filters();
    let mut pending = String::new();
    let (emitted, stopped) =
        drain_with_filters(&mut pending, &stops, &filters, &["vor<image|>resti"]);
    assert!(!stopped);
    assert_eq!(emitted, "vorresti");
}

#[test]
fn stop_wins_over_filter_when_both_appear() {
    // If a stop sequence and a filter both occur, the stop takes precedence
    // and terminates the response; the filter doesn't get a chance to act
    // beyond the cut.
    let stops = gemma_stops();
    let filters = harmony_filters();
    let mut pending = String::new();
    let (emitted, stopped) = drain_with_filters(
        &mut pending,
        &stops,
        &filters,
        &["answer.<end_of_turn><|channel>noise"],
    );
    assert!(stopped);
    assert_eq!(emitted, "answer.");
}

#[test]
fn ordinary_text_unaffected_by_filters() {
    // Regression guard: the presence of filter rules must not change
    // streaming for content that contains none of them.
    let stops = gemma_stops();
    let filters = harmony_filters();
    let mut pending = String::new();
    let (emitted, stopped) = drain_with_filters(
        &mut pending,
        &stops,
        &filters,
        &["hello", " world", "."],
    );
    assert!(!stopped);
    assert_eq!(emitted, "hello world.");
    assert!(pending.is_empty());
}

fn toks(ids: &[i32]) -> Vec<i32> {
    ids.to_vec()
}

#[test]
fn common_prefix_len_empty_vs_empty() {
    assert_eq!(common_prefix_len(&[], &[]), 0);
}

#[test]
fn common_prefix_len_full_match() {
    let a = toks(&[1, 2, 3]);
    let b = toks(&[1, 2, 3]);
    assert_eq!(common_prefix_len(&a, &b), 3);
}

#[test]
fn common_prefix_len_partial_match() {
    let a = toks(&[1, 2, 3, 4]);
    let b = toks(&[1, 2, 9, 9]);
    assert_eq!(common_prefix_len(&a, &b), 2);
}

#[test]
fn common_prefix_len_totally_disjoint() {
    let a = toks(&[1, 2, 3]);
    let b = toks(&[9, 8, 7]);
    assert_eq!(common_prefix_len(&a, &b), 0);
}

#[test]
fn common_prefix_len_one_shorter_than_other() {
    let a = toks(&[1, 2, 3, 4, 5]);
    let b = toks(&[1, 2, 3]);
    assert_eq!(common_prefix_len(&a, &b), 3);
    assert_eq!(common_prefix_len(&b, &a), 3);
}

/// Build a `CachedSlot` whose `last_used` is `age_secs_ago` seconds in
/// the past — larger values are "more stale" (least recently used).
fn slot(seq_id: i32, tokens: Vec<i32>, age_secs_ago: u64) -> CachedSlot {
    CachedSlot {
        seq_id,
        tokens,
        text: String::new(),
        last_used: NOW - age_secs_ago,
    }
}

/// Like `slot`, but with resident text set (for `text_prefix_match` tests).
fn text_slot(seq_id: i32, tokens: Vec<i32>, text: &str, age_secs_ago: u64) -> CachedSlot {
    CachedSlot {
        seq_id,
        tokens,
        text: text.to_string(),
        last_used: NOW - age_secs_ago,
    }
}

#[test]
fn pick_slot_best_match_above_threshold_wins_regardless_of_order() {
    // Slot 0 is listed first and has a long history, but shares nothing
    // with the new prompt. Slot 1 is listed second, has a shorter
    // history, but is an exact prefix match — it must win even though
    // it is neither first nor the longest.
    let mut idle_slots = vec![
        slot(0, toks(&[100, 101, 102, 103, 104, 105]), 100),
        slot(1, toks(&[1, 2, 3]), 5),
    ];
    let new_tokens = toks(&[1, 2, 3, 4, 5, 6, 7, 8, 9, 10]);
    let (seq_id, reuse_len) = pick_slot(&mut idle_slots, &new_tokens);
    assert_eq!(seq_id, 1);
    assert_eq!(reuse_len, 3);
    // The winning slot must have been removed from the idle pool.
    assert_eq!(idle_slots.len(), 1);
    assert_eq!(idle_slots[0].seq_id, 0);
}

#[test]
fn pick_slot_falls_back_to_lru_when_nothing_clears_threshold() {
    // None of these slots share a meaningful prefix with the new
    // prompt (similarity 0.0 for all — well below the 0.1 threshold),
    // so selection must fall back to the least-recently-used slot.
    let mut idle_slots = vec![
        slot(0, toks(&[900, 901]), 2),  // recently used
        slot(1, toks(&[800, 801]), 50), // least recently used
        slot(2, toks(&[700, 701]), 10),
    ];
    let new_tokens = toks(&[1, 2, 3, 4, 5, 6, 7, 8, 9, 10]);
    let (seq_id, _reuse_len) = pick_slot(&mut idle_slots, &new_tokens);
    assert_eq!(seq_id, 1, "must fall back to the least-recently-used slot");
}

#[test]
fn pick_slot_reuse_len_capped_at_len_minus_one_on_full_match() {
    let full = toks(&[1, 2, 3, 4]);
    let mut idle_slots = vec![slot(0, full.clone(), 1)];
    let (seq_id, reuse_len) = pick_slot(&mut idle_slots, &full);
    assert_eq!(seq_id, 0);
    // Even a 100% cache hit must leave the final prompt token to be
    // freshly decoded, so logits can be sampled from it.
    assert_eq!(reuse_len, full.len() - 1);
}

#[test]
fn pick_slot_empty_new_tokens_does_not_panic() {
    let mut idle_slots = vec![slot(0, toks(&[1, 2, 3]), 5), slot(1, Vec::new(), 10)];
    let (seq_id, reuse_len) = pick_slot(&mut idle_slots, &[]);
    // No panic (no divide-by-zero), and nothing to reuse.
    assert_eq!(reuse_len, 0);
    // Similarity is 0.0 for every slot against an empty prompt, so this
    // falls back to LRU (slot 1, the more stale of the two).
    assert_eq!(seq_id, 1);
}

#[test]
fn text_prefix_match_finds_exact_continuation() {
    let idle_slots = vec![text_slot(0, toks(&[1, 2, 3]), "hello world", 5)];
    let idx = text_prefix_match(&idle_slots, "hello world, how are you?");
    assert_eq!(idx, Some(0));
}

#[test]
fn text_prefix_match_rejects_non_prefix() {
    // Shares a long common substring, but not as a PREFIX of the new
    // prompt — must not match.
    let idle_slots = vec![text_slot(0, toks(&[1, 2, 3]), "hello world", 5)];
    let idx = text_prefix_match(&idle_slots, "well, hello world");
    assert_eq!(idx, None);
}

#[test]
fn text_prefix_match_picks_longest_among_multiple() {
    let idle_slots = vec![
        text_slot(0, toks(&[1]), "hello", 10),
        text_slot(1, toks(&[1, 2]), "hello world", 5),
    ];
    let idx = text_prefix_match(&idle_slots, "hello world, extended further");
    assert_eq!(idx, Some(1));
}

#[test]
fn text_prefix_match_ignores_empty_slot_text() {
    let idle_slots = vec![text_slot(0, Vec::new(), "", 1)];
    assert_eq!(text_prefix_match(&idle_slots, "anything"), None);
}

#[test]
fn text_prefix_match_exact_equal_text_matches() {
    // The new prompt is IDENTICAL to the slot's resident text (a
    // retried/duplicate request) — an empty suffix, still a valid match.
    let idle_slots = vec![text_slot(0, toks(&[1, 2]), "same text", 1)];
    assert_eq!(text_prefix_match(&idle_slots, "same text"), Some(0));
}

#[test]
fn text_prefix_match_none_when_no_slots() {
    assert_eq!(text_prefix_match(&[], "anything"), None);
}

/// Build a `PromptCheckpoint` with a given token vector and age (used
/// only for eviction-order assertions — `take_checkpoint`'s actual
/// state-byte capture needs a real llama.cpp context and isn't
/// exercised by these pure-logic tests).
fn checkpoint(tokens: Vec<i32>, age_secs_ago: u64) -> PromptCheckpoint {
    PromptCheckpoint {
        tokens,
        state: vec![0u8; 1],
        created_at: NOW - age_secs_ago,
    }
}

#[test]
fn best_checkpoint_picks_longest_exact_prefix_match() {
    let checkpoints = vec![
        checkpoint(toks(&[1, 2, 3]), 10),
        checkpoint(toks(&[1, 2, 3, 4, 5]), 5),
        checkpoint(toks(&[9, 9, 9]), 1), // not a prefix at all
    ];
    let tokens = toks(&[1, 2, 3, 4, 5, 6, 7]);
    let best = best_checkpoint(&checkpoints, &tokens).expect("a matching checkpoint exists");
    assert_eq!(best.tokens, toks(&[1, 2, 3, 4, 5]));
}

#[test]
fn best_checkpoint_rejects_non_prefix_matches() {
    // Shares a long common prefix by token-id comparison, but the
    // checkpoint's own tail (token 99) diverges from the request before
    // the checkpoint ends — not a valid restore point.
    let checkpoints = vec![checkpoint(toks(&[1, 2, 99]), 1)];
    let tokens = toks(&[1, 2, 3, 4]);
    assert!(best_checkpoint(&checkpoints, &tokens).is_none());
}

#[test]
fn best_checkpoint_none_when_no_checkpoints() {
    assert!(best_checkpoint(&[], &toks(&[1, 2, 3])).is_none());
}

#[test]
fn best_checkpoint_ignores_empty_checkpoint() {
    // An empty-token checkpoint would trivially "match" every request
    // (a zero-length prefix always matches) but restoring it would be
    // equivalent to restoring nothing — must never be selected.
    let checkpoints = vec![checkpoint(Vec::new(), 1)];
    assert!(best_checkpoint(&checkpoints, &toks(&[1, 2, 3])).is_none());
}

#[test]
fn full_channel_is_not_treated_as_a_disconnect() {
    let (tx, _rx) = mpsc::channel::<StreamEvent>(1);
    // Fill the one buffered slot without ever draining it — a
    // slow-consuming but still-connected client, not a dropped one.
    tx.try_send(StreamEvent::Token("first".to_string())).unwrap();
    let disconnected = send_or_detect_disconnect(&tx, "second".to_string(), 0);
    assert!(!disconnected, "a Full channel must not be treated as a disconnect");
}

#[test]
fn closed_channel_is_detected_with_pending_output() {
    let (tx, rx) = mpsc::channel::<StreamEvent>(4);
    drop(rx);
    let disconnected = send_or_detect_disconnect(&tx, "hello".to_string(), 0);
    assert!(disconnected, "a Closed channel with bytes to send must be detected");
}

#[test]
fn closed_channel_is_detected_even_with_empty_output() {
    let (tx, rx) = mpsc::channel::<StreamEvent>(4);
    drop(rx);
    // Empty `out` (piece fully absorbed into the stop/filter holdback
    // buffer) must not let a disconnect slip through undetected.
    let disconnected = send_or_detect_disconnect(&tx, String::new(), 0);
    assert!(disconnected, "a Closed channel must be detected even with nothing to send");
}

#[test]
fn open_channel_with_empty_output_is_not_a_disconnect() {
    let (tx, _rx) = mpsc::channel::<StreamEvent>(4);
    let disconnected = send_or_detect_disconnect(&tx, String::new(), 0);
    assert!(!disconnected);
}

fn config(slots: usize, checkpoints: usize) -> SchedulerConfig {
    SchedulerConfig {
        max_batch_size: slots,
        queue_capacity: 8 * slots,
        ctx_checkpoints: checkpoints,
        checkpoint_min_step: 2,
    }
}

fn request(prompt: &str, max_tokens: u32) -> GenerateRequest {
    GenerateRequest {
        prompt: prompt.to_string(),
        max_tokens,
        stop_sequences: vec!["<stop>".to_string()],
        ..GenerateRequest::default()
    }
}

fn piece(token: i32, text: &str) -> Sampled {
    Sampled::Piece { token, piece: text.to_string() }
}

#[test]
fn a_turn_runs_from_admission_to_reuse() {
    let mut s = Scheduler::new(config(2, 4), 64, 0);
    assert_eq!(s.per_seq_ctx, 32);
    assert_eq!(s.next_move(false, Queue::Unread), Move::Poll);
    assert_eq!(s.next_move(false, Queue::Request), Move::Admit);
    assert_eq!(s.next_move(false, Queue::Empty), Move::Wait);
    assert_eq!(s.next_move(true, Queue::Unread), Move::ShutDown);

    let req = request("hello", 3);
    assert!(matches!(s.route("hello"), Route::Fresh));
    let admitted = s.assign(vec![1, 2, 3]).unwrap();
    assert_eq!(admitted.reuse_len, 0);
    let mut seq = begin(&admitted, &req, 10);
    let plan = plan_prefill(req.num_ctx, req.max_tokens, s.per_seq_ctx, 2, 3, 0).unwrap();
    assert_eq!(plan.chunks, vec![(0, 2), (2, 3)]);
    assert_eq!(plan.max_tokens, 3);
    note_prefilled(&mut seq, &plan);

    let first = eullm::inference::scheduler::first_token(&mut seq, &piece(11, " wor"));
    assert!(matches!(first, Verdict::Deliver { ref text } if text == " wor"));
    let settled = eullm::inference::scheduler::after_delivery(&mut seq, false);
    assert!(matches!(settled, Verdict::Continue));
    s.launch(seq);
    assert_eq!(s.next_move(false, Queue::Empty), Move::Decode);

    let batch = s.decode_batch();
    assert_eq!(batch.len(), 1);
    assert_eq!(batch[0].token, 11);
    assert_eq!(batch[0].pos, 3);
    assert!(batch[0].logits);

    let v = s.step(0, &piece(12, "ld"));
    assert!(matches!(v, Verdict::Deliver { ref text } if text == "ld"));
    assert!(matches!(s.settle(0, false), Verdict::Continue));

    // The third token uses up the budget.
    let v = s.step(0, &piece(13, "!"));
    assert!(matches!(v, Verdict::Deliver { ref text } if text == "!"));
    match s.settle(0, false) {
        Verdict::Finish { text, reason } => {
            assert_eq!(text, "");
            assert_eq!(reason, StopReason::Length);
        }
        other => panic!("unexpected outcome: {other:?}"),
    }
    assert_eq!(resident_tokens(&s.active[0]), vec![1, 2, 3, 11, 12]);
    assert_eq!(resident_text(&s.active[0]), "hello world");
    let cfg = config(2, 4);
    let slot = finish_sequence_clean(
        &s.active[0],
        &mut s.checkpoints,
        &cfg,
        Some((vec![7, 8, 9], 2)),
        20,
    );
    assert_eq!(slot.tokens, vec![1, 2, 3, 11, 12]);
    assert_eq!(s.checkpoints.len(), 1);
    assert_eq!(s.checkpoints[0].state, vec![7, 8]);
    s.retire(0, slot);
    s.sweep();
    assert!(s.active.is_empty());
    assert_eq!(s.idle_slots.len(), 2);

    // The next turn continues where this one ended.
    match s.route("hello world! More?") {
        Route::Continue { slot, suffix } => {
            assert_eq!(suffix, "! More?");
            let next = s.resume(slot, vec![13, 14]);
            assert_eq!(next.tokens, vec![1, 2, 3, 11, 12, 13, 14]);
            assert_eq!(next.reuse_len, 5);
        }
        other => panic!("unexpected route: {other:?}"),
    }
}

#[test]
fn a_stop_sequence_ends_the_turn_and_its_token_is_not_resident() {
    let mut s = Scheduler::new(config(1, 0), 64, 0);
    let req = request("q", 10);
    let admitted = s.assign(vec![5]).unwrap();
    assert_eq!(s.assign(vec![6]).unwrap_err(), AdmitError::NoSlot);
    assert_eq!(s.assign(Vec::new()).unwrap_err(), AdmitError::EmptyPrompt);
    let mut seq = begin(&admitted, &req, 0);
    let plan = plan_prefill(None, 10, s.per_seq_ctx, 512, 1, 0).unwrap();
    note_prefilled(&mut seq, &plan);
    let v = eullm::inference::scheduler::first_token(&mut seq, &piece(1, "done<st"));
    assert!(matches!(v, Verdict::Deliver { ref text } if text == "done"));
    assert!(matches!(
        eullm::inference::scheduler::after_delivery(&mut seq, false),
        Verdict::Continue
    ));
    s.launch(seq);
    match s.step(0, &piece(2, "op>junk")) {
        Verdict::Finish { text, reason } => {
            assert_eq!(text, "");
            assert_eq!(reason, StopReason::Stop);
        }
        other => panic!("unexpected outcome: {other:?}"),
    }
    assert_eq!(resident_tokens(&s.active[0]), vec![5, 1]);
}

#[test]
fn a_client_that_has_gone_ends_its_sequence() {
    let mut s = Scheduler::new(config(1, 0), 64, 0);
    let req = request("q", 10);
    let admitted = s.assign(vec![5]).unwrap();
    let mut seq = begin(&admitted, &req, 0);
    note_prefilled(&mut seq, &plan_prefill(None, 10, 64, 512, 1, 0).unwrap());
    let _ = eullm::inference::scheduler::first_token(&mut seq, &piece(1, "a"));
    assert!(matches!(
        eullm::inference::scheduler::after_delivery(&mut seq, true),
        Verdict::Disconnected
    ));
    s.release(CachedSlot::wiped(admitted.seq_id, 3));
    assert_eq!(s.idle_slots.len(), 1);
    assert!(s.idle_slots[0].tokens.is_empty());
}

#[test]
fn a_failed_decode_wipes_every_active_slot() {
    let mut s = Scheduler::new(config(2, 0), 64, 0);
    for t in [1, 2] {
        let req = request("q", 10);
        let admitted = s.assign(vec![t]).unwrap();
        let mut seq = begin(&admitted, &req, 0);
        note_prefilled(&mut seq, &plan_prefill(None, 10, 32, 512, 1, 0).unwrap());
        let _ = eullm::inference::scheduler::first_token(&mut seq, &piece(9, "x"));
        let _ = eullm::inference::scheduler::after_delivery(&mut seq, false);
        s.launch(seq);
    }
    assert_eq!(s.next_move(false, Queue::Request), Move::Decode);
    let mut ids = s.fail_all(77);
    ids.sort_unstable();
    assert_eq!(ids, vec![0, 1]);
    assert!(s.active.is_empty());
    assert!(s.idle_slots.iter().all(|x| x.tokens.is_empty() && x.last_used == 77));
}

#[test]
fn a_prompt_that_leaves_no_room_is_refused() {
    let e = plan_prefill(Some(4), 10, 32, 512, 4, 0).err().unwrap();
    assert_eq!(e, "Prompt (4 tokens) does not fit in context window (4)");
    let p = plan_prefill(Some(100), u32::MAX, 32, 512, 30, 29).unwrap();
    assert_eq!(p.max_tokens, 2);
    assert_eq!(p.chunks, vec![(29, 30)]);
}

#[test]
fn a_failed_prefill_starts_from_the_best_checkpoint() {
    let checkpoints = vec![checkpoint(toks(&[1, 2]), 5), checkpoint(toks(&[1, 2, 3]), 1)];
    match plan_retry(&checkpoints, &toks(&[1, 2, 3, 4]), 4) {
        Retry::Restore { index, reuse_len } => {
            assert_eq!(index, 1);
            assert_eq!(reuse_len, 3);
        }
        _ => panic!("a checkpoint covers this prompt"),
    }
    assert!(matches!(plan_retry(&checkpoints, &toks(&[9]), 1), Retry::FromStart));
    assert!(matches!(plan_retry(&checkpoints, &toks(&[1, 2, 3]), 0), Retry::GiveUp));
    assert!(check_rollback(3, 0, false).is_ok());
    assert!(check_rollback(3, 9, true).is_ok());
    assert!(check_rollback(3, 9, false).is_err());
}

#[test]
fn checkpoints_are_taken_only_when_they_add_something() {
    let cfg = config(1, 2);
    let mut kept = Vec::new();
    assert!(checkpoint_due(&kept, &toks(&[1, 2, 3]), &cfg));
    assert!(!checkpoint_due(&kept, &[], &cfg));
    assert!(!checkpoint_due(&kept, &toks(&[1]), &config(1, 0)));
    store_checkpoint(&mut kept, checkpoint(toks(&[1, 2, 3]), 9), 2);
    assert!(!checkpoint_due(&kept, &toks(&[1, 2, 3, 4]), &cfg));
    assert!(checkpoint_due(&kept, &toks(&[1, 2, 3, 4, 5]), &cfg));
    store_checkpoint(&mut kept, checkpoint(toks(&[4]), 5), 2);
    store_checkpoint(&mut kept, checkpoint(toks(&[5]), 1), 2);
    assert_eq!(kept.len(), 2);
    assert!(kept.iter().all(|c| c.tokens != toks(&[1, 2, 3])), "the oldest goes");
    assert!(take_checkpoint(vec![1, 2], 0, toks(&[1]), 0).is_none());
    assert!(take_checkpoint(vec![1, 2], 3, toks(&[1]), 0).is_none());
    assert_eq!(take_checkpoint(vec![1, 2], 1, toks(&[1]), 4).unwrap().state, vec![1]);
}
