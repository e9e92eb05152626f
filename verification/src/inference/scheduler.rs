//! Continuous batching: slots, prompt reuse, checkpoints and the life of a
//! sequence.
//!
//! A sequence slot remembers the tokens that are resident in its KV cache, so
//! that a later request sharing a prefix with them need not decode it again.
//! Decoding itself, the clock and the clients' channels are outside: each
//! function here takes what came back from them and says what to do next.
use crate::inference::output;
use crate::inference::output::PieceOutcome;
use crate::inference::{
    chunked, context_budget, output_budget, plan_budget, prefill_chunks, too_long, too_long_message,
    BatchEntry, GenerateRequest, StopReason,
};
use crate::text;
use vstd::prelude::*;
use vstd::slice::slice_subrange;

verus! {

/// Configuration for the batch scheduler.
#[derive(Debug, Clone)]
pub struct SchedulerConfig {
    /// Maximum number of sequences decoded in parallel.
    pub max_batch_size: usize,
    /// How many requests can wait in the submission queue before back-pressure.
    pub queue_capacity: usize,
    /// Max number of full-sequence-state checkpoints kept for prompt-prefix
    /// restore, across all sequences. `0` disables checkpointing entirely.
    pub ctx_checkpoints: usize,
    /// Minimum number of new tokens since the closest existing checkpoint
    /// of the same lineage before taking another one.
    pub checkpoint_min_step: u32,
}

impl Default for SchedulerConfig {
    fn default() -> (r: Self)
        ensures
            r.max_batch_size == 8,
            r.queue_capacity == 64,
            r.ctx_checkpoints == 0,
            r.checkpoint_min_step == 8192,
    {
        SchedulerConfig {
            max_batch_size: 8,
            queue_capacity: 64,
            ctx_checkpoints: 0,
            checkpoint_min_step: 8192,
        }
    }
}

/// An idle sequence slot together with the exact token history currently
/// resident in its KV cache, and the text that history is the tokenization of.
/// Both are empty for a never-used or just-wiped slot.
#[derive(Debug)]
pub struct CachedSlot {
    pub seq_id: i32,
    pub tokens: Vec<i32>,
    pub text: String,
    /// Reading of a monotonic clock.
    pub last_used: u64,
}

impl CachedSlot {
    /// A slot whose cache has been cleared.
    pub open spec fn is_wiped(self, seq_id: i32, now: u64) -> bool {
        &&& self.seq_id == seq_id
        &&& self.tokens@.len() == 0
        &&& self.text@.len() == 0
        &&& self.last_used == now
    }

    pub fn wiped(seq_id: i32, now: u64) -> (r: CachedSlot)
        ensures
            r.is_wiped(seq_id, now),
    {
        CachedSlot { seq_id, tokens: Vec::new(), text: String::new(), last_used: now }
    }
}

/// A full-sequence-state snapshot captured at the end of a turn, keyed by the
/// exact token prefix it corresponds to.
#[derive(Debug)]
pub struct PromptCheckpoint {
    pub tokens: Vec<i32>,
    pub state: Vec<u8>,
    pub created_at: u64,
}

/// `n` is the length of the longest common prefix of `a` and `b`.
pub open spec fn is_common_prefix(a: Seq<i32>, b: Seq<i32>, n: int) -> bool {
    &&& 0 <= n <= a.len()
    &&& n <= b.len()
    &&& a.take(n) == b.take(n)
    &&& n < a.len() && n < b.len() ==> a[n] != b[n]
}

/// Length of the longest common prefix of `a` and `b`.
pub open spec fn common_prefix(a: Seq<i32>, b: Seq<i32>) -> int
    decreases a.len(),
{
    if a.len() > 0 && b.len() > 0 && a[0] == b[0] {
        1 + common_prefix(a.skip(1), b.skip(1))
    } else {
        0
    }
}

pub proof fn lemma_common_prefix(a: Seq<i32>, b: Seq<i32>)
    ensures
        is_common_prefix(a, b, common_prefix(a, b)),
    decreases a.len(),
{
    if a.len() > 0 && b.len() > 0 && a[0] == b[0] {
        lemma_common_prefix(a.skip(1), b.skip(1));
        let n = common_prefix(a.skip(1), b.skip(1));
        assert(a.take(1 + n) =~= b.take(1 + n)) by {
            assert forall|i: int| 0 <= i < 1 + n implies a[i] == b[i] by {
                if i > 0 {
                    assert(a.skip(1).take(n)[i - 1] == b.skip(1).take(n)[i - 1]);
                }
            }
        }
    } else {
        assert(a.take(0) =~= b.take(0));
    }
}

pub proof fn lemma_common_prefix_is(a: Seq<i32>, b: Seq<i32>, n: int)
    requires
        is_common_prefix(a, b, n),
    ensures
        common_prefix(a, b) == n,
{
    lemma_common_prefix(a, b);
    let m = common_prefix(a, b);
    if m < n {
        assert(a.take(n)[m] == b.take(n)[m]);
    } else if n < m {
        assert(a.take(m)[n] == b.take(m)[n]);
    }
}

/// Length of the longest common prefix between two token sequences, compared
/// by token id (never by text).
pub fn common_prefix_len(a: &[i32], b: &[i32]) -> (r: usize)
    ensures
        r == common_prefix(a@, b@),
        is_common_prefix(a@, b@, r as int),
{
    let mut n: usize = 0;
    while n < a.len() && n < b.len() && a[n] == b[n]
        invariant
            n <= a@.len(),
            n <= b@.len(),
            forall|i: int| 0 <= i < n ==> a@[i] == b@[i],
        decreases a.len() - n,
    {
        n = n + 1;
    }
    proof {
        assert(a@.take(n as int) =~= b@.take(n as int));
        lemma_common_prefix_is(a@, b@, n as int);
    }
    n
}

/// How many leading tokens of a prompt a slot already holds.
pub open spec fn matched(slot: CachedSlot, tokens: Seq<i32>) -> int {
    common_prefix(slot.tokens@, tokens)
}

/// One slot is preferred to another: it matches more of the prompt, or as much
/// and was used longer ago.
pub open spec fn preferred(a: CachedSlot, b: CachedSlot, tokens: Seq<i32>) -> bool {
    ||| matched(a, tokens) > matched(b, tokens)
    ||| matched(a, tokens) == matched(b, tokens) && a.last_used < b.last_used
}

/// `i` is the first of the slots to which no other is preferred.
pub open spec fn is_best_match(slots: Seq<CachedSlot>, tokens: Seq<i32>, i: int) -> bool {
    &&& 0 <= i < slots.len()
    &&& forall|j: int| 0 <= j < i ==> preferred(slots[i], #[trigger] slots[j], tokens)
    &&& forall|j: int| i < j < slots.len() ==> !preferred(#[trigger] slots[j], slots[i], tokens)
}

/// `i` is the first of the least recently used slots.
pub open spec fn is_oldest(slots: Seq<CachedSlot>, i: int) -> bool {
    &&& 0 <= i < slots.len()
    &&& forall|j: int| 0 <= j < i ==> slots[i].last_used < (#[trigger] slots[j]).last_used
    &&& forall|j: int|
        i < j < slots.len() ==> slots[i].last_used <= (#[trigger] slots[j]).last_used
}

/// At least a tenth of the prompt is matched.
pub open spec fn similar_enough(prefix: int, len: int) -> bool {
    10 * prefix >= len && len > 0
}

/// `i` is the slot to use for a prompt: the best match where it is similar
/// enough, and otherwise the least recently used slot.
pub open spec fn is_pick(slots: Seq<CachedSlot>, tokens: Seq<i32>, i: int) -> bool {
    exists|b: int| #[trigger]
        is_best_match(slots, tokens, b) && if similar_enough(
            matched(slots[b], tokens),
            tokens.len() as int,
        ) {
            i == b
        } else {
            is_oldest(slots, i)
        }
}

/// How many tokens to reuse: the last token of a prompt is always decoded
/// afresh, since only that yields logits to sample from.
pub open spec fn reuse_cap(matched: int, len: int) -> int {
    if len == 0 {
        0
    } else if matched < len - 1 {
        matched
    } else {
        len - 1
    }
}

/// `s` with the element at `i` replaced by the last one, which is dropped.
pub open spec fn swap_removed<A>(s: Seq<A>, i: int) -> Seq<A> {
    s.update(i, s.last()).drop_last()
}

fn best_match(slots: &[CachedSlot], tokens: &[i32]) -> (r: (usize, usize))
    requires
        slots@.len() > 0,
    ensures
        is_best_match(slots@, tokens@, r.0 as int),
        r.1 == matched(slots@[r.0 as int], tokens@),
{
    let mut best: usize = 0;
    let mut best_prefix: usize = common_prefix_len(&slots[0].tokens, tokens);
    let mut i: usize = 1;
    while i < slots.len()
        invariant
            1 <= i <= slots@.len(),
            best < i,
            best_prefix == matched(slots@[best as int], tokens@),
            forall|j: int|
                0 <= j < best ==> preferred(slots@[best as int], #[trigger] slots@[j], tokens@),
            forall|j: int|
                best < j < i ==> !preferred(#[trigger] slots@[j], slots@[best as int], tokens@),
        decreases slots.len() - i,
    {
        let prefix: usize = common_prefix_len(&slots[i].tokens, tokens);
        if prefix > best_prefix || (prefix == best_prefix && slots[i].last_used
            < slots[best].last_used) {
            best = i;
            best_prefix = prefix;
        }
        i = i + 1;
    }
    (best, best_prefix)
}

fn oldest(slots: &[CachedSlot]) -> (r: usize)
    requires
        slots@.len() > 0,
    ensures
        is_oldest(slots@, r as int),
{
    let mut best: usize = 0;
    let mut i: usize = 1;
    while i < slots.len()
        invariant
            1 <= i <= slots@.len(),
            best < i,
            forall|j: int|
                0 <= j < best ==> slots@[best as int].last_used < (#[trigger] slots@[j]).last_used,
            forall|j: int|
                best < j < i ==> slots@[best as int].last_used <= (#[trigger] slots@[j]).last_used,
        decreases slots.len() - i,
    {
        if slots[i].last_used < slots[best].last_used {
            best = i;
        }
        i = i + 1;
    }
    best
}

/// Pick the best idle slot for a newly-tokenized prompt, removing it from
/// the idle pool. Returns `(seq_id, reuse_len)` where `reuse_len` is how many
/// leading tokens of `new_tokens` are already correctly resident in that
/// slot's KV cache and do NOT need to be re-decoded.
pub fn pick_slot(idle_slots: &mut Vec<CachedSlot>, new_tokens: &[i32]) -> (r: (i32, usize))
    requires
        old(idle_slots)@.len() > 0,
    ensures
        exists|i: int| #[trigger]
            is_pick(old(idle_slots)@, new_tokens@, i) && r.0 == old(idle_slots)@[i].seq_id && r.1
                == reuse_cap(matched(old(idle_slots)@[i], new_tokens@), new_tokens@.len() as int)
                && final(idle_slots)@ == swap_removed(old(idle_slots)@, i),
        forall|j: int, n: int|
            0 <= j < old(idle_slots)@.len() && 0 <= n <= old(idle_slots)@[j].tokens@.len() && n
                < new_tokens@.len() <= 10 * n && #[trigger] old(idle_slots)@[j].tokens@.take(n)
                == new_tokens@.take(n) ==> r.1 >= n,
{
    let ghost slots = idle_slots@;
    let (best, best_prefix) = best_match(idle_slots, new_tokens);
    let len: usize = new_tokens.len();
    let enough: bool = len > 0 && best_prefix >= len / 10 + (if len % 10 == 0 {
        0
    } else {
        1
    });
    assert(enough == similar_enough(best_prefix as int, len as int));
    let i: usize = if enough {
        best
    } else {
        oldest(idle_slots)
    };
    let prefix: usize = common_prefix_len(&idle_slots[i].tokens, new_tokens);
    assert(is_pick(slots, new_tokens@, i as int)) by {
        assert(is_best_match(slots, new_tokens@, best as int));
    }
    proof {
        assert forall|j: int, n: int|
            0 <= j < slots.len() && 0 <= n <= slots[j].tokens@.len() && n < new_tokens@.len() <= 10
                * n && #[trigger] slots[j].tokens@.take(n) == new_tokens@.take(n) implies prefix
            >= n by {
            law_the_longest_cached_prefix_is_reused(slots, new_tokens@, i as int, j, n);
        }
    }
    let slot: CachedSlot = idle_slots.swap_remove(i);
    let reuse: usize = if len == 0 {
        0
    } else if prefix < len - 1 {
        prefix
    } else {
        len - 1
    };
    (slot.seq_id, reuse)
}

/// The slot's text is not empty and a prefix of the prompt.
pub open spec fn continues(slot: CachedSlot, prompt: Seq<char>) -> bool {
    slot.text@.len() > 0 && text::is_prefix(slot.text@, prompt)
}

/// `i` is the last of the longest slot texts that the prompt continues.
pub open spec fn is_text_match(slots: Seq<CachedSlot>, prompt: Seq<char>, i: int) -> bool {
    &&& 0 <= i < slots.len()
    &&& continues(slots[i], prompt)
    &&& forall|j: int|
        0 <= j < slots.len() && continues(#[trigger] slots[j], prompt) ==> slots[j].text@.len()
            < slots[i].text@.len() || (slots[j].text@.len() == slots[i].text@.len() && j <= i)
}

/// The idle slot (if any) whose exact resident text is a non-empty prefix
/// of `prompt`, the longest if more than one qualifies. Returns its index into
/// `idle_slots`.
pub fn text_prefix_match(idle_slots: &[CachedSlot], prompt: &str) -> (r: Option<usize>)
    ensures
        match r {
            Some(i) => is_text_match(idle_slots@, prompt@, i as int),
            None => forall|j: int|
                0 <= j < idle_slots@.len() ==> !continues(#[trigger] idle_slots@[j], prompt@),
        },
{
    let wanted: Vec<char> = text::to_chars(prompt);
    let mut best: Option<usize> = None;
    let mut best_len: usize = 0;
    let mut i: usize = 0;
    while i < idle_slots.len()
        invariant
            i <= idle_slots@.len(),
            wanted@ == prompt@,
            match best {
                Some(b) => {
                    &&& b < i
                    &&& continues(idle_slots@[b as int], prompt@)
                    &&& best_len == idle_slots@[b as int].text@.len()
                    &&& forall|j: int|
                        0 <= j < i && continues(#[trigger] idle_slots@[j], prompt@)
                            ==> idle_slots@[j].text@.len() < best_len || (
                        idle_slots@[j].text@.len() == best_len && j <= b)
                },
                None => forall|j: int|
                    0 <= j < i ==> !continues(#[trigger] idle_slots@[j], prompt@),
            },
        decreases idle_slots.len() - i,
    {
        let own: Vec<char> = text::to_chars(idle_slots[i].text.as_str());
        if own.len() > 0 && text::starts_with(&wanted, &own) {
            match best {
                Some(_) => {
                    if own.len() >= best_len {
                        best = Some(i);
                        best_len = own.len();
                    }
                },
                None => {
                    best = Some(i);
                    best_len = own.len();
                },
            }
        }
        i = i + 1;
    }
    best
}

/// The checkpoint's token vector is not empty and a prefix of `tokens`.
pub open spec fn covers(c: PromptCheckpoint, tokens: Seq<i32>) -> bool {
    &&& c.tokens@.len() > 0
    &&& c.tokens@.len() <= tokens.len()
    &&& tokens.take(c.tokens@.len() as int) == c.tokens@
}

/// `i` is the last of the longest checkpoints that are a prefix of `tokens`.
pub open spec fn is_best_checkpoint(
    checkpoints: Seq<PromptCheckpoint>,
    tokens: Seq<i32>,
    i: int,
) -> bool {
    &&& 0 <= i < checkpoints.len()
    &&& covers(checkpoints[i], tokens)
    &&& forall|j: int|
        0 <= j < checkpoints.len() && covers(#[trigger] checkpoints[j], tokens)
            ==> checkpoints[j].tokens@.len() < checkpoints[i].tokens@.len() || (
        checkpoints[j].tokens@.len() == checkpoints[i].tokens@.len() && j <= i)
}

/// No checkpoint is a prefix of `tokens`.
pub open spec fn none_covers(checkpoints: Seq<PromptCheckpoint>, tokens: Seq<i32>) -> bool {
    forall|j: int| 0 <= j < checkpoints.len() ==> !covers(#[trigger] checkpoints[j], tokens)
}

/// The position of the best checkpoint, see [`best_checkpoint`].
pub fn best_checkpoint_index(checkpoints: &[PromptCheckpoint], tokens: &[i32]) -> (r: Option<usize>)
    ensures
        match r {
            Some(i) => is_best_checkpoint(checkpoints@, tokens@, i as int),
            None => none_covers(checkpoints@, tokens@),
        },
{
    let mut best: Option<usize> = None;
    let mut best_len: usize = 0;
    let mut i: usize = 0;
    while i < checkpoints.len()
        invariant
            i <= checkpoints@.len(),
            match best {
                Some(b) => {
                    &&& b < i
                    &&& covers(checkpoints@[b as int], tokens@)
                    &&& best_len == checkpoints@[b as int].tokens@.len()
                    &&& forall|j: int|
                        0 <= j < i && covers(#[trigger] checkpoints@[j], tokens@)
                            ==> checkpoints@[j].tokens@.len() < best_len || (
                        checkpoints@[j].tokens@.len() == best_len && j <= b)
                },
                None => forall|j: int|
                    0 <= j < i ==> !covers(#[trigger] checkpoints@[j], tokens@),
            },
        decreases checkpoints.len() - i,
    {
        let own: &Vec<i32> = &checkpoints[i].tokens;
        let n: usize = common_prefix_len(own, tokens);
        proof {
            assert(own@.take(own@.len() as int) =~= own@);
            if n < own@.len() && own@.len() <= tokens@.len() {
                assert(tokens@.take(own@.len() as int)[n as int] == tokens@[n as int]);
            }
            assert((own@.len() > 0 && n == own@.len()) == covers(checkpoints@[i as int], tokens@));
        }
        if own.len() > 0 && n == own.len() {
            match best {
                Some(_) => {
                    if n >= best_len {
                        best = Some(i);
                        best_len = n;
                    }
                },
                None => {
                    best = Some(i);
                    best_len = n;
                },
            }
        }
        i = i + 1;
    }
    best
}

/// The best checkpoint (if any) whose full token vector is an exact prefix
/// of `tokens` — the longest one wins. A checkpoint is a point-in-time
/// snapshot, so any divergence within its own span makes it unusable.
pub fn best_checkpoint<'a>(checkpoints: &'a [PromptCheckpoint], tokens: &[i32]) -> (r: Option<
    &'a PromptCheckpoint,
>)
    ensures
        match r {
            Some(c) => exists|i: int| #[trigger]
                is_best_checkpoint(checkpoints@, tokens@, i) && *c == checkpoints@[i],
            None => none_covers(checkpoints@, tokens@),
        },
{
    match best_checkpoint_index(checkpoints, tokens) {
        Some(i) => Some(&checkpoints[i]),
        None => None,
    }
}

/// The snapshot of a sequence whose state takes `buf.len()` bytes and of which
/// `written` bytes were captured. A state of no size, or a capture that wrote
/// nothing or more than there was room for, makes no checkpoint.
pub fn take_checkpoint(buf: Vec<u8>, written: usize, tokens: Vec<i32>, now: u64) -> (r: Option<
    PromptCheckpoint,
>)
    ensures
        r is Some <==> 0 < written <= buf@.len(),
        r matches Some(c) ==> c.tokens@ == tokens@ && c.state@ == buf@.take(written as int)
            && c.created_at == now,
{
    if buf.len() == 0 || written == 0 || written > buf.len() {
        return None;
    }
    let mut state: Vec<u8> = buf;
    state.truncate(written);
    assert(state@ =~= buf@.take(written as int));
    Some(PromptCheckpoint { tokens, state, created_at: now })
}

/// A new checkpoint is wanted: checkpointing is on, there is something to
/// keep, and enough tokens lie beyond the closest checkpoint of the same
/// lineage.
pub open spec fn checkpoint_wanted(
    checkpoints: Seq<PromptCheckpoint>,
    tokens: Seq<i32>,
    config: SchedulerConfig,
) -> bool {
    &&& config.ctx_checkpoints > 0
    &&& tokens.len() > 0
    &&& none_covers(checkpoints, tokens) || exists|i: int| #[trigger]
        is_best_checkpoint(checkpoints, tokens, i) && tokens.len() - checkpoints[i].tokens@.len()
            >= config.checkpoint_min_step
}

/// Whether to capture the state of a sequence that has just finished with
/// `tokens` resident.
pub fn checkpoint_due(
    checkpoints: &[PromptCheckpoint],
    tokens: &[i32],
    config: &SchedulerConfig,
) -> (r: bool)
    ensures
        r == checkpoint_wanted(checkpoints@, tokens@, *config),
{
    if config.ctx_checkpoints == 0 || tokens.len() == 0 {
        return false;
    }
    match best_checkpoint_index(checkpoints, tokens) {
        Some(i) => {
            let far: usize = tokens.len() - checkpoints[i].tokens.len();
            let r: bool = far as u64 >= config.checkpoint_min_step as u64;
            proof {
                assert(covers(checkpoints@[i as int], tokens@));
                assert forall|k: int| is_best_checkpoint(checkpoints@, tokens@, k) implies k == i by {
                    assert(covers(checkpoints@[k], tokens@));
                }
            }
            r
        },
        None => true,
    }
}

/// `i` is the first of the oldest checkpoints.
pub open spec fn is_oldest_checkpoint(checkpoints: Seq<PromptCheckpoint>, i: int) -> bool {
    &&& 0 <= i < checkpoints.len()
    &&& forall|j: int|
        0 <= j < i ==> checkpoints[i].created_at < (#[trigger] checkpoints[j]).created_at
    &&& forall|j: int|
        i < j < checkpoints.len() ==> checkpoints[i].created_at <= (
        #[trigger] checkpoints[j]).created_at
}

/// The pool after a checkpoint has been added to it: a full pool first gives
/// up its oldest checkpoint.
pub open spec fn stored(
    before: Seq<PromptCheckpoint>,
    added: PromptCheckpoint,
    limit: usize,
    after: Seq<PromptCheckpoint>,
) -> bool {
    if before.len() >= limit && before.len() > 0 {
        exists|i: int| #[trigger]
            is_oldest_checkpoint(before, i) && after == swap_removed(before, i).push(added)
    } else {
        after == before.push(added)
    }
}

pub fn store_checkpoint(
    checkpoints: &mut Vec<PromptCheckpoint>,
    added: PromptCheckpoint,
    limit: usize,
)
    ensures
        stored(old(checkpoints)@, added, limit, final(checkpoints)@),
{
    let ghost before = checkpoints@;
    if checkpoints.len() >= limit && checkpoints.len() > 0 {
        let mut best: usize = 0;
        let mut i: usize = 1;
        while i < checkpoints.len()
            invariant
                checkpoints@ == before,
                1 <= i <= before.len(),
                best < i,
                forall|j: int|
                    0 <= j < best ==> before[best as int].created_at < (
                    #[trigger] before[j]).created_at,
                forall|j: int|
                    best < j < i ==> before[best as int].created_at <= (
                    #[trigger] before[j]).created_at,
            decreases checkpoints.len() - i,
        {
            if checkpoints[i].created_at < checkpoints[best].created_at {
                best = i;
            }
            i = i + 1;
        }
        assert(is_oldest_checkpoint(before, best as int));
        let _ = checkpoints.swap_remove(best);
    }
    checkpoints.push(added);
}

/// State for a single active sequence being decoded.
#[derive(Debug)]
pub struct ActiveSequence {
    pub seq_id: i32,
    /// Hold-back buffer for streaming stop-sequence detection.
    pub pending: String,
    pub tokens_prompt: u32,
    pub tokens_generated: u32,
    pub max_tokens: u32,
    /// How many tokens are resident in this sequence's KV cache.
    pub n_past: u32,
    pub stop_sequences: Vec<String>,
    /// Substrings silently elided from the streamed output.
    pub filter_sequences: Vec<String>,
    /// Reading of the clock when the request was taken up.
    pub start: u64,
    /// Set to true once the initial prompt has been prefilled.
    pub prefilled: bool,
    /// The last token sampled (used to feed the next decode step).
    pub last_token: Option<i32>,
    /// The full prompt token sequence for this turn.
    pub prompt_tokens: Vec<i32>,
    /// Every token sampled this turn, but for the one that ended it.
    pub generated_tokens: Vec<i32>,
    /// The exact request prompt text this turn was given.
    pub prompt_text: String,
    /// Every text piece this turn has produced, one per generated token.
    pub raw_generated_pieces: Vec<String>,
}

/// The texts of `v` one after the other.
pub open spec fn run_together(v: Seq<String>) -> Seq<char> {
    output::whole(text::views(v))
}

impl ActiveSequence {
    /// The token history resident in the KV cache: what was sampled but never
    /// decoded is left out.
    pub open spec fn resident(self) -> Seq<i32> {
        let full = self.prompt_tokens@ + self.generated_tokens@;
        if self.n_past < full.len() {
            full.take(self.n_past as int)
        } else {
            full
        }
    }

    /// How many of the generated pieces belong to the resident history.
    pub open spec fn resident_pieces(self) -> int {
        let full = self.prompt_tokens@.len() + self.generated_tokens@.len();
        let extra = full - self.n_past;
        if self.raw_generated_pieces@.len() < extra {
            0
        } else {
            self.raw_generated_pieces@.len() - extra
        }
    }

    /// The text whose tokenization is the resident history.
    pub open spec fn resident_words(self) -> Seq<char> {
        let full = self.prompt_tokens@.len() + self.generated_tokens@.len();
        if self.n_past < self.prompt_tokens@.len() || self.n_past > full {
            Seq::empty()
        } else {
            self.prompt_text@ + run_together(
                self.raw_generated_pieces@.take(self.resident_pieces()),
            )
        }
    }
}

/// Build the token history actually resident in `seq`'s KV cache right now,
/// for caching as a reusable `CachedSlot` on a clean completion.
pub fn resident_tokens(seq: &ActiveSequence) -> (r: Vec<i32>)
    ensures
        r@ == seq.resident(),
{
    let mut full: Vec<i32> = seq.prompt_tokens.clone();
    full.extend_from_slice(&seq.generated_tokens);
    assert(full@ =~= seq.prompt_tokens@ + seq.generated_tokens@);
    if (seq.n_past as u64) < full.len() as u64 {
        let n: usize = seq.n_past as usize;
        let ghost whole = full@;
        full.truncate(n);
        assert(full@ =~= whole.take(n as int));
    }
    full
}

/// Text companion to `resident_tokens`: the exact text whose tokenization
/// is `resident_tokens(seq)`.
pub fn resident_text(seq: &ActiveSequence) -> (r: String)
    ensures
        r@ == seq.resident_words(),
{
    let n_prompt: u64 = seq.prompt_tokens.len() as u64;
    let n_made: u64 = seq.generated_tokens.len() as u64;
    let n_past: u64 = seq.n_past as u64;
    if n_past < n_prompt || n_past - n_prompt > n_made {
        return String::new();
    }
    let extra: u64 = n_made - (n_past - n_prompt);
    let pieces: &Vec<String> = &seq.raw_generated_pieces;
    let keep: usize = if (pieces.len() as u64) < extra {
        0
    } else {
        pieces.len() - extra as usize
    };
    let mut r: String = seq.prompt_text.clone();
    let mut i: usize = 0;
    assert(text::views(pieces@.take(0)) =~= Seq::empty());
    assert(r@ =~= seq.prompt_text@ + run_together(pieces@.take(0)));
    while i < keep
        invariant
            i <= keep <= pieces@.len(),
            r@ == seq.prompt_text@ + run_together(pieces@.take(i as int)),
        decreases keep - i,
    {
        r.append(pieces[i].as_str());
        proof {
            let a = text::views(pieces@.take(i + 1));
            assert(a.drop_last() =~= text::views(pieces@.take(i as int)));
            assert(r@ =~= seq.prompt_text@ + run_together(pieces@.take(i + 1)));
        }
        i = i + 1;
    }
    r
}

/// What sampling a sequence's next token brought.
#[derive(Debug)]
pub enum Sampled {
    /// An end-of-generation token.
    Eog,
    /// A token and its text.
    Piece { token: i32, piece: String },
    /// A token that could not be turned into text.
    Untranslatable { token: i32 },
}

/// What to do with a sequence next.
#[derive(Debug)]
pub enum Verdict {
    /// Clean completion: send the text where there is any, report the end, and
    /// keep what is resident for reuse.
    Finish { text: String, reason: StopReason },
    /// Report the end, and clear the sequence's cache, which is suspect.
    Abandon,
    /// Hand the text to the client, and tell how that went.
    Deliver { text: String },
    /// The client has gone: clear the sequence's cache.
    Disconnected,
    /// Decode the sequence's last token.
    Continue,
}

/// What a turn keeps from beginning to end.
pub open spec fn same_turn(a: ActiveSequence, b: ActiveSequence) -> bool {
    &&& a.seq_id == b.seq_id
    &&& a.tokens_prompt == b.tokens_prompt
    &&& a.max_tokens == b.max_tokens
    &&& a.stop_sequences == b.stop_sequences
    &&& a.filter_sequences == b.filter_sequences
    &&& a.start == b.start
    &&& a.prefilled == b.prefilled
    &&& a.prompt_tokens == b.prompt_tokens
    &&& a.prompt_text == b.prompt_text
}

/// The piece has been fed to the sequence's output filter.
pub open spec fn piece_fed(a: ActiveSequence, piece: Seq<char>) -> output::Fed {
    output::fed(
        a.pending@ + piece,
        text::views(a.stop_sequences@),
        text::views(a.filter_sequences@),
    )
}

/// One more token, with its text, has been generated.
pub open spec fn grown(
    a: ActiveSequence,
    b: ActiveSequence,
    token: i32,
    pieces: Seq<Seq<char>>,
) -> bool {
    &&& same_turn(a, b)
    &&& b.tokens_generated == a.tokens_generated + 1
    &&& b.generated_tokens@ == a.generated_tokens@.push(token)
    &&& text::views(b.raw_generated_pieces@) == text::views(a.raw_generated_pieces@) + pieces
}

/// A sequence whose prompt has been decoded and of which nothing has been
/// sampled yet.
pub open spec fn ready(a: ActiveSequence) -> bool {
    &&& a.prefilled
    &&& a.prompt_tokens@.len() > 0
    &&& a.tokens_prompt == a.prompt_tokens@.len()
    &&& a.n_past == a.tokens_prompt
    &&& a.tokens_generated == 0
    &&& a.generated_tokens@.len() == 0
    &&& a.raw_generated_pieces@.len() == 0
    &&& a.tokens_prompt + a.max_tokens <= u32::MAX
}

/// A sequence that waits for its last token to be decoded: all but that token
/// is resident, every token has its text, and the budget is not used up.
pub open spec fn running(a: ActiveSequence) -> bool {
    &&& a.prefilled
    &&& a.prompt_tokens@.len() > 0
    &&& a.tokens_prompt == a.prompt_tokens@.len()
    &&& a.last_token == Some(a.generated_tokens@.last())
    &&& 0 < a.tokens_generated < a.max_tokens
    &&& a.generated_tokens@.len() == a.tokens_generated
    &&& a.raw_generated_pieces@.len() == a.tokens_generated
    &&& a.n_past == a.tokens_prompt + a.tokens_generated - 1
    &&& a.tokens_prompt + a.max_tokens <= u32::MAX
}

/// A sequence whose newest token has been sampled and whose text was handed to
/// the client, before it is known how that went.
pub open spec fn offered(a: ActiveSequence) -> bool {
    &&& a.prefilled
    &&& a.prompt_tokens@.len() > 0
    &&& a.tokens_prompt == a.prompt_tokens@.len()
    &&& 0 < a.tokens_generated <= a.max_tokens
    &&& a.generated_tokens@.len() == a.tokens_generated
    &&& a.raw_generated_pieces@.len() == a.tokens_generated
    &&& a.n_past == a.tokens_prompt + a.tokens_generated - 1
    &&& a.tokens_prompt + a.max_tokens <= u32::MAX
}

/// Records a token and its text, and feeds the text to the output filter.
fn take_piece(seq: &mut ActiveSequence, token: i32, piece: &String) -> (r: PieceOutcome)
    requires
        old(seq).tokens_generated < u32::MAX,
    ensures
        grown(*old(seq), *final(seq), token, seq![piece@]),
        final(seq).raw_generated_pieces@.len() == old(seq).raw_generated_pieces@.len() + 1,
        final(seq).n_past == old(seq).n_past,
        final(seq).last_token == old(seq).last_token,
        match piece_fed(*old(seq), piece@) {
            output::Fed::Stop { out } => {
                &&& r matches PieceOutcome::Stop(s)
                &&& s@ == out
                &&& final(seq).pending@ == Seq::<char>::empty()
            },
            output::Fed::Emit { out, held } => {
                &&& r matches PieceOutcome::Emit(s)
                &&& s@ == out
                &&& final(seq).pending@ == held
            },
        },
{
    seq.tokens_generated = seq.tokens_generated + 1;
    seq.generated_tokens.push(token);
    seq.raw_generated_pieces.push(piece.clone());
    proof {
        assert(text::views(seq.raw_generated_pieces@) =~= text::views(
            old(seq).raw_generated_pieces@,
        ) + seq![piece@]);
    }
    output::process_piece(
        &mut seq.pending,
        &seq.stop_sequences,
        &seq.filter_sequences,
        piece.as_str(),
    )
}

/// The first token of a turn, sampled from the logits of the prompt.
///
/// A stop sequence or an exhausted budget ends the turn at once; otherwise its
/// text is to be delivered.
pub fn first_token(seq: &mut ActiveSequence, sampled: &Sampled) -> (r: Verdict)
    requires
        ready(*old(seq)),
    ensures
        final(seq).n_past == old(seq).n_past,
        match sampled {
            Sampled::Eog => {
                &&& *final(seq) == *old(seq)
                &&& r matches Verdict::Finish { text, reason }
                &&& text@.len() == 0
                &&& reason == StopReason::Stop
            },
            Sampled::Untranslatable { token } => {
                &&& grown(*old(seq), *final(seq), *token, seq![])
                &&& final(seq).pending == old(seq).pending
                &&& r is Abandon
            },
            Sampled::Piece { token, piece } => {
                &&& grown(*old(seq), *final(seq), *token, seq![piece@])
                &&& final(seq).raw_generated_pieces@.len() == 1
                &&& match piece_fed(*old(seq), piece@) {
                    output::Fed::Stop { out } => {
                        &&& r matches Verdict::Finish { text, reason }
                        &&& text@ == out
                        &&& reason == StopReason::Stop
                        &&& final(seq).pending@.len() == 0
                    },
                    output::Fed::Emit { out, held } => if old(seq).max_tokens <= 1 {
                        &&& r matches Verdict::Finish { text, reason }
                        &&& text@ == out + held
                        &&& reason == StopReason::Length
                        &&& final(seq).pending@.len() == 0
                    } else {
                        &&& r matches Verdict::Deliver { text }
                        &&& text@ == out
                        &&& final(seq).pending@ == held
                        &&& offered(*final(seq))
                    },
                }
            },
        },
{
    match sampled {
        Sampled::Eog => Verdict::Finish { text: String::new(), reason: StopReason::Stop },
        Sampled::Untranslatable { token } => {
            seq.tokens_generated = seq.tokens_generated + 1;
            seq.generated_tokens.push(*token);
            assert(text::views(seq.raw_generated_pieces@) =~= text::views(
                old(seq).raw_generated_pieces@,
            ) + seq![]);
            Verdict::Abandon
        },
        Sampled::Piece { token, piece } => match take_piece(seq, *token, piece) {
            PieceOutcome::Stop(out) => Verdict::Finish { text: out, reason: StopReason::Stop },
            PieceOutcome::Emit(out) => {
                if seq.tokens_generated >= seq.max_tokens {
                    let tail: String = output::flush(&mut seq.pending);
                    let mut all: String = out;
                    all.append(tail.as_str());
                    Verdict::Finish { text: all, reason: StopReason::Length }
                } else {
                    Verdict::Deliver { text: out }
                }
            },
        },
    }
}

/// What [`next_token`] makes of a sequence, and its verdict.
pub open spec fn stepped(a: ActiveSequence, sampled: Sampled, b: ActiveSequence, r: Verdict) -> bool {
    &&& b.n_past == a.n_past + 1
    &&& match sampled {
        Sampled::Eog => {
            &&& same_turn(a, b)
            &&& b.tokens_generated == a.tokens_generated
            &&& b.generated_tokens == a.generated_tokens
            &&& b.raw_generated_pieces == a.raw_generated_pieces
            &&& b.pending == a.pending
            &&& r matches Verdict::Finish { text, reason }
            &&& text@.len() == 0
            &&& reason == StopReason::Stop
        },
        Sampled::Untranslatable { token } => {
            &&& grown(a, b, token, seq![])
            &&& b.pending == a.pending
            &&& r is Abandon
        },
        Sampled::Piece { token, piece } => {
            &&& grown(a, b, token, seq![piece@])
            &&& offered(b)
            &&& match piece_fed(a, piece@) {
                output::Fed::Stop { out } => {
                    &&& r matches Verdict::Finish { text, reason }
                    &&& text@ == out
                    &&& reason == StopReason::Stop
                    &&& b.pending@.len() == 0
                },
                output::Fed::Emit { out, held } => {
                    &&& r matches Verdict::Deliver { text }
                    &&& text@ == out
                    &&& b.pending@ == held
                },
            }
        },
    }
}

/// The next token of a turn, sampled after the sequence's last token has been
/// decoded — which makes that token resident, whatever comes next.
pub fn next_token(seq: &mut ActiveSequence, sampled: &Sampled) -> (r: Verdict)
    requires
        running(*old(seq)),
    ensures
        stepped(*old(seq), *sampled, *final(seq), r),
{
    seq.n_past = seq.n_past + 1;
    let ghost bumped = *seq;
    match sampled {
        Sampled::Eog => Verdict::Finish { text: String::new(), reason: StopReason::Stop },
        Sampled::Untranslatable { token } => {
            seq.tokens_generated = seq.tokens_generated + 1;
            seq.generated_tokens.push(*token);
            assert(text::views(seq.raw_generated_pieces@) =~= text::views(
                bumped.raw_generated_pieces@,
            ) + seq![]);
            Verdict::Abandon
        },
        Sampled::Piece { token, piece } => match take_piece(seq, *token, piece) {
            PieceOutcome::Stop(out) => Verdict::Finish { text: out, reason: StopReason::Stop },
            PieceOutcome::Emit(out) => Verdict::Deliver { text: out },
        },
    }
}

/// What [`after_delivery`] makes of a sequence, and its verdict.
pub open spec fn delivered(
    a: ActiveSequence,
    disconnected: bool,
    b: ActiveSequence,
    r: Verdict,
) -> bool {
    &&& same_turn(a, b)
    &&& b.n_past == a.n_past
    &&& b.tokens_generated == a.tokens_generated
    &&& b.generated_tokens == a.generated_tokens
    &&& b.raw_generated_pieces == a.raw_generated_pieces
    &&& if disconnected {
        r is Disconnected && b == a
    } else if a.tokens_generated >= a.max_tokens {
        &&& r matches Verdict::Finish { text, reason }
        &&& text@ == a.pending@
        &&& reason == StopReason::Length
        &&& b.pending@.len() == 0
    } else {
        &&& r is Continue
        &&& b.pending == a.pending
        &&& running(b)
    }
}

/// How a delivery settles a sequence: a client that has gone ends it, and so
/// does an exhausted budget, whose held-back text the client is still owed.
pub fn after_delivery(seq: &mut ActiveSequence, disconnected: bool) -> (r: Verdict)
    requires
        offered(*old(seq)),
    ensures
        delivered(*old(seq), disconnected, *final(seq), r),
{
    if disconnected {
        return Verdict::Disconnected;
    }
    if seq.tokens_generated >= seq.max_tokens {
        let tail: String = output::flush(&mut seq.pending);
        return Verdict::Finish { text: tail, reason: StopReason::Length };
    }
    let n: usize = seq.generated_tokens.len();
    seq.last_token = Some(seq.generated_tokens[n - 1]);
    Verdict::Continue
}

/// The state of a client's channel after an attempt to send.
#[derive(Debug, Clone, Copy, PartialEq, Eq, Structural)]
pub enum Delivery {
    Sent,
    /// The channel is full: a slow client, still connected. The text is lost.
    Full,
    /// The receiver was dropped.
    Closed,
}

/// Whether an attempt to deliver text found the client gone. A full channel
/// is no disconnect; an empty text is not sent, and only the channel's state
/// counts.
pub fn detect_disconnect(is_empty: bool, channel_closed: bool, delivery: Delivery) -> (r: bool)
    ensures
        r == if is_empty {
            channel_closed
        } else {
            delivery == Delivery::Closed
        },
{
    if is_empty {
        channel_closed
    } else {
        match delivery {
            Delivery::Closed => true,
            _ => false,
        }
    }
}

/// The prefill of a prompt, once it is known to fit.
#[derive(Debug)]
pub struct Prefill {
    pub tokens_prompt: u32,
    pub n_past: u32,
    pub max_tokens: u32,
    /// The position ranges to decode, in order.
    pub chunks: Vec<(usize, usize)>,
}

/// Plans the decoding of the unreused suffix of a prompt: positions from
/// `reuse_len` on, in chunks that the batch size allows. The context budget
/// counts every token of the prompt, reused or not.
pub fn plan_prefill(
    num_ctx: Option<u32>,
    max_tokens: u32,
    per_seq_ctx: u32,
    n_batch: u32,
    n_tokens: usize,
    reuse_len: usize,
) -> (r: Result<Prefill, String>)
    requires
        n_batch > 0,
        reuse_len <= n_tokens,
    ensures
        ({
            let context = context_budget(num_ctx, per_seq_ctx);
            if n_tokens < context {
                &&& r matches Ok(p)
                &&& p.tokens_prompt == n_tokens
                &&& p.n_past == n_tokens
                &&& p.max_tokens == output_budget(
                    n_tokens as int,
                    context as int,
                    max_tokens as int,
                )
                &&& chunked(p.chunks@, reuse_len as int, n_tokens as int, n_batch as int)
            } else {
                &&& r matches Err(m)
                &&& m@ == too_long_message(n_tokens as nat, context as nat)
            }
        }),
{
    match plan_budget(num_ctx, per_seq_ctx, n_tokens, max_tokens) {
        Ok(budget) => {
            let chunks: Vec<(usize, usize)> = prefill_chunks(reuse_len, n_tokens, n_batch as usize);
            Ok(
                Prefill {
                    tokens_prompt: n_tokens as u32,
                    n_past: n_tokens as u32,
                    max_tokens: budget,
                    chunks,
                },
            )
        },
        Err(context) => Err(too_long(n_tokens as u64, context)),
    }
}

/// The message for a cache that cannot be rolled back to a shared prefix.
pub open spec fn rollback_message(seq_id: int, reuse_len: nat) -> Seq<char> {
    "Seq "@ + text::signed_decimal(seq_id) + ": KV-cache rollback to reuse_len="@ + text::decimal(
        reuse_len,
    )
        + " was rejected (likely a recurrent/hybrid model architecture); reuse is unsafe here"@
}

/// Whether the cache was trimmed to the reused prefix. Clearing it whole always
/// succeeds, so only a kept prefix can be refused.
pub fn check_rollback(seq_id: i32, reuse_len: usize, cleared: bool) -> (r: Result<(), String>)
    ensures
        r is Err <==> reuse_len > 0 && !cleared,
        r matches Err(m) ==> m@ == rollback_message(seq_id as int, reuse_len as nat),
{
    if reuse_len > 0 && !cleared {
        let mut m: String = text::copy_text("Seq ");
        m.append(text::signed_text(seq_id as i64).as_str());
        m.append(": KV-cache rollback to reuse_len=");
        m.append(text::decimal_text(reuse_len as u64).as_str());
        m.append(
            " was rejected (likely a recurrent/hybrid model architecture); reuse is unsafe here",
        );
        return Err(m);
    }
    Ok(())
}

/// How a failed prefill goes on.
#[derive(Debug, PartialEq, Eq, Clone, Copy, Structural)]
pub enum Retry {
    /// Nothing was reused: the failure stands.
    GiveUp,
    /// Clear the slot, restore the checkpoint at this index, and prefill
    /// behind it — from the start if it cannot be restored.
    Restore { index: usize, reuse_len: usize },
    /// Clear the slot and prefill from the start.
    FromStart,
}

/// A prefill that reused a prefix and failed is tried once more, from the
/// longest checkpoint that the prompt continues, or from the start.
pub fn plan_retry(checkpoints: &[PromptCheckpoint], tokens: &[i32], reuse_len: usize) -> (r: Retry)
    ensures
        match r {
            Retry::GiveUp => reuse_len == 0,
            Retry::Restore { index, reuse_len: n } => reuse_len > 0 && is_best_checkpoint(
                checkpoints@,
                tokens@,
                index as int,
            ) && n == checkpoints@[index as int].tokens@.len() && n <= tokens@.len(),
            Retry::FromStart => reuse_len > 0 && none_covers(checkpoints@, tokens@),
        },
{
    if reuse_len == 0 {
        return Retry::GiveUp;
    }
    match best_checkpoint_index(checkpoints, tokens) {
        Some(i) => {
            assert(covers(checkpoints@[i as int], tokens@));
            Retry::Restore { index: i, reuse_len: checkpoints[i].tokens.len() }
        },
        None => Retry::FromStart,
    }
}

/// The queue of requests, as last seen.
#[derive(Debug, Clone, Copy, PartialEq, Eq, Structural)]
pub enum Queue {
    /// Not looked at in this iteration.
    Unread,
    Request,
    Empty,
    Disconnected,
}

/// What the scheduler's loop does next.
#[derive(Debug, Clone, Copy, PartialEq, Eq, Structural)]
pub enum Move {
    /// Tell every active client that the server is shutting down, and end.
    ShutDown,
    /// Look at the queue.
    Poll,
    /// Take up the request.
    Admit,
    /// Wait for work.
    Wait,
    /// Decode one token for every active sequence.
    Decode,
}

/// Where a request starts from.
#[derive(Debug)]
pub enum Route {
    /// The prompt continues the text of the idle slot at this index: only the
    /// rest of it needs to be tokenized.
    Continue { slot: usize, suffix: String },
    /// The whole prompt needs to be tokenized.
    Fresh,
}

/// A request that has been given a slot.
#[derive(Debug)]
pub struct Admitted {
    pub tokens: Vec<i32>,
    pub seq_id: i32,
    /// How many leading tokens are resident already.
    pub reuse_len: usize,
}

/// Why a request was not given a slot.
#[derive(Debug, Clone, Copy, PartialEq, Eq, Structural)]
pub enum AdmitError {
    /// The prompt has no token to produce logits from.
    EmptyPrompt,
    /// Every slot is taken.
    NoSlot,
}

/// The scheduler's own state.
#[derive(Debug)]
pub struct Scheduler {
    pub config: SchedulerConfig,
    /// The context each sequence may use.
    pub per_seq_ctx: u32,
    pub active: Vec<ActiveSequence>,
    pub idle_slots: Vec<CachedSlot>,
    pub checkpoints: Vec<PromptCheckpoint>,
    /// Indices into `active` of the sequences that this round has ended, and
    /// the slots they leave behind.
    pub finished: Vec<usize>,
    pub retired: Vec<CachedSlot>,
}

pub open spec fn slot_ids(slots: Seq<CachedSlot>) -> Seq<i32> {
    slots.map_values(|s: CachedSlot| s.seq_id)
}

pub open spec fn sequence_ids(seqs: Seq<ActiveSequence>) -> Seq<i32> {
    seqs.map_values(|s: ActiveSequence| s.seq_id)
}

/// What is resident in a slot is the tokenization of its text: where there is
/// text, there are tokens.
pub open spec fn slot_ok(s: CachedSlot) -> bool {
    s.text@.len() > 0 ==> s.tokens@.len() > 0
}

/// `active` after the sequences at `finished` have been removed, last first,
/// each by moving the last sequence into its place.
pub open spec fn swept(active: Seq<ActiveSequence>, finished: Seq<usize>) -> Seq<ActiveSequence>
    decreases finished.len(),
{
    if finished.len() == 0 {
        active
    } else {
        swept(swap_removed(active, finished.last() as int), finished.drop_last())
    }
}

/// `s` is one of the sequences that have not ended.
pub open spec fn is_unfinished(
    s: ActiveSequence,
    active: Seq<ActiveSequence>,
    finished: Seq<usize>,
) -> bool {
    exists|i: int|
        0 <= i < active.len() && !finished.contains(i as usize) && s == #[trigger] active[i]
}

impl Scheduler {
    /// The sequence ids that are idle or active.
    pub open spec fn ids(self) -> Seq<i32> {
        slot_ids(self.idle_slots@) + sequence_ids(self.active@)
    }

    /// Every slot is in exactly one place, `out` of them being held by a
    /// request that is being taken up.
    pub open spec fn slots_conserved(self, out: int) -> bool {
        &&& self.ids().no_duplicates()
        &&& forall|i: int|
            0 <= i < self.ids().len() ==> 0 <= #[trigger] self.ids()[i]
                < self.config.max_batch_size
        &&& self.ids().len() + out == self.config.max_batch_size
    }

    /// The sequences ended in this round, in order, and their slots.
    pub open spec fn round_ok(self) -> bool {
        &&& self.finished@.len() == self.retired@.len()
        &&& forall|k: int|
            0 <= k < self.finished@.len() ==> {
                &&& (#[trigger] self.finished@[k]) < self.active@.len()
                &&& self.retired@[k].seq_id == self.active@[self.finished@[k] as int].seq_id
                &&& slot_ok(self.retired@[k])
            }
        &&& forall|j: int, k: int|
            0 <= j < k < self.finished@.len() ==> self.finished@[j] < self.finished@[k]
    }

    /// The scheduler's invariant; `out` slots are held by a request that is
    /// being taken up.
    pub open spec fn wf(self, out: int) -> bool {
        &&& 0 < self.config.max_batch_size <= i32::MAX
        &&& self.slots_conserved(out)
        &&& self.round_ok()
        &&& forall|i: int| 0 <= i < self.idle_slots@.len() ==> slot_ok(#[trigger] self.idle_slots@[i])
    }

    /// No round is under way.
    pub open spec fn settled(self) -> bool {
        self.finished@.len() == 0
    }

    /// A scheduler with all its slots idle, the context shared out evenly.
    pub fn new(config: SchedulerConfig, context_size: u32, now: u64) -> (r: Scheduler)
        requires
            0 < config.max_batch_size <= i32::MAX,
        ensures
            r.config == config,
            r.per_seq_ctx == context_size as int / config.max_batch_size as int,
            r.active@.len() == 0,
            r.checkpoints@.len() == 0,
            r.idle_slots@.len() == config.max_batch_size,
            forall|i: int|
                0 <= i < config.max_batch_size ==> (#[trigger] r.idle_slots@[i]).is_wiped(
                    i as i32,
                    now,
                ),
            r.wf(0),
            r.settled(),
    {
        let per_seq_ctx: u32 = context_size / config.max_batch_size as u32;
        let mut idle_slots: Vec<CachedSlot> = Vec::new();
        let mut i: usize = 0;
        while i < config.max_batch_size
            invariant
                i <= config.max_batch_size <= i32::MAX,
                idle_slots@.len() == i,
                forall|j: int|
                    0 <= j < i ==> (#[trigger] idle_slots@[j]).is_wiped(j as i32, now),
            decreases config.max_batch_size - i,
        {
            idle_slots.push(CachedSlot::wiped(i as i32, now));
            i = i + 1;
        }
        let r: Scheduler = Scheduler {
            config,
            per_seq_ctx,
            active: Vec::new(),
            idle_slots,
            checkpoints: Vec::new(),
            finished: Vec::new(),
            retired: Vec::new(),
        };
        assert forall|j: int| 0 <= j < r.ids().len() implies #[trigger] r.ids()[j] == j by {
            assert(r.idle_slots@[j].is_wiped(j as i32, now));
        }
        r
    }

    /// What the loop does next. Shutdown is looked at before the queue.
    pub fn next_move(&self, shutdown: bool, queue: Queue) -> (r: Move)
        requires
            self.config.max_batch_size > 0,
        ensures
            r == if queue == Queue::Unread && shutdown {
                Move::ShutDown
            } else if self.active@.len() < self.config.max_batch_size && queue == Queue::Unread {
                Move::Poll
            } else if self.active@.len() < self.config.max_batch_size && queue == Queue::Request {
                Move::Admit
            } else if self.active@.len() < self.config.max_batch_size && queue
                == Queue::Disconnected {
                Move::ShutDown
            } else if self.active@.len() == 0 {
                Move::Wait
            } else {
                Move::Decode
            },
    {
        if shutdown {
            if let Queue::Unread = queue {
                return Move::ShutDown;
            }
        }
        if self.active.len() < self.config.max_batch_size {
            match queue {
                Queue::Unread => {
                    return Move::Poll;
                },
                Queue::Request => {
                    return Move::Admit;
                },
                Queue::Disconnected => {
                    return Move::ShutDown;
                },
                Queue::Empty => {},
            }
        }
        if self.active.len() == 0 {
            Move::Wait
        } else {
            Move::Decode
        }
    }

    /// Where a request starts from: the idle slot whose text it continues, if
    /// any.
    pub fn route(&self, prompt: &str) -> (r: Route)
        ensures
            match r {
                Route::Continue { slot, suffix } => is_text_match(
                    self.idle_slots@,
                    prompt@,
                    slot as int,
                ) && prompt@ == self.idle_slots@[slot as int].text@ + suffix@,
                Route::Fresh => forall|j: int|
                    0 <= j < self.idle_slots@.len() ==> !continues(
                        #[trigger] self.idle_slots@[j],
                        prompt@,
                    ),
            },
    {
        match text_prefix_match(&self.idle_slots, prompt) {
            Some(i) => {
                let all: Vec<char> = text::to_chars(prompt);
                let own: Vec<char> = text::to_chars(self.idle_slots[i].text.as_str());
                let rest: &[char] = slice_subrange(&all, own.len(), all.len());
                let suffix: String = text::from_chars(rest);
                assert(prompt@ =~= prompt@.take(own@.len() as int) + suffix@);
                Route::Continue { slot: i, suffix }
            },
            None => Route::Fresh,
        }
    }

    /// Takes up a request whose prompt continues an idle slot's text, the rest
    /// of the prompt having been tokenized.
    pub fn resume(&mut self, slot: usize, suffix_tokens: Vec<i32>) -> (r: Admitted)
        requires
            old(self).wf(0),
            slot < old(self).idle_slots@.len(),
            old(self).idle_slots@[slot as int].text@.len() > 0,
        ensures
            final(self).wf(1),
            final(self).idle_slots@ == swap_removed(old(self).idle_slots@, slot as int),
            final(self).config == old(self).config,
            final(self).per_seq_ctx == old(self).per_seq_ctx,
            final(self).active == old(self).active,
            final(self).checkpoints == old(self).checkpoints,
            final(self).finished == old(self).finished,
            final(self).retired == old(self).retired,
            r.seq_id == old(self).idle_slots@[slot as int].seq_id,
            r.tokens@ == old(self).idle_slots@[slot as int].tokens@ + suffix_tokens@,
            r.tokens@.len() > 0,
            r.reuse_len == reuse_cap(
                old(self).idle_slots@[slot as int].tokens@.len() as int,
                r.tokens@.len() as int,
            ),
            final(self).free_id(r.seq_id),
    {
        let ghost before = *self;
        let taken: CachedSlot = self.idle_slots.swap_remove(slot);
        let base: usize = taken.tokens.len();
        let seq_id: i32 = taken.seq_id;
        let mut tokens: Vec<i32> = taken.tokens;
        tokens.extend_from_slice(&suffix_tokens);
        assert(tokens@ =~= before.idle_slots@[slot as int].tokens@ + suffix_tokens@);
        let reuse_len: usize = if base < tokens.len() - 1 {
            base
        } else {
            tokens.len() - 1
        };
        proof {
            assert(slot_ok(before.idle_slots@[slot as int]));
            lemma_slot_taken(before, *self, slot as int);
        }
        Admitted { tokens, seq_id, reuse_len }
    }

    /// Takes up a request whose whole prompt has been tokenized, in the slot
    /// that suits it best.
    pub fn assign(&mut self, tokens: Vec<i32>) -> (r: Result<Admitted, AdmitError>)
        requires
            old(self).wf(0),
        ensures
            final(self).config == old(self).config,
            final(self).per_seq_ctx == old(self).per_seq_ctx,
            final(self).active == old(self).active,
            final(self).checkpoints == old(self).checkpoints,
            final(self).finished == old(self).finished,
            final(self).retired == old(self).retired,
            tokens@.len() == 0 ==> r == Err::<Admitted, AdmitError>(AdmitError::EmptyPrompt),
            tokens@.len() > 0 && old(self).idle_slots@.len() == 0 ==> r == Err::<
                Admitted,
                AdmitError,
            >(AdmitError::NoSlot),
            r is Err ==> *final(self) == *old(self),
            tokens@.len() > 0 && old(self).idle_slots@.len() > 0 ==> r is Ok,
            r matches Ok(a) ==> {
                &&& final(self).wf(1)
                &&& final(self).free_id(a.seq_id)
                &&& a.tokens@ == tokens@
                &&& exists|i: int| #[trigger]
                    is_pick(old(self).idle_slots@, tokens@, i) && a.seq_id
                        == old(self).idle_slots@[i].seq_id && a.reuse_len == reuse_cap(
                        matched(old(self).idle_slots@[i], tokens@),
                        tokens@.len() as int,
                    ) && final(self).idle_slots@ == swap_removed(old(self).idle_slots@, i)
            },
    {
        if tokens.len() == 0 {
            return Err(AdmitError::EmptyPrompt);
        }
        if self.idle_slots.len() == 0 {
            return Err(AdmitError::NoSlot);
        }
        let ghost before = *self;
        let (seq_id, reuse_len) = pick_slot(&mut self.idle_slots, &tokens);
        proof {
            let i = choose|i: int| #[trigger]
                is_pick(before.idle_slots@, tokens@, i) && seq_id == before.idle_slots@[i].seq_id
                    && reuse_len == reuse_cap(
                    matched(before.idle_slots@[i], tokens@),
                    tokens@.len() as int,
                ) && self.idle_slots@ == swap_removed(before.idle_slots@, i);
            lemma_slot_taken(before, *self, i);
        }
        Ok(Admitted { tokens, seq_id, reuse_len })
    }

    /// The id belongs to the slot that a request is being taken up in.
    pub open spec fn free_id(self, seq_id: i32) -> bool {
        &&& 0 <= seq_id < self.config.max_batch_size
        &&& !self.ids().contains(seq_id)
    }
}

/// Taking a slot out of the idle pool frees its id.
proof fn lemma_slot_taken(a: Scheduler, b: Scheduler, i: int)
    requires
        a.wf(0),
        0 <= i < a.idle_slots@.len(),
        b.idle_slots@ == swap_removed(a.idle_slots@, i),
        b.config == a.config,
        b.active == a.active,
        b.finished == a.finished,
        b.retired == a.retired,
    ensures
        b.wf(1),
        b.free_id(a.idle_slots@[i].seq_id),
{
    let n = a.idle_slots@.len();
    let id = a.idle_slots@[i].seq_id;
    assert(a.ids()[i] == id);
    // Where each remaining id came from.
    let from = |j: int|
        if j == i && i < n - 1 {
            n - 1
        } else if j < n - 1 {
            j
        } else {
            j + 1
        };
    assert forall|j: int| 0 <= j < b.ids().len() implies #[trigger] b.ids()[j] == a.ids()[from(j)]
        && 0 <= from(j) < a.ids().len() && from(j) != i by {}
    assert(b.ids().no_duplicates()) by {
        assert forall|j: int, k: int|
            0 <= j < b.ids().len() && 0 <= k < b.ids().len() && j != k implies b.ids()[j]
            != b.ids()[k] by {
            assert(b.ids()[j] == a.ids()[from(j)]);
            assert(b.ids()[k] == a.ids()[from(k)]);
            assert(from(j) != from(k));
        }
    }
    assert(!b.ids().contains(id)) by {
        if b.ids().contains(id) {
            let j = choose|j: int| 0 <= j < b.ids().len() && b.ids()[j] == id;
            assert(a.ids()[from(j)] == a.ids()[i]);
        }
    }
    assert forall|j: int| 0 <= j < b.idle_slots@.len() implies slot_ok(
        #[trigger] b.idle_slots@[j],
    ) by {
        if j == i {
            assert(slot_ok(a.idle_slots@[n - 1]));
        } else {
            assert(slot_ok(a.idle_slots@[j]));
        }
    }
}

/// A sequence for a request that has been given a slot, its prompt not yet
/// decoded.
pub fn begin(admitted: &Admitted, request: &GenerateRequest, now: u64) -> (r: ActiveSequence)
    ensures
        r.seq_id == admitted.seq_id,
        r.prompt_tokens@ == admitted.tokens@,
        r.prompt_text == request.prompt,
        r.max_tokens == request.max_tokens,
        text::views(r.stop_sequences@) == text::views(request.stop_sequences@),
        text::views(r.filter_sequences@) == text::views(request.filter_sequences@),
        r.start == now,
        r.pending@.len() == 0,
        r.tokens_prompt == 0,
        r.tokens_generated == 0,
        r.n_past == 0,
        !r.prefilled,
        r.last_token is None,
        r.generated_tokens@.len() == 0,
        r.raw_generated_pieces@.len() == 0,
{
    let r: ActiveSequence = ActiveSequence {
        seq_id: admitted.seq_id,
        pending: String::new(),
        tokens_prompt: 0,
        tokens_generated: 0,
        max_tokens: request.max_tokens,
        n_past: 0,
        stop_sequences: text::copy_texts(&request.stop_sequences),
        filter_sequences: text::copy_texts(&request.filter_sequences),
        start: now,
        prefilled: false,
        last_token: None,
        prompt_tokens: admitted.tokens.clone(),
        generated_tokens: Vec::new(),
        prompt_text: request.prompt.clone(),
        raw_generated_pieces: Vec::new(),
    };
    assert(r.prompt_tokens@ =~= admitted.tokens@);
    r
}

/// Records that a sequence's prompt has been decoded as planned.
pub fn note_prefilled(seq: &mut ActiveSequence, plan: &Prefill)
    requires
        old(seq).prompt_tokens@.len() > 0,
        plan.tokens_prompt == old(seq).prompt_tokens@.len(),
        plan.n_past == plan.tokens_prompt,
        plan.tokens_prompt + plan.max_tokens <= u32::MAX,
        old(seq).tokens_generated == 0,
        old(seq).generated_tokens@.len() == 0,
        old(seq).raw_generated_pieces@.len() == 0,
    ensures
        *final(seq) == (ActiveSequence {
            tokens_prompt: plan.tokens_prompt,
            n_past: plan.n_past,
            max_tokens: plan.max_tokens,
            prefilled: true,
            ..*old(seq)
        }),
        ready(*final(seq)),
{
    seq.tokens_prompt = plan.tokens_prompt;
    seq.n_past = plan.n_past;
    seq.max_tokens = plan.max_tokens;
    seq.prefilled = true;
}

/// A state capture that can serve as a checkpoint.
pub open spec fn capture_ok(captured: Option<(Vec<u8>, usize)>) -> bool {
    captured matches Some((buf, written)) && 0 < written <= buf@.len()
}

/// The bytes that were captured.
pub open spec fn captured_bytes(captured: Option<(Vec<u8>, usize)>) -> Seq<u8> {
    match captured {
        Some((buf, written)) => buf@.take(written as int),
        None => Seq::empty(),
    }
}

/// Called at every clean completion, where the state resident for `seq` is
/// confirmed correct. Returns the slot that offers it for reuse and, where a
/// checkpoint is wanted and its state could be captured, keeps that too.
pub fn finish_sequence_clean(
    seq: &ActiveSequence,
    checkpoints: &mut Vec<PromptCheckpoint>,
    config: &SchedulerConfig,
    captured: Option<(Vec<u8>, usize)>,
    now: u64,
) -> (r: CachedSlot)
    requires
        seq.prompt_tokens@.len() > 0,
    ensures
        r.seq_id == seq.seq_id,
        r.tokens@ == seq.resident(),
        r.text@ == seq.resident_words(),
        r.last_used == now,
        slot_ok(r),
        if checkpoint_wanted(old(checkpoints)@, seq.resident(), *config) && capture_ok(captured) {
            exists|c: PromptCheckpoint|
                {
                    &&& c.tokens@ == seq.resident()
                    &&& c.state@ == captured_bytes(captured)
                    &&& c.created_at == now
                    &&& #[trigger] stored(
                        old(checkpoints)@,
                        c,
                        config.ctx_checkpoints,
                        final(checkpoints)@,
                    )
                }
        } else {
            final(checkpoints)@ == old(checkpoints)@
        },
{
    let tokens: Vec<i32> = resident_tokens(seq);
    if checkpoint_due(checkpoints, &tokens, config) {
        if let Some((buf, written)) = captured {
            if let Some(c) = take_checkpoint(buf, written, tokens.clone(), now) {
                assert(c.tokens@ =~= tokens@);
                store_checkpoint(checkpoints, c, config.ctx_checkpoints);
            }
        }
    }
    CachedSlot { seq_id: seq.seq_id, tokens, text: resident_text(seq), last_used: now }
}

impl Scheduler {
    /// Puts a slot that a request has given up back into the idle pool.
    pub fn release(&mut self, slot: CachedSlot)
        requires
            old(self).wf(1),
            old(self).free_id(slot.seq_id),
            slot_ok(slot),
        ensures
            final(self).wf(0),
            final(self).idle_slots@ == old(self).idle_slots@.push(slot),
            final(self).config == old(self).config,
            final(self).per_seq_ctx == old(self).per_seq_ctx,
            final(self).active == old(self).active,
            final(self).checkpoints == old(self).checkpoints,
            final(self).finished == old(self).finished,
            final(self).retired == old(self).retired,
    {
        let ghost before = *self;
        let ghost id = slot.seq_id;
        self.idle_slots.push(slot);
        proof {
            let n = before.idle_slots@.len() as int;
            let b = *self;
            let from = |j: int|
                if j < n {
                    j
                } else {
                    j - 1
                };
            assert forall|j: int| 0 <= j < b.ids().len() implies #[trigger] b.ids()[j] == if j == n {
                id
            } else {
                before.ids()[from(j)]
            } by {}
            assert forall|j: int, k: int|
                0 <= j < b.ids().len() && 0 <= k < b.ids().len() && j != k implies b.ids()[j]
                != b.ids()[k] by {
                if j == n {
                    assert(before.ids().contains(before.ids()[from(k)]));
                } else if k == n {
                    assert(before.ids().contains(before.ids()[from(j)]));
                } else {
                    assert(from(j) != from(k));
                }
            }
        }
    }

    /// Adds a sequence whose first token has been delivered to those that are
    /// decoded together.
    pub fn launch(&mut self, seq: ActiveSequence)
        requires
            old(self).wf(1),
            old(self).settled(),
            old(self).free_id(seq.seq_id),
            running(seq),
        ensures
            final(self).wf(0),
            final(self).settled(),
            final(self).active@ == old(self).active@.push(seq),
            final(self).config == old(self).config,
            final(self).per_seq_ctx == old(self).per_seq_ctx,
            final(self).idle_slots == old(self).idle_slots,
            final(self).checkpoints == old(self).checkpoints,
            final(self).retired == old(self).retired,
            final(self).finished == old(self).finished,
    {
        let ghost before = *self;
        let ghost id = seq.seq_id;
        self.active.push(seq);
        proof {
            let b = *self;
            assert(b.ids() =~= before.ids().push(id));
            assert forall|j: int, k: int|
                0 <= j < b.ids().len() && 0 <= k < b.ids().len() && j != k implies b.ids()[j]
                != b.ids()[k] by {
                if j < before.ids().len() {
                    assert(before.ids().contains(before.ids()[j]));
                }
                if k < before.ids().len() {
                    assert(before.ids().contains(before.ids()[k]));
                }
            }
        }
    }

    /// The batch that decodes the last token of every active sequence, each at
    /// the end of what is resident for it.
    pub fn decode_batch(&self) -> (r: Vec<BatchEntry>)
        requires
            forall|i: int| 0 <= i < self.active@.len() ==> running(#[trigger] self.active@[i]),
        ensures
            r@.len() == self.active@.len(),
            forall|i: int|
                0 <= i < r@.len() ==> {
                    &&& Some((#[trigger] r@[i]).token) == self.active@[i].last_token
                    &&& r@[i].pos == self.active@[i].n_past
                    &&& r@[i].seq_id == self.active@[i].seq_id
                    &&& r@[i].logits
                },
    {
        let mut r: Vec<BatchEntry> = Vec::new();
        let mut i: usize = 0;
        while i < self.active.len()
            invariant
                i <= self.active@.len(),
                r@.len() == i,
                forall|j: int|
                    0 <= j < self.active@.len() ==> running(#[trigger] self.active@[j]),
                forall|j: int|
                    0 <= j < i ==> {
                        &&& Some((#[trigger] r@[j]).token) == self.active@[j].last_token
                        &&& r@[j].pos == self.active@[j].n_past
                        &&& r@[j].seq_id == self.active@[j].seq_id
                        &&& r@[j].logits
                    },
            decreases self.active.len() - i,
        {
            assert(running(self.active@[i as int]));
            if let Some(token) = self.active[i].last_token {
                r.push(
                    BatchEntry {
                        token,
                        pos: self.active[i].n_past as usize,
                        seq_id: self.active[i].seq_id,
                        logits: true,
                    },
                );
            }
            i = i + 1;
        }
        r
    }

    /// A decode failed for the whole batch: every active sequence is dropped
    /// and its slot wiped. Returns their ids, in order.
    pub fn fail_all(&mut self, now: u64) -> (r: Vec<i32>)
        requires
            old(self).wf(0),
            old(self).settled(),
        ensures
            final(self).wf(0),
            final(self).settled(),
            final(self).active@.len() == 0,
            r@ == sequence_ids(old(self).active@),
            final(self).idle_slots@.len() == old(self).idle_slots@.len() + old(self).active@.len(),
            final(self).idle_slots@.take(old(self).idle_slots@.len() as int)
                == old(self).idle_slots@,
            forall|i: int|
                0 <= i < r@.len() ==> (#[trigger] final(self).idle_slots@[old(
                    self,
                ).idle_slots@.len() + i]).is_wiped(r@[i], now),
            final(self).config == old(self).config,
            final(self).per_seq_ctx == old(self).per_seq_ctx,
            final(self).checkpoints == old(self).checkpoints,
    {
        let ghost before = *self;
        let ghost n = before.idle_slots@.len();
        let mut ids: Vec<i32> = Vec::new();
        let mut i: usize = 0;
        while i < self.active.len()
            invariant
                i <= before.active@.len(),
                n == before.idle_slots@.len(),
                self.active == before.active,
                self.config == before.config,
                self.per_seq_ctx == before.per_seq_ctx,
                self.checkpoints == before.checkpoints,
                self.finished == before.finished,
                self.retired == before.retired,
                ids@ == sequence_ids(before.active@).take(i as int),
                self.idle_slots@.len() == n + i,
                self.idle_slots@.take(n as int) == before.idle_slots@,
                forall|j: int|
                    0 <= j < i ==> (#[trigger] self.idle_slots@[n + j]).is_wiped(
                        before.active@[j].seq_id,
                        now,
                    ),
            decreases self.active.len() - i,
        {
            let id: i32 = self.active[i].seq_id;
            ids.push(id);
            let ghost grown_from = self.idle_slots@;
            self.idle_slots.push(CachedSlot::wiped(id, now));
            proof {
                assert(ids@ =~= sequence_ids(before.active@).take(i + 1));
                assert(self.idle_slots@.take(n as int) =~= before.idle_slots@);
                assert forall|j: int| 0 <= j < i + 1 implies (
                #[trigger] self.idle_slots@[n + j]).is_wiped(before.active@[j].seq_id, now) by {
                    if j < i {
                        assert(grown_from[n + j].is_wiped(before.active@[j].seq_id, now));
                    }
                }
            }
            i = i + 1;
        }
        self.active = Vec::new();
        proof {
            let b = *self;
            assert(ids@ =~= sequence_ids(before.active@));
            assert forall|j: int| 0 <= j < b.ids().len() implies #[trigger] b.ids()[j]
                == before.ids()[j] by {
                if j >= n {
                    assert(b.idle_slots@[n + (j - n)].is_wiped(before.active@[j - n].seq_id, now));
                } else {
                    assert(b.idle_slots@.take(n as int)[j] == before.idle_slots@[j]);
                }
            }
            assert(b.ids() =~= before.ids());
            assert forall|j: int| 0 <= j < b.idle_slots@.len() implies slot_ok(
                #[trigger] b.idle_slots@[j],
            ) by {
                if j >= n {
                    assert(b.idle_slots@[n + (j - n)].is_wiped(before.active@[j - n].seq_id, now));
                } else {
                    assert(b.idle_slots@.take(n as int)[j] == before.idle_slots@[j]);
                    assert(slot_ok(before.idle_slots@[j]));
                }
            }
        }
        ids
    }

    /// Everything but the active sequence at `i` is as it was.
    pub open spec fn only_changed(self, before: Scheduler, i: int) -> bool {
        &&& 0 <= i < before.active@.len()
        &&& self.active@ == before.active@.update(i, self.active@[i])
        &&& self.config == before.config
        &&& self.per_seq_ctx == before.per_seq_ctx
        &&& self.idle_slots == before.idle_slots
        &&& self.checkpoints == before.checkpoints
        &&& self.finished == before.finished
        &&& self.retired == before.retired
    }

    /// Takes the token sampled for the active sequence at `i`.
    pub fn step(&mut self, i: usize, sampled: &Sampled) -> (r: Verdict)
        requires
            old(self).wf(0),
            i < old(self).active@.len(),
            running(old(self).active@[i as int]),
        ensures
            final(self).wf(0),
            final(self).only_changed(*old(self), i as int),
            stepped(old(self).active@[i as int], *sampled, final(self).active@[i as int], r),
    {
        let r: Verdict = next_token(&mut self.active[i], sampled);
        assert(self.ids() =~= old(self).ids());
        r
    }

    /// Takes note of how the text of the active sequence at `i` was delivered.
    pub fn settle(&mut self, i: usize, disconnected: bool) -> (r: Verdict)
        requires
            old(self).wf(0),
            i < old(self).active@.len(),
            offered(old(self).active@[i as int]),
        ensures
            final(self).wf(0),
            final(self).only_changed(*old(self), i as int),
            delivered(old(self).active@[i as int], disconnected, final(self).active@[i as int], r),
    {
        let r: Verdict = after_delivery(&mut self.active[i], disconnected);
        assert(self.ids() =~= old(self).ids());
        r
    }

    /// Notes that the sequence at `i` has ended in this round and leaves `slot`
    /// behind. Sequences end in order.
    pub fn retire(&mut self, i: usize, slot: CachedSlot)
        requires
            old(self).wf(0),
            i < old(self).active@.len(),
            old(self).finished@.len() > 0 ==> old(self).finished@.last() < i,
            slot.seq_id == old(self).active@[i as int].seq_id,
            slot_ok(slot),
        ensures
            final(self).wf(0),
            final(self).finished@ == old(self).finished@.push(i),
            final(self).retired@ == old(self).retired@.push(slot),
            final(self).config == old(self).config,
            final(self).per_seq_ctx == old(self).per_seq_ctx,
            final(self).active == old(self).active,
            final(self).idle_slots == old(self).idle_slots,
            final(self).checkpoints == old(self).checkpoints,
    {
        self.finished.push(i);
        self.retired.push(slot);
        assert(self.ids() =~= old(self).ids());
    }

    /// Ends a round: the sequences that have ended leave `active`, and their
    /// slots become idle, in the order in which they ended.
    pub fn sweep(&mut self)
        requires
            old(self).wf(0),
        ensures
            final(self).wf(0),
            final(self).settled(),
            final(self).retired@.len() == 0,
            final(self).active@ == swept(old(self).active@, old(self).finished@),
            final(self).active@.len() == old(self).active@.len() - old(self).finished@.len(),
            final(self).idle_slots@ == old(self).idle_slots@ + old(self).retired@,
            final(self).config == old(self).config,
            final(self).per_seq_ctx == old(self).per_seq_ctx,
            final(self).checkpoints == old(self).checkpoints,
            forall|j: int|
                0 <= j < final(self).active@.len() ==> is_unfinished(
                    #[trigger] final(self).active@[j],
                    old(self).active@,
                    old(self).finished@,
                ),
    {
        let ghost before = *self;
        let ghost all = before.active@;
        let ghost done = before.finished@;
        let ghost mut from: Seq<int> = Seq::new(all.len(), |j: int| j);
        let mut k: usize = self.finished.len();
        assert(done.take(k as int) =~= done);
        while k > 0
            invariant
                k <= done.len(),
                before.wf(0),
                all == before.active@,
                done == before.finished@,
                self.finished == before.finished,
                self.retired == before.retired,
                self.idle_slots == before.idle_slots,
                self.config == before.config,
                self.per_seq_ctx == before.per_seq_ctx,
                self.checkpoints == before.checkpoints,
                swept(self.active@, done.take(k as int)) == swept(all, done),
                self.active@.len() == all.len() - (done.len() - k),
                from.len() == self.active@.len(),
                forall|j: int|
                    #![trigger from[j]]
                    0 <= j < from.len() ==> 0 <= from[j] < all.len() && self.active@[j]
                        == all[from[j]],
                forall|i: int, j: int| 0 <= i < j < from.len() ==> from[i] != from[j],
                forall|j: int, m: int|
                    #![trigger from[j], done[m]]
                    0 <= j < from.len() && k <= m < done.len() ==> from[j] != done[m],
                forall|m: int|
                    #![trigger done[m]]
                    0 <= m < k ==> done[m] < from.len() && from[done[m] as int] == done[m],
            decreases k,
        {
            k = k - 1;
            let at: usize = self.finished[k];
            let ghost here = self.active@;
            let ghost was = from;
            assert(done[k as int] == at);
            assert forall|m: int| 0 <= m < k implies done[m] < at by {}
            let _ = self.active.swap_remove(at);
            proof {
                assert(done.take(k + 1).drop_last() =~= done.take(k as int));
                assert(done.take(k + 1).last() == at);
                assert(self.active@ =~= swap_removed(here, at as int));
                from = swap_removed(was, at as int);
                assert forall|j: int| #![trigger from[j]] 0 <= j < from.len() implies 0 <= from[j]
                    < all.len() && self.active@[j] == all[from[j]] by {
                    assert(from[j] == was[if j == at {
                        was.len() - 1
                    } else {
                        j
                    }]);
                }
                assert forall|j: int, m: int|
                    #![trigger from[j], done[m]]
                    0 <= j < from.len() && k <= m < done.len() implies from[j] != done[m] by {
                    let o = if j == at {
                        was.len() - 1
                    } else {
                        j
                    };
                    assert(from[j] == was[o]);
                    if m == k {
                        assert(was[at as int] == at);
                        assert(o != at);
                        assert(was[o] != was[at as int]);
                    }
                }
                assert forall|m: int| #![trigger done[m]] 0 <= m < k implies done[m] < from.len()
                    && from[done[m] as int] == done[m] by {
                    assert(done[m] < at);
                }
            }
        }
        let ghost left = self.active@;
        proof {
            assert(done.take(0) =~= Seq::empty());
        }
        self.idle_slots.append(&mut self.retired);
        self.finished = Vec::new();
        proof {
            let b = *self;
            let n = before.idle_slots@.len() as int;
            let r = before.retired@.len() as int;
            // Where each id stood before the round ended.
            let src = |j: int|
                if j < n {
                    j
                } else if j < n + r {
                    n + done[j - n]
                } else {
                    n + from[j - n - r]
                };
            assert forall|j: int| 0 <= j < b.ids().len() implies #[trigger] b.ids()[j]
                == before.ids()[src(j)] && 0 <= src(j) < before.ids().len() by {
                if j >= n && j < n + r {
                    assert(done[j - n] < all.len());
                    assert(b.idle_slots@[j] == before.retired@[j - n]);
                } else if j >= n + r {
                    assert(left[j - n - r] == all[from[j - n - r]]);
                }
            }
            assert forall|i: int, j: int|
                0 <= i < b.ids().len() && 0 <= j < b.ids().len() && i != j implies b.ids()[i]
                != b.ids()[j] by {
                assert(b.ids()[i] == before.ids()[src(i)]);
                assert(b.ids()[j] == before.ids()[src(j)]);
                if n <= i < n + r {
                    let _ = done[i - n];
                }
                if n <= j < n + r {
                    let _ = done[j - n];
                }
                if i >= n + r {
                    let _ = from[i - n - r];
                }
                if j >= n + r {
                    let _ = from[j - n - r];
                }
                assert(src(i) != src(j));
            }
            assert forall|j: int| 0 <= j < b.idle_slots@.len() implies slot_ok(
                #[trigger] b.idle_slots@[j],
            ) by {
                if j < n {
                    assert(slot_ok(before.idle_slots@[j]));
                } else {
                    assert(done[j - n] < all.len());
                    assert(slot_ok(before.retired@[j - n]));
                }
            }
            assert forall|j: int| 0 <= j < b.active@.len() implies is_unfinished(
                #[trigger] b.active@[j],
                all,
                done,
            ) by {
                let i = from[j];
                assert(b.active@[j] == all[i]);
                if done.contains(i as usize) {
                    let m = choose|m: int| 0 <= m < done.len() && done[m] == i as usize;
                    assert(from[j] != done[m]);
                }
            }
        }
    }
}

/// No slot is lost and none is handed out twice: while no request is being
/// taken up, every sequence id below the batch size is either idle or active,
/// and it is so once.
pub proof fn law_every_slot_is_accounted_for(s: Scheduler, id: i32)
    requires
        s.wf(0),
        0 <= id < s.config.max_batch_size,
    ensures
        s.ids().contains(id),
        slot_ids(s.idle_slots@).contains(id) <==> !sequence_ids(s.active@).contains(id),
{
    let n = s.config.max_batch_size as int;
    let wide: Seq<int> = s.ids().map_values(|i: i32| i as int);
    assert(wide.no_duplicates());
    wide.unique_seq_to_set();
    vstd::set_lib::lemma_int_range(0, n);
    let all = vstd::set_lib::set_int_range(0, n);
    assert(wide.to_set().subset_of(all)) by {
        assert forall|x: int| wide.to_set().contains(x) implies all.contains(x) by {
            let i = choose|i: int| 0 <= i < wide.len() && wide[i] == x;
            assert(s.ids()[i] == x);
        }
    }
    vstd::set_lib::lemma_set_subset_finite(all, wide.to_set());
    vstd::set_lib::lemma_subset_equality(wide.to_set(), all);
    assert(wide.to_set().contains(id as int));
    let i = choose|i: int| 0 <= i < wide.len() && wide[i] == id as int;
    assert(s.ids()[i] == id);
    let a = slot_ids(s.idle_slots@);
    let b = sequence_ids(s.active@);
    if i < a.len() {
        assert(a[i] == id);
        if b.contains(id) {
            let k = choose|k: int| 0 <= k < b.len() && b[k] == id;
            assert(s.ids()[a.len() + k] == id);
        }
    } else {
        assert(b[i - a.len()] == id);
        if a.contains(id) {
            let k = choose|k: int| 0 <= k < a.len() && a[k] == id;
            assert(s.ids()[k] == id);
        }
    }
}

/// What a request reuses is resident: the reused tokens are the first tokens of
/// the slot it was given, and at least its last token is decoded afresh.
pub proof fn law_reused_tokens_are_resident(slot: CachedSlot, tokens: Seq<i32>)
    requires
        tokens.len() > 0,
    ensures
        ({
            let n = reuse_cap(matched(slot, tokens), tokens.len() as int);
            &&& 0 <= n < tokens.len()
            &&& n <= slot.tokens@.len()
            &&& tokens.take(n) == slot.tokens@.take(n)
        }),
{
    lemma_common_prefix(slot.tokens@, tokens);
    let m = matched(slot, tokens);
    let n = reuse_cap(m, tokens.len() as int);
    assert(tokens.take(n) =~= tokens.take(m).take(n));
    assert(slot.tokens@.take(n) =~= slot.tokens@.take(m).take(n));
}

/// The token history and the text that a finished sequence leaves behind stay
/// a pair: as many generated tokens as generated pieces are kept, and every
/// kept token has been decoded.
pub proof fn law_resident_text_matches_tokens(a: ActiveSequence)
    requires
        a.prompt_tokens@.len() <= a.n_past <= a.prompt_tokens@.len() + a.generated_tokens@.len(),
        a.raw_generated_pieces@.len() == a.generated_tokens@.len(),
    ensures
        ({
            let k = a.n_past - a.prompt_tokens@.len();
            &&& a.resident() == a.prompt_tokens@ + a.generated_tokens@.take(k)
            &&& a.resident_words() == a.prompt_text@ + run_together(
                a.raw_generated_pieces@.take(k),
            )
        }),
{
    let k = a.n_past - a.prompt_tokens@.len();
    assert(a.resident() =~= a.prompt_tokens@ + a.generated_tokens@.take(k));
    assert(a.resident_pieces() == k);
}

/// A token that ends a turn is never taken for resident: at the end of a turn
/// all that was generated but the terminating token is, and after an
/// end-of-generation token, which is not kept, everything is.
pub proof fn law_terminating_token_is_not_resident(
    a: ActiveSequence,
    sampled: Sampled,
    b: ActiveSequence,
    r: Verdict,
)
    requires
        running(a),
        stepped(a, sampled, b, r),
    ensures
        sampled is Eog ==> b.resident() == b.prompt_tokens@ + b.generated_tokens@,
        sampled is Piece ==> b.resident() == b.prompt_tokens@ + b.generated_tokens@.drop_last(),
{
    if sampled is Eog {
        assert(b.resident() =~= b.prompt_tokens@ + b.generated_tokens@);
    }
    if sampled is Piece {
        assert(b.resident() =~= b.prompt_tokens@ + b.generated_tokens@.drop_last());
    }
}

/// A sequence stays within the context it was planned for.
pub proof fn law_sequence_stays_in_context(a: ActiveSequence, context: u32)
    requires
        running(a) || offered(a),
        a.tokens_prompt + a.max_tokens <= context,
    ensures
        a.resident().len() == a.n_past,
        a.n_past < context,
{
}

/// The sequence's text has gone through the output filter piece by piece, and
/// its buffer holds what the filter holds back.
pub open spec fn filtering(a: ActiveSequence) -> bool {
    let s = output::streamed(
        text::views(a.raw_generated_pieces@),
        text::views(a.stop_sequences@),
        text::views(a.filter_sequences@),
    );
    !s.stopped && a.pending@ == s.held
}

/// What the client of a sequence should have been sent so far.
pub open spec fn sent(a: ActiveSequence) -> Seq<char> {
    output::streamed(
        text::views(a.raw_generated_pieces@),
        text::views(a.stop_sequences@),
        text::views(a.filter_sequences@),
    ).out
}

/// A turn sends its client exactly what the output filter lets through: each
/// token adds the text of its verdict, and the buffer stays in step.
pub proof fn law_turn_sends_the_filtered_stream(
    a: ActiveSequence,
    token: i32,
    piece: String,
    b: ActiveSequence,
    r: Verdict,
)
    requires
        running(a),
        filtering(a),
        stepped(a, (Sampled::Piece { token, piece }), b, r),
    ensures
        r matches Verdict::Deliver { text } ==> filtering(b) && sent(b) == sent(a) + text@,
        r matches Verdict::Finish { text, reason } ==> sent(b) == sent(a) + text@,
        r is Deliver || r is Finish,
{
    let pieces = text::views(b.raw_generated_pieces@);
    assert(pieces.drop_last() =~= text::views(a.raw_generated_pieces@));
    assert(pieces.last() == piece@);
}

/// The chunks of a prefill cover every position once.
pub proof fn law_chunks_cover_each_position_once(
    chunks: Seq<(usize, usize)>,
    from: int,
    len: int,
    size: int,
    pos: int,
)
    requires
        chunked(chunks, from, len, size),
        0 <= from <= pos < len,
    ensures
        exists|i: int| 0 <= i < chunks.len() && (#[trigger] chunks[i]).0 <= pos < chunks[i].1,
        forall|i: int, j: int|
            0 <= i < j < chunks.len() ==> (#[trigger] chunks[i]).1 <= (#[trigger] chunks[j]).0,
{
    assert forall|i: int, j: int| 0 <= i < j < chunks.len() implies (#[trigger] chunks[i]).1 <= (
    #[trigger] chunks[j]).0 by {
        lemma_chunks_ordered(chunks, from, len, size, i, j);
    }
    lemma_chunk_of(chunks, from, len, size, pos, chunks.len() - 1);
}

proof fn lemma_chunks_ordered(
    chunks: Seq<(usize, usize)>,
    from: int,
    len: int,
    size: int,
    i: int,
    j: int,
)
    requires
        chunked(chunks, from, len, size),
        0 <= i < j < chunks.len(),
    ensures
        chunks[i].1 <= chunks[j].0,
    decreases j - i,
{
    if i + 1 < j {
        lemma_chunks_ordered(chunks, from, len, size, i, j - 1);
        let c = chunks[j - 1];
        assert(chunks[j - 1 + 1].0 == chunks[j - 1].1);
    } else {
        assert(chunks[i + 1].0 == chunks[i].1);
    }
}

proof fn lemma_chunk_of(
    chunks: Seq<(usize, usize)>,
    from: int,
    len: int,
    size: int,
    pos: int,
    k: int,
)
    requires
        chunked(chunks, from, len, size),
        0 <= k < chunks.len(),
        from <= pos < chunks[k].1,
    ensures
        exists|i: int| 0 <= i < chunks.len() && (#[trigger] chunks[i]).0 <= pos < chunks[i].1,
    decreases k,
{
    if chunks[k].0 > pos {
        assert(k > 0);
        assert(chunks[k - 1 + 1].0 == chunks[k - 1].1);
        lemma_chunk_of(chunks, from, len, size, pos, k - 1);
    }
}

/// The checkpoint pool never outgrows its limit.
pub proof fn law_checkpoints_are_bounded(
    before: Seq<PromptCheckpoint>,
    added: PromptCheckpoint,
    limit: usize,
    after: Seq<PromptCheckpoint>,
)
    requires
        limit > 0,
        before.len() <= limit,
        stored(before, added, limit, after),
    ensures
        after.len() <= limit,
{
}

/// A prompt is given the slot that holds the most of it: whatever prefix of the
/// prompt some slot holds, if it is at least a tenth of the prompt, the slot
/// that is picked holds it too, and it is reused, but for the prompt's last
/// token.
pub proof fn law_the_longest_cached_prefix_is_reused(
    slots: Seq<CachedSlot>,
    tokens: Seq<i32>,
    i: int,
    j: int,
    n: int,
)
    requires
        is_pick(slots, tokens, i),
        0 <= j < slots.len(),
        0 <= n <= slots[j].tokens@.len(),
        n <= tokens.len(),
        0 < tokens.len() <= 10 * n,
        slots[j].tokens@.take(n) == tokens.take(n),
    ensures
        n <= slots[i].tokens@.len(),
        slots[i].tokens@.take(n) == tokens.take(n),
        reuse_cap(matched(slots[i], tokens), tokens.len() as int) >= if n < tokens.len() {
            n
        } else {
            tokens.len() - 1
        },
{
    let b = choose|b: int| #[trigger]
        is_best_match(slots, tokens, b) && if similar_enough(
            matched(slots[b], tokens),
            tokens.len() as int,
        ) {
            i == b
        } else {
            is_oldest(slots, i)
        };
    lemma_prefix_held(slots[j].tokens@, tokens, n);
    lemma_common_prefix(slots[b].tokens@, tokens);
    assert(matched(slots[b], tokens) >= matched(slots[j], tokens));
    let m = matched(slots[b], tokens);
    assert(i == b);
    assert(slots[i].tokens@.take(n) =~= slots[i].tokens@.take(m).take(n));
    assert(tokens.take(n) =~= tokens.take(m).take(n));
}

/// A prefix that both hold is part of the longest one.
proof fn lemma_prefix_held(a: Seq<i32>, b: Seq<i32>, n: int)
    requires
        0 <= n <= a.len(),
        n <= b.len(),
        a.take(n) == b.take(n),
    ensures
        common_prefix(a, b) >= n,
{
    lemma_common_prefix(a, b);
    let m = common_prefix(a, b);
    if m < n {
        assert(a.take(n)[m] == a[m]);
        assert(b.take(n)[m] == b[m]);
    }
}

/// Of the slots that hold equally much of a prompt the one that was used the
/// longest ago is taken: if a slot holds the whole of what the picked one has
/// in common with the prompt, it is not older.
pub proof fn law_of_equal_slots_the_oldest_is_taken(
    slots: Seq<CachedSlot>,
    tokens: Seq<i32>,
    i: int,
    j: int,
    n: int,
)
    requires
        is_pick(slots, tokens, i),
        0 <= j < slots.len(),
        0 <= n <= slots[i].tokens@.len(),
        n <= tokens.len(),
        slots[i].tokens@.take(n) == tokens.take(n),
        n < slots[i].tokens@.len() && n < tokens.len() ==> slots[i].tokens@[n] != tokens[n],
        n <= slots[j].tokens@.len(),
        slots[j].tokens@.take(n) == tokens.take(n),
    ensures
        slots[i].last_used <= slots[j].last_used,
{
    lemma_common_prefix_is(slots[i].tokens@, tokens, n);
    lemma_prefix_held(slots[j].tokens@, tokens, n);
    let b = choose|b: int| #[trigger]
        is_best_match(slots, tokens, b) && if similar_enough(
            matched(slots[b], tokens),
            tokens.len() as int,
        ) {
            i == b
        } else {
            is_oldest(slots, i)
        };
    if similar_enough(matched(slots[b], tokens), tokens.len() as int) {
        if j < i {
            assert(preferred(slots[i], slots[j], tokens));
        } else if j > i {
            assert(!preferred(slots[j], slots[i], tokens));
        }
    }
}

/// A prompt that no slot holds a tenth of takes the slot that was used the
/// longest ago; `need` is a tenth of the prompt, rounded up.
pub proof fn law_a_new_conversation_takes_the_oldest_slot(
    slots: Seq<CachedSlot>,
    tokens: Seq<i32>,
    i: int,
    need: int,
    j: int,
)
    requires
        is_pick(slots, tokens, i),
        10 * need >= tokens.len() > 10 * (need - 1) || tokens.len() == 0,
        tokens.len() > 0 ==> forall|k: int|
            0 <= k < slots.len() ==> (#[trigger] slots[k]).tokens@.len() < need
                || slots[k].tokens@.take(need) != tokens.take(need),
        0 <= j < slots.len(),
    ensures
        slots[i].last_used <= slots[j].last_used,
{
    let b = choose|b: int| #[trigger]
        is_best_match(slots, tokens, b) && if similar_enough(
            matched(slots[b], tokens),
            tokens.len() as int,
        ) {
            i == b
        } else {
            is_oldest(slots, i)
        };
    lemma_common_prefix(slots[b].tokens@, tokens);
    let m = matched(slots[b], tokens);
    if similar_enough(m, tokens.len() as int) {
        assert(m >= need);
        assert(slots[b].tokens@.take(need) =~= slots[b].tokens@.take(m).take(need));
        assert(tokens.take(need) =~= tokens.take(m).take(need));
    }
    if j != i {
        assert(is_oldest(slots, i));
    }
}

/// Only the picked slot leaves the pool: every other stays in it, and nothing
/// is added.
pub proof fn law_the_other_slots_stay<A>(s: Seq<A>, i: int, k: int)
    requires
        0 <= i < s.len(),
        0 <= k < s.len(),
        k != i,
    ensures
        swap_removed(s, i).len() == s.len() - 1,
        swap_removed(s, i).contains(s[k]),
        forall|j: int|
            0 <= j < s.len() - 1 ==> exists|l: int|
                0 <= l < s.len() && l != i && s[l] == #[trigger] swap_removed(s, i)[j],
{
    let r = swap_removed(s, i);
    if k == s.len() - 1 {
        assert(r[i] == s[k]);
    } else {
        assert(r[k] == s[k]);
    }
    assert forall|j: int| 0 <= j < s.len() - 1 implies exists|l: int|
        0 <= l < s.len() && l != i && s[l] == #[trigger] r[j] by {
        let l = if j == i {
            s.len() - 1
        } else {
            j
        };
        assert(s[l] == r[j]);
    }
}

/// As much is reused as there is, but never a prompt's last token.
pub proof fn law_all_but_the_last_token_is_reused(matched: int, len: int)
    requires
        0 <= matched <= len,
        0 < len,
    ensures
        reuse_cap(matched, len) <= matched,
        reuse_cap(matched, len) < len,
        matched < len ==> reuse_cap(matched, len) == matched,
        matched == len ==> reuse_cap(matched, len) == len - 1,
{
}

/// A prompt that continues a slot's text goes on from the longest such text.
pub proof fn law_a_continued_text_is_the_longest(
    slots: Seq<CachedSlot>,
    prompt: Seq<char>,
    i: int,
    j: int,
)
    requires
        is_text_match(slots, prompt, i),
        0 <= j < slots.len(),
        slots[j].text@.len() <= prompt.len(),
        prompt.take(slots[j].text@.len() as int) == slots[j].text@,
    ensures
        0 < slots[i].text@.len() <= prompt.len(),
        prompt.take(slots[i].text@.len() as int) == slots[i].text@,
        slots[j].text@.len() <= slots[i].text@.len(),
{
    if slots[j].text@.len() > 0 {
        assert(continues(slots[j], prompt));
    }
}

/// A prompt that a slot's text is the beginning of continues that slot.
pub proof fn law_a_text_that_a_prompt_starts_with_is_found(slot: CachedSlot, prompt: Seq<char>)
    ensures
        continues(slot, prompt) <==> 0 < slot.text@.len() <= prompt.len() && prompt.take(
            slot.text@.len() as int,
        ) == slot.text@,
{
}

/// The checkpoint that is restored is a beginning of the prompt, and no longer
/// one is left unused.
pub proof fn law_the_longest_checkpoint_is_restored(
    checkpoints: Seq<PromptCheckpoint>,
    tokens: Seq<i32>,
    i: int,
    j: int,
)
    requires
        is_best_checkpoint(checkpoints, tokens, i),
        0 <= j < checkpoints.len(),
        checkpoints[j].tokens@.len() <= tokens.len(),
        tokens.take(checkpoints[j].tokens@.len() as int) == checkpoints[j].tokens@,
    ensures
        0 < checkpoints[i].tokens@.len() <= tokens.len(),
        tokens.take(checkpoints[i].tokens@.len() as int) == checkpoints[i].tokens@,
        checkpoints[j].tokens@.len() <= checkpoints[i].tokens@.len(),
{
    if checkpoints[j].tokens@.len() > 0 {
        assert(covers(checkpoints[j], tokens));
    }
}

/// A checkpoint is taken exactly where checkpoints are on, something is
/// resident, and every checkpoint of the same lineage lies far enough back.
pub proof fn law_checkpoints_keep_their_distance(
    checkpoints: Seq<PromptCheckpoint>,
    tokens: Seq<i32>,
    config: SchedulerConfig,
)
    ensures
        checkpoint_wanted(checkpoints, tokens, config) <==> {
            &&& config.ctx_checkpoints > 0
            &&& tokens.len() > 0
            &&& forall|j: int|
                0 <= j < checkpoints.len() && 0 < (#[trigger] checkpoints[j]).tokens@.len()
                    <= tokens.len() && tokens.take(checkpoints[j].tokens@.len() as int)
                    == checkpoints[j].tokens@ ==> tokens.len() - checkpoints[j].tokens@.len()
                    >= config.checkpoint_min_step
        },
{
    assert forall|j: int| covers(#[trigger] checkpoints[j], tokens) == (0
        < checkpoints[j].tokens@.len() <= tokens.len() && tokens.take(
        checkpoints[j].tokens@.len() as int,
    ) == checkpoints[j].tokens@) by {}
    if checkpoint_wanted(checkpoints, tokens, config) && !none_covers(checkpoints, tokens) {
        let i = choose|i: int| #[trigger]
            is_best_checkpoint(checkpoints, tokens, i) && tokens.len()
                - checkpoints[i].tokens@.len() >= config.checkpoint_min_step;
        assert forall|j: int|
            0 <= j < checkpoints.len() && covers(#[trigger] checkpoints[j], tokens) implies tokens.len()
            - checkpoints[j].tokens@.len() >= config.checkpoint_min_step by {}
    } else if !none_covers(checkpoints, tokens) {
        let i = lemma_best_checkpoint_exists(checkpoints, tokens, checkpoints.len() as int);
        assert(is_best_checkpoint(checkpoints, tokens, i));
        assert(covers(checkpoints[i], tokens));
    }
}

/// `i` is the best of the first `n` checkpoints.
spec fn best_of(
    checkpoints: Seq<PromptCheckpoint>,
    tokens: Seq<i32>,
    n: int,
    i: int,
) -> bool {
    &&& 0 <= i < n
    &&& covers(checkpoints[i], tokens)
    &&& forall|j: int|
        0 <= j < n && covers(#[trigger] checkpoints[j], tokens) ==> checkpoints[j].tokens@.len()
            < checkpoints[i].tokens@.len() || (checkpoints[j].tokens@.len()
            == checkpoints[i].tokens@.len() && j <= i)
}

/// Where a checkpoint covers the tokens, one of them is the best.
proof fn lemma_best_checkpoint_exists(
    checkpoints: Seq<PromptCheckpoint>,
    tokens: Seq<i32>,
    n: int,
) -> (i: int)
    requires
        0 <= n <= checkpoints.len(),
        exists|j: int| 0 <= j < n && covers(#[trigger] checkpoints[j], tokens),
    ensures
        best_of(checkpoints, tokens, n, i),
    decreases n,
{
    let last = n - 1;
    if exists|j: int| 0 <= j < last && covers(#[trigger] checkpoints[j], tokens) {
        let i = lemma_best_checkpoint_exists(checkpoints, tokens, last);
        if !covers(checkpoints[last], tokens) || checkpoints[last].tokens@.len()
            < checkpoints[i].tokens@.len() {
            i
        } else {
            last
        }
    } else {
        last
    }
}

/// A new checkpoint is kept, and costs the pool at most its oldest one.
pub proof fn law_a_full_pool_gives_up_its_oldest(
    before: Seq<PromptCheckpoint>,
    added: PromptCheckpoint,
    limit: usize,
    after: Seq<PromptCheckpoint>,
    k: int,
)
    requires
        stored(before, added, limit, after),
        0 <= k < before.len(),
    ensures
        after.last() == added,
        before.len() < limit ==> after.len() == before.len() + 1 && after[k] == before[k],
        before.len() >= limit ==> after.len() == before.len() && (after.contains(before[k])
            || forall|j: int|
            0 <= j < before.len() ==> before[k].created_at <= (#[trigger] before[j]).created_at),
{
    if before.len() >= limit {
        let i = choose|i: int| #[trigger]
            is_oldest_checkpoint(before, i) && after == swap_removed(before, i).push(added);
        if k != i {
            law_the_other_slots_stay(before, i, k);
            let r = swap_removed(before, i);
            let l = choose|l: int| 0 <= l < r.len() && r[l] == before[k];
            assert(after[l] == before[k]);
        } else {
            assert forall|j: int| 0 <= j < before.len() implies before[k].created_at <= (
            #[trigger] before[j]).created_at by {}
        }
    }
}

/// A turn ends as complete exactly where the model ended it or a stop sequence
/// stands in its text; otherwise the text goes on to the client.
pub proof fn law_a_turn_is_complete_only_at_its_end(
    a: ActiveSequence,
    sampled: Sampled,
    b: ActiveSequence,
    r: Verdict,
)
    requires
        stepped(a, sampled, b, r),
    ensures
        sampled is Eog ==> r is Finish,
        sampled matches Sampled::Piece { piece, .. } ==> (r is Finish <==> exists|m: int, i: int|
            0 <= m < a.stop_sequences@.len() && 0 <= i && i + a.stop_sequences@[m]@.len() <= (
            a.pending@ + piece@).len() && #[trigger] (a.pending@ + piece@).subrange(
                i,
                i + a.stop_sequences@[m]@.len(),
            ) == a.stop_sequences@[m]@),
        r matches Verdict::Finish { reason, .. } ==> reason == StopReason::Stop,
        r is Finish || r is Deliver || r is Abandon,
{
    if let Sampled::Piece { token, piece } = sampled {
        let buf = a.pending@ + piece@;
        let stops = text::views(a.stop_sequences@);
        output::lemma_first_mark(buf, stops);
        if let Some(i) = output::first_mark(buf, stops) {
            let m = choose|m: int|
                0 <= m < stops.len() && #[trigger] text::occurs_at(buf, stops[m], i);
            assert(stops[m] == a.stop_sequences@[m]@);
            assert(buf.subrange(i, i + a.stop_sequences@[m]@.len()) == a.stop_sequences@[m]@);
        } else {
            assert forall|m: int, i: int|
                0 <= m < a.stop_sequences@.len() && 0 <= i && i + a.stop_sequences@[m]@.len()
                    <= buf.len() implies #[trigger] buf.subrange(
                i,
                i + a.stop_sequences@[m]@.len(),
            ) != a.stop_sequences@[m]@ by {
                if buf.subrange(i, i + a.stop_sequences@[m]@.len()) == a.stop_sequences@[m]@ {
                    assert(text::occurs_at(buf, stops[m], i));
                    assert(output::any_at(buf, stops, i));
                }
            }
        }
    }
}

/// A turn whose budget is used up ends as truncated, with the text that was
/// held back; one with budget left goes on, unless its client has gone.
pub proof fn law_a_used_up_budget_truncates(
    a: ActiveSequence,
    b: ActiveSequence,
    gone: bool,
    r: Verdict,
)
    requires
        delivered(a, gone, b, r),
    ensures
        gone <==> r is Disconnected,
        !gone && a.tokens_generated < a.max_tokens <==> r is Continue,
        !gone && a.tokens_generated >= a.max_tokens ==> (r matches Verdict::Finish {
            text,
            reason,
        } && text@ == a.pending@ && reason == StopReason::Length),
{
}

/// A sampled token is kept with its text, behind those before it, and makes the
/// token before it resident; one that ends the generation is not kept. What the
/// turn was given stays as it is.
pub proof fn law_a_sampled_token_is_kept_with_its_text(
    a: ActiveSequence,
    sampled: Sampled,
    b: ActiveSequence,
    r: Verdict,
)
    requires
        stepped(a, sampled, b, r),
    ensures
        b.n_past == a.n_past + 1,
        b.prompt_tokens@ == a.prompt_tokens@,
        b.prompt_text@ == a.prompt_text@,
        b.seq_id == a.seq_id,
        b.max_tokens == a.max_tokens,
        b.stop_sequences == a.stop_sequences,
        b.filter_sequences == a.filter_sequences,
        sampled is Eog ==> b.generated_tokens@ == a.generated_tokens@ && b.raw_generated_pieces@
            == a.raw_generated_pieces@ && b.tokens_generated == a.tokens_generated,
        sampled matches Sampled::Piece { token, piece } ==> {
            &&& b.tokens_generated == a.tokens_generated + 1
            &&& b.generated_tokens@ == a.generated_tokens@.push(token)
            &&& text::views(b.raw_generated_pieces@) == text::views(
                a.raw_generated_pieces@,
            ).push(piece@)
        },
{
    if let Sampled::Piece { token, piece } = sampled {
        assert(text::views(a.raw_generated_pieces@) + seq![piece@] =~= text::views(
            a.raw_generated_pieces@,
        ).push(piece@));
    }
}

} // verus!
