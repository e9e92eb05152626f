//! Text generation: configuration, budgets, output and batching.
use crate::text;
use vstd::prelude::*;

pub mod engine;
pub mod kv_cache;
pub mod output;
pub mod sampling;
pub mod scheduler;
pub mod stream;
pub mod threads;
pub mod turboquant;

verus! {

/// Why generation stopped.
#[derive(Debug, Clone, Copy, PartialEq, Eq, Structural)]
pub enum StopReason {
    /// The model emitted an end-of-generation token, or a configured stop
    /// sequence matched. The answer is complete.
    Stop,
    /// The token budget ran out. The answer is **truncated**.
    Length,
}

impl StopReason {
    /// The string Ollama and OpenAI clients expect.
    pub fn as_api_str(self) -> (r: &'static str)
        ensures
            r@ == (match self {
                StopReason::Stop => "stop"@,
                StopReason::Length => "length"@,
            }),
    {
        match self {
            StopReason::Stop => "stop",
            StopReason::Length => "length",
        }
    }
}

/// Result of text generation (non-streaming).
#[derive(Debug, Clone)]
pub struct GenerateResult {
    pub text: String,
    pub tokens_generated: u32,
    pub tokens_prompt: u32,
    pub duration_ms: u64,
    /// Why generation ended — see [`StopReason`].
    pub stop_reason: StopReason,
}

/// A single token event emitted during streaming generation.
#[derive(Debug, Clone)]
pub enum StreamEvent {
    /// A text fragment (one or more decoded token characters).
    Token(String),
    /// Generation is complete.
    Done {
        tokens_generated: u32,
        tokens_prompt: u32,
        duration_ms: u64,
        /// Why generation ended — see [`StopReason`].
        stop_reason: StopReason,
    },
    /// An error occurred during generation.
    Error(String),
}

/// A chat prompt rendered through a model's own embedded template.
#[derive(Debug)]
pub struct DynamicChatTemplate {
    /// The rendered prompt, ready to generate from as-is (`raw: true`).
    pub prompt: String,
}

/// A single-precision number by its IEEE 754 bit pattern.
#[derive(Debug, Clone, Copy, PartialEq, Eq, Structural)]
pub struct Single {
    pub bits: u32,
}

impl Single {
    /// The number is negative, or negative zero, and not a NaN.
    pub open spec fn negative(self) -> bool {
        0x8000_0000 <= self.bits <= 0xFF80_0000
    }

    /// The number is one.
    pub open spec fn one(self) -> bool {
        self.bits == 0x3F80_0000
    }

    /// The number is less than one.
    pub open spec fn below_one(self) -> bool {
        self.bits < 0x3F80_0000 || self.negative()
    }

    /// The number is greater than zero.
    pub open spec fn above_zero(self) -> bool {
        0 < self.bits <= 0x7F80_0000
    }

    pub fn is_one(self) -> (r: bool)
        ensures
            r == self.one(),
    {
        self.bits == 0x3F80_0000
    }

    pub fn is_below_one(self) -> (r: bool)
        ensures
            r == self.below_one(),
    {
        self.bits < 0x3F80_0000 || (0x8000_0000 <= self.bits && self.bits <= 0xFF80_0000)
    }

    pub fn is_above_zero(self) -> (r: bool)
        ensures
            r == self.above_zero(),
    {
        0 < self.bits && self.bits <= 0x7F80_0000
    }
}

/// Request for text generation.
#[derive(Debug, Clone)]
pub struct GenerateRequest {
    pub prompt: String,
    pub max_tokens: u32,
    pub temperature: Single,
    pub top_k: i32,
    pub top_p: Single,
    pub min_p: Single,
    pub repeat_penalty: Single,
    pub repeat_last_n: i32,
    pub seed: Option<u32>,
    pub stop_sequences: Vec<String>,
    /// Substrings to silently drop from the streamed output without ending
    /// generation.
    pub filter_sequences: Vec<String>,
    /// Per-request context budget (Ollama `num_ctx`).
    pub num_ctx: Option<u32>,
    /// Optional GBNF grammar string for constrained decoding.
    pub grammar: Option<String>,
    /// When true, the prompt is used as-is without adding BOS token.
    pub raw: bool,
}

/// The context a request may use: its own `num_ctx`, where it has one, but no
/// more than the server offers.
pub open spec fn context_budget(num_ctx: Option<u32>, limit: u32) -> u32 {
    match num_ctx {
        Some(n) => if n < limit {
            n
        } else {
            limit
        },
        None => limit,
    }
}

pub fn effective_context(num_ctx: Option<u32>, limit: u32) -> (r: u32)
    ensures
        r == context_budget(num_ctx, limit),
{
    match num_ctx {
        Some(n) => if n < limit {
            n
        } else {
            limit
        },
        None => limit,
    }
}

/// The message for a prompt of `tokens` tokens that leaves no room for output.
pub open spec fn too_long_message(tokens: nat, context: nat) -> Seq<char> {
    "Prompt ("@ + text::decimal(tokens) + " tokens) does not fit in context window ("@
        + text::decimal(context) + ")"@
}

pub fn too_long(tokens: u64, context: u32) -> (r: String)
    ensures
        r@ == too_long_message(tokens as nat, context as nat),
{
    let mut r: String = text::copy_text("Prompt (");
    r.append(text::decimal_text(tokens).as_str());
    r.append(" tokens) does not fit in context window (");
    r.append(text::decimal_text(context as u64).as_str());
    r.append(")");
    r
}

/// The same of a prompt with media.
pub fn media_too_long(tokens: u64, context: u32) -> (r: String)
    ensures
        r@ == "Multimodal prompt ("@ + text::decimal(tokens as nat)
            + " tokens) does not fit in context window ("@ + text::decimal(context as nat) + ")"@,
{
    let mut r: String = text::copy_text("Multimodal prompt (");
    r.append(text::decimal_text(tokens).as_str());
    r.append(" tokens) does not fit in context window (");
    r.append(text::decimal_text(context as u64).as_str());
    r.append(")");
    r
}

/// How many tokens a request may generate: what it asks for, capped so that
/// prompt and output together stay within `context`.
pub open spec fn output_budget(tokens: int, context: int, max_tokens: int) -> int {
    if max_tokens < context - tokens {
        max_tokens
    } else {
        context - tokens
    }
}

/// Fits a prompt into the context: the number of tokens that may be generated,
/// or the context that the prompt, leaving no room for output, does not fit.
pub fn plan_budget(num_ctx: Option<u32>, limit: u32, tokens: usize, max_tokens: u32) -> (r: Result<
    u32,
    u32,
>)
    ensures
        ({
            let context = context_budget(num_ctx, limit);
            if tokens < context {
                r matches Ok(m) && m == output_budget(
                    tokens as int,
                    context as int,
                    max_tokens as int,
                )
            } else {
                r == Err::<u32, u32>(context)
            }
        }),
{
    let context: u32 = effective_context(num_ctx, limit);
    if tokens as u64 >= context as u64 {
        return Err(context);
    }
    let room: u32 = context - tokens as u32;
    if max_tokens < room {
        Ok(max_tokens)
    } else {
        Ok(room)
    }
}

/// The chunks in which positions `from..len` are decoded, none longer than
/// `size`.
pub open spec fn chunked(chunks: Seq<(usize, usize)>, from: int, len: int, size: int) -> bool {
    &&& from >= len ==> chunks.len() == 0
    &&& from < len ==> chunks.len() > 0 && chunks[0].0 == from && chunks.last().1 == len
    &&& forall|i: int|
        0 <= i < chunks.len() ==> {
            &&& (#[trigger] chunks[i]).0 < chunks[i].1 <= len
            &&& chunks[i].1 - chunks[i].0 <= size
        }
    &&& forall|i: int|
        0 <= i < chunks.len() - 1 ==> {
            &&& (#[trigger] chunks[i]).1 - chunks[i].0 == size
            &&& chunks[i + 1].0 == chunks[i].1
        }
}

/// Cuts positions `from..len` into chunks of at most `size` positions: a single
/// decode call may not process more than the batch size.
pub fn prefill_chunks(from: usize, len: usize, size: usize) -> (r: Vec<(usize, usize)>)
    requires
        size > 0,
    ensures
        chunked(r@, from as int, len as int, size as int),
{
    let mut r: Vec<(usize, usize)> = Vec::new();
    let mut at: usize = from;
    while at < len
        invariant
            size > 0,
            from <= at,
            from < len ==> at <= len,
            from >= len ==> at == from && r@.len() == 0,
            at > from <==> r@.len() > 0,
            r@.len() > 0 ==> r@[0].0 == from && r@.last().1 == at,
            at < len ==> forall|i: int|
                0 <= i < r@.len() ==> (#[trigger] r@[i]).1 - r@[i].0 == size,
            forall|i: int|
                0 <= i < r@.len() ==> {
                    &&& (#[trigger] r@[i]).0 < r@[i].1 <= len
                    &&& r@[i].1 - r@[i].0 <= size
                },
            forall|i: int|
                0 <= i < r@.len() - 1 ==> {
                    &&& (#[trigger] r@[i]).1 - r@[i].0 == size
                    &&& r@[i + 1].0 == r@[i].1
                },
        decreases len - at,
    {
        let end: usize = if size < len - at {
            at + size
        } else {
            len
        };
        r.push((at, end));
        at = end;
    }
    r
}

/// One entry of a decode batch.
#[derive(Debug, Clone, Copy, PartialEq, Eq, Structural)]
pub struct BatchEntry {
    pub token: i32,
    pub pos: usize,
    pub seq_id: i32,
    /// Whether this position yields logits to sample from.
    pub logits: bool,
}

/// The batch that decodes positions `from..to` of a prompt: only its very last
/// token yields logits.
pub fn prompt_batch(tokens: &[i32], from: usize, to: usize, seq_id: i32) -> (r: Vec<BatchEntry>)
    requires
        from <= to <= tokens@.len(),
    ensures
        r@.len() == to - from,
        forall|i: int|
            0 <= i < r@.len() ==> #[trigger] r@[i] == (BatchEntry {
                token: tokens@[from + i],
                pos: (from + i) as usize,
                seq_id,
                logits: from + i == tokens@.len() - 1,
            }),
{
    let mut r: Vec<BatchEntry> = Vec::new();
    let mut at: usize = from;
    while at < to
        invariant
            from <= at <= to <= tokens@.len(),
            r@.len() == at - from,
            forall|i: int|
                0 <= i < r@.len() ==> #[trigger] r@[i] == (BatchEntry {
                    token: tokens@[from + i],
                    pos: (from + i) as usize,
                    seq_id,
                    logits: from + i == tokens@.len() - 1,
                }),
        decreases to - at,
    {
        r.push(BatchEntry { token: tokens[at], pos: at, seq_id, logits: at == tokens.len() - 1 });
        at = at + 1;
    }
    r
}

/// Format-template artifacts that some models produce as plain text, dropped
/// from the streamed output without ending the generation.
///
/// Order matters: the combined patterns stand before the single delimiters, so
/// that they match as one unit and leave no orphan word behind.
pub const DEFAULT_HARMONY_FILTERS: [&'static str; 11] = [
    "<|channel>thought<channel|>",
    "<|channel>analysis<channel|>",
    "<|channel>final<channel|>",
    "<|channel>thought\n<channel|>",
    "<|channel>analysis\n<channel|>",
    "<|channel>final\n<channel|>",
    "<|message|>",
    "<|image>",
    "<image|>",
    "<|audio>",
    "<audio|>",
];

/// The texts of the default filters.
pub open spec fn harmony_filters() -> Seq<Seq<char>> {
    seq![
        "<|channel>thought<channel|>"@,
        "<|channel>analysis<channel|>"@,
        "<|channel>final<channel|>"@,
        "<|channel>thought\n<channel|>"@,
        "<|channel>analysis\n<channel|>"@,
        "<|channel>final\n<channel|>"@,
        "<|message|>"@,
        "<|image>"@,
        "<image|>"@,
        "<|audio>"@,
        "<audio|>"@,
    ]
}

/// The filter list for one request, given whether the client asked for
/// thinking. Where it did not, any think tag in the output is spurious and is
/// stripped too.
pub fn default_filters(think: bool) -> (r: Vec<String>)
    ensures
        text::views(r@) == harmony_filters() + if think {
            seq![]
        } else {
            seq!["</think>"@, "<think>"@]
        },
{
    let all: [&'static str; 11] = DEFAULT_HARMONY_FILTERS;
    let mut r: Vec<String> = Vec::new();
    let mut i: usize = 0;
    while i < 11
        invariant
            i <= 11,
            r@.len() == i,
            all == DEFAULT_HARMONY_FILTERS,
            forall|j: int| 0 <= j < i ==> (#[trigger] r@[j])@ == all@[j]@,
        decreases 11 - i,
    {
        r.push(text::copy_text(all[i]));
        i = i + 1;
    }
    if !think {
        r.push(text::copy_text("</think>"));
        r.push(text::copy_text("<think>"));
    }
    assert(text::views(r@) =~= harmony_filters() + if think {
        seq![]
    } else {
        seq!["</think>"@, "<think>"@]
    });
    r
}

/// Standard GBNF grammar that accepts any valid JSON value.
pub const JSON_GBNF: &'static str = "\nroot   ::= object\nvalue  ::= object | array | string | number | (\"true\" | \"false\" | \"null\") ws\n\nobject ::=\n  \"{\" ws (\n    string \":\" ws value\n    (\",\" ws string \":\" ws value)*\n  )? \"}\" ws\n\narray  ::=\n  \"[\" ws (\n    value\n    (\",\" ws value)*\n  )? \"]\" ws\n\nstring ::=\n  \"\\\"\" (\n    [^\\\\\"\\x7F\\x00-\\x1F] |\n    \"\\\\\" ([\"\\\\/bfnrt] | \"u\" [0-9a-fA-F] [0-9a-fA-F] [0-9a-fA-F] [0-9a-fA-F])\n  )* \"\\\"\" ws\n\nnumber ::= (\"-\"? ([0-9] | [1-9] [0-9]*)) (\".\" [0-9]+)? ([eE] [-+]? [0-9]+)? ws\n\nws ::= ([ \\t\\n] ws)?\n";

impl Default for GenerateRequest {
    fn default() -> (r: Self)
        ensures
            r.prompt@.len() == 0,
            r.max_tokens == 512,
            r.temperature.bits == 0x3F4C_CCCD,
            r.top_k == 40,
            r.top_p.bits == 0x3F66_6666,
            r.min_p.bits == 0,
            r.repeat_penalty.bits == 0x3F8C_CCCD,
            r.repeat_last_n == 64,
            r.seed is None,
            r.stop_sequences@.len() == 0,
            text::views(r.filter_sequences@) == harmony_filters(),
            r.num_ctx is None,
            r.grammar is None,
            !r.raw,
    {
        let filter_sequences: Vec<String> = default_filters(true);
        assert(harmony_filters() + Seq::<Seq<char>>::empty() =~= harmony_filters());
        GenerateRequest {
            prompt: String::new(),
            max_tokens: 512,
            temperature: Single { bits: 0x3F4C_CCCD },
            top_k: 40,
            top_p: Single { bits: 0x3F66_6666 },
            min_p: Single { bits: 0 },
            repeat_penalty: Single { bits: 0x3F8C_CCCD },
            repeat_last_n: 64,
            seed: None,
            stop_sequences: Vec::new(),
            filter_sequences,
            num_ctx: None,
            grammar: None,
            raw: false,
        }
    }
}

/// Configuration for the inference engine.
#[derive(Debug, Clone)]
pub struct InferenceConfig {
    /// Path to the GGUF model file.
    pub model_path: String,
    /// Number of GPU layers to offload (-1 = all).
    pub gpu_layers: i32,
    /// Total context window size (shared across batch slots in scheduler mode).
    pub context_size: u32,
    /// Number of threads for CPU inference.
    pub threads: u32,
    /// Enable flash attention.
    pub flash_attn: bool,
    /// Prompt processing batch size (how many tokens per eval during prefill).
    pub n_batch: u32,
    /// KV cache data type for keys.
    pub cache_type_k: kv_cache::KvCacheType,
    /// KV cache data type for values.
    pub cache_type_v: kv_cache::KvCacheType,
    /// Optional path to a multimodal projector (mmproj) GGUF file.
    pub mmproj_path: Option<String>,
    /// Keep MoE expert tensors on CPU RAM.
    pub cpu_moe: bool,
    /// Keep MoE expert tensors on CPU RAM for only the first `n_cpu_moe`
    /// transformer layers (0 = disabled).
    pub n_cpu_moe: u32,
    /// Recurrent-state rollback window.
    pub rs_seq: u32,
}

impl InferenceConfig {
    /// The default configuration on a machine with `logical` logical cores,
    /// where that is known.
    pub fn with_cores(logical: Option<u32>) -> (r: InferenceConfig)
        ensures
            r.model_path@.len() == 0,
            r.gpu_layers == -1,
            r.context_size == 4096,
            r.threads == (match logical {
                Some(n) => n,
                None => 4,
            }),
            r.flash_attn,
            r.n_batch == 2048,
            r.cache_type_k == kv_cache::KvCacheType::F16,
            r.cache_type_v == kv_cache::KvCacheType::F16,
            r.mmproj_path is None,
            !r.cpu_moe,
            r.n_cpu_moe == 0,
            r.rs_seq == 0,
    {
        InferenceConfig {
            model_path: String::new(),
            gpu_layers: -1,
            context_size: 4096,
            threads: match logical {
                Some(n) => n,
                None => 4,
            },
            flash_attn: true,
            n_batch: 2048,
            cache_type_k: kv_cache::KvCacheType::F16,
            cache_type_v: kv_cache::KvCacheType::F16,
            mmproj_path: None,
            cpu_moe: false,
            n_cpu_moe: 0,
            rs_seq: 0,
        }
    }
}

/// A request may use what it asks for and no more than there is.
pub proof fn law_a_context_is_the_smaller_one(num_ctx: Option<u32>, limit: u32)
    ensures
        context_budget(num_ctx, limit) <= limit,
        num_ctx matches Some(n) ==> context_budget(num_ctx, limit) <= n && (context_budget(
            num_ctx,
            limit,
        ) == n || context_budget(num_ctx, limit) == limit),
        num_ctx is None ==> context_budget(num_ctx, limit) == limit,
{
}

/// As much is generated as was asked for, unless the context ends first.
pub proof fn law_output_stays_in_the_context(tokens: int, context: int, max_tokens: int)
    requires
        0 <= tokens < context,
        0 <= max_tokens,
    ensures
        ({
            let n = output_budget(tokens, context, max_tokens);
            &&& 0 <= n <= max_tokens
            &&& tokens + n <= context
            &&& n == max_tokens || tokens + n == context
        }),
{
}

/// How a number compares with zero and one, by its bits: those of the positive
/// numbers rise with them, and what is no number compares with neither.
pub proof fn law_a_number_is_compared_by_its_bits(s: Single)
    ensures
        s.bits == 0 || s.bits == 0x8000_0000 ==> !s.above_zero() && s.below_one(),
        0 < s.bits < 0x3F80_0000 ==> s.above_zero() && s.below_one() && !s.one(),
        s.bits == 0x3F80_0000 <==> s.one(),
        s.one() ==> s.above_zero() && !s.below_one(),
        0x3F80_0000 < s.bits <= 0x7F80_0000 ==> s.above_zero() && !s.below_one(),
        0x7F80_0000 < s.bits < 0x8000_0000 || 0xFF80_0000 < s.bits ==> !s.above_zero()
            && !s.below_one(),
        0x8000_0000 < s.bits <= 0xFF80_0000 ==> !s.above_zero() && s.below_one(),
{
}

/// An empty channel is never shown, with a line feed in it or without.
pub proof fn law_empty_channels_are_filtered()
    ensures
        harmony_filters().contains("<|channel>thought<channel|>"@),
        harmony_filters().contains("<|channel>analysis<channel|>"@),
        harmony_filters().contains("<|channel>final<channel|>"@),
        harmony_filters().contains("<|channel>thought\n<channel|>"@),
        harmony_filters().contains("<|channel>analysis\n<channel|>"@),
        harmony_filters().contains("<|channel>final\n<channel|>"@),
        harmony_filters().contains("<|message|>"@),
        harmony_filters().contains("<|image>"@) && harmony_filters().contains("<image|>"@),
        harmony_filters().contains("<|audio>"@) && harmony_filters().contains("<audio|>"@),
{
    let f = harmony_filters();
    assert(f[0] == "<|channel>thought<channel|>"@);
    assert(f[1] == "<|channel>analysis<channel|>"@);
    assert(f[2] == "<|channel>final<channel|>"@);
    assert(f[3] == "<|channel>thought\n<channel|>"@);
    assert(f[4] == "<|channel>analysis\n<channel|>"@);
    assert(f[5] == "<|channel>final\n<channel|>"@);
    assert(f[6] == "<|message|>"@);
    assert(f[7] == "<|image>"@ && f[8] == "<image|>"@ && f[9] == "<|audio>"@ && f[10]
        == "<audio|>"@);
}

} // verus!
