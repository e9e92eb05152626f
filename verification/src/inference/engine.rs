//! The sequential engine: what it loads a model with, and its decode loop.
use crate::inference::kv_cache::KvCacheType;
use crate::inference::output;
use crate::inference::output::PieceOutcome;
use crate::inference::{DynamicChatTemplate, StopReason};
use crate::text;
use vstd::prelude::*;

verus! {

/// The GPU backends that a binary was compiled with.
#[derive(Debug, Clone, Copy)]
pub struct Backends {
    pub cuda: bool,
    pub rocm: bool,
    pub vulkan: bool,
    pub metal: bool,
}

impl Backends {
    pub open spec fn any(self) -> bool {
        self.cuda || self.rocm || self.vulkan || self.metal
    }
}

/// Whether a binary was compiled with any GPU backend at all.
pub fn has_gpu_backend(b: &Backends) -> (r: bool)
    ensures
        r == b.any(),
{
    b.cuda || b.rocm || b.vulkan || b.metal
}

/// The layer count that may actually be handed to llama.cpp: a binary compiled
/// without any GPU backend must ask for zero offloaded layers.
#[must_use]
pub fn check_gpu_support(b: &Backends, gpu_layers: i32) -> (r: i32)
    ensures
        r == if b.any() {
            gpu_layers
        } else {
            0
        },
{
    if gpu_layers != 0 && !has_gpu_backend(b) {
        return 0;
    }
    gpu_layers
}

/// The layer count in llama.cpp's terms: a negative count offloads all layers,
/// more than any model has.
pub fn offload_layers(gpu_layers: i32) -> (r: u32)
    ensures
        r == if gpu_layers >= 0 {
            gpu_layers as int
        } else {
            1000
        },
{
    if gpu_layers >= 0 {
        gpu_layers as u32
    } else {
        1000
    }
}

/// The pattern of the expert tensors of one layer.
pub open spec fn expert_pattern(layer: nat) -> Seq<char> {
    "blk\\."@ + text::decimal(layer) + "\\.ffn_(up|down|gate|gate_up)_(ch|)exps"@
}

/// The tensors kept on the CPU for the first `n_cpu_moe` layers.
pub fn cpu_moe_patterns(n_cpu_moe: u32) -> (r: Vec<String>)
    ensures
        r@.len() == n_cpu_moe,
        forall|i: int| 0 <= i < n_cpu_moe ==> (#[trigger] r@[i])@ == expert_pattern(i as nat),
{
    let mut r: Vec<String> = Vec::new();
    let mut i: u32 = 0;
    while i < n_cpu_moe
        invariant
            i <= n_cpu_moe,
            r@.len() == i,
            forall|j: int| 0 <= j < i ==> (#[trigger] r@[j])@ == expert_pattern(j as nat),
        decreases n_cpu_moe - i,
    {
        let mut p: String = text::copy_text("blk\\.");
        p.append(text::decimal_text(i as u64).as_str());
        p.append("\\.ffn_(up|down|gate|gate_up)_(ch|)exps");
        r.push(p);
        i = i + 1;
    }
    r
}

/// Which expert tensors stay on the CPU.
#[derive(Debug)]
pub enum ExpertPlacement {
    /// None is kept back.
    Gpu,
    /// All of them stay on the CPU.
    AllOnCpu,
    /// Those that match a pattern stay on the CPU.
    Matching(Vec<String>),
}

/// Where the expert tensors go. Keeping all of them on the CPU wins over
/// keeping those of the first layers.
pub fn place_experts(cpu_moe: bool, n_cpu_moe: u32) -> (r: ExpertPlacement)
    ensures
        if cpu_moe {
            r is AllOnCpu
        } else if n_cpu_moe == 0 {
            r is Gpu
        } else {
            &&& r matches ExpertPlacement::Matching(p)
            &&& p@.len() == n_cpu_moe
            &&& forall|i: int| 0 <= i < n_cpu_moe ==> (#[trigger] p@[i])@ == expert_pattern(i as nat)
        },
{
    if cpu_moe {
        ExpertPlacement::AllOnCpu
    } else if n_cpu_moe > 0 {
        ExpertPlacement::Matching(cpu_moe_patterns(n_cpu_moe))
    } else {
        ExpertPlacement::Gpu
    }
}

/// How a multimodal projector is set up.
#[derive(Debug, Clone, Copy, PartialEq, Eq)]
pub struct ProjectorParams {
    pub use_gpu: bool,
    pub n_threads: u32,
    /// The image token budget, where it is not the projector's own.
    pub image_max_tokens: Option<i32>,
    pub image_min_tokens: Option<i32>,
}

pub open spec fn integer_set(v: Option<&str>) -> Option<int> {
    match v {
        Some(s) => text::signed_value(s@, 0x8000_0000),
        None => None,
    }
}

pub open spec fn integer_view(v: Option<i32>) -> Option<int> {
    match v {
        Some(n) => Some(n as int),
        None => None,
    }
}

fn read_integer(v: Option<&str>) -> (r: Option<i32>)
    ensures
        integer_view(r) == integer_set(v),
{
    match v {
        Some(s) => {
            let c: Vec<char> = text::to_chars(s);
            text::parse_i32(&c)
        },
        None => None,
    }
}

/// The set-up of a projector: on the GPU exactly where the text model is, and
/// with the image token budgets that the environment sets.
pub fn projector_params(
    gpu_layers: i32,
    threads: u32,
    b: &Backends,
    image_max: Option<&str>,
    image_min: Option<&str>,
) -> (r: ProjectorParams)
    ensures
        r.use_gpu == (gpu_layers != 0 && b.any()),
        r.n_threads == threads,
        integer_view(r.image_max_tokens) == integer_set(image_max),
        integer_view(r.image_min_tokens) == integer_set(image_min),
{
    ProjectorParams {
        use_gpu: gpu_layers != 0 && has_gpu_backend(b),
        n_threads: threads,
        image_max_tokens: read_integer(image_max),
        image_min_tokens: read_integer(image_min),
    }
}

/// The batch that a whole image must fit in, by the image token budget that the
/// environment gives.
pub fn multimodal_batch_size(budget: Option<&str>) -> (r: u32)
    ensures
        ({
            let n = match budget {
                Some(t) => match text::unsigned_value(t@, u32::MAX as nat) {
                    Some(n) => n,
                    None => 0,
                },
                None => 0,
            };
            r == if n > 512 {
                n
            } else {
                512
            }
        }),
{
    let n: u64 = match budget {
        Some(t) => {
            let c: Vec<char> = text::to_chars(t);
            match text::parse_unsigned(&c, 0xFFFF_FFFF) {
                Some(n) => n,
                None => 0,
            }
        },
        None => 0,
    };
    if n > 512 {
        n as u32
    } else {
        512
    }
}

/// What the engine needs to know to build a context.
#[derive(Debug, Clone, Copy)]
pub struct ContextConfig {
    pub context_size: u32,
    pub threads: u32,
    pub flash_attn: bool,
    pub n_batch: u32,
    pub rs_seq: u32,
}

/// The parameters of a context, in llama.cpp's terms.
#[derive(Debug, Clone, Copy, PartialEq, Eq)]
pub struct ContextParams {
    pub n_ctx: u32,
    pub n_batch: u32,
    pub n_ubatch: u32,
    pub n_threads: u32,
    pub n_rs_seq: u32,
    /// The types of keys and values, where they are not the default.
    pub cache_types: Option<(KvCacheType, KvCacheType)>,
    /// -1 lets llama.cpp decide on flash attention, 0 turns it off.
    pub flash_attention: i32,
}

/// The context size a configuration stands for: zero means the default.
pub open spec fn configured_context(size: u32) -> u32 {
    if size == 0 {
        4096
    } else {
        size
    }
}

/// Build context params with given KV cache types. The physical batch is capped,
/// and never larger than the logical one.
pub fn build_ctx_params_with_cache(
    config: &ContextConfig,
    ctx_size: u32,
    cache_type_k: KvCacheType,
    cache_type_v: KvCacheType,
) -> (r: ContextParams)
    ensures
        r == (ContextParams {
            n_ctx: ctx_size,
            n_batch: config.n_batch,
            n_ubatch: if config.n_batch < 1024 {
                config.n_batch
            } else {
                1024
            },
            n_threads: config.threads,
            n_rs_seq: config.rs_seq,
            cache_types: if cache_type_k == KvCacheType::F16 && cache_type_v == KvCacheType::F16 {
                None
            } else {
                Some((cache_type_k, cache_type_v))
            },
            flash_attention: if config.flash_attn {
                -1i32
            } else {
                0
            },
        }),
{
    let n_ubatch: u32 = if config.n_batch < 1024 {
        config.n_batch
    } else {
        1024
    };
    let cache_types: Option<(KvCacheType, KvCacheType)> = if cache_type_k == KvCacheType::F16
        && cache_type_v == KvCacheType::F16 {
        None
    } else {
        Some((cache_type_k, cache_type_v))
    };
    let flash_attention: i32 = if config.flash_attn {
        -1
    } else {
        0
    };
    ContextParams {
        n_ctx: ctx_size,
        n_batch: config.n_batch,
        n_ubatch,
        n_threads: config.threads,
        n_rs_seq: config.rs_seq,
        cache_types,
        flash_attention,
    }
}

/// The more precise of two unnamed types: the one with the higher id.
pub open spec fn heavier(k: KvCacheType, v: KvCacheType) -> KvCacheType {
    match (k, v) {
        (KvCacheType::Unknown(a), KvCacheType::Unknown(b)) => if a >= b {
            k
        } else {
            v
        },
        _ => k,
    }
}

/// The cache types are two different unnamed ones.
pub open spec fn mixed_unknown(k: KvCacheType, v: KvCacheType) -> bool {
    match (k, v) {
        (KvCacheType::Unknown(a), KvCacheType::Unknown(b)) => a != b,
        _ => false,
    }
}

/// The cache types to try, in order, until a context can be made: those asked
/// for; for two different unnamed types, the more precise one for both; and,
/// unless it was asked for, f16.
pub open spec fn attempts(k: KvCacheType, v: KvCacheType, try_heavier: bool) -> Seq<
    (KvCacheType, KvCacheType),
> {
    seq![(k, v)] + (if try_heavier && mixed_unknown(k, v) {
        seq![(heavier(k, v), heavier(k, v))]
    } else {
        seq![]
    }) + (if k != KvCacheType::F16 || v != KvCacheType::F16 {
        seq![(KvCacheType::F16, KvCacheType::F16)]
    } else {
        seq![]
    })
}

pub fn context_attempts(k: KvCacheType, v: KvCacheType, try_heavier: bool) -> (r: Vec<
    (KvCacheType, KvCacheType),
>)
    ensures
        r@ == attempts(k, v, try_heavier),
{
    let mut r: Vec<(KvCacheType, KvCacheType)> = Vec::new();
    r.push((k, v));
    if try_heavier {
        if let KvCacheType::Unknown(a) = k {
            if let KvCacheType::Unknown(b) = v {
                if a != b {
                    let h: KvCacheType = if a >= b {
                        k
                    } else {
                        v
                    };
                    r.push((h, h));
                }
            }
        }
    }
    if k != KvCacheType::F16 || v != KvCacheType::F16 {
        r.push((KvCacheType::F16, KvCacheType::F16));
    }
    assert(r@ =~= attempts(k, v, try_heavier));
    r
}

/// The context size to try after `candidate` did not fit: half of it, but not
/// below the floor of 512; at or below the floor there is none.
pub open spec fn smaller_context(candidate: u32) -> Option<u32> {
    if candidate <= 512 {
        None
    } else if candidate / 2 > 512 {
        Some((candidate / 2) as u32)
    } else {
        Some(512u32)
    }
}

/// Everything tried before `c`, starting at `from`, was found not to fit.
pub open spec fn failed_before<F: Fn(u32) -> bool>(fits: F, from: u32, c: u32) -> bool
    decreases from,
{
    from == c || (call_ensures(fits, (from,), false) && (smaller_context(from) matches Some(n) && n
        < from && failed_before(fits, n, c)))
}

proof fn lemma_failed_extends<F: Fn(u32) -> bool>(fits: F, from: u32, c: u32, n: u32)
    requires
        failed_before(fits, from, c),
        call_ensures(fits, (c,), false),
        smaller_context(c) == Some(n),
    ensures
        failed_before(fits, from, n),
    decreases from,
{
    if from == c {
        assert(failed_before(fits, n, n));
    } else {
        lemma_failed_extends(fits, smaller_context(from)->0, c, n);
    }
}

/// Find the largest context size, halving from the configured one, that `fits`
/// reports to allocate. Fails with the last size tried when even that does not.
pub fn probe_and_shrink_context<F: Fn(u32) -> bool>(context_size: u32, fits: F) -> (r: Result<
    u32,
    u32,
>)
    requires
        forall|c: u32| call_requires(fits, (c,)),
    ensures
        ({
            let from = configured_context(context_size);
            match r {
                Ok(c) => failed_before(fits, from, c) && call_ensures(fits, (c,), true),
                Err(c) => failed_before(fits, from, c) && call_ensures(fits, (c,), false)
                    && smaller_context(c) is None,
            }
        }),
{
    let from: u32 = if context_size == 0 {
        4096
    } else {
        context_size
    };
    let mut candidate: u32 = from;
    loop
        invariant
            from == configured_context(context_size),
            forall|c: u32| call_requires(fits, (c,)),
            failed_before(fits, from, candidate),
        decreases candidate,
    {
        let ok: bool = fits(candidate);
        if ok {
            return Ok(candidate);
        }
        if candidate <= 512 {
            return Err(candidate);
        }
        let half: u32 = candidate / 2;
        let next: u32 = if half > 512 {
            half
        } else {
            512
        };
        proof {
            lemma_failed_extends(fits, from, candidate, next);
        }
        candidate = next;
    }
}

/// A context that was shrunk is never larger than the one asked for, and never
/// below the floor unless that is what was asked for.
pub proof fn law_shrunk_context_is_in_range<F: Fn(u32) -> bool>(fits: F, from: u32, c: u32)
    requires
        failed_before(fits, from, c),
    ensures
        c <= from,
        c >= 512 || c == from,
    decreases from,
{
    if from != c {
        law_shrunk_context_is_in_range(fits, smaller_context(from)->0, c);
    }
}

/// The message for a context that could not be allocated; `kv_mib` is what its
/// KV cache needs, as a number of MiB.
pub fn context_alloc_error(err: &str, ctx_size: u32, kv_mib: &str) -> (r: String)
    ensures
        r@ == "could not allocate a context of "@ + text::decimal(ctx_size as nat) + " tokens: "@
            + err@ + ". Its KV cache alone needs about "@ + kv_mib@
            + " MiB, which did not fit. Lower it with --ctx-size, or halve the cache with --cache-type-k q8_0 --cache-type-v q8_0."@,
{
    let mut r: String = text::copy_text("could not allocate a context of ");
    r.append(text::decimal_text(ctx_size as u64).as_str());
    r.append(" tokens: ");
    r.append(err);
    r.append(". Its KV cache alone needs about ");
    r.append(kv_mib);
    r.append(
        " MiB, which did not fit. Lower it with --ctx-size, or halve the cache with --cache-type-k q8_0 --cache-type-v q8_0.",
    );
    r
}

/// The message for a context that was shrunk to one that fits; `kv_mib` is what
/// the KV cache of the requested one needs, as a number of MiB.
pub fn context_shrunk(requested: u32, reduced: u32, kv_mib: &str) -> (r: String)
    ensures
        r@ == "--ctx-size "@ + text::decimal(requested as nat)
            + " does not fit here (its KV cache alone needs about "@ + kv_mib@
            + " MiB); reduced automatically to "@ + text::decimal(reduced as nat)
            + ", which does. Pass --ctx-size "@ + text::decimal(reduced as nat)
            + " yourself to silence this, or free up VRAM to keep "@ + text::decimal(
            requested as nat,
        ) + "."@,
{
    let mut r: String = text::copy_text("--ctx-size ");
    r.append(text::decimal_text(requested as u64).as_str());
    r.append(" does not fit here (its KV cache alone needs about ");
    r.append(kv_mib);
    r.append(" MiB); reduced automatically to ");
    r.append(text::decimal_text(reduced as u64).as_str());
    r.append(", which does. Pass --ctx-size ");
    r.append(text::decimal_text(reduced as u64).as_str());
    r.append(" yourself to silence this, or free up VRAM to keep ");
    r.append(text::decimal_text(requested as u64).as_str());
    r.append(".");
    r
}

/// The smaller context sizes to suggest, as command-line flags.
pub open spec fn suggestions(requested: u32) -> Seq<Seq<char>> {
    (if requested / 2 >= 512 {
        seq!["--ctx-size "@ + text::decimal((requested / 2) as nat)]
    } else {
        seq![]
    }) + (if requested / 4 >= 512 {
        seq!["--ctx-size "@ + text::decimal((requested / 4) as nat)]
    } else {
        seq![]
    })
}

/// Build a human-readable hint for context allocation failures.
///
/// Suggests smaller `--ctx-size` values and, if the requested size is large,
/// recommends quantizing the KV cache to cut VRAM use.
pub fn ctx_oom_hint(requested_tokens: u32) -> (r: String)
    ensures
        r@ == "  Requested context: "@ + text::decimal(requested_tokens as nat)
            + " tokens — KV cache likely exceeds available VRAM.\n  Try a smaller context: "@
            + text::joined(suggestions(requested_tokens), "  or  "@) + if requested_tokens >= 8192 {
            "\n  Or quantize the KV cache: --cache-type-k q4_0 --cache-type-v q4_0 (cuts KV-cache VRAM by ~4×)."@
        } else {
            Seq::empty()
        },
{
    let mut flags: Vec<String> = Vec::new();
    if requested_tokens / 2 >= 512 {
        let mut f: String = text::copy_text("--ctx-size ");
        f.append(text::decimal_text((requested_tokens / 2) as u64).as_str());
        flags.push(f);
    }
    if requested_tokens / 4 >= 512 {
        let mut f: String = text::copy_text("--ctx-size ");
        f.append(text::decimal_text((requested_tokens / 4) as u64).as_str());
        flags.push(f);
    }
    assert(text::views(flags@) =~= suggestions(requested_tokens));
    let mut r: String = text::copy_text("  Requested context: ");
    r.append(text::decimal_text(requested_tokens as u64).as_str());
    r.append(" tokens — KV cache likely exceeds available VRAM.\n  Try a smaller context: ");
    r.append(text::join(&flags, "  or  ").as_str());
    if requested_tokens >= 8192 {
        r.append(
            "\n  Or quantize the KV cache: --cache-type-k q4_0 --cache-type-v q4_0 (cuts KV-cache VRAM by ~4×).",
        );
    } else {
        assert(r@ + Seq::<char>::empty() =~= r@);
    }
    r
}

/// A prompt rendered by the model's own template, if it has one. A rendering
/// that failed, or that fell back to a built-in template, is not used.
pub fn dynamic_template(rendered: Option<(String, bool)>) -> (r: Option<DynamicChatTemplate>)
    ensures
        match rendered {
            Some((prompt, was_explicit)) if was_explicit => r matches Some(t) && t.prompt == prompt,
            _ => r is None,
        },
{
    match rendered {
        Some((prompt, was_explicit)) => if was_explicit {
            Some(DynamicChatTemplate { prompt })
        } else {
            None
        },
        None => None,
    }
}

pub open spec fn corrupt_text() -> Seq<char> {
    "the model produced a numerically invalid result (NaN/Inf logits) and generation was stopped — this is a compute failure, not a bad prompt. Try --no-flash-attn, and --rust-debug for the full diagnostic."@
}

/// The message handed to the caller when a sampled token comes out of a
/// numerically broken distribution.
pub fn corrupt_logits_message() -> (r: String)
    ensures
        r@ == corrupt_text(),
{
    text::copy_text(
        "the model produced a numerically invalid result (NaN/Inf logits) and generation was stopped — this is a compute failure, not a bad prompt. Try --no-flash-attn, and --rust-debug for the full diagnostic.",
    )
}

/// The bytes start with `magic`.
pub open spec fn has_magic(b: Seq<u8>, magic: Seq<u8>) -> bool {
    magic.len() <= b.len() && b.take(magic.len() as int) == magic
}

/// The bytes are those of an audio file: wav, mp3 with or without a tag, or
/// flac.
pub open spec fn looks_like_audio(b: Seq<u8>) -> bool {
    ||| has_magic(b, seq![0x52u8, 0x49, 0x46, 0x46])
    ||| has_magic(b, seq![0x49u8, 0x44, 0x33])
    ||| has_magic(b, seq![0x66u8, 0x4C, 0x61, 0x43])
    ||| b.len() >= 2 && b[0] == 0xFF && b[1] >= 0xE0
}

fn starts_with_bytes(b: &[u8], magic: &[u8]) -> (r: bool)
    ensures
        r == has_magic(b@, magic@),
{
    if magic.len() > b.len() {
        return false;
    }
    let mut i: usize = 0;
    while i < magic.len()
        invariant
            i <= magic@.len() <= b@.len(),
            forall|j: int| 0 <= j < i ==> b@[j] == magic@[j],
        decreases magic.len() - i,
    {
        if b[i] != magic[i] {
            assert(b@.take(magic@.len() as int)[i as int] != magic@[i as int]);
            return false;
        }
        i = i + 1;
    }
    assert(b@.take(magic@.len() as int) =~= magic@);
    true
}

pub fn is_audio(b: &[u8]) -> (r: bool)
    ensures
        r == looks_like_audio(b@),
{
    let riff: [u8; 4] = [0x52, 0x49, 0x46, 0x46];
    let id3: [u8; 3] = [0x49, 0x44, 0x33];
    let flac: [u8; 4] = [0x66, 0x4C, 0x61, 0x43];
    assert(riff@ =~= seq![0x52u8, 0x49, 0x46, 0x46]);
    assert(id3@ =~= seq![0x49u8, 0x44, 0x33]);
    assert(flac@ =~= seq![0x66u8, 0x4C, 0x61, 0x43]);
    starts_with_bytes(b, riff.as_slice()) || starts_with_bytes(b, id3.as_slice())
        || starts_with_bytes(b, flac.as_slice()) || (b.len() >= 2 && b[0] == 0xFF && b[1] >= 0xE0)
}

/// One of the media is audio.
pub open spec fn any_audio(media: Seq<Vec<u8>>) -> bool {
    exists|i: int| 0 <= i < media.len() && looks_like_audio(#[trigger] media[i]@)
}

/// What a loaded projector can do.
#[derive(Debug, Clone, Copy)]
pub struct Projector {
    pub use_mrope: bool,
    pub support_vision: bool,
    pub support_audio: bool,
}

/// Why media input is refused.
#[derive(Debug, Clone, Copy, PartialEq, Eq, Structural)]
pub enum MediaRefusal {
    NotConfigured,
    MRope,
    NoAudio,
    NoVision,
}

impl MediaRefusal {
    pub open spec fn text(self) -> Seq<char> {
        match self {
            MediaRefusal::NotConfigured =>
                "Multimodal not configured: load the model with a valid mmproj_path"@,
            MediaRefusal::MRope =>
                "This model requires M-RoPE positions, which the current MVP does not yet plumb through the decode loop. Image/audio input is refused; text-only requests still work via generate_streaming."@,
            MediaRefusal::NoAudio =>
                "This mmproj does not support audio input (vision-only projector)"@,
            MediaRefusal::NoVision => "This mmproj does not support image input"@,
        }
    }

    /// The message for the client.
    pub fn message(self) -> (r: &'static str)
        ensures
            r@ == self.text(),
    {
        match self {
            MediaRefusal::NotConfigured =>
                "Multimodal not configured: load the model with a valid mmproj_path",
            MediaRefusal::MRope =>
                "This model requires M-RoPE positions, which the current MVP does not yet plumb through the decode loop. Image/audio input is refused; text-only requests still work via generate_streaming.",
            MediaRefusal::NoAudio =>
                "This mmproj does not support audio input (vision-only projector)",
            MediaRefusal::NoVision => "This mmproj does not support image input",
        }
    }
}

/// The refusal that media meet with a projector, if any.
pub open spec fn refusal(projector: Option<Projector>, media: Seq<Vec<u8>>) -> Option<MediaRefusal> {
    match projector {
        None => Some(MediaRefusal::NotConfigured),
        Some(p) => if p.use_mrope {
            Some(MediaRefusal::MRope)
        } else if any_audio(media) && !p.support_audio {
            Some(MediaRefusal::NoAudio)
        } else if !any_audio(media) && media.len() > 0 && !p.support_vision {
            Some(MediaRefusal::NoVision)
        } else {
            None
        },
    }
}

/// Whether the loaded projector, if there is one, can take the media.
pub fn check_media(projector: Option<Projector>, media: &[Vec<u8>]) -> (r: Option<MediaRefusal>)
    ensures
        r == refusal(projector, media@),
{
    let mut audio: bool = false;
    let mut i: usize = 0;
    while i < media.len() && !audio
        invariant
            i <= media@.len(),
            audio ==> any_audio(media@),
            !audio ==> forall|j: int| 0 <= j < i ==> !looks_like_audio(#[trigger] media@[j]@),
        decreases media.len() - i,
    {
        if is_audio(&media[i]) {
            assert(looks_like_audio(media@[i as int]@));
            audio = true;
        }
        i = i + 1;
    }
    match projector {
        None => Some(MediaRefusal::NotConfigured),
        Some(p) => if p.use_mrope {
            Some(MediaRefusal::MRope)
        } else if audio && !p.support_audio {
            Some(MediaRefusal::NoAudio)
        } else if !audio && media.len() > 0 && !p.support_vision {
            Some(MediaRefusal::NoVision)
        } else {
            None
        },
    }
}

/// What sampling brought in the sequential loop.
#[derive(Debug)]
pub enum Draw {
    /// A token with a NaN or infinite logit.
    Corrupt,
    /// An end-of-generation token.
    Eog,
    /// A token's text.
    Piece(String),
    /// A token that could not be turned into text.
    Untranslatable,
}

/// What the sequential loop does with a sampled token.
#[derive(Debug)]
pub enum Step {
    /// End with this error.
    Fail(String),
    /// Hand over the text, and end.
    End { text: String },
    /// Hand over the text, and decode the token.
    Decode { text: String },
}

/// One sequential generation.
#[derive(Debug)]
pub struct Generation {
    /// The tokens of the prompt.
    pub tokens_prompt: u32,
    /// The position of the next token.
    pub n_cur: i64,
    /// The last position the budget reaches.
    pub n_len: i64,
    pub max_tokens: u32,
    pub tokens_generated: u32,
    /// Trailing text that could still grow into a stop or filter sequence.
    pub pending: String,
    pub stop_sequences: Vec<String>,
    pub filter_sequences: Vec<String>,
    /// Why the loop has ended, once it has.
    pub ended: Option<StopReason>,
}

impl Generation {
    /// Positions and counts fit their types.
    pub open spec fn wf(self) -> bool {
        &&& self.n_len <= 2 * u32::MAX
        &&& self.tokens_generated <= self.max_tokens
        &&& -0x8000_0000 <= self.n_cur <= 0x1_0000_0000 + self.tokens_generated
    }

    /// The loop goes on.
    pub open spec fn goes_on(self) -> bool {
        self.ended is None && self.n_cur <= self.n_len && self.tokens_generated < self.max_tokens
    }

    /// Everything but the buffer and the end is as it was.
    pub open spec fn same_place(self, before: Generation) -> bool {
        &&& self.tokens_prompt == before.tokens_prompt
        &&& self.n_cur == before.n_cur
        &&& self.n_len == before.n_len
        &&& self.max_tokens == before.max_tokens
        &&& self.tokens_generated == before.tokens_generated
        &&& self.stop_sequences == before.stop_sequences
        &&& self.filter_sequences == before.filter_sequences
    }

    /// A generation after a prompt of `tokens_prompt` tokens that ends at
    /// position `n_cur`, with room for `max_tokens` more.
    pub fn new(
        tokens_prompt: u32,
        n_cur: i32,
        max_tokens: u32,
        stop_sequences: &[String],
        filter_sequences: &[String],
    ) -> (r: Generation)
        ensures
            r.wf(),
            r.tokens_prompt == tokens_prompt,
            r.n_cur == n_cur,
            r.n_len == tokens_prompt + max_tokens,
            r.max_tokens == max_tokens,
            r.tokens_generated == 0,
            r.pending@.len() == 0,
            text::views(r.stop_sequences@) == text::views(stop_sequences@),
            text::views(r.filter_sequences@) == text::views(filter_sequences@),
            r.ended is None,
    {
        Generation {
            tokens_prompt,
            n_cur: n_cur as i64,
            n_len: tokens_prompt as i64 + max_tokens as i64,
            max_tokens,
            tokens_generated: 0,
            pending: String::new(),
            stop_sequences: text::copy_texts(stop_sequences),
            filter_sequences: text::copy_texts(filter_sequences),
            ended: None,
        }
    }

    /// Whether to sample another token.
    pub fn wants_token(&self) -> (r: bool)
        ensures
            r == self.goes_on(),
    {
        self.ended.is_none() && self.n_cur <= self.n_len && self.tokens_generated < self.max_tokens
    }

    /// What becomes of the text in the buffer with a piece appended.
    pub open spec fn piece_fed(self, piece: Seq<char>) -> output::Fed {
        output::fed(
            self.pending@ + piece,
            text::views(self.stop_sequences@),
            text::views(self.filter_sequences@),
        )
    }

    /// Takes a sampled token.
    pub fn take(&mut self, draw: &Draw) -> (r: Step)
        requires
            old(self).goes_on(),
            old(self).wf(),
        ensures
            final(self).same_place(*old(self)),
            final(self).wf(),
            match draw {
                Draw::Corrupt => {
                    &&& *final(self) == *old(self)
                    &&& r matches Step::Fail(m)
                    &&& m@ == corrupt_text()
                },
                Draw::Eog => {
                    &&& final(self).pending == old(self).pending
                    &&& final(self).ended == Some(StopReason::Stop)
                    &&& r matches Step::End { text }
                    &&& text@.len() == 0
                },
                Draw::Untranslatable => {
                    &&& final(self).pending == old(self).pending
                    &&& final(self).ended == Some(StopReason::Length)
                    &&& r matches Step::End { text }
                    &&& text@.len() == 0
                },
                Draw::Piece(p) => match old(self).piece_fed(p@) {
                    output::Fed::Stop { out } => {
                        &&& final(self).pending@.len() == 0
                        &&& final(self).ended == Some(StopReason::Stop)
                        &&& r matches Step::End { text }
                        &&& text@ == out
                    },
                    output::Fed::Emit { out, held } => {
                        &&& final(self).pending@ == held
                        &&& final(self).ended is None
                        &&& r matches Step::Decode { text }
                        &&& text@ == out
                    },
                },
            },
    {
        match draw {
            Draw::Corrupt => Step::Fail(corrupt_logits_message()),
            Draw::Eog => {
                self.ended = Some(StopReason::Stop);
                Step::End { text: String::new() }
            },
            Draw::Untranslatable => {
                self.ended = Some(StopReason::Length);
                Step::End { text: String::new() }
            },
            Draw::Piece(p) => match output::process_piece(
                &mut self.pending,
                &self.stop_sequences,
                &self.filter_sequences,
                p.as_str(),
            ) {
                PieceOutcome::Emit(text) => Step::Decode { text },
                PieceOutcome::Stop(text) => {
                    self.ended = Some(StopReason::Stop);
                    Step::End { text }
                },
            },
        }
    }

    /// Notes that the last token taken has been decoded.
    pub fn note_decoded(&mut self)
        requires
            old(self).goes_on(),
            old(self).wf(),
        ensures
            final(self).wf(),
            *final(self) == (Generation {
                n_cur: (old(self).n_cur + 1) as i64,
                tokens_generated: (old(self).tokens_generated + 1) as u32,
                ..*old(self)
            }),
    {
        self.n_cur = self.n_cur + 1;
        self.tokens_generated = self.tokens_generated + 1;
    }

    /// Why a generation that no longer goes on has ended.
    pub open spec fn reason(self) -> StopReason {
        match self.ended {
            Some(r) => r,
            None => StopReason::Length,
        }
    }

    /// Ends the generation: the text still owed to the client, and the reason.
    /// What is held back is a partial marker after a stop, and ordinary text
    /// when the budget ran out.
    pub fn finish(&mut self) -> (r: (String, StopReason))
        ensures
            r.1 == old(self).reason(),
            r.0@ == if old(self).reason() == StopReason::Length {
                old(self).pending@
            } else {
                Seq::empty()
            },
            final(self).same_place(*old(self)),
            final(self).ended == old(self).ended,
            final(self).pending@ == if old(self).reason() == StopReason::Length {
                Seq::empty()
            } else {
                old(self).pending@
            },
    {
        let reason: StopReason = match self.ended {
            Some(r) => r,
            None => StopReason::Length,
        };
        match reason {
            StopReason::Length => (output::flush(&mut self.pending), reason),
            StopReason::Stop => (String::new(), reason),
        }
    }
}

/// The generation's text has gone through the output filter piece by piece.
pub open spec fn filtering(g: Generation, pieces: Seq<Seq<char>>) -> bool {
    let s = output::streamed(
        pieces,
        text::views(g.stop_sequences@),
        text::views(g.filter_sequences@),
    );
    !s.stopped && g.pending@ == s.held
}

/// What the client should have been sent after some pieces.
pub open spec fn sent(g: Generation, pieces: Seq<Seq<char>>) -> Seq<char> {
    output::streamed(
        pieces,
        text::views(g.stop_sequences@),
        text::views(g.filter_sequences@),
    ).out
}

/// The sequential loop sends exactly what the output filter lets through: `b`
/// and `r` being what [`Generation::take`] makes of a piece, the client is sent
/// the filtered text, and the buffer stays in step.
pub proof fn law_generation_sends_the_filtered_stream(
    a: Generation,
    pieces: Seq<Seq<char>>,
    piece: Seq<char>,
    b: Generation,
)
    requires
        filtering(a, pieces),
        b.same_place(a),
        a.piece_fed(piece) matches output::Fed::Emit { held, .. } ==> b.pending@ == held,
    ensures
        match a.piece_fed(piece) {
            output::Fed::Emit { out, held } => filtering(b, pieces.push(piece)) && sent(
                b,
                pieces.push(piece),
            ) == sent(a, pieces) + out,
            output::Fed::Stop { out } => sent(b, pieces.push(piece)) == sent(a, pieces) + out,
        },
{
    assert(pieces.push(piece).drop_last() =~= pieces);
}

pub open spec fn decode_failed_text(generated: u32, cause: Option<Seq<char>>) -> Seq<char> {
    "Decode failed at token "@ + text::decimal(generated as nat) + match cause {
        Some(c) => ": "@ + c,
        None => Seq::empty(),
    }
}

/// The message for a decode that failed after `generated` tokens. A stream does
/// not name the cause.
pub fn decode_failed(generated: u32, cause: Option<&str>) -> (r: String)
    ensures
        r@ == decode_failed_text(
            generated,
            match cause {
                Some(c) => Some(c@),
                None => None,
            },
        ),
{
    let mut r: String = text::copy_text("Decode failed at token ");
    r.append(text::decimal_text(generated as u64).as_str());
    match cause {
        Some(c) => {
            let ghost before = r@;
            r.append(": ");
            r.append(c);
            assert(r@ =~= before + (": "@ + c@));
        },
        None => {
            assert(r@ =~= r@ + Seq::<char>::empty());
        },
    }
    r
}

/// What to decode for one text to embed.
#[derive(Debug)]
pub enum Embedding {
    /// No token: the embedding is the zero vector.
    Zero,
    /// Decode these tokens in one batch, all yielding output.
    Decode(Vec<i32>),
}

/// The tokens to embed: no more than the context holds.
pub fn plan_embedding(tokens: Vec<i32>, n_ctx: u32) -> (r: Embedding)
    ensures
        ({
            let kept = if tokens@.len() > n_ctx {
                tokens@.take(n_ctx as int)
            } else {
                tokens@
            };
            if kept.len() == 0 {
                r is Zero
            } else {
                r matches Embedding::Decode(t) && t@ == kept
            }
        }),
{
    let mut t: Vec<i32> = tokens;
    if t.len() as u64 > n_ctx as u64 {
        t.truncate(n_ctx as usize);
        assert(t@ =~= tokens@.take(n_ctx as int));
    }
    if t.len() == 0 {
        Embedding::Zero
    } else {
        Embedding::Decode(t)
    }
}

/// Media are refused where nothing reads them: without a projector, with one
/// whose positions are not supported, audio without ears, and images without
/// eyes. Everything else is let through.
pub proof fn law_media_need_a_projector_that_reads_them(
    projector: Option<Projector>,
    media: Seq<Vec<u8>>,
)
    ensures
        ({
            let audio = exists|i: int|
                0 <= i < media.len() && looks_like_audio(#[trigger] media[i]@);
            &&& projector is None ==> refusal(projector, media) == Some(
                MediaRefusal::NotConfigured,
            )
            &&& projector matches Some(p) ==> {
                &&& p.use_mrope ==> refusal(projector, media) == Some(MediaRefusal::MRope)
                &&& !p.use_mrope && audio && !p.support_audio ==> refusal(projector, media)
                    == Some(MediaRefusal::NoAudio)
                &&& !p.use_mrope && !audio && media.len() > 0 && !p.support_vision ==> refusal(
                    projector,
                    media,
                ) == Some(MediaRefusal::NoVision)
                &&& !p.use_mrope && ((audio && p.support_audio) || (!audio && p.support_vision)
                    || media.len() == 0) ==> refusal(projector, media) is None
            }
        }),
{
}

/// Audio is told by how its bytes begin.
pub proof fn law_audio_is_told_by_its_beginning(b: Seq<u8>)
    ensures
        b.len() >= 4 && b[0] == 'R' as u8 && b[1] == 'I' as u8 && b[2] == 'F' as u8 && b[3]
            == 'F' as u8 ==> looks_like_audio(b),
        b.len() >= 3 && b[0] == 'I' as u8 && b[1] == 'D' as u8 && b[2] == '3' as u8
            ==> looks_like_audio(b),
        b.len() >= 4 && b[0] == 'f' as u8 && b[1] == 'L' as u8 && b[2] == 'a' as u8 && b[3]
            == 'C' as u8 ==> looks_like_audio(b),
        b.len() >= 2 && b[0] == 0xFF && b[1] >= 0xE0 ==> looks_like_audio(b),
        b.len() >= 1 && b[0] != 0x52 && b[0] != 0x49 && b[0] != 0x66 && b[0] != 0xFF
            ==> !looks_like_audio(b),
{
    if b.len() >= 4 {
        assert(b[0] == 0x52 && b[1] == 0x49 && b[2] == 0x46 && b[3] == 0x46 ==> b.take(4)
            =~= seq![0x52u8, 0x49, 0x46, 0x46]);
        assert(b[0] == 0x66 && b[1] == 0x4C && b[2] == 0x61 && b[3] == 0x43 ==> b.take(4)
            =~= seq![0x66u8, 0x4C, 0x61, 0x43]);
    }
    if b.len() >= 3 {
        assert(b[0] == 0x49 && b[1] == 0x44 && b[2] == 0x33 ==> b.take(3)
            =~= seq![0x49u8, 0x44, 0x33]);
    }
    if looks_like_audio(b) && b.len() >= 1 {
        let (r, i, f) = (
            seq![0x52u8, 0x49, 0x46, 0x46],
            seq![0x49u8, 0x44, 0x33],
            seq![0x66u8, 0x4C, 0x61, 0x43],
        );
        if has_magic(b, r) {
            assert(b.take(4)[0] == r[0]);
        } else if has_magic(b, i) {
            assert(b.take(3)[0] == i[0]);
        } else if has_magic(b, f) {
            assert(b.take(4)[0] == f[0]);
        }
    }
}

/// A context that does not fit is halved, down to 512 tokens and no further.
pub proof fn law_a_context_is_halved_down_to_a_floor(c: u32)
    ensures
        c <= 512 ==> smaller_context(c) is None,
        c >= 1024 ==> smaller_context(c) == Some((c / 2) as u32),
        512 < c < 1024 ==> smaller_context(c) == Some(512u32),
{
}

/// Each layer has a pattern of its own, in which its number stands as it is
/// written.
pub proof fn law_a_pattern_is_for_one_layer(a: nat, b: nat)
    ensures
        expert_pattern(a) == "blk\\."@ + text::decimal(a)
            + "\\.ffn_(up|down|gate|gate_up)_(ch|)exps"@,
        expert_pattern(a) == expert_pattern(b) <==> a == b,
{
    let front = "blk\\."@;
    let back = "\\.ffn_(up|down|gate|gate_up)_(ch|)exps"@;
    let (x, y) = (text::decimal(a), text::decimal(b));
    if expert_pattern(a) == expert_pattern(b) {
        let (p, q) = (front + x + back, front + y + back);
        assert(p.len() == front.len() + x.len() + back.len());
        assert(q.len() == front.len() + y.len() + back.len());
        let n = front.len() as int;
        assert(p.subrange(n, n + x.len()) =~= x);
        assert(q.subrange(n, n + y.len()) =~= y);
        text::law_numbers_read_as_they_are_written(a);
        text::law_numbers_read_as_they_are_written(b);
    }
}

/// The cache types that were asked for are tried first, f16 last, and between
/// them, for two different unnamed types, the one with the higher id for both.
pub proof fn law_f16_is_the_last_resort(k: KvCacheType, v: KvCacheType, try_heavier: bool)
    ensures
        ({
            let s = attempts(k, v, try_heavier);
            &&& s[0] == (k, v)
            &&& s.last() == (KvCacheType::F16, KvCacheType::F16)
            &&& k == KvCacheType::F16 && v == KvCacheType::F16 ==> s.len() == 1
            &&& match (k, v) {
                (KvCacheType::Unknown(a), KvCacheType::Unknown(b)) => if try_heavier && a != b {
                    let h = KvCacheType::Unknown(
                        if a > b {
                            a
                        } else {
                            b
                        },
                    );
                    s.len() == 3 && s[1] == (h, h)
                } else {
                    s.len() == 2
                },
                _ => s.len() <= 2,
            }
        }),
{
}

/// Half and a quarter of a context are suggested, down to 512 tokens.
pub proof fn law_smaller_contexts_are_suggested(requested: u32)
    ensures
        requested < 1024 ==> suggestions(requested).len() == 0,
        requested >= 1024 ==> suggestions(requested).len() >= 1 && suggestions(requested)[0]
            == "--ctx-size "@ + text::decimal((requested / 2) as nat),
        1024 <= requested < 2048 ==> suggestions(requested).len() == 1,
        requested >= 2048 ==> suggestions(requested).len() == 2 && suggestions(requested)[1]
            == "--ctx-size "@ + text::decimal((requested / 4) as nat),
{
}

} // verus!
