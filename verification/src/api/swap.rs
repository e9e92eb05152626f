//! How a model is put into the slot, and what makes room for it.
use crate::api::auth::opt_view;
use crate::api::models;
use crate::api::models::ModelError;
use crate::fit;
use crate::fit::{FitDecision, FitOutcome, GgufInfo, MoeFitDecision, MoeLayout};
use crate::inference::kv_cache;
use crate::inference::kv_cache::KvCacheType;
use crate::inference::scheduler::SchedulerConfig;
use crate::inference::InferenceConfig;
use crate::text;
use vstd::prelude::*;

verus! {

/// The settings that every load of a server shares.
#[derive(Debug, Clone)]
pub struct LoadSettings {
    pub gpu_layers: i32,
    /// Size the GPU offload against the free VRAM before every load.
    pub fit: bool,
    /// With `fit`, a model that does not fully fit is not loaded.
    pub fit_strict: bool,
    pub ctx_size: u32,
    pub threads: u32,
    pub flash_attn: bool,
    pub n_batch: u32,
    pub cache_type_k: KvCacheType,
    pub cache_type_v: KvCacheType,
    /// 0 is sequential, more is continuous batching with this many slots.
    pub batch_size: usize,
    pub cpu_moe: bool,
    pub n_cpu_moe: u32,
    pub rs_seq: u32,
    pub ctx_checkpoints: usize,
    pub checkpoint_min_step: u32,
}

/// What was measured before a load: the free VRAM, once the previous model is
/// gone, and what the model's file says of itself.
#[derive(Debug, Clone)]
pub struct ModelFacts {
    pub free_vram: Option<u64>,
    pub info: Option<GgufInfo>,
    pub layout: Option<MoeLayout>,
    pub file_size: u64,
}

/// How a model is spread over GPU and CPU.
#[derive(Debug, Clone, Copy, PartialEq, Eq, Structural)]
pub struct Offload {
    pub gpu_layers: i32,
    pub cpu_moe: bool,
    pub n_cpu_moe: u32,
}

pub open spec fn info_of(facts: ModelFacts) -> Option<&'static GgufInfo> {
    match facts.info {
        Some(i) => Some(&i),
        None => None,
    }
}

pub open spec fn layout_of(facts: ModelFacts) -> Option<&'static MoeLayout> {
    match facts.layout {
        Some(l) => Some(&l),
        None => None,
    }
}

/// What the MoE sizing says. It is asked only where no expert placement was
/// set by hand.
pub open spec fn moe_sized(
    settings: LoadSettings,
    facts: ModelFacts,
    ctx: u32,
    bk: u32,
    bv: u32,
) -> MoeFitDecision {
    if !settings.cpu_moe && settings.n_cpu_moe == 0 {
        fit::moe_fit(facts.free_vram, info_of(facts), layout_of(facts), ctx, bk, bv)
    } else {
        MoeFitDecision::NotMoe
    }
}

/// The spread before the ceiling: a MoE model is sized by its experts, which
/// always comes to something that loads; any other by whole layers, and a
/// strict server refuses a partial split.
pub open spec fn sized(
    settings: LoadSettings,
    facts: ModelFacts,
    ctx: u32,
    bk: u32,
    bv: u32,
) -> Option<Offload> {
    match moe_sized(settings, facts, ctx, bk, bv) {
        MoeFitDecision::Proceed { n_cpu_moe } if n_cpu_moe > 0 => Some(
            Offload { gpu_layers: -1i32, cpu_moe: settings.cpu_moe, n_cpu_moe },
        ),
        MoeFitDecision::ProceedCpuMoeAndPartial { gpu_layers } => Some(
            Offload { gpu_layers, cpu_moe: true, n_cpu_moe: settings.n_cpu_moe },
        ),
        _ => match fit::headless(
            facts.free_vram,
            info_of(facts),
            facts.file_size,
            settings.gpu_layers,
            ctx,
            settings.fit_strict,
            bk,
            bv,
        ) {
            FitOutcome::Proceed(n) => Some(
                Offload {
                    gpu_layers: n,
                    cpu_moe: settings.cpu_moe,
                    n_cpu_moe: settings.n_cpu_moe,
                },
            ),
            FitOutcome::Abort => None,
        },
    }
}

/// The spread of a model. Without `fit` the settings hold as they are; with it,
/// the configured layer count is a ceiling and no more.
pub open spec fn offload(
    settings: LoadSettings,
    facts: ModelFacts,
    ctx: u32,
    bk: u32,
    bv: u32,
) -> Option<Offload> {
    if !settings.fit {
        Some(
            Offload {
                gpu_layers: settings.gpu_layers,
                cpu_moe: settings.cpu_moe,
                n_cpu_moe: settings.n_cpu_moe,
            },
        )
    } else {
        match sized(settings, facts, ctx, bk, bv) {
            Some(o) => Some(
                Offload { gpu_layers: fit::ceiled(o.gpu_layers, settings.gpu_layers), ..o },
            ),
            None => None,
        }
    }
}

fn size_offload(settings: &LoadSettings, facts: &ModelFacts, ctx: u32, bk: u32, bv: u32) -> (r:
    Option<Offload>)
    ensures
        r == offload(*settings, *facts, ctx, bk, bv),
{
    let as_set: Offload = Offload {
        gpu_layers: settings.gpu_layers,
        cpu_moe: settings.cpu_moe,
        n_cpu_moe: settings.n_cpu_moe,
    };
    if !settings.fit {
        return Some(as_set);
    }
    let moe: MoeFitDecision = if !settings.cpu_moe && settings.n_cpu_moe == 0 {
        fit::compute_moe_fit(
            facts.free_vram,
            facts.info.as_ref(),
            facts.layout.as_ref(),
            ctx,
            bk,
            bv,
        )
    } else {
        MoeFitDecision::NotMoe
    };
    let spread: Offload = match moe {
        MoeFitDecision::Proceed { n_cpu_moe } if n_cpu_moe > 0 => Offload {
            gpu_layers: -1,
            cpu_moe: settings.cpu_moe,
            n_cpu_moe,
        },
        MoeFitDecision::ProceedCpuMoeAndPartial { gpu_layers } => Offload {
            gpu_layers,
            cpu_moe: true,
            n_cpu_moe: settings.n_cpu_moe,
        },
        _ => match fit::run_fit_headless(
            facts.free_vram,
            facts.info.as_ref(),
            facts.file_size,
            settings.gpu_layers,
            ctx,
            settings.fit_strict,
            bk,
            bv,
        ) {
            FitOutcome::Proceed(n) => Offload {
                gpu_layers: n,
                cpu_moe: settings.cpu_moe,
                n_cpu_moe: settings.n_cpu_moe,
            },
            FitOutcome::Abort => {
                return None;
            },
        },
    };
    Some(
        Offload {
            gpu_layers: fit::apply_gpu_layers_ceiling(spread.gpu_layers, settings.gpu_layers),
            cpu_moe: spread.cpu_moe,
            n_cpu_moe: spread.n_cpu_moe,
        },
    )
}

/// What a load is started with.
#[derive(Debug, Clone)]
pub struct LoadPlan {
    pub config: InferenceConfig,
    /// The batch scheduler to run, or none for the sequential engine.
    pub scheduler: Option<SchedulerConfig>,
    /// The KV cache types were changed to what the model can take.
    pub kv_corrected: bool,
}

/// The slots of a load. A model with a projector runs sequentially: the batch
/// scheduler handles text alone.
pub open spec fn slots(settings: LoadSettings, multimodal: bool, asked: Option<usize>) -> usize {
    if multimodal {
        0
    } else {
        match asked {
            Some(n) => n,
            None => settings.batch_size,
        }
    }
}

/// The context of a load.
pub open spec fn context(settings: LoadSettings, asked: Option<u32>) -> u32 {
    match asked {
        Some(n) => n,
        None => settings.ctx_size,
    }
}

pub open spec fn strict_refusal(name: Seq<char>) -> Seq<char> {
    "--fit-strict: model '"@ + name
        + "' does not fully fit in the currently free VRAM; not loading. Retry without --fit-strict to allow a partial CPU/GPU split."@
}

/// The cache types of a load, and whether they had to be corrected.
pub open spec fn caches(name: Seq<char>, k: KvCacheType, v: KvCacheType) -> (
    KvCacheType,
    KvCacheType,
    bool,
) {
    if kv_cache::names_gemma4(text::lowercase(name)) && (k != KvCacheType::F16 || v
        != KvCacheType::F16) {
        (KvCacheType::F16, KvCacheType::F16, true)
    } else {
        (k, v, false)
    }
}

impl LoadPlan {
    /// The plan for a model at `path`, spread as `o` says.
    pub open spec fn is_for(
        self,
        settings: LoadSettings,
        name: Seq<char>,
        path: Seq<char>,
        mmproj: Option<Seq<char>>,
        batch: Option<usize>,
        ctx: Option<u32>,
        o: Offload,
    ) -> bool {
        let c = self.config;
        let n = slots(settings, mmproj is Some, batch);
        let (k, v, corrected) = caches(name, settings.cache_type_k, settings.cache_type_v);
        &&& c.model_path@ == path
        &&& c.gpu_layers == o.gpu_layers
        &&& c.context_size == context(settings, ctx)
        &&& c.threads == settings.threads
        &&& c.flash_attn == settings.flash_attn
        &&& c.n_batch == settings.n_batch
        &&& c.cache_type_k == k
        &&& c.cache_type_v == v
        &&& same_path(c.mmproj_path, mmproj)
        &&& c.cpu_moe == o.cpu_moe
        &&& c.n_cpu_moe == o.n_cpu_moe
        &&& c.rs_seq == settings.rs_seq
        &&& self.kv_corrected == corrected
        &&& match self.scheduler {
            Some(s) => {
                &&& n > 0
                &&& s.max_batch_size == n
                &&& s.queue_capacity == n * 8
                &&& s.ctx_checkpoints == settings.ctx_checkpoints
                &&& s.checkpoint_min_step == settings.checkpoint_min_step
            },
            None => n == 0,
        }
    }
}

/// Both are absent, or both say the same.
pub open spec fn same_path(a: Option<String>, b: Option<Seq<char>>) -> bool {
    match (a, b) {
        (Some(x), Some(y)) => x@ == y,
        (None, None) => true,
        _ => false,
    }
}

pub open spec fn path_view(a: Option<String>) -> Option<Seq<char>> {
    match a {
        Some(x) => Some(x@),
        None => None,
    }
}

/// Plans the load of a model: its cache types, its context, its spread over
/// GPU and CPU, and how many requests it answers at once.
pub fn plan_load(
    settings: &LoadSettings,
    name: &str,
    path: String,
    mmproj: Option<String>,
    facts: &ModelFacts,
    override_batch_size: Option<usize>,
    override_ctx_size: Option<u32>,
) -> (r: Result<LoadPlan, ModelError>)
    requires
        settings.batch_size * 8 <= usize::MAX,
        override_batch_size matches Some(n) ==> n * 8 <= usize::MAX,
    ensures
        ({
            let (k, v, _) = caches(name@, settings.cache_type_k, settings.cache_type_v);
            match offload(
                *settings,
                *facts,
                context(*settings, override_ctx_size),
                kv_cache::block_bytes(k),
                kv_cache::block_bytes(v),
            ) {
                Some(o) => r matches Ok(plan) && plan.is_for(
                    *settings,
                    name@,
                    path@,
                    path_view(mmproj),
                    override_batch_size,
                    override_ctx_size,
                    o,
                ),
                None => r matches Err(ModelError::LoadFailed(m)) && m@ == strict_refusal(name@),
            }
        }),
{
    let (k, v, kv_corrected): (KvCacheType, KvCacheType, bool) =
        kv_cache::correct_kv_cache_for_model(name, settings.cache_type_k, settings.cache_type_v);
    let ctx: u32 = match override_ctx_size {
        Some(n) => n,
        None => settings.ctx_size,
    };
    let bk: u32 = kv_cache::cache_type_block_bytes(k);
    let bv: u32 = kv_cache::cache_type_block_bytes(v);
    let o: Offload = match size_offload(settings, facts, ctx, bk, bv) {
        Some(o) => o,
        None => {
            let mut m: String = text::copy_text("--fit-strict: model '");
            m.append(name);
            m.append(
                "' does not fully fit in the currently free VRAM; not loading. Retry without --fit-strict to allow a partial CPU/GPU split.",
            );
            return Err(ModelError::LoadFailed(m));
        },
    };
    let n: usize = if mmproj.is_some() {
        0
    } else {
        match override_batch_size {
            Some(n) => n,
            None => settings.batch_size,
        }
    };
    let scheduler: Option<SchedulerConfig> = if n > 0 {
        Some(
            SchedulerConfig {
                max_batch_size: n,
                queue_capacity: n * 8,
                ctx_checkpoints: settings.ctx_checkpoints,
                checkpoint_min_step: settings.checkpoint_min_step,
            },
        )
    } else {
        None
    };
    Ok(
        LoadPlan {
            config: InferenceConfig {
                model_path: path,
                gpu_layers: o.gpu_layers,
                context_size: ctx,
                threads: settings.threads,
                flash_attn: settings.flash_attn,
                n_batch: settings.n_batch,
                cache_type_k: k,
                cache_type_v: v,
                mmproj_path: mmproj,
                cpu_moe: o.cpu_moe,
                n_cpu_moe: o.n_cpu_moe,
                rs_seq: settings.rs_seq,
            },
            scheduler,
            kv_corrected,
        },
    )
}

/// Whether a model is sized by its experts.
pub open spec fn by_experts(d: MoeFitDecision) -> bool {
    match d {
        MoeFitDecision::Proceed { n_cpu_moe } => n_cpu_moe > 0,
        MoeFitDecision::ProceedCpuMoeAndPartial { .. } => true,
        _ => false,
    }
}

/// The decision to report of a load that is sized by whole layers; none where
/// nothing is sized, or the experts are.
pub fn layer_decision(
    settings: &LoadSettings,
    name: &str,
    facts: &ModelFacts,
    override_ctx_size: Option<u32>,
) -> (r: Option<FitDecision>)
    ensures
        ({
            let (k, v, _) = caches(name@, settings.cache_type_k, settings.cache_type_v);
            let (bk, bv) = (kv_cache::block_bytes(k), kv_cache::block_bytes(v));
            let ctx = context(*settings, override_ctx_size);
            if settings.fit && !by_experts(moe_sized(*settings, *facts, ctx, bk, bv)) {
                r matches Some(d) && fit::decided(
                    facts.free_vram,
                    info_of(*facts),
                    facts.file_size,
                    ctx,
                    bk,
                    bv,
                    d,
                )
            } else {
                r is None
            }
        }),
{
    if !settings.fit {
        return None;
    }
    let (k, v, _): (KvCacheType, KvCacheType, bool) = kv_cache::correct_kv_cache_for_model(
        name,
        settings.cache_type_k,
        settings.cache_type_v,
    );
    let ctx: u32 = match override_ctx_size {
        Some(n) => n,
        None => settings.ctx_size,
    };
    let bk: u32 = kv_cache::cache_type_block_bytes(k);
    let bv: u32 = kv_cache::cache_type_block_bytes(v);
    if !settings.cpu_moe && settings.n_cpu_moe == 0 {
        let moe: MoeFitDecision = fit::compute_moe_fit(
            facts.free_vram,
            facts.info.as_ref(),
            facts.layout.as_ref(),
            ctx,
            bk,
            bv,
        );
        match moe {
            MoeFitDecision::Proceed { n_cpu_moe } if n_cpu_moe > 0 => {
                return None;
            },
            MoeFitDecision::ProceedCpuMoeAndPartial { .. } => {
                return None;
            },
            _ => {},
        }
    }
    Some(
        fit::compute_fit(facts.free_vram, facts.info.as_ref(), facts.file_size, ctx, bk, bv),
    )
}

/// A configured layer count bounds every load: no model gets more layers on
/// the GPU than `--gpu-layers` allows, whatever the sizing says.
pub proof fn law_no_load_exceeds_the_layer_ceiling(
    settings: LoadSettings,
    facts: ModelFacts,
    ctx: u32,
    bk: u32,
    bv: u32,
)
    ensures
        offload(settings, facts, ctx, bk, bv) matches Some(o) ==> fit::no_more(
            o.gpu_layers,
            settings.gpu_layers,
        ),
{
    match sized(settings, facts, ctx, bk, bv) {
        Some(o) => {
            fit::law_a_ceiling_never_raises_the_offload(o.gpu_layers, settings.gpu_layers);
        },
        None => {},
    }
}

/// Only a strict server refuses a model for its size.
pub proof fn law_only_strict_refuses(
    settings: LoadSettings,
    facts: ModelFacts,
    ctx: u32,
    bk: u32,
    bv: u32,
)
    ensures
        offload(settings, facts, ctx, bk, bv) is None ==> settings.fit && settings.fit_strict,
{
}

pub open spec fn chosen<A>(stored: Option<A>, beside: Option<A>, fallback: Option<A>) -> Option<A> {
    if stored is Some {
        stored
    } else if beside is Some {
        beside
    } else {
        fallback
    }
}

/// The projector of a model: the one the store declares, else one beside the
/// weights, else the one given on the command line.
pub fn choose_mmproj(
    stored: Option<String>,
    beside: Option<String>,
    fallback: Option<String>,
) -> (r: Option<String>)
    ensures
        r == chosen(stored, beside, fallback),
{
    match stored {
        Some(p) => Some(p),
        None => match beside {
            Some(p) => Some(p),
            None => fallback,
        },
    }
}

/// The VRAM that an embedding model's own buffers take.
pub const EMBEDDING_RESERVE_BYTES: u64 = 268_435_456;

/// What is left of `a` without `b`.
pub open spec fn less(a: int, b: int) -> int {
    if a > b {
        a - b
    } else {
        0
    }
}

/// Whether weights of `additional_bytes` fit in the free VRAM, above the floor
/// that has to stay free and the buffers of an embedding model. An embedding
/// model loads fully or not at all. `vram` holds the free bytes and the floor;
/// where they cannot be read there is no answer.
pub fn fits_in_free_vram(vram: Option<(u64, u64)>, additional_bytes: u64) -> (r: Option<bool>)
    ensures
        r == (match vram {
            Some((free, floor)) => Some(
                additional_bytes <= less(less(free as int, floor as int), 0x1000_0000),
            ),
            None => None,
        }),
        vram matches Some((free, floor)) ==> (additional_bytes > 0 ==> r == Some(
            additional_bytes + 0x1000_0000 + floor <= free,
        )),
{
    match vram {
        Some((free, floor)) => {
            let above: u64 = if free > floor {
                free - floor
            } else {
                0
            };
            let usable: u64 = if above > EMBEDDING_RESERVE_BYTES {
                above - EMBEDDING_RESERVE_BYTES
            } else {
                0
            };
            Some(additional_bytes <= usable)
        },
        None => None,
    }
}

/// What a request for an embedding model leads to.
#[derive(Debug, Clone, Copy, PartialEq, Eq, Structural)]
pub enum Residency {
    /// It is loaded already.
    Reuse,
    /// Load it beside whatever is in the main slot.
    Coexist,
    /// Unload the main slot, then load it.
    EvictMain,
}

/// Whether an embedding model is loaded beside the generation model or in its
/// place. What cannot be measured is taken to fit, and a real shortage shows
/// as a failed load.
pub open spec fn residency(
    loaded: Option<Seq<char>>,
    name: Seq<char>,
    main_loaded: bool,
    fits: Option<bool>,
) -> Residency {
    if loaded matches Some(l) && models::identity(l) == models::identity(
        models::normalized(name),
    ) {
        Residency::Reuse
    } else if main_loaded && fits == Some(false) {
        Residency::EvictMain
    } else {
        Residency::Coexist
    }
}

/// A count after one more event, if there was one. It wraps around.
pub open spec fn counted(count: u64, event: bool) -> int {
    if !event {
        count as int
    } else if count == u64::MAX {
        0
    } else {
        count + 1
    }
}

/// Decides on an embedding model and counts the eviction, where it comes to
/// one.
pub fn ensure_embedding_model(
    loaded: Option<&str>,
    name: &str,
    main_loaded: bool,
    fits: Option<bool>,
    evictions: &mut u64,
) -> (r: Residency)
    ensures
        r == residency(opt_view(loaded), name@, main_loaded, fits),
        *final(evictions) == counted(*old(evictions), r is EvictMain),
{
    match loaded {
        Some(l) => {
            let a: String = models::model_identity_key(l);
            let n: String = models::normalize_model_name(name);
            let b: String = models::model_identity_key(n.as_str());
            if text::same_text(a.as_str(), b.as_str()) {
                return Residency::Reuse;
            }
        },
        None => {},
    }
    let crowded: bool = match fits {
        Some(f) => !f,
        None => false,
    };
    if main_loaded && crowded {
        *evictions = evictions.wrapping_add(1);
        Residency::EvictMain
    } else {
        Residency::Coexist
    }
}

/// Whether the embedding model has to go before a generation model is loaded:
/// it would shrink the free VRAM that the load is sized against. Without `fit`
/// nothing is sized, and it stays.
pub fn evict_embedding_for_load(fit: bool, embedding_loaded: bool, evictions: &mut u64) -> (r: bool)
    ensures
        r == (fit && embedding_loaded),
        *final(evictions) == counted(*old(evictions), r),
{
    if fit && embedding_loaded {
        *evictions = evictions.wrapping_add(1);
        true
    } else {
        false
    }
}

/// The generation model is unloaded for an embedding model only where the
/// measured VRAM does not hold both.
pub proof fn law_eviction_needs_a_measured_shortage(
    loaded: Option<Seq<char>>,
    name: Seq<char>,
    main_loaded: bool,
    fits: Option<bool>,
)
    ensures
        residency(loaded, name, main_loaded, fits) is EvictMain ==> main_loaded && fits == Some(
            false,
        ),
{
}

/// How far a swap has come.
#[derive(Debug)]
pub enum Phase {
    /// The weights are being looked for.
    Resolving,
    /// The weights have been found, and the loaded model is on its way out.
    Unloading { path: String, mmproj: Option<String> },
    /// The slot is empty, and the room for the new model is being measured.
    Measuring { path: String, mmproj: Option<String> },
    /// The new model is being loaded.
    Loading,
    Over,
}

/// A swap under way: what is in the slot, and what was asked for.
#[derive(Debug)]
pub struct Swap {
    /// The name of the model in the slot.
    pub slot: Option<String>,
    /// The normalized name that was asked for.
    pub name: String,
    pub batch_size: Option<usize>,
    pub ctx_size: Option<u32>,
    pub phase: Phase,
}

/// Why a model that was found did not load.
#[derive(Debug)]
pub enum LoadFailure {
    Engine(String),
    Scheduler(String),
    /// The task that loaded it did not come back.
    Task(String),
}

/// What came of the last action of a swap.
#[derive(Debug)]
pub enum SwapEvent {
    /// The weights are at `path`; the projectors that the store declares, that
    /// stands beside them, and that the command line gives.
    Found {
        path: String,
        stored: Option<String>,
        beside: Option<String>,
        fallback: Option<String>,
    },
    NotFound,
    /// The slot is empty, unless the model's thread could not be joined.
    Unloaded { failure: Option<String>, embedding_loaded: bool },
    Measured(ModelFacts),
    Loaded { failure: Option<LoadFailure> },
}

/// What a swap needs done next.
#[derive(Debug)]
pub enum SwapAction {
    /// Look for the weights.
    Resolve,
    /// Empty the slot, and wait until the model's memory is free.
    Unload,
    /// Measure the free memory, once the embedding model is gone where it has
    /// to go.
    Measure { evict_embedding: bool },
    Load(LoadPlan),
    /// Nothing more: the swap's result.
    Finish(Result<(), ModelError>),
}

/// What is said of a model that did not load.
pub open spec fn failure_text(f: LoadFailure) -> Seq<char> {
    match f {
        LoadFailure::Engine(e) => "Failed to load model: "@ + e@,
        LoadFailure::Scheduler(e) => "Failed to start scheduler: "@ + e@,
        LoadFailure::Task(e) => "Task join error: "@ + e@,
    }
}

fn failure_message(f: &LoadFailure) -> (r: String)
    ensures
        r@ == failure_text(*f),
{
    match f {
        LoadFailure::Engine(e) => {
            let mut r: String = text::copy_text("Failed to load model: ");
            r.append(e.as_str());
            r
        },
        LoadFailure::Scheduler(e) => {
            let mut r: String = text::copy_text("Failed to start scheduler: ");
            r.append(e.as_str());
            r
        },
        LoadFailure::Task(e) => {
            let mut r: String = text::copy_text("Task join error: ");
            r.append(e.as_str());
            r
        },
    }
}

impl SwapAction {
    /// The swap ends because the model could not be loaded.
    pub open spec fn gives_up(self, message: Seq<char>) -> bool {
        self matches SwapAction::Finish(Err(ModelError::LoadFailed(m))) && m@ == message
    }
}

impl Swap {
    /// From the unloading on the slot is empty: there are never two models.
    pub open spec fn wf(self) -> bool {
        &&& self.phase is Measuring || self.phase is Loading ==> self.slot is None
        &&& self.batch_size matches Some(n) ==> n * 8 <= usize::MAX
    }

    /// The event is what came of the action that the phase waits for.
    pub open spec fn awaits(self, event: SwapEvent) -> bool {
        match event {
            SwapEvent::Found { .. } | SwapEvent::NotFound => self.phase is Resolving,
            SwapEvent::Unloaded { .. } => self.phase is Unloading,
            SwapEvent::Measured(_) => self.phase is Measuring,
            SwapEvent::Loaded { .. } => self.phase is Loading,
        }
    }

    /// What was asked for stays as it is.
    pub open spec fn same_request(self, before: Swap) -> bool {
        &&& self.name == before.name
        &&& self.batch_size == before.batch_size
        &&& self.ctx_size == before.ctx_size
    }

    /// Begins a swap, unless the model that is asked for is in the slot already.
    pub fn begin(
        slot: Option<String>,
        name: &str,
        batch_size: Option<usize>,
        ctx_size: Option<u32>,
    ) -> (r: (Swap, SwapAction))
        requires
            batch_size matches Some(n) ==> n * 8 <= usize::MAX,
        ensures
            r.0.wf(),
            r.0.slot == slot,
            r.0.name@ == models::normalized(name@),
            r.0.batch_size == batch_size,
            r.0.ctx_size == ctx_size,
            if slot matches Some(l) && models::identity(l@) == models::identity(r.0.name@) {
                r.0.phase is Over && r.1 == SwapAction::Finish(Ok(()))
            } else {
                r.0.phase is Resolving && r.1 is Resolve
            },
    {
        let name: String = models::normalize_model_name(name);
        let held: bool = match &slot {
            Some(l) => {
                let a: String = models::model_identity_key(l.as_str());
                let b: String = models::model_identity_key(name.as_str());
                text::same_text(a.as_str(), b.as_str())
            },
            None => false,
        };
        if held {
            (
                Swap { slot, name, batch_size, ctx_size, phase: Phase::Over },
                SwapAction::Finish(Ok(())),
            )
        } else {
            (
                Swap { slot, name, batch_size, ctx_size, phase: Phase::Resolving },
                SwapAction::Resolve,
            )
        }
    }

    /// Takes a swap one step further. The loaded model goes only once the new
    /// one's weights have been found; where they are not, it stays.
    pub fn step(&mut self, settings: &LoadSettings, event: SwapEvent, evictions: &mut u64) -> (r:
        SwapAction)
        requires
            old(self).wf(),
            old(self).awaits(event),
            settings.batch_size * 8 <= usize::MAX,
        ensures
            final(self).wf(),
            final(self).same_request(*old(self)),
            *final(evictions) == counted(
                *old(evictions),
                r matches SwapAction::Measure { evict_embedding } && evict_embedding,
            ),
            stepped(*old(self), *settings, event, *final(self), r),
    {
        match event {
            SwapEvent::NotFound => {
                self.phase = Phase::Over;
                match models::resolved(self.name.as_str(), None) {
                    Ok(_) => SwapAction::Finish(Ok(())),
                    Err(e) => SwapAction::Finish(Err(e)),
                }
            },
            SwapEvent::Found { path, stored, beside, fallback } => {
                let mmproj: Option<String> = choose_mmproj(stored, beside, fallback);
                self.phase = Phase::Unloading { path, mmproj };
                SwapAction::Unload
            },
            SwapEvent::Unloaded { failure, embedding_loaded } => {
                self.slot = None;
                let mut phase: Phase = Phase::Over;
                std::mem::swap(&mut self.phase, &mut phase);
                match failure {
                    Some(e) => SwapAction::Finish(Err(ModelError::LoadFailed(e))),
                    None => {
                        if let Phase::Unloading { path, mmproj } = phase {
                            self.phase = Phase::Measuring { path, mmproj };
                        }
                        SwapAction::Measure {
                            evict_embedding: evict_embedding_for_load(
                                settings.fit,
                                embedding_loaded,
                                evictions,
                            ),
                        }
                    },
                }
            },
            SwapEvent::Measured(facts) => {
                let mut phase: Phase = Phase::Over;
                std::mem::swap(&mut self.phase, &mut phase);
                let (path, mmproj): (String, Option<String>) = match phase {
                    Phase::Measuring { path, mmproj } => (path, mmproj),
                    _ => (String::new(), None),
                };
                match plan_load(
                    settings,
                    self.name.as_str(),
                    path,
                    mmproj,
                    &facts,
                    self.batch_size,
                    self.ctx_size,
                ) {
                    Ok(plan) => {
                        self.phase = Phase::Loading;
                        SwapAction::Load(plan)
                    },
                    Err(e) => SwapAction::Finish(Err(e)),
                }
            },
            SwapEvent::Loaded { failure } => {
                self.phase = Phase::Over;
                match failure {
                    Some(f) => SwapAction::Finish(
                        Err(ModelError::LoadFailed(failure_message(&f))),
                    ),
                    None => {
                        self.slot = Some(text::copy_text(self.name.as_str()));
                        SwapAction::Finish(Ok(()))
                    },
                }
            },
        }
    }
}

/// One step of a swap, from `a` to `b`.
pub open spec fn stepped(
    a: Swap,
    settings: LoadSettings,
    event: SwapEvent,
    b: Swap,
    r: SwapAction,
) -> bool {
    match event {
        SwapEvent::NotFound => {
            &&& b.slot == a.slot
            &&& b.phase is Over
            &&& r matches SwapAction::Finish(Err(ModelError::NotFound(m)))
            &&& m@ == models::not_found_text(a.name@)
        },
        SwapEvent::Found { path, stored, beside, fallback } => {
            &&& b.slot == a.slot
            &&& b.phase == (Phase::Unloading { path, mmproj: chosen(stored, beside, fallback) })
            &&& r is Unload
        },
        SwapEvent::Unloaded { failure, embedding_loaded } => {
            &&& b.slot is None
            &&& match failure {
                Some(e) => b.phase is Over && r.gives_up(e@),
                None => {
                    &&& a.phase matches Phase::Unloading { path, mmproj } && b.phase == (
                    Phase::Measuring { path, mmproj })
                    &&& r == (SwapAction::Measure {
                        evict_embedding: settings.fit && embedding_loaded,
                    })
                },
            }
        },
        SwapEvent::Measured(facts) => {
            let (k, v, _) = caches(a.name@, settings.cache_type_k, settings.cache_type_v);
            &&& b.slot == a.slot
            &&& match offload(
                settings,
                facts,
                context(settings, a.ctx_size),
                kv_cache::block_bytes(k),
                kv_cache::block_bytes(v),
            ) {
                Some(o) => {
                    &&& b.phase is Loading
                    &&& r matches SwapAction::Load(plan)
                    &&& a.phase matches Phase::Measuring { path, mmproj } && plan.is_for(
                        settings,
                        a.name@,
                        path@,
                        path_view(mmproj),
                        a.batch_size,
                        a.ctx_size,
                        o,
                    )
                },
                None => b.phase is Over && r.gives_up(strict_refusal(a.name@)),
            }
        },
        SwapEvent::Loaded { failure } => {
            &&& b.phase is Over
            &&& match failure {
                Some(f) => b.slot is None && r.gives_up(failure_text(f)),
                None => {
                    &&& b.slot matches Some(n) && n@ == a.name@
                    &&& r == SwapAction::Finish(Ok(()))
                },
            }
        },
    }
}

/// A run of swap steps: each goes on from where the last one ended.
pub open spec fn is_run(
    states: Seq<Swap>,
    settings: LoadSettings,
    events: Seq<SwapEvent>,
    actions: Seq<SwapAction>,
) -> bool {
    &&& states.len() == events.len() + 1
    &&& actions.len() == events.len()
    &&& forall|i: int|
        0 <= i < events.len() ==> {
            &&& (#[trigger] states[i]).wf()
            &&& states[i].awaits(events[i])
            &&& stepped(states[i], settings, events[i], states[i + 1], actions[i])
        }
}

/// A swap to a model that is not found leaves the slot as it was, and nothing
/// is ever unloaded for it: the refusal is the first and the last step.
pub proof fn law_an_unknown_model_changes_nothing(
    states: Seq<Swap>,
    settings: LoadSettings,
    events: Seq<SwapEvent>,
    actions: Seq<SwapAction>,
    i: int,
)
    requires
        is_run(states, settings, events, actions),
        states[0].phase is Resolving,
        0 <= i < events.len(),
        events[i] is NotFound,
    ensures
        i == 0,
        events.len() == 1,
        states.last().slot == states[0].slot,
        actions[0] matches SwapAction::Finish(Err(ModelError::NotFound(_))),
{
    lemma_resolving_is_first(states, settings, events, actions, i);
    assert(states[0].awaits(events[0]));
    assert(states[1].phase is Over);
    if events.len() > 1 {
        assert(states[1].awaits(events[1]));
    }
}

/// Nothing but the first step of a swap looks for weights.
proof fn lemma_resolving_is_first(
    states: Seq<Swap>,
    settings: LoadSettings,
    events: Seq<SwapEvent>,
    actions: Seq<SwapAction>,
    i: int,
)
    requires
        is_run(states, settings, events, actions),
        0 <= i < events.len(),
        states[i].phase is Resolving,
    ensures
        i == 0,
{
    if i > 0 {
        assert(states[i - 1].awaits(events[i - 1]));
        assert(stepped(states[i - 1], settings, events[i - 1], states[i], actions[i - 1]));
    }
}

/// A model is unloaded only once the weights of the next have been found, and
/// the slot is filled only when it is empty: two models are never loaded at
/// once.
pub proof fn law_a_model_goes_only_for_one_that_was_found(
    a: Swap,
    settings: LoadSettings,
    event: SwapEvent,
    b: Swap,
    r: SwapAction,
)
    requires
        a.wf(),
        a.awaits(event),
        stepped(a, settings, event, b, r),
    ensures
        r is Unload <==> event is Found,
        a.slot is Some && b.slot != a.slot ==> event is Unloaded && b.slot is None,
        b.slot is Some && b.slot != a.slot ==> a.slot is None && event is Loaded,
{
}

/// Without sizing, the settings hold as they are.
pub proof fn law_without_fit_the_settings_hold(
    settings: LoadSettings,
    facts: ModelFacts,
    ctx: u32,
    bk: u32,
    bv: u32,
)
    requires
        !settings.fit,
    ensures
        offload(settings, facts, ctx, bk, bv) matches Some(o) && o.gpu_layers == settings.gpu_layers
            && o.cpu_moe == settings.cpu_moe && o.n_cpu_moe == settings.n_cpu_moe,
{
}

/// The smaller of two layer counts; a negative one stands for all layers.
pub open spec fn fewer(a: int, b: int) -> int {
    if b < 0 || (0 <= a && a <= b) {
        a
    } else {
        b
    }
}

/// A model that no experts are moved for is split as the layer sizing decides,
/// up to the configured count: one that fits is loaded in full; another is split
/// or, by a strict server, refused; and what cannot be sized is loaded as it was
/// configured. The experts stay as they were configured.
pub proof fn law_layers_are_placed_as_decided(
    settings: LoadSettings,
    facts: ModelFacts,
    ctx: u32,
    bk: u32,
    bv: u32,
    d: FitDecision,
)
    requires
        settings.fit,
        settings.cpu_moe || settings.n_cpu_moe > 0 || facts.layout is None,
        fit::decided(facts.free_vram, info_of(facts), facts.file_size, ctx, bk, bv, d),
    ensures
        ({
            let r = offload(settings, facts, ctx, bk, bv);
            let top = settings.gpu_layers as int;
            &&& r matches Some(o) ==> o.cpu_moe == settings.cpu_moe && o.n_cpu_moe
                == settings.n_cpu_moe
            &&& match d {
                FitDecision::FitsFully => r matches Some(o) && o.gpu_layers == fewer(-1, top),
                FitDecision::Partial { layers, .. } => if settings.fit_strict {
                    r is None
                } else {
                    r matches Some(o) && o.gpu_layers == fewer(layers as int, top)
                },
                FitDecision::Unknown { .. } => if settings.fit_strict {
                    r is None
                } else {
                    r matches Some(o) && o.gpu_layers == settings.gpu_layers
                },
            }
        }),
{
    fit::law_a_server_goes_on_with_what_was_decided(
        facts.free_vram,
        info_of(facts),
        facts.file_size,
        settings.gpu_layers,
        ctx,
        settings.fit_strict,
        bk,
        bv,
        d,
    );
}

/// A MoE model whose experts are moved is loaded as the expert sizing decides:
/// with all its layers and the experts of the first ones on the CPU, or with all
/// experts there and some of its layers. The configured layer count is a ceiling
/// all the same, and the model is never refused.
pub proof fn law_experts_are_placed_as_decided(
    settings: LoadSettings,
    facts: ModelFacts,
    ctx: u32,
    bk: u32,
    bv: u32,
)
    requires
        settings.fit,
        !settings.cpu_moe && settings.n_cpu_moe == 0,
    ensures
        ({
            let r = offload(settings, facts, ctx, bk, bv);
            let top = settings.gpu_layers as int;
            match fit::moe_fit(facts.free_vram, info_of(facts), layout_of(facts), ctx, bk, bv) {
                MoeFitDecision::Proceed { n_cpu_moe } => n_cpu_moe > 0 ==> (r matches Some(o)
                    && o.n_cpu_moe == n_cpu_moe && !o.cpu_moe && o.gpu_layers == (if top < 0 {
                    -1
                } else {
                    top
                })),
                MoeFitDecision::ProceedCpuMoeAndPartial { gpu_layers } => r matches Some(o)
                    && o.cpu_moe && o.n_cpu_moe == 0 && o.gpu_layers == fewer(
                    gpu_layers as int,
                    top,
                ),
                _ => true,
            }
        }),
{
    match fit::moe_fit(facts.free_vram, info_of(facts), layout_of(facts), ctx, bk, bv) {
        MoeFitDecision::ProceedCpuMoeAndPartial { gpu_layers } => {
            fit::law_the_smaller_layer_count_wins(gpu_layers, settings.gpu_layers);
        },
        _ => {},
    }
}

/// A plan loads the file that was found, with the projector that goes with it,
/// the context and the slots that the request asks for or else the server's,
/// eight queued requests for each slot, and no slots for a model with a
/// projector.
pub proof fn law_a_plan_is_what_was_asked_for(
    plan: LoadPlan,
    settings: LoadSettings,
    name: Seq<char>,
    path: Seq<char>,
    mmproj: Option<Seq<char>>,
    batch: Option<usize>,
    ctx: Option<u32>,
    o: Offload,
)
    requires
        plan.is_for(settings, name, path, mmproj, batch, ctx, o),
    ensures
        plan.config.model_path@ == path,
        plan.config.mmproj_path is Some <==> mmproj is Some,
        mmproj matches Some(p) ==> (plan.config.mmproj_path->Some_0)@ == p,
        plan.config.gpu_layers == o.gpu_layers,
        plan.config.cpu_moe == o.cpu_moe,
        plan.config.n_cpu_moe == o.n_cpu_moe,
        ctx matches Some(n) ==> plan.config.context_size == n,
        ctx is None ==> plan.config.context_size == settings.ctx_size,
        plan.config.threads == settings.threads,
        plan.config.flash_attn == settings.flash_attn,
        plan.config.n_batch == settings.n_batch,
        plan.config.rs_seq == settings.rs_seq,
        ({
            let n = if mmproj is Some {
                0
            } else if batch is Some {
                batch->Some_0 as int
            } else {
                settings.batch_size as int
            };
            &&& plan.scheduler is None <==> n == 0
            &&& plan.scheduler matches Some(s) ==> s.max_batch_size == n && s.queue_capacity == 8
                * n && s.ctx_checkpoints == settings.ctx_checkpoints && s.checkpoint_min_step
                == settings.checkpoint_min_step
        }),
        kv_cache::names_gemma4(text::lowercase(name)) ==> plan.config.cache_type_k
            == KvCacheType::F16 && plan.config.cache_type_v == KvCacheType::F16,
        !kv_cache::names_gemma4(text::lowercase(name)) ==> plan.config.cache_type_k
            == settings.cache_type_k && plan.config.cache_type_v == settings.cache_type_v,
        plan.kv_corrected <==> plan.config.cache_type_k != settings.cache_type_k
            || plan.config.cache_type_v != settings.cache_type_v,
{
}

/// The projector that the store declares wins over the one beside the weights,
/// and both over the one of the command line.
pub proof fn law_the_nearest_projector_wins<A>(a: A, b: Option<A>, c: Option<A>)
    ensures
        chosen(Some(a), b, c) == Some(a),
        chosen(None, Some(a), c) == Some(a),
        chosen(None::<A>, None, c) == c,
{
}

/// An embedding model that is there is used again, whatever else is loaded; one
/// that is not takes the place of the main model only where the two do not fit.
pub proof fn law_an_embedding_model_is_loaded_beside_what_fits(
    loaded: Option<Seq<char>>,
    name: Seq<char>,
    main_loaded: bool,
    fits: Option<bool>,
)
    ensures
        ({
            let held = loaded matches Some(l) && models::identity(l) == models::identity(
                models::normalized(name),
            );
            let r = residency(loaded, name, main_loaded, fits);
            &&& r is Reuse <==> held
            &&& r is EvictMain <==> !held && main_loaded && fits == Some(false)
            &&& r is Coexist <==> !held && (!main_loaded || fits != Some(false))
        }),
{
}

/// An eviction counts once, and nothing else does.
pub proof fn law_evictions_are_counted(count: u64, event: bool)
    ensures
        !event ==> counted(count, event) == count,
        event && count < u64::MAX ==> counted(count, event) == count + 1,
        event && count == u64::MAX ==> counted(count, event) == 0,
{
}

/// A swap that nothing goes wrong in ends with the model that was asked for in
/// the slot, loaded from where it was found and with the projector nearest to
/// it.
pub proof fn law_a_swap_loads_what_was_found(
    states: Seq<Swap>,
    settings: LoadSettings,
    events: Seq<SwapEvent>,
    actions: Seq<SwapAction>,
    facts: ModelFacts,
)
    requires
        is_run(states, settings, events, actions),
        events.len() == 4,
        events[0] is Found,
        events[1] matches SwapEvent::Unloaded { failure: None, .. },
        events[2] == SwapEvent::Measured(facts),
        events[3] matches SwapEvent::Loaded { failure: None },
    ensures
        actions[0] is Unload,
        states[1].slot == states[0].slot,
        states[2].slot is None,
        actions[2] is Load,
        actions[2] matches SwapAction::Load(plan) && events[0] matches SwapEvent::Found {
            path,
            stored,
            beside,
            fallback,
        } && plan.config.model_path@ == path@ && ({
            let p = if stored is Some {
                stored
            } else if beside is Some {
                beside
            } else {
                fallback
            };
            &&& p is None <==> plan.config.mmproj_path is None
            &&& p matches Some(q) ==> (plan.config.mmproj_path->Some_0)@ == q@
        }),
        actions[3] == SwapAction::Finish(Ok(())),
        states[4].slot matches Some(n) && n@ == states[3].name@,
{
    assert(stepped(states[0], settings, events[0], states[1], actions[0]));
    assert(stepped(states[1], settings, events[1], states[2], actions[1]));
    assert(stepped(states[2], settings, events[2], states[3], actions[2]));
    assert(stepped(states[3], settings, events[3], states[4], actions[3]));
    assert(states[3].awaits(events[3]));
}

/// A swap that fails says what went wrong, and leaves no model in the slot once
/// the old one is out.
pub proof fn law_a_failed_swap_says_why(
    a: Swap,
    settings: LoadSettings,
    event: SwapEvent,
    b: Swap,
    r: SwapAction,
)
    requires
        a.wf(),
        a.awaits(event),
        stepped(a, settings, event, b, r),
    ensures
        event matches SwapEvent::Unloaded { failure: Some(e), .. } ==> b.slot is None && (r matches
        SwapAction::Finish(Err(ModelError::LoadFailed(m))) && m@ == e@),
        event matches SwapEvent::Loaded { failure: Some(f) } ==> b.slot is None && (r matches
        SwapAction::Finish(Err(ModelError::LoadFailed(m))) && m@ == match f {
            LoadFailure::Engine(e) => "Failed to load model: "@ + e@,
            LoadFailure::Scheduler(e) => "Failed to start scheduler: "@ + e@,
            LoadFailure::Task(e) => "Task join error: "@ + e@,
        }),
        event matches SwapEvent::Unloaded { failure: None, embedding_loaded } ==> (r matches
        SwapAction::Measure { evict_embedding } && evict_embedding == (settings.fit
            && embedding_loaded)),
        event is Measured && r is Finish ==> settings.fit && settings.fit_strict && b.slot is None,
{
}

} // verus!
