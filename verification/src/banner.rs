//! What is printed about a model once it is loaded.
use crate::inference::engine::{has_gpu_backend, Backends};
use crate::inference::kv_cache;
use crate::inference::kv_cache::KvCacheType;
use crate::text;
use vstd::prelude::*;

verus! {

/// Everything the banner reports about a loaded model.
#[derive(Debug, Clone)]
pub struct ModelBanner {
    /// Display name, already stripped of any `eullm/` prefix.
    pub model_name: String,
    pub gpu_layers: i32,
    pub cpu_moe: bool,
    pub n_cpu_moe: u32,
    pub rs_seq: u32,
    pub ctx_checkpoints: usize,
    pub checkpoint_min_step: u32,
    /// 0 means the sequential engine; anything higher is the batching scheduler.
    pub batch_size: usize,
    pub ctx_size: u32,
    /// Context the model was trained for, 0 when it could not be read.
    pub n_ctx_train: u32,
    pub flash_attn: bool,
    pub cache_type_k: KvCacheType,
    pub cache_type_v: KvCacheType,
    /// Bytes that the keys take in the cache.
    pub kv_k_bytes: u64,
    /// Bytes that the values take in the cache.
    pub kv_v_bytes: u64,
    pub web: bool,
    pub threads: u32,
    pub n_batch: u32,
    pub rust_debug: bool,
}

pub open spec fn backend_text(b: Backends) -> Seq<char> {
    if b.cuda {
        "CUDA"@
    } else if b.rocm {
        "ROCm"@
    } else if b.vulkan {
        "Vulkan"@
    } else if b.metal {
        "Metal"@
    } else {
        "none (CPU only!)"@
    }
}

/// Which GPU backend was compiled into this binary.
pub fn gpu_backend_name(b: &Backends) -> (r: &'static str)
    ensures
        r@ == backend_text(*b),
{
    if b.cuda {
        "CUDA"
    } else if b.rocm {
        "ROCm"
    } else if b.vulkan {
        "Vulkan"
    } else if b.metal {
        "Metal"
    } else {
        "none (CPU only!)"
    }
}

/// `name` without an `eullm/` in front.
pub open spec fn display_name(name: Seq<char>) -> Seq<char> {
    if text::is_prefix("eullm/"@, name) {
        name.skip("eullm/"@.len() as int)
    } else {
        name
    }
}

pub fn display_model_name(name: &str) -> (r: String)
    ensures
        r@ == display_name(name@),
{
    let c: Vec<char> = text::to_chars(name);
    let p: Vec<char> = text::to_chars("eullm/");
    if text::starts_with(&c, &p) {
        let rest: &[char] = vstd::slice::slice_subrange(&c, p.len(), c.len());
        assert(rest@ =~= c@.skip(p@.len() as int));
        text::from_chars(rest)
    } else {
        text::copy_text(name)
    }
}

/// Bytes in whole MiB, rounded to the nearest, a tie to the even one.
pub open spec fn mib(bytes: int) -> int {
    let q = bytes / 0x10_0000;
    let rest = bytes % 0x10_0000;
    if rest > 0x8_0000 || (rest == 0x8_0000 && q % 2 == 1) {
        q + 1
    } else {
        q
    }
}

fn in_mib(bytes: u64) -> (r: u64)
    ensures
        r == mib(bytes as int),
{
    let q: u64 = bytes / 0x10_0000;
    let rest: u64 = bytes % 0x10_0000;
    if rest > 0x8_0000 || (rest == 0x8_0000 && q % 2 == 1) {
        q + 1
    } else {
        q
    }
}

/// One line, or none.
pub open spec fn shown(when: bool, line: Seq<char>) -> Seq<Seq<char>> {
    if when {
        seq![line]
    } else {
        Seq::empty()
    }
}

impl ModelBanner {
    /// Tokens that one sequence can use.
    pub open spec fn per_seq(self) -> int {
        self.ctx_size as int / self.batch_size as int
    }

    pub open spec fn layers_text(self, b: Backends) -> Seq<char> {
        if !b.any() {
            "0 (no GPU backend compiled into this binary)"@
        } else if self.gpu_layers < 0 {
            "all"@
        } else {
            text::decimal(self.gpu_layers as nat)
        }
    }

    pub open spec fn moe_lines(self) -> Seq<Seq<char>> {
        if self.cpu_moe {
            seq!["  CPU MoE:       enabled (expert tensors on CPU RAM)"@]
        } else if self.n_cpu_moe > 0 {
            seq![
                "  CPU MoE:       first "@ + text::decimal(self.n_cpu_moe as nat)
                    + " layers (expert tensors on CPU RAM)"@,
            ]
        } else {
            Seq::empty()
        }
    }

    /// The context, and what to do about one that is small for each sequence.
    pub open spec fn context_lines(self) -> Seq<Seq<char>> {
        if self.batch_size > 0 {
            let each = text::decimal(self.per_seq() as nat);
            let total = text::decimal(self.ctx_size as nat);
            let slots = text::decimal(self.batch_size as nat);
            let target = if 32768 * self.batch_size > u32::MAX {
                u32::MAX as nat
            } else {
                (32768 * self.batch_size) as nat
            };
            seq![
                "  Context:       "@ + total + " total ("@ + each + " per sequence × "@ + slots
                    + " slots)"@,
            ] + (if self.batch_size > 1 && self.per_seq() < 8192 {
                seq![
                    "  ⚠ per-sequence context is only "@ + each
                        + " tokens — long histories will fail."@,
                    "    For single-chat use:   --batch-size 1   (full "@ + total + " tokens)"@,
                    "    For 32k per slot:      --ctx-size "@ + text::decimal(target)
                        + "   (= 32768 × "@ + slots + " slots)"@,
                ]
            } else {
                Seq::empty()
            })
        } else {
            seq!["  Context:       "@ + text::decimal(self.ctx_size as nat)]
        }
    }

    pub open spec fn mode_text(self) -> Seq<char> {
        if self.batch_size > 0 {
            "continuous batching (max "@ + text::decimal(self.batch_size as nat) + " concurrent)"@
        } else {
            "sequential"@
        }
    }

    /// The lines up to the layers on the GPU. What is reported is what will
    /// happen: a binary without a GPU backend offloads nothing.
    pub open spec fn head(self, b: Backends, cpu_features: Seq<char>) -> Seq<Seq<char>> {
        seq![
            "  Model:         "@ + self.model_name@,
            "  GPU backend:   "@ + backend_text(b),
            "  CPU features:  "@ + cpu_features,
        ] + shown(
            self.rust_debug,
            "  Rust debug:    enabled (NaN/Inf logit check active — extra per-token cost)"@,
        ) + seq!["  GPU layers:    "@ + self.layers_text(b)]
    }

    /// The lines on what stays off the GPU and what is kept for later.
    pub open spec fn placement(self) -> Seq<Seq<char>> {
        self.moe_lines() + shown(
            self.rs_seq > 0,
            "  RS rollback:   "@ + text::decimal(self.rs_seq as nat)
                + " (recurrent-state window for hybrid/SSM architectures)"@,
        ) + shown(
            self.ctx_checkpoints > 0,
            "  Checkpoints:   "@ + text::decimal(self.ctx_checkpoints as nat) + " max, every "@
                + text::decimal(self.checkpoint_min_step as nat)
                + "+ new tokens (prompt-prefix restore)"@,
        )
    }

    /// The lines on the context. One far below what the model was trained for
    /// is pointed out.
    pub open spec fn window(self) -> Seq<Seq<char>> {
        self.context_lines() + shown(
            self.n_ctx_train > 0 && self.ctx_size < self.n_ctx_train / 2,
            "    this model was trained for "@ + text::decimal(self.n_ctx_train as nat)
                + " — raise it with --ctx-size (costs KV memory)"@,
        )
    }

    /// The banner, line by line.
    pub open spec fn said(self, b: Backends, cpu_features: Seq<char>) -> Seq<Seq<char>> {
        self.head(b, cpu_features) + self.placement() + self.window() + self.rest()
    }

    /// The lines of the banner.
    pub fn lines(&self, b: &Backends, cpu_features: &str) -> (r: Vec<String>)
        requires
            self.batch_size <= u32::MAX,
        ensures
            text::views(r@) == self.said(*b, cpu_features@),
    {
        let mut r: Vec<String> = Vec::new();
        put2(&mut r, "  Model:         ", self.model_name.as_str());
        put2(&mut r, "  GPU backend:   ", gpu_backend_name(b));
        put2(&mut r, "  CPU features:  ", cpu_features);
        if self.rust_debug {
            put1(&mut r,
                "  Rust debug:    enabled (NaN/Inf logit check active — extra per-token cost)");
        }
        let layers: String = if !has_gpu_backend(b) {
            text::copy_text("0 (no GPU backend compiled into this binary)")
        } else if self.gpu_layers < 0 {
            text::copy_text("all")
        } else {
            text::decimal_text(self.gpu_layers as u64)
        };
        put2(&mut r, "  GPU layers:    ", layers.as_str());
        assert(text::views(r@) =~= self.head(*b, cpu_features@));
        self.put_placement(&mut r);
        self.put_context(&mut r);
        self.put_rest(&mut r);
        r
    }

    fn put_placement(&self, r: &mut Vec<String>)
        ensures
            text::views(final(r)@) == text::views(old(r)@) + self.placement(),
    {
        let ghost before = text::views(r@);
        if self.cpu_moe {
            put1(r, "  CPU MoE:       enabled (expert tensors on CPU RAM)");
        } else if self.n_cpu_moe > 0 {
            let n: String = text::decimal_text(self.n_cpu_moe as u64);
            put(r, "  CPU MoE:       first ", n.as_str(), " layers (expert tensors on CPU RAM)");
        }
        proof {
            assert(text::views(r@) =~= before + self.moe_lines());
        }
        if self.rs_seq > 0 {
            let n: String = text::decimal_text(self.rs_seq as u64);
            put(
                r,
                "  RS rollback:   ",
                n.as_str(),
                " (recurrent-state window for hybrid/SSM architectures)",
            );
        }
        if self.ctx_checkpoints > 0 {
            let n: String = text::decimal_text(self.ctx_checkpoints as u64);
            let step: String = text::decimal_text(self.checkpoint_min_step as u64);
            let mut line: String = text::copy_text("  Checkpoints:   ");
            line.append(n.as_str());
            line.append(" max, every ");
            put(r, line.as_str(), step.as_str(), "+ new tokens (prompt-prefix restore)");
        }
        assert(text::views(r@) =~= before + self.placement());
    }

    fn put_context(&self, r: &mut Vec<String>)
        requires
            self.batch_size <= u32::MAX,
        ensures
            text::views(final(r)@) == text::views(old(r)@) + self.window(),
    {
        let ghost before = text::views(r@);
        let total: String = text::decimal_text(self.ctx_size as u64);
        if self.batch_size > 0 {
            let slots: String = text::decimal_text(self.batch_size as u64);
            let per_seq: u32 = self.ctx_size / (self.batch_size as u32);
            let each: String = text::decimal_text(per_seq as u64);
            let mut line: String = text::copy_text("  Context:       ");
            line.append(total.as_str());
            line.append(" total (");
            line.append(each.as_str());
            line.append(" per sequence × ");
            put(r, line.as_str(), slots.as_str(), " slots)");
            if self.batch_size > 1 && per_seq < 8192 {
                put(
                    r,
                    "  ⚠ per-sequence context is only ",
                    each.as_str(),
                    " tokens — long histories will fail.",
                );
                put(
                    r,
                    "    For single-chat use:   --batch-size 1   (full ",
                    total.as_str(),
                    " tokens)",
                );
                let want: u64 = 32768 * (self.batch_size as u64);
                let target: u64 = if want > u32::MAX as u64 {
                    u32::MAX as u64
                } else {
                    want
                };
                let mut goal: String = text::copy_text("    For 32k per slot:      --ctx-size ");
                let t: String = text::decimal_text(target);
                goal.append(t.as_str());
                goal.append("   (= 32768 × ");
                put(r, goal.as_str(), slots.as_str(), " slots)");
            }
        } else {
            put2(r, "  Context:       ", total.as_str());
        }
        proof {
            assert(text::views(r@) =~= before + self.context_lines());
        }
        if self.n_ctx_train > 0 && self.ctx_size < self.n_ctx_train / 2 {
            let n: String = text::decimal_text(self.n_ctx_train as u64);
            put(
                r,
                "    this model was trained for ",
                n.as_str(),
                " — raise it with --ctx-size (costs KV memory)",
            );
        }
        assert(text::views(r@) =~= before + self.window());
    }

    /// The lines from the attention on.
    pub open spec fn rest(self) -> Seq<Seq<char>> {
        seq![
            "  Flash attn:    "@ + (if self.flash_attn {
                "enabled"@
            } else {
                "disabled"@
            }) + " (auto-detect)"@,
            "  KV cache:      K="@ + kv_cache::display_name(self.cache_type_k) + " V="@
                + kv_cache::display_name(self.cache_type_v),
        ] + shown(
            self.kv_k_bytes > 0 || self.kv_v_bytes > 0,
            "  KV memory:     K="@ + text::decimal(mib(self.kv_k_bytes as int) as nat)
                + " MiB, V="@ + text::decimal(mib(self.kv_v_bytes as int) as nat) + " MiB"@,
        ) + shown(
            self.web,
            "  Web browsing:  enabled (URLs in messages are fetched and injected)"@,
        ) + seq![
            "  Threads:       "@ + text::decimal(self.threads as nat),
            "  Batch (prefill): "@ + text::decimal(self.n_batch as nat),
            "  Mode:          "@ + self.mode_text(),
        ]
    }

    fn put_rest(&self, r: &mut Vec<String>)
        ensures
            text::views(final(r)@) == text::views(old(r)@) + self.rest(),
    {
        let ghost before = text::views(r@);
        put(
            r,
            "  Flash attn:    ",
            if self.flash_attn {
                "enabled"
            } else {
                "disabled"
            },
            " (auto-detect)",
        );
        let k: String = kv_cache::cache_type_display(&self.cache_type_k);
        let v: String = kv_cache::cache_type_display(&self.cache_type_v);
        let mut line: String = text::copy_text("  KV cache:      K=");
        line.append(k.as_str());
        put(r, line.as_str(), " V=", v.as_str());
        if self.kv_k_bytes > 0 || self.kv_v_bytes > 0 {
            let a: String = text::decimal_text(in_mib(self.kv_k_bytes));
            let b: String = text::decimal_text(in_mib(self.kv_v_bytes));
            let mut line: String = text::copy_text("  KV memory:     K=");
            line.append(a.as_str());
            line.append(" MiB, V=");
            put(r, line.as_str(), b.as_str(), " MiB");
        }
        if self.web {
            put1(r,
                "  Web browsing:  enabled (URLs in messages are fetched and injected)");
        }
        let threads: String = text::decimal_text(self.threads as u64);
        put2(r, "  Threads:       ", threads.as_str());
        let n_batch: String = text::decimal_text(self.n_batch as u64);
        put2(r, "  Batch (prefill): ", n_batch.as_str());
        if self.batch_size > 0 {
            let n: String = text::decimal_text(self.batch_size as u64);
            let mut mode: String = text::copy_text("continuous batching (max ");
            mode.append(n.as_str());
            mode.append(" concurrent)");
            put2(r, "  Mode:          ", mode.as_str());
        } else {
            put2(r, "  Mode:          ", "sequential");
        }
        proof {
            assert(text::views(r@) =~= before + self.rest());
        }
    }
}

fn put1(r: &mut Vec<String>, a: &str)
    ensures
        text::views(final(r)@) == text::views(old(r)@).push(a@),
{
    r.push(text::copy_text(a));
    assert(text::views(r@) =~= text::views(old(r)@).push(a@));
}

fn put2(r: &mut Vec<String>, a: &str, b: &str)
    ensures
        text::views(final(r)@) == text::views(old(r)@).push(a@ + b@),
{
    let mut line: String = text::copy_text(a);
    line.append(b);
    r.push(line);
    assert(text::views(r@) =~= text::views(old(r)@).push(a@ + b@));
}

/// Adds a line made of three parts.
fn put(r: &mut Vec<String>, a: &str, b: &str, c: &str)
    ensures
        text::views(final(r)@) == text::views(old(r)@).push(a@ + b@ + c@),
{
    let mut line: String = text::copy_text(a);
    line.append(b);
    line.append(c);
    r.push(line);
    assert(text::views(r@) =~= text::views(old(r)@).push(a@ + b@ + c@));
}

/// A size in MiB is the nearest whole number of them.
pub proof fn law_a_size_is_rounded_to_the_nearest(bytes: int)
    requires
        bytes >= 0,
    ensures
        2 * (mib(bytes) * 0x10_0000 - bytes) <= 0x10_0000,
        2 * (bytes - mib(bytes) * 0x10_0000) <= 0x10_0000,
{
}

/// A model is shown under its name, without the vendor in front.
pub proof fn law_the_vendor_is_not_shown(name: Seq<char>)
    ensures
        display_name("eullm/"@ + name) == name,
        !text::is_prefix("eullm/"@, name) ==> display_name(name) == name,
{
    let full = "eullm/"@ + name;
    let n = "eullm/"@.len() as int;
    assert(full.take(n) =~= "eullm/"@);
    assert(full.skip(n) =~= name);
}

/// The backend that is shown is one that was compiled in, and CUDA before
/// ROCm, Vulkan and Metal.
pub proof fn law_the_backend_is_the_first_there_is(b: Backends)
    ensures
        b.cuda ==> backend_text(b) == "CUDA"@,
        !b.cuda && b.rocm ==> backend_text(b) == "ROCm"@,
        !b.cuda && !b.rocm && b.vulkan ==> backend_text(b) == "Vulkan"@,
        !b.cuda && !b.rocm && !b.vulkan && b.metal ==> backend_text(b) == "Metal"@,
        !b.any() ==> backend_text(b) == "none (CPU only!)"@,
{
}

/// The banner tells the model, the backend, the layers that really go to the
/// GPU, the context, the cache types, the threads, the batch and the mode.
pub proof fn law_the_banner_tells_how_a_model_runs(
    m: ModelBanner,
    b: Backends,
    cpu_features: Seq<char>,
)
    ensures
        ({
            let s = m.said(b, cpu_features);
            &&& s.contains("  Model:         "@ + m.model_name@)
            &&& s.contains("  GPU backend:   "@ + backend_text(b))
            &&& s.contains("  CPU features:  "@ + cpu_features)
            &&& s.contains(
                "  GPU layers:    "@ + (if !b.any() {
                    "0 (no GPU backend compiled into this binary)"@
                } else if m.gpu_layers < 0 {
                    "all"@
                } else {
                    text::decimal(m.gpu_layers as nat)
                }),
            )
            &&& m.batch_size == 0 ==> s.contains(
                "  Context:       "@ + text::decimal(m.ctx_size as nat),
            ) && s.contains("  Mode:          "@ + "sequential"@)
            &&& m.batch_size > 0 ==> s.contains(
                "  Context:       "@ + text::decimal(m.ctx_size as nat) + " total ("@
                    + text::decimal((m.ctx_size as int / m.batch_size as int) as nat)
                    + " per sequence × "@ + text::decimal(m.batch_size as nat) + " slots)"@,
            ) && s.contains(
                "  Mode:          "@ + ("continuous batching (max "@ + text::decimal(
                    m.batch_size as nat,
                ) + " concurrent)"@),
            )
            &&& s.contains(
                "  KV cache:      K="@ + kv_cache::display_name(m.cache_type_k) + " V="@
                    + kv_cache::display_name(m.cache_type_v),
            )
            &&& s.contains("  Threads:       "@ + text::decimal(m.threads as nat))
            &&& s.contains("  Batch (prefill): "@ + text::decimal(m.n_batch as nat))
        }),
{
    let s = m.said(b, cpu_features);
    let (h, p, w, r) = (m.head(b, cpu_features), m.placement(), m.window(), m.rest());
    assert(s[0] == h[0] && s[1] == h[1] && s[2] == h[2]);
    assert(s[h.len() - 1] == h[h.len() - 1]);
    let c = h.len() as int + p.len();
    assert(s[c] == w[0]);
    assert(w[0] == m.context_lines()[0]);
    let k = c + w.len();
    assert(s[k + 1] == r[1]);
    let n = r.len() as int;
    assert(s[k + n - 3] == r[n - 3]);
    assert(s[k + n - 2] == r[n - 2]);
    assert(s[k + n - 1] == r[n - 1]);
}

/// Several slots with little context each are warned about, and so is a context
/// far below what the model was trained for.
pub proof fn law_a_small_context_is_pointed_out(m: ModelBanner)
    ensures
        m.batch_size > 1 && (m.ctx_size as int / m.batch_size as int) < 8192
            ==> m.context_lines().len() == 4 && m.context_lines()[1]
            == "  ⚠ per-sequence context is only "@ + text::decimal(
            (m.ctx_size as int / m.batch_size as int) as nat,
        ) + " tokens — long histories will fail."@,
        m.batch_size <= 1 || (m.ctx_size as int / m.batch_size as int) >= 8192
            ==> m.context_lines().len() == 1,
        m.n_ctx_train > 0 && m.ctx_size < m.n_ctx_train / 2 ==> m.window().len()
            == m.context_lines().len() + 1 && m.window().last() == "    this model was trained for "@
            + text::decimal(m.n_ctx_train as nat)
            + " — raise it with --ctx-size (costs KV memory)"@,
        m.n_ctx_train == 0 || m.ctx_size >= m.n_ctx_train / 2 ==> m.window() == m.context_lines(),
{
    if m.n_ctx_train == 0 || m.ctx_size >= m.n_ctx_train / 2 {
        assert(m.window() =~= m.context_lines());
    }
}

/// What stays off the GPU, the window of the recurrent state and the checkpoints
/// are told where there are any, and only there.
pub proof fn law_the_banner_tells_what_is_kept(m: ModelBanner)
    ensures
        ({
            let s = m.placement();
            let experts: int = if m.cpu_moe || m.n_cpu_moe > 0 {
                1
            } else {
                0
            };
            let window: int = if m.rs_seq > 0 {
                1
            } else {
                0
            };
            let kept: int = if m.ctx_checkpoints > 0 {
                1
            } else {
                0
            };
            &&& s.len() == experts + window + kept
            &&& m.cpu_moe ==> s[0] == "  CPU MoE:       enabled (expert tensors on CPU RAM)"@
            &&& !m.cpu_moe && m.n_cpu_moe > 0 ==> s[0] == "  CPU MoE:       first "@ + text::decimal(
                m.n_cpu_moe as nat,
            ) + " layers (expert tensors on CPU RAM)"@
            &&& m.rs_seq > 0 ==> s[experts] == "  RS rollback:   "@ + text::decimal(m.rs_seq as nat)
                + " (recurrent-state window for hybrid/SSM architectures)"@
            &&& m.ctx_checkpoints > 0 ==> s[experts + window] == "  Checkpoints:   "@
                + text::decimal(m.ctx_checkpoints as nat) + " max, every "@ + text::decimal(
                m.checkpoint_min_step as nat,
            ) + "+ new tokens (prompt-prefix restore)"@
        }),
{
}

} // verus!
