use eullm::banner::{display_model_name, gpu_backend_name, ModelBanner};
use eullm::inference::engine::Backends;
use eullm::inference::kv_cache::KvCacheType;

fn backends(vulkan: bool) -> Backends {
    Backends { cuda: false, rocm: false, vulkan, metal: false }
}

fn banner() -> ModelBanner {
    ModelBanner {
        model_name: "legal-it-7b".to_string(),
        gpu_layers: -1,
        cpu_moe: false,
        n_cpu_moe: 0,
        rs_seq: 0,
        ctx_checkpoints: 0,
        checkpoint_min_step: 8192,
        batch_size: 0,
        ctx_size: 4096,
        n_ctx_train: 8192,
        flash_attn: true,
        cache_type_k: KvCacheType::F16,
        cache_type_v: KvCacheType::Q8_0,
        kv_k_bytes: 0,
        kv_v_bytes: 0,
        web: false,
        threads: 6,
        n_batch: 2048,
        rust_debug: false,
    }
}

#[test]
fn the_plain_banner_is_complete() {
    assert_eq!(
        banner().lines(&backends(true), "AVX2"),
        vec![
            "  Model:         legal-it-7b",
            "  GPU backend:   Vulkan",
            "  CPU features:  AVX2",
            "  GPU layers:    all",
            "  Context:       4096",
            "  Flash attn:    enabled (auto-detect)",
            "  KV cache:      K=F16 V=Q8_0",
            "  Threads:       6",
            "  Batch (prefill): 2048",
            "  Mode:          sequential",
        ]
    );
}

#[test]
fn small_slots_are_pointed_out() {
    let b = ModelBanner {
        batch_size: 4,
        n_ctx_train: 40960,
        gpu_layers: 12,
        n_cpu_moe: 3,
        rs_seq: 2,
        ctx_checkpoints: 5,
        kv_k_bytes: 3 << 20,
        kv_v_bytes: (1 << 20) + (1 << 19),
        web: true,
        rust_debug: true,
        flash_attn: false,
        ..banner()
    };
    assert_eq!(
        b.lines(&backends(false), "NEON"),
        vec![
            "  Model:         legal-it-7b",
            "  GPU backend:   none (CPU only!)",
            "  CPU features:  NEON",
            "  Rust debug:    enabled (NaN/Inf logit check active — extra per-token cost)",
            "  GPU layers:    0 (no GPU backend compiled into this binary)",
            "  CPU MoE:       first 3 layers (expert tensors on CPU RAM)",
            "  RS rollback:   2 (recurrent-state window for hybrid/SSM architectures)",
            "  Checkpoints:   5 max, every 8192+ new tokens (prompt-prefix restore)",
            "  Context:       4096 total (1024 per sequence × 4 slots)",
            "  ⚠ per-sequence context is only 1024 tokens — long histories will fail.",
            "    For single-chat use:   --batch-size 1   (full 4096 tokens)",
            "    For 32k per slot:      --ctx-size 131072   (= 32768 × 4 slots)",
            "    this model was trained for 40960 — raise it with --ctx-size (costs KV memory)",
            "  Flash attn:    disabled (auto-detect)",
            "  KV cache:      K=F16 V=Q8_0",
            "  KV memory:     K=3 MiB, V=2 MiB",
            "  Web browsing:  enabled (URLs in messages are fetched and injected)",
            "  Threads:       6",
            "  Batch (prefill): 2048",
            "  Mode:          continuous batching (max 4 concurrent)",
        ]
    );
}

#[test]
fn names_and_backends_are_shown() {
    assert_eq!(display_model_name("eullm/x"), "x");
    assert_eq!(display_model_name("x"), "x");
    assert_eq!(
        gpu_backend_name(&Backends { cuda: true, rocm: true, vulkan: false, metal: false }),
        "CUDA"
    );
}
