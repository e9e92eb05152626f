use eullm::fit::{
    compute_fit, fit_answer, fit_messages, fit_report, fit_step, free_vram_bytes, gib, layout_budget,
    parse_gguf_header, run_fit_headless, Answer, FitDecision, FitOutcome, FitStep, GgufInfo,
};
use eullm::gguf::{
    Cursor, GGUF_MAGIC, GGUF_TYPE_ARRAY, GGUF_TYPE_STRING, GGUF_TYPE_UINT32, GGUF_TYPE_UINT64,
};

/// The KV elements of one token and layer, for K and V, where they are whole.
fn elems(info: &GgufInfo) -> Option<(u128, u128)> {
    let (k, v, den) = info.kv_elems_per_token_per_layer()?;
    assert_eq!(k % den as u128, 0);
    assert_eq!(v % den as u128, 0);
    Some((k / den as u128, v / den as u128))
}

/// Build a minimal valid GGUF header with a single `<arch>.block_count`
/// metadata key of the given type, so the parser has something to read.
fn make_gguf(block_count: u64, as_u64: bool) -> Vec<u8> {
    let mut b = Vec::new();
    b.extend_from_slice(&GGUF_MAGIC.to_le_bytes());
    b.extend_from_slice(&3u32.to_le_bytes()); // version
    b.extend_from_slice(&0u64.to_le_bytes()); // tensor_count
    b.extend_from_slice(&1u64.to_le_bytes()); // metadata_kv_count

    let key = b"qwen3.block_count";
    b.extend_from_slice(&(key.len() as u64).to_le_bytes());
    b.extend_from_slice(key);
    if as_u64 {
        b.extend_from_slice(&GGUF_TYPE_UINT64.to_le_bytes());
        b.extend_from_slice(&block_count.to_le_bytes());
    } else {
        b.extend_from_slice(&GGUF_TYPE_UINT32.to_le_bytes());
        b.extend_from_slice(&(block_count as u32).to_le_bytes());
    }
    b
}

#[test]
fn parses_block_count_u32() {
    let data = make_gguf(28, false);
    let info = parse_gguf_header(&data).unwrap();
    assert_eq!(info.n_layers, 28);
}

#[test]
fn parses_block_count_u64() {
    let data = make_gguf(36, true);
    let info = parse_gguf_header(&data).unwrap();
    assert_eq!(info.n_layers, 36);
}

#[test]
fn rejects_bad_magic() {
    let mut data = make_gguf(28, false);
    data[0] = 0;
    assert!(parse_gguf_header(&data).is_none());
}

#[test]
fn handles_truncated_input() {
    let data = make_gguf(28, false);
    // Cut the value off mid-way; parser must return None, not panic.
    let truncated = &data[..data.len() - 2];
    assert!(parse_gguf_header(truncated).is_none());
}

/// Bytes of 32 elements of an F16 cache, for K and V — the common case.
const F16: (u32, u32) = (64, 64);

/// A bare `GgufInfo` with only the layer count (no attention dims) — the
/// fallback path where KV is sized by the coarse constant.
fn info_layers(n: u32) -> GgufInfo {
    GgufInfo {
        n_layers: n,
        n_embd: None,
        n_head: None,
        n_head_kv: None,
        key_length: None,
        value_length: None,
        full_attention_interval: None,
        architecture: None,
    }
}

#[test]
fn fit_unknown_when_no_vram() {
    let info = info_layers(28);
    let d = compute_fit(None, Some(&info), 5_000_000_000, 4096, F16.0, F16.1);
    assert!(matches!(d, FitDecision::Unknown { .. }));
}

#[test]
fn fit_full_when_vram_ample() {
    let info = info_layers(28);
    // 40 GiB free, 5 GB model → fits fully.
    let d = compute_fit(
        Some(40 * 1024 * 1024 * 1024),
        Some(&info),
        5_000_000_000,
        4096,
        F16.0,
        F16.1,
    );
    assert_eq!(d, FitDecision::FitsFully);
}

#[test]
fn fit_partial_when_vram_tight() {
    let info = info_layers(32);
    // 4 GB free, 16 GB model → only some layers fit.
    let d = compute_fit(
        Some(4_000_000_000),
        Some(&info),
        16_000_000_000,
        4096,
        F16.0,
        F16.1,
    );
    match d {
        FitDecision::Partial { layers, n_layers } => {
            assert!(layers > 0 && (layers as u32) < n_layers);
            assert_eq!(n_layers, 32);
        }
        other => panic!("expected partial, got {other:?}"),
    }
}

/// With the attention dims present, quantizing the KV cache (smaller
/// per-element bytes) must let at least as many — and in a tight fit,
/// strictly more — layers onto the GPU than F16. This is the headline of
/// the KV-aware sizer.
#[test]
fn quantized_kv_offloads_more_layers() {
    // qwq-32b-ish dims: 64 layers, n_embd 5120, 40 heads, 8 KV heads.
    let info = GgufInfo {
        n_layers: 64,
        n_embd: Some(5120),
        n_head: Some(40),
        n_head_kv: Some(8),
        key_length: None,
        value_length: None,
        full_attention_interval: None,
        architecture: None,
    };
    let free = 15 * 1024 * 1024 * 1024; // ~15 GiB free, 18.5 GB model
    let file = 18_500_000_000;
    // Large context so the KV term is significant.
    let ctx = 32768;

    let f16 = compute_fit(Some(free), Some(&info), file, ctx, 64, 64);
    // Q4_0: 18 bytes for 32 elements of both K and V.
    let q4 = compute_fit(Some(free), Some(&info), file, ctx, 18, 18);

    let layers = |d: &FitDecision| match d {
        FitDecision::Partial { layers, .. } => *layers,
        FitDecision::FitsFully => i32::MAX,
        FitDecision::Unknown { .. } => -1,
    };
    assert!(
        layers(&q4) > layers(&f16),
        "q4_0 KV should offload more layers than f16 at long context: q4={:?} f16={:?}",
        q4,
        f16
    );
}

/// The parser must pick up the attention dims when present, and keep the
/// `_kv` head count distinct from the plain head count.
#[test]
fn parses_attention_dims() {
    let mut b = Vec::new();
    b.extend_from_slice(&GGUF_MAGIC.to_le_bytes());
    b.extend_from_slice(&3u32.to_le_bytes()); // version
    b.extend_from_slice(&0u64.to_le_bytes()); // tensor_count
    b.extend_from_slice(&4u64.to_le_bytes()); // metadata_kv_count

    let put_u32 = |key: &[u8], val: u32, buf: &mut Vec<u8>| {
        buf.extend_from_slice(&(key.len() as u64).to_le_bytes());
        buf.extend_from_slice(key);
        buf.extend_from_slice(&GGUF_TYPE_UINT32.to_le_bytes());
        buf.extend_from_slice(&val.to_le_bytes());
    };
    put_u32(b"qwen3.block_count", 64, &mut b);
    put_u32(b"qwen3.embedding_length", 5120, &mut b);
    put_u32(b"qwen3.attention.head_count", 40, &mut b);
    put_u32(b"qwen3.attention.head_count_kv", 8, &mut b);

    let info = parse_gguf_header(&b).unwrap();
    assert_eq!(info.n_layers, 64);
    assert_eq!(info.n_embd, Some(5120));
    assert_eq!(info.n_head, Some(40));
    assert_eq!(info.n_head_kv, Some(8));
    // head_dim = 5120/40 = 128 → 8 × 128 = 1024 elems/token/layer, K and V alike.
    assert_eq!(elems(&info), Some((1024, 1024)));
}

/// Append `key`/`value` as a u32 metadata entry.
fn put_u32(key: &[u8], val: u32, buf: &mut Vec<u8>) {
    buf.extend_from_slice(&(key.len() as u64).to_le_bytes());
    buf.extend_from_slice(key);
    buf.extend_from_slice(&GGUF_TYPE_UINT32.to_le_bytes());
    buf.extend_from_slice(&val.to_le_bytes());
}

fn put_str(key: &[u8], val: &[u8], buf: &mut Vec<u8>) {
    buf.extend_from_slice(&(key.len() as u64).to_le_bytes());
    buf.extend_from_slice(key);
    buf.extend_from_slice(&GGUF_TYPE_STRING.to_le_bytes());
    buf.extend_from_slice(&(val.len() as u64).to_le_bytes());
    buf.extend_from_slice(val);
}

fn header(entries: &[(&[u8], u32)]) -> Vec<u8> {
    let mut b = Vec::new();
    b.extend_from_slice(&GGUF_MAGIC.to_le_bytes());
    b.extend_from_slice(&3u32.to_le_bytes());
    b.extend_from_slice(&0u64.to_le_bytes());
    b.extend_from_slice(&(entries.len() as u64).to_le_bytes());
    for (k, v) in entries {
        put_u32(k, *v, &mut b);
    }
    b
}

/// Qwen3-4B — in our own catalog — declares a head dimension that is NOT
/// `n_embd / n_head`: 2560/32 would give 80, the real value is 128. This is
/// the regression that made `--fit` under-size the KV cache by 37% and
/// offload more layers than fit, turning `--fit` into the cause of the
/// out-of-VRAM error it exists to prevent.
#[test]
fn explicit_key_length_overrides_the_n_embd_over_n_head_assumption() {
    let data = header(&[
        (b"qwen3.block_count", 36),
        (b"qwen3.embedding_length", 2560),
        (b"qwen3.attention.head_count", 32),
        (b"qwen3.attention.head_count_kv", 8),
        (b"qwen3.attention.key_length", 128),
        (b"qwen3.attention.value_length", 128),
    ]);
    let info = parse_gguf_header(&data).expect("header parses");
    assert_eq!(info.key_length, Some(128));
    assert_eq!(info.value_length, Some(128));
    // 8 KV heads × 128 = 1024, not 8 × 80 = 640.
    assert_eq!(elems(&info), Some((1024, 1024)));
}

#[test]
fn without_explicit_lengths_the_derived_head_dim_is_still_used() {
    let data = header(&[
        (b"qwen3.block_count", 64),
        (b"qwen3.embedding_length", 5120),
        (b"qwen3.attention.head_count", 40),
        (b"qwen3.attention.head_count_kv", 8),
    ]);
    let info = parse_gguf_header(&data).expect("header parses");
    assert_eq!(elems(&info), Some((1024, 1024)));
}

/// A declared key_length also covers V when only K is declared — closer to
/// the truth than falling back to the n_embd assumption for that side.
#[test]
fn key_length_alone_covers_both_sides() {
    let data = header(&[
        (b"arch.block_count", 32),
        (b"arch.embedding_length", 2560),
        (b"arch.attention.head_count", 32),
        (b"arch.attention.head_count_kv", 8),
        (b"arch.attention.key_length", 128),
    ]);
    let info = parse_gguf_header(&data).expect("header parses");
    assert_eq!(elems(&info), Some((1024, 1024)));
}

/// Differing K and V dimensions are charged separately rather than being
/// collapsed onto one figure.
#[test]
fn asymmetric_key_and_value_lengths_are_charged_separately() {
    let data = header(&[
        (b"arch.block_count", 30),
        (b"arch.attention.head_count_kv", 4),
        (b"arch.attention.key_length", 256),
        (b"arch.attention.value_length", 128),
    ]);
    let info = parse_gguf_header(&data).expect("header parses");
    assert_eq!(elems(&info), Some((1024, 512)));
}

/// Qwen3.6-35B-A3B's tokenizer block (248k-token vocabulary) overruns
/// the 8 MiB read budget on its own, so the buffer ends mid-array. The
/// hyperparameter keys all precede it — a truncation there must degrade
/// to "return what was parsed", not discard an already-read layer count
/// (which made `--fit` fall back to `--gpu-layers all` and OOM on real
/// hardware).
#[test]
fn tolerates_truncation_inside_the_tokenizer_arrays() {
    let mut b = Vec::new();
    b.extend_from_slice(&GGUF_MAGIC.to_le_bytes());
    b.extend_from_slice(&3u32.to_le_bytes());
    b.extend_from_slice(&0u64.to_le_bytes());
    b.extend_from_slice(&5u64.to_le_bytes()); // claims 5 metadata entries
    put_u32(b"qwen35moe.block_count", 40, &mut b);
    put_u32(b"qwen35moe.embedding_length", 2048, &mut b);
    put_u32(b"qwen35moe.attention.head_count", 16, &mut b);
    put_u32(b"qwen35moe.attention.head_count_kv", 2, &mut b);
    // Fifth entry: a tokenizer array whose contents lie past the end of
    // the buffer — only the array header made it in.
    let key = b"tokenizer.ggml.tokens";
    b.extend_from_slice(&(key.len() as u64).to_le_bytes());
    b.extend_from_slice(key);
    b.extend_from_slice(&GGUF_TYPE_ARRAY.to_le_bytes());
    b.extend_from_slice(&GGUF_TYPE_STRING.to_le_bytes());
    b.extend_from_slice(&248_320u64.to_le_bytes());

    let info = parse_gguf_header(&b).expect("partial parse must succeed");
    assert_eq!(info.n_layers, 40);
    assert_eq!(info.n_head_kv, Some(2));
}

/// Once every wanted key is filled the parser must stop reading — a
/// later duplicate that would overwrite an already-parsed value proves
/// the stop happened by design, not because the buffer ran out. The
/// wanted set includes `full_attention_interval`, which hybrid models
/// write AFTER the attention dims, so the fixture is hybrid-shaped.
#[test]
fn stops_reading_once_every_wanted_key_is_in_hand() {
    let data = header(&[
        (b"arch.block_count", 40),
        (b"arch.embedding_length", 2048),
        (b"arch.attention.head_count", 16),
        (b"arch.attention.head_count_kv", 2),
        (b"arch.attention.key_length", 256),
        (b"arch.attention.value_length", 256),
        (b"arch.full_attention_interval", 4),
        (b"arch.block_count", 99),
    ]);
    let info = parse_gguf_header(&data).expect("parses");
    assert_eq!(info.n_layers, 40);
    assert_eq!(info.full_attention_interval, Some(4));
}

/// The Ornith case: a `qwen35moe` GGUF that ships WITHOUT the explicit
/// interval key. Upstream hardcodes the default 4 before the optional
/// read, so the discount must apply from the architecture alone.
#[test]
fn qwen35_architectures_default_the_attention_interval() {
    let mut b = Vec::new();
    b.extend_from_slice(&GGUF_MAGIC.to_le_bytes());
    b.extend_from_slice(&3u32.to_le_bytes());
    b.extend_from_slice(&0u64.to_le_bytes());
    b.extend_from_slice(&2u64.to_le_bytes());
    put_str(b"general.architecture", b"qwen35moe", &mut b);
    put_u32(b"qwen35moe.block_count", 64, &mut b);

    let info = parse_gguf_header(&b).expect("parses");
    assert_eq!(info.architecture.as_deref(), Some("qwen35moe"));
    assert_eq!(info.full_attention_interval, None);
    // 64 layers at the defaulted cadence of 4: 16 pay KV, not 64.
    assert_eq!(info.kv_paying_layers(64), 16);

    // An unknown architecture without the key stays uniform.
    let dense = GgufInfo {
        architecture: Some("llama".to_string()),
        ..info.clone()
    };
    assert_eq!(dense.kv_paying_layers(64), 64);
}

/// A dense model never writes `full_attention_interval`; the parser
/// scans to the end (skipping unwanted values) and everything else is
/// still read correctly.
#[test]
fn dense_models_parse_without_an_attention_interval() {
    let data = header(&[
        (b"arch.block_count", 40),
        (b"arch.embedding_length", 2048),
        (b"arch.attention.head_count", 16),
        (b"arch.attention.head_count_kv", 2),
        (b"arch.attention.key_length", 256),
        (b"arch.attention.value_length", 256),
    ]);
    let info = parse_gguf_header(&data).expect("parses");
    assert_eq!(info.n_layers, 40);
    assert_eq!(info.full_attention_interval, None);
}

/// The hybrid-SSM discount: with `full_attention_interval=4` only one
/// layer in four pays KV, so at a large context the sizer offloads far
/// more layers than the uniform charge would allow. Measured live at
/// `--ctx-size 262144` on Qwen3.6-35B-A3B: the uniform math stopped
/// with 8 GiB of VRAM idle.
#[test]
fn hybrid_ssm_models_offload_more_layers_at_large_context() {
    let dense = GgufInfo {
        n_layers: 64,
        n_embd: Some(5120),
        n_head: Some(24),
        n_head_kv: Some(4),
        key_length: Some(256),
        value_length: Some(256),
        full_attention_interval: None,
        architecture: None,
    };
    let hybrid = GgufInfo {
        full_attention_interval: Some(4),
        ..dense.clone()
    };
    let free = Some(16u64 * 1024 * 1024 * 1024);
    let file_size = 22u64 * 1024 * 1024 * 1024;
    let ctx = 131072;
    let dense_layers = match compute_fit(free, Some(&dense), file_size, ctx, 64, 64) {
        FitDecision::Partial { layers, .. } => layers,
        other => panic!("expected partial, got {other:?}"),
    };
    let hybrid_layers = match compute_fit(free, Some(&hybrid), file_size, ctx, 64, 64) {
        FitDecision::Partial { layers, .. } => layers,
        other => panic!("expected partial, got {other:?}"),
    };
    assert!(
        hybrid_layers > dense_layers,
        "hybrid must offload more: {hybrid_layers} vs {dense_layers}"
    );
}

/// The whole point: with the real head dimension the sizer charges more
/// per layer, so it offloads fewer layers — and the load succeeds instead
/// of running out of VRAM.
#[test]
fn real_head_dim_offloads_no_more_layers_than_the_assumption_did() {
    let with_explicit = GgufInfo {
        n_layers: 36,
        n_embd: Some(2560),
        n_head: Some(32),
        n_head_kv: Some(8),
        key_length: Some(128),
        value_length: Some(128),
        full_attention_interval: None,
        architecture: None,
    };
    let assumed = GgufInfo {
        key_length: None,
        value_length: None,
        ..with_explicit.clone()
    };
    // A tight-but-not-hopeless fit, so both variants land in `Partial` and
    // the layer counts are actually comparable (with ample VRAM both would
    // report `FitsFully` and the comparison would be vacuous).
    let free = 4 * 1024 * 1024 * 1024;
    let file = 2_500_000_000;
    let ctx = 32768;

    let layers = |i: &GgufInfo| match compute_fit(Some(free), Some(i), file, ctx, 64, 64) {
        FitDecision::Partial { layers, .. } => layers,
        FitDecision::FitsFully => i32::MAX,
        FitDecision::Unknown { .. } => -1,
    };
    assert!(
        layers(&with_explicit) < layers(&assumed),
        "the real head_dim must be charged as more expensive than the \
         n_embd/n_head under-estimate: explicit={} assumed={}",
        layers(&with_explicit),
        layers(&assumed),
    );
}

#[test]
fn the_boundary_of_a_full_fit_is_exact() {
    // One layer without attention dims: the weights and a coarse KV charge.
    let info = info_layers(1);
    let fits = |free: u64| {
        compute_fit(Some(free), Some(&info), 1_000_000_000, 0, 64, 64) == FitDecision::FitsFully
    };
    // 97 % of the free VRAM less 640 MiB has to cover the weights.
    let mut low = 0u64;
    let mut high = 4_000_000_000u64;
    while high - low > 1 {
        let mid = (low + high) / 2;
        if fits(mid) {
            high = mid;
        } else {
            low = mid;
        }
    }
    assert_eq!(high, 1_722_771_794);
    assert!(97 * high as u128 >= 100 * (1_000_000_000u128 + 671_088_640));
    assert!(97 * (low as u128) < 100 * (1_000_000_000u128 + 671_088_640));
}

#[test]
fn unreadable_inputs_are_named() {
    let info = info_layers(4);
    assert_eq!(
        compute_fit(Some(1 << 40), None, 5, 4096, 64, 64),
        FitDecision::Unknown {
            reason: "could not parse layer count from the GGUF header".to_string()
        }
    );
    assert_eq!(
        compute_fit(Some(1 << 40), Some(&info), 0, 4096, 64, 64),
        FitDecision::Unknown { reason: "model file size is zero".to_string() }
    );
    assert_eq!(free_vram_bytes(Some(0)), None);
    assert_eq!(free_vram_bytes(Some(5)), Some(5));
}

#[test]
fn a_server_never_asks() {
    let info = info_layers(32);
    let free = Some(4_000_000_000);
    let split = match compute_fit(free, Some(&info), 16_000_000_000, 4096, 64, 64) {
        FitDecision::Partial { layers, .. } => layers,
        other => panic!("expected partial, got {other:?}"),
    };
    assert_eq!(
        run_fit_headless(free, Some(&info), 16_000_000_000, 99, 4096, false, 64, 64),
        FitOutcome::Proceed(split)
    );
    assert_eq!(
        run_fit_headless(free, Some(&info), 16_000_000_000, 99, 4096, true, 64, 64),
        FitOutcome::Abort
    );
    assert_eq!(
        run_fit_headless(None, Some(&info), 16_000_000_000, 12, 4096, false, 64, 64),
        FitOutcome::Proceed(12)
    );
    assert_eq!(
        run_fit_headless(Some(1 << 40), Some(&info), 5_000, 12, 4096, true, 64, 64),
        FitOutcome::Proceed(-1)
    );
}

#[test]
fn a_user_is_asked_about_a_partial_fit() {
    let partial = FitDecision::Partial { layers: 7, n_layers: 9 };
    assert_eq!(fit_step(&partial, 1, false, true), FitStep::Ask { layers: 7 });
    assert_eq!(fit_step(&partial, 1, true, true), FitStep::Done(FitOutcome::Abort));
    assert_eq!(
        fit_step(&partial, 1, false, false),
        FitStep::Done(FitOutcome::Proceed(7))
    );
    assert_eq!(fit_answer(" Yes \n"), Answer::Continue);
    assert_eq!(fit_answer("\n"), Answer::Abort);
    assert_eq!(fit_answer("q"), Answer::Abort);
    assert_eq!(fit_answer("maybe"), Answer::Unclear);
    assert!(fit_messages(&partial, 1, false, true, true, 4 << 30, 9 << 30).is_empty());
    let lines = fit_messages(&partial, 1, false, true, false, 4 << 30, 9 << 30);
    assert!(lines.iter().any(|l| l.contains("7/9")), "{lines:?}");
}

#[test]
fn a_sizing_is_reported() {
    assert_eq!(
        fit_report(&FitDecision::FitsFully, false, true, Some(12 << 30), 9 << 30),
        vec!["[EULLM] --fit: model (9.00 GiB) fits fully in 12.00 GiB free VRAM → offloading all layers."]
    );
    assert!(fit_report(&FitDecision::FitsFully, false, true, None, 9 << 30).is_empty());
    let partial = FitDecision::Partial { layers: 7, n_layers: 9 };
    assert_eq!(
        fit_report(&partial, false, true, Some(4 << 30), 9 << 30),
        vec![
            "[EULLM] --fit: model does not fit fully on the GPU.",
            "  Free VRAM:  4.00 GiB",
            "  Model size: 9.00 GiB",
            "  Computed split: 7/9 layers on GPU, rest in RAM (slower).",
        ]
    );
    assert!(fit_report(&partial, false, false, Some(4 << 30), 9 << 30).is_empty());
    assert!(fit_report(&partial, true, true, Some(4 << 30), 9 << 30).is_empty());
}

#[test]
fn sizes_are_shown_in_gib() {
    assert_eq!(gib(0), "0.00 GiB");
    assert_eq!(gib(1 << 30), "1.00 GiB");
    assert_eq!(gib(1_610_612_736), "1.50 GiB");
    assert_eq!(gib(16_000_000_000), "14.90 GiB");
}

#[test]
fn the_read_budget_grows_until_the_file_is_read() {
    assert_eq!(layout_budget(0, u64::MAX), Some(8 << 20));
    assert_eq!(layout_budget(0, 100), Some(100));
    let mut last = 0;
    for attempt in 0..10 {
        match layout_budget(attempt, u64::MAX) {
            Some(n) => {
                assert!(n > last);
                last = n;
            }
            None => break,
        }
    }
}

#[test]
fn a_cursor_stays_within_its_bytes() {
    let data = [3u8, 0, 0, 0, 0, 0, 0, 0, b'a', b'b', b'c', 9];
    let mut c = Cursor::new(&data);
    assert_eq!(c.gguf_string(), Some(&data[8..11]));
    assert_eq!(c.u32(), None);
    assert_eq!(c.take(1), Some(&data[11..]));
    assert_eq!(c.take(1), None);
    let mut c = Cursor::new(&data);
    assert_eq!(c.read_uint_as_u64(GGUF_TYPE_UINT64), Some(3));
    let mut c = Cursor::new(&data);
    assert_eq!(c.skip_value(GGUF_TYPE_STRING), Some(()));
    assert_eq!(c.pos, 11);
}

fn text_bytes(s: &[u8]) -> Vec<u8> {
    [&(s.len() as u64).to_le_bytes()[..], s].concat()
}

fn entry_bytes(key: &str, tag: u32, value: &[u8]) -> Vec<u8> {
    [&text_bytes(key.as_bytes())[..], &tag.to_le_bytes()[..], value].concat()
}

fn header_bytes(version: u32, tensors: u64, entries: &[Vec<u8>]) -> Vec<u8> {
    let mut b = Vec::new();
    b.extend_from_slice(&GGUF_MAGIC.to_le_bytes());
    b.extend_from_slice(&version.to_le_bytes());
    b.extend_from_slice(&tensors.to_le_bytes());
    b.extend_from_slice(&(entries.len() as u64).to_le_bytes());
    b.extend(entries.concat());
    b
}

#[test]
fn entries_nobody_asked_for_are_skipped() {
    let wanted = [
        entry_bytes("general.architecture", GGUF_TYPE_STRING, &text_bytes(b"qwen3")),
        entry_bytes("qwen3.block_count", GGUF_TYPE_UINT32, &28u32.to_le_bytes()),
        entry_bytes("qwen3.embedding_length", GGUF_TYPE_UINT64, &4096u64.to_le_bytes()),
    ];
    let mut array = Vec::new();
    array.extend_from_slice(&GGUF_TYPE_STRING.to_le_bytes());
    array.extend_from_slice(&2u64.to_le_bytes());
    array.extend(text_bytes(b"a.block_count"));
    array.extend(text_bytes(b""));
    let extra = [
        entry_bytes("general.name", GGUF_TYPE_STRING, &text_bytes(b"x.block_count")),
        entry_bytes("tokenizer.ggml.tokens", GGUF_TYPE_ARRAY, &array),
        entry_bytes("general.quantization_version", GGUF_TYPE_UINT32, &2u32.to_le_bytes()),
    ];
    let plain = parse_gguf_header(&header_bytes(3, 0, &wanted)).unwrap();
    assert_eq!((plain.n_layers, plain.n_embd), (28, Some(4096)));
    for at in 0..=wanted.len() {
        let mut all = wanted.to_vec();
        all.splice(at..at, extra.to_vec());
        let info = parse_gguf_header(&header_bytes(2, 77, &all)).unwrap();
        assert_eq!(format!("{info:?}"), format!("{plain:?}"), "{at}");
    }
}
