use eullm::fit::{
    align_up, apply_gpu_layers_ceiling, compute_moe_fit, is_expert_tensor_name,
    parse_gguf_moe_layout, tensor_layer_index, GgufInfo, MoeFitDecision, MoeLayout,
};
use eullm::gguf::{GGUF_MAGIC, GGUF_TYPE_FLOAT32, GGUF_TYPE_UINT32};

/// Build a synthetic GGUF: `tensors` is `(name, byte_size)` in on-disk
/// order; offsets are assigned sequentially starting at 0. `alignment`,
/// when `Some`, is written as a `general.alignment` metadata key so the
/// parser is exercised on a non-default value instead of always falling
/// through to its own default. Returns `(buffer, file_size)` where the
/// buffer covers the *whole* synthetic file (dummy tensor-data bytes
/// included), unlike production's 8 MiB-capped read — `file_size` is
/// still passed separately, exactly as `read_gguf_moe_layout` does, so
/// the "last tensor sized from `file_size`" path is exercised the same
/// way either way.
fn make_gguf_with_tensors(alignment: Option<u64>, tensors: &[(&str, u64)]) -> (Vec<u8>, u64) {
    let mut b = Vec::new();
    b.extend_from_slice(&GGUF_MAGIC.to_le_bytes());
    b.extend_from_slice(&3u32.to_le_bytes()); // version
    b.extend_from_slice(&(tensors.len() as u64).to_le_bytes()); // tensor_count
    b.extend_from_slice(&(if alignment.is_some() { 1u64 } else { 0u64 }).to_le_bytes());

    if let Some(a) = alignment {
        let key = b"general.alignment";
        b.extend_from_slice(&(key.len() as u64).to_le_bytes());
        b.extend_from_slice(key);
        b.extend_from_slice(&GGUF_TYPE_UINT32.to_le_bytes());
        b.extend_from_slice(&(a as u32).to_le_bytes());
    }

    let mut offset = 0u64;
    for (name, size) in tensors {
        let name_bytes = name.as_bytes();
        b.extend_from_slice(&(name_bytes.len() as u64).to_le_bytes());
        b.extend_from_slice(name_bytes);
        b.extend_from_slice(&1u32.to_le_bytes()); // n_dimensions
        b.extend_from_slice(&1u64.to_le_bytes()); // dims[0] (unused by the parser)
        b.extend_from_slice(&GGUF_TYPE_FLOAT32.to_le_bytes()); // ggml type (unused)
        b.extend_from_slice(&offset.to_le_bytes());
        offset += size;
    }
    let total_tensor_bytes = offset;

    let align = alignment.unwrap_or(32);
    let data_start = align_up(b.len() as u64, align).unwrap();
    b.resize(data_start as usize, 0);
    b.resize((data_start + total_tensor_bytes) as usize, 0xAA);

    let file_size = b.len() as u64;
    (b, file_size)
}

#[test]
fn separates_expert_and_non_expert_bytes_per_layer() {
    let (data, file_size) = make_gguf_with_tensors(
        None,
        &[
            ("token_embd.weight", 1000),
            ("blk.0.attn_q.weight", 100),
            ("blk.0.ffn_gate_exps.weight", 3000),
            ("blk.0.ffn_up_exps.weight", 3000),
            ("blk.0.ffn_down_exps.weight", 3000),
            ("blk.1.attn_q.weight", 100),
            ("blk.1.ffn_gate_exps.weight", 4000),
            ("blk.1.ffn_up_exps.weight", 4000),
            ("blk.1.ffn_down_exps.weight", 4000),
            ("output_norm.weight", 50),
        ],
    );

    let layout = parse_gguf_moe_layout(&data, file_size, 2).expect("parses");
    assert!(layout.is_moe());
    assert_eq!(layout.non_expert_bytes, 1000 + 100 + 100 + 50);
    assert_eq!(layout.expert_bytes_per_layer, vec![9000, 12000]);
    assert_eq!(
        layout.expert_bytes_per_layer.iter().sum::<u64>(),
        21000
    );
}

#[test]
fn dense_model_has_no_experts() {
    let (data, file_size) = make_gguf_with_tensors(
        None,
        &[
            ("token_embd.weight", 1000),
            ("blk.0.attn_q.weight", 100),
            ("blk.0.ffn_gate.weight", 300),
            ("blk.0.ffn_up.weight", 300),
            ("blk.0.ffn_down.weight", 300),
        ],
    );
    let layout = parse_gguf_moe_layout(&data, file_size, 1).expect("parses");
    assert!(!layout.is_moe());
    assert_eq!(layout.non_expert_bytes, 2000);
    assert_eq!(layout.expert_bytes_per_layer, vec![0]);
}

#[test]
fn respects_a_custom_alignment_key() {
    // A single short tensor name keeps the cursor position after the
    // tensor-info table off any 32-byte boundary, so this only passes if
    // the parser actually reads `general.alignment` (64 here) instead of
    // silently defaulting to 32.
    let (data, file_size) =
        make_gguf_with_tensors(Some(64), &[("blk.0.ffn_gate_exps.weight", 500)]);
    let layout = parse_gguf_moe_layout(&data, file_size, 1).expect("parses");
    assert_eq!(layout.expert_bytes_per_layer, vec![500]);
    assert_eq!(layout.non_expert_bytes, 0);
}

#[test]
fn truncated_tensor_info_returns_none() {
    let (data, file_size) = make_gguf_with_tensors(
        None,
        &[("blk.0.ffn_gate_exps.weight", 500), ("blk.1.attn_q.weight", 100)],
    );
    // Cut a few bytes into the first tensor-info record (past the
    // 24-byte header, mid-way through the name), not the trailing dummy
    // tensor-data bytes — the parser never reads that far, so trimming
    // only the tail wouldn't actually exercise a truncated *header*.
    let truncated = &data[..30];
    assert!(parse_gguf_moe_layout(truncated, file_size, 2).is_none());
}

#[test]
fn layer_index_and_expert_marker_parsing() {
    assert_eq!(tensor_layer_index("blk.0.attn_q.weight"), Some(0));
    assert_eq!(tensor_layer_index("blk.17.ffn_gate_exps.weight"), Some(17));
    assert_eq!(tensor_layer_index("token_embd.weight"), None);
    assert_eq!(tensor_layer_index("output_norm.weight"), None);

    assert!(is_expert_tensor_name("blk.0.ffn_gate_exps.weight"));
    assert!(is_expert_tensor_name("blk.0.ffn_up_chexps.weight"));
    assert!(is_expert_tensor_name("blk.0.ffn_gate_up_exps.weight"));
    assert!(!is_expert_tensor_name("blk.0.ffn_gate.weight"));
    assert!(!is_expert_tensor_name("blk.0.attn_q.weight"));
}

const F16: (u32, u32) = (64, 64);

fn info(n_layers: u32) -> GgufInfo {
    GgufInfo {
        n_layers,
        n_embd: None,
        n_head: None,
        n_head_kv: None,
        key_length: None,
        value_length: None,
        full_attention_interval: None,
        architecture: None,
    }
}

#[test]
fn not_moe_when_layout_has_no_experts() {
    let layout = MoeLayout {
        non_expert_bytes: 5_000_000_000,
        expert_bytes_per_layer: vec![0, 0, 0],
    };
    let d = compute_moe_fit(
        Some(40 * 1024 * 1024 * 1024),
        Some(&info(3)),
        Some(&layout),
        4096,
        F16.0,
        F16.1,
    );
    assert_eq!(d, MoeFitDecision::NotMoe);
}

#[test]
fn not_moe_when_free_vram_unknown() {
    let layout = MoeLayout {
        non_expert_bytes: 1_000_000_000,
        expert_bytes_per_layer: vec![1_000_000_000],
    };
    let d = compute_moe_fit(None, Some(&info(1)), Some(&layout), 4096, F16.0, F16.1);
    assert_eq!(d, MoeFitDecision::NotMoe);
}

#[test]
fn everything_fits_needs_no_eviction() {
    // 4 layers, tiny non-expert + expert bytes, huge free VRAM.
    let layout = MoeLayout {
        non_expert_bytes: 1_000_000_000,
        expert_bytes_per_layer: vec![500_000_000; 4],
    };
    let d = compute_moe_fit(
        Some(40 * 1024 * 1024 * 1024),
        Some(&info(4)),
        Some(&layout),
        4096,
        F16.0,
        F16.1,
    );
    assert_eq!(d, MoeFitDecision::Proceed { n_cpu_moe: 0 });
}

/// Budget only has room for one layer's worth of experts after
/// non-expert+KV: the LAST layer (highest index) must be the one kept,
/// and eviction must cover the contiguous prefix `0..n_cpu_moe`, not an
/// arbitrary subset — this is the one real invariant `--n-cpu-moe`
/// requires from this function.
#[test]
fn evicts_a_contiguous_prefix_from_the_lowest_layers() {
    let per_layer_expert = 2_000_000_000u64; // 2 GB/layer
    let layout = MoeLayout {
        non_expert_bytes: 1_000_000_000, // 1 GB
        expert_bytes_per_layer: vec![per_layer_expert; 4],
    };
    // usable ≈ free*0.97 - 640MiB. Pick free VRAM so that after non-expert
    // (1GB) + a small KV term, there's room for exactly ~1 layer of
    // experts (2GB) but not 2 (4GB).
    let free = 4_200_000_000u64;
    let d = compute_moe_fit(Some(free), Some(&info(4)), Some(&layout), 512, F16.0, F16.1);
    match d {
        MoeFitDecision::Proceed { n_cpu_moe } => {
            assert_eq!(n_cpu_moe, 3, "expected layers 0..=2 evicted, layer 3 kept");
        }
        other => panic!("expected Proceed, got {other:?}"),
    }
}

#[test]
fn experts_only_not_enough_falls_back_to_partial_dense() {
    // Non-expert weights alone already exceed the VRAM budget, even with
    // every expert assumed off-GPU.
    let layout = MoeLayout {
        non_expert_bytes: 20_000_000_000, // 20 GB
        expert_bytes_per_layer: vec![1_000_000_000; 2],
    };
    let free = 8_000_000_000u64; // 8 GB free
    let d = compute_moe_fit(Some(free), Some(&info(2)), Some(&layout), 4096, F16.0, F16.1);
    match d {
        MoeFitDecision::ProceedCpuMoeAndPartial { gpu_layers } => {
            assert!(gpu_layers >= 0, "must still resolve to a loadable split");
            assert!(
                gpu_layers < 2,
                "20GB of non-expert weight can't fit fully in 8GB free"
            );
        }
        other => panic!("expected ProceedCpuMoeAndPartial, got {other:?}"),
    }
}

#[test]
fn extreme_case_still_resolves_to_a_startable_split() {
    // Pathological: enormous non-expert weight, almost no free VRAM.
    // Must still resolve to *something* loadable (gpu_layers as low as
    // 0 — fully CPU — is an acceptable, expected outcome here), never an
    // unresolvable decision.
    let layout = MoeLayout {
        non_expert_bytes: 500_000_000_000, // 500 GB (absurd on purpose)
        expert_bytes_per_layer: vec![50_000_000_000; 8],
    };
    let free = 2_000_000_000u64; // 2 GB free
    let d = compute_moe_fit(Some(free), Some(&info(8)), Some(&layout), 4096, F16.0, F16.1);
    match d {
        MoeFitDecision::ProceedCpuMoeAndPartial { gpu_layers } => {
            assert!(gpu_layers >= 0, "even the worst case must resolve, not abort");
        }
        other => panic!("expected ProceedCpuMoeAndPartial even in the extreme case, got {other:?}"),
    }
}

#[test]
fn a_ceiling_bounds_the_offload() {
    assert_eq!(apply_gpu_layers_ceiling(-1, 10), 10);
    assert_eq!(apply_gpu_layers_ceiling(20, 10), 10);
    assert_eq!(apply_gpu_layers_ceiling(5, 10), 5);
    assert_eq!(apply_gpu_layers_ceiling(5, -1), 5);
    assert_eq!(apply_gpu_layers_ceiling(-1, -1), -1);
    assert_eq!(apply_gpu_layers_ceiling(5, 0), 0);
}

#[test]
fn positions_are_rounded_up_to_the_alignment() {
    assert_eq!(align_up(0, 32), Some(0));
    assert_eq!(align_up(1, 32), Some(32));
    assert_eq!(align_up(64, 32), Some(64));
    assert_eq!(align_up(u64::MAX, 32), None);
}

#[test]
fn tensors_out_of_order_are_sized_by_their_offsets() {
    let (mut data, file_size) = make_gguf_with_tensors(
        None,
        &[("blk.0.ffn_up_exps.weight", 96), ("output.weight", 32)],
    );
    let in_order = parse_gguf_moe_layout(&data, file_size, 1).unwrap();
    assert_eq!(in_order.expert_bytes_per_layer, vec![96]);
    assert_eq!(in_order.non_expert_bytes, 32);
    // Swap the two offsets: the first tensor now stands last.
    let first = 24 + 8 + "blk.0.ffn_up_exps.weight".len() + 4 + 8 + 4;
    let second = first + 8 + 8 + "output.weight".len() + 4 + 8 + 4;
    data[first..first + 8].copy_from_slice(&96u64.to_le_bytes());
    data[second..second + 8].copy_from_slice(&0u64.to_le_bytes());
    let swapped = parse_gguf_moe_layout(&data, file_size, 1).unwrap();
    assert_eq!(swapped.expert_bytes_per_layer, vec![32]);
    assert_eq!(swapped.non_expert_bytes, 96);
}
