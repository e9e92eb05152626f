use eullm::inference::turboquant::codebook::{
    boundaries_3bit, boundaries_4bit, quantize_scalar_3bit, quantize_scalar_4bit, CODEBOOK_3BIT,
    CODEBOOK_4BIT,
};
use eullm::inference::turboquant::config::{
    is_turboquant_type, log_turboquant_status, resolve_turboquant_cache_type, ResolvedCacheType,
};
use eullm::inference::turboquant::ggml_ids;
use eullm::inference::turboquant::types::{parse_turboquant_type, TurboquantType};

fn micro(x: f32) -> i64 {
    (x as f64 * 1e6).round() as i64
}

fn level(x: i64) -> f32 {
    (x as f64 / 1e6) as f32
}

fn codebook_3bit() -> [f32; 8] {
    CODEBOOK_3BIT.map(level)
}

fn codebook_4bit() -> [f32; 16] {
    CODEBOOK_4BIT.map(level)
}

fn quantize_3bit(x: f32) -> f32 {
    level(quantize_scalar_3bit(micro(x)))
}

fn quantize_4bit(x: f32) -> f32 {
    level(quantize_scalar_4bit(micro(x)))
}

fn ratio(t: TurboquantType) -> f32 {
    let (n, d) = t.compression_ratio();
    n as f32 / d as f32
}

#[test]
fn parse_tq_types() {
    // head_dim=256 (_0)
    assert_eq!(parse_turboquant_type("tbq3_0"),  Some(TurboquantType::TQ3_0));
    assert_eq!(parse_turboquant_type("tbq4_0"),  Some(TurboquantType::TQ4_0));
    assert_eq!(parse_turboquant_type("tbqp3_0"), Some(TurboquantType::TQP3_0));
    assert_eq!(parse_turboquant_type("tbqp4_0"), Some(TurboquantType::TQP4_0));
    // head_dim=128 (_1) — Qwen3, Llama, Mistral
    assert_eq!(parse_turboquant_type("tbq3_1"),  Some(TurboquantType::TQ3_1));
    assert_eq!(parse_turboquant_type("tbq4_1"),  Some(TurboquantType::TQ4_1));
    assert_eq!(parse_turboquant_type("tbqp3_1"), Some(TurboquantType::TQP3_1));
    assert_eq!(parse_turboquant_type("tbqp4_1"), Some(TurboquantType::TQP4_1));
    // head_dim=64 (_2)
    assert_eq!(parse_turboquant_type("tbq3_2"),  Some(TurboquantType::TQ3_2));
    assert_eq!(parse_turboquant_type("tbq4_2"),  Some(TurboquantType::TQ4_2));
    // Legacy aliases
    assert_eq!(parse_turboquant_type("tq3_0"),  Some(TurboquantType::TQ3_0));
    assert_eq!(parse_turboquant_type("tq4_0"),  Some(TurboquantType::TQ4_0));
    assert_eq!(parse_turboquant_type("turbo3"), Some(TurboquantType::TQ3_0));
    assert_eq!(parse_turboquant_type("turbo4"), Some(TurboquantType::TQ4_0));
    // AmesianX recommended config bare aliases (default → _1, head_dim=128)
    assert_eq!(parse_turboquant_type("tbq3"),   Some(TurboquantType::TQ3_1));
    assert_eq!(parse_turboquant_type("tbq4"),   Some(TurboquantType::TQ4_1));
    assert_eq!(parse_turboquant_type("tbqp3"),  Some(TurboquantType::TQP3_1));
    assert_eq!(parse_turboquant_type("tbqp4"),  Some(TurboquantType::TQP4_1));
    assert_eq!(parse_turboquant_type("f16"),  None);
    assert_eq!(parse_turboquant_type("q8_0"), None);
}

#[test]
fn is_tq_type() {
    assert!(is_turboquant_type("tbq3_0"));
    assert!(is_turboquant_type("tbq4_0"));
    assert!(is_turboquant_type("tbqp3_0"));
    assert!(is_turboquant_type("tbqp4_0"));
    assert!(is_turboquant_type("tbq3_1"));
    assert!(is_turboquant_type("tbq4_1"));
    assert!(is_turboquant_type("tbqp3_1"));
    assert!(is_turboquant_type("tbqp4_1"));
    assert!(is_turboquant_type("tq3_0"));   // legacy alias
    assert!(is_turboquant_type("tq4_0"));   // legacy alias
    assert!(is_turboquant_type("tbq3"));    // AmesianX recommended bare alias → _1
    assert!(is_turboquant_type("tbq4"));
    assert!(is_turboquant_type("tbqp3"));
    assert!(is_turboquant_type("tbqp4"));
    assert!(!is_turboquant_type("f16"));
    assert!(!is_turboquant_type("q4_0"));
}

#[test]
fn compression_ratios() {
    assert!((ratio(TurboquantType::TQ3_0) - 5.33).abs() < 0.1);
    assert!((ratio(TurboquantType::TQ4_0) - 4.0).abs() < 0.1);
    assert!((ratio(TurboquantType::TQ3_1) - 5.33).abs() < 0.1);
    assert!((ratio(TurboquantType::TQ4_1) - 4.0).abs() < 0.1);
}

#[test]
fn codebook_3bit_is_sorted() {
    for i in 1..codebook_3bit().len() {
        assert!(
            codebook_3bit()[i] > codebook_3bit()[i - 1],
            "3-bit codebook not sorted at index {i}"
        );
    }
}

#[test]
fn codebook_4bit_is_sorted() {
    for i in 1..codebook_4bit().len() {
        assert!(
            codebook_4bit()[i] > codebook_4bit()[i - 1],
            "4-bit codebook not sorted at index {i}"
        );
    }
}

#[test]
fn boundaries_between_centroids() {
    let b: Vec<f32> = boundaries_3bit().iter().map(|&x| x as f32 / 2e6).collect();
    let c = codebook_3bit();
    for i in 0..b.len() {
        assert!(b[i] > c[i], "boundary {i} not between centroids");
        assert!(b[i] < c[i + 1], "boundary {i} not between centroids");
    }
}

#[test]
fn boundaries_4bit_between_centroids() {
    let b: Vec<f32> = boundaries_4bit().iter().map(|&x| x as f32 / 2e6).collect();
    let c = codebook_4bit();
    for i in 0..b.len() {
        assert!(b[i] > c[i], "boundary {i} not between centroids");
        assert!(b[i] < c[i + 1], "boundary {i} not between centroids");
    }
}

#[test]
fn resolve_without_native_backend() {
    let result = resolve_turboquant_cache_type("tq3_0", false, false);
    assert!(result.is_some());
    match result.unwrap() {
        ResolvedCacheType::Fallback { requested, fallback, .. } => {
            assert_eq!(requested, TurboquantType::TQ3_0);
            assert_eq!(fallback, "f16");
        }
        other => panic!("Unexpected resolution: {other:?}"),
    }
}

#[test]
fn resolve_strict_without_native_backend() {
    let result = resolve_turboquant_cache_type("tq4_0", true, false);
    assert!(result.is_some());
    match result.unwrap() {
        ResolvedCacheType::Unsupported { requested, reason } => {
            assert_eq!(requested, TurboquantType::TQ4_0);
            assert!(reason.contains("not supported"));
        }
        other => panic!("Unexpected resolution: {other:?}"),
    }
}

#[test]
fn resolve_ignores_standard_types() {
    // Standard types should return None (handled by normal path).
    assert!(resolve_turboquant_cache_type("f16", false, false).is_none());
    assert!(resolve_turboquant_cache_type("q8_0", false, false).is_none());
    assert!(resolve_turboquant_cache_type("q4_0", true, false).is_none());
}

// ── Accuracy / SQNR tests ─────────────────────────────────────────────────────
//
// These tests verify the Rust-side Lloyd-Max codebook achieves expected
// quantization accuracy.  They run fully in-process (no GPU required) and
// catch codebook regressions of the kind reported as KV cache degradation
// (AmesianX/TurboQuant v1.5.3 upgrade, April 2026).
//
// Test distribution: uniform grid over [-3.0, 3.0] (601 points, step 0.01).
// Signal power ≈ 3.0 (mean x² for uniform [-3,3]).
// Expected SQNR: ≥11 dB for 3-bit, ≥17 dB for 4-bit (conservative floor).

/// Compute mean-squared error and SQNR (dB) for a quantizer over a test grid.
fn sqnr_db(quantize: impl Fn(f32) -> f32) -> (f32, f32) {
    const N: usize = 601;
    let mut signal_power = 0.0f32;
    let mut noise_power = 0.0f32;
    for i in 0..N {
        let x = -3.0 + (i as f32) * (6.0 / (N as f32 - 1.0));
        let q = quantize(x);
        signal_power += x * x;
        noise_power += (x - q) * (x - q);
    }
    signal_power /= N as f32;
    noise_power /= N as f32;
    let mse = noise_power;
    let sqnr = 10.0 * (signal_power / noise_power).log10();
    (mse, sqnr)
}

#[test]
fn sqnr_3bit_meets_spec() {
    let (mse, sqnr) = sqnr_db(quantize_3bit);
    assert!(
        sqnr >= 11.0,
        "3-bit SQNR {sqnr:.2} dB below 11 dB floor (MSE={mse:.4}). \
         Codebook regression? Check AmesianX/TurboQuant version."
    );
}

#[test]
fn sqnr_4bit_meets_spec() {
    let (mse, sqnr) = sqnr_db(quantize_4bit);
    assert!(
        sqnr >= 17.0,
        "4-bit SQNR {sqnr:.2} dB below 17 dB floor (MSE={mse:.4}). \
         Codebook regression? Check AmesianX/TurboQuant version."
    );
}

#[test]
fn mse_3bit_bounded() {
    let (mse, _) = sqnr_db(quantize_3bit);
    // 3-bit Lloyd-Max on uniform [-3,3]: expected ~0.144, must stay under 0.20.
    // (Actual 0.1438 on this grid; bound gives headroom for f32 precision.)
    assert!(
        mse < 0.20,
        "3-bit MSE {mse:.4} exceeds 0.20 — possible codebook corruption."
    );
}

#[test]
fn mse_4bit_bounded() {
    let (mse, _) = sqnr_db(quantize_4bit);
    // 4-bit Lloyd-Max on uniform [-3,3]: MSE must stay well under 0.05.
    assert!(
        mse < 0.05,
        "4-bit MSE {mse:.4} exceeds 0.05 — possible codebook corruption."
    );
}

#[test]
fn codebook_3bit_near_symmetry() {
    // For i in 0..3, centroids[i] ≈ -centroids[6-i] (roughly symmetric around 0).
    // The 8th entry (index 7) is the upper-tail clamp and has no mirror.
    for i in 0..3usize {
        let lo = codebook_3bit()[i];
        let hi = codebook_3bit()[6 - i];
        let diff = (lo + hi).abs();
        assert!(
            diff < 1e-3,
            "3-bit codebook not symmetric at index {i}: {lo} + {hi} = {diff}"
        );
    }
}

#[test]
fn codebook_4bit_near_symmetry() {
    // For i in 0..7, centroids[i] ≈ -centroids[14-i].
    // Index 15 is the upper-tail clamp.
    for i in 0..7usize {
        let lo = codebook_4bit()[i];
        let hi = codebook_4bit()[14 - i];
        let diff = (lo + hi).abs();
        assert!(
            diff < 1e-3,
            "4-bit codebook not symmetric at index {i}: {lo} + {hi} = {diff}"
        );
    }
}

#[test]
fn all_centroids_reachable_3bit() {
    // Every centroid must be the nearest reconstruction for at least one input.
    let mut seen = [false; 8];
    for i in 0..=1000 {
        let x = -3.0 + (i as f32) * 0.006;
        let q = quantize_3bit(x);
        if let Some(idx) = codebook_3bit().iter().position(|&c| (c - q).abs() < 1e-6) {
            seen[idx] = true;
        }
    }
    for (i, &reachable) in seen.iter().enumerate() {
        assert!(reachable, "3-bit centroid index {i} ({}) is unreachable", codebook_3bit()[i]);
    }
}

#[test]
fn all_centroids_reachable_4bit() {
    let mut seen = [false; 16];
    for i in 0..=1000 {
        let x = -3.0 + (i as f32) * 0.006;
        let q = quantize_4bit(x);
        if let Some(idx) = codebook_4bit().iter().position(|&c| (c - q).abs() < 1e-6) {
            seen[idx] = true;
        }
    }
    for (i, &reachable) in seen.iter().enumerate() {
        assert!(reachable, "4-bit centroid index {i} ({}) is unreachable", codebook_4bit()[i]);
    }
}

#[test]
fn quantize_is_idempotent_3bit() {
    // Quantizing an already-quantized value (a centroid) must return itself.
    for &c in &codebook_3bit() {
        let q = quantize_3bit(c);
        assert!(
            (q - c).abs() < 1e-6,
            "3-bit centroid {c} not idempotent: quantize({c}) = {q}"
        );
    }
}

#[test]
fn quantize_is_idempotent_4bit() {
    for &c in &codebook_4bit() {
        let q = quantize_4bit(c);
        assert!(
            (q - c).abs() < 1e-6,
            "4-bit centroid {c} not idempotent: quantize({c}) = {q}"
        );
    }
}

#[test]
fn the_level_of_a_value_is_exact() {
    assert_eq!(quantize_scalar_3bit(0), 0);
    assert_eq!(quantize_scalar_3bit(-9_000_000), -1_748_021);
    assert_eq!(quantize_scalar_3bit(i64::MAX), 2_400_000);
    assert_eq!(quantize_scalar_3bit(i64::MIN), -1_748_021);
    // Halfway between -500151 and 0 lies -250075.5.
    assert_eq!(quantize_scalar_3bit(-250_076), -500_151);
    assert_eq!(quantize_scalar_3bit(-250_075), 0);
    // Halfway between 2401832 and 3000000 lies 2700916, which goes down.
    assert_eq!(quantize_scalar_4bit(2_700_916), 2_401_832);
    assert_eq!(quantize_scalar_4bit(2_700_917), 3_000_000);
}

#[test]
fn every_type_is_read_back_from_its_name() {
    for t in [
        TurboquantType::TQ3_0,
        TurboquantType::TQP4_0,
        TurboquantType::TQ4_1,
        TurboquantType::TQP3_1,
        TurboquantType::TQ3_2,
        TurboquantType::TQP4_2,
        TurboquantType::TQ4_3,
        TurboquantType::TQP3_3,
        TurboquantType::TQ3_4,
        TurboquantType::TQP4_4,
    ] {
        assert_eq!(parse_turboquant_type(t.name()), Some(t));
        assert_eq!(parse_turboquant_type(&t.name().to_uppercase()), Some(t));
    }
    assert_eq!(TurboquantType::TQP3_4.bits(), 3);
    assert_eq!(TurboquantType::TQ4_2.bits(), 4);
    assert_eq!(ggml_ids::TBQ3_0, 42);
    assert_eq!(ggml_ids::TBQP4_4, 61);
}

#[test]
fn a_native_backend_takes_the_type_as_it_is() {
    assert_eq!(
        resolve_turboquant_cache_type("TBQP3", true, true),
        Some(ResolvedCacheType::Native(TurboquantType::TQP3_1))
    );
    assert!(log_turboquant_status(true).starts_with("TurboQuant: ACTIVE"));
    assert!(log_turboquant_status(false).starts_with("TurboQuant: STANDBY"));
}
