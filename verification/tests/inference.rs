use eullm::inference::engine::{
    build_ctx_params_with_cache, check_gpu_support, check_media, context_alloc_error,
    context_attempts, corrupt_logits_message, cpu_moe_patterns, ctx_oom_hint, decode_failed,
    dynamic_template, has_gpu_backend, is_audio, multimodal_batch_size, offload_layers,
    place_experts, plan_embedding, probe_and_shrink_context, Backends, ContextConfig, Draw,
    Embedding, ExpertPlacement, Generation, MediaRefusal, Projector, Step,
};
use eullm::inference::kv_cache::{
    cache_type_block_bytes, cache_type_display, cache_type_name, correct_kv_cache_for_flash_attn,
    correct_kv_cache_for_model, estimate_kv_memory, is_four_bit, parse_cache_type, KvCacheType,
    KvDims,
};
use eullm::inference::output;
use eullm::inference::sampling::{
    build_sampler, random_seed_fallback, request_seed, seed_from_clock, Stage,
};
use eullm::inference::threads::{default_thread_count, parse_physical_cores};
use eullm::inference::{
    default_filters, media_too_long, plan_budget, prefill_chunks, prompt_batch, too_long,
    GenerateRequest, GenerateResult, InferenceConfig, Single, StopReason, DEFAULT_HARMONY_FILTERS, JSON_GBNF,
};

fn backends(cuda: bool) -> Backends {
    Backends { cuda, rocm: false, vulkan: false, metal: false }
}

#[test]
fn cache_type_name_round_trips_through_the_parser() {
    // The names are printed in messages users copy back onto a command
    // line, so every one of them has to parse.
    for t in [
        KvCacheType::F16,
        KvCacheType::F32,
        KvCacheType::Q8_0,
        KvCacheType::Q4_0,
        KvCacheType::Q4_1,
        KvCacheType::Q5_0,
        KvCacheType::Q5_1,
    ] {
        let name = cache_type_name(t);
        assert_eq!(
            parse_cache_type(name).unwrap(),
            t,
            "'{name}' must parse back to the type it names"
        );
    }
}

#[test]
fn only_four_bit_key_caches_are_flagged() {
    // q8_0 keys with a q4_0 value cache is the aggressive-but-usable
    // combination; it must not be warned about, or the warning becomes
    // noise and stops being read.
    assert!(is_four_bit(KvCacheType::Q4_0));
    assert!(is_four_bit(KvCacheType::Q4_1));
    for t in [
        KvCacheType::F16,
        KvCacheType::F32,
        KvCacheType::Q8_0,
        KvCacheType::Q5_0,
        KvCacheType::Q5_1,
    ] {
        assert!(!is_four_bit(t), "{t:?} is not a 4-bit type");
    }
}

#[test]
fn four_bit_keys_are_raised_when_flash_attention_is_on() {
    for k in [KvCacheType::Q4_0, KvCacheType::Q4_1] {
        let (out, corrected) = correct_kv_cache_for_flash_attn(k, true);
        assert!(corrected, "{k:?} with flash attention must be corrected");
        assert_eq!(out, KvCacheType::Q8_0);
    }
}

#[test]
fn four_bit_keys_are_left_alone_without_flash_attention() {
    // That combination is the one that actually works — measured, not
    // assumed — so overriding it would be taking away the only way to get
    // a four-bit key cache at all.
    for k in [KvCacheType::Q4_0, KvCacheType::Q4_1] {
        let (out, corrected) = correct_kv_cache_for_flash_attn(k, false);
        assert!(!corrected);
        assert_eq!(out, k);
    }
}

#[test]
fn everything_else_passes_through_untouched() {
    for k in [
        KvCacheType::F16,
        KvCacheType::F32,
        KvCacheType::Q8_0,
        KvCacheType::Q5_0,
        KvCacheType::Q5_1,
    ] {
        for fa in [true, false] {
            let (out, corrected) = correct_kv_cache_for_flash_attn(k, fa);
            assert!(!corrected, "{k:?} (flash_attn={fa}) must not be corrected");
            assert_eq!(out, k);
        }
    }
}

#[test]
fn the_correction_is_idempotent() {
    // Applying it to its own output must not keep changing things — the
    // startup path runs it after the Gemma correction, and a correction
    // that moves on every pass is a bug waiting for a second caller.
    let (once, _) = correct_kv_cache_for_flash_attn(KvCacheType::Q4_0, true);
    let (twice, corrected) = correct_kv_cache_for_flash_attn(once, true);
    assert!(!corrected);
    assert_eq!(once, twice);
}

// The exact bytes Gemma 4 12B produced on a real multimodal request. The
// no-newline form was in the list, this one was not, and the scaffolding
// reached the user because filtering is literal substring matching.
#[test]
fn the_gemma_channel_preamble_with_a_newline_is_filtered() {
    let filters: Vec<String> = default_filters(true);
    let mut pending = String::new();
    let piece = "<|channel>thought\n<channel|>A small metallic device.";
    match output::process_piece(&mut pending, &[], &filters, piece) {
        output::PieceOutcome::Emit(out) => {
            assert!(!out.contains("<|channel>"), "leaked opener: {out:?}");
            assert!(!out.contains("<channel|>"), "leaked closer: {out:?}");
            assert!(
                out.contains("A small metallic device."),
                "ate the answer: {out:?}"
            );
        }
        other => panic!("unexpected outcome: {other:?}"),
    }
}

// A block WITH content between the tags must still pass through: the UI
// renders it as a reasoning section, and scrubbing the bare delimiters used
// to leave the reasoning as naked text with no marker.
#[test]
fn a_channel_block_carrying_content_is_left_alone() {
    let filters: Vec<String> = default_filters(true);
    let mut pending = String::new();
    let piece = "<|channel>thought\nreasoning here<channel|>answer";
    match output::process_piece(&mut pending, &[], &filters, piece) {
        output::PieceOutcome::Emit(out) => {
            assert!(out.contains("reasoning here"), "{out:?}");
        }
        other => panic!("unexpected outcome: {other:?}"),
    }
}

#[test]
fn think_true_leaves_the_tags_alone() {
    let f = default_filters(true);
    assert!(!f.iter().any(|s| s.contains("think")), "{f:?}");
    assert_eq!(f.len(), DEFAULT_HARMONY_FILTERS.len());
}

#[test]
fn think_false_strips_stray_think_tags() {
    let f = default_filters(false);
    assert!(f.iter().any(|s| s == "</think>"));
    assert!(f.iter().any(|s| s == "<think>"));
}

// The Harmony filters exist independently of thinking and must survive
// either way; this is the regression that a naive rewrite would cause.
#[test]
fn the_harmony_filters_are_present_in_both_modes() {
    for think in [true, false] {
        let f = default_filters(think);
        for expected in DEFAULT_HARMONY_FILTERS {
            assert!(
                f.iter().any(|s| s == expected),
                "{expected} missing with think={think}"
            );
        }
    }
}

#[test]
fn the_api_strings_are_what_ollama_and_openai_expect() {
    // These land verbatim in `done_reason` and `finish_reason`, and clients
    // branch on them — "length" is how a caller learns to ask for more.
    assert_eq!(StopReason::Stop.as_api_str(), "stop");
    assert_eq!(StopReason::Length.as_api_str(), "length");
}

#[test]
fn a_generate_result_carries_its_reason() {
    // Guards the field being dropped in a refactor: the whole point is that
    // the non-streaming path can distinguish the two, which it could not
    // before because the API hardcoded "stop" in eleven places.
    let r = GenerateResult {
        text: "x".into(),
        tokens_generated: 1,
        tokens_prompt: 1,
        duration_ms: 1,
        stop_reason: StopReason::Length,
    };
    assert_eq!(r.stop_reason.as_api_str(), "length");
}

#[test]
fn counts_cores_not_hyperthreads() {
    // A 2-core/4-thread part: two logical CPUs share each core id.
    let cpuinfo = "\
processor\t: 0
physical id\t: 0
core id\t\t: 0

processor\t: 1
physical id\t: 0
core id\t\t: 1

processor\t: 2
physical id\t: 0
core id\t\t: 0

processor\t: 3
physical id\t: 0
core id\t\t: 1
";
    assert_eq!(parse_physical_cores(cpuinfo), Some(2));
}

#[test]
fn counts_across_sockets() {
    // Same core ids on two packages must not collapse into one.
    let cpuinfo = "\
processor\t: 0
physical id\t: 0
core id\t\t: 0

processor\t: 1
physical id\t: 1
core id\t\t: 0
";
    assert_eq!(parse_physical_cores(cpuinfo), Some(2));
}

#[test]
fn the_last_block_counts_even_without_a_trailing_blank_line() {
    let cpuinfo = "processor\t: 0\nphysical id\t: 0\ncore id\t\t: 0";
    assert_eq!(parse_physical_cores(cpuinfo), Some(1));
}

#[test]
fn absent_topology_yields_none_rather_than_zero() {
    // Many ARM kernels omit `core id` entirely. Answering 0 there would be
    // worse than admitting we don't know and using the logical count.
    let cpuinfo = "processor\t: 0\nBogoMIPS\t: 108.00\n\nprocessor\t: 1\n";
    assert_eq!(parse_physical_cores(cpuinfo), None);
    assert_eq!(parse_physical_cores(""), None);
}

#[test]
fn the_default_is_sane_on_whatever_machine_runs_the_tests() {
    let cpuinfo = "processor\t: 0\nphysical id\t: 0\ncore id\t\t: 0\n\nprocessor\t: 1\nphysical id\t: 0\ncore id\t\t: 0\n";
    for info in [None, Some(""), Some(cpuinfo)] {
        for logical in [1u32, 2, 64] {
            let t = default_thread_count(info, Some(logical));
            assert!(t >= 1, "must never be zero");
            assert!(t <= logical, "physical cores ({t}) cannot exceed logical ({logical})");
        }
    }
    assert_eq!(default_thread_count(None, None), 4);
    assert_eq!(default_thread_count(Some(cpuinfo), Some(2)), 1);
}

// A binary with no GPU backend must not ask llama.cpp for layers: on macOS ggml
// compiles Metal by default, and it would offload onto GPUs that produce wrong
// results.
#[test]
fn gpu_layers_are_forced_to_zero_when_no_backend_is_compiled() {
    for b in [backends(true), backends(false)] {
        if has_gpu_backend(&b) {
            assert_eq!(check_gpu_support(&b, -1), -1, "offload-all must survive");
            assert_eq!(check_gpu_support(&b, 35), 35, "explicit count must survive");
        } else {
            assert_eq!(check_gpu_support(&b, -1), 0, "offload-all must be refused");
            assert_eq!(check_gpu_support(&b, 35), 0, "explicit count must be refused");
        }
        // Asking for nothing is honoured either way.
        assert_eq!(check_gpu_support(&b, 0), 0);
    }
}

// Two calls in the same nanosecond are astronomically unlikely, so this is a
// meaningful check, not a flaky one.
#[test]
fn random_seed_fallback_is_not_a_fixed_value() {
    let a = random_seed_fallback(1234);
    let b = random_seed_fallback(1234);
    assert_ne!(a, b, "seed fallback must not collapse to the `fallback` argument");
}

#[test]
fn an_explicit_seed_is_used_verbatim_whatever_the_fallback() {
    let req = GenerateRequest { seed: Some(4242), ..Default::default() };
    let seed = request_seed(&req, 7);
    assert_eq!(seed, 4242);
}

#[test]
fn without_a_seed_two_requests_do_not_agree() {
    let a = random_seed_fallback(1234);
    let b = random_seed_fallback(1234);
    assert_ne!((a, b), (1234, 1234), "the fallback constant must not be the normal path");
}

#[test]
fn the_chain_follows_the_request() {
    let usual = GenerateRequest::default();
    assert_eq!(
        build_sampler(&usual, true, 9),
        vec![
            Stage::Penalties { last_n: 64, repeat: Single { bits: 1.1f32.to_bits() } },
            Stage::TopK { k: 40 },
            Stage::TopP { p: Single { bits: 0.9f32.to_bits() } },
            Stage::Temperature { t: Single { bits: 0.8f32.to_bits() } },
            Stage::Dist { seed: 9 },
        ]
    );
    let bare = GenerateRequest {
        repeat_penalty: Single { bits: 1.0f32.to_bits() },
        top_k: 0,
        top_p: Single { bits: 1.0f32.to_bits() },
        min_p: Single { bits: 0.05f32.to_bits() },
        grammar: Some("root ::= \"x\"".to_string()),
        ..GenerateRequest::default()
    };
    let chain = build_sampler(&bare, true, 1);
    assert_eq!(chain[0], Stage::Grammar);
    assert_eq!(chain[1], Stage::MinP { p: Single { bits: 0.05f32.to_bits() } });
    assert_eq!(chain.len(), 4);
    assert_eq!(build_sampler(&bare, false, 1).len(), 3);
    assert_eq!(seed_from_clock(None, 5), 5);
    assert_eq!(seed_from_clock(Some(8), 5), 8);
}

#[test]
fn single_precision_numbers_compare_by_their_bits() {
    for x in [-1.5f32, -0.0, 0.0, 0.3, 0.999, 1.0, 1.0001, 7.0, f32::INFINITY, f32::NAN] {
        let s = Single { bits: x.to_bits() };
        assert_eq!(s.is_one(), x == 1.0, "{x}");
        assert_eq!(s.is_below_one(), x < 1.0, "{x}");
        assert_eq!(s.is_above_zero(), x > 0.0, "{x}");
    }
}

#[test]
fn a_context_that_does_not_fit_is_halved() {
    assert_eq!(probe_and_shrink_context(8192, |c| c <= 3000), Ok(2048));
    assert_eq!(probe_and_shrink_context(0, |_| true), Ok(4096));
    assert_eq!(probe_and_shrink_context(700, |c| c <= 512), Ok(512));
    assert_eq!(probe_and_shrink_context(8192, |_| false), Err(512));
    assert_eq!(probe_and_shrink_context(100, |_| false), Err(100));
}

#[test]
fn context_parameters_follow_the_configuration() {
    let config = ContextConfig {
        context_size: 4096,
        threads: 6,
        flash_attn: true,
        n_batch: 2048,
        rs_seq: 3,
    };
    let p = build_ctx_params_with_cache(&config, 1024, KvCacheType::F16, KvCacheType::F16);
    assert_eq!(p.n_ctx, 1024);
    assert_eq!(p.n_batch, 2048);
    assert_eq!(p.n_ubatch, 1024);
    assert_eq!(p.n_threads, 6);
    assert_eq!(p.n_rs_seq, 3);
    assert_eq!(p.cache_types, None);
    assert_eq!(p.flash_attention, -1);
    let q = build_ctx_params_with_cache(&config, 1024, KvCacheType::Q8_0, KvCacheType::Q4_0);
    assert_eq!(q.cache_types, Some((KvCacheType::Q8_0, KvCacheType::Q4_0)));
}

#[test]
fn unusual_cache_types_fall_back_step_by_step() {
    assert_eq!(
        context_attempts(KvCacheType::F16, KvCacheType::F16, true),
        vec![(KvCacheType::F16, KvCacheType::F16)]
    );
    assert_eq!(
        context_attempts(KvCacheType::Q8_0, KvCacheType::Q4_0, true),
        vec![
            (KvCacheType::Q8_0, KvCacheType::Q4_0),
            (KvCacheType::F16, KvCacheType::F16),
        ]
    );
    assert_eq!(
        context_attempts(KvCacheType::Unknown(46), KvCacheType::Unknown(47), true).len(),
        3
    );
    assert_eq!(
        context_attempts(KvCacheType::Unknown(46), KvCacheType::Unknown(47), false).len(),
        2
    );
}

#[test]
fn messages_name_what_went_wrong() {
    assert_eq!(
        ctx_oom_hint(8192),
        "  Requested context: 8192 tokens — KV cache likely exceeds available VRAM.\n  Try a smaller context: --ctx-size 4096  or  --ctx-size 2048\n  Or quantize the KV cache: --cache-type-k q4_0 --cache-type-v q4_0 (cuts KV-cache VRAM by ~4×)."
    );
    assert!(!ctx_oom_hint(2048).contains("quantize"));
    assert!(context_alloc_error("boom", 77, "12").contains("77 tokens: boom"));
    assert_eq!(decode_failed(3, None), "Decode failed at token 3");
    assert_eq!(decode_failed(3, Some("no slot")), "Decode failed at token 3: no slot");
    assert!(corrupt_logits_message().contains("NaN/Inf"));
}

#[test]
fn experts_are_placed_as_asked() {
    assert!(matches!(place_experts(false, 0), ExpertPlacement::Gpu));
    assert!(matches!(place_experts(true, 3), ExpertPlacement::AllOnCpu));
    match place_experts(false, 2) {
        ExpertPlacement::Matching(p) => assert_eq!(p, cpu_moe_patterns(2)),
        _ => panic!("two layers keep their experts back"),
    }
    assert_eq!(
        cpu_moe_patterns(2)[1],
        "blk\\.1\\.ffn_(up|down|gate|gate_up)_(ch|)exps"
    );
    assert_eq!(offload_layers(-1), 1000);
    assert_eq!(offload_layers(7), 7);
    assert_eq!(multimodal_batch_size(None), 512);
    assert_eq!(multimodal_batch_size(Some("2048")), 2048);
    assert_eq!(multimodal_batch_size(Some("nonsense")), 512);
}

#[test]
fn media_are_checked_against_the_projector() {
    let wav = b"RIFF....WAVE".to_vec();
    let png = b"\x89PNG\r\n".to_vec();
    assert!(is_audio(&wav));
    assert!(is_audio(b"ID3x"));
    assert!(is_audio(b"fLaC"));
    assert!(is_audio(&[0xFF, 0xFB]));
    assert!(!is_audio(&png));
    assert!(!is_audio(&[0xFF]));
    let vision = Projector { use_mrope: false, support_vision: true, support_audio: false };
    let audio = Projector { use_mrope: false, support_vision: false, support_audio: true };
    let mrope = Projector { use_mrope: true, support_vision: true, support_audio: true };
    assert_eq!(check_media(None, &[png.clone()]), Some(MediaRefusal::NotConfigured));
    assert_eq!(check_media(Some(vision), &[png.clone()]), None);
    assert_eq!(check_media(Some(vision), &[png.clone(), wav.clone()]), Some(MediaRefusal::NoAudio));
    assert_eq!(check_media(Some(audio), &[png]), Some(MediaRefusal::NoVision));
    assert_eq!(check_media(Some(audio), &[wav]), None);
    assert_eq!(check_media(Some(mrope), &[]), Some(MediaRefusal::MRope));
    assert!(MediaRefusal::NoVision.message().contains("image"));
}

#[test]
fn a_sequential_generation_ends_on_its_budget_or_its_marker() {
    let stops = vec!["</s>".to_string()];
    let mut g = Generation::new(2, 2, 3, &stops, &[]);
    assert!(g.wants_token());
    assert!(matches!(g.take(&Draw::Piece("a</".to_string())), Step::Decode { ref text } if text == "a"));
    g.note_decoded();
    assert!(matches!(g.take(&Draw::Piece("s>b".to_string())), Step::End { ref text } if text.is_empty()));
    assert!(!g.wants_token());
    assert_eq!(g.finish(), (String::new(), StopReason::Stop));

    let mut g = Generation::new(2, 2, 1, &stops, &[]);
    assert!(matches!(g.take(&Draw::Piece("x<".to_string())), Step::Decode { ref text } if text == "x"));
    g.note_decoded();
    assert!(!g.wants_token());
    assert_eq!(g.finish(), ("<".to_string(), StopReason::Length));

    let mut g = Generation::new(2, 2, 5, &stops, &[]);
    assert!(matches!(g.take(&Draw::Corrupt), Step::Fail(_)));
    assert!(matches!(g.take(&Draw::Eog), Step::End { .. }));
    assert_eq!(g.finish().1, StopReason::Stop);

    let mut g = Generation::new(2, 2, 5, &stops, &[]);
    assert!(matches!(g.take(&Draw::Untranslatable), Step::End { .. }));
    assert_eq!(g.finish().1, StopReason::Length);
}

#[test]
fn only_a_template_of_the_models_own_is_used() {
    assert_eq!(dynamic_template(Some(("p".to_string(), true))).unwrap().prompt, "p");
    assert!(dynamic_template(Some(("p".to_string(), false))).is_none());
    assert!(dynamic_template(None).is_none());
}

#[test]
fn embedding_inputs_are_cut_to_the_context() {
    assert!(matches!(plan_embedding(vec![], 8), Embedding::Zero));
    assert!(matches!(plan_embedding(vec![1], 0), Embedding::Zero));
    match plan_embedding(vec![1, 2, 3], 2) {
        Embedding::Decode(t) => assert_eq!(t, vec![1, 2]),
        Embedding::Zero => panic!("there are tokens to decode"),
    }
}

#[test]
fn prompts_are_budgeted_and_cut_into_chunks() {
    assert_eq!(plan_budget(None, 100, 40, u32::MAX), Ok(60));
    assert_eq!(plan_budget(Some(50), 100, 40, 5), Ok(5));
    assert_eq!(plan_budget(Some(500), 100, 100, 5), Err(100));
    assert_eq!(prefill_chunks(0, 5, 2), vec![(0, 2), (2, 4), (4, 5)]);
    assert!(prefill_chunks(5, 5, 2).is_empty());
    let batch = prompt_batch(&[7, 8, 9], 1, 3, 4);
    assert_eq!(batch.len(), 2);
    assert_eq!((batch[0].token, batch[0].pos, batch[0].logits), (8, 1, false));
    assert_eq!((batch[1].token, batch[1].pos, batch[1].logits), (9, 2, true));
    assert_eq!(batch[1].seq_id, 4);
}

#[test]
fn cache_types_are_sized_and_corrected() {
    assert_eq!(cache_type_block_bytes(KvCacheType::F16), 64);
    assert_eq!(cache_type_block_bytes(KvCacheType::Q4_0), 18);
    assert_eq!(cache_type_display(&KvCacheType::Unknown(46)), "Unknown(46)");
    assert_eq!(cache_type_display(&KvCacheType::Q8_0), "Q8_0");
    assert_eq!(
        correct_kv_cache_for_model("Gemma-4-12b", KvCacheType::Q8_0, KvCacheType::F16),
        (KvCacheType::F16, KvCacheType::F16, true)
    );
    assert_eq!(
        correct_kv_cache_for_model("qwen3-8b", KvCacheType::Q8_0, KvCacheType::Q4_0),
        (KvCacheType::Q8_0, KvCacheType::Q4_0, false)
    );
    assert_eq!(
        parse_cache_type("q9_9").unwrap_err(),
        "Unknown cache type 'q9_9'. Options: f16, f32, q8_0, q4_0, q4_1, q5_0, q5_1"
    );
    let d = KvDims { n_embd: 4096, n_layer: 32, n_head: 32, n_head_kv: 8 };
    // 32 layers × 4096 tokens × 1024 elements × 2 bytes.
    assert_eq!(
        estimate_kv_memory(d, 4096, KvCacheType::F16, KvCacheType::Q4_0),
        Some((268_435_456, 75_497_472))
    );
    let none = KvDims { n_embd: 0, ..d };
    assert_eq!(estimate_kv_memory(none, 4096, KvCacheType::F16, KvCacheType::F16), Some((0, 0)));
}

#[test]
fn the_usual_configuration_offloads_everything() {
    let c = InferenceConfig::with_cores(Some(12));
    assert_eq!(c.gpu_layers, -1);
    assert_eq!(c.context_size, 4096);
    assert_eq!(c.threads, 12);
    assert_eq!(InferenceConfig::with_cores(None).threads, 4);
    assert!(JSON_GBNF.starts_with("\nroot   ::= object"));
}

#[test]
fn a_prompt_that_does_not_fit_is_named_with_its_size() {
    assert_eq!(too_long(9, 8), "Prompt (9 tokens) does not fit in context window (8)");
    assert_eq!(
        media_too_long(9, 8),
        "Multimodal prompt (9 tokens) does not fit in context window (8)"
    );
}
