use eullm::api::models::{
    is_safe_filename, model_identity_key, model_names_match, needs_swap, normalize_model_name,
    resolve_plan, resolved, same_path, ModelError, Probe,
};
use eullm::api::reply::{answering_model, load_refused};
use eullm::api::swap::{
    choose_mmproj, ensure_embedding_model, evict_embedding_for_load, fits_in_free_vram,
    layer_decision, plan_load,
    LoadFailure, LoadSettings, ModelFacts, Phase, Residency, Swap, SwapAction, SwapEvent,
};
use eullm::fit::{FitDecision, GgufInfo, MoeLayout};
use eullm::inference::kv_cache::KvCacheType;

#[test]
fn a_tag_is_joined_by_a_dash() {
    assert_eq!(normalize_model_name("qwen3:14b"), "qwen3-14b");
    assert_eq!(normalize_model_name("plain"), "plain");
}

#[test]
fn dots_in_a_name_do_not_merge_models() {
    assert_eq!(model_identity_key("/models/Qwen3.6-27B.GGUF"), "qwen3.6-27b");
    assert_eq!(model_identity_key("C:\\models\\a.gguf"), "a");
    assert_ne!(
        model_identity_key("ornith-1.0-35b-gguf-ud-q5_k_xl"),
        model_identity_key("ornith-1.0-35b-gguf-ud-q4_k_xl")
    );
    assert_eq!(model_identity_key(".gguf"), "");
    assert_eq!(model_identity_key("gguf"), "gguf");
    assert!(model_names_match("/models/qwen3-8b.gguf", "qwen3-8b"));
    assert!(!model_names_match("ornith-1.0-a", "ornith-1.0-b"));
}

#[test]
fn a_loaded_model_is_not_loaded_again() {
    assert!(!needs_swap(Some("qwen3-8b"), Some("qwen3:8b")));
    assert!(needs_swap(Some("qwen3-8b"), Some("qwen3:14b")));
    assert!(needs_swap(None, Some("qwen3:14b")));
    assert!(!needs_swap(None, None));
}

fn file(p: &str) -> Probe {
    Probe::File(p.to_string())
}

#[test]
fn names_are_looked_up_in_order() {
    assert_eq!(
        resolve_plan("qwen3:8b", None, false),
        vec![
            file("/models/qwen3:8b.gguf"),
            file("/data/models/qwen3:8b.gguf"),
            Probe::Stored("qwen3:8b".to_string()),
            Probe::Stored("qwen3-8b".to_string()),
        ]
    );
    assert_eq!(
        resolve_plan("../etc/passwd", None, false),
        vec![Probe::Stored("../etc/passwd".to_string())]
    );
    assert_eq!(
        resolve_plan("/w/m.gguf", Some(("m", "/w/m.gguf")), false)[0],
        file("/w/m.gguf")
    );
    let open = resolve_plan("d/m", None, true);
    assert_eq!(open[0], file("d/m"));
    assert_eq!(open[1], Probe::Directory("d/m".to_string()));
    assert_eq!(open[2], file("d/m.gguf"));
    assert_eq!(open.len(), 4);
    assert!(is_safe_filename("a.gguf"));
    assert!(!is_safe_filename("a/b.gguf"));
    assert!(!is_safe_filename(".."));
    assert!(!is_safe_filename(""));
}

#[test]
fn the_launch_path_is_compared_by_components() {
    let first = |name: &str, path: &str| {
        resolve_plan(name, Some(("listed", path)), false)[0] == file(path)
    };
    for name in ["models/a.gguf", "models//a.gguf", "models/./a.gguf", "models/a.gguf/", "listed"] {
        assert!(first(name, "models/a.gguf"), "{name}");
    }
    for name in ["./models/a.gguf", "/models/a.gguf", "models/../models/a.gguf", "a.gguf"] {
        assert!(!first(name, "models/a.gguf"), "{name}");
    }
    assert!(first("./a.gguf", ".//a.gguf/."));
    assert!(!first("a.gguf", "./a.gguf"));
    assert!(first("/./w//m.gguf", "/w/m.gguf"));
    assert!(!first("models", "models/a.gguf"));
    for (a, b) in [("", "."), ("/", "."), ("a//b", "a/b/."), ("./.", "."), ("/.", "/"), ("..", ".")] {
        let std_says = std::path::Path::new(a) == std::path::Path::new(b);
        assert_eq!(same_path(a, b), std_says, "{a:?} {b:?}");
    }
}

#[test]
fn an_unknown_model_is_refused_by_name_and_not_with_a_500() {
    let e = resolved("this-model-does-not-exist", None).unwrap_err();
    assert!(e.message().contains("this-model-does-not-exist"));
    let r = load_refused(&e, "this-model-does-not-exist");
    assert_eq!(r.status, 404);
    let r = load_refused(&ModelError::from("no room".to_string()), "big");
    assert_eq!(r.status, 500);
    assert_eq!(
        r.body.get("error").unwrap().as_text(),
        Some("Failed to load model 'big': no room")
    );
    assert_eq!(resolved("x", Some("/p".to_string())), Ok("/p".to_string()));
}

#[test]
fn embedding_endpoints_refuse_an_unknown_model_by_name() {
    let e = resolved("this-model-does-not-exist", None).unwrap_err();
    let r = load_refused(&e, "this-model-does-not-exist");
    assert_eq!(r.status, 404);
    assert!(r.body.get("error").unwrap().as_text().unwrap().contains("this-model-does-not-exist"));
}

#[test]
fn generate_with_no_model_field_and_nothing_loaded_still_503s_before_the_warm_load_check() {
    let e = answering_model(None, false, false).unwrap_err();
    assert_eq!(e.status, 503);
    assert!(e.body.get("error").unwrap().as_text().unwrap().contains("No model loaded"));
    assert_eq!(answering_model(Some("m"), false, true), Ok("m".to_string()));
    assert_eq!(answering_model(None, true, false), Ok("unknown".to_string()));
}

fn settings() -> LoadSettings {
    LoadSettings {
        gpu_layers: -1,
        fit: true,
        fit_strict: false,
        ctx_size: 4096,
        threads: 8,
        flash_attn: true,
        n_batch: 512,
        cache_type_k: KvCacheType::Q8_0,
        cache_type_v: KvCacheType::Q8_0,
        batch_size: 2,
        cpu_moe: false,
        n_cpu_moe: 0,
        rs_seq: 1,
        ctx_checkpoints: 3,
        checkpoint_min_step: 100,
    }
}

fn info(n_layers: u32) -> GgufInfo {
    GgufInfo {
        n_layers,
        n_embd: None,
        n_head: None,
        n_head_kv: None,
        key_length: None,
        value_length: None,
        full_attention_interval: None,
        architecture: None,
    }
}

fn facts(free: Option<u64>) -> ModelFacts {
    ModelFacts { free_vram: free, info: Some(info(32)), layout: None, file_size: 16_000_000_000 }
}

#[test]
fn a_load_is_sized_for_its_own_model() {
    let plan = plan_load(
        &settings(),
        "qwen3",
        "/m.gguf".to_string(),
        None,
        &facts(Some(4_000_000_000)),
        Some(4),
        Some(1024),
    )
    .unwrap();
    assert!(plan.config.gpu_layers > 0 && plan.config.gpu_layers < 32);
    assert_eq!(plan.config.context_size, 1024);
    assert_eq!(plan.config.model_path, "/m.gguf");
    assert_eq!(plan.config.cache_type_k, KvCacheType::Q8_0);
    assert!(!plan.kv_corrected);
    let s = plan.scheduler.unwrap();
    assert_eq!((s.max_batch_size, s.queue_capacity), (4, 32));
    assert_eq!((s.ctx_checkpoints, s.checkpoint_min_step), (3, 100));
}

#[test]
fn a_sizing_by_layers_is_reported() {
    let short = facts(Some(4_000_000_000));
    let d = layer_decision(&settings(), "qwen3", &short, Some(1024)).unwrap();
    let plan =
        plan_load(&settings(), "qwen3", "/m.gguf".to_string(), None, &short, None, Some(1024));
    let layers = plan.unwrap().config.gpu_layers;
    assert_eq!(d, FitDecision::Partial { layers, n_layers: 32 });
    let roomy = facts(Some(1 << 40));
    assert_eq!(layer_decision(&settings(), "qwen3", &roomy, None), Some(FitDecision::FitsFully));
    let unsized_load = LoadSettings { fit: false, ..settings() };
    assert_eq!(layer_decision(&unsized_load, "qwen3", &short, None), None);
}

#[test]
fn a_strict_server_refuses_what_does_not_fit() {
    let strict = LoadSettings { fit_strict: true, ..settings() };
    let e = plan_load(
        &strict,
        "qwen3",
        "/m.gguf".to_string(),
        None,
        &facts(Some(4_000_000_000)),
        None,
        None,
    )
    .err()
    .unwrap();
    assert!(e.message().starts_with("--fit-strict: model 'qwen3' does not fully fit"));
    let roomy = plan_load(
        &strict,
        "qwen3",
        "/m.gguf".to_string(),
        None,
        &facts(Some(1 << 40)),
        None,
        None,
    )
    .unwrap();
    assert_eq!(roomy.config.gpu_layers, -1);
}

#[test]
fn experts_are_kept_back_before_layers_are() {
    let moe = ModelFacts {
        free_vram: Some(4_200_000_000),
        info: Some(info(4)),
        layout: Some(MoeLayout {
            non_expert_bytes: 1_000_000_000,
            expert_bytes_per_layer: vec![2_000_000_000; 4],
        }),
        file_size: 9_000_000_000,
    };
    let plan = |s: &LoadSettings| {
        plan_load(s, "moe", "/m.gguf".to_string(), None, &moe, None, Some(512)).unwrap().config
    };
    assert_eq!(layer_decision(&settings(), "moe", &moe, Some(512)), None);
    let c = plan(&settings());
    assert_eq!((c.gpu_layers, c.cpu_moe, c.n_cpu_moe), (-1, false, 3));
    // A configured layer count stays a ceiling.
    let c = plan(&LoadSettings { gpu_layers: 2, ..settings() });
    assert_eq!((c.gpu_layers, c.n_cpu_moe), (2, 3));
    // A placement set by hand is not sized again.
    let c = plan(&LoadSettings { cpu_moe: true, ..settings() });
    assert!(c.cpu_moe);
    assert_eq!(c.n_cpu_moe, 0);
    // Without sizing the settings hold as they are.
    let c = plan(&LoadSettings { fit: false, gpu_layers: 7, ..settings() });
    assert_eq!((c.gpu_layers, c.n_cpu_moe), (7, 0));
}

#[test]
fn a_projector_makes_a_load_sequential() {
    let plan = plan_load(
        &settings(),
        "Gemma-4-12b",
        "/g.gguf".to_string(),
        Some("/mmproj.gguf".to_string()),
        &facts(None),
        Some(8),
        None,
    )
    .unwrap();
    assert!(plan.scheduler.is_none());
    assert_eq!(plan.config.mmproj_path.as_deref(), Some("/mmproj.gguf"));
    assert!(plan.kv_corrected);
    assert_eq!(plan.config.cache_type_k, KvCacheType::F16);
    let s = |x: &str| Some(x.to_string());
    assert_eq!(choose_mmproj(s("a"), s("b"), s("c")), s("a"));
    assert_eq!(choose_mmproj(None, s("b"), s("c")), s("b"));
    assert_eq!(choose_mmproj(None, None, s("c")), s("c"));
    assert_eq!(choose_mmproj(None, None, None), None);
}

#[test]
fn an_embedding_model_makes_room_only_where_it_must() {
    let mut n = 0;
    assert_eq!(
        ensure_embedding_model(Some("bge-m3"), "BGE:m3", true, Some(false), &mut n),
        Residency::Reuse
    );
    assert_eq!(
        ensure_embedding_model(None, "bge", true, Some(true), &mut n),
        Residency::Coexist
    );
    assert_eq!(ensure_embedding_model(None, "bge", true, None, &mut n), Residency::Coexist);
    assert_eq!(
        ensure_embedding_model(None, "bge", false, Some(false), &mut n),
        Residency::Coexist
    );
    assert_eq!(n, 0);
    assert_eq!(
        ensure_embedding_model(Some("e5"), "bge", true, Some(false), &mut n),
        Residency::EvictMain
    );
    assert_eq!(n, 1);
    assert!(evict_embedding_for_load(true, true, &mut n));
    assert!(!evict_embedding_for_load(false, true, &mut n));
    assert!(!evict_embedding_for_load(true, false, &mut n));
    assert_eq!(n, 2);
}

#[test]
fn an_embedding_model_fits_above_the_floor_and_the_reserve() {
    let mib = 1u64 << 20;
    assert_eq!(fits_in_free_vram(Some((1000 * mib, 100 * mib)), 644 * mib), Some(true));
    assert_eq!(fits_in_free_vram(Some((1000 * mib, 100 * mib)), 644 * mib + 1), Some(false));
    assert_eq!(fits_in_free_vram(Some((10, 100)), 0), Some(true));
    assert_eq!(fits_in_free_vram(None, 1), None);
}

fn begun(slot: Option<&str>, name: &str) -> (Swap, SwapAction) {
    Swap::begin(slot.map(str::to_string), name, Some(2), Some(1024))
}

fn found() -> SwapEvent {
    SwapEvent::Found {
        path: "/m.gguf".to_string(),
        stored: None,
        beside: None,
        fallback: None,
    }
}

#[test]
fn a_swap_to_an_unknown_model_leaves_the_loaded_one() {
    let mut n = 0;
    let (mut swap, action) = begun(Some("gemma-3-4b"), "qwen3:8b");
    assert!(matches!(action, SwapAction::Resolve));
    let action = swap.step(&settings(), SwapEvent::NotFound, &mut n);
    match action {
        SwapAction::Finish(Err(ModelError::NotFound(m))) => assert!(m.contains("'qwen3-8b'")),
        other => panic!("{other:?}"),
    }
    assert_eq!(swap.slot.as_deref(), Some("gemma-3-4b"));
    assert!(matches!(swap.phase, Phase::Over));
    assert_eq!(n, 0);
}

#[test]
fn a_swap_unloads_before_it_measures_and_loads() {
    let mut n = 0;
    let s = settings();
    let (mut swap, _) = begun(Some("gemma-3-4b"), "qwen3:8b");
    assert!(matches!(swap.step(&s, found(), &mut n), SwapAction::Unload));
    assert_eq!(swap.slot.as_deref(), Some("gemma-3-4b"));
    let gone = SwapEvent::Unloaded { failure: None, embedding_loaded: true };
    let action = swap.step(&s, gone, &mut n);
    assert!(matches!(action, SwapAction::Measure { evict_embedding: true }));
    assert_eq!((swap.slot.as_deref(), n), (None, 1));
    match swap.step(&s, SwapEvent::Measured(facts(Some(1 << 40))), &mut n) {
        SwapAction::Load(plan) => {
            assert_eq!(plan.config.model_path, "/m.gguf");
            assert_eq!(plan.config.context_size, 1024);
            assert_eq!(plan.scheduler.unwrap().max_batch_size, 2);
        }
        other => panic!("{other:?}"),
    }
    let action = swap.step(&s, SwapEvent::Loaded { failure: None }, &mut n);
    assert!(matches!(action, SwapAction::Finish(Ok(()))));
    assert_eq!(swap.slot.as_deref(), Some("qwen3-8b"));
    assert!(matches!(begun(Some("qwen3-8b"), "qwen3:8b").1, SwapAction::Finish(Ok(()))));
}

#[test]
fn a_swap_that_fails_says_where() {
    let s = settings();
    let said = |action| match action {
        SwapAction::Finish(Err(ModelError::LoadFailed(m))) => m,
        other => panic!("{other:?}"),
    };
    let mut n = 0;
    let (mut swap, _) = begun(None, "m");
    swap.step(&s, found(), &mut n);
    let stuck =
        SwapEvent::Unloaded { failure: Some("stuck".to_string()), embedding_loaded: false };
    assert_eq!(said(swap.step(&s, stuck, &mut n)), "stuck");

    let strict = LoadSettings { fit_strict: true, ..settings() };
    let (mut swap, _) = begun(None, "m");
    swap.step(&strict, found(), &mut n);
    swap.step(&strict, SwapEvent::Unloaded { failure: None, embedding_loaded: false }, &mut n);
    let refused = swap.step(&strict, SwapEvent::Measured(facts(Some(1 << 30))), &mut n);
    assert!(said(refused).starts_with("--fit-strict: model 'm'"));

    let why = || "no memory".to_string();
    for (failure, text) in [
        (LoadFailure::Engine(why()), "Failed to load model: no memory"),
        (LoadFailure::Scheduler(why()), "Failed to start scheduler: no memory"),
        (LoadFailure::Task(why()), "Task join error: no memory"),
    ] {
        let (mut swap, _) = begun(Some("old"), "m");
        swap.step(&s, found(), &mut n);
        swap.step(&s, SwapEvent::Unloaded { failure: None, embedding_loaded: false }, &mut n);
        swap.step(&s, SwapEvent::Measured(facts(Some(1 << 40))), &mut n);
        let end = swap.step(&s, SwapEvent::Loaded { failure: Some(failure) }, &mut n);
        assert_eq!(said(end), text);
        assert_eq!(swap.slot, None);
    }
    assert_eq!(n, 0);
}
