use rime_llm::context::SessionStore;
use rime_llm::inference::{
    check_generation, check_logits_request, context_sizes, device_label, generation_continues,
    next_download_step, DownloadAttempt, DownloadFailure, DownloadStep,
    gguf_header_valid, llama_logs_enabled, load_plan, qwen3_no_thinking_suffix,
    template_supports_thinking, with_thinking_disabled, ContextSizeError, GenerationCheck,
    JobSlot, LoadPlan, LogitsCheck,
};
use rime_llm::predict::{
    build_prediction_prompt, build_prompt, combine_predictions, parse_generated_texts,
    rerank_predictions,
};
use rime_llm::protocol::{CandidatesRequest, CommitRequest, PredictionCandidate, PredictionMode, PredictionRequest, ResetRequest};
use rime_llm::service::{
    begin_candidates, begin_prediction, commit_reply, finish_candidates, normalize_input,
    request_limit, reset_reply, ModelOutcome, Stats,
};
use rime_llm::settings::{DevicePreference, Settings, SettingsEnv};

fn prediction(id: &str, text: &str, score: f32, kind: &str) -> PredictionCandidate {
    PredictionCandidate { id: id.into(), text: text.into(), score_bits: score.to_bits(), kind: kind.into() }
}

fn settings() -> Settings {
    Settings::with_paths("models".into(), "data/rime-ice".into())
}

fn no_env() -> SettingsEnv {
    SettingsEnv {
        bind_addr: None,
        bind_addr_valid: true,
        model_dir: None,
        model_repo: None,
        model_file: None,
        tokenizer_repo: None,
        device: None,
        context_window: None,
        max_candidates: None,
        max_wait_ms: None,
        max_context_chars: None,
        download_timeout_secs: None,
        dictionary_root: None,
    }
}

#[test]
fn normalize_input_filters_pinyin_only() {
    assert_eq!(normalize_input("Ni Hao! 不如 bu-ru"), "nihaoburu");
}

#[test]
fn qwen3_suffix_disables_thinking() {
    assert_eq!(qwen3_no_thinking_suffix(), "<|im_start|>assistant\n<think>\n\n</think>\n\n");
}

#[test]
fn prompt_contains_only_explicit_context_and_input() {
    let prompt = build_prompt(&["完全".into()], "buru", 4096);
    assert!(prompt.contains("完全"));
    assert!(prompt.contains("buru"));
    assert!(!prompt.contains("右侧"));
}

#[test]
fn prompts_keep_the_latest_context_within_budget() {
    let context: Vec<String> = vec!["甲".repeat(20), "乙".repeat(20)];
    let prompt = build_prompt(&context, "buru", 92);
    assert!(prompt.ends_with(&format!("前文：{}{}\n拼音：buru", "甲".repeat(4), "乙".repeat(20))));
    let bare = build_prompt(&[], "buru", 4096);
    assert!(bare.ends_with("拼音：buru"));
    assert!(!bare.contains("前文"));
    let predict = build_prediction_prompt(&context, 100);
    assert!(predict.ends_with(&format!("前文：{}{}", "甲".repeat(12), "乙".repeat(20))));
    assert!(!build_prediction_prompt(&[], 4096).contains("前文"));
}

#[test]
fn model_file_cannot_escape_model_dir() {
    let mut s = settings();
    s.model_file = "../model.gguf".into();
    assert!(s.normalize_and_validate().is_err());
}

#[test]
fn default_model_url_is_stable() {
    let s = settings();
    assert!(s.model_url().contains("unsloth/Qwen3-0.6B-GGUF"));
    assert!(s.model_url().contains("Qwen3-0.6B-Q4_K_M.gguf"));
}

#[test]
fn validation_normalizes_names_and_reports_the_first_broken_rule() {
    let mut s = settings();
    s.model_repo = " /unsloth/Qwen3-0.6B-GGUF/ ".into();
    s.model_file = " a.gguf ".into();
    let t = s.normalize_and_validate().unwrap();
    assert_eq!(t.model_repo, "unsloth/Qwen3-0.6B-GGUF");
    assert_eq!(t.model_file, "a.gguf");
    assert_eq!(t.model_url(), "https://huggingface.co/unsloth/Qwen3-0.6B-GGUF/resolve/main/a.gguf?download=true");
    assert_eq!(t.model_path(), "models/a.gguf");

    let mut s = settings();
    s.context_window = 64;
    s.max_candidates = 0;
    assert_eq!(s.normalize_and_validate().unwrap_err().message, "context_window must be at least 128");
    let mut s = settings();
    s.max_wait_ms = 60_001;
    assert_eq!(s.normalize_and_validate().unwrap_err().message, "max_wait_ms must be between 1 and 60000");
    let mut s = settings();
    s.model_file = "  ".into();
    assert_eq!(s.normalize_and_validate().unwrap_err().message, "model_repo and model_file must not be empty");
}

#[test]
fn environment_overrides_apply_or_report_the_first_error() {
    let mut s = settings();
    let mut env = no_env();
    env.device = Some("CPU".into());
    env.max_candidates = Some("8".into());
    env.model_dir = Some("/m".into());
    s.apply_environment(&env).unwrap();
    assert_eq!(s.device, DevicePreference::Cpu);
    assert_eq!(s.max_candidates, 8);
    assert_eq!(s.model_dir, "/m");

    let mut s = settings();
    let mut env = no_env();
    env.device = Some("GPU".into());
    env.max_wait_ms = Some("x".into());
    let error = s.apply_environment(&env).unwrap_err();
    assert_eq!(error.message, "RIME_LLM_DEVICE must be metal or cpu, got gpu");
    assert_eq!(s.device, DevicePreference::Metal);

    let mut env = no_env();
    env.max_wait_ms = Some("-5".into());
    assert_eq!(s.apply_environment(&env).unwrap_err().message, "RIME_LLM_MAX_WAIT_MS must be a positive integer");
    let mut env = no_env();
    env.bind_addr = Some("nowhere".into());
    env.bind_addr_valid = false;
    assert_eq!(s.apply_environment(&env).unwrap_err().message, "RIME_LLM_BIND_ADDR must be a socket address");
}

#[test]
fn environment_applies_the_variables_read_before_an_error() {
    let mut s = settings();
    let mut env = no_env();
    env.model_dir = Some("/m".into());
    env.max_candidates = Some("8".into());
    env.max_wait_ms = Some("x".into());
    env.dictionary_root = Some("/d".into());
    let wait = s.max_wait_ms;
    let error = s.apply_environment(&env).unwrap_err();
    assert_eq!(error.message, "RIME_LLM_MAX_WAIT_MS must be a positive integer");
    assert_eq!(s.model_dir, "/m");
    assert_eq!(s.max_candidates, 8);
    assert_eq!(s.max_wait_ms, wait);
    assert_eq!(s.dictionary_root, "data/rime-ice");
}

#[test]
fn sessions_are_isolated_and_trimmed() {
    let mut store = SessionStore::new(2);
    store.commit("a", "甲");
    store.commit("a", "乙");
    store.commit("b", "丙");
    assert_eq!(store.context("a"), vec!["甲", "乙"]);
    assert_eq!(store.context("b"), vec!["丙"]);

    store.commit("a", "很长");
    assert_eq!(store.context("a").join(""), "很长");
}

#[test]
fn reset_does_not_touch_other_sessions() {
    let mut store = SessionStore::new(20);
    store.commit("a", "甲");
    store.commit("b", "乙");
    store.reset("a");
    assert!(store.context("a").is_empty());
    assert_eq!(store.context("b"), vec!["乙"]);
}

#[test]
fn revisions_count_commits_and_restart_after_reset() {
    let mut store = SessionStore::new(20);
    assert_eq!(store.commit("s", "甲"), 1);
    assert_eq!(store.commit("s", "乙"), 2);
    assert_eq!(store.commit("s", ""), 2);
    assert_eq!(store.revision("s"), 2);
    assert_eq!(store.reset("s"), 0);
    assert_eq!(store.revision("s"), 0);
    for index in 0..10 {
        store.commit("t", &format!("{index}"));
    }
    assert_eq!(store.context("t").len(), 8);
    assert_eq!(store.context("t")[0], "2");
    let mut tiny = SessionStore::new(3);
    tiny.commit("u", "一二三四五");
    assert_eq!(tiny.context("u"), vec!["三四五"]);
}

#[test]
fn candidates_requests_are_checked_and_counted() {
    let mut stats = Stats::new();
    let request = CandidatesRequest {
        session_id: "  s ".into(),
        input: "Bu-Ru".into(),
        max_candidates: Some(99),
        paths: vec![],
    };
    let plan = begin_candidates(&mut stats, &request, 16, 0).unwrap();
    assert_eq!(plan.session_id, "s");
    assert_eq!(plan.input, "buru");
    assert_eq!(plan.limit, 16);
    let blank = CandidatesRequest { session_id: " ".into(), input: "buru".into(), max_candidates: None, paths: vec![] };
    let reply = begin_candidates(&mut stats, &blank, 16, 5).unwrap_err();
    assert_eq!(reply.status, "fallback");
    assert_eq!(reply.source, "invalid_request");
    assert_eq!(reply.elapsed_ms, 5);
    assert_eq!(stats.candidate_requests, 2);
    assert_eq!(stats.fallbacks, 1);

    let timed_out = finish_candidates(&mut stats, ModelOutcome::TimedOut, 7);
    assert_eq!(timed_out.source, "timeout");
    assert_eq!(stats.timeouts, 1);
    let empty = finish_candidates(&mut stats, ModelOutcome::Done(vec![]), 7);
    assert_eq!(empty.source, "no_match");
    let failed = finish_candidates(&mut stats, ModelOutcome::Failed, 7);
    assert_eq!(failed.source, "model_error");
    assert_eq!(stats.fallbacks, 4);
    let snapshot = stats.snapshot();
    assert_eq!(snapshot.fallbacks, 4);
    assert_eq!(snapshot.model_successes, 0);
}

#[test]
fn predictions_for_other_revisions_are_stale() {
    let mut stats = Stats::new();
    let mut store = SessionStore::new(20);
    commit_reply(&mut stats, &mut store, &CommitRequest { session_id: " s ".into(), text: "甲".into() });
    assert_eq!(stats.commits, 1);
    let request = PredictionRequest {
        session_id: "s".into(),
        revision: 0,
        mode: Some(PredictionMode::Free),
        max_candidates: Some(100),
        max_tokens: None,
    };
    let stale = begin_prediction(&mut stats, &store, &request, 5, 8, 3).unwrap_err();
    assert_eq!(stale.status, "stale");
    assert_eq!(stale.revision, 1);
    let current = PredictionRequest { revision: 1, ..request };
    let queued = begin_prediction(&mut stats, &store, &current, 5, 8, 3).unwrap();
    assert_eq!(queued.max_candidates, Some(5));
    assert_eq!(queued.max_tokens, Some(8));
    assert_eq!(stats.prediction_requests, 2);
    assert_eq!(stats.prediction_stale, 1);

    let reset = reset_reply(&mut stats, &mut store, &ResetRequest { session_id: "s".into() });
    assert_eq!(reset.status, "ok");
    assert_eq!(reset.revision, 0);
    assert!(store.context("s").is_empty());
    assert_eq!(store.revision("s"), 0);
    assert_eq!(request_limit(Some(0), 5), 1);
    assert_eq!(request_limit(None, 5), 5);
}

#[test]
fn merge_modes_follow_expected_sources() {
    let generated = vec![
        prediction("g0", "苹果", 1.0, "llm_prediction"),
        prediction("g1", "香蕉", 0.5, "llm_prediction"),
    ];
    let dictionary = vec![prediction("d:香蕉", "香蕉", 0.25, "dictionary_prediction")];

    let free = combine_predictions(generated.clone(), dictionary.clone(), PredictionMode::Free, 5);
    assert_eq!(free.len(), 2);

    let dictionary_only = combine_predictions(generated.clone(), dictionary.clone(), PredictionMode::Dictionary, 5);
    assert_eq!(dictionary_only.len(), 1);
    assert_eq!(dictionary_only[0].text, "香蕉");

    let hybrid = combine_predictions(generated, dictionary, PredictionMode::Hybrid, 5);
    assert_eq!(hybrid.len(), 2);
}

#[test]
fn generated_output_only_keeps_chinese_candidates() {
    let texts = parse_generated_texts("1. 苹果\nbanana\n香蕉\n橘子!", 5);
    assert_eq!(texts, ["苹果", "香蕉"]);
}

#[test]
fn generated_candidates_are_deduplicated_and_limited() {
    let texts = parse_generated_texts("苹果\n苹果\n香蕉", 1);
    assert_eq!(texts.len(), 1);
    assert_eq!(texts[0], "苹果");
}

#[test]
fn reranking_orders_by_score_then_shorter_text() {
    let ranked = rerank_predictions(
        vec![
            prediction("a", "苹果派", 0.5, "x"),
            prediction("b", "苹果", 0.5, "x"),
            prediction("c", "香蕉", 0.9, "x"),
            prediction("d", "苹果", 0.99, "x"),
        ],
        2,
    );
    assert_eq!(ranked.iter().map(|p| p.id.as_str()).collect::<Vec<_>>(), vec!["c", "b"]);
}

#[test]
fn the_job_slot_keeps_only_the_latest_job() {
    let mut slot = JobSlot::new();
    assert_eq!(slot.submit(1), (None, true));
    assert_eq!(slot.submit(2), (Some(1), false));
    assert_eq!(slot.take(), Some(2));
    assert_eq!(slot.take(), None);
    assert_eq!(slot.submit(3), (None, false));
}

#[test]
fn inference_requests_are_checked_before_running() {
    assert_eq!(check_logits_request(0, &[0], 10), LogitsCheck::EmptyTokens);
    assert_eq!(check_logits_request(3, &[], 10), LogitsCheck::NoPositions);
    assert_eq!(check_logits_request(11, &[0], 10), LogitsCheck::TooLong);
    assert_eq!(check_logits_request(3, &[1, 3], 10), LogitsCheck::PositionOutside);
    assert_eq!(check_logits_request(3, &[2], 10), LogitsCheck::Ready);
    assert_eq!(check_generation(0, 10, 4), GenerationCheck::EmptyPrompt);
    assert_eq!(check_generation(10, 10, 4), GenerationCheck::NoRoom);
    assert_eq!(check_generation(3, 10, 0), GenerationCheck::NothingToGenerate);
    assert_eq!(check_generation(3, 10, 4), GenerationCheck::Ready);
    assert!(generation_continues(0, 4, 3, 10));
    assert!(!generation_continues(3, 4, 3, 10));
    assert!(!generation_continues(2, 8, 7, 10));
    assert_eq!(context_sizes(4096), Ok((4096, 512)));
    assert_eq!(context_sizes(100), Ok((100, 100)));
    assert_eq!(context_sizes(0), Err(ContextSizeError::Zero));
}

#[test]
fn model_loading_and_logging_switches() {
    assert!(llama_logs_enabled(Some(" TRUE ")));
    assert!(llama_logs_enabled(Some("1")));
    assert!(!llama_logs_enabled(Some("no")));
    assert!(!llama_logs_enabled(None));
    assert_eq!(load_plan(DevicePreference::Metal, true), LoadPlan::GpuWithFallback);
    assert_eq!(load_plan(DevicePreference::Metal, false), LoadPlan::CpuWithoutGpu);
    assert_eq!(device_label(LoadPlan::GpuWithFallback, false), "cpu-fallback");
    assert!(template_supports_thinking("{% if enable_thinking %}"));
    assert!(!template_supports_thinking("{{ messages }}"));
    assert_eq!(with_thinking_disabled("x".into()), format!("x{}", qwen3_no_thinking_suffix()));
    assert!(gguf_header_valid(2 * 1024 * 1024, b"GGUF"));
    assert!(!gguf_header_valid(1024, b"GGUF"));
    assert!(!gguf_header_valid(2 * 1024 * 1024, b"GGML"));
}

#[test]
fn download_retries_a_corrupt_file_once() {
    assert_eq!(next_download_step(false, DownloadAttempt::Fetched { valid: true }), DownloadStep::Ready);
    assert_eq!(next_download_step(false, DownloadAttempt::Fetched { valid: false }), DownloadStep::RemoveAndRetry);
    assert_eq!(
        next_download_step(true, DownloadAttempt::Fetched { valid: false }),
        DownloadStep::Fail(DownloadFailure::InvalidGguf)
    );
    assert_eq!(next_download_step(true, DownloadAttempt::Fetched { valid: true }), DownloadStep::Ready);
    assert_eq!(next_download_step(false, DownloadAttempt::Failed), DownloadStep::Fail(DownloadFailure::Fetch));
    assert_eq!(next_download_step(false, DownloadAttempt::TimedOut), DownloadStep::Fail(DownloadFailure::Timeout));
}
