use rime_llm::daemon::{
    apply_prediction, apply_rerank, begin_prediction_wait, commit_ack_request, delete_reply,
    effects_from, key_refresh, parse_event, prediction_request, rerank_request, reset_retry_delay,
    reset_succeeded,
    settle_refreshed, snapshot_of, Config, ConfigVars, KeyFollowUp, KeyRequest, ResetOutcome,
};
use rime_llm::user_freq::UserFreq;
use rime_llm::lattice::Candidate;
use rime_llm::protocol::{CandidatesResponse, ModelCandidate, PredictionCandidate, PredictionMode, PredictionResponse};
use rime_llm::state::{Effect, InputEvent, InputState};
use rime_llm::syllable::SyllableTable;

fn candidate(text: &str) -> Candidate {
    Candidate {
        id: format!("d:{text}"),
        text: text.to_string(),
        preedit: "bu ru".to_string(),
        consumedkeys: 4,
        base_score_bits: 1.0f32.to_bits(),
        kind: "dictionary".to_string(),
    }
}

fn model(id: &str) -> ModelCandidate {
    ModelCandidate {
        id: id.to_string(),
        text: id.trim_start_matches("d:").to_string(),
        preedit: "bu ru".to_string(),
        consumedkeys: 4,
        score_bits: 0.5f32.to_bits(),
        kind: "llm_phrase".to_string(),
    }
}

#[test]
fn parses_all_event_names() {
    let cases = [
        ("letter", Some("B".to_string()), InputEvent::Letter('b')),
        ("backspace", None, InputEvent::Backspace),
        ("delete", None, InputEvent::Delete),
        ("left", None, InputEvent::Left),
        ("right", None, InputEvent::Right),
        ("pageup", None, InputEvent::PageUp),
        ("pagedown", None, InputEvent::PageDown),
        ("space", None, InputEvent::Space),
        ("enter", None, InputEvent::Enter),
        ("escape", None, InputEvent::Escape),
        ("digit", Some("3".to_string()), InputEvent::Digit(3)),
        ("select", Some("7".to_string()), InputEvent::SelectCandidate(7)),
    ];
    for (name, value, expected) in cases {
        let event = parse_event(&KeyRequest { event: name.to_string(), value }).unwrap();
        assert_eq!(event, expected);
    }
}

#[test]
fn rejects_unknown_events_and_missing_values() {
    assert!(parse_event(&KeyRequest { event: "explode".into(), value: None }).is_err());
    assert!(parse_event(&KeyRequest { event: "letter".into(), value: None }).is_err());
    assert!(parse_event(&KeyRequest { event: "digit".into(), value: Some("x".into()) }).is_err());
}

#[test]
fn event_errors_name_what_is_missing() {
    assert_eq!(parse_event(&KeyRequest { event: "explode".into(), value: None }), Err("unknown event"));
    assert_eq!(
        parse_event(&KeyRequest { event: "letter".into(), value: Some(String::new()) }),
        Err("letter event requires a value")
    );
    assert_eq!(
        parse_event(&KeyRequest { event: "digit".into(), value: Some("256".into()) }),
        Err("digit event requires a number")
    );
    assert_eq!(
        parse_event(&KeyRequest { event: "select".into(), value: Some("-1".into()) }),
        Err("select event requires an index")
    );
    assert_eq!(
        parse_event(&KeyRequest { event: "digit".into(), value: Some("+9".into()) }),
        Ok(InputEvent::Digit(9))
    );
    assert_eq!(
        parse_event(&KeyRequest { event: "letter".into(), value: Some("不".into()) }),
        Ok(InputEvent::Letter('不'))
    );
}

#[test]
fn effects_serialize_only_present_fields() {
    let commit = effects_from(&Effect::Commit { text: "不如".into() });
    assert_eq!(commit.commit.as_deref(), Some("不如"));
    assert!(commit.clear.is_none());

    let clear = effects_from(&Effect::Clear);
    assert_eq!(clear.clear, Some(true));
    assert!(clear.commit.is_none());
}

#[test]
fn config_defaults_and_overrides() {
    let empty = ConfigVars {
        home: Some("/Users/me".into()),
        dictionary_root: None,
        user_freq: None,
        bind_addr: None,
        service_url: None,
        max_candidates: Some("abc".into()),
        model_timeout_ms: None,
    };
    let config = Config::from_vars(&empty);
    assert_eq!(config.bind_addr, "127.0.0.1:32124");
    assert_eq!(config.service_url, "http://127.0.0.1:32123");
    assert_eq!(config.dictionary_root, "data/rime-ice");
    assert_eq!(config.user_freq_path, "/Users/me/Library/Application Support/RimeLLM/user_freq.txt");
    assert_eq!(config.max_candidates, 16);
    assert_eq!(config.model_timeout_ms, 15_000);

    let set = ConfigVars {
        home: None,
        dictionary_root: Some("/dict".into()),
        user_freq: None,
        bind_addr: Some("0.0.0.0:1".into()),
        service_url: None,
        max_candidates: Some("8".into()),
        model_timeout_ms: Some("250".into()),
    };
    let config = Config::from_vars(&set);
    assert_eq!(config.user_freq_path, "./Library/Application Support/RimeLLM/user_freq.txt");
    assert_eq!(config.dictionary_root, "/dict");
    assert_eq!(config.bind_addr, "0.0.0.0:1");
    assert_eq!(config.max_candidates, 8);
    assert_eq!(config.model_timeout_ms, 250);
}

#[test]
fn refresh_requests_a_rerank_only_with_input_and_candidates() {
    let mut state = InputState { input: "buru".into(), cursor: 4, revision: 3, ..InputState::default() };
    state.candidates = vec![candidate("不如")];
    assert_eq!(settle_refreshed(&mut state), KeyFollowUp::RequestRerank(3));
    assert!(state.model_pending);

    let mut empty = InputState { model_pending: true, ..InputState::default() };
    assert_eq!(settle_refreshed(&mut empty), KeyFollowUp::Broadcast);
    assert!(!empty.model_pending);

    let mut none = InputState { input: "q".into(), cursor: 1, ..InputState::default() };
    assert_eq!(settle_refreshed(&mut none), KeyFollowUp::Nothing);
    assert!(!none.model_pending);
}

#[test]
fn stale_rerank_answers_change_nothing() {
    let mut state = InputState { input: "buru".into(), cursor: 4, revision: 3, model_pending: true, ..InputState::default() };
    state.candidates = vec![candidate("不如"), candidate("不入")];
    assert!(rerank_request(&state, 2, &"s".to_string(), 16).is_none());
    assert!(rerank_request(&state, 0, &"s".to_string(), 16).is_none());
    let request = rerank_request(&state, 3, &"s".to_string(), 16).unwrap();
    assert_eq!(request.paths.len(), 2);
    assert_eq!(request.paths[1].id, "d:不入");
    assert_eq!(request.max_candidates, Some(16));

    let response = CandidatesResponse {
        status: "ready".into(),
        candidates: vec![model("d:不入"), model("d:不如")],
        source: "model".into(),
        elapsed_ms: 1,
    };
    assert!(!apply_rerank(&mut state, 2, Some(&response)));
    assert_eq!(state.candidates[0].text, "不如");
    assert!(apply_rerank(&mut state, 3, Some(&response)));
    assert_eq!(state.candidates[0].text, "不入");
    assert!(!state.model_pending);
}

#[test]
fn failed_rerank_only_ends_the_wait() {
    let mut state = InputState { input: "buru".into(), cursor: 4, revision: 1, model_pending: true, ..InputState::default() };
    state.candidates = vec![candidate("不如")];
    assert!(apply_rerank(&mut state, 1, None));
    assert!(!state.model_pending);
    assert!(!apply_rerank(&mut state, 1, None));
    assert_eq!(state.candidates.len(), 1);
}

#[test]
fn predictions_fill_an_empty_composition_of_the_current_revision() {
    let mut state = InputState::default();
    assert!(begin_prediction_wait(&mut state));
    assert!(state.model_pending);
    let request = prediction_request(&"s".to_string(), 4);
    assert_eq!(request.mode, Some(PredictionMode::Hybrid));
    assert_eq!(request.max_candidates, Some(5));
    assert_eq!(request.max_tokens, Some(8));
    let response = PredictionResponse {
        status: "ready".into(),
        revision: 4,
        candidates: vec![PredictionCandidate {
            id: "g0".into(),
            text: "苹果".into(),
            score_bits: 1.0f32.to_bits(),
            kind: "llm_prediction".into(),
        }],
        source: "hybrid".into(),
        elapsed_ms: 1,
    };
    assert!(!apply_prediction(&mut state, 5, 4, Some(response.clone())));
    assert!(state.predictions.is_empty());
    assert!(apply_prediction(&mut state, 4, 4, Some(response)));
    assert_eq!(state.predictions.len(), 1);
    assert!(!state.model_pending);
}

#[test]
fn closing_a_session_retries_unconfirmed_resets() {
    let ok = ResetOutcome::Replied("ok".into());
    let busy = ResetOutcome::Replied("busy".into());
    assert!(reset_succeeded(&ok));
    assert!(!reset_succeeded(&busy));
    let (reply, retry) = delete_reply(true, &ok);
    assert!(reply.ok && reply.model_reset && !reply.reset_retry_scheduled && !retry);
    let (reply, retry) = delete_reply(true, &ResetOutcome::TimedOut);
    assert!(reply.ok && !reply.model_reset && reply.reset_retry_scheduled && retry);
    let (reply, retry) = delete_reply(true, &busy);
    assert!(!reply.model_reset && retry);
    let (reply, retry) = delete_reply(false, &ResetOutcome::Failed);
    assert!(reply.model_reset && !reply.reset_retry_scheduled && !retry);
}

#[test]
fn snapshot_shows_the_spaced_preedit_and_cursor() {
    let table = SyllableTable::from_set(&vec!["bu".to_string(), "ru".to_string()]);
    let mut state = InputState { input: "buru".into(), cursor: 2, revision: 7, ..InputState::default() };
    state.candidates = vec![candidate("不如")];
    let snapshot = snapshot_of(&state, &table, 9);
    assert_eq!(snapshot.preedit, "bu ru");
    assert_eq!(snapshot.composition.preedit_cursor, 3);
    assert_eq!(snapshot.composition.input, "buru");
    assert_eq!(snapshot.candidates[0].id, "d:不如");
    assert_eq!(snapshot.page_size, 9);
    assert_eq!(snapshot.revision, 7);
    assert_eq!(snapshot.event_seq, 9);
}

#[test]
fn key_refresh_installs_and_requests_rerank_for_input() {
    let mut state = InputState { input: "buru".to_string(), cursor: 4, revision: 7, selected_index: 3, page: 1, ..InputState::default() };
    let follow = key_refresh(&mut state, vec![candidate("不如"), candidate("不入")]);
    assert_eq!(follow, KeyFollowUp::RequestRerank(7));
    assert_eq!(state.candidates.len(), 2);
    assert_eq!((state.selected_index, state.page), (0, 0));
    assert!(state.model_pending);

    let mut empty = InputState::default();
    assert_eq!(key_refresh(&mut empty, Vec::new()), KeyFollowUp::Broadcast);
    assert!(!empty.model_pending);

    let mut none = InputState { input: "xq".to_string(), cursor: 2, model_pending: true, ..InputState::default() };
    assert_eq!(key_refresh(&mut none, Vec::new()), KeyFollowUp::Nothing);
    assert!(!none.model_pending);
}

#[test]
fn commit_ack_records_non_empty_text_only() {
    let mut freq = UserFreq::default();
    assert!(commit_ack_request(&mut freq, &"s1".to_string(), &String::new()).is_none());
    assert_eq!(freq.count(""), 0);
    let request = commit_ack_request(&mut freq, &"s1".to_string(), &"不如".to_string()).unwrap();
    assert_eq!(request.session_id, "s1");
    assert_eq!(request.text, "不如");
    assert_eq!(freq.count("不如"), 1);
}

#[test]
fn reset_retries_twice_then_stops() {
    assert_eq!(reset_retry_delay(0), Some(250));
    assert_eq!(reset_retry_delay(1), Some(1000));
    assert_eq!(reset_retry_delay(2), None);
}
