use rime_llm::daemon::merge_candidates;
use rime_llm::lattice::{
    dictionary_menu, rank_candidates, Candidate, CandidateEngine, DEFAULT_MAX_CANDIDATES,
};
use rime_llm::lexicon::{Lexicon, LexiconEntry};
use rime_llm::normalize_input;
use rime_llm::protocol::ModelCandidate;
use rime_llm::state::{Effect, InputEvent, InputState, StateMachine, PAGE_SIZE};
use rime_llm::syllable::{spaced_preedit, spaced_preedit_with_cursor, SyllableTable};
use rime_llm::user_freq::UserFreq;

fn table(syllables: &[&str]) -> SyllableTable {
    SyllableTable::from_set(&syllables.iter().map(|s| s.to_string()).collect())
}

fn candidate(text: &str, consumedkeys: usize) -> Candidate {
    Candidate {
        id: format!("d:{text}"),
        text: text.to_string(),
        preedit: "bu ru".to_string(),
        consumedkeys,
        base_score_bits: 1.0f32.to_bits(),
        kind: "dictionary".to_string(),
    }
}

fn state_with_input(input: &str) -> InputState {
    InputState {
        input: input.to_string(),
        cursor: input.len(),
        ..InputState::default()
    }
}

fn entry(text: &str, code: &str, prior: f32) -> LexiconEntry {
    LexiconEntry {
        text: text.to_string(),
        code: code.to_string(),
        preedit: code.to_string(),
        consumed_keys: code.chars().filter(|c| *c != ' ').count(),
        prior_bits: prior.to_bits(),
    }
}

/// The base score of a word: the dictionary prior on a log scale plus the user boost.
fn word_score(prior_bits: u32, text: &str, freq: &UserFreq) -> f32 {
    let prior = f32::from_bits(prior_bits);
    let count = freq.count(text);
    let boost = if count == 0 {
        0.0
    } else {
        (count as f32).ln() * 0.08 + 0.08
    };
    (prior.max(0.0) + 1.0).ln() * 0.15 + boost
}

/// The menu for `input`: the verified first words, scored, then ranked.
fn menu(lexicon: &Lexicon, freq: &UserFreq, input: &str, max: usize) -> Vec<Candidate> {
    let engine = CandidateEngine::new(lexicon, freq);
    let words = engine.first_words(input);
    let scores = words
        .iter()
        .map(|word| word_score(word.entry.prior_bits, &word.entry.text, freq).to_bits())
        .collect();
    dictionary_menu(&words, &scores, max)
}

fn texts(candidates: &[Candidate]) -> Vec<&str> {
    candidates.iter().map(|candidate| candidate.text.as_str()).collect()
}

#[test]
fn normalize_input_keeps_letters_and_boundaries() {
    assert_eq!(normalize_input("Ni Hao! 不如 bu-ru"), "nihaoburu");
    assert_eq!(normalize_input("XI'AN"), "xi'an");
}

#[test]
fn finds_all_segmentations_of_ambiguous_input() {
    let table = table(&["xian", "xi", "an", "x", "i", "a", "n", "xia"]);
    let edges = table.edges("xian");
    let spans = edges
        .iter()
        .map(|edge| (edge.start, edge.end, edge.syllable.as_str()))
        .collect::<Vec<_>>();
    assert!(spans.contains(&(0, 2, "xi")));
    assert!(spans.contains(&(0, 3, "xia")));
    assert!(spans.contains(&(0, 4, "xian")));
    assert!(spans.contains(&(2, 4, "an")));
}

#[test]
fn apostrophe_is_a_forced_boundary() {
    let table = table(&["xi", "an", "xian"]);
    let edges = table.edges("xi'an");
    let spans = edges.iter().map(|edge| (edge.start, edge.end)).collect::<Vec<_>>();
    assert!(spans.contains(&(0, 2)));
    assert!(spans.contains(&(3, 5)));
    assert!(!spans.contains(&(0, 5)), "xian must not cross the apostrophe");
}

#[test]
fn invalid_letters_produce_no_edges() {
    let table = table(&["bu", "ru"]);
    assert!(table.edges("b").is_empty());
    assert!(table.edges("bur").iter().any(|edge| edge.syllable == "bu"));
}

#[test]
fn spaced_preedit_joins_syllables_and_keeps_tail() {
    let table = table(&["bu", "ru", "xi", "an", "xian"]);
    assert_eq!(spaced_preedit("buru", &table), "bu ru");
    assert_eq!(spaced_preedit("xi'an", &table), "xi an");
    assert_eq!(spaced_preedit("bunr", &table), "bu nr");
}

#[test]
fn preedit_cursor_accounts_for_inserted_spaces() {
    let table = table(&["bu", "ru"]);
    assert_eq!(spaced_preedit_with_cursor("buru", 2, &table), ("bu ru".into(), 3));
    assert_eq!(spaced_preedit_with_cursor("buru", 3, &table), ("bu ru".into(), 4));
    assert_eq!(spaced_preedit_with_cursor("buru", 4, &table), ("bu ru".into(), 5));
}

#[test]
fn preedit_cursor_handles_apostrophe_boundaries() {
    let table = table(&["xi", "an"]);
    assert_eq!(spaced_preedit_with_cursor("xi'an", 2, &table), ("xi an".into(), 3));
    assert_eq!(spaced_preedit_with_cursor("xi'an", 3, &table), ("xi an".into(), 3));
}

#[test]
fn letters_insert_at_cursor_and_bump_revision() {
    let mut state = InputState::default();
    for character in ['b', 'u'] {
        let outcome = StateMachine::apply(&InputEvent::Letter(character), &mut state);
        assert!(outcome.candidates_dirty);
        assert_eq!(outcome.effect, Effect::Nothing);
    }
    assert_eq!(state.input, "bu");
    assert_eq!(state.revision, 2);

    state.cursor = 1;
    StateMachine::apply(&InputEvent::Letter('x'), &mut state);
    assert_eq!(state.input, "bxu");
}

#[test]
fn backspace_and_delete_respect_cursor() {
    let mut state = state_with_input("buru");
    state.cursor = 3;
    StateMachine::apply(&InputEvent::Backspace, &mut state);
    assert_eq!(state.input, "buu");
    assert_eq!(state.cursor, 2);

    StateMachine::apply(&InputEvent::Delete, &mut state);
    assert_eq!(state.input, "bu");
    StateMachine::apply(&InputEvent::Right, &mut state);
    StateMachine::apply(&InputEvent::Delete, &mut state);
    assert_eq!(state.input, "bu");
}

#[test]
fn space_commits_first_candidate_and_keeps_remainder() {
    let mut state = state_with_input("burushang");
    state.candidates = vec![candidate("不如", 4), candidate("不入", 4)];
    let outcome = StateMachine::apply(&InputEvent::Space, &mut state);
    assert_eq!(outcome.effect, Effect::Commit { text: "不如".to_string() });
    assert_eq!(state.input, "shang");
    assert!(state.candidates.is_empty());
}

#[test]
fn full_consumption_commits_and_clears() {
    let mut state = state_with_input("buru");
    state.candidates = vec![candidate("不如", 4)];
    let outcome = StateMachine::apply(&InputEvent::Digit(1), &mut state);
    assert_eq!(outcome.effect, Effect::CommitAndClear { text: "不如".to_string() });
    assert!(state.input.is_empty());
}

#[test]
fn enter_commits_selected_candidate_or_raw_input() {
    let mut state = state_with_input("buru");
    state.candidates = vec![candidate("不如", 4), candidate("不入", 4)];
    state.selected_index = 1;
    let outcome = StateMachine::apply(&InputEvent::Enter, &mut state);
    assert_eq!(outcome.effect, Effect::CommitAndClear { text: "不入".to_string() });

    let mut raw = state_with_input("buru");
    let outcome = StateMachine::apply(&InputEvent::Enter, &mut raw);
    assert_eq!(outcome.effect, Effect::CommitAndClear { text: "buru".to_string() });
}

#[test]
fn space_with_no_candidates_commits_raw_input() {
    let mut state = state_with_input("buru");
    let outcome = StateMachine::apply(&InputEvent::Space, &mut state);
    assert_eq!(outcome.effect, Effect::CommitAndClear { text: "buru".to_string() });
    assert!(state.input.is_empty());
    assert!(state.candidates.is_empty());
}

#[test]
fn escape_clears_composition() {
    let mut state = state_with_input("buru");
    state.candidates = vec![candidate("不如", 4)];
    let outcome = StateMachine::apply(&InputEvent::Escape, &mut state);
    assert_eq!(outcome.effect, Effect::Clear);
    assert!(state.input.is_empty());
    assert!(state.candidates.is_empty());
}

#[test]
fn digits_select_by_page_offset() {
    let mut state = state_with_input("shi");
    state.candidates = (0..15).map(|index| candidate(&format!("字{index}"), 3)).collect();
    state.page = 1;
    let outcome = StateMachine::apply(&InputEvent::Digit(2), &mut state);
    assert_eq!(outcome.effect, Effect::CommitAndClear { text: "字10".to_string() });
}

#[test]
fn out_of_range_digits_are_ignored() {
    let mut state = state_with_input("bu");
    state.candidates = vec![candidate("不", 2)];
    let outcome = StateMachine::apply(&InputEvent::Digit(9), &mut state);
    assert_eq!(outcome.effect, Effect::Nothing);
    assert!(!outcome.candidates_dirty);
    assert_eq!(state.input, "bu");
}

#[test]
fn paging_is_bounded_and_moves_selection() {
    let mut state = state_with_input("shi");
    state.candidates = (0..15).map(|index| candidate(&format!("字{index}"), 3)).collect();
    StateMachine::apply(&InputEvent::PageDown, &mut state);
    assert_eq!(state.page, 1);
    assert_eq!(state.selected_index, PAGE_SIZE);
    StateMachine::apply(&InputEvent::PageDown, &mut state);
    assert_eq!(state.page, 1, "last page is not overrun");
    StateMachine::apply(&InputEvent::PageUp, &mut state);
    assert_eq!(state.page, 0);
}

#[test]
fn selection_normalizes_after_candidates_shrink() {
    let mut state = state_with_input("shi");
    state.candidates = (0..15).map(|index| candidate(&format!("字{index}"), 3)).collect();
    state.page = 1;
    state.selected_index = 12;

    state.candidates.truncate(2);
    state.normalize_selection();

    assert_eq!(state.selected_index, 1);
    assert_eq!(state.page, 0);
}

#[test]
fn cursor_moves_do_not_bump_revision() {
    let mut state = state_with_input("buru");
    let revision = state.revision;
    StateMachine::apply(&InputEvent::Left, &mut state);
    StateMachine::apply(&InputEvent::Right, &mut state);
    assert_eq!(state.revision, revision);
}

#[test]
fn merging_fewer_candidates_clamps_page_and_selection() {
    let mut state = InputState {
        candidates: (0..15)
            .map(|index| Candidate {
                id: format!("d:{index}"),
                text: format!("字{index}"),
                preedit: "shi".to_string(),
                consumedkeys: 3,
                base_score_bits: 1.0f32.to_bits(),
                kind: "dictionary".to_string(),
            })
            .collect(),
        selected_index: 12,
        page: 1,
        ..InputState::default()
    };
    let model = (0..2)
        .map(|index| ModelCandidate {
            id: format!("d:{index}"),
            text: format!("字{index}"),
            preedit: "shi".to_string(),
            consumedkeys: 3,
            score_bits: (index as f32).to_bits(),
            kind: "llm_phrase".to_string(),
        })
        .collect::<Vec<_>>();

    merge_candidates(&mut state, &model);

    assert_eq!(state.candidates.len(), 2);
    assert_eq!(state.page, 0);
    assert_eq!(state.selected_index, 1);
}

#[test]
fn ambiguous_input_offers_both_segmentations() {
    let lexicon = Lexicon::from_entries(vec![entry("先", "xian", 100.0), entry("西安", "xi an", 50.0)]);
    let freq = UserFreq::default();
    let candidates = menu(&lexicon, &freq, "xian", DEFAULT_MAX_CANDIDATES);
    assert_eq!(texts(&candidates), vec!["先", "西安"]);
    assert_eq!(candidates[1].consumedkeys, 4);
}

#[test]
fn apostrophe_restricts_to_forced_segmentation() {
    let lexicon = Lexicon::from_entries(vec![entry("先", "xian", 100.0), entry("西安", "xi an", 50.0)]);
    let freq = UserFreq::default();
    let candidates = menu(&lexicon, &freq, "xi'an", DEFAULT_MAX_CANDIDATES);
    assert_eq!(texts(&candidates), vec!["西安"]);
}

#[test]
fn complete_paths_win_over_prefix_only() {
    let lexicon = Lexicon::from_entries(vec![entry("不", "bu", 900.0), entry("不如", "bu ru", 100.0)]);
    let freq = UserFreq::default();
    let candidates = menu(&lexicon, &freq, "buru", DEFAULT_MAX_CANDIDATES);
    assert_eq!(texts(&candidates), vec!["不如"]);
}

#[test]
fn incomplete_input_falls_back_to_longest_prefix() {
    let lexicon = Lexicon::from_entries(vec![entry("不", "bu", 900.0), entry("不如", "bu ru", 100.0)]);
    let freq = UserFreq::default();
    let candidates = menu(&lexicon, &freq, "bunr", DEFAULT_MAX_CANDIDATES);
    assert_eq!(texts(&candidates), vec!["不"]);
    assert_eq!(candidates[0].consumedkeys, 2);
}

#[test]
fn polyphonic_words_are_found_under_each_code() {
    let lexicon = Lexicon::from_entries(vec![entry("长", "chang", 100.0), entry("长", "zhang", 60.0)]);
    let freq = UserFreq::default();
    assert_eq!(texts(&menu(&lexicon, &freq, "chang", DEFAULT_MAX_CANDIDATES)), vec!["长"]);
    assert_eq!(texts(&menu(&lexicon, &freq, "zhang", DEFAULT_MAX_CANDIDATES)), vec!["长"]);
}

#[test]
fn long_words_span_many_syllables() {
    let lexicon = Lexicon::from_entries(vec![
        entry("阿部相模肩灯鱼", "a bu xiang mo jian deng yu", 200.0),
        entry("阿", "a", 1.0),
    ]);
    let freq = UserFreq::default();
    let candidates = menu(&lexicon, &freq, "abuxiangmojiandengyu", DEFAULT_MAX_CANDIDATES);
    assert_eq!(texts(&candidates), vec!["阿部相模肩灯鱼"]);
    assert_eq!(candidates[0].consumedkeys, 20);
}

#[test]
fn homophone_cap_limits_candidates_per_code() {
    let mut entries = Vec::new();
    for index in 0..64 {
        entries.push(entry(&format!("字{index}"), "shi", (64 - index) as f32));
    }
    let lexicon = Lexicon::from_entries(entries);
    let freq = UserFreq::default();
    let candidates = menu(&lexicon, &freq, "shi", DEFAULT_MAX_CANDIDATES);
    assert_eq!(candidates.len(), DEFAULT_MAX_CANDIDATES);
}

#[test]
fn ordering_is_stable_and_prior_driven() {
    let lexicon = Lexicon::from_entries(vec![
        entry("甲", "jia", 10.0),
        entry("假", "jia", 5.0),
        entry("加", "jia", 5.0),
    ]);
    let freq = UserFreq::default();
    let candidates = menu(&lexicon, &freq, "jia", DEFAULT_MAX_CANDIDATES);
    assert_eq!(texts(&candidates), vec!["甲", "假", "加"]);
}

#[test]
fn user_frequency_boost_reorders_candidates() {
    let lexicon = Lexicon::from_entries(vec![entry("不如", "bu ru", 100.0), entry("不入", "bu ru", 500.0)]);
    let mut freq = UserFreq::default();
    for _ in 0..20 {
        freq.record("不如");
    }
    let candidates = menu(&lexicon, &freq, "buru", DEFAULT_MAX_CANDIDATES);
    assert_eq!(texts(&candidates), vec!["不如", "不入"]);
    assert!(f32::from_bits(candidates[0].base_score_bits) > f32::from_bits(candidates[1].base_score_bits));
}

#[test]
fn single_syllable_words_chain_into_paths() {
    let lexicon = Lexicon::from_entries(vec![
        entry("不", "bu", 10.0),
        entry("如", "ru", 10.0),
        entry("不如", "bu ru", 100.0),
    ]);
    let freq = UserFreq::default();
    let candidates = menu(&lexicon, &freq, "buru", DEFAULT_MAX_CANDIDATES);
    assert_eq!(texts(&candidates), vec!["不如", "不"]);
    assert_eq!(candidates[1].consumedkeys, 2);
}

#[test]
fn record_increments_and_boosts() {
    let mut freq = UserFreq::default();
    assert_eq!(freq.count("不如"), 0);
    freq.record("不如");
    freq.record("不如");
    assert_eq!(freq.count("不如"), 2);
    assert_eq!(freq.count("不入"), 0);
}

#[test]
fn backspace_undoes_a_typed_letter() {
    let mut state = state_with_input("buru");
    state.cursor = 2;
    let before = state.input.clone();
    StateMachine::apply(&InputEvent::Letter('x'), &mut state);
    assert_eq!(state.input, "buxru");
    StateMachine::apply(&InputEvent::Backspace, &mut state);
    assert_eq!(state.input, before);
    assert_eq!(state.cursor, 2);
    assert_eq!(state.revision, 2);
}

#[test]
fn non_letters_are_ignored_by_the_composition() {
    let mut state = state_with_input("bu");
    let outcome = StateMachine::apply(&InputEvent::Letter('!'), &mut state);
    assert_eq!(outcome.effect, Effect::Nothing);
    assert!(!outcome.candidates_dirty);
    assert_eq!(state.input, "bu");
    assert_eq!(state.revision, 0);
}

#[test]
fn ranking_keeps_the_best_score_per_text_and_orders_ties_by_length_then_text() {
    let mut a = candidate("乙", 2);
    a.base_score_bits = 1.0f32.to_bits();
    let mut b = candidate("甲", 2);
    b.base_score_bits = 1.0f32.to_bits();
    let mut c = candidate("乙", 4);
    c.base_score_bits = 2.0f32.to_bits();
    let mut d = candidate("甲乙", 4);
    d.base_score_bits = 1.0f32.to_bits();
    let ranked = rank_candidates(vec![a, b, c, d], 0);
    assert_eq!(texts(&ranked), vec!["乙"]);
    assert_eq!(ranked[0].consumedkeys, 4);

    let mut a = candidate("乙", 2);
    a.base_score_bits = 1.0f32.to_bits();
    let mut b = candidate("甲", 2);
    b.base_score_bits = 1.0f32.to_bits();
    let mut d = candidate("甲乙", 4);
    d.base_score_bits = 1.0f32.to_bits();
    let ranked = rank_candidates(vec![d, a, b], 16);
    assert_eq!(texts(&ranked), vec!["乙", "甲", "甲乙"]);
}

#[test]
fn page_count_rounds_up_and_is_at_least_one() {
    let mut state = InputState::default();
    assert_eq!(state.page_count(), 1);
    state.candidates = (0..PAGE_SIZE).map(|i| candidate(&format!("{i}"), 1)).collect();
    assert_eq!(state.page_count(), 1);
    state.candidates.push(candidate("extra", 1));
    assert_eq!(state.page_count(), 2);
}
