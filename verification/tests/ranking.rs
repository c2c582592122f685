use rime_llm::lexicon::LexiconEntry;
use rime_llm::paths::{candidate_from_path, rank_paths, rank_scored_entries, ScoredPath};

fn entry(text: &str, prior: f32) -> LexiconEntry {
    LexiconEntry {
        text: text.to_string(),
        code: "buru".to_string(),
        preedit: "bu ru".to_string(),
        consumed_keys: 4,
        prior_bits: prior.to_bits(),
    }
}

/// The dictionary prior on the model's scale.
fn prior_score(prior: f32) -> f32 {
    (prior.max(0.0) + 1.0).ln() * 0.15
}

/// Entries scored by model score plus prior, as the service ranks them.
fn ranked_entries(entries: Vec<(f32, LexiconEntry)>, max: usize) -> Vec<(f32, LexiconEntry)> {
    let scored = entries
        .into_iter()
        .map(|(model, e)| {
            let prior = f32::from_bits(e.prior_bits);
            ((model + prior_score(prior)).to_bits(), e)
        })
        .collect();
    rank_scored_entries(scored, max)
        .into_iter()
        .map(|(bits, e)| (f32::from_bits(bits), e))
        .collect()
}

fn path(id: &str, text: &str, base: f32, model: f32) -> ScoredPath {
    ScoredPath {
        id: id.into(),
        text: text.into(),
        preedit: String::new(),
        consumed_keys: text.chars().count().max(1),
        base_score_bits: base.to_bits(),
        model_score_bits: model.to_bits(),
    }
}

/// Paths ranked by the blend of base and model score with `base_weight`.
fn ranked_paths(paths: Vec<ScoredPath>, max: usize, base_weight: f32) -> Vec<ScoredPath> {
    let model_weight = 1.0 - base_weight.clamp(0.0, 1.0);
    let scores = paths
        .iter()
        .map(|p| {
            let base = f32::from_bits(p.base_score_bits);
            let model = f32::from_bits(p.model_score_bits);
            (base * base_weight + model * model_weight).to_bits()
        })
        .collect();
    rank_paths(paths, scores, max)
}

#[test]
fn contextual_logits_can_overrule_dictionary_prior() {
    let ranked = ranked_entries(
        vec![(5.0, entry("不如", 20_830.0)), (0.1, entry("不入", 479_325.0))],
        2,
    );
    assert_eq!(ranked[0].1.text, "不如");
}

#[test]
fn equal_scores_keep_original_order_and_respect_limit() {
    let ranked = ranked_entries(
        vec![(1.0, entry("甲", 1.0)), (1.0, entry("乙", 1.0)), (1.0, entry("丙", 1.0))],
        2,
    );
    assert_eq!(ranked.iter().map(|(_, item)| item.text.as_str()).collect::<Vec<_>>(), ["甲", "乙"]);
}

#[test]
fn rank_paths_dedups_by_text_and_respects_limit() {
    let paths = vec![
        path("a", "苹果", 0.0, -0.1),
        path("b", "苹果", 0.5, -1.0),
        path("c", "香蕉", 0.2, -0.5),
        path("d", "橘子", 0.3, -0.2),
    ];
    let ranked = ranked_paths(paths, 2, 0.5);
    let texts: Vec<&str> = ranked.iter().map(|p| p.text.as_str()).collect();
    let ids: Vec<&str> = ranked.iter().map(|p| p.id.as_str()).collect();
    assert_eq!(texts, vec!["橘子", "苹果"]);
    assert_eq!(ids, vec!["d", "a"]);
}

#[test]
fn rank_paths_keeps_first_native_occurrence_when_deduping() {
    let paths = vec![path("weak", "苹果", 0.0, -0.1), path("strong", "苹果", 10.0, -0.1)];
    let ranked = ranked_paths(paths, 1, 0.0);
    assert_eq!(ranked.len(), 1);
    assert_eq!(ranked[0].id, "weak");
}

#[test]
fn rank_paths_keeps_native_order_on_equal_scores() {
    let paths = vec![path("a", "甲", 0.0, -0.1), path("b", "乙", 0.0, -0.1), path("c", "丙", 0.0, -0.1)];
    let ranked = ranked_paths(paths, 3, 0.5);
    assert_eq!(ranked.iter().map(|p| p.id.as_str()).collect::<Vec<_>>(), vec!["a", "b", "c"]);
}

#[test]
fn rank_paths_blends_base_and_model_with_weight() {
    let paths = vec![path("model", "甲", 0.0, 5.0), path("base", "乙", 5.0, 0.0)];
    let heavy_model = ranked_paths(paths.clone(), 2, 0.0);
    assert_eq!(heavy_model[0].id, "model");
    let heavy_base = ranked_paths(paths, 2, 1.0);
    assert_eq!(heavy_base[0].id, "base");
}

#[test]
fn candidate_preserves_partial_consumption() {
    let scored = ScoredPath {
        id: "n0".into(),
        text: "不".into(),
        preedit: "bu".into(),
        consumed_keys: 2,
        base_score_bits: 10.0f32.to_bits(),
        model_score_bits: 1.0f32.to_bits(),
    };
    let final_score: f32 = 10.0 * 0.3 + 1.0 * 0.7;
    let candidate = candidate_from_path(&scored, final_score.to_bits());
    assert_eq!(candidate.consumedkeys, 2);
    assert_eq!(candidate.preedit, "bu");
    assert_eq!(candidate.text, "不");
}

#[test]
fn shorter_text_wins_on_equal_score() {
    let paths = vec![path("long", "苹果树", 0.0, -0.1), path("short", "苹果", 0.0, -0.1)];
    let ranked = ranked_paths(paths, 0, 0.5);
    assert_eq!(ranked.len(), 1);
    assert_eq!(ranked[0].id, "short");
}

#[test]
fn negative_zero_ranks_below_positive_zero() {
    let ranked = rank_scored_entries(
        vec![((-0.0f32).to_bits(), entry("甲", 1.0)), (0.0f32.to_bits(), entry("乙", 1.0))],
        2,
    );
    assert_eq!(ranked[0].1.text, "乙");
    assert_eq!(ranked[1].1.text, "甲");
}
