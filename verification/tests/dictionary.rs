use rime_llm::dict_text::{
    first_existing, import_candidates, is_chinese_text, is_pinyin_code, is_syllable_code,
    join_path, normalize_code, normalize_syllables, parse_compact_line, parse_dict_line,
    parse_imports, push_unique,
};
use rime_llm::code_lexicon::Lexicon as CodeLexicon;
use rime_llm::lexicon::{Lexicon, LexiconEntry};
use rime_llm::user_freq::UserFreq;

fn weight(token: &Option<String>) -> f32 {
    token.as_deref().and_then(|value| value.parse::<f32>().ok()).unwrap_or(1.0)
}

const DICT_YAML: &str = r#"
import_tables:
  - cn_dicts/8105     # enabled
  # - cn_dicts/41448   # disabled
  - 'cn_dicts/base'

other:
  - should_not_be_loaded
"#;

#[test]
fn lib_parses_only_enabled_import_tables() {
    assert_eq!(parse_imports(DICT_YAML), vec!["cn_dicts/8105", "cn_dicts/base"]);
}

#[test]
fn dictionary_files_parses_only_enabled_import_tables() {
    assert_eq!(parse_imports(DICT_YAML), vec!["cn_dicts/8105", "cn_dicts/base"]);
}

#[test]
fn normalizes_apostrophes_and_whitespace_into_syllable_keys() {
    assert_eq!(normalize_syllables("xi'an"), "xi an");
    assert_eq!(normalize_syllables("xi an"), "xi an");
    assert_eq!(normalize_syllables("Xi  AN"), "xi an");
}

#[test]
fn lib_parses_weighted_chinese_entry() {
    let entry = parse_dict_line("不如\tbu ru\t479325").unwrap();
    assert_eq!(entry.code, "bu ru");
    assert_eq!(entry.preedit, "bu ru");
    assert_eq!(entry.consumed_keys, 4);
    assert_eq!(weight(&entry.weight), 479325.0);
}

#[test]
fn lib_ignores_headers_and_non_chinese_entries() {
    assert!(parse_dict_line("name: rime_ice").is_none());
    assert!(parse_dict_line("hello\thello\t10").is_none());
    assert!(parse_dict_line("检委会\t100").is_none());
}

#[test]
fn syllable_keys_keep_segmentation_distinct() {
    let xian = parse_dict_line("西安\txi an\t100").unwrap();
    let xian_one = parse_dict_line("先\txian\t100").unwrap();
    assert_eq!(xian.code, "xi an");
    assert_eq!(xian_one.code, "xian");
    let to_entry = |line: rime_llm::dict_text::DictLine| LexiconEntry {
        prior_bits: weight(&line.weight).to_bits(),
        text: line.text,
        code: line.code,
        preedit: line.preedit,
        consumed_keys: line.consumed_keys,
    };
    let lexicon = Lexicon::from_entries(vec![to_entry(xian), to_entry(xian_one)]);
    assert_eq!(lexicon.entries_for(&["xi", "an"]).len(), 1);
    assert_eq!(lexicon.entries_for(&["xian"])[0].text, "先");
}

#[test]
fn lexicon_parses_weighted_chinese_entry() {
    let entry = parse_compact_line("不如\tbu ru\t479325").unwrap();
    assert_eq!(entry.code, "buru");
    assert_eq!(entry.preedit, "bu ru");
    assert_eq!(entry.consumed_keys, 4);
    assert_eq!(weight(&entry.weight), 479325.0);
}

#[test]
fn lexicon_ignores_headers_and_non_chinese_entries() {
    assert!(parse_compact_line("name: rime_ice").is_none());
    assert!(parse_compact_line("hello\thello\t10").is_none());
    assert!(parse_compact_line("检委会\t100").is_none());
}

#[test]
fn entry_lines_default_their_weight_and_skip_comments() {
    let entry = parse_dict_line("  不如\tBu-Ru  \r").unwrap();
    assert_eq!(entry.code, "bu ru");
    assert_eq!(entry.preedit, "bu-ru");
    assert_eq!(entry.weight, None);
    assert_eq!(weight(&entry.weight), 1.0);
    assert!(parse_dict_line("# 不如\tbu ru").is_none());
    assert!(parse_dict_line("---").is_none());
    assert!(parse_dict_line("不如\tbu1ru").is_none());
}

#[test]
fn chinese_text_and_codes_are_recognized() {
    assert!(is_chinese_text("a不"));
    assert!(!is_chinese_text("abc"));
    assert!(is_syllable_code("bu ru"));
    assert!(!is_syllable_code("bu  ru"));
    assert!(!is_syllable_code("Bu"));
    assert!(is_pinyin_code("buru"));
    assert!(!is_pinyin_code("bu ru"));
    assert_eq!(normalize_code(" Bu\tRu "), "buru");
}

#[test]
fn imports_resolve_against_the_root() {
    assert_eq!(join_path("data", "cn_dicts/base"), "data/cn_dicts/base");
    assert_eq!(join_path("data/", "x"), "data/x");
    assert_eq!(join_path("", "x"), "x");
    assert_eq!(join_path("data", "/abs/x"), "/abs/x");
    let candidates = import_candidates("root", "cn_dicts/base");
    assert_eq!(
        candidates,
        vec!["root/cn_dicts/base", "root/cn_dicts/base.dict.yaml", "root/cn_dicts/base.yaml"]
    );
    assert_eq!(first_existing(&candidates, &vec![false, true, true]), Some("root/cn_dicts/base.dict.yaml".to_string()));
    assert_eq!(first_existing(&candidates, &vec![false, false, false]), None);
    let mut files = vec!["a".to_string()];
    push_unique(&mut files, "b".to_string());
    push_unique(&mut files, "a".to_string());
    assert_eq!(files, vec!["a", "b"]);
}

#[test]
fn load_skips_invalid_lines() {
    let freq = UserFreq::from_text("苹果\t2\n坏行\n香蕉\tabc\n");
    assert_eq!(freq.count("苹果"), 2);
    assert_eq!(freq.count("香蕉"), 0);
}

#[test]
fn persistence_round_trip_is_atomic() {
    let mut freq = UserFreq::default();
    freq.record("不如");
    freq.record("不如");
    freq.record("西安");
    let text = freq.to_text();
    assert_eq!(text, "不如\t2\n西安\t1\n");
    let loaded = UserFreq::from_text(&text);
    assert_eq!(loaded.count("不如"), 2);
    assert_eq!(loaded.count("西安"), 1);
}

#[test]
fn frequency_lines_take_the_last_count_and_at_least_one() {
    let freq = UserFreq::from_text("a\t 3 \r\na\t0\nb\t4294967296\n\tnine\n");
    assert_eq!(freq.count("a"), 1);
    assert_eq!(freq.count("b"), 0);
}

fn code_entry(text: &str, code: &str, consumed_keys: usize, prior: f32) -> LexiconEntry {
    LexiconEntry {
        text: text.to_string(),
        code: code.to_string(),
        preedit: code.to_string(),
        consumed_keys,
        prior_bits: prior.to_bits(),
    }
}

#[test]
fn code_lexicon_gathers_every_prefix_by_prior() {
    let lexicon = CodeLexicon::from_entries(vec![
        code_entry("不入", "buru", 4, 20_830.0),
        code_entry("不", "bu", 2, 100.0),
        code_entry("不如", "buru", 4, 479_325.0),
        code_entry("布", "bu", 2, 50.0),
    ]);
    let texts = |max: usize| -> Vec<String> {
        lexicon.candidates_for("bu ru", max).into_iter().map(|e| e.text).collect()
    };
    assert_eq!(texts(16), ["不如", "不入", "不", "布"]);
    assert_eq!(texts(2), ["不如", "不入"]);
    assert!(lexicon.candidates_for("  ", 16).is_empty());
    assert_eq!(lexicon.pinyin_of("不如").as_deref(), Some("buru"));
    assert_eq!(lexicon.pinyin_of("苹果"), None);
    assert_eq!(lexicon.word_count(), 4);
}

#[test]
fn code_lexicon_merges_adjacent_duplicates_into_the_longest_code() {
    let lexicon = CodeLexicon::from_entries(vec![
        code_entry("不如", "bu", 2, 7.0),
        code_entry("不如", "buru", 4, 7.0),
    ]);
    let found = lexicon.candidates_for("buru", 16);
    assert_eq!(found.len(), 1);
    assert_eq!(found[0].text, "不如");
    assert_eq!(found[0].code, "buru");
    assert_eq!(found[0].consumed_keys, 4);
    assert_eq!(lexicon.pinyin_of("不如").as_deref(), Some("bu"));
}

#[test]
fn loaded_counts_keep_counting_and_reload() {
    let mut freq = UserFreq::from_text("苹果\t1\n");
    freq.record("香蕉");
    freq.record("苹果");
    let loaded = UserFreq::from_text(&freq.to_text());
    assert_eq!(loaded.count("苹果"), 2);
    assert_eq!(loaded.count("香蕉"), 1);
}
