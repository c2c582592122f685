//! The model service's prompts and the shaping of next-word predictions: which generated lines
//! become candidates, how candidates from generation and the dictionary are merged, and the
//! order they are shown in.
use vstd::prelude::*;
use vstd::string::*;
use vstd::utf8::encode_utf8;
use crate::dict_text::{all_cjk, is_all_chinese_text};
use crate::lattice::str_views;
use crate::order::{lemma_reorders_onto, sort_desc_stable, stable_desc, total_key, total_order_key};
use crate::protocol::{PredictionCandidate, PredictionMode};
use crate::scan::{lines, lines_of, rows, trim, trim_chars, trim_start_chars, trim_start_set, CharSet};
use crate::text::{chars_of, string_from_chars};

verus! {

/// The texts of a list of strings, concatenated.
pub open spec fn concat(c: Seq<Seq<char>>) -> Seq<char>
    decreases c.len(),
{
    if c.len() == 0 {
        seq![]
    } else {
        concat(c.drop_last()) + c.last()
    }
}

/// `a - b`, saturating at zero.
pub open spec fn sat_sub(a: usize, b: usize) -> usize {
    if a > b {
        (a - b) as usize
    } else {
        0
    }
}

/// `a + b`, saturating at `usize::MAX`.
pub open spec fn sat_add(a: usize, b: usize) -> usize {
    if a + b <= usize::MAX {
        (a + b) as usize
    } else {
        usize::MAX
    }
}

/// The larger of `a` and `b`.
pub open spec fn max_of(a: usize, b: usize) -> usize {
    if a >= b {
        a
    } else {
        b
    }
}

/// The last `n` characters of the concatenated context.
pub open spec fn context_tail(context: Seq<Seq<char>>, n: nat) -> Seq<char> {
    crate::context::last_chars(concat(context), n)
}

/// The concatenated context's last `budget` characters.
fn tail_of(context: &[String], budget: usize) -> (r: String)
    ensures
        r@ == context_tail(context@.map_values(|s: String| s@), budget as nat),
{
    let ghost cv = context@.map_values(|s: String| s@);
    let mut all = String::new();
    let mut i: usize = 0;
    while i < context.len()
        invariant
            i <= context@.len(),
            cv == context@.map_values(|s: String| s@),
            all@ == concat(cv.take(i as int)),
        decreases context.len() - i,
    {
        proof {
            assert(cv.take(i + 1).drop_last() =~= cv.take(i as int));
        }
        all.append(context[i].as_str());
        i = i + 1;
    }
    proof {
        assert(cv.take(cv.len() as int) =~= cv);
    }
    let v = chars_of(all.as_str());
    if v.len() > budget {
        let r = crate::text::string_from_range(&v, v.len() - budget, v.len());
        proof {
            assert(v@.subrange(v@.len() - budget, v@.len() as int) =~= v@.skip(v@.len() - budget));
        }
        r
    } else {
        all
    }
}

/// The characters of context kept in a rerank prompt for an input of `input_len` characters.
pub open spec fn rerank_budget(context_window: usize, input_len: usize) -> usize {
    max_of(sat_sub(context_window, sat_add(input_len, 64)), 16)
}

/// The rerank prompt: the instruction, the kept context when there is any, and the input.
pub open spec fn rerank_prompt(context: Seq<Seq<char>>, input: Seq<char>, context_window: usize) -> Seq<char> {
    let tail = context_tail(context, rerank_budget(context_window, input.len() as usize) as nat);
    if tail.len() == 0 {
        "请根据拼音输入判断候选中文短语的自然程度。只输出中文，不要解释、标点或拼音。拼音："@ + input
    } else {
        "请根据前文和拼音输入判断候选中文短语的自然程度。只输出中文，不要解释、标点或拼音。前文："@ + tail
            + "\n拼音："@ + input
    }
}

/// The prompt that asks the model how natural each candidate phrase is, with as much of the
/// committed context as the window leaves room for.
pub fn build_prompt(context: &[String], input: &str, context_window: usize) -> (r: String)
    ensures
        r@ == rerank_prompt(context@.map_values(|s: String| s@), input@, context_window),
{
    let n = input.unicode_len();
    let need = if n <= usize::MAX - 64 {
        n + 64
    } else {
        usize::MAX
    };
    let room = if context_window > need {
        context_window - need
    } else {
        0
    };
    let budget = if room >= 16 {
        room
    } else {
        16
    };
    let tail = tail_of(context, budget);
    if tail.as_str().unicode_len() == 0 {
        let mut p = "请根据拼音输入判断候选中文短语的自然程度。只输出中文，不要解释、标点或拼音。拼音：".to_owned();
        p.append(input);
        p
    } else {
        let mut p = "请根据前文和拼音输入判断候选中文短语的自然程度。只输出中文，不要解释、标点或拼音。前文：".to_owned();
        p.append(tail.as_str());
        p.append("\n拼音：");
        p.append(input);
        p
    }
}

/// The characters of context kept in a prediction prompt.
pub open spec fn prediction_budget(context_window: usize) -> usize {
    max_of(sat_sub(context_window, 96), 32)
}

/// The prediction prompt: the instruction, followed by the kept context when there is any.
pub open spec fn prediction_prompt(context: Seq<Seq<char>>, context_window: usize) -> Seq<char> {
    let tail = context_tail(context, prediction_budget(context_window) as nat);
    if tail.len() == 0 {
        "根据输入法上下文预测接下来最可能的中文词语。只输出中文候选，每行一个，不要解释、序号、标点、空格或拼音。"@
    } else {
        "根据前文预测接下来最可能的中文词语。只输出中文候选，每行一个，不要解释、序号、标点、空格或拼音。\n前文："@
            + tail
    }
}

/// The prompt that asks the model for the next words after the committed context.
pub fn build_prediction_prompt(context: &[String], context_window: usize) -> (r: String)
    ensures
        r@ == prediction_prompt(context@.map_values(|s: String| s@), context_window),
{
    let room = if context_window > 96 {
        context_window - 96
    } else {
        0
    };
    let budget = if room >= 32 {
        room
    } else {
        32
    };
    let tail = tail_of(context, budget);
    if tail.as_str().unicode_len() == 0 {
        "根据输入法上下文预测接下来最可能的中文词语。只输出中文候选，每行一个，不要解释、序号、标点、空格或拼音。".to_owned()
    } else {
        let mut p = "根据前文预测接下来最可能的中文词语。只输出中文候选，每行一个，不要解释、序号、标点、空格或拼音。\n前文：".to_owned();
        p.append(tail.as_str());
        p
    }
}

/// A generated line without its list numbering, list markers and surrounding whitespace.
pub open spec fn generated_line_text(line: Seq<char>) -> Seq<char> {
    trim(trim_start_set(trim_start_set(trim(line), CharSet::Digit), CharSet::ListMark))
}

/// Reading generated lines: the texts kept so far and whether the limit was reached.
pub open spec fn generated_state(ls: Seq<Seq<char>>, max: nat) -> (Seq<Seq<char>>, bool)
    decreases ls.len(),
{
    if ls.len() == 0 {
        (seq![], false)
    } else {
        let (out, stop) = generated_state(ls.drop_last(), max);
        let t = generated_line_text(ls.last());
        if stop || !all_cjk(t) || out.contains(t) {
            (out, stop)
        } else {
            (out.push(t), out.len() + 1 >= max)
        }
    }
}

/// The candidate texts of a generation: each line's text once, when it is made of
/// ideographs, until `max_candidates` were kept (the first is kept even for a limit of zero).
pub open spec fn generated_texts(output: Seq<char>, max: nat) -> Seq<Seq<char>> {
    generated_state(lines(output), max).0
}

/// The texts of generated predictions, in order; the caller numbers and scores them.
pub fn parse_generated_texts(output: &str, max_candidates: usize) -> (r: Vec<String>)
    ensures
        str_views(r@) == generated_texts(output@, max_candidates as nat),
{
    let ls = lines_of(output);
    let mut out: Vec<String> = Vec::new();
    let mut stop = false;
    let mut i: usize = 0;
    while i < ls.len()
        invariant
            i <= ls@.len(),
            rows(ls@) == lines(output@),
            (str_views(out@), stop) == generated_state(rows(ls@).take(i as int), max_candidates as nat),
        decreases ls.len() - i,
    {
        proof {
            assert(rows(ls@).take(i + 1).drop_last() =~= rows(ls@).take(i as int));
            assert(rows(ls@).take(i + 1).last() == ls@[i as int]@);
        }
        if !stop {
            let a = trim_chars(&ls[i], CharSet::Space);
            let b = trim_start_chars(&a, CharSet::Digit);
            let c = trim_start_chars(&b, CharSet::ListMark);
            let t = trim_chars(&c, CharSet::Space);
            if is_all_chinese_text(&t) {
                let text = string_from_chars(&t);
                if !contains_text(&out, &text) {
                    let ghost prev = str_views(out@);
                    out.push(text);
                    proof {
                        assert(str_views(out@) =~= prev.push(t@));
                    }
                    stop = out.len() >= max_candidates;
                }
            }
        }
        i = i + 1;
    }
    proof {
        assert(rows(ls@).take(ls@.len() as int) =~= rows(ls@));
    }
    out
}

/// Whether `text` is among `v`.
fn contains_text(v: &Vec<String>, text: &String) -> (b: bool)
    ensures
        b == str_views(v@).contains(text@),
{
    let mut i: usize = 0;
    while i < v.len()
        invariant
            i <= v@.len(),
            forall|j: int| 0 <= j < i ==> (#[trigger] v@[j])@ != text@,
        decreases v.len() - i,
    {
        if v[i] == *text {
            proof {
                assert(str_views(v@)[i as int] == text@);
            }
            return true;
        }
        i = i + 1;
    }
    proof {
        if str_views(v@).contains(text@) {
            let k = choose|k: int| 0 <= k < str_views(v@).len() && str_views(v@)[k] == text@;
            assert(v@[k]@ == text@);
        }
    }
    false
}

/// The texts of predictions.
pub open spec fn texts(c: Seq<PredictionCandidate>) -> Seq<Seq<char>> {
    c.map_values(|p: PredictionCandidate| p.text@)
}

/// Reading predictions: the first of each text kept, until the limit is reached.
pub open spec fn dedup_state(c: Seq<PredictionCandidate>, max: nat) -> (Seq<PredictionCandidate>, bool)
    decreases c.len(),
{
    if c.len() == 0 {
        (seq![], false)
    } else {
        let (out, stop) = dedup_state(c.drop_last(), max);
        if stop {
            (out, stop)
        } else {
            let o = if texts(out).contains(c.last().text@) {
                out
            } else {
                out.push(c.last())
            };
            (o, o.len() >= max)
        }
    }
}

/// Keeps the first prediction of each text, stopping once `max_candidates` are kept.
pub fn deduplicate_predictions(candidates: Vec<PredictionCandidate>, max_candidates: usize) -> (r: Vec<
    PredictionCandidate,
>)
    ensures
        r@ == dedup_state(candidates@, max_candidates as nat).0,
{
    let mut out: Vec<PredictionCandidate> = Vec::new();
    let mut out_texts: Vec<String> = Vec::new();
    let mut stop = false;
    let mut i: usize = 0;
    while i < candidates.len()
        invariant
            i <= candidates@.len(),
            str_views(out_texts@) == texts(out@),
            (out@, stop) == dedup_state(candidates@.take(i as int), max_candidates as nat),
        decreases candidates.len() - i,
    {
        proof {
            assert(candidates@.take(i + 1).drop_last() =~= candidates@.take(i as int));
        }
        if !stop {
            let x = &candidates[i];
            if !contains_text(&out_texts, &x.text) {
                let ghost pt = str_views(out_texts@);
                out_texts.push(x.text.clone());
                out.push(x.clone());
                proof {
                    assert(str_views(out_texts@) =~= pt.push(x.text@));
                    assert(texts(out@) =~= texts(out@.drop_last()).push(x.text@));
                }
            }
            stop = out.len() >= max_candidates;
        }
        i = i + 1;
    }
    proof {
        assert(candidates@.take(candidates@.len() as int) =~= candidates@);
    }
    out
}

/// The order key of a prediction: higher scores first, then shorter texts in UTF-8 bytes.
pub open spec fn prediction_key(p: PredictionCandidate) -> int {
    total_key(p.score_bits) * 0x1_0000_0000_0000_0000 - (encode_utf8(p.text@).len() as usize) as int
}

/// The order keys of predictions.
pub open spec fn prediction_keys(c: Seq<PredictionCandidate>) -> Seq<int> {
    c.map_values(|p: PredictionCandidate| prediction_key(p))
}

/// `out` is `c` deduplicated by text, sorted stably by [`prediction_key`], and cut to
/// `max_candidates`.
pub open spec fn reranked(out: Seq<PredictionCandidate>, c: Seq<PredictionCandidate>, max: usize) -> bool {
    let d = dedup_state(c, usize::MAX as nat).0;
    exists|sorted: Seq<PredictionCandidate>, idx: Seq<int>|
        {
            &&& stable_desc(sorted, prediction_keys(sorted), d, prediction_keys(d), idx)
            &&& out == if sorted.len() <= max {
                sorted
            } else {
                sorted.take(max as int)
            }
        }
}

/// One prediction per text, ordered by descending score and then by shorter text, with equal
/// keys keeping their order, and at most `max_candidates` of them.
pub fn rerank_predictions(candidates: Vec<PredictionCandidate>, max_candidates: usize) -> (r: Vec<
    PredictionCandidate,
>)
    ensures
        reranked(r@, candidates@, max_candidates),
{
    let d = deduplicate_predictions(candidates, usize::MAX);
    let ghost dv = d@;
    let mut keys: Vec<i128> = Vec::new();
    let mut j: usize = 0;
    while j < d.len()
        invariant
            j <= d@.len(),
            keys@.len() == j,
            forall|k: int| 0 <= k < j ==> #[trigger] keys@[k] as int == prediction_key(d@[k]),
        decreases d.len() - j,
    {
        let k = total_order_key(d[j].score_bits) as i128;
        let len = d[j].text.as_str().len();
        keys.push(k * 18446744073709551616i128 - len as i128);
        j = j + 1;
    }
    let (mut sorted, out_keys, Ghost(idx)) = sort_desc_stable(d, keys);
    proof {
        assert(keys@.map_values(|k: i128| k as int) =~= prediction_keys(dv));
        let ok = out_keys@.map_values(|k: i128| k as int);
        assert forall|k: int| 0 <= k < sorted@.len() implies ok[k] == #[trigger] prediction_keys(
            sorted@,
        )[k] by {
            assert(ok[k] == prediction_keys(dv)[idx[k]]);
        }
        assert(ok =~= prediction_keys(sorted@));
    }
    let ghost full = sorted@;
    if sorted.len() > max_candidates {
        sorted.truncate(max_candidates);
    }
    proof {
        assert(stable_desc(full, prediction_keys(full), dv, prediction_keys(dv), idx));
        if full.len() > max_candidates {
            assert(sorted@ =~= full.take(max_candidates as int));
        }
    }
    sorted
}

/// The predictions of a mode: generated ones, dictionary ones, or both (generated first),
/// reranked as [`reranked`] states.
pub open spec fn combined(
    generated: Seq<PredictionCandidate>,
    dictionary: Seq<PredictionCandidate>,
    mode: PredictionMode,
) -> Seq<PredictionCandidate> {
    match mode {
        PredictionMode::Free => generated,
        PredictionMode::Dictionary => dictionary,
        PredictionMode::Hybrid => generated + dictionary,
    }
}

proof fn lemma_dedup(c: Seq<PredictionCandidate>, max: nat)
    ensures
        ({
            let (r, stop) = dedup_state(c, max);
            &&& r.len() <= c.len()
            &&& forall|i: int| 0 <= i < r.len() ==> exists|k: int| 0 <= k < c.len() && #[trigger] r[i] == c[k]
            &&& forall|i: int, j: int| 0 <= i < j < r.len() ==> (#[trigger] r[i]).text@ != (#[trigger] r[j]).text@
            &&& stop ==> r.len() >= max
            &&& c.len() <= max ==> forall|k: int|
                #![trigger c[k]]
                0 <= k < c.len() ==> exists|i: int| 0 <= i < r.len() && (#[trigger] r[i]).text@ == c[k].text@
        }),
    decreases c.len(),
{
    if c.len() > 0 {
        let p = c.drop_last();
        lemma_dedup(p, max);
        let (out, stop) = dedup_state(p, max);
        let (r, st) = dedup_state(c, max);
        let x = c.last();
        if !stop {
            assert forall|i: int| 0 <= i < r.len() implies exists|k: int| 0 <= k < c.len() && #[trigger] r[i] == c[k] by {
                if i < out.len() {
                    assert(r[i] == out[i]);
                    let k = choose|k: int| 0 <= k < p.len() && #[trigger] out[i] == p[k];
                    assert(c[k] == p[k]);
                } else {
                    assert(r[i] == c[c.len() - 1]);
                }
            }
            if !texts(out).contains(x.text@) {
                assert forall|i: int, j: int| 0 <= i < j < r.len() implies (#[trigger] r[i]).text@ != (#[trigger] r[j]).text@ by {
                    if j == out.len() {
                        assert(r[i] == out[i]);
                        assert(texts(out)[i] == out[i].text@);
                    } else {
                        assert(r[i] == out[i] && r[j] == out[j]);
                    }
                }
            }
            if c.len() <= max {
                assert forall|k: int| #![trigger c[k]] 0 <= k < c.len() implies exists|i: int|
                    0 <= i < r.len() && (#[trigger] r[i]).text@ == c[k].text@ by {
                    if k < p.len() {
                        assert(c[k] == p[k]);
                        let i = choose|i: int| 0 <= i < out.len() && (#[trigger] out[i]).text@ == p[k].text@;
                        assert(r[i] == out[i]);
                    } else if texts(out).contains(x.text@) {
                        let i = choose|i: int| 0 <= i < texts(out).len() && texts(out)[i] == x.text@;
                        assert(r[i] == out[i]);
                    } else {
                        assert(r[out.len() as int] == x);
                    }
                }
            }
        } else {
            if c.len() <= max {
                assert(false);
            }
        }
    }
}

/// In hybrid mode the predictions come from both sources: every kept text is the text of a
/// generated or a dictionary prediction, no text is kept twice, and when there are no more
/// predictions than the limit, every generated and every dictionary text is kept.
pub proof fn law_hybrid_keeps_both_sources(
    generated: Seq<PredictionCandidate>,
    dictionary: Seq<PredictionCandidate>,
    max: usize,
    out: Seq<PredictionCandidate>,
)
    requires
        reranked(out, combined(generated, dictionary, PredictionMode::Hybrid), max),
    ensures
        forall|i: int|
            0 <= i < out.len() ==> (exists|j: int|
                0 <= j < generated.len() && #[trigger] generated[j].text@ == (#[trigger] out[i]).text@)
                || (exists|j: int|
                0 <= j < dictionary.len() && #[trigger] dictionary[j].text@ == out[i].text@),
        forall|i: int, j: int| 0 <= i < j < out.len() ==> (#[trigger] out[i]).text@ != (#[trigger] out[j]).text@,
        generated.len() + dictionary.len() <= max ==> forall|j: int|
            0 <= j < generated.len() ==> exists|i: int|
                0 <= i < out.len() && (#[trigger] out[i]).text@ == (#[trigger] generated[j]).text@,
        generated.len() + dictionary.len() <= max ==> forall|j: int|
            0 <= j < dictionary.len() ==> exists|i: int|
                0 <= i < out.len() && (#[trigger] out[i]).text@ == (#[trigger] dictionary[j]).text@,
{
    let c = generated + dictionary;
    assert(combined(generated, dictionary, PredictionMode::Hybrid) == c);
    let m = usize::MAX as nat;
    let d = dedup_state(c, m).0;
    lemma_dedup(c, m);
    let (sorted, idx) = choose|sorted: Seq<PredictionCandidate>, idx: Seq<int>|
        {
            &&& stable_desc(sorted, prediction_keys(sorted), d, prediction_keys(d), idx)
            &&& out == if sorted.len() <= max {
                sorted
            } else {
                sorted.take(max as int)
            }
        };
    lemma_reorders_onto(sorted, d, idx);
    assert forall|i: int| 0 <= i < out.len() implies (exists|j: int|
        0 <= j < generated.len() && #[trigger] generated[j].text@ == (#[trigger] out[i]).text@)
        || (exists|j: int| 0 <= j < dictionary.len() && #[trigger] dictionary[j].text@ == out[i].text@) by {
        assert(out[i] == sorted[i]);
        assert(sorted[i] == d[idx[i]]);
        let k = choose|k: int| 0 <= k < c.len() && #[trigger] d[idx[i]] == c[k];
        if k < generated.len() {
            assert(c[k] == generated[k]);
        } else {
            assert(c[k] == dictionary[k - generated.len()]);
        }
    }
    assert forall|i: int, j: int| 0 <= i < j < out.len() implies (#[trigger] out[i]).text@ != (
    #[trigger] out[j]).text@ by {
        assert(out[i] == sorted[i] && out[j] == sorted[j]);
        if idx[i] < idx[j] {
            assert(d[idx[i]].text@ != d[idx[j]].text@);
        } else {
            assert(d[idx[j]].text@ != d[idx[i]].text@);
        }
    }
    if generated.len() + dictionary.len() <= max {
        assert(out == sorted);
        assert forall|k: int| #![trigger c[k]] 0 <= k < c.len() implies exists|i: int|
            0 <= i < out.len() && (#[trigger] out[i]).text@ == c[k].text@ by {
            let jj = choose|jj: int| 0 <= jj < d.len() && (#[trigger] d[jj]).text@ == c[k].text@;
            assert(idx.contains(jj));
            let i = choose|i: int| 0 <= i < idx.len() && idx[i] == jj;
            assert(sorted[i] == d[idx[i]]);
        }
        assert forall|j: int| 0 <= j < generated.len() implies exists|i: int|
            0 <= i < out.len() && (#[trigger] out[i]).text@ == (#[trigger] generated[j]).text@ by {
            assert(c[j] == generated[j]);
        }
        assert forall|j: int| 0 <= j < dictionary.len() implies exists|i: int|
            0 <= i < out.len() && (#[trigger] out[i]).text@ == (#[trigger] dictionary[j]).text@ by {
            assert(c[generated.len() + j] == dictionary[j]);
        }
    }
}

/// Combines generated and dictionary predictions as the mode asks.
pub fn combine_predictions(
    generated: Vec<PredictionCandidate>,
    dictionary: Vec<PredictionCandidate>,
    mode: PredictionMode,
    max_candidates: usize,
) -> (r: Vec<PredictionCandidate>)
    ensures
        reranked(r@, combined(generated@, dictionary@, mode), max_candidates),
{
    match mode {
        PredictionMode::Free => rerank_predictions(generated, max_candidates),
        PredictionMode::Dictionary => rerank_predictions(dictionary, max_candidates),
        PredictionMode::Hybrid => {
            let mut all = generated;
            let mut rest = dictionary;
            all.append(&mut rest);
            rerank_predictions(all, max_candidates)
        },
    }
}

/// The bounds a prediction runs with: at most 16 candidates and 32 tokens, at least one of
/// each.
pub fn prediction_bounds(max_candidates: usize, max_tokens: usize) -> (r: (usize, usize))
    ensures
        r.0 == crate::service::clamp(max_candidates, 1, 16),
        r.1 == crate::service::clamp(max_tokens, 1, 32),
{
    (crate::service::request_limit(Some(max_candidates), 16), crate::service::request_limit(
        Some(max_tokens),
        32,
    ))
}

/// Whether a mode asks the model to generate, and whether it draws on the dictionary.
pub fn mode_sources(mode: PredictionMode) -> (r: (bool, bool))
    ensures
        r.0 == (mode != PredictionMode::Dictionary),
        r.1 == (mode != PredictionMode::Free),
{
    match mode {
        PredictionMode::Free => (true, false),
        PredictionMode::Dictionary => (false, true),
        PredictionMode::Hybrid => (true, true),
    }
}

/// The source label of a mode's predictions.
pub fn mode_source(mode: PredictionMode) -> (r: &'static str)
    ensures
        r@ == match mode {
            PredictionMode::Free => "generation"@,
            PredictionMode::Dictionary => "dictionary"@,
            PredictionMode::Hybrid => "hybrid"@,
        },
{
    match mode {
        PredictionMode::Free => "generation",
        PredictionMode::Dictionary => "dictionary",
        PredictionMode::Hybrid => "hybrid",
    }
}

/// The predictions of one run and where they came from.
#[derive(Debug, Clone)]
pub struct PredictionResult {
    pub candidates: Vec<PredictionCandidate>,
    pub source: String,
}

} // verus!
