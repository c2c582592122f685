//! Ranking of scored candidate paths and dictionary entries once the model has scored them.
//! Scores are `f32` bit patterns computed by the caller; ranking orders them by the IEEE-754
//! total order.
use vstd::prelude::*;
use vstd::string::*;
use crate::lattice::str_views;
use crate::lexicon::LexiconEntry;
use crate::order::{sort_desc_stable, stable_desc, total_key, total_order_key};
use crate::protocol::ModelCandidate;

verus! {

/// A candidate path with its dictionary and model scores.
#[derive(Debug)]
pub struct ScoredPath {
    pub id: String,
    pub text: String,
    pub preedit: String,
    pub consumed_keys: usize,
    /// Bit pattern of the `f32` dictionary base score.
    pub base_score_bits: u32,
    /// Bit pattern of the `f32` model log-probability.
    pub model_score_bits: u32,
}

impl Clone for ScoredPath {
    fn clone(&self) -> (r: Self)
        ensures
            r == *self,
    {
        ScoredPath {
            id: self.id.clone(),
            text: self.text.clone(),
            preedit: self.preedit.clone(),
            consumed_keys: self.consumed_keys,
            base_score_bits: self.base_score_bits,
            model_score_bits: self.model_score_bits,
        }
    }
}

/// The model's candidate for a scored path, with its final score.
pub fn candidate_from_path(scored: &ScoredPath, final_score_bits: u32) -> (c: ModelCandidate)
    ensures
        c.id == scored.id,
        c.text == scored.text,
        c.preedit == scored.preedit,
        c.consumedkeys == scored.consumed_keys,
        c.score_bits == final_score_bits,
        c.kind@ == "llm_phrase"@,
{
    ModelCandidate {
        id: scored.id.clone(),
        text: scored.text.clone(),
        preedit: scored.preedit.clone(),
        consumedkeys: scored.consumed_keys,
        score_bits: final_score_bits,
        kind: "llm_phrase".to_owned(),
    }
}

/// The first path of each text with its score, in order.
pub open spec fn first_per_text(p: Seq<(ScoredPath, u32)>) -> Seq<(ScoredPath, u32)>
    decreases p.len(),
{
    if p.len() == 0 {
        seq![]
    } else {
        let d = first_per_text(p.drop_last());
        if d.map_values(|x: (ScoredPath, u32)| x.0.text@).contains(p.last().0.text@) {
            d
        } else {
            d.push(p.last())
        }
    }
}

/// The order key of a scored path: higher final score first, then fewer characters.
pub open spec fn path_key(x: (ScoredPath, u32)) -> int {
    total_key(x.1) * 0x1_0000_0000_0000_0000 - (x.0.text@.len() as usize) as int
}

/// The order keys of scored paths.
pub open spec fn path_keys(p: Seq<(ScoredPath, u32)>) -> Seq<int> {
    p.map_values(|x: (ScoredPath, u32)| path_key(x))
}

/// `out` is the first path of each text, sorted stably by [`path_key`], cut to
/// `max(max_candidates, 1)`.
pub open spec fn paths_ranked(out: Seq<ScoredPath>, p: Seq<(ScoredPath, u32)>, max: usize) -> bool {
    let d = first_per_text(p);
    let limit = if max == 0 {
        1
    } else {
        max as int
    };
    exists|sorted: Seq<(ScoredPath, u32)>, idx: Seq<int>|
        {
            &&& stable_desc(sorted, path_keys(sorted), d, path_keys(d), idx)
            &&& out == (if sorted.len() <= limit {
                sorted
            } else {
                sorted.take(limit)
            }).map_values(|x: (ScoredPath, u32)| x.0)
        }
}

/// Keeps the first path of each text, orders by descending final score (`scores`, one per
/// path) and then by fewer characters, equal keys keeping their order, and keeps at most
/// `max(max_candidates, 1)`.
pub fn rank_paths(paths: Vec<ScoredPath>, scores: Vec<u32>, max_candidates: usize) -> (r: Vec<
    ScoredPath,
>)
    requires
        paths@.len() == scores@.len(),
    ensures
        paths_ranked(r@, paths@.zip_with(scores@), max_candidates),
{
    let ghost pairs = paths@.zip_with(scores@);
    let mut deduped: Vec<(ScoredPath, u32)> = Vec::new();
    let mut seen: Vec<String> = Vec::new();
    let mut i: usize = 0;
    while i < paths.len()
        invariant
            i <= paths@.len(),
            paths@.len() == scores@.len(),
            pairs == paths@.zip_with(scores@),
            deduped@ == first_per_text(pairs.take(i as int)),
            str_views(seen@) == deduped@.map_values(|x: (ScoredPath, u32)| x.0.text@),
        decreases paths.len() - i,
    {
        proof {
            assert(pairs.take(i + 1).drop_last() =~= pairs.take(i as int));
            assert(pairs.take(i + 1).last() == (paths@[i as int], scores@[i as int]));
        }
        let mut found = false;
        let mut j: usize = 0;
        while j < seen.len()
            invariant
                j <= seen@.len(),
                !found ==> forall|k: int| 0 <= k < j ==> (#[trigger] seen@[k])@ != paths@[i as int].text@,
                found ==> str_views(seen@).contains(paths@[i as int].text@),
                i < paths@.len(),
            decreases seen.len() - j,
        {
            if !found && seen[j] == paths[i].text {
                found = true;
                proof {
                    assert(str_views(seen@)[j as int] == paths@[i as int].text@);
                }
            }
            j = j + 1;
        }
        proof {
            if !found && str_views(seen@).contains(paths@[i as int].text@) {
                let k = choose|k: int| 0 <= k < str_views(seen@).len() && str_views(seen@)[k] == paths@[i as int].text@;
                assert(seen@[k]@ == paths@[i as int].text@);
            }
        }
        if !found {
            let ghost d = deduped@;
            let ghost sv = str_views(seen@);
            deduped.push((paths[i].clone(), scores[i]));
            seen.push(paths[i].text.clone());
            proof {
                assert(deduped@.map_values(|x: (ScoredPath, u32)| x.0.text@) =~= d.map_values(
                    |x: (ScoredPath, u32)| x.0.text@,
                ).push(paths@[i as int].text@));
                assert(str_views(seen@) =~= sv.push(paths@[i as int].text@));
            }
        }
        i = i + 1;
    }
    proof {
        assert(pairs.take(paths@.len() as int) =~= pairs);
    }
    let ghost dv = deduped@;
    let mut keys: Vec<i128> = Vec::new();
    let mut k: usize = 0;
    while k < deduped.len()
        invariant
            k <= deduped@.len(),
            keys@.len() == k,
            forall|q: int| 0 <= q < k ==> #[trigger] keys@[q] as int == path_key(deduped@[q]),
        decreases deduped.len() - k,
    {
        let key = total_order_key(deduped[k].1) as i128;
        let n = deduped[k].0.text.as_str().unicode_len();
        keys.push(key * 18446744073709551616i128 - n as i128);
        k = k + 1;
    }
    let (sorted, out_keys, Ghost(idx)) = sort_desc_stable(deduped, keys);
    proof {
        assert(keys@.map_values(|q: i128| q as int) =~= path_keys(dv));
        let ok = out_keys@.map_values(|q: i128| q as int);
        assert forall|q: int| 0 <= q < sorted@.len() implies ok[q] == #[trigger] path_keys(sorted@)[q] by {
            assert(ok[q] == path_keys(dv)[idx[q]]);
        }
        assert(ok =~= path_keys(sorted@));
    }
    let limit = if max_candidates == 0 {
        1
    } else {
        max_candidates
    };
    let ghost full = sorted@;
    let mut out: Vec<ScoredPath> = Vec::new();
    let mut sorted = sorted;
    let mut taken: usize = 0;
    let ghost kept = if full.len() <= limit {
        full
    } else {
        full.take(limit as int)
    };
    while taken < sorted.len() && taken < limit
        invariant
            sorted@ == full,
            taken <= full.len(),
            taken <= limit,
            out@ == full.take(taken as int).map_values(|x: (ScoredPath, u32)| x.0),
        decreases limit - taken,
    {
        out.push(sorted[taken].0.clone());
        taken = taken + 1;
        proof {
            assert(out@ =~= full.take(taken as int).map_values(|x: (ScoredPath, u32)| x.0));
        }
    }
    proof {
        assert(kept =~= full.take(taken as int));
        assert(stable_desc(full, path_keys(full), dv, path_keys(dv), idx));
    }
    out
}

/// The order keys of scored entries: their scores in the total order.
pub open spec fn entry_keys(e: Seq<(u32, LexiconEntry)>) -> Seq<int> {
    e.map_values(|x: (u32, LexiconEntry)| total_key(x.0))
}

/// Orders dictionary entries by descending combined score (bit patterns), equal scores
/// keeping dictionary order, and keeps at most `max_candidates`.
pub fn rank_scored_entries(entries: Vec<(u32, LexiconEntry)>, max_candidates: usize) -> (r: Vec<
    (u32, LexiconEntry),
>)
    ensures
        exists|sorted: Seq<(u32, LexiconEntry)>, idx: Seq<int>|
            {
                &&& stable_desc(sorted, entry_keys(sorted), entries@, entry_keys(entries@), idx)
                &&& r@ == if sorted.len() <= max_candidates {
                    sorted
                } else {
                    sorted.take(max_candidates as int)
                }
            },
{
    let ghost inp = entries@;
    let mut keys: Vec<i128> = Vec::new();
    let mut k: usize = 0;
    while k < entries.len()
        invariant
            k <= entries@.len(),
            keys@.len() == k,
            forall|q: int| 0 <= q < k ==> #[trigger] keys@[q] as int == total_key(entries@[q].0),
        decreases entries.len() - k,
    {
        keys.push(total_order_key(entries[k].0) as i128);
        k = k + 1;
    }
    let (mut sorted, out_keys, Ghost(idx)) = sort_desc_stable(entries, keys);
    proof {
        assert(keys@.map_values(|q: i128| q as int) =~= entry_keys(inp));
        let ok = out_keys@.map_values(|q: i128| q as int);
        assert forall|q: int| 0 <= q < sorted@.len() implies ok[q] == #[trigger] entry_keys(sorted@)[q] by {
            assert(ok[q] == entry_keys(inp)[idx[q]]);
        }
        assert(ok =~= entry_keys(sorted@));
    }
    let ghost full = sorted@;
    if sorted.len() > max_candidates {
        sorted.truncate(max_candidates);
    }
    proof {
        assert(stable_desc(full, entry_keys(full), inp, entry_keys(inp), idx));
        if full.len() > max_candidates {
            assert(sorted@ =~= full.take(max_candidates as int));
        }
    }
    sorted
}

} // verus!
