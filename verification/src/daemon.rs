//! The decisions of the input method daemon: key requests read into events, effects written
//! back, the daemon's configuration, and what each session does with model answers. The
//! daemon's tasks perform the I/O and call these functions between their awaits.
use vstd::prelude::*;
use vstd::string::*;
use crate::dict_text::path_join;
use crate::lattice::Candidate;
use crate::protocol::{
    CommitRequest,
    clone_predictions, CandidatePath, CandidatesRequest, CandidatesResponse, ModelCandidate,
    PredictionCandidate, PredictionMode, PredictionRequest, PredictionResponse,
};
use crate::scan::{parse_u8, parse_unsigned, parse_u64, parse_usize};
use crate::state::{normalized_selection, Effect, InputEvent, InputState, PAGE_SIZE};
use crate::syllable::{preedit_cursor_of, preedit_of, spaced_preedit_with_cursor, SyllableTable};
use crate::text::ascii_lower;
use crate::user_freq::{plain_counts, plain_word, sat_inc32, UserFreq};

verus! {

/// A key event as posted by the frontend: an event name and an optional value.
#[derive(Debug, Clone)]
pub struct KeyRequest {
    pub event: String,
    pub value: Option<String>,
}

/// The frontend's instructions after a key: text to commit and whether to clear.
#[derive(Debug, Clone, PartialEq)]
pub struct Effects {
    pub commit: Option<String>,
    pub clear: Option<bool>,
}

/// Acknowledges text that the frontend committed.
#[derive(Debug, Clone)]
pub struct CommitAckRequest {
    pub text: String,
}

/// The model service's context revision after a commit.
#[derive(Debug, Clone)]
pub struct CommitAckResponse {
    pub ok: bool,
    pub revision: u64,
}

/// A plain success answer.
#[derive(Debug, Clone)]
pub struct OkResponse {
    pub ok: bool,
}

/// The answer to closing a session.
#[derive(Debug, Clone, PartialEq)]
pub struct DeleteSessionResponse {
    pub ok: bool,
    pub model_reset: bool,
    pub reset_retry_scheduled: bool,
}

/// The view of an optional string.
pub open spec fn opt_view(o: Option<String>) -> Option<Seq<char>> {
    match o {
        Some(s) => Some(s@),
        None => None,
    }
}

/// The event a key request names, or the message for a request that names none.
pub open spec fn key_event(event: Seq<char>, value: Option<Seq<char>>) -> Result<
    InputEvent,
    Seq<char>,
> {
    if event == "letter"@ {
        match value {
            Some(v) => if v.len() > 0 {
                Ok(InputEvent::Letter(ascii_lower(v[0])))
            } else {
                Err("letter event requires a value"@)
            },
            None => Err("letter event requires a value"@),
        }
    } else if event == "backspace"@ {
        Ok(InputEvent::Backspace)
    } else if event == "delete"@ {
        Ok(InputEvent::Delete)
    } else if event == "left"@ {
        Ok(InputEvent::Left)
    } else if event == "right"@ {
        Ok(InputEvent::Right)
    } else if event == "pageup"@ {
        Ok(InputEvent::PageUp)
    } else if event == "pagedown"@ {
        Ok(InputEvent::PageDown)
    } else if event == "space"@ {
        Ok(InputEvent::Space)
    } else if event == "enter"@ {
        Ok(InputEvent::Enter)
    } else if event == "escape"@ {
        Ok(InputEvent::Escape)
    } else if event == "digit"@ {
        match value {
            Some(v) => match parse_unsigned(v, 255) {
                Some(n) => Ok(InputEvent::Digit(n as u8)),
                None => Err("digit event requires a number"@),
            },
            None => Err("digit event requires a number"@),
        }
    } else if event == "select"@ {
        match value {
            Some(v) => match parse_unsigned(v, usize::MAX as nat) {
                Some(n) => Ok(InputEvent::SelectCandidate(n as usize)),
                None => Err("select event requires an index"@),
            },
            None => Err("select event requires an index"@),
        }
    } else {
        Err("unknown event"@)
    }
}

/// `s` spells `name`.
fn is_named(s: &String, name: &str) -> (b: bool)
    ensures
        b == (s@ == name@),
{
    let n = name.to_owned();
    *s == n
}

/// Reads the event of a key request: the ten plain key names, `letter` with the first
/// character of its value (ASCII-lower-cased), `digit` with a `u8` value and `select` with a
/// `usize` value.
pub fn parse_event(request: &KeyRequest) -> (r: Result<InputEvent, &'static str>)
    ensures
        match r {
            Ok(e) => key_event(request.event@, opt_view(request.value)) == Ok::<
                InputEvent,
                Seq<char>,
            >(e),
            Err(m) => key_event(request.event@, opt_view(request.value)) == Err::<
                InputEvent,
                Seq<char>,
            >(m@),
        },
{
    let event = &request.event;
    if is_named(event, "letter") {
        match &request.value {
            Some(v) => {
                let chars = crate::text::chars_of(v.as_str());
                if chars.len() > 0 {
                    Ok(InputEvent::Letter(crate::text::to_ascii_lower(chars[0])))
                } else {
                    Err("letter event requires a value")
                }
            },
            None => Err("letter event requires a value"),
        }
    } else if is_named(event, "backspace") {
        Ok(InputEvent::Backspace)
    } else if is_named(event, "delete") {
        Ok(InputEvent::Delete)
    } else if is_named(event, "left") {
        Ok(InputEvent::Left)
    } else if is_named(event, "right") {
        Ok(InputEvent::Right)
    } else if is_named(event, "pageup") {
        Ok(InputEvent::PageUp)
    } else if is_named(event, "pagedown") {
        Ok(InputEvent::PageDown)
    } else if is_named(event, "space") {
        Ok(InputEvent::Space)
    } else if is_named(event, "enter") {
        Ok(InputEvent::Enter)
    } else if is_named(event, "escape") {
        Ok(InputEvent::Escape)
    } else if is_named(event, "digit") {
        match &request.value {
            Some(v) => match parse_u8(v.as_str()) {
                Some(n) => Ok(InputEvent::Digit(n)),
                None => Err("digit event requires a number"),
            },
            None => Err("digit event requires a number"),
        }
    } else if is_named(event, "select") {
        match &request.value {
            Some(v) => match parse_usize(v.as_str()) {
                Some(n) => Ok(InputEvent::SelectCandidate(n)),
                None => Err("select event requires an index"),
            },
            None => Err("select event requires an index"),
        }
    } else {
        Err("unknown event")
    }
}

/// The frontend instructions for an effect: a commit carries its text, a clearing effect sets
/// `clear`, and nothing else is set.
pub fn effects_from(effect: &Effect) -> (r: Effects)
    ensures
        match effect {
            Effect::Nothing => opt_view(r.commit) is None && r.clear is None,
            Effect::Commit { text } => opt_view(r.commit) == Some(text@) && r.clear is None,
            Effect::CommitAndClear { text } => opt_view(r.commit) == Some(text@) && r.clear
                == Some(true),
            Effect::Clear => opt_view(r.commit) is None && r.clear == Some(true),
        },
{
    match effect {
        Effect::Nothing => Effects { commit: None, clear: None },
        Effect::Commit { text } => Effects { commit: Some(text.clone()), clear: None },
        Effect::CommitAndClear { text } => Effects { commit: Some(text.clone()), clear: Some(true) },
        Effect::Clear => Effects { commit: None, clear: Some(true) },
    }
}

/// The daemon's settings.
#[derive(Debug, Clone)]
pub struct Config {
    pub bind_addr: String,
    pub service_url: String,
    pub dictionary_root: String,
    pub user_freq_path: String,
    pub max_candidates: usize,
    pub model_timeout_ms: u64,
}

/// The environment values the daemon reads, each absent when unset.
#[derive(Debug, Clone)]
pub struct ConfigVars {
    pub home: Option<String>,
    pub dictionary_root: Option<String>,
    pub user_freq: Option<String>,
    pub bind_addr: Option<String>,
    pub service_url: Option<String>,
    pub max_candidates: Option<String>,
    pub model_timeout_ms: Option<String>,
}

/// A set value, or the default.
pub open spec fn or_default(v: Option<Seq<char>>, d: Seq<char>) -> Seq<char> {
    match v {
        Some(s) => s,
        None => d,
    }
}

/// A set value that reads as a number no larger than `max`, or the default.
pub open spec fn number_or(v: Option<Seq<char>>, max: nat, d: nat) -> nat {
    match v {
        Some(s) => match parse_unsigned(s, max) {
            Some(n) => n,
            None => d,
        },
        None => d,
    }
}

fn string_or(v: &Option<String>, d: &str) -> (r: String)
    ensures
        r@ == or_default(opt_view(*v), d@),
{
    match v {
        Some(s) => s.clone(),
        None => d.to_owned(),
    }
}

impl Config {
    /// The configuration for the given environment values: each setting is its variable when
    /// set (numbers when they parse), else its default; the frequency file defaults to
    /// `Library/Application Support/RimeLLM/user_freq.txt` under `HOME` (or `.`).
    pub fn from_vars(vars: &ConfigVars) -> (c: Config)
        ensures
            c.bind_addr@ == or_default(opt_view(vars.bind_addr), "127.0.0.1:32124"@),
            c.service_url@ == or_default(opt_view(vars.service_url), "http://127.0.0.1:32123"@),
            c.dictionary_root@ == or_default(opt_view(vars.dictionary_root), "data/rime-ice"@),
            c.user_freq_path@ == or_default(
                opt_view(vars.user_freq),
                path_join(
                    or_default(opt_view(vars.home), "."@),
                    "Library/Application Support/RimeLLM/user_freq.txt"@,
                ),
            ),
            c.max_candidates == number_or(opt_view(vars.max_candidates), usize::MAX as nat, 16),
            c.model_timeout_ms == number_or(
                opt_view(vars.model_timeout_ms),
                u64::MAX as nat,
                15000,
            ),
    {
        let home = string_or(&vars.home, ".");
        let user_freq_path = match &vars.user_freq {
            Some(p) => p.clone(),
            None => crate::dict_text::join_path(
                home.as_str(),
                "Library/Application Support/RimeLLM/user_freq.txt",
            ),
        };
        let max_candidates = match &vars.max_candidates {
            Some(v) => match parse_usize(v.as_str()) {
                Some(n) => n,
                None => 16,
            },
            None => 16,
        };
        let model_timeout_ms = match &vars.model_timeout_ms {
            Some(v) => match parse_u64(v.as_str()) {
                Some(n) => n,
                None => 15000,
            },
            None => 15000,
        };
        Config {
            bind_addr: string_or(&vars.bind_addr, "127.0.0.1:32124"),
            service_url: string_or(&vars.service_url, "http://127.0.0.1:32123"),
            dictionary_root: string_or(&vars.dictionary_root, "data/rime-ice"),
            user_freq_path,
            max_candidates,
            model_timeout_ms,
        }
    }
}

/// The last candidate of `c` with id `id`: the one a map keyed by id keeps.
pub open spec fn last_with_id(c: Seq<Candidate>, id: Seq<char>) -> Option<Candidate>
    decreases c.len(),
{
    if c.len() == 0 {
        None
    } else if c.last().id@ == id {
        Some(c.last())
    } else {
        last_with_id(c.drop_last(), id)
    }
}

/// The local candidates in the model's order: for each model candidate, the local candidate
/// with its id; ids the model invented are dropped.
pub open spec fn merged(c: Seq<Candidate>, model: Seq<ModelCandidate>) -> Seq<Candidate>
    decreases model.len(),
{
    if model.len() == 0 {
        seq![]
    } else {
        let m = merged(c, model.drop_last());
        match last_with_id(c, model.last().id@) {
            Some(x) => m.push(x),
            None => m,
        }
    }
}

/// The first position of a candidate with id `id`.
pub open spec fn first_with_id(c: Seq<Candidate>, id: Seq<char>) -> Option<int> {
    if exists|i: int| 0 <= i < c.len() && (#[trigger] c[i]).id@ == id {
        Some(choose|i: int|
            0 <= i < c.len() && (#[trigger] c[i]).id@ == id && forall|j: int|
                0 <= j < i ==> (#[trigger] c[j]).id@ != id)
    } else {
        None
    }
}

/// The selection after a merge: the selected candidate's new position when it survived, the
/// old index otherwise.
pub open spec fn merged_selection(old: Seq<Candidate>, selected: usize, m: Seq<Candidate>) -> usize {
    if selected < old.len() {
        match first_with_id(m, old[selected as int].id@) {
            Some(p) => p as usize,
            None => selected,
        }
    } else {
        selected
    }
}

proof fn lemma_first_id_exists(c: Seq<Candidate>, id: Seq<char>, j: int)
    requires
        0 <= j < c.len(),
        c[j].id@ == id,
    ensures
        exists|i: int|
            0 <= i < c.len() && (#[trigger] c[i]).id@ == id && forall|k: int|
                0 <= k < i ==> (#[trigger] c[k]).id@ != id,
    decreases j,
{
    if exists|k: int| 0 <= k < j && (#[trigger] c[k]).id@ == id {
        let k = choose|k: int| 0 <= k < j && (#[trigger] c[k]).id@ == id;
        lemma_first_id_exists(c, id, k);
    } else {
        assert(forall|k: int| 0 <= k < j ==> (#[trigger] c[k]).id@ != id);
    }
}

/// A rerank keeps the selection on the same candidate: when the selected candidate's id is
/// still in the merged menu, the new selection is a candidate with that id.
pub proof fn law_merge_keeps_selected(old: Seq<Candidate>, selected: usize, m: Seq<Candidate>)
    requires
        selected < old.len(),
        m.len() <= usize::MAX,
        exists|j: int| 0 <= j < m.len() && (#[trigger] m[j]).id@ == old[selected as int].id@,
    ensures
        ({
            let (s, page) = normalized_selection(m.len(), merged_selection(old, selected, m));
            &&& s < m.len()
            &&& m[s as int].id@ == old[selected as int].id@
            &&& page == s / PAGE_SIZE
        }),
{
    let id = old[selected as int].id@;
    let j = choose|j: int| 0 <= j < m.len() && (#[trigger] m[j]).id@ == id;
    lemma_first_id_exists(m, id, j);
    let p = first_with_id(m, id)->0;
    assert(0 <= p < m.len() && m[p].id@ == id);
    assert(merged_selection(old, selected, m) == p as usize);
}

fn find_last_id(c: &Vec<Candidate>, id: &String) -> (r: Option<Candidate>)
    ensures
        r == last_with_id(c@, id@),
{
    let mut k: usize = c.len();
    proof {
        assert(c@.take(c@.len() as int) =~= c@);
    }
    while k > 0
        invariant
            k <= c@.len(),
            last_with_id(c@, id@) == last_with_id(c@.take(k as int), id@),
        decreases k,
    {
        proof {
            assert(c@.take(k as int).drop_last() =~= c@.take(k - 1));
        }
        if c[k - 1].id == *id {
            return Some(c[k - 1].clone());
        }
        k = k - 1;
    }
    None
}

fn find_first_id(c: &Vec<Candidate>, id: &String) -> (r: Option<usize>)
    ensures
        match r {
            Some(p) => first_with_id(c@, id@) == Some(p as int),
            None => first_with_id(c@, id@) is None,
        },
{
    let mut i: usize = 0;
    while i < c.len()
        invariant
            i <= c@.len(),
            forall|j: int| 0 <= j < i ==> (#[trigger] c@[j]).id@ != id@,
        decreases c.len() - i,
    {
        if c[i].id == *id {
            proof {
                let p = choose|p: int|
                    0 <= p < c@.len() && (#[trigger] c@[p]).id@ == id@ && forall|j: int|
                        0 <= j < p ==> (#[trigger] c@[j]).id@ != id@;
                assert(0 <= i < c@.len() && c@[i as int].id@ == id@ && forall|j: int|
                    0 <= j < i ==> (#[trigger] c@[j]).id@ != id@);
                if p < i {
                    assert(c@[p].id@ != id@);
                } else if p > i {
                    assert(c@[i as int].id@ != id@);
                }
            }
            return Some(i);
        }
        i = i + 1;
    }
    None
}

/// Adopts the model's order for the local candidates, keeping their dictionary scores and the
/// selection by id. A model answer that names none of the local ids changes nothing.
pub fn merge_candidates(state: &mut InputState, model: &[ModelCandidate])
    ensures
        merged(old(state).candidates@, model@).len() == 0 ==> *final(state) == *old(state),
        merged(old(state).candidates@, model@).len() > 0 ==> {
            let m = merged(old(state).candidates@, model@);
            let sel = merged_selection(old(state).candidates@, old(state).selected_index, m);
            &&& final(state).candidates@ == m
            &&& (final(state).selected_index, final(state).page) == normalized_selection(
                m.len(),
                sel,
            )
            &&& final(state).input == old(state).input
            &&& final(state).cursor == old(state).cursor
            &&& final(state).predictions == old(state).predictions
            &&& final(state).model_pending == old(state).model_pending
            &&& final(state).revision == old(state).revision
        },
{
    let mut m: Vec<Candidate> = Vec::new();
    let mut i: usize = 0;
    while i < model.len()
        invariant
            i <= model@.len(),
            m@ == merged(state.candidates@, model@.take(i as int)),
        decreases model.len() - i,
    {
        proof {
            assert(model@.take(i + 1).drop_last() =~= model@.take(i as int));
        }
        match find_last_id(&state.candidates, &model[i].id) {
            Some(x) => m.push(x),
            None => {},
        }
        i = i + 1;
    }
    proof {
        assert(model@.take(model@.len() as int) =~= model@);
    }
    if m.len() == 0 {
        return;
    }
    let ghost old_cands = state.candidates@;
    let sel = if state.selected_index < state.candidates.len() {
        let id = state.candidates[state.selected_index].id.clone();
        match find_first_id(&m, &id) {
            Some(p) => p,
            None => state.selected_index,
        }
    } else {
        state.selected_index
    };
    state.candidates = m;
    state.selected_index = sel;
    state.normalize_selection();
}

/// Installs freshly computed dictionary candidates with the first one selected.
pub fn install_candidates(state: &mut InputState, candidates: Vec<Candidate>)
    ensures
        final(state).candidates@ == candidates@,
        final(state).selected_index == 0,
        final(state).page == 0,
        final(state).input == old(state).input,
        final(state).cursor == old(state).cursor,
        final(state).predictions == old(state).predictions,
        final(state).model_pending == old(state).model_pending,
        final(state).revision == old(state).revision,
{
    state.candidates = candidates;
    state.selected_index = 0;
    state.page = 0;
}

/// What a session does after its candidates were recomputed for a key.
#[derive(Debug, Clone, Copy, PartialEq, Eq)]
pub enum KeyFollowUp {
    /// Push the new state to subscribers (the composition was emptied).
    Broadcast,
    /// Ask the model to rerank the candidates of this revision.
    RequestRerank(u64),
    /// Nothing more: there is nothing to rerank.
    Nothing,
}

/// Settles a session whose candidates were just recomputed: an empty composition is no longer
/// waiting for the model and is broadcast; otherwise old predictions are dropped and a rerank
/// of the current revision is requested when there are candidates to rerank.
pub fn settle_refreshed(state: &mut InputState) -> (f: KeyFollowUp)
    ensures
        final(state).input == old(state).input,
        final(state).cursor == old(state).cursor,
        final(state).candidates == old(state).candidates,
        final(state).selected_index == old(state).selected_index,
        final(state).page == old(state).page,
        final(state).revision == old(state).revision,
        old(state).input@.len() == 0 ==> {
            &&& !final(state).model_pending
            &&& final(state).predictions == old(state).predictions
            &&& f == KeyFollowUp::Broadcast
        },
        old(state).input@.len() > 0 ==> {
            &&& final(state).predictions@.len() == 0
            &&& final(state).model_pending == (old(state).candidates@.len() > 0)
            &&& f == if old(state).candidates@.len() > 0 {
                KeyFollowUp::RequestRerank(old(state).revision)
            } else {
                KeyFollowUp::Nothing
            }
        },
{
    if state.input.as_str().unicode_len() == 0 {
        state.model_pending = false;
        KeyFollowUp::Broadcast
    } else {
        state.predictions = Vec::new();
        state.model_pending = state.candidates.len() > 0;
        if state.model_pending {
            KeyFollowUp::RequestRerank(state.revision)
        } else {
            KeyFollowUp::Nothing
        }
    }
}

/// Refreshes a session after a key that made its candidates stale: the fresh candidates are
/// installed with the first selected, and the session then waits for the model exactly when it
/// has input and candidates. An emptied composition is broadcast; otherwise old predictions
/// are dropped and, when waiting, a rerank of the current revision is requested.
pub fn key_refresh(state: &mut InputState, candidates: Vec<Candidate>) -> (f: KeyFollowUp)
    ensures
        final(state).candidates@ == candidates@,
        final(state).selected_index == 0,
        final(state).page == 0,
        final(state).input == old(state).input,
        final(state).cursor == old(state).cursor,
        final(state).revision == old(state).revision,
        final(state).model_pending == (old(state).input@.len() > 0 && candidates@.len() > 0),
        old(state).input@.len() == 0 ==> f == KeyFollowUp::Broadcast && final(state).predictions
            == old(state).predictions,
        old(state).input@.len() > 0 ==> final(state).predictions@.len() == 0 && f == if candidates@.len()
            > 0 {
            KeyFollowUp::RequestRerank(old(state).revision)
        } else {
            KeyFollowUp::Nothing
        },
{
    install_candidates(state, candidates);
    settle_refreshed(state)
}

/// The rerank paths of candidates: their ids, texts, preedits, consumed keys and base scores.
pub open spec fn paths_of(c: Seq<Candidate>) -> Seq<CandidatePath> {
    c.map_values(
        |x: Candidate|
            CandidatePath {
                id: x.id,
                text: x.text,
                preedit: x.preedit,
                consumedkeys: x.consumedkeys,
                base_score_bits: x.base_score_bits,
            },
    )
}

/// The rerank request for `revision`, when that revision is still current and has input and
/// candidates; `None` when the request would be stale or empty.
pub fn rerank_request(
    state: &InputState,
    revision: u64,
    session_id: &String,
    max_candidates: usize,
) -> (r: Option<CandidatesRequest>)
    ensures
        match r {
            Some(q) => {
                &&& revision != 0 && state.revision == revision
                &&& state.input@.len() > 0 && state.candidates@.len() > 0
                &&& q.session_id == *session_id
                &&& q.input == state.input
                &&& q.max_candidates == Some(max_candidates)
                &&& q.paths@ == paths_of(state.candidates@)
            },
            None => revision == 0 || state.revision != revision || state.input@.len() == 0
                || state.candidates@.len() == 0,
        },
{
    if revision == 0 || state.revision != revision {
        return None;
    }
    if state.input.as_str().unicode_len() == 0 || state.candidates.len() == 0 {
        return None;
    }
    let mut paths: Vec<CandidatePath> = Vec::new();
    let mut i: usize = 0;
    while i < state.candidates.len()
        invariant
            i <= state.candidates@.len(),
            paths@ == paths_of(state.candidates@.take(i as int)),
        decreases state.candidates.len() - i,
    {
        let c = &state.candidates[i];
        paths.push(
            CandidatePath {
                id: c.id.clone(),
                text: c.text.clone(),
                preedit: c.preedit.clone(),
                consumedkeys: c.consumedkeys,
                base_score_bits: c.base_score_bits,
            },
        );
        i = i + 1;
        proof {
            assert(paths@ =~= paths_of(state.candidates@.take(i as int)));
        }
    }
    proof {
        assert(state.candidates@.take(state.candidates@.len() as int) =~= state.candidates@);
    }
    Some(
        CandidatesRequest {
            session_id: session_id.clone(),
            input: state.input.clone(),
            max_candidates: Some(max_candidates),
            paths,
        },
    )
}

/// The response is a usable rerank: status `ready` with at least one candidate.
pub open spec fn rerank_ready(response: CandidatesResponse) -> bool {
    response.status@ == "ready"@ && response.candidates@.len() > 0
}

/// Applies the model's answer to a rerank of `revision` (`None` when the call failed). A
/// usable answer for the current revision is merged and ends the wait; any other answer for
/// the current revision only ends the wait. Answers for older revisions change nothing. The
/// result says whether the state must be broadcast.
pub fn apply_rerank(
    state: &mut InputState,
    revision: u64,
    response: Option<&CandidatesResponse>,
) -> (broadcast: bool)
    ensures
        old(state).revision != revision ==> *final(state) == *old(state) && !broadcast,
        old(state).revision == revision ==> {
            &&& !final(state).model_pending
            &&& final(state).input == old(state).input
            &&& final(state).cursor == old(state).cursor
            &&& final(state).predictions == old(state).predictions
            &&& final(state).revision == old(state).revision
        },
        old(state).revision == revision ==> match response {
            Some(resp) => if rerank_ready(*resp) {
                let m = merged(old(state).candidates@, resp.candidates@);
                &&& broadcast
                &&& m.len() > 0 ==> {
                    &&& final(state).candidates@ == m
                    &&& (final(state).selected_index, final(state).page) == normalized_selection(
                        m.len(),
                        merged_selection(old(state).candidates@, old(state).selected_index, m),
                    )
                }
                &&& m.len() == 0 ==> {
                    &&& final(state).candidates == old(state).candidates
                    &&& final(state).selected_index == old(state).selected_index
                    &&& final(state).page == old(state).page
                }
            } else {
                &&& broadcast == old(state).model_pending
                &&& final(state).candidates == old(state).candidates
                &&& final(state).selected_index == old(state).selected_index
                &&& final(state).page == old(state).page
            },
            None => {
                &&& broadcast == old(state).model_pending
                &&& final(state).candidates == old(state).candidates
                &&& final(state).selected_index == old(state).selected_index
                &&& final(state).page == old(state).page
            },
        },
{
    if state.revision != revision {
        return false;
    }
    let ready = match response {
        Some(resp) => is_named(&resp.status, "ready") && resp.candidates.len() > 0,
        None => false,
    };
    if ready {
        match response {
            Some(resp) => {
                merge_candidates(state, resp.candidates.as_slice());
            },
            None => {},
        }
        state.model_pending = false;
        true
    } else {
        if state.model_pending {
            state.model_pending = false;
            true
        } else {
            false
        }
    }
}

/// Starts acknowledging committed text: empty text needs nothing (the session's context
/// revision is the answer); otherwise the selection is counted and the commit to send to the
/// model service is returned.
pub fn commit_ack_request(user_freq: &mut UserFreq, session_id: &String, text: &String) -> (r: Option<
    CommitRequest,
>)
    requires
        old(user_freq).wf(),
    ensures
        final(user_freq).wf(),
        text@.len() == 0 ==> r is None && *final(user_freq) == *old(user_freq),
        text@.len() > 0 ==> (r matches Some(req) && req.session_id@ == session_id@ && req.text@
            == text@),
        text@.len() > 0 ==> forall|w: Seq<char>|
            #[trigger] final(user_freq).spec_count(w) == if w == text@ {
                sat_inc32(old(user_freq).spec_count(w))
            } else {
                old(user_freq).spec_count(w)
            },
        plain_counts(old(user_freq)@) && plain_word(text@) ==> plain_counts(final(user_freq)@),
{
    if text.as_str().unicode_len() == 0 {
        return None;
    }
    user_freq.record(text.as_str());
    Some(CommitRequest { session_id: session_id.clone(), text: text.clone() })
}

/// Marks a session as waiting for predictions after a commit, when its composition is
/// empty; the result says whether predictions should be requested.
pub fn begin_prediction_wait(state: &mut InputState) -> (start: bool)
    ensures
        start == (old(state).input@.len() == 0),
        start ==> final(state).model_pending,
        !start ==> final(state).model_pending == old(state).model_pending,
        final(state).input == old(state).input,
        final(state).cursor == old(state).cursor,
        final(state).candidates == old(state).candidates,
        final(state).selected_index == old(state).selected_index,
        final(state).page == old(state).page,
        final(state).predictions == old(state).predictions,
        final(state).revision == old(state).revision,
{
    if state.input.as_str().unicode_len() == 0 {
        state.model_pending = true;
        true
    } else {
        false
    }
}

/// The hybrid prediction request for a context revision: five candidates of at most eight
/// tokens.
pub fn prediction_request(session_id: &String, service_revision: u64) -> (r: PredictionRequest)
    ensures
        r.session_id == *session_id,
        r.revision == service_revision,
        r.mode == Some(PredictionMode::Hybrid),
        r.max_candidates == Some(5usize),
        r.max_tokens == Some(8usize),
{
    PredictionRequest {
        session_id: session_id.clone(),
        revision: service_revision,
        mode: Some(PredictionMode::Hybrid),
        max_candidates: Some(5),
        max_tokens: Some(8),
    }
}

/// Applies a prediction answer requested for `service_revision` while the service's context
/// is at `current_revision` (`None` when the call failed). A `ready` answer for the current
/// revision fills the predictions of an empty composition; any other answer for the current
/// revision only ends the wait. The result says whether the state must be broadcast.
pub fn apply_prediction(
    state: &mut InputState,
    current_revision: u64,
    service_revision: u64,
    response: Option<PredictionResponse>,
) -> (broadcast: bool)
    ensures
        current_revision != service_revision ==> *final(state) == *old(state) && !broadcast,
        current_revision == service_revision ==> {
            &&& final(state).input == old(state).input
            &&& final(state).cursor == old(state).cursor
            &&& final(state).candidates == old(state).candidates
            &&& final(state).selected_index == old(state).selected_index
            &&& final(state).page == old(state).page
            &&& final(state).revision == old(state).revision
        },
        current_revision == service_revision ==> match response {
            Some(resp) => if resp.status@ == "ready"@ {
                if old(state).input@.len() > 0 {
                    *final(state) == *old(state) && !broadcast
                } else {
                    &&& broadcast
                    &&& final(state).predictions@ == resp.candidates@
                    &&& !final(state).model_pending
                }
            } else {
                &&& broadcast == old(state).model_pending
                &&& !final(state).model_pending
                &&& final(state).predictions == old(state).predictions
            },
            None => {
                &&& broadcast == old(state).model_pending
                &&& !final(state).model_pending
                &&& final(state).predictions == old(state).predictions
            },
        },
{
    if current_revision != service_revision {
        return false;
    }
    let ready = match &response {
        Some(resp) => is_named(&resp.status, "ready"),
        None => false,
    };
    if ready {
        if state.input.as_str().unicode_len() > 0 {
            return false;
        }
        match response {
            Some(resp) => {
                state.predictions = resp.candidates;
            },
            None => {},
        }
        state.model_pending = false;
        true
    } else if state.model_pending {
        state.model_pending = false;
        true
    } else {
        false
    }
}

/// How the model service answered a reset.
#[derive(Debug, Clone)]
pub enum ResetOutcome {
    /// The service replied with this status.
    Replied(String),
    /// The call failed.
    Failed,
    /// No reply came in time.
    TimedOut,
}

/// The reset was confirmed: the service replied `ok`.
pub open spec fn reset_confirmed(outcome: ResetOutcome) -> bool {
    match outcome {
        ResetOutcome::Replied(status) => status@ == "ok"@,
        _ => false,
    }
}

/// Resets retried after a session closes without a confirmed reset.
pub const RESET_RETRIES: usize = 2;

/// How long to wait, in milliseconds, before reset retry `attempt` (counted from zero) when the
/// earlier ones were not confirmed: a quarter second, then a second; `None` once the retries
/// are exhausted.
pub fn reset_retry_delay(attempt: usize) -> (r: Option<u64>)
    ensures
        r == if attempt == 0 {
            Some(250u64)
        } else if attempt == 1 {
            Some(1000u64)
        } else {
            None::<u64>
        },
        r is Some <==> attempt < RESET_RETRIES,
{
    if attempt == 0 {
        Some(250)
    } else if attempt == 1 {
        Some(1000)
    } else {
        None
    }
}

/// Whether the model service confirmed a reset (a retry loop stops on it).
pub fn reset_succeeded(outcome: &ResetOutcome) -> (b: bool)
    ensures
        b == reset_confirmed(*outcome),
{
    match outcome {
        ResetOutcome::Replied(status) => is_named(status, "ok"),
        _ => false,
    }
}

/// The answer to closing a session, and whether a reset retry must be scheduled. A session
/// that did not exist needs no reset; a removed one is reported reset only when the service
/// confirmed it, and is retried otherwise.
pub fn delete_reply(removed: bool, outcome: &ResetOutcome) -> (r: (DeleteSessionResponse, bool))
    ensures
        r.0.ok,
        !removed ==> r.0.model_reset && !r.0.reset_retry_scheduled && !r.1,
        removed ==> r.0.model_reset == reset_confirmed(*outcome) && r.0.reset_retry_scheduled
            == !reset_confirmed(*outcome) && r.1 == !reset_confirmed(*outcome),
{
    if !removed {
        return (DeleteSessionResponse { ok: true, model_reset: true, reset_retry_scheduled: false }, false);
    }
    if reset_succeeded(outcome) {
        (DeleteSessionResponse { ok: true, model_reset: true, reset_retry_scheduled: false }, false)
    } else {
        (DeleteSessionResponse { ok: true, model_reset: false, reset_retry_scheduled: true }, true)
    }
}

/// The composition as shown: the raw input, its cursor, and the cursor in the spaced preedit.
#[derive(Debug, Clone, PartialEq)]
pub struct Composition {
    pub input: String,
    pub cursor: usize,
    pub preedit_cursor: usize,
}

/// A candidate as sent to the frontend.
#[derive(Debug, Clone, PartialEq)]
pub struct CandidateWire {
    pub id: String,
    pub text: String,
    pub preedit: String,
    pub consumedkeys: usize,
    /// Bit pattern of the `f32` base score.
    pub base_score_bits: u32,
    pub kind: String,
}

/// Everything the frontend shows for a session.
#[derive(Debug, Clone)]
pub struct StateSnapshot {
    pub composition: Composition,
    pub preedit: String,
    pub candidates: Vec<CandidateWire>,
    pub selected_index: usize,
    pub page: usize,
    pub page_size: usize,
    pub predictions: Vec<PredictionCandidate>,
    pub model_pending: bool,
    pub revision: u64,
    pub event_seq: u64,
}

/// The wire form of candidates.
pub open spec fn wires_of(c: Seq<Candidate>) -> Seq<CandidateWire> {
    c.map_values(
        |x: Candidate|
            CandidateWire {
                id: x.id,
                text: x.text,
                preedit: x.preedit,
                consumedkeys: x.consumedkeys,
                base_score_bits: x.base_score_bits,
                kind: x.kind,
            },
    )
}

/// The frontend's view of a session's state, with the spaced preedit over the syllables of
/// `table`, numbered `event_seq`.
pub fn snapshot_of(state: &InputState, table: &SyllableTable, event_seq: u64) -> (s: StateSnapshot)
    requires
        table.wf(),
        state.wf(),
        state.input@.len() <= isize::MAX,
    ensures
        s.composition.input == state.input,
        s.composition.cursor == state.cursor,
        s.composition.preedit_cursor == preedit_cursor_of(
            table@,
            state.input@,
            state.cursor as int,
        ),
        s.preedit@ == preedit_of(table@, state.input@),
        s.candidates@ == wires_of(state.candidates@),
        s.selected_index == state.selected_index,
        s.page == state.page,
        s.page_size == PAGE_SIZE,
        s.predictions@ == state.predictions@,
        s.model_pending == state.model_pending,
        s.revision == state.revision,
        s.event_seq == event_seq,
{
    let (preedit, preedit_cursor) = spaced_preedit_with_cursor(
        state.input.as_str(),
        state.cursor,
        table,
    );
    let mut wires: Vec<CandidateWire> = Vec::new();
    let mut i: usize = 0;
    while i < state.candidates.len()
        invariant
            i <= state.candidates@.len(),
            wires@ == wires_of(state.candidates@.take(i as int)),
        decreases state.candidates.len() - i,
    {
        let c = &state.candidates[i];
        wires.push(
            CandidateWire {
                id: c.id.clone(),
                text: c.text.clone(),
                preedit: c.preedit.clone(),
                consumedkeys: c.consumedkeys,
                base_score_bits: c.base_score_bits,
                kind: c.kind.clone(),
            },
        );
        i = i + 1;
        proof {
            assert(wires@ =~= wires_of(state.candidates@.take(i as int)));
        }
    }
    proof {
        assert(state.candidates@.take(state.candidates@.len() as int) =~= state.candidates@);
    }
    StateSnapshot {
        composition: Composition {
            input: state.input.clone(),
            cursor: state.cursor,
            preedit_cursor,
        },
        preedit,
        candidates: wires,
        selected_index: state.selected_index,
        page: state.page,
        page_size: PAGE_SIZE,
        predictions: clone_predictions(&state.predictions),
        model_pending: state.model_pending,
        revision: state.revision,
        event_seq,
    }
}

} // verus!
