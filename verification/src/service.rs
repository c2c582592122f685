//! The decisions of the model service's HTTP handlers: how requests are normalized and
//! bounded, which answer each outcome gets, and the service counters.
use vstd::prelude::*;
use vstd::string::*;
use crate::context::SessionStore;
use crate::predict::PredictionResult;
use crate::protocol::{
    CandidatesRequest, CandidatesResponse, CommitRequest, ModelCandidate, PredictionCandidate,
    PredictionMode, PredictionRequest, PredictionResponse, ResetRequest, ResetResponse,
};
use crate::scan::{trim, CharSet};
use crate::state::wrap_inc;
use crate::text::{ascii_lower, chars_of, push_char, string_from_chars};

verus! {

/// An ASCII letter of either case.
pub open spec fn ascii_alpha(c: char) -> bool {
    ('a' <= c && c <= 'z') || ('A' <= c && c <= 'Z')
}

/// The ASCII letters of `s`, lower-cased, in order.
pub open spec fn pinyin_letters(s: Seq<char>) -> Seq<char>
    decreases s.len(),
{
    if s.len() == 0 {
        seq![]
    } else {
        pinyin_letters(s.drop_last()) + if ascii_alpha(s.last()) {
            seq![ascii_lower(s.last())]
        } else {
            seq![]
        }
    }
}

/// Keeps the ASCII letters of a request's input, lower-cased.
pub fn normalize_input(input: &str) -> (r: String)
    ensures
        r@ == pinyin_letters(input@),
{
    let v = chars_of(input);
    let mut r = String::new();
    let mut i: usize = 0;
    while i < v.len()
        invariant
            i <= v@.len(),
            v@ == input@,
            r@ == pinyin_letters(v@.take(i as int)),
        decreases v.len() - i,
    {
        proof {
            assert(v@.take(i + 1).drop_last() =~= v@.take(i as int));
        }
        let c = v[i];
        if ('a' <= c && c <= 'z') || ('A' <= c && c <= 'Z') {
            push_char(&mut r, crate::text::to_ascii_lower(c));
        } else {
            proof {
                assert(r@ =~= r@ + Seq::<char>::empty());
            }
        }
        i = i + 1;
    }
    proof {
        assert(v@.take(v@.len() as int) =~= v@);
    }
    r
}

/// `v` clamped to `lo..=hi`.
pub open spec fn clamp(v: usize, lo: usize, hi: usize) -> usize {
    if v < lo {
        lo
    } else if v > hi {
        hi
    } else {
        v
    }
}

/// The limit a request asks for, defaulting to the configured one and bounded by it.
pub fn request_limit(requested: Option<usize>, configured: usize) -> (r: usize)
    requires
        configured >= 1,
    ensures
        r == clamp(
            match requested {
                Some(v) => v,
                None => configured,
            },
            1,
            configured,
        ),
{
    let v = match requested {
        Some(v) => v,
        None => configured,
    };
    if v < 1 {
        1
    } else if v > configured {
        configured
    } else {
        v
    }
}

/// The service counters.
#[derive(Debug, Clone, Default)]
pub struct Stats {
    pub candidate_requests: u64,
    pub commits: u64,
    pub resets: u64,
    pub model_requests: u64,
    pub model_successes: u64,
    pub fallbacks: u64,
    pub timeouts: u64,
    pub prediction_requests: u64,
    pub prediction_successes: u64,
    pub prediction_stale: u64,
}

/// The counters as reported by `/stats`.
#[derive(Debug, Clone, PartialEq)]
pub struct StatsResponse {
    pub candidate_requests: u64,
    pub commits: u64,
    pub resets: u64,
    pub model_requests: u64,
    pub model_successes: u64,
    pub fallbacks: u64,
    pub timeouts: u64,
    pub prediction_requests: u64,
    pub prediction_successes: u64,
    pub prediction_stale: u64,
}

fn bump(v: u64) -> (r: u64)
    ensures
        r == wrap_inc(v),
{
    if v < u64::MAX {
        v + 1
    } else {
        0
    }
}

impl Stats {
    /// All counters at zero.
    pub fn new() -> (s: Self)
        ensures
            s == (Stats {
                candidate_requests: 0,
                commits: 0,
                resets: 0,
                model_requests: 0,
                model_successes: 0,
                fallbacks: 0,
                timeouts: 0,
                prediction_requests: 0,
                prediction_successes: 0,
                prediction_stale: 0,
            }),
    {
        Stats {
            candidate_requests: 0,
            commits: 0,
            resets: 0,
            model_requests: 0,
            model_successes: 0,
            fallbacks: 0,
            timeouts: 0,
            prediction_requests: 0,
            prediction_successes: 0,
            prediction_stale: 0,
        }
    }

    /// Counts a candidates request (wrapping, as an atomic add does).
    pub fn record_candidate_request(&mut self)
        ensures
            *final(self) == (Stats { candidate_requests: wrap_inc(old(self).candidate_requests), ..*old(self) }),
    {
        self.candidate_requests = bump(self.candidate_requests);
    }

    /// Counts a commit.
    pub fn record_commit(&mut self)
        ensures
            *final(self) == (Stats { commits: wrap_inc(old(self).commits), ..*old(self) }),
    {
        self.commits = bump(self.commits);
    }

    /// Counts a reset.
    pub fn record_reset(&mut self)
        ensures
            *final(self) == (Stats { resets: wrap_inc(old(self).resets), ..*old(self) }),
    {
        self.resets = bump(self.resets);
    }

    /// Counts a prediction request.
    pub fn record_prediction_request(&mut self)
        ensures
            *final(self) == (Stats { prediction_requests: wrap_inc(old(self).prediction_requests), ..*old(self) }),
    {
        self.prediction_requests = bump(self.prediction_requests);
    }

    /// Counts a prediction that was answered.
    pub fn record_prediction_success(&mut self)
        ensures
            *final(self) == (Stats { prediction_successes: wrap_inc(old(self).prediction_successes), ..*old(self) }),
    {
        self.prediction_successes = bump(self.prediction_successes);
    }

    /// Counts a prediction answered as stale.
    pub fn record_prediction_stale(&mut self)
        ensures
            *final(self) == (Stats { prediction_stale: wrap_inc(old(self).prediction_stale), ..*old(self) }),
    {
        self.prediction_stale = bump(self.prediction_stale);
    }

    /// Counts a call into the model.
    pub fn record_model_request(&mut self)
        ensures
            *final(self) == (Stats { model_requests: wrap_inc(old(self).model_requests), ..*old(self) }),
    {
        self.model_requests = bump(self.model_requests);
    }

    /// Counts a call into the model that produced an answer.
    pub fn record_model_success(&mut self)
        ensures
            *final(self) == (Stats { model_successes: wrap_inc(old(self).model_successes), ..*old(self) }),
    {
        self.model_successes = bump(self.model_successes);
    }

    /// Counts a fallback answer.
    pub fn record_fallback(&mut self)
        ensures
            *final(self) == (Stats { fallbacks: wrap_inc(old(self).fallbacks), ..*old(self) }),
    {
        self.fallbacks = bump(self.fallbacks);
    }

    /// Counts a timeout.
    pub fn record_timeout(&mut self)
        ensures
            *final(self) == (Stats { timeouts: wrap_inc(old(self).timeouts), ..*old(self) }),
    {
        self.timeouts = bump(self.timeouts);
    }

    /// The current counters.
    pub fn snapshot(&self) -> (r: StatsResponse)
        ensures
            r == (StatsResponse {
                candidate_requests: self.candidate_requests,
                commits: self.commits,
                resets: self.resets,
                model_requests: self.model_requests,
                model_successes: self.model_successes,
                fallbacks: self.fallbacks,
                timeouts: self.timeouts,
                prediction_requests: self.prediction_requests,
                prediction_successes: self.prediction_successes,
                prediction_stale: self.prediction_stale,
            }),
    {
        StatsResponse {
            candidate_requests: self.candidate_requests,
            commits: self.commits,
            resets: self.resets,
            model_requests: self.model_requests,
            model_successes: self.model_successes,
            fallbacks: self.fallbacks,
            timeouts: self.timeouts,
            prediction_requests: self.prediction_requests,
            prediction_successes: self.prediction_successes,
            prediction_stale: self.prediction_stale,
        }
    }
}

/// A candidates answer without candidates, saying where the fallback came from.
pub fn fallback_response(elapsed_ms: u64, source: &str) -> (r: CandidatesResponse)
    ensures
        r.status@ == "fallback"@,
        r.candidates@.len() == 0,
        r.source@ == source@,
        r.elapsed_ms == elapsed_ms,
{
    CandidatesResponse {
        status: "fallback".to_owned(),
        candidates: Vec::new(),
        source: source.to_owned(),
        elapsed_ms,
    }
}

/// A prediction answer without candidates, saying where the fallback came from.
pub fn prediction_fallback_response(elapsed_ms: u64, revision: u64, source: &str) -> (r: PredictionResponse)
    ensures
        r.status@ == "fallback"@,
        r.revision == revision,
        r.candidates@.len() == 0,
        r.source@ == source@,
        r.elapsed_ms == elapsed_ms,
{
    PredictionResponse {
        status: "fallback".to_owned(),
        revision,
        candidates: Vec::new(),
        source: source.to_owned(),
        elapsed_ms,
    }
}

/// The answer to a prediction requested for an older revision than `revision`.
pub fn prediction_stale_response(elapsed_ms: u64, revision: u64) -> (r: PredictionResponse)
    ensures
        r.status@ == "stale"@,
        r.revision == revision,
        r.candidates@.len() == 0,
        r.source@ == "stale"@,
        r.elapsed_ms == elapsed_ms,
{
    PredictionResponse {
        status: "stale".to_owned(),
        revision,
        candidates: Vec::new(),
        source: "stale".to_owned(),
        elapsed_ms,
    }
}

/// What a candidates request asks the model, once checked.
#[derive(Debug, Clone)]
pub struct CandidatesPlan {
    /// The session id without surrounding whitespace.
    pub session_id: String,
    /// The input's ASCII letters, lower-cased.
    pub input: String,
    /// How many candidates to return.
    pub limit: usize,
}

/// Checks a candidates request and counts it: a request whose session id is blank or whose
/// input has no letters is answered `invalid_request` (and counted as a fallback); otherwise
/// the trimmed id, the letters and the bounded limit are handed to the model.
pub fn begin_candidates(
    stats: &mut Stats,
    request: &CandidatesRequest,
    max_candidates: usize,
    elapsed_ms: u64,
) -> (r: Result<CandidatesPlan, CandidatesResponse>)
    requires
        max_candidates >= 1,
    ensures
        match r {
            Ok(plan) => {
                &&& plan.session_id@ == trim(request.session_id@)
                &&& plan.session_id@.len() > 0
                &&& plan.input@ == pinyin_letters(request.input@)
                &&& plan.input@.len() > 0
                &&& plan.limit == clamp(
                    match request.max_candidates {
                        Some(v) => v,
                        None => max_candidates,
                    },
                    1,
                    max_candidates,
                )
                &&& *final(stats) == (Stats { candidate_requests: wrap_inc(old(stats).candidate_requests), ..*old(stats) })
            },
            Err(resp) => {
                &&& trim(request.session_id@).len() == 0 || pinyin_letters(request.input@).len() == 0
                &&& resp.status@ == "fallback"@
                &&& resp.source@ == "invalid_request"@
                &&& resp.candidates@.len() == 0
                &&& resp.elapsed_ms == elapsed_ms
                &&& *final(stats) == (Stats {
                    candidate_requests: wrap_inc(old(stats).candidate_requests),
                    fallbacks: wrap_inc(old(stats).fallbacks),
                    ..*old(stats)
                })
            },
        },
{
    stats.record_candidate_request();
    let input = normalize_input(request.input.as_str());
    let limit = request_limit(request.max_candidates, max_candidates);
    let sid_chars = chars_of(request.session_id.as_str());
    let sid = crate::scan::trim_chars(&sid_chars, CharSet::Space);
    if sid.len() == 0 || input.as_str().unicode_len() == 0 {
        stats.record_fallback();
        return Err(fallback_response(elapsed_ms, "invalid_request"));
    }
    Ok(CandidatesPlan { session_id: string_from_chars(&sid), input, limit })
}

/// How a call into the model ended.
#[derive(Debug, Clone)]
pub enum ModelOutcome<T> {
    /// It returned this value.
    Done(T),
    /// It failed.
    Failed,
    /// It did not finish in time.
    TimedOut,
}

/// The answer to a candidates request from the model's outcome: the model's candidates when
/// there are any (`ready`, from `model`), otherwise a fallback saying `no_match`,
/// `model_error` or `timeout`; the counters record which.
pub fn finish_candidates(
    stats: &mut Stats,
    outcome: ModelOutcome<Vec<ModelCandidate>>,
    elapsed_ms: u64,
) -> (r: CandidatesResponse)
    ensures
        r.elapsed_ms == elapsed_ms,
        match outcome {
            ModelOutcome::Done(c) => if c@.len() > 0 {
                &&& r.status@ == "ready"@ && r.source@ == "model"@ && r.candidates@ == c@
                &&& *final(stats) == (Stats { model_successes: wrap_inc(old(stats).model_successes), ..*old(stats) })
            } else {
                &&& r.status@ == "fallback"@ && r.source@ == "no_match"@ && r.candidates@.len() == 0
                &&& *final(stats) == (Stats { fallbacks: wrap_inc(old(stats).fallbacks), ..*old(stats) })
            },
            ModelOutcome::Failed => {
                &&& r.status@ == "fallback"@ && r.source@ == "model_error"@ && r.candidates@.len() == 0
                &&& *final(stats) == (Stats { fallbacks: wrap_inc(old(stats).fallbacks), ..*old(stats) })
            },
            ModelOutcome::TimedOut => {
                &&& r.status@ == "fallback"@ && r.source@ == "timeout"@ && r.candidates@.len() == 0
                &&& *final(stats) == (Stats {
                    timeouts: wrap_inc(old(stats).timeouts),
                    fallbacks: wrap_inc(old(stats).fallbacks),
                    ..*old(stats)
                })
            },
        },
{
    match outcome {
        ModelOutcome::Done(c) => {
            if c.len() > 0 {
                stats.record_model_success();
                CandidatesResponse {
                    status: "ready".to_owned(),
                    candidates: c,
                    source: "model".to_owned(),
                    elapsed_ms,
                }
            } else {
                stats.record_fallback();
                fallback_response(elapsed_ms, "no_match")
            }
        },
        ModelOutcome::Failed => {
            stats.record_fallback();
            fallback_response(elapsed_ms, "model_error")
        },
        ModelOutcome::TimedOut => {
            stats.record_timeout();
            stats.record_fallback();
            fallback_response(elapsed_ms, "timeout")
        },
    }
}

/// Checks a prediction request against the session's revision and counts it: a blank
/// session id is answered `invalid_request`, a request for another revision than the
/// session's is answered stale with the session's revision; otherwise the request to queue
/// keeps the id, revision and mode and carries bounded limits.
pub fn begin_prediction(
    stats: &mut Stats,
    store: &SessionStore,
    request: &PredictionRequest,
    max_candidates: usize,
    max_tokens: usize,
    elapsed_ms: u64,
) -> (r: Result<PredictionRequest, PredictionResponse>)
    requires
        store.wf(),
        max_candidates >= 1,
        max_tokens >= 1,
    ensures
        ({
            let sid = trim(request.session_id@);
            let counted = Stats { prediction_requests: wrap_inc(old(stats).prediction_requests), ..*old(stats) };
            if sid.len() == 0 {
                &&& r matches Err(resp)
                &&& resp.status@ == "fallback"@ && resp.source@ == "invalid_request"@
                &&& resp.revision == request.revision && resp.candidates@.len() == 0
                &&& resp.elapsed_ms == elapsed_ms
                &&& *final(stats) == (Stats { fallbacks: wrap_inc(counted.fallbacks), ..counted })
            } else if store.revision_of(sid) != request.revision {
                &&& r matches Err(resp)
                &&& resp.status@ == "stale"@ && resp.source@ == "stale"@
                &&& resp.revision == store.revision_of(sid) && resp.candidates@.len() == 0
                &&& resp.elapsed_ms == elapsed_ms
                &&& *final(stats) == (Stats { prediction_stale: wrap_inc(counted.prediction_stale), ..counted })
            } else {
                &&& r matches Ok(q)
                &&& q.session_id == request.session_id
                &&& q.revision == request.revision
                &&& q.mode == request.mode
                &&& q.max_candidates == Some(clamp(
                    match request.max_candidates {
                        Some(v) => v,
                        None => max_candidates,
                    },
                    1,
                    max_candidates,
                ))
                &&& q.max_tokens == Some(clamp(
                    match request.max_tokens {
                        Some(v) => v,
                        None => max_tokens,
                    },
                    1,
                    max_tokens,
                ))
                &&& *final(stats) == counted
            }
        }),
{
    stats.record_prediction_request();
    let sid_chars = chars_of(request.session_id.as_str());
    let sid_trim = crate::scan::trim_chars(&sid_chars, CharSet::Space);
    let mc = request_limit(request.max_candidates, max_candidates);
    let mt = request_limit(request.max_tokens, max_tokens);
    if sid_trim.len() == 0 {
        stats.record_fallback();
        return Err(prediction_fallback_response(elapsed_ms, request.revision, "invalid_request"));
    }
    let sid = string_from_chars(&sid_trim);
    let revision = store.revision(sid.as_str());
    if revision != request.revision {
        stats.record_prediction_stale();
        return Err(prediction_stale_response(elapsed_ms, revision));
    }
    Ok(
        PredictionRequest {
            session_id: request.session_id.clone(),
            revision: request.revision,
            mode: request.mode,
            max_candidates: Some(mc),
            max_tokens: Some(mt),
        },
    )
}

/// The answer when the queued prediction did not come back in time.
pub fn prediction_timeout(stats: &mut Stats, revision: u64, elapsed_ms: u64) -> (r: PredictionResponse)
    ensures
        r.status@ == "fallback"@ && r.source@ == "timeout"@,
        r.revision == revision && r.candidates@.len() == 0 && r.elapsed_ms == elapsed_ms,
        *final(stats) == (Stats {
            timeouts: wrap_inc(old(stats).timeouts),
            fallbacks: wrap_inc(old(stats).fallbacks),
            ..*old(stats)
        }),
{
    stats.record_timeout();
    stats.record_fallback();
    prediction_fallback_response(elapsed_ms, revision, "timeout")
}

/// Records committed text for a non-blank session id and non-empty text and counts it; the
/// answer is the session's revision either way.
pub fn commit_reply(stats: &mut Stats, store: &mut SessionStore, request: &CommitRequest) -> (r: u64)
    requires
        old(store).wf(),
    ensures
        final(store).wf(),
        ({
            let sid = trim(request.session_id@);
            if sid.len() > 0 && request.text@.len() > 0 {
                &&& final(store).context_of(sid) == crate::context::trimmed(
                    old(store).context_of(sid).push(request.text@),
                    old(store).max_chars_spec(),
                )
                &&& r == wrap_inc(old(store).revision_of(sid))
                &&& final(store).revision_of(sid) == r
                &&& *final(stats) == (Stats { commits: wrap_inc(old(stats).commits), ..*old(stats) })
            } else {
                &&& *final(store) == *old(store)
                &&& r == old(store).revision_of(sid)
                &&& *final(stats) == *old(stats)
            }
        }),
        forall|other: Seq<char>|
            other != trim(request.session_id@) ==> #[trigger] final(store).context_of(other) == old(store).context_of(other),
        forall|other: Seq<char>|
            other != trim(request.session_id@) ==> #[trigger] final(store).revision_of(other) == old(store).revision_of(other),
{
    let sid_chars = chars_of(request.session_id.as_str());
    let sid_trim = crate::scan::trim_chars(&sid_chars, CharSet::Space);
    let sid = string_from_chars(&sid_trim);
    if sid_trim.len() > 0 && request.text.as_str().unicode_len() > 0 {
        let r = store.commit(sid.as_str(), request.text.as_str());
        stats.record_commit();
        r
    } else {
        store.revision(sid.as_str())
    }
}

/// Forgets a session's context and counts the reset; the answer is `ok` with the session's
/// revision afterwards.
pub fn reset_reply(stats: &mut Stats, store: &mut SessionStore, request: &ResetRequest) -> (r: ResetResponse)
    requires
        old(store).wf(),
    ensures
        final(store).wf(),
        r.status@ == "ok"@,
        r.revision == final(store).revision_of(trim(request.session_id@)),
        trim(request.session_id@).len() > 0 ==> final(store).context_of(trim(request.session_id@))
            == Seq::<Seq<char>>::empty(),
        trim(request.session_id@).len() > 0 ==> final(store).revision_of(trim(request.session_id@))
            == 0,
        trim(request.session_id@).len() == 0 ==> *final(store) == *old(store),
        forall|other: Seq<char>|
            other != trim(request.session_id@) ==> #[trigger] final(store).context_of(other) == old(store).context_of(other),
        forall|other: Seq<char>|
            other != trim(request.session_id@) ==> #[trigger] final(store).revision_of(other) == old(store).revision_of(other),
        *final(stats) == (Stats { resets: wrap_inc(old(stats).resets), ..*old(stats) }),
{
    let sid_chars = chars_of(request.session_id.as_str());
    let sid_trim = crate::scan::trim_chars(&sid_chars, CharSet::Space);
    let sid = string_from_chars(&sid_trim);
    let revision = store.reset(sid.as_str());
    stats.record_reset();
    ResetResponse { status: "ok".to_owned(), revision }
}

/// The mode and bounds a queued prediction runs with: the request's, defaulting to the
/// coordinator's and bounded by them.
pub fn job_limits(
    request: &PredictionRequest,
    default_mode: PredictionMode,
    max_candidates: usize,
    max_tokens: usize,
) -> (r: (PredictionMode, usize, usize))
    requires
        max_candidates >= 1,
        max_tokens >= 1,
    ensures
        r.0 == match request.mode {
            Some(m) => m,
            None => default_mode,
        },
        r.1 == clamp(
            match request.max_candidates {
                Some(v) => v,
                None => max_candidates,
            },
            1,
            max_candidates,
        ),
        r.2 == clamp(
            match request.max_tokens {
                Some(v) => v,
                None => max_tokens,
            },
            1,
            max_tokens,
        ),
{
    let mode = match request.mode {
        Some(m) => m,
        None => default_mode,
    };
    (
        mode,
        request_limit(request.max_candidates, max_candidates),
        request_limit(request.max_tokens, max_tokens),
    )
}

/// The stale answer for a queued prediction whose session moved on before it ran, if it did.
pub fn stale_job(stats: &mut Stats, job_revision: u64, current_revision: u64, elapsed_ms: u64) -> (r: Option<PredictionResponse>)
    ensures
        job_revision == current_revision ==> r is None && *final(stats) == *old(stats),
        job_revision != current_revision ==> {
            &&& r matches Some(resp)
            &&& resp.status@ == "stale"@ && resp.source@ == "stale"@
            &&& resp.revision == current_revision && resp.candidates@.len() == 0
            &&& resp.elapsed_ms == elapsed_ms
            &&& *final(stats) == (Stats { prediction_stale: wrap_inc(old(stats).prediction_stale), ..*old(stats) })
        },
{
    if job_revision == current_revision {
        None
    } else {
        stats.record_prediction_stale();
        Some(prediction_stale_response(elapsed_ms, current_revision))
    }
}

/// The answer to a prediction that ran (`None` when the model failed): predictions for a
/// session still at the job's revision are `ready`; for a session that moved on, stale; no
/// predictions is a `no_match` fallback and a failure a `model_error` fallback.
pub fn finish_job(
    stats: &mut Stats,
    job_revision: u64,
    latest_revision: u64,
    result: Option<PredictionResult>,
    elapsed_ms: u64,
) -> (r: PredictionResponse)
    ensures
        r.elapsed_ms == elapsed_ms,
        match result {
            Some(res) => if res.candidates@.len() > 0 {
                if latest_revision != job_revision {
                    &&& r.status@ == "stale"@ && r.source@ == "stale"@
                    &&& r.revision == latest_revision && r.candidates@.len() == 0
                    &&& *final(stats) == (Stats { prediction_stale: wrap_inc(old(stats).prediction_stale), ..*old(stats) })
                } else {
                    &&& r.status@ == "ready"@ && r.source == res.source
                    &&& r.revision == job_revision && r.candidates@ == res.candidates@
                    &&& *final(stats) == (Stats {
                        model_successes: wrap_inc(old(stats).model_successes),
                        prediction_successes: wrap_inc(old(stats).prediction_successes),
                        ..*old(stats)
                    })
                }
            } else {
                &&& r.status@ == "fallback"@ && r.source@ == "no_match"@
                &&& r.revision == job_revision && r.candidates@.len() == 0
                &&& *final(stats) == (Stats { fallbacks: wrap_inc(old(stats).fallbacks), ..*old(stats) })
            },
            None => {
                &&& r.status@ == "fallback"@ && r.source@ == "model_error"@
                &&& r.revision == job_revision && r.candidates@.len() == 0
                &&& *final(stats) == (Stats { fallbacks: wrap_inc(old(stats).fallbacks), ..*old(stats) })
            },
        },
{
    match result {
        Some(res) => {
            if res.candidates.len() > 0 {
                if latest_revision != job_revision {
                    stats.record_prediction_stale();
                    prediction_stale_response(elapsed_ms, latest_revision)
                } else {
                    stats.record_model_success();
                    stats.record_prediction_success();
                    PredictionResponse {
                        status: "ready".to_owned(),
                        revision: job_revision,
                        candidates: res.candidates,
                        source: res.source,
                        elapsed_ms,
                    }
                }
            } else {
                stats.record_fallback();
                prediction_fallback_response(elapsed_ms, job_revision, "no_match")
            }
        },
        None => {
            stats.record_fallback();
            prediction_fallback_response(elapsed_ms, job_revision, "model_error")
        },
    }
}

} // verus!
