//! Wire values shared between the model service and its clients. Scores are carried as the
//! IEEE-754 bit patterns of the `f32` values that travel on the wire.
use vstd::prelude::*;

verus! {

/// A dictionary candidate path offered to the model for reranking.
#[derive(Debug, Clone, PartialEq)]
pub struct CandidatePath {
    pub id: String,
    pub text: String,
    pub preedit: String,
    pub consumedkeys: usize,
    /// Bit pattern of the `f32` dictionary base score.
    pub base_score_bits: u32,
}

/// A rerank request for the current composition.
#[derive(Debug, Clone)]
pub struct CandidatesRequest {
    pub session_id: String,
    pub input: String,
    pub max_candidates: Option<usize>,
    pub paths: Vec<CandidatePath>,
}

/// The model's answer to a rerank request.
#[derive(Debug, Clone, PartialEq)]
pub struct CandidatesResponse {
    pub status: String,
    pub candidates: Vec<ModelCandidate>,
    pub source: String,
    pub elapsed_ms: u64,
}

/// A candidate as ranked by the model.
#[derive(Debug, Clone, PartialEq)]
pub struct ModelCandidate {
    pub id: String,
    pub text: String,
    pub preedit: String,
    pub consumedkeys: usize,
    /// Bit pattern of the `f32` ranking score.
    pub score_bits: u32,
    pub kind: String,
}

/// Text committed by the user, recorded as context.
#[derive(Debug, Clone)]
pub struct CommitRequest {
    pub session_id: String,
    pub text: String,
}

/// A next-word prediction request for a context revision.
#[derive(Debug, Clone)]
pub struct PredictionRequest {
    pub session_id: String,
    pub revision: u64,
    pub mode: Option<PredictionMode>,
    pub max_candidates: Option<usize>,
    pub max_tokens: Option<usize>,
}

/// The answer to a prediction request.
#[derive(Debug, Clone, PartialEq)]
pub struct PredictionResponse {
    pub status: String,
    pub revision: u64,
    pub candidates: Vec<PredictionCandidate>,
    pub source: String,
    pub elapsed_ms: u64,
}

/// One predicted next word.
#[derive(Debug, PartialEq)]
pub struct PredictionCandidate {
    pub id: String,
    pub text: String,
    /// Bit pattern of the `f32` score.
    pub score_bits: u32,
    pub kind: String,
}

impl Clone for PredictionCandidate {
    fn clone(&self) -> (r: Self)
        ensures
            r == *self,
    {
        PredictionCandidate {
            id: self.id.clone(),
            text: self.text.clone(),
            score_bits: self.score_bits,
            kind: self.kind.clone(),
        }
    }
}

/// A copy of a list of predictions.
pub fn clone_predictions(v: &Vec<PredictionCandidate>) -> (r: Vec<PredictionCandidate>)
    ensures
        r@ == v@,
{
    let mut r: Vec<PredictionCandidate> = Vec::new();
    let mut i: usize = 0;
    while i < v.len()
        invariant
            i <= v@.len(),
            r@ == v@.take(i as int),
        decreases v.len() - i,
    {
        r.push(v[i].clone());
        i = i + 1;
        proof {
            assert(r@ =~= v@.take(i as int));
        }
    }
    proof {
        assert(v@.take(v@.len() as int) =~= v@);
    }
    r
}

/// Where predictions come from: generation, the dictionary, or both.
#[derive(Debug, Clone, Copy, PartialEq, Eq)]
pub enum PredictionMode {
    Free,
    Dictionary,
    Hybrid,
}

impl Default for PredictionMode {
    fn default() -> (m: Self)
        ensures
            m == PredictionMode::Free,
    {
        PredictionMode::Free
    }
}

/// Forget the context of a session.
#[derive(Debug, Clone)]
pub struct ResetRequest {
    pub session_id: String,
}

/// The answer to a reset request.
#[derive(Debug, Clone, PartialEq)]
pub struct ResetResponse {
    pub status: String,
    pub revision: u64,
}

} // verus!
