//! The decisions around model inference: the single-slot job queue, the checks made before
//! asking the model for logits or text, the prompt suffix that turns thinking off, the model
//! file check, and the device a model is loaded on.
use vstd::prelude::*;
use crate::scan::{contains_chars, contains_seq, lower_ascii, lower_ascii_chars, trim, trim_chars, CharSet};
use crate::settings::DevicePreference;
use crate::text::chars_of;

verus! {

/// A worker's queue: whether the worker was started, and the one job waiting for it.
#[derive(Debug)]
pub struct JobSlot<T> {
    pub started: bool,
    pub pending: Option<T>,
}

impl<T> JobSlot<T> {
    /// A queue whose worker has not started, with no job waiting.
    pub fn new() -> (s: Self)
        ensures
            !s.started,
            s.pending is None,
    {
        JobSlot { started: false, pending: None }
    }

    /// Queues `job` in place of the waiting one. Returns the job it replaced (to be answered
    /// as superseded) and whether the worker must be started now: only the first submission
    /// starts it.
    pub fn submit(&mut self, job: T) -> (r: (Option<T>, bool))
        ensures
            final(self).pending == Some(job),
            final(self).started,
            r.0 == old(self).pending,
            r.1 == !old(self).started,
    {
        let replaced = self.pending.take();
        self.pending = Some(job);
        let start = !self.started;
        self.started = true;
        (replaced, start)
    }

    /// Takes the waiting job for the worker to run.
    pub fn take(&mut self) -> (r: Option<T>)
        ensures
            r == old(self).pending,
            final(self).pending is None,
            final(self).started == old(self).started,
    {
        self.pending.take()
    }
}

/// Why a logits request cannot run.
#[derive(Debug, Clone, Copy, PartialEq, Eq)]
pub enum LogitsCheck {
    /// There are no tokens.
    EmptyTokens,
    /// No positions were asked for: the answer is empty.
    NoPositions,
    /// The tokens do not fit the context window.
    TooLong,
    /// A position lies outside the tokens.
    PositionOutside,
    /// The request can run.
    Ready,
}

/// The check of a logits request, in the order the conditions are tested.
pub open spec fn logits_check(tokens: nat, positions: Seq<usize>, context_window: nat) -> LogitsCheck {
    if tokens == 0 {
        LogitsCheck::EmptyTokens
    } else if positions.len() == 0 {
        LogitsCheck::NoPositions
    } else if tokens > context_window {
        LogitsCheck::TooLong
    } else if exists|i: int| 0 <= i < positions.len() && positions[i] >= tokens {
        LogitsCheck::PositionOutside
    } else {
        LogitsCheck::Ready
    }
}

/// Checks a request for the logits at `positions` of a sequence of `tokens` tokens.
pub fn check_logits_request(tokens: usize, positions: &[usize], context_window: usize) -> (r: LogitsCheck)
    ensures
        r == logits_check(tokens as nat, positions@, context_window as nat),
{
    if tokens == 0 {
        return LogitsCheck::EmptyTokens;
    }
    if positions.len() == 0 {
        return LogitsCheck::NoPositions;
    }
    if tokens > context_window {
        return LogitsCheck::TooLong;
    }
    let mut i: usize = 0;
    while i < positions.len()
        invariant
            i <= positions@.len(),
            tokens > 0,
            positions@.len() > 0,
            tokens <= context_window,
            forall|j: int| 0 <= j < i ==> positions@[j] < tokens,
        decreases positions.len() - i,
    {
        if positions[i] >= tokens {
            proof {
                assert(positions@[i as int] >= tokens);
            }
            return LogitsCheck::PositionOutside;
        }
        i = i + 1;
    }
    LogitsCheck::Ready
}

/// Why a generation cannot run.
#[derive(Debug, Clone, Copy, PartialEq, Eq)]
pub enum GenerationCheck {
    /// The prompt has no tokens.
    EmptyPrompt,
    /// The prompt fills the context window.
    NoRoom,
    /// No tokens were asked for: the answer is empty text.
    NothingToGenerate,
    /// The generation can run.
    Ready,
}

/// Checks a generation of at most `max_tokens` tokens after `prompt_tokens` tokens.
pub fn check_generation(prompt_tokens: usize, context_window: usize, max_tokens: usize) -> (r: GenerationCheck)
    ensures
        r == if prompt_tokens == 0 {
            GenerationCheck::EmptyPrompt
        } else if prompt_tokens >= context_window {
            GenerationCheck::NoRoom
        } else if max_tokens == 0 {
            GenerationCheck::NothingToGenerate
        } else {
            GenerationCheck::Ready
        },
{
    if prompt_tokens == 0 {
        GenerationCheck::EmptyPrompt
    } else if prompt_tokens >= context_window {
        GenerationCheck::NoRoom
    } else if max_tokens == 0 {
        GenerationCheck::NothingToGenerate
    } else {
        GenerationCheck::Ready
    }
}

/// Whether generation goes on after the token at `index` (counting from zero) was emitted:
/// it stops once `max_tokens` tokens are out or the context window is full.
pub fn generation_continues(index: usize, max_tokens: usize, prompt_tokens: usize, context_window: usize) -> (r: bool)
    requires
        index < max_tokens,
        prompt_tokens < context_window,
    ensures
        r == (index + 1 < max_tokens && prompt_tokens + index + 1 < context_window),
{
    if index + 1 == max_tokens {
        return false;
    }
    if index + 1 >= context_window - prompt_tokens {
        return false;
    }
    true
}

/// Why a context window cannot be used.
#[derive(Debug, Clone, Copy, PartialEq, Eq)]
pub enum ContextSizeError {
    /// It does not fit in `u32`.
    TooLarge,
    /// It is zero.
    Zero,
}

/// The context size and micro-batch size for a context window: the window itself, and at
/// most 512 tokens per micro-batch.
pub fn context_sizes(context_window: usize) -> (r: Result<(u32, u32), ContextSizeError>)
    ensures
        match r {
            Ok((n, ub)) => context_window <= u32::MAX && context_window > 0 && n == context_window
                && ub == if context_window < 512 {
                context_window as u32
            } else {
                512u32
            },
            Err(ContextSizeError::TooLarge) => context_window > u32::MAX,
            Err(ContextSizeError::Zero) => context_window == 0,
        },
{
    if context_window > 0xffff_ffff {
        return Err(ContextSizeError::TooLarge);
    }
    let n = context_window as u32;
    if n == 0 {
        return Err(ContextSizeError::Zero);
    }
    let ub = if n < 512 {
        n
    } else {
        512
    };
    Ok((n, ub))
}

/// A token id as the model library numbers tokens (`i32`), when it fits.
pub fn to_library_token(token: u32) -> (r: Option<i32>)
    ensures
        match r {
            Some(t) => token <= i32::MAX && t == token,
            None => token > i32::MAX,
        },
{
    if token <= 0x7fff_ffff {
        Some(token as i32)
    } else {
        None
    }
}

/// A token id from the model library, when it is not negative.
pub fn from_library_token(token: i32) -> (r: Option<u32>)
    ensures
        match r {
            Some(t) => token >= 0 && t == token,
            None => token < 0,
        },
{
    if token >= 0 {
        Some(token as u32)
    } else {
        None
    }
}

/// The suffix that closes a Qwen3 chat prompt with an empty thinking block, which turns
/// thinking off.
pub open spec fn no_thinking_suffix() -> Seq<char> {
    "<|im_start|>assistant\n<think>\n\n</think>\n\n"@
}

/// The suffix that closes a Qwen3 chat prompt with an empty thinking block.
pub fn qwen3_no_thinking_suffix() -> (r: &'static str)
    ensures
        r@ == no_thinking_suffix(),
{
    "<|im_start|>assistant\n<think>\n\n</think>\n\n"
}

/// Whether a chat template understands `enable_thinking` (and so needs the suffix).
pub fn template_supports_thinking(template: &str) -> (b: bool)
    ensures
        b == contains_seq(template@, "enable_thinking"@),
{
    let t = chars_of(template);
    let key = chars_of("enable_thinking");
    contains_chars(&t, &key)
}

/// A rendered prompt without an assistant turn, closed by the empty thinking block.
pub fn with_thinking_disabled(rendered: String) -> (r: String)
    ensures
        r@ == rendered@ + no_thinking_suffix(),
{
    let mut r = rendered;
    r.append(qwen3_no_thinking_suffix());
    r
}

/// Whether the model library's log switch is on: `1`, `true`, `yes` or `on`, in any ASCII
/// case and with surrounding whitespace.
pub open spec fn log_switch_on(value: Seq<char>) -> bool {
    let v = lower_ascii(trim(value));
    v == "1"@ || v == "true"@ || v == "yes"@ || v == "on"@
}

/// Reads the model library's log switch (unset means off).
pub fn llama_logs_enabled(value: Option<&str>) -> (b: bool)
    ensures
        b == match value {
            Some(v) => log_switch_on(v@),
            None => false,
        },
{
    match value {
        Some(v) => {
            let c = chars_of(v);
            let t = trim_chars(&c, CharSet::Space);
            let l = lower_ascii_chars(&t);
            let one = chars_of("1");
            let yes_true = chars_of("true");
            let yes = chars_of("yes");
            let on = chars_of("on");
            crate::syllable::vec_chars_eq(&l, &one) || crate::syllable::vec_chars_eq(&l, &yes_true)
                || crate::syllable::vec_chars_eq(&l, &yes) || crate::syllable::vec_chars_eq(&l, &on)
        },
        None => false,
    }
}

/// How a model is loaded for a device preference.
#[derive(Debug, Clone, Copy, PartialEq, Eq)]
pub enum LoadPlan {
    /// Load on the CPU and report this device.
    Cpu,
    /// Offload every layer to the GPU, falling back to the CPU if that fails.
    GpuWithFallback,
    /// The GPU was asked for but is not available: load on the CPU.
    CpuWithoutGpu,
}

/// The loading plan: the CPU when asked for, the GPU when asked for and available.
pub fn load_plan(preference: DevicePreference, gpu_available: bool) -> (p: LoadPlan)
    ensures
        p == match preference {
            DevicePreference::Cpu => LoadPlan::Cpu,
            DevicePreference::Metal => if gpu_available {
                LoadPlan::GpuWithFallback
            } else {
                LoadPlan::CpuWithoutGpu
            },
        },
{
    match preference {
        DevicePreference::Cpu => LoadPlan::Cpu,
        DevicePreference::Metal => if gpu_available {
            LoadPlan::GpuWithFallback
        } else {
            LoadPlan::CpuWithoutGpu
        },
    }
}

/// The device label of a loaded model: `metal` on the GPU, `cpu-fallback` after the GPU
/// failed, `cpu` otherwise.
pub fn device_label(plan: LoadPlan, gpu_loaded: bool) -> (r: &'static str)
    ensures
        r@ == match plan {
            LoadPlan::GpuWithFallback => if gpu_loaded {
                "metal"@
            } else {
                "cpu-fallback"@
            },
            _ => "cpu"@,
        },
{
    match plan {
        LoadPlan::GpuWithFallback => if gpu_loaded {
            "metal"
        } else {
            "cpu-fallback"
        },
        _ => "cpu",
    }
}

/// The smallest size of a model file taken as complete, in bytes.
pub const MIN_MODEL_BYTES: u64 = 1048576;

/// Whether a model file looks like a GGUF model: at least a mebibyte long and starting with
/// the `GGUF` magic bytes.
pub fn gguf_header_valid(len: u64, magic: &[u8]) -> (b: bool)
    ensures
        b == (len >= MIN_MODEL_BYTES && magic@ == seq![0x47u8, 0x47u8, 0x55u8, 0x46u8]),
{
    if len < MIN_MODEL_BYTES {
        return false;
    }
    if magic.len() != 4 {
        proof {
            assert(magic@.len() != 4);
        }
        return false;
    }
    let r = magic[0] == 0x47 && magic[1] == 0x47 && magic[2] == 0x55 && magic[3] == 0x46;
    proof {
        if r {
            assert(magic@ =~= seq![0x47u8, 0x47u8, 0x55u8, 0x46u8]);
        }
    }
    r
}

/// How one attempt to fetch the model file ended.
#[derive(Debug, Clone, Copy, PartialEq, Eq)]
pub enum DownloadAttempt {
    /// The file was fetched; `valid` says whether its header passed [`gguf_header_valid`].
    Fetched { valid: bool },
    /// The model hub answered with an error.
    Failed,
    /// No answer came within the download timeout.
    TimedOut,
}

/// Why getting the model file failed.
#[derive(Debug, Clone, Copy, PartialEq, Eq)]
pub enum DownloadFailure {
    /// The model hub's error is reported.
    Fetch,
    /// The download timed out.
    Timeout,
    /// The file fetched again is still not a GGUF model.
    InvalidGguf,
}

/// What to do after an attempt to fetch the model file.
#[derive(Debug, Clone, Copy, PartialEq, Eq)]
pub enum DownloadStep {
    /// The fetched file is the model to load.
    Ready,
    /// Remove the corrupt cached file and fetch it once more.
    RemoveAndRetry,
    /// Give up with this failure.
    Fail(DownloadFailure),
}

/// The step after a download attempt (`retried` says whether it was the second one): a valid
/// file is ready; a corrupt file is removed and fetched again once, and a second corrupt file
/// fails; a hub error or a timeout fails at once.
pub open spec fn download_step(retried: bool, attempt: DownloadAttempt) -> DownloadStep {
    match attempt {
        DownloadAttempt::Fetched { valid } => if valid {
            DownloadStep::Ready
        } else if retried {
            DownloadStep::Fail(DownloadFailure::InvalidGguf)
        } else {
            DownloadStep::RemoveAndRetry
        },
        DownloadAttempt::Failed => DownloadStep::Fail(DownloadFailure::Fetch),
        DownloadAttempt::TimedOut => DownloadStep::Fail(DownloadFailure::Timeout),
    }
}

/// Decides what follows a download attempt, as [`download_step`] states.
pub fn next_download_step(retried: bool, attempt: DownloadAttempt) -> (step: DownloadStep)
    ensures
        step == download_step(retried, attempt),
{
    match attempt {
        DownloadAttempt::Fetched { valid } => if valid {
            DownloadStep::Ready
        } else if retried {
            DownloadStep::Fail(DownloadFailure::InvalidGguf)
        } else {
            DownloadStep::RemoveAndRetry
        },
        DownloadAttempt::Failed => DownloadStep::Fail(DownloadFailure::Fetch),
        DownloadAttempt::TimedOut => DownloadStep::Fail(DownloadFailure::Timeout),
    }
}

/// The model file is fetched at most twice: after the retry no step asks for another, and
/// only a corrupt file ever asks for one.
pub proof fn law_download_retries_once(attempt: DownloadAttempt)
    ensures
        download_step(true, attempt) != DownloadStep::RemoveAndRetry,
        download_step(false, attempt) == DownloadStep::RemoveAndRetry <==> attempt
            == (DownloadAttempt::Fetched { valid: false }),
{
}

} // verus!
