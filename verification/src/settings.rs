//! The model service's settings: defaults, environment overrides and validation.
use vstd::prelude::*;
use vstd::string::*;
use crate::dict_text::{join_path, path_join};
use crate::scan::{
    contains_chars, contains_char, contains_seq, lower_ascii, lower_ascii_chars, parse_unsigned,
    parse_u64, parse_usize, trim, trim_chars, trim_set, CharSet,
};
use crate::text::{chars_of, string_from_chars};

verus! {

/// Where the model runs.
#[derive(Debug, Clone, Copy, PartialEq, Eq)]
pub enum DevicePreference {
    Metal,
    Cpu,
}

impl Default for DevicePreference {
    fn default() -> (d: Self)
        ensures
            d == DevicePreference::Metal,
    {
        default_device()
    }
}

/// The default model repository.
pub fn default_model_repo() -> (r: String)
    ensures
        r@ == "unsloth/Qwen3-0.6B-GGUF"@,
{
    "unsloth/Qwen3-0.6B-GGUF".to_owned()
}

/// The default model file.
pub fn default_model_file() -> (r: String)
    ensures
        r@ == "Qwen3-0.6B-Q4_K_M.gguf"@,
{
    "Qwen3-0.6B-Q4_K_M.gguf".to_owned()
}

/// The default tokenizer repository.
pub fn default_tokenizer_repo() -> (r: String)
    ensures
        r@ == "Qwen/Qwen3-0.6B"@,
{
    "Qwen/Qwen3-0.6B".to_owned()
}

/// The default device.
pub fn default_device() -> (d: DevicePreference)
    ensures
        d == DevicePreference::Metal,
{
    DevicePreference::Metal
}

/// The default number of candidates.
pub fn default_max_candidates() -> (n: usize)
    ensures
        n == 16,
{
    16
}

/// The default wait for the model, in milliseconds.
pub fn default_max_wait_ms() -> (n: u64)
    ensures
        n == 15000,
{
    15_000
}

/// The default context window, in tokens.
pub fn default_context_window() -> (n: usize)
    ensures
        n == 4096,
{
    4096
}

/// The default committed-context budget, in characters.
pub fn default_max_context_chars() -> (n: usize)
    ensures
        n == 256,
{
    256
}

/// The default download timeout, in seconds.
pub fn default_download_timeout_secs() -> (n: u64)
    ensures
        n == 3600,
{
    3600
}

/// The default listening address.
pub fn default_bind_addr() -> (r: String)
    ensures
        r@ == "127.0.0.1:32123"@,
{
    "127.0.0.1:32123".to_owned()
}

/// The model directory under the working directory `current`: `rime-llm/models` when a
/// `rime-llm` directory is there, else `models`.
pub fn default_model_dir_in(current: &str, has_project_dir: bool) -> (r: String)
    ensures
        r@ == if has_project_dir {
            path_join(path_join(current@, "rime-llm"@), "models"@)
        } else {
            path_join(current@, "models"@)
        },
{
    if has_project_dir {
        let project = join_path(current, "rime-llm");
        join_path(project.as_str(), "models")
    } else {
        join_path(current, "models")
    }
}

/// The dictionary roots tried in order: under the working directory, under its `rime-llm`
/// directory, and under the project root of the executable when it has one.
pub fn dictionary_root_candidates(current: &str, project_root: Option<&str>) -> (r: Vec<String>)
    ensures
        r@.len() == if project_root is Some {
            3nat
        } else {
            2nat
        },
        r@[0]@ == path_join(current@, "data/rime-ice"@),
        r@[1]@ == path_join(current@, "rime-llm/data/rime-ice"@),
        project_root matches Some(p) ==> r@[2]@ == path_join(p@, "data/rime-ice"@),
{
    let mut r: Vec<String> = Vec::new();
    r.push(join_path(current, "data/rime-ice"));
    r.push(join_path(current, "rime-llm/data/rime-ice"));
    match project_root {
        Some(p) => r.push(join_path(p, "data/rime-ice")),
        None => {},
    }
    r
}

/// The model service's settings.
#[derive(Debug, Clone)]
pub struct Settings {
    /// The listening socket address, as text.
    pub bind_addr: String,
    pub model_dir: String,
    pub model_repo: String,
    pub model_file: String,
    pub tokenizer_repo: String,
    pub device: DevicePreference,
    pub context_window: usize,
    pub max_candidates: usize,
    pub max_wait_ms: u64,
    pub max_context_chars: usize,
    pub download_timeout_secs: u64,
    pub dictionary_root: String,
}

/// A setting that failed validation, with the message to report.
#[derive(Debug, Clone)]
pub struct InvalidSetting {
    pub message: String,
}

/// The environment variables that override settings, each absent when unset.
#[derive(Debug, Clone)]
pub struct SettingsEnv {
    pub bind_addr: Option<String>,
    /// Whether `bind_addr` reads as a socket address.
    pub bind_addr_valid: bool,
    pub model_dir: Option<String>,
    pub model_repo: Option<String>,
    pub model_file: Option<String>,
    pub tokenizer_repo: Option<String>,
    pub device: Option<String>,
    pub context_window: Option<String>,
    pub max_candidates: Option<String>,
    pub max_wait_ms: Option<String>,
    pub max_context_chars: Option<String>,
    pub download_timeout_secs: Option<String>,
    pub dictionary_root: Option<String>,
}

/// The view of an optional string.
pub open spec fn ov(o: Option<String>) -> Option<Seq<char>> {
    match o {
        Some(s) => Some(s@),
        None => None,
    }
}

/// A set variable that does not read as a number up to `max`.
pub open spec fn bad_number(v: Option<String>, max: nat) -> bool {
    match v {
        Some(s) => parse_unsigned(s@, max) is None,
        None => false,
    }
}

/// The message for the first environment variable that cannot be applied, if any.
pub open spec fn env_error(env: SettingsEnv) -> Option<Seq<char>> {
    if env.bind_addr is Some && !env.bind_addr_valid {
        Some("RIME_LLM_BIND_ADDR must be a socket address"@)
    } else if env.device matches Some(d) && lower_ascii(d@) != "metal"@ && lower_ascii(d@)
        != "cpu"@ {
        Some("RIME_LLM_DEVICE must be metal or cpu, got "@ + lower_ascii(env.device->0@))
    } else if bad_number(env.context_window, usize::MAX as nat) {
        Some("RIME_LLM_CONTEXT_WINDOW must be a positive integer"@)
    } else if bad_number(env.max_candidates, usize::MAX as nat) {
        Some("RIME_LLM_MAX_CANDIDATES must be a positive integer"@)
    } else if bad_number(env.max_wait_ms, u64::MAX as nat) {
        Some("RIME_LLM_MAX_WAIT_MS must be a positive integer"@)
    } else if bad_number(env.max_context_chars, usize::MAX as nat) {
        Some("RIME_LLM_MAX_CONTEXT_CHARS must be a positive integer"@)
    } else if bad_number(env.download_timeout_secs, u64::MAX as nat) {
        Some("RIME_LLM_DOWNLOAD_TIMEOUT_SECS must be a positive integer"@)
    } else {
        None
    }
}

/// A set variable's text, or the current value.
pub open spec fn text_or(v: Option<String>, cur: Seq<char>) -> Seq<char> {
    match v {
        Some(s) => s@,
        None => cur,
    }
}

/// A set variable's number, or the current value.
pub open spec fn number_or_current(v: Option<String>, max: nat, cur: nat) -> nat {
    match v {
        Some(s) => match parse_unsigned(s@, max) {
            Some(n) => n,
            None => cur,
        },
        None => cur,
    }
}

/// Where the first environment variable that cannot be applied stands in the order the
/// variables are read (bind address, model directory, model repository, model file,
/// tokenizer repository, device, context window, maximum candidates, maximum wait, maximum
/// context characters, download timeout, dictionary root); twelve when every one applies.
pub open spec fn env_error_at(env: SettingsEnv) -> nat {
    if env.bind_addr is Some && !env.bind_addr_valid {
        0
    } else if env.device matches Some(d) && lower_ascii(d@) != "metal"@ && lower_ascii(d@)
        != "cpu"@ {
        5
    } else if bad_number(env.context_window, usize::MAX as nat) {
        6
    } else if bad_number(env.max_candidates, usize::MAX as nat) {
        7
    } else if bad_number(env.max_wait_ms, u64::MAX as nat) {
        8
    } else if bad_number(env.max_context_chars, usize::MAX as nat) {
        9
    } else if bad_number(env.download_timeout_secs, u64::MAX as nat) {
        10
    } else {
        12
    }
}

/// The settings `s` with the variables of `env` that are read before position `k` (see
/// [`env_error_at`]) applied and the others left as they were.
pub open spec fn env_applied_before(s: Settings, t: Settings, env: SettingsEnv, k: nat) -> bool {
    &&& t.bind_addr@ == if 0 < k {
        text_or(env.bind_addr, s.bind_addr@)
    } else {
        s.bind_addr@
    }
    &&& t.model_dir@ == if 1 < k {
        text_or(env.model_dir, s.model_dir@)
    } else {
        s.model_dir@
    }
    &&& t.model_repo@ == if 2 < k {
        text_or(env.model_repo, s.model_repo@)
    } else {
        s.model_repo@
    }
    &&& t.model_file@ == if 3 < k {
        text_or(env.model_file, s.model_file@)
    } else {
        s.model_file@
    }
    &&& t.tokenizer_repo@ == if 4 < k {
        text_or(env.tokenizer_repo, s.tokenizer_repo@)
    } else {
        s.tokenizer_repo@
    }
    &&& t.device == if 5 < k {
        match env.device {
            Some(d) => if lower_ascii(d@) == "metal"@ {
                DevicePreference::Metal
            } else {
                DevicePreference::Cpu
            },
            None => s.device,
        }
    } else {
        s.device
    }
    &&& t.context_window as nat == if 6 < k {
        number_or_current(env.context_window, usize::MAX as nat, s.context_window as nat)
    } else {
        s.context_window as nat
    }
    &&& t.max_candidates as nat == if 7 < k {
        number_or_current(env.max_candidates, usize::MAX as nat, s.max_candidates as nat)
    } else {
        s.max_candidates as nat
    }
    &&& t.max_wait_ms as nat == if 8 < k {
        number_or_current(env.max_wait_ms, u64::MAX as nat, s.max_wait_ms as nat)
    } else {
        s.max_wait_ms as nat
    }
    &&& t.max_context_chars as nat == if 9 < k {
        number_or_current(env.max_context_chars, usize::MAX as nat, s.max_context_chars as nat)
    } else {
        s.max_context_chars as nat
    }
    &&& t.download_timeout_secs as nat == if 10 < k {
        number_or_current(
            env.download_timeout_secs,
            u64::MAX as nat,
            s.download_timeout_secs as nat,
        )
    } else {
        s.download_timeout_secs as nat
    }
    &&& t.dictionary_root@ == if 11 < k {
        text_or(env.dictionary_root, s.dictionary_root@)
    } else {
        s.dictionary_root@
    }
}

/// The settings `s` with every variable of `env` applied (when none is in error).
pub open spec fn env_applied(s: Settings, t: Settings, env: SettingsEnv) -> bool {
    env_applied_before(s, t, env, 12)
}

/// The normalized settings: repositories without surrounding whitespace or slashes, the model
/// file without surrounding whitespace.
pub open spec fn normalized(s: Settings, t: Settings) -> bool {
    &&& t.model_repo@ == trim_set(trim(s.model_repo@), CharSet::Slash)
    &&& t.model_file@ == trim(s.model_file@)
    &&& t.tokenizer_repo@ == trim_set(trim(s.tokenizer_repo@), CharSet::Slash)
    &&& t.bind_addr == s.bind_addr
    &&& t.model_dir == s.model_dir
    &&& t.device == s.device
    &&& t.context_window == s.context_window
    &&& t.max_candidates == s.max_candidates
    &&& t.max_wait_ms == s.max_wait_ms
    &&& t.max_context_chars == s.max_context_chars
    &&& t.download_timeout_secs == s.download_timeout_secs
    &&& t.dictionary_root == s.dictionary_root
}

/// The message for the first rule that normalized settings `t` break, if any.
pub open spec fn validation_error(t: Settings) -> Option<Seq<char>> {
    if t.model_repo@.len() == 0 || t.model_file@.len() == 0 {
        Some("model_repo and model_file must not be empty"@)
    } else if t.model_file@.contains('/') || contains_seq(t.model_file@, ".."@) {
        Some("model_file must be a file name inside model_dir"@)
    } else if t.context_window < 128 {
        Some("context_window must be at least 128"@)
    } else if t.max_candidates == 0 || t.max_candidates > 64 {
        Some("max_candidates must be between 1 and 64"@)
    } else if t.max_wait_ms == 0 || t.max_wait_ms > 60000 {
        Some("max_wait_ms must be between 1 and 60000"@)
    } else if t.max_context_chars == 0 || t.max_context_chars > 4096 {
        Some("max_context_chars must be between 1 and 4096"@)
    } else if t.download_timeout_secs == 0 {
        Some("download_timeout_secs must be positive"@)
    } else {
        None
    }
}

fn invalid(message: &str) -> (e: InvalidSetting)
    ensures
        e.message@ == message@,
{
    InvalidSetting { message: message.to_owned() }
}

fn number_usize(v: &Option<String>, cur: usize) -> (r: Option<usize>)
    ensures
        match r {
            Some(n) => !bad_number(*v, usize::MAX as nat) && n as nat == number_or_current(
                *v,
                usize::MAX as nat,
                cur as nat,
            ),
            None => bad_number(*v, usize::MAX as nat),
        },
{
    match v {
        Some(s) => parse_usize(s.as_str()),
        None => Some(cur),
    }
}

fn number_u64(v: &Option<String>, cur: u64) -> (r: Option<u64>)
    ensures
        match r {
            Some(n) => !bad_number(*v, u64::MAX as nat) && n as nat == number_or_current(
                *v,
                u64::MAX as nat,
                cur as nat,
            ),
            None => bad_number(*v, u64::MAX as nat),
        },
{
    match v {
        Some(s) => parse_u64(s.as_str()),
        None => Some(cur),
    }
}

fn text_or_current(v: &Option<String>, cur: &String) -> (r: String)
    ensures
        r@ == text_or(*v, cur@),
{
    match v {
        Some(s) => s.clone(),
        None => cur.clone(),
    }
}

impl Settings {
    /// The default settings, given the default model directory and dictionary root (which
    /// depend on the file system).
    pub fn with_paths(model_dir: String, dictionary_root: String) -> (s: Settings)
        ensures
            s.bind_addr@ == "127.0.0.1:32123"@,
            s.model_dir == model_dir,
            s.model_repo@ == "unsloth/Qwen3-0.6B-GGUF"@,
            s.model_file@ == "Qwen3-0.6B-Q4_K_M.gguf"@,
            s.tokenizer_repo@ == "Qwen/Qwen3-0.6B"@,
            s.device == DevicePreference::Metal,
            s.context_window == 4096,
            s.max_candidates == 16,
            s.max_wait_ms == 15000,
            s.max_context_chars == 256,
            s.download_timeout_secs == 3600,
            s.dictionary_root == dictionary_root,
    {
        Settings {
            bind_addr: default_bind_addr(),
            model_dir,
            model_repo: default_model_repo(),
            model_file: default_model_file(),
            tokenizer_repo: default_tokenizer_repo(),
            device: default_device(),
            context_window: default_context_window(),
            max_candidates: default_max_candidates(),
            max_wait_ms: default_max_wait_ms(),
            max_context_chars: default_max_context_chars(),
            download_timeout_secs: default_download_timeout_secs(),
            dictionary_root,
        }
    }

    /// The model file's path inside the model directory.
    pub fn model_path(&self) -> (r: String)
        ensures
            r@ == path_join(self.model_dir@, self.model_file@),
    {
        join_path(self.model_dir.as_str(), self.model_file.as_str())
    }

    /// The download URL of the model file on the Hugging Face hub.
    pub fn model_url(&self) -> (r: String)
        ensures
            r@ == "https://huggingface.co/"@ + trim_set(self.model_repo@, CharSet::Slash)
                + "/resolve/main/"@ + self.model_file@ + "?download=true"@,
    {
        let repo_chars = chars_of(self.model_repo.as_str());
        let repo = string_from_chars(&trim_chars(&repo_chars, CharSet::Slash));
        let mut url = "https://huggingface.co/".to_owned();
        url.append(repo.as_str());
        url.append("/resolve/main/");
        url.append(self.model_file.as_str());
        url.append("?download=true");
        url
    }

    /// Applies the environment overrides in their reading order: every set variable replaces
    /// its setting (numbers and the device must read as such). At the first variable that
    /// cannot be applied the error is reported, and the variables read before it stay applied.
    pub fn apply_environment(&mut self, env: &SettingsEnv) -> (r: Result<(), InvalidSetting>)
        ensures
            match r {
                Ok(()) => env_error(*env) is None && env_applied(*old(self), *final(self), *env),
                Err(e) => env_error(*env) == Some(e.message@) && env_applied_before(
                    *old(self),
                    *final(self),
                    *env,
                    env_error_at(*env),
                ),
            },
    {
        if env.bind_addr.is_some() && !env.bind_addr_valid {
            return Err(invalid("RIME_LLM_BIND_ADDR must be a socket address"));
        }
        self.bind_addr = text_or_current(&env.bind_addr, &self.bind_addr);
        self.model_dir = text_or_current(&env.model_dir, &self.model_dir);
        self.model_repo = text_or_current(&env.model_repo, &self.model_repo);
        self.model_file = text_or_current(&env.model_file, &self.model_file);
        self.tokenizer_repo = text_or_current(&env.tokenizer_repo, &self.tokenizer_repo);
        match &env.device {
            Some(d) => {
                let dc = chars_of(d.as_str());
                let lower = lower_ascii_chars(&dc);
                let metal = chars_of("metal");
                let cpu = chars_of("cpu");
                if crate::syllable::vec_chars_eq(&lower, &metal) {
                    self.device = DevicePreference::Metal;
                } else if crate::syllable::vec_chars_eq(&lower, &cpu) {
                    self.device = DevicePreference::Cpu;
                } else {
                    let mut message = "RIME_LLM_DEVICE must be metal or cpu, got ".to_owned();
                    let got = string_from_chars(&lower);
                    message.append(got.as_str());
                    return Err(InvalidSetting { message });
                }
            },
            None => {},
        }
        match number_usize(&env.context_window, self.context_window) {
            Some(n) => self.context_window = n,
            None => {
                return Err(invalid("RIME_LLM_CONTEXT_WINDOW must be a positive integer"));
            },
        }
        match number_usize(&env.max_candidates, self.max_candidates) {
            Some(n) => self.max_candidates = n,
            None => {
                return Err(invalid("RIME_LLM_MAX_CANDIDATES must be a positive integer"));
            },
        }
        match number_u64(&env.max_wait_ms, self.max_wait_ms) {
            Some(n) => self.max_wait_ms = n,
            None => {
                return Err(invalid("RIME_LLM_MAX_WAIT_MS must be a positive integer"));
            },
        }
        match number_usize(&env.max_context_chars, self.max_context_chars) {
            Some(n) => self.max_context_chars = n,
            None => {
                return Err(invalid("RIME_LLM_MAX_CONTEXT_CHARS must be a positive integer"));
            },
        }
        match number_u64(&env.download_timeout_secs, self.download_timeout_secs) {
            Some(n) => self.download_timeout_secs = n,
            None => {
                return Err(invalid("RIME_LLM_DOWNLOAD_TIMEOUT_SECS must be a positive integer"));
            },
        }
        self.dictionary_root = text_or_current(&env.dictionary_root, &self.dictionary_root);
        Ok(())
    }

    /// Normalizes the repository and file names and checks every setting's range; the first
    /// broken rule is reported.
    pub fn normalize_and_validate(self) -> (r: Result<Settings, InvalidSetting>)
        ensures
            match r {
                Ok(t) => normalized(self, t) && validation_error(t) is None,
                Err(e) => exists|t: Settings|
                    normalized(self, t) && validation_error(t) == Some(e.message@),
            },
    {
        let repo_chars = chars_of(self.model_repo.as_str());
        let repo = trim_chars(&trim_chars(&repo_chars, CharSet::Space), CharSet::Slash);
        let file_chars = chars_of(self.model_file.as_str());
        let file = trim_chars(&file_chars, CharSet::Space);
        let tok_chars = chars_of(self.tokenizer_repo.as_str());
        let tok = trim_chars(&trim_chars(&tok_chars, CharSet::Space), CharSet::Slash);
        let t = Settings {
            bind_addr: self.bind_addr,
            model_dir: self.model_dir,
            model_repo: string_from_chars(&repo),
            model_file: string_from_chars(&file),
            tokenizer_repo: string_from_chars(&tok),
            device: self.device,
            context_window: self.context_window,
            max_candidates: self.max_candidates,
            max_wait_ms: self.max_wait_ms,
            max_context_chars: self.max_context_chars,
            download_timeout_secs: self.download_timeout_secs,
            dictionary_root: self.dictionary_root,
        };
        let dots = chars_of("..");
        let e = if repo.len() == 0 || file.len() == 0 {
            Some(invalid("model_repo and model_file must not be empty"))
        } else if contains_char(&file, '/') || contains_chars(&file, &dots) {
            Some(invalid("model_file must be a file name inside model_dir"))
        } else if t.context_window < 128 {
            Some(invalid("context_window must be at least 128"))
        } else if t.max_candidates == 0 || t.max_candidates > 64 {
            Some(invalid("max_candidates must be between 1 and 64"))
        } else if t.max_wait_ms == 0 || t.max_wait_ms > 60_000 {
            Some(invalid("max_wait_ms must be between 1 and 60000"))
        } else if t.max_context_chars == 0 || t.max_context_chars > 4096 {
            Some(invalid("max_context_chars must be between 1 and 4096"))
        } else if t.download_timeout_secs == 0 {
            Some(invalid("download_timeout_secs must be positive"))
        } else {
            None
        };
        proof {
            assert(normalized(self, t));
        }
        match e {
            Some(err) => {
                proof {
                    assert(validation_error(t) == Some(err.message@));
                }
                Err(err)
            },
            None => Ok(t),
        }
    }
}

/// Where the settings come from.
#[derive(Debug, Clone)]
pub enum ConfigSource {
    /// Read this configuration file.
    File(String),
    /// The configuration file named by `RIME_LLM_CONFIG` is missing; report this message.
    Missing(String),
    /// Use the defaults.
    Defaults,
}

/// Chooses the configuration source: an existing path is read; a path named explicitly by
/// `RIME_LLM_CONFIG` that does not exist is an error; otherwise the defaults apply.
pub fn config_source(path: Option<String>, exists: bool, explicit: bool) -> (r: ConfigSource)
    ensures
        match path {
            Some(p) => if exists {
                r matches ConfigSource::File(f) && f@ == p@
            } else if explicit {
                r matches ConfigSource::Missing(m) && m@ == "RIME_LLM_CONFIG does not exist: "@
                    + p@
            } else {
                r matches ConfigSource::Defaults
            },
            None => r matches ConfigSource::Defaults,
        },
{
    match path {
        Some(p) => if exists {
            ConfigSource::File(p)
        } else if explicit {
            let mut m = "RIME_LLM_CONFIG does not exist: ".to_owned();
            m.append(p.as_str());
            ConfigSource::Missing(m)
        } else {
            ConfigSource::Defaults
        },
        None => ConfigSource::Defaults,
    }
}

/// The configuration files looked for under the working directory, in order.
pub fn config_path_candidates(current: &str) -> (r: (String, String))
    ensures
        r.0@ == path_join(current@, "config.toml"@),
        r.1@ == path_join(path_join(current@, "rime-llm"@), "config.toml"@),
{
    let nested = join_path(current, "rime-llm");
    (join_path(current, "config.toml"), join_path(nested.as_str(), "config.toml"))
}

} // verus!
