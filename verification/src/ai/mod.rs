//! The vision model a date can be asked of: which kind of service it is, where it
//! is, and whether it is set up well enough to be asked at all.
use vstd::prelude::*;
use vstd::string::StrSliceExecFns;
use core::time::Duration;
use crate::text::{blank, chars_of, is_blank, is_char, owned, spec_trim, strip_trailing, trim_end_by};

pub mod prompt;

verus! {

pub const DEFAULT_ENDPOINT: &'static str = "http://localhost:11434";
pub const DEFAULT_VISION_MODEL: &'static str = "qwen2.5vl";
pub const DEFAULT_TIMEOUT_SECONDS: u64 = 120;
/// Pictures are shrunk to at most this many pixels a side before they are sent.
pub const MAX_IMAGE_EDGE: u32 = 1024;
/// The shortest and the longest a request may be given, in seconds.
pub const MIN_TIMEOUT_SECONDS: u64 = 5;
pub const MAX_TIMEOUT_SECONDS: u64 = 3600;

/// The kind of service the model is asked through.
#[derive(Debug, Clone, Copy, PartialEq, Eq, Structural)]
pub enum Api {
    Ollama,
    OpenAi,
}

impl Default for Api {
    fn default() -> (r: Api)
        ensures
            r == Api::Ollama,
    {
        Api::Ollama
    }
}

impl Api {
    /// The name of the kind of service.
    pub fn label(self) -> (r: &'static str)
        ensures
            r@ == match self {
                Api::Ollama => "ollama"@,
                Api::OpenAi => "openai-compatible"@,
            },
    {
        match self {
            Api::Ollama => "ollama",
            Api::OpenAi => "openai-compatible",
        }
    }
}

/// How the vision model is reached.
#[derive(Debug, Clone, PartialEq, Eq)]
pub struct AiConfig {
    pub enabled: bool,
    pub endpoint: String,
    pub api: Api,
    pub vision_model: String,
    pub vision_in_scan: bool,
    pub timeout_seconds: u64,
}

impl Default for AiConfig {
    fn default() -> (r: AiConfig)
        ensures
            !r.enabled,
            r.endpoint@ == DEFAULT_ENDPOINT@,
            r.api == Api::Ollama,
            r.vision_model@ == DEFAULT_VISION_MODEL@,
            !r.vision_in_scan,
            r.timeout_seconds == DEFAULT_TIMEOUT_SECONDS,
    {
        AiConfig {
            enabled: false,
            endpoint: owned(DEFAULT_ENDPOINT),
            api: Api::Ollama,
            vision_model: owned(DEFAULT_VISION_MODEL),
            vision_in_scan: false,
            timeout_seconds: DEFAULT_TIMEOUT_SECONDS,
        }
    }
}

/// What `Duration::from_secs` gives for `secs`.
pub uninterp spec fn duration_of_secs(secs: u64) -> Duration;

/// Calls `Duration::from_secs`: a span of `secs` whole seconds.
#[verifier::external_body]
fn seconds(secs: u64) -> (d: Duration)
    ensures
        d == duration_of_secs(secs),
{
    Duration::from_secs(secs)
}

/// The configured timeout held between five seconds and an hour.
pub open spec fn clamped_timeout(secs: u64) -> u64 {
    if secs < MIN_TIMEOUT_SECONDS {
        MIN_TIMEOUT_SECONDS
    } else if secs > MAX_TIMEOUT_SECONDS {
        MAX_TIMEOUT_SECONDS
    } else {
        secs
    }
}

impl AiConfig {
    /// The endpoint without the slashes at its end.
    pub fn base(&self) -> (r: &str)
        ensures
            r@ == trim_end_by(self.endpoint@, is_char('/')),
    {
        let v = chars_of(self.endpoint.as_str());
        let t = strip_trailing(&v, '/');
        proof {
            crate::text::lemma_trim_end_by(v@, is_char('/'));
        }
        self.endpoint.as_str().substring_char(0, t.len())
    }

    /// How many seconds a request may take: the configured time, held between five
    /// seconds and an hour.
    pub fn timeout_secs(&self) -> (r: u64)
        ensures
            r == clamped_timeout(self.timeout_seconds),
    {
        if self.timeout_seconds < MIN_TIMEOUT_SECONDS {
            MIN_TIMEOUT_SECONDS
        } else if self.timeout_seconds > MAX_TIMEOUT_SECONDS {
            MAX_TIMEOUT_SECONDS
        } else {
            self.timeout_seconds
        }
    }

    /// How long a request may take.
    pub fn timeout(&self) -> (d: Duration)
        ensures
            d == duration_of_secs(clamped_timeout(self.timeout_seconds)),
    {
        seconds(self.timeout_secs())
    }

    /// Whether the model can be asked: it is switched on and has an address.
    pub fn usable(&self) -> (b: bool)
        ensures
            b == (self.enabled && spec_trim(self.endpoint@).len() > 0),
    {
        if !self.enabled {
            return false;
        }
        let v = chars_of(self.endpoint.as_str());
        let t = crate::text::trim(&v);
        t.len() > 0
    }
}

/// A handle on the vision model, made from its configuration.
pub struct Client {
    config: AiConfig,
}

impl Client {
    /// The configuration the client was made with.
    pub closed spec fn config_view(&self) -> AiConfig {
        self.config
    }

    /// A client for the model that `config` describes.
    pub fn new(config: AiConfig) -> (c: Client)
        ensures
            c.config_view() == config,
    {
        Client { config }
    }

    /// The configuration the client was made with.
    pub fn config(&self) -> (r: &AiConfig)
        ensures
            *r == self.config_view(),
    {
        &self.config
    }
}

/// How far fetching a model has come: what the service says it is doing, and how many
/// of how many bytes are in.
#[derive(Debug, Clone, PartialEq, Eq)]
pub struct PullProgress {
    pub status: String,
    pub completed: u64,
    pub total: u64,
}

impl Default for PullProgress {
    fn default() -> (r: PullProgress)
        ensures
            r.status@ == Seq::<char>::empty(),
            r.completed == 0,
            r.total == 0,
    {
        PullProgress { status: String::new(), completed: 0, total: 0 }
    }
}

} // verus!
