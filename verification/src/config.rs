//! Settings: their limits, and how files of earlier versions become settings
//! of today.
use crate::text::{
    ascii_lowercase, bytes_in, byte_len, chars_of, decimal, decimal_string, is_ascii_alphanumeric_char,
    lowercased, parts_of, position_of, same_text, split_parts, text2, texts,
};
use vstd::prelude::*;

verus! {

pub const DEFAULT_MODEL: &'static str = "google/gemini-3.7-flash";

pub const DEFAULT_QUALITY_REVIEW_MODEL: &'static str = "google/gemini-3.7-flash";

pub const DEFAULT_ASR_MODEL: &'static str = "qwen/qwen3-asr-1.7b";

pub const DEFAULT_QUALITY_ASR_MODEL: &'static str = "fish-audio/transcribe-1";

pub const DEFAULT_PROVIDER: &'static str = "google-vertex/global";

pub const DEFAULT_ASR_PROVIDER: &'static str = "deepinfra";

pub const DEFAULT_QUALITY_ASR_PROVIDER: &'static str = "fish-audio";

pub const ANY_PROVIDER: &'static str = "any";

/// The model that earlier versions used where none was chosen.
pub const LEGACY_DEFAULT_MODEL: &'static str = "google/gemini-3.5-flash-lite";

pub const ASR_MAX_CHUNK_SECONDS: u64 = 120;

pub const MAX_CONFIG_BYTES: u64 = 1_048_576;

// ---------------------------------------------------------------------------
// Routes
// ---------------------------------------------------------------------------

/// What is wrong with the name of a model or a provider.
#[derive(Clone, Copy, Debug, PartialEq, Eq, Structural)]
pub enum RouteError {
    Empty,
    TooLong,
    IllegalCharacter,
    IllegalSegment,
    MissingSlash,
}

pub open spec fn is_route_char(c: char) -> bool {
    is_ascii_alphanumeric_char(c) || c == '-' || c == '_' || c == '.' || c == '/' || c == ':' || c
        == '@' || c == '~'
}

pub open spec fn is_route_segment(segment: Seq<char>) -> bool {
    segment.len() > 0 && segment != seq!['.'] && segment != seq!['.', '.']
}

/// What is wrong with a route name, by the first rule that it breaks.
pub open spec fn route_fault(value: Seq<char>) -> Option<RouteError> {
    if value.len() == 0 {
        Some(RouteError::Empty)
    } else if byte_len(value) > 256 {
        Some(RouteError::TooLong)
    } else if exists|i: int| 0 <= i < value.len() && !is_route_char(#[trigger] value[i]) {
        Some(RouteError::IllegalCharacter)
    } else if exists|i: int|
        0 <= i < parts_of(value, '/').len() && !is_route_segment(#[trigger] parts_of(value, '/')[i]) {
        Some(RouteError::IllegalSegment)
    } else {
        None
    }
}

/// What is wrong with the name of a model, which must hold a slash.
pub open spec fn model_fault(value: Seq<char>) -> Option<RouteError> {
    match route_fault(value) {
        Some(fault) => Some(fault),
        None => if position_of(value, '/', 0) == value.len() {
            Some(RouteError::MissingSlash)
        } else {
            None
        },
    }
}

pub open spec fn is_any_provider(value: Seq<char>) -> bool {
    lowercased(value) == "any"@
}

/// What is wrong with the name of a provider; `any` in any case is allowed.
pub open spec fn provider_fault(value: Seq<char>) -> Option<RouteError> {
    if is_any_provider(value) {
        None
    } else {
        route_fault(value)
    }
}

fn route_char(c: char) -> (result: bool)
    ensures
        result == is_route_char(c),
{
    crate::text::ascii_alphanumeric(c) || c == '-' || c == '_' || c == '.' || c == '/' || c == ':'
        || c == '@' || c == '~'
}

fn route_segment(segment: &str) -> (result: bool)
    ensures
        result == is_route_segment(segment@),
{
    let chars = chars_of(segment);
    proof {
        if chars@.len() == 1 && chars@[0] == '.' {
            assert(chars@ =~= seq!['.']);
        }
        if chars@.len() == 2 && chars@[0] == '.' && chars@[1] == '.' {
            assert(chars@ =~= seq!['.', '.']);
        }
        assert(seq!['.'].len() == 1 && seq!['.'][0] == '.');
        assert(seq!['.', '.'].len() == 2 && seq!['.', '.'][0] == '.' && seq!['.', '.'][1] == '.');
    }
    chars.len() > 0 && !(chars.len() == 1 && chars[0] == '.') && !(chars.len() == 2 && chars[0]
        == '.' && chars[1] == '.')
}

fn check_route(value: &str) -> (fault: Option<RouteError>)
    ensures
        fault == route_fault(value@),
{
    if value.is_empty() {
        return Some(RouteError::Empty);
    }
    if bytes_in(value) > 256 {
        return Some(RouteError::TooLong);
    }
    let chars = chars_of(value);
    let mut i: usize = 0;
    while i < chars.len()
        invariant
            i <= chars@.len(),
            chars@ == value@,
            value@.len() > 0,
            byte_len(value@) <= 256,
            forall|k: int| 0 <= k < i ==> is_route_char(#[trigger] chars@[k]),
        decreases chars@.len() - i,
    {
        if !route_char(chars[i]) {
            assert(!is_route_char(value@[i as int]));
            return Some(RouteError::IllegalCharacter);
        }
        i += 1;
    }
    let parts = split_parts(value, '/');
    let mut p: usize = 0;
    while p < parts.len()
        invariant
            p <= parts@.len(),
            texts(parts@) == parts_of(value@, '/'),
            value@.len() > 0,
            byte_len(value@) <= 256,
            forall|k: int| 0 <= k < value@.len() ==> is_route_char(#[trigger] value@[k]),
            forall|k: int| 0 <= k < p ==> is_route_segment(#[trigger] parts_of(value@, '/')[k]),
        decreases parts@.len() - p,
    {
        assert(texts(parts@)[p as int] == parts@[p as int]@);
        if !route_segment(parts[p].as_str()) {
            assert(!is_route_segment(parts_of(value@, '/')[p as int]));
            return Some(RouteError::IllegalSegment);
        }
        p += 1;
    }
    assert(texts(parts@).len() == parts@.len());
    None
}

/// Whether a name stands for any provider.
pub fn names_any_provider(value: &str) -> (result: bool)
    ensures
        result == is_any_provider(value@),
{
    same_text(ascii_lowercase(value).as_str(), "any")
}

pub fn validate_model_id(value: &str) -> (result: Result<(), RouteError>)
    ensures
        match result {
            Ok(_) => model_fault(value@) is None,
            Err(fault) => model_fault(value@) == Some(fault),
        },
{
    match check_route(value) {
        Some(fault) => Err(fault),
        None => {
            let chars = chars_of(value);
            let slash: usize = crate::text::find_char(chars.as_slice(), '/', 0);
            if slash == chars.len() {
                Err(RouteError::MissingSlash)
            } else {
                Ok(())
            }
        },
    }
}

pub fn validate_provider_id(value: &str) -> (result: Result<(), RouteError>)
    ensures
        match result {
            Ok(_) => provider_fault(value@) is None,
            Err(fault) => provider_fault(value@) == Some(fault),
        },
{
    if names_any_provider(value) {
        return Ok(());
    }
    match check_route(value) {
        Some(fault) => Err(fault),
        None => Ok(()),
    }
}

// ---------------------------------------------------------------------------
// Settings
// ---------------------------------------------------------------------------

#[derive(Debug, PartialEq, Eq)]
pub struct Config {
    pub schema_version: u32,
    pub model: String,
    pub quality_review_model: String,
    pub asr_model: String,
    pub quality_asr_model: String,
    pub provider: String,
    pub asr_provider: String,
    pub quality_asr_provider: String,
    pub chunk_seconds: u64,
    pub overlap_seconds: u64,
    pub min_chunk_seconds: u64,
    pub max_output_tokens: u32,
    pub split_output_tokens: u32,
    pub parallel_requests: usize,
    pub retries: u32,
    pub max_adaptive_depth: u8,
    pub max_http_attempts: u32,
    pub max_temp_bytes: u64,
    pub max_speakers: usize,
    pub speaker_reference_seconds: u64,
    pub speaker_reference_silence_seconds: u64,
    pub speaker_context_chars: usize,
    pub max_transcript_bytes: u64,
    pub max_total_turns: u64,
}

/// Settings by their texts and numbers.
pub struct ConfigText {
    pub schema_version: u32,
    pub model: Seq<char>,
    pub quality_review_model: Seq<char>,
    pub asr_model: Seq<char>,
    pub quality_asr_model: Seq<char>,
    pub provider: Seq<char>,
    pub asr_provider: Seq<char>,
    pub quality_asr_provider: Seq<char>,
    pub chunk_seconds: u64,
    pub overlap_seconds: u64,
    pub min_chunk_seconds: u64,
    pub max_output_tokens: u32,
    pub split_output_tokens: u32,
    pub parallel_requests: usize,
    pub retries: u32,
    pub max_adaptive_depth: u8,
    pub max_http_attempts: u32,
    pub max_temp_bytes: u64,
    pub max_speakers: usize,
    pub speaker_reference_seconds: u64,
    pub speaker_reference_silence_seconds: u64,
    pub speaker_context_chars: usize,
    pub max_transcript_bytes: u64,
    pub max_total_turns: u64,
}

impl View for Config {
    type V = ConfigText;

    open spec fn view(&self) -> ConfigText {
        ConfigText {
            schema_version: self.schema_version,
            model: self.model@,
            quality_review_model: self.quality_review_model@,
            asr_model: self.asr_model@,
            quality_asr_model: self.quality_asr_model@,
            provider: self.provider@,
            asr_provider: self.asr_provider@,
            quality_asr_provider: self.quality_asr_provider@,
            chunk_seconds: self.chunk_seconds,
            overlap_seconds: self.overlap_seconds,
            min_chunk_seconds: self.min_chunk_seconds,
            max_output_tokens: self.max_output_tokens,
            split_output_tokens: self.split_output_tokens,
            parallel_requests: self.parallel_requests,
            retries: self.retries,
            max_adaptive_depth: self.max_adaptive_depth,
            max_http_attempts: self.max_http_attempts,
            max_temp_bytes: self.max_temp_bytes,
            max_speakers: self.max_speakers,
            speaker_reference_seconds: self.speaker_reference_seconds,
            speaker_reference_silence_seconds: self.speaker_reference_silence_seconds,
            speaker_context_chars: self.speaker_context_chars,
            max_transcript_bytes: self.max_transcript_bytes,
            max_total_turns: self.max_total_turns,
        }
    }
}

/// The settings where nothing was chosen.
pub open spec fn default_config() -> ConfigText {
    ConfigText {
        schema_version: 4,
        model: DEFAULT_MODEL@,
        quality_review_model: DEFAULT_QUALITY_REVIEW_MODEL@,
        asr_model: DEFAULT_ASR_MODEL@,
        quality_asr_model: DEFAULT_QUALITY_ASR_MODEL@,
        provider: DEFAULT_PROVIDER@,
        asr_provider: DEFAULT_ASR_PROVIDER@,
        quality_asr_provider: DEFAULT_QUALITY_ASR_PROVIDER@,
        chunk_seconds: 900,
        overlap_seconds: 30,
        min_chunk_seconds: 30,
        max_output_tokens: 16_000,
        split_output_tokens: 12_000,
        parallel_requests: 1,
        retries: 5,
        max_adaptive_depth: 4,
        max_http_attempts: 1_000,
        max_temp_bytes: 21_474_836_480,
        max_speakers: 16,
        speaker_reference_seconds: 6,
        speaker_reference_silence_seconds: 1,
        speaker_context_chars: 4_000,
        max_transcript_bytes: 67_108_864,
        max_total_turns: 100_000,
    }
}

impl Default for Config {
    fn default() -> (config: Config)
        ensures
            config@ == default_config(),
    {
        Config {
            schema_version: 4,
            model: DEFAULT_MODEL.to_owned(),
            quality_review_model: DEFAULT_QUALITY_REVIEW_MODEL.to_owned(),
            asr_model: DEFAULT_ASR_MODEL.to_owned(),
            quality_asr_model: DEFAULT_QUALITY_ASR_MODEL.to_owned(),
            provider: DEFAULT_PROVIDER.to_owned(),
            asr_provider: DEFAULT_ASR_PROVIDER.to_owned(),
            quality_asr_provider: DEFAULT_QUALITY_ASR_PROVIDER.to_owned(),
            chunk_seconds: 900,
            overlap_seconds: 30,
            min_chunk_seconds: 30,
            max_output_tokens: 16_000,
            split_output_tokens: 12_000,
            parallel_requests: 1,
            retries: 5,
            max_adaptive_depth: 4,
            max_http_attempts: 1_000,
            max_temp_bytes: 21_474_836_480,
            max_speakers: 16,
            speaker_reference_seconds: 6,
            speaker_reference_silence_seconds: 1,
            speaker_context_chars: 4_000,
            max_transcript_bytes: 67_108_864,
            max_total_turns: 100_000,
        }
    }
}

impl Clone for Config {
    fn clone(&self) -> (copy: Config)
        ensures
            copy@ == self@,
    {
        Config {
            schema_version: self.schema_version,
            model: self.model.clone(),
            quality_review_model: self.quality_review_model.clone(),
            asr_model: self.asr_model.clone(),
            quality_asr_model: self.quality_asr_model.clone(),
            provider: self.provider.clone(),
            asr_provider: self.asr_provider.clone(),
            quality_asr_provider: self.quality_asr_provider.clone(),
            chunk_seconds: self.chunk_seconds,
            overlap_seconds: self.overlap_seconds,
            min_chunk_seconds: self.min_chunk_seconds,
            max_output_tokens: self.max_output_tokens,
            split_output_tokens: self.split_output_tokens,
            parallel_requests: self.parallel_requests,
            retries: self.retries,
            max_adaptive_depth: self.max_adaptive_depth,
            max_http_attempts: self.max_http_attempts,
            max_temp_bytes: self.max_temp_bytes,
            max_speakers: self.max_speakers,
            speaker_reference_seconds: self.speaker_reference_seconds,
            speaker_reference_silence_seconds: self.speaker_reference_silence_seconds,
            speaker_context_chars: self.speaker_context_chars,
            max_transcript_bytes: self.max_transcript_bytes,
            max_total_turns: self.max_total_turns,
        }
    }
}

/// Which of the seven route names of the settings.
#[derive(Clone, Copy, Debug, PartialEq, Eq, Structural)]
pub enum RouteField {
    Model,
    QualityReviewModel,
    AsrModel,
    QualityAsrModel,
    Provider,
    AsrProvider,
    QualityAsrProvider,
}

/// Why settings, or a file of settings, cannot be used.
#[derive(Clone, Copy, Debug, PartialEq, Eq, Structural)]
pub enum ConfigError {
    UnsupportedSchema(u32),
    Route(RouteField, RouteError),
    ChunkSeconds,
    OverlapSeconds,
    MinChunkSeconds,
    MinChunkNotBelowChunk,
    MinChunkNotHalf,
    MaxOutputTokens,
    SplitOutputTokens,
    ParallelRequests,
    Retries,
    MaxAdaptiveDepth,
    MaxHttpAttempts,
    MaxTempBytes,
    MaxSpeakers,
    SpeakerReferenceSeconds,
    SpeakerReferenceSilenceSeconds,
    SpeakerContextChars,
    MaxTranscriptBytes,
    MaxTotalTurns,
    /// The file is no table of settings.
    MalformedFile,
    /// The version is no whole number that fits.
    MalformedVersion,
    /// A field of a file of the given version is unknown, or of another type.
    MalformedFields(u32),
    /// There is no version of this number.
    UnknownVersion(u32),
    /// The settings cannot be written.
    Unwritable,
}

impl ConfigText {
    /// What is wrong with the route names, by the first that is wrong.
    pub open spec fn routes_fault(self) -> Option<ConfigError> {
        if model_fault(self.model) is Some {
            Some(ConfigError::Route(RouteField::Model, model_fault(self.model)->0))
        } else if model_fault(self.quality_review_model) is Some {
            Some(
                ConfigError::Route(
                    RouteField::QualityReviewModel,
                    model_fault(self.quality_review_model)->0,
                ),
            )
        } else if model_fault(self.asr_model) is Some {
            Some(ConfigError::Route(RouteField::AsrModel, model_fault(self.asr_model)->0))
        } else if model_fault(self.quality_asr_model) is Some {
            Some(
                ConfigError::Route(
                    RouteField::QualityAsrModel,
                    model_fault(self.quality_asr_model)->0,
                ),
            )
        } else if provider_fault(self.provider) is Some {
            Some(ConfigError::Route(RouteField::Provider, provider_fault(self.provider)->0))
        } else if provider_fault(self.asr_provider) is Some {
            Some(ConfigError::Route(RouteField::AsrProvider, provider_fault(self.asr_provider)->0))
        } else if provider_fault(self.quality_asr_provider) is Some {
            Some(
                ConfigError::Route(
                    RouteField::QualityAsrProvider,
                    provider_fault(self.quality_asr_provider)->0,
                ),
            )
        } else {
            None
        }
    }

    /// What is wrong with the numbers, by the first that is wrong.
    pub open spec fn numbers_fault(self) -> Option<ConfigError> {
        if !(30 <= self.chunk_seconds <= 900) {
            Some(ConfigError::ChunkSeconds)
        } else if !(5 <= self.overlap_seconds <= 30) || self.overlap_seconds >= self.chunk_seconds {
            Some(ConfigError::OverlapSeconds)
        } else if !(10 <= self.min_chunk_seconds <= 300) {
            Some(ConfigError::MinChunkSeconds)
        } else if self.min_chunk_seconds >= self.chunk_seconds {
            Some(ConfigError::MinChunkNotBelowChunk)
        } else if self.min_chunk_seconds * 2 > self.chunk_seconds {
            Some(ConfigError::MinChunkNotHalf)
        } else if !(256 <= self.max_output_tokens <= 65_536) {
            Some(ConfigError::MaxOutputTokens)
        } else if self.split_output_tokens < 128 || self.split_output_tokens
            >= self.max_output_tokens {
            Some(ConfigError::SplitOutputTokens)
        } else if self.parallel_requests != 1 {
            Some(ConfigError::ParallelRequests)
        } else if !(1 <= self.retries <= 10) {
            Some(ConfigError::Retries)
        } else if !(1 <= self.max_adaptive_depth <= 6) {
            Some(ConfigError::MaxAdaptiveDepth)
        } else if !(1 <= self.max_http_attempts <= 10_000) {
            Some(ConfigError::MaxHttpAttempts)
        } else if !(67_108_864 <= self.max_temp_bytes <= 107_374_182_400) {
            Some(ConfigError::MaxTempBytes)
        } else if !(1 <= self.max_speakers <= 32) {
            Some(ConfigError::MaxSpeakers)
        } else if !(2 <= self.speaker_reference_seconds <= 10) {
            Some(ConfigError::SpeakerReferenceSeconds)
        } else if !(1 <= self.speaker_reference_silence_seconds <= 5) {
            Some(ConfigError::SpeakerReferenceSilenceSeconds)
        } else if !(500 <= self.speaker_context_chars <= 20_000) {
            Some(ConfigError::SpeakerContextChars)
        } else if !(1_048_576 <= self.max_transcript_bytes <= 1_073_741_824) {
            Some(ConfigError::MaxTranscriptBytes)
        } else if !(1_000 <= self.max_total_turns <= 1_000_000) {
            Some(ConfigError::MaxTotalTurns)
        } else {
            None
        }
    }

    /// What is wrong with the settings, by the first rule that they break.
    pub open spec fn fault(self) -> Option<ConfigError> {
        if self.schema_version != 4 {
            Some(ConfigError::UnsupportedSchema(self.schema_version))
        } else if self.routes_fault() is Some {
            self.routes_fault()
        } else {
            self.numbers_fault()
        }
    }

    pub open spec fn valid(self) -> bool {
        self.fault() is None
    }

    pub open spec fn asr_chunk_seconds(self) -> u64 {
        if self.chunk_seconds <= 120 {
            self.chunk_seconds
        } else {
            120
        }
    }

    pub open spec fn asr_min_chunk_seconds(self) -> u64 {
        if self.min_chunk_seconds <= self.asr_chunk_seconds() / 2 {
            self.min_chunk_seconds
        } else {
            self.asr_chunk_seconds() / 2
        }
    }
}

impl Config {
    fn validate_routes(&self) -> (result: Result<(), ConfigError>)
        ensures
            match result {
                Ok(_) => self@.routes_fault() is None,
                Err(fault) => self@.routes_fault() == Some(fault),
            },
    {
        if let Err(fault) = validate_model_id(self.model.as_str()) {
            return Err(ConfigError::Route(RouteField::Model, fault));
        }
        if let Err(fault) = validate_model_id(self.quality_review_model.as_str()) {
            return Err(ConfigError::Route(RouteField::QualityReviewModel, fault));
        }
        if let Err(fault) = validate_model_id(self.asr_model.as_str()) {
            return Err(ConfigError::Route(RouteField::AsrModel, fault));
        }
        if let Err(fault) = validate_model_id(self.quality_asr_model.as_str()) {
            return Err(ConfigError::Route(RouteField::QualityAsrModel, fault));
        }
        if let Err(fault) = validate_provider_id(self.provider.as_str()) {
            return Err(ConfigError::Route(RouteField::Provider, fault));
        }
        if let Err(fault) = validate_provider_id(self.asr_provider.as_str()) {
            return Err(ConfigError::Route(RouteField::AsrProvider, fault));
        }
        if let Err(fault) = validate_provider_id(self.quality_asr_provider.as_str()) {
            return Err(ConfigError::Route(RouteField::QualityAsrProvider, fault));
        }
        Ok(())
    }

    /// Checks the settings against all limits.
    pub fn validate(&self) -> (result: Result<(), ConfigError>)
        ensures
            match result {
                Ok(_) => self@.valid(),
                Err(fault) => self@.fault() == Some(fault),
            },
    {
        if self.schema_version != 4 {
            return Err(ConfigError::UnsupportedSchema(self.schema_version));
        }
        if let Err(fault) = self.validate_routes() {
            return Err(fault);
        }
        if !(30 <= self.chunk_seconds && self.chunk_seconds <= 900) {
            return Err(ConfigError::ChunkSeconds);
        }
        if !(5 <= self.overlap_seconds && self.overlap_seconds <= 30) || self.overlap_seconds
            >= self.chunk_seconds {
            return Err(ConfigError::OverlapSeconds);
        }
        if !(10 <= self.min_chunk_seconds && self.min_chunk_seconds <= 300) {
            return Err(ConfigError::MinChunkSeconds);
        }
        if self.min_chunk_seconds >= self.chunk_seconds {
            return Err(ConfigError::MinChunkNotBelowChunk);
        }
        if self.min_chunk_seconds * 2 > self.chunk_seconds {
            return Err(ConfigError::MinChunkNotHalf);
        }
        if !(256 <= self.max_output_tokens && self.max_output_tokens <= 65_536) {
            return Err(ConfigError::MaxOutputTokens);
        }
        if self.split_output_tokens < 128 || self.split_output_tokens >= self.max_output_tokens {
            return Err(ConfigError::SplitOutputTokens);
        }
        if self.parallel_requests != 1 {
            return Err(ConfigError::ParallelRequests);
        }
        if !(1 <= self.retries && self.retries <= 10) {
            return Err(ConfigError::Retries);
        }
        if !(1 <= self.max_adaptive_depth && self.max_adaptive_depth <= 6) {
            return Err(ConfigError::MaxAdaptiveDepth);
        }
        if !(1 <= self.max_http_attempts && self.max_http_attempts <= 10_000) {
            return Err(ConfigError::MaxHttpAttempts);
        }
        if !(67_108_864 <= self.max_temp_bytes && self.max_temp_bytes <= 107_374_182_400) {
            return Err(ConfigError::MaxTempBytes);
        }
        if !(1 <= self.max_speakers && self.max_speakers <= 32) {
            return Err(ConfigError::MaxSpeakers);
        }
        if !(2 <= self.speaker_reference_seconds && self.speaker_reference_seconds <= 10) {
            return Err(ConfigError::SpeakerReferenceSeconds);
        }
        if !(1 <= self.speaker_reference_silence_seconds && self.speaker_reference_silence_seconds
            <= 5) {
            return Err(ConfigError::SpeakerReferenceSilenceSeconds);
        }
        if !(500 <= self.speaker_context_chars && self.speaker_context_chars <= 20_000) {
            return Err(ConfigError::SpeakerContextChars);
        }
        if !(1_048_576 <= self.max_transcript_bytes && self.max_transcript_bytes
            <= 1_073_741_824) {
            return Err(ConfigError::MaxTranscriptBytes);
        }
        if !(1_000 <= self.max_total_turns && self.max_total_turns <= 1_000_000) {
            return Err(ConfigError::MaxTotalTurns);
        }
        Ok(())
    }

    pub fn uses_any_provider(&self) -> (result: bool)
        ensures
            result == is_any_provider(self.provider@),
    {
        names_any_provider(self.provider.as_str())
    }

    /// The model that reviews the turns of a quality transcript.
    pub fn effective_quality_review_model(&self) -> (model: &str)
        ensures
            model@ == self.quality_review_model@,
    {
        self.quality_review_model.as_str()
    }

    /// The model that recognizes the text a second time.
    pub fn effective_quality_asr_model(&self) -> (model: &str)
        ensures
            model@ == self.quality_asr_model@,
    {
        self.quality_asr_model.as_str()
    }

    pub fn effective_asr_chunk_seconds(&self) -> (seconds: u64)
        ensures
            seconds == self@.asr_chunk_seconds(),
    {
        if self.chunk_seconds <= ASR_MAX_CHUNK_SECONDS {
            self.chunk_seconds
        } else {
            ASR_MAX_CHUNK_SECONDS
        }
    }

    pub fn effective_asr_min_chunk_seconds(&self) -> (seconds: u64)
        ensures
            seconds == self@.asr_min_chunk_seconds(),
    {
        let half: u64 = self.effective_asr_chunk_seconds() / 2;
        if self.min_chunk_seconds <= half {
            self.min_chunk_seconds
        } else {
            half
        }
    }

    pub fn effective_quality_chunk_seconds(&self) -> (seconds: u64)
        ensures
            seconds == self@.asr_chunk_seconds(),
    {
        self.effective_asr_chunk_seconds()
    }

    pub fn effective_quality_min_chunk_seconds(&self) -> (seconds: u64)
        ensures
            seconds == self@.asr_min_chunk_seconds(),
    {
        self.effective_asr_min_chunk_seconds()
    }
}

/// The window that is sent to recognition is at most two minutes long, and
/// twice the least window fits into it.
pub proof fn lemma_asr_window(config: ConfigText)
    requires
        config.valid(),
    ensures
        30 <= config.asr_chunk_seconds() <= 120,
        config.asr_chunk_seconds() <= config.chunk_seconds,
        10 <= config.asr_min_chunk_seconds(),
        2 * config.asr_min_chunk_seconds() <= config.asr_chunk_seconds(),
{
}

// ---------------------------------------------------------------------------
// Files
// ---------------------------------------------------------------------------

/// The settings of the first version of the files.
#[derive(Debug)]
pub struct LegacyConfigV1 {
    pub schema_version: u32,
    pub model: String,
    pub provider: String,
    pub chunk_seconds: u64,
    pub min_chunk_seconds: u64,
    pub max_output_tokens: u32,
    pub split_output_tokens: u32,
    pub parallel_requests: usize,
    pub retries: u32,
    pub max_adaptive_depth: u8,
    pub max_http_attempts: u32,
    pub max_temp_bytes: u64,
}

/// The settings of the first version where nothing was chosen, with today's
/// choice for what that version did not have.
pub open spec fn default_legacy_config() -> ConfigText {
    ConfigText {
        schema_version: 1,
        model: LEGACY_DEFAULT_MODEL@,
        quality_review_model: LEGACY_DEFAULT_MODEL@,
        chunk_seconds: 300,
        max_output_tokens: 6_000,
        split_output_tokens: 5_000,
        parallel_requests: 3,
        ..default_config()
    }
}

impl LegacyConfigV1 {
    /// The settings with today's choice for what the first version did not
    /// have.
    pub open spec fn extended(&self) -> ConfigText {
        ConfigText {
            schema_version: self.schema_version,
            model: self.model@,
            quality_review_model: self.model@,
            provider: self.provider@,
            chunk_seconds: self.chunk_seconds,
            min_chunk_seconds: self.min_chunk_seconds,
            max_output_tokens: self.max_output_tokens,
            split_output_tokens: self.split_output_tokens,
            parallel_requests: self.parallel_requests,
            retries: self.retries,
            max_adaptive_depth: self.max_adaptive_depth,
            max_http_attempts: self.max_http_attempts,
            max_temp_bytes: self.max_temp_bytes,
            ..default_config()
        }
    }
}

impl Default for LegacyConfigV1 {
    fn default() -> (config: LegacyConfigV1)
        ensures
            config.extended() == default_legacy_config(),
    {
        LegacyConfigV1 {
            schema_version: 1,
            model: LEGACY_DEFAULT_MODEL.to_owned(),
            provider: DEFAULT_PROVIDER.to_owned(),
            chunk_seconds: 300,
            min_chunk_seconds: 30,
            max_output_tokens: 6_000,
            split_output_tokens: 5_000,
            parallel_requests: 3,
            retries: 5,
            max_adaptive_depth: 4,
            max_http_attempts: 1_000,
            max_temp_bytes: 21_474_836_480,
        }
    }
}

impl Config {
    /// Settings of the first version with today's choice for what it did not
    /// have.
    pub fn from_legacy(legacy: LegacyConfigV1) -> (config: Config)
        ensures
            config@ == legacy.extended(),
    {
        let defaults = Config::default();
        Config {
            schema_version: legacy.schema_version,
            quality_review_model: legacy.model.clone(),
            model: legacy.model,
            asr_model: defaults.asr_model,
            quality_asr_model: defaults.quality_asr_model,
            provider: legacy.provider,
            asr_provider: defaults.asr_provider,
            quality_asr_provider: defaults.quality_asr_provider,
            chunk_seconds: legacy.chunk_seconds,
            overlap_seconds: defaults.overlap_seconds,
            min_chunk_seconds: legacy.min_chunk_seconds,
            max_output_tokens: legacy.max_output_tokens,
            split_output_tokens: legacy.split_output_tokens,
            parallel_requests: legacy.parallel_requests,
            retries: legacy.retries,
            max_adaptive_depth: legacy.max_adaptive_depth,
            max_http_attempts: legacy.max_http_attempts,
            max_temp_bytes: legacy.max_temp_bytes,
            max_speakers: defaults.max_speakers,
            speaker_reference_seconds: defaults.speaker_reference_seconds,
            speaker_reference_silence_seconds: defaults.speaker_reference_silence_seconds,
            speaker_context_chars: defaults.speaker_context_chars,
            max_transcript_bytes: defaults.max_transcript_bytes,
            max_total_turns: defaults.max_total_turns,
        }
    }
}

pub open spec fn least_of(a: int, b: int) -> int {
    if a <= b {
        a
    } else {
        b
    }
}

pub open spec fn greatest_of(a: int, b: int) -> int {
    if a >= b {
        a
    } else {
        b
    }
}

impl ConfigText {
    /// The settings with the model of today in place of that of earlier
    /// versions.
    pub open spec fn current_model(self) -> Seq<char> {
        if self.model == LEGACY_DEFAULT_MODEL@ {
            DEFAULT_MODEL@
        } else {
            self.model
        }
    }

    /// What becomes of settings of the first version.
    pub open spec fn migrated_v1(self) -> ConfigText {
        let chunk = if self.chunk_seconds == 300 {
            900
        } else {
            least_of(self.chunk_seconds as int, 900)
        };
        let overlap = least_of(
            least_of(30, greatest_of(chunk / 6, 5)),
            greatest_of(chunk - 1, 0),
        );
        let minimum = least_of(greatest_of(self.min_chunk_seconds as int, 10), 300);
        let old_tokens = self.max_output_tokens == 6_000 && self.split_output_tokens == 5_000;
        ConfigText {
            schema_version: 4,
            model: self.current_model(),
            quality_review_model: self.current_model(),
            chunk_seconds: chunk as u64,
            overlap_seconds: overlap as u64,
            min_chunk_seconds: if minimum * 2 > chunk {
                (chunk / 2) as u64
            } else {
                minimum as u64
            },
            max_output_tokens: if old_tokens {
                16_000
            } else {
                self.max_output_tokens
            },
            split_output_tokens: if old_tokens {
                12_000
            } else {
                self.split_output_tokens
            },
            parallel_requests: 1,
            ..self
        }
    }

    /// The routes of today for recognition, which earlier versions did not
    /// have.
    pub open spec fn with_default_asr(self) -> ConfigText {
        ConfigText {
            schema_version: 4,
            asr_model: DEFAULT_ASR_MODEL@,
            quality_asr_model: DEFAULT_QUALITY_ASR_MODEL@,
            asr_provider: DEFAULT_ASR_PROVIDER@,
            quality_asr_provider: DEFAULT_QUALITY_ASR_PROVIDER@,
            ..self
        }
    }

    /// What becomes of the overlap of settings of the second version.
    pub open spec fn with_bounded_overlap(self) -> ConfigText {
        let maximum = least_of(30, greatest_of(self.chunk_seconds - 1, 0));
        if self.overlap_seconds > maximum && maximum >= 5 {
            ConfigText { overlap_seconds: maximum as u64, ..self }
        } else {
            self
        }
    }

    /// What becomes of settings of the second version.
    pub open spec fn migrated_v2(self) -> ConfigText {
        ConfigText {
            model: self.current_model(),
            quality_review_model: self.current_model(),
            ..self.with_default_asr()
        }.with_bounded_overlap()
    }

    /// What becomes of settings of the third version.
    pub open spec fn migrated_v3(self) -> ConfigText {
        ConfigText {
            model: if self.model == LEGACY_DEFAULT_MODEL@ && self.quality_review_model
                == DEFAULT_QUALITY_REVIEW_MODEL@ {
                DEFAULT_MODEL@
            } else {
                self.model
            },
            ..self.with_default_asr()
        }
    }
}

impl Config {
    pub fn migrate_v1(&mut self)
        ensures
            final(self)@ == old(self)@.migrated_v1(),
    {
        self.schema_version = 4;
        if same_text(self.model.as_str(), LEGACY_DEFAULT_MODEL) {
            self.model = DEFAULT_MODEL.to_owned();
        }
        self.quality_review_model = self.model.clone();
        if self.chunk_seconds == 300 || self.chunk_seconds > 900 {
            self.chunk_seconds = 900;
        }
        let sixth: u64 = self.chunk_seconds / 6;
        let mut overlap: u64 = if sixth > 5 {
            sixth
        } else {
            5
        };
        if overlap > 30 {
            overlap = 30;
        }
        let below: u64 = if self.chunk_seconds > 0 {
            self.chunk_seconds - 1
        } else {
            0
        };
        if overlap > below {
            overlap = below;
        }
        self.overlap_seconds = overlap;
        if self.min_chunk_seconds < 10 {
            self.min_chunk_seconds = 10;
        }
        if self.min_chunk_seconds > 300 {
            self.min_chunk_seconds = 300;
        }
        if self.min_chunk_seconds * 2 > self.chunk_seconds {
            self.min_chunk_seconds = self.chunk_seconds / 2;
        }
        if self.max_output_tokens == 6_000 && self.split_output_tokens == 5_000 {
            self.max_output_tokens = 16_000;
            self.split_output_tokens = 12_000;
        }
        self.parallel_requests = 1;
    }

    fn use_default_asr(&mut self)
        ensures
            final(self)@ == old(self)@.with_default_asr(),
    {
        self.schema_version = 4;
        self.asr_model = DEFAULT_ASR_MODEL.to_owned();
        self.quality_asr_model = DEFAULT_QUALITY_ASR_MODEL.to_owned();
        self.asr_provider = DEFAULT_ASR_PROVIDER.to_owned();
        self.quality_asr_provider = DEFAULT_QUALITY_ASR_PROVIDER.to_owned();
    }

    pub fn normalize_v2_overlap_bound(&mut self)
        ensures
            final(self)@ == old(self)@.with_bounded_overlap(),
    {
        let below: u64 = if self.chunk_seconds > 0 {
            self.chunk_seconds - 1
        } else {
            0
        };
        let maximum: u64 = if below < 30 {
            below
        } else {
            30
        };
        if self.overlap_seconds > maximum && maximum >= 5 {
            self.overlap_seconds = maximum;
        }
    }

    fn migrate_v2(&mut self)
        ensures
            final(self)@ == old(self)@.migrated_v2(),
    {
        self.use_default_asr();
        if same_text(self.model.as_str(), LEGACY_DEFAULT_MODEL) {
            self.model = DEFAULT_MODEL.to_owned();
        }
        self.quality_review_model = self.model.clone();
        self.normalize_v2_overlap_bound();
    }

    fn migrate_v3(&mut self)
        ensures
            final(self)@ == old(self)@.migrated_v3(),
    {
        self.use_default_asr();
        if same_text(self.model.as_str(), LEGACY_DEFAULT_MODEL) && same_text(
            self.quality_review_model.as_str(),
            DEFAULT_QUALITY_REVIEW_MODEL,
        ) {
            self.model = DEFAULT_MODEL.to_owned();
        }
    }
}

/// A field of a file: its name, and its text or its number where it has one.
#[derive(Debug)]
pub struct ConfigEntry {
    pub name: String,
    pub text: Option<String>,
    pub number: Option<i64>,
}

/// The name of a field, and its text or its number where it has one.
pub type FieldParts = (Seq<char>, Option<Seq<char>>, Option<int>);

/// The fields of a file in their order.
pub type Fields = Seq<FieldParts>;

impl ConfigEntry {
    pub open spec fn parts(&self) -> FieldParts {
        (
            self.name@,
            match self.text {
                Some(text) => Some(text@),
                None => None,
            },
            match self.number {
                Some(number) => Some(number as int),
                None => None,
            },
        )
    }
}

pub open spec fn entry_parts(entries: Seq<ConfigEntry>) -> Fields {
    Seq::new(entries.len(), |i: int| entries[i].parts())
}

/// The fields of the table that a text in TOML writes: of each its name, and
/// its text or its whole number where it is one; nothing where the text is no
/// TOML.
pub uninterp spec fn toml_entries(raw: Seq<char>) -> Option<
    Seq<(Seq<char>, Option<Seq<char>>, Option<int>)>,
>;

/// `toml::from_str` into a `toml::Table`, whose fields are handed on one by
/// one, with what `Value::as_str` and `Value::as_integer` say of each: a
/// function of the text alone. What an error says of the text is
/// dropped.
#[verifier::external_body]
fn read_toml(raw: &str) -> (entries: Option<Vec<ConfigEntry>>)
    ensures
        match entries {
            Some(entries) => toml_entries(raw@) == Some(entry_parts(entries@)),
            None => toml_entries(raw@) is None,
        },
{
    let table = toml::from_str::<toml::Table>(raw).ok()?;
    let entries = table.into_iter().map(|(name, value)| ConfigEntry {
        name,
        text: value.as_str().map(str::to_owned),
        number: value.as_integer(),
    });
    Some(entries.collect())
}

/// The position of the first field of a name, or the number of fields.
pub open spec fn entry_position(entries: Fields, name: Seq<char>, from: int) -> int
    decreases entries.len() - from,
{
    if from >= entries.len() || entries[from].0 == name {
        from
    } else {
        entry_position(entries, name, from + 1)
    }
}

pub open spec fn has_entry(entries: Fields, name: Seq<char>) -> bool {
    entry_position(entries, name, 0) < entries.len()
}

pub open spec fn entry_of(
    entries: Fields,
    name: Seq<char>,
) -> FieldParts {
    entries[entry_position(entries, name, 0)]
}

/// A field that is a text, or is not there.
pub open spec fn text_typed(entries: Fields, name: Seq<char>) -> bool {
    has_entry(entries, name) ==> entry_of(entries, name).1 is Some
}

/// A field that is a whole number up to a maximum, or is not there.
pub open spec fn number_typed(entries: Fields, name: Seq<char>, maximum: int) -> bool {
    has_entry(entries, name) ==> entry_of(entries, name).2 is Some && 0 <= entry_of(
        entries,
        name,
    ).2->0 <= maximum
}

pub open spec fn text_or(entries: Fields, name: Seq<char>, default: Seq<char>) -> Seq<
    char,
> {
    if has_entry(entries, name) {
        entry_of(entries, name).1->0
    } else {
        default
    }
}

pub open spec fn number_or(entries: Fields, name: Seq<char>, default: int) -> int {
    if has_entry(entries, name) {
        entry_of(entries, name).2->0
    } else {
        default
    }
}

fn find_entry(entries: &Vec<ConfigEntry>, name: &str) -> (position: Option<usize>)
    ensures
        match position {
            Some(i) => i < entries@.len() && i == entry_position(entry_parts(entries@), name@, 0),
            None => !has_entry(entry_parts(entries@), name@),
        },
{
    let mut i: usize = 0;
    while i < entries.len()
        invariant
            i <= entries@.len(),
            entry_position(entry_parts(entries@), name@, i as int) == entry_position(entry_parts(entries@), name@, 0),
        decreases entries@.len() - i,
    {
        assert(entry_parts(entries@)[i as int].0 == entries@[i as int].name@);
        if same_text(entries[i].name.as_str(), name) {
            return Some(i);
        }
        i += 1;
    }
    assert(entry_parts(entries@).len() == entries@.len());
    None
}

/// Sets a text to what the file says; false where the field is no text.
fn read_text(entries: &Vec<ConfigEntry>, name: &str, value: &mut String) -> (typed: bool)
    ensures
        typed == text_typed(entry_parts(entries@), name@),
        typed ==> final(value)@ == text_or(entry_parts(entries@), name@, old(value)@),
{
    match find_entry(entries, name) {
        None => true,
        Some(i) => match &entries[i].text {
            Some(text) => {
                *value = text.clone();
                true
            },
            None => false,
        },
    }
}

/// The number that the file says, or the given one; nothing where the field
/// is no whole number up to the maximum.
fn read_number(entries: &Vec<ConfigEntry>, name: &str, maximum: u64, default: u64) -> (value: Option<
    u64,
>)
    requires
        default <= maximum,
    ensures
        match value {
            Some(number) => number_typed(entry_parts(entries@), name@, maximum as int)
                && number == number_or(
                entry_parts(entries@),
                name@,
                default as int,
            ) && number <= maximum,
            None => !number_typed(entry_parts(entries@), name@, maximum as int),
        },
{
    match find_entry(entries, name) {
        None => Some(default),
        Some(i) => match entries[i].number {
            Some(number) => if number >= 0 && number as u64 <= maximum {
                Some(number as u64)
            } else {
                None
            },
            None => None,
        },
    }
}

pub open spec fn is_config_field(name: Seq<char>) -> bool {
    name == "schema_version"@
        || name == "model"@
        || name == "quality_review_model"@
        || name == "asr_model"@
        || name == "quality_asr_model"@
        || name == "provider"@
        || name == "asr_provider"@
        || name == "quality_asr_provider"@
        || name == "chunk_seconds"@
        || name == "overlap_seconds"@
        || name == "min_chunk_seconds"@
        || name == "max_output_tokens"@
        || name == "split_output_tokens"@
        || name == "parallel_requests"@
        || name == "retries"@
        || name == "max_adaptive_depth"@
        || name == "max_http_attempts"@
        || name == "max_temp_bytes"@
        || name == "max_speakers"@
        || name == "speaker_reference_seconds"@
        || name == "speaker_reference_silence_seconds"@
        || name == "speaker_context_chars"@
        || name == "max_transcript_bytes"@
        || name == "max_total_turns"@
}

fn config_field(name: &str) -> (result: bool)
    ensures
        result == is_config_field(name@),
{
    same_text(name, "schema_version")
        || same_text(name, "model")
        || same_text(name, "quality_review_model")
        || same_text(name, "asr_model")
        || same_text(name, "quality_asr_model")
        || same_text(name, "provider")
        || same_text(name, "asr_provider")
        || same_text(name, "quality_asr_provider")
        || same_text(name, "chunk_seconds")
        || same_text(name, "overlap_seconds")
        || same_text(name, "min_chunk_seconds")
        || same_text(name, "max_output_tokens")
        || same_text(name, "split_output_tokens")
        || same_text(name, "parallel_requests")
        || same_text(name, "retries")
        || same_text(name, "max_adaptive_depth")
        || same_text(name, "max_http_attempts")
        || same_text(name, "max_temp_bytes")
        || same_text(name, "max_speakers")
        || same_text(name, "speaker_reference_seconds")
        || same_text(name, "speaker_reference_silence_seconds")
        || same_text(name, "speaker_context_chars")
        || same_text(name, "max_transcript_bytes")
        || same_text(name, "max_total_turns")
}

pub open spec fn is_legacy_field(name: Seq<char>) -> bool {
    name == "schema_version"@
        || name == "model"@
        || name == "provider"@
        || name == "chunk_seconds"@
        || name == "min_chunk_seconds"@
        || name == "max_output_tokens"@
        || name == "split_output_tokens"@
        || name == "parallel_requests"@
        || name == "retries"@
        || name == "max_adaptive_depth"@
        || name == "max_http_attempts"@
        || name == "max_temp_bytes"@
}

fn legacy_field(name: &str) -> (result: bool)
    ensures
        result == is_legacy_field(name@),
{
    same_text(name, "schema_version")
        || same_text(name, "model")
        || same_text(name, "provider")
        || same_text(name, "chunk_seconds")
        || same_text(name, "min_chunk_seconds")
        || same_text(name, "max_output_tokens")
        || same_text(name, "split_output_tokens")
        || same_text(name, "parallel_requests")
        || same_text(name, "retries")
        || same_text(name, "max_adaptive_depth")
        || same_text(name, "max_http_attempts")
        || same_text(name, "max_temp_bytes")
}

/// Every field has one of the names that files of the version have.
pub open spec fn fields_known(entries: Fields, legacy: bool) -> bool {
    forall|i: int|
        0 <= i < entries.len() ==> if legacy {
            is_legacy_field(#[trigger] entries[i].0)
        } else {
            is_config_field(entries[i].0)
        }
}

fn check_fields(entries: &Vec<ConfigEntry>, legacy: bool) -> (known: bool)
    ensures
        known == fields_known(entry_parts(entries@), legacy),
{
    let mut i: usize = 0;
    while i < entries.len()
        invariant
            i <= entries@.len(),
            forall|k: int|
                0 <= k < i ==> if legacy {
                    is_legacy_field(#[trigger] entries@[k].name@)
                } else {
                    is_config_field(entries@[k].name@)
                },
        decreases entries@.len() - i,
    {
        let known: bool = if legacy {
            legacy_field(entries[i].name.as_str())
        } else {
            config_field(entries[i].name.as_str())
        };
        if !known {
            proof {
                let name = entry_parts(entries@)[i as int].0;
                assert(name == entries@[i as int].name@);
                assert(!(if legacy {
                    is_legacy_field(name)
                } else {
                    is_config_field(name)
                }));
            }
            return false;
        }
        i += 1;
    }
    true
}

/// Every field of today's files has its type.
pub open spec fn config_typed(entries: Fields) -> bool {
    &&& number_typed(entries, "schema_version"@, u32::MAX as int)
    &&& text_typed(entries, "model"@)
    &&& text_typed(entries, "quality_review_model"@)
    &&& text_typed(entries, "asr_model"@)
    &&& text_typed(entries, "quality_asr_model"@)
    &&& text_typed(entries, "provider"@)
    &&& text_typed(entries, "asr_provider"@)
    &&& text_typed(entries, "quality_asr_provider"@)
    &&& number_typed(entries, "chunk_seconds"@, u64::MAX as int)
    &&& number_typed(entries, "overlap_seconds"@, u64::MAX as int)
    &&& number_typed(entries, "min_chunk_seconds"@, u64::MAX as int)
    &&& number_typed(entries, "max_output_tokens"@, u32::MAX as int)
    &&& number_typed(entries, "split_output_tokens"@, u32::MAX as int)
    &&& number_typed(entries, "parallel_requests"@, usize::MAX as int)
    &&& number_typed(entries, "retries"@, u32::MAX as int)
    &&& number_typed(entries, "max_adaptive_depth"@, u8::MAX as int)
    &&& number_typed(entries, "max_http_attempts"@, u32::MAX as int)
    &&& number_typed(entries, "max_temp_bytes"@, u64::MAX as int)
    &&& number_typed(entries, "max_speakers"@, usize::MAX as int)
    &&& number_typed(entries, "speaker_reference_seconds"@, u64::MAX as int)
    &&& number_typed(entries, "speaker_reference_silence_seconds"@, u64::MAX as int)
    &&& number_typed(entries, "speaker_context_chars"@, usize::MAX as int)
    &&& number_typed(entries, "max_transcript_bytes"@, u64::MAX as int)
    &&& number_typed(entries, "max_total_turns"@, u64::MAX as int)
}

/// The settings that a file of today writes.
pub open spec fn config_of(entries: Fields) -> ConfigText {
    ConfigText {
        schema_version: number_or(entries, "schema_version"@, 4) as u32,
        model: text_or(entries, "model"@, default_config().model),
        quality_review_model: text_or(entries, "quality_review_model"@, default_config().quality_review_model),
        asr_model: text_or(entries, "asr_model"@, default_config().asr_model),
        quality_asr_model: text_or(entries, "quality_asr_model"@, default_config().quality_asr_model),
        provider: text_or(entries, "provider"@, default_config().provider),
        asr_provider: text_or(entries, "asr_provider"@, default_config().asr_provider),
        quality_asr_provider: text_or(entries, "quality_asr_provider"@, default_config().quality_asr_provider),
        chunk_seconds: number_or(
            entries,
            "chunk_seconds"@,
            default_config().chunk_seconds as int,
        ) as u64,
        overlap_seconds: number_or(
            entries,
            "overlap_seconds"@,
            default_config().overlap_seconds as int,
        ) as u64,
        min_chunk_seconds: number_or(
            entries,
            "min_chunk_seconds"@,
            default_config().min_chunk_seconds as int,
        ) as u64,
        max_output_tokens: number_or(
            entries,
            "max_output_tokens"@,
            default_config().max_output_tokens as int,
        ) as u32,
        split_output_tokens: number_or(
            entries,
            "split_output_tokens"@,
            default_config().split_output_tokens as int,
        ) as u32,
        parallel_requests: number_or(
            entries,
            "parallel_requests"@,
            default_config().parallel_requests as int,
        ) as usize,
        retries: number_or(entries, "retries"@, default_config().retries as int) as u32,
        max_adaptive_depth: number_or(
            entries,
            "max_adaptive_depth"@,
            default_config().max_adaptive_depth as int,
        ) as u8,
        max_http_attempts: number_or(
            entries,
            "max_http_attempts"@,
            default_config().max_http_attempts as int,
        ) as u32,
        max_temp_bytes: number_or(
            entries,
            "max_temp_bytes"@,
            default_config().max_temp_bytes as int,
        ) as u64,
        max_speakers: number_or(
            entries,
            "max_speakers"@,
            default_config().max_speakers as int,
        ) as usize,
        speaker_reference_seconds: number_or(
            entries,
            "speaker_reference_seconds"@,
            default_config().speaker_reference_seconds as int,
        ) as u64,
        speaker_reference_silence_seconds: number_or(
            entries,
            "speaker_reference_silence_seconds"@,
            default_config().speaker_reference_silence_seconds as int,
        ) as u64,
        speaker_context_chars: number_or(
            entries,
            "speaker_context_chars"@,
            default_config().speaker_context_chars as int,
        ) as usize,
        max_transcript_bytes: number_or(
            entries,
            "max_transcript_bytes"@,
            default_config().max_transcript_bytes as int,
        ) as u64,
        max_total_turns: number_or(
            entries,
            "max_total_turns"@,
            default_config().max_total_turns as int,
        ) as u64,
    }
}

/// Every field of the first version's files has its type.
pub open spec fn legacy_typed(entries: Fields) -> bool {
    &&& number_typed(entries, "schema_version"@, u32::MAX as int)
    &&& text_typed(entries, "model"@)
    &&& text_typed(entries, "provider"@)
    &&& number_typed(entries, "chunk_seconds"@, u64::MAX as int)
    &&& number_typed(entries, "min_chunk_seconds"@, u64::MAX as int)
    &&& number_typed(entries, "max_output_tokens"@, u32::MAX as int)
    &&& number_typed(entries, "split_output_tokens"@, u32::MAX as int)
    &&& number_typed(entries, "parallel_requests"@, usize::MAX as int)
    &&& number_typed(entries, "retries"@, u32::MAX as int)
    &&& number_typed(entries, "max_adaptive_depth"@, u8::MAX as int)
    &&& number_typed(entries, "max_http_attempts"@, u32::MAX as int)
    &&& number_typed(entries, "max_temp_bytes"@, u64::MAX as int)
}

/// The settings that a file of the first version writes, with today's choice
/// for what that version did not have.
pub open spec fn legacy_of(entries: Fields) -> ConfigText {
    ConfigText {
        schema_version: number_or(entries, "schema_version"@, 1) as u32,
        model: text_or(entries, "model"@, LEGACY_DEFAULT_MODEL@),
        quality_review_model: text_or(entries, "model"@, LEGACY_DEFAULT_MODEL@),
        provider: text_or(entries, "provider"@, DEFAULT_PROVIDER@),
        chunk_seconds: number_or(
            entries,
            "chunk_seconds"@,
            default_legacy_config().chunk_seconds as int,
        ) as u64,
        min_chunk_seconds: number_or(
            entries,
            "min_chunk_seconds"@,
            default_legacy_config().min_chunk_seconds as int,
        ) as u64,
        max_output_tokens: number_or(
            entries,
            "max_output_tokens"@,
            default_legacy_config().max_output_tokens as int,
        ) as u32,
        split_output_tokens: number_or(
            entries,
            "split_output_tokens"@,
            default_legacy_config().split_output_tokens as int,
        ) as u32,
        parallel_requests: number_or(
            entries,
            "parallel_requests"@,
            default_legacy_config().parallel_requests as int,
        ) as usize,
        retries: number_or(entries, "retries"@, default_legacy_config().retries as int) as u32,
        max_adaptive_depth: number_or(
            entries,
            "max_adaptive_depth"@,
            default_legacy_config().max_adaptive_depth as int,
        ) as u8,
        max_http_attempts: number_or(
            entries,
            "max_http_attempts"@,
            default_legacy_config().max_http_attempts as int,
        ) as u32,
        max_temp_bytes: number_or(
            entries,
            "max_temp_bytes"@,
            default_legacy_config().max_temp_bytes as int,
        ) as u64,
        ..default_config()
    }
}

fn read_config(entries: &Vec<ConfigEntry>) -> (config: Option<Config>)
    ensures
        match config {
            Some(config) => config_typed(entry_parts(entries@))
                && config@ == config_of(entry_parts(entries@)),
            None => !config_typed(entry_parts(entries@)),
        },
{
    let mut config = Config::default();
    if !read_text(entries, "model", &mut config.model) {
        return None;
    }
    if !read_text(entries, "quality_review_model", &mut config.quality_review_model) {
        return None;
    }
    if !read_text(entries, "asr_model", &mut config.asr_model) {
        return None;
    }
    if !read_text(entries, "quality_asr_model", &mut config.quality_asr_model) {
        return None;
    }
    if !read_text(entries, "provider", &mut config.provider) {
        return None;
    }
    if !read_text(entries, "asr_provider", &mut config.asr_provider) {
        return None;
    }
    if !read_text(entries, "quality_asr_provider", &mut config.quality_asr_provider) {
        return None;
    }
    match read_number(entries, "schema_version", u32::MAX as u64, config.schema_version as u64) {
        Some(number) => {
            config.schema_version = number as u32;
        },
        None => {
            return None;
        },
    }
    match read_number(entries, "chunk_seconds", u64::MAX as u64, config.chunk_seconds as u64) {
        Some(number) => {
            config.chunk_seconds = number as u64;
        },
        None => {
            return None;
        },
    }
    match read_number(entries, "overlap_seconds", u64::MAX as u64, config.overlap_seconds as u64) {
        Some(number) => {
            config.overlap_seconds = number as u64;
        },
        None => {
            return None;
        },
    }
    match read_number(entries, "min_chunk_seconds", u64::MAX as u64, config.min_chunk_seconds as u64) {
        Some(number) => {
            config.min_chunk_seconds = number as u64;
        },
        None => {
            return None;
        },
    }
    match read_number(entries, "max_output_tokens", u32::MAX as u64, config.max_output_tokens as u64) {
        Some(number) => {
            config.max_output_tokens = number as u32;
        },
        None => {
            return None;
        },
    }
    match read_number(
        entries,
        "split_output_tokens",
        u32::MAX as u64,
        config.split_output_tokens as u64,
    ) {
        Some(number) => {
            config.split_output_tokens = number as u32;
        },
        None => {
            return None;
        },
    }
    match read_number(
        entries,
        "parallel_requests",
        usize::MAX as u64,
        config.parallel_requests as u64,
    ) {
        Some(number) => {
            config.parallel_requests = number as usize;
        },
        None => {
            return None;
        },
    }
    match read_number(entries, "retries", u32::MAX as u64, config.retries as u64) {
        Some(number) => {
            config.retries = number as u32;
        },
        None => {
            return None;
        },
    }
    match read_number(entries, "max_adaptive_depth", u8::MAX as u64, config.max_adaptive_depth as u64) {
        Some(number) => {
            config.max_adaptive_depth = number as u8;
        },
        None => {
            return None;
        },
    }
    match read_number(entries, "max_http_attempts", u32::MAX as u64, config.max_http_attempts as u64) {
        Some(number) => {
            config.max_http_attempts = number as u32;
        },
        None => {
            return None;
        },
    }
    match read_number(entries, "max_temp_bytes", u64::MAX as u64, config.max_temp_bytes as u64) {
        Some(number) => {
            config.max_temp_bytes = number as u64;
        },
        None => {
            return None;
        },
    }
    match read_number(entries, "max_speakers", usize::MAX as u64, config.max_speakers as u64) {
        Some(number) => {
            config.max_speakers = number as usize;
        },
        None => {
            return None;
        },
    }
    match read_number(
        entries,
        "speaker_reference_seconds",
        u64::MAX as u64,
        config.speaker_reference_seconds as u64,
    ) {
        Some(number) => {
            config.speaker_reference_seconds = number as u64;
        },
        None => {
            return None;
        },
    }
    match read_number(
        entries,
        "speaker_reference_silence_seconds",
        u64::MAX as u64,
        config.speaker_reference_silence_seconds as u64,
    ) {
        Some(number) => {
            config.speaker_reference_silence_seconds = number as u64;
        },
        None => {
            return None;
        },
    }
    match read_number(
        entries,
        "speaker_context_chars",
        usize::MAX as u64,
        config.speaker_context_chars as u64,
    ) {
        Some(number) => {
            config.speaker_context_chars = number as usize;
        },
        None => {
            return None;
        },
    }
    match read_number(
        entries,
        "max_transcript_bytes",
        u64::MAX as u64,
        config.max_transcript_bytes as u64,
    ) {
        Some(number) => {
            config.max_transcript_bytes = number as u64;
        },
        None => {
            return None;
        },
    }
    match read_number(entries, "max_total_turns", u64::MAX as u64, config.max_total_turns as u64) {
        Some(number) => {
            config.max_total_turns = number as u64;
        },
        None => {
            return None;
        },
    }
    Some(config)
}

fn read_legacy(entries: &Vec<ConfigEntry>) -> (config: Option<LegacyConfigV1>)
    ensures
        match config {
            Some(config) => legacy_typed(entry_parts(entries@))
                && config.extended() == legacy_of(entry_parts(entries@)),
            None => !legacy_typed(entry_parts(entries@)),
        },
{
    let mut config = LegacyConfigV1::default();
    if !read_text(entries, "model", &mut config.model) {
        return None;
    }
    if !read_text(entries, "provider", &mut config.provider) {
        return None;
    }
    match read_number(entries, "schema_version", u32::MAX as u64, config.schema_version as u64) {
        Some(number) => {
            config.schema_version = number as u32;
        },
        None => {
            return None;
        },
    }
    match read_number(entries, "chunk_seconds", u64::MAX as u64, config.chunk_seconds as u64) {
        Some(number) => {
            config.chunk_seconds = number as u64;
        },
        None => {
            return None;
        },
    }
    match read_number(entries, "min_chunk_seconds", u64::MAX as u64, config.min_chunk_seconds as u64) {
        Some(number) => {
            config.min_chunk_seconds = number as u64;
        },
        None => {
            return None;
        },
    }
    match read_number(entries, "max_output_tokens", u32::MAX as u64, config.max_output_tokens as u64) {
        Some(number) => {
            config.max_output_tokens = number as u32;
        },
        None => {
            return None;
        },
    }
    match read_number(
        entries,
        "split_output_tokens",
        u32::MAX as u64,
        config.split_output_tokens as u64,
    ) {
        Some(number) => {
            config.split_output_tokens = number as u32;
        },
        None => {
            return None;
        },
    }
    match read_number(
        entries,
        "parallel_requests",
        usize::MAX as u64,
        config.parallel_requests as u64,
    ) {
        Some(number) => {
            config.parallel_requests = number as usize;
        },
        None => {
            return None;
        },
    }
    match read_number(entries, "retries", u32::MAX as u64, config.retries as u64) {
        Some(number) => {
            config.retries = number as u32;
        },
        None => {
            return None;
        },
    }
    match read_number(entries, "max_adaptive_depth", u8::MAX as u64, config.max_adaptive_depth as u64) {
        Some(number) => {
            config.max_adaptive_depth = number as u8;
        },
        None => {
            return None;
        },
    }
    match read_number(entries, "max_http_attempts", u32::MAX as u64, config.max_http_attempts as u64) {
        Some(number) => {
            config.max_http_attempts = number as u32;
        },
        None => {
            return None;
        },
    }
    match read_number(entries, "max_temp_bytes", u64::MAX as u64, config.max_temp_bytes as u64) {
        Some(number) => {
            config.max_temp_bytes = number as u64;
        },
        None => {
            return None;
        },
    }
    Some(config)
}

/// The version that a file says it is of; a file that says nothing is of the
/// first.
pub open spec fn file_version(entries: Fields) -> Option<u32> {
    if !has_entry(entries, "schema_version"@) {
        Some(1)
    } else if number_typed(entries, "schema_version"@, u32::MAX as int) {
        Some(entry_of(entries, "schema_version"@).2->0 as u32)
    } else {
        None
    }
}

/// What a file of fields becomes: the settings, and whether they are of an
/// earlier version; or the first reason why they cannot be used.
pub open spec fn decoded(entries: Fields) -> Result<(ConfigText, bool), ConfigError> {
    match file_version(entries) {
        None => Err(ConfigError::MalformedVersion),
        Some(version) => if version == 0 || version > 4 {
            Err(ConfigError::UnknownVersion(version))
        } else if !fields_known(entries, version == 1) || (version == 1 && !legacy_typed(entries))
            || (version != 1 && !config_typed(entries)) {
            Err(ConfigError::MalformedFields(version))
        } else {
            let config = if version == 1 {
                legacy_of(entries).migrated_v1()
            } else if version == 2 {
                config_of(entries).migrated_v2()
            } else if version == 3 {
                config_of(entries).migrated_v3()
            } else {
                config_of(entries)
            };
            match config.fault() {
                Some(fault) => Err(fault),
                None => Ok((config, version != 4)),
            }
        },
    }
}

/// Turns the fields of a file into settings, and says whether they are of an
/// earlier version.
pub fn decode_entries(entries: &Vec<ConfigEntry>) -> (result: Result<(Config, bool), ConfigError>)
    ensures
        match result {
            Ok(pair) => decoded(entry_parts(entries@)) == Ok::<(ConfigText, bool), ConfigError>(
                (pair.0@, pair.1),
            ),
            Err(fault) => decoded(entry_parts(entries@)) == Err::<(ConfigText, bool), ConfigError>(fault),
        },
{
    let version: u32 = match read_number(entries, "schema_version", u32::MAX as u64, 1) {
        Some(number) => number as u32,
        None => {
            return Err(ConfigError::MalformedVersion);
        },
    };
    assert(file_version(entry_parts(entries@)) == Some(version));
    if version == 0 || version > 4 {
        return Err(ConfigError::UnknownVersion(version));
    }
    if !check_fields(entries, version == 1) {
        return Err(ConfigError::MalformedFields(version));
    }
    let mut config = if version == 1 {
        match read_legacy(entries) {
            Some(legacy) => Config::from_legacy(legacy),
            None => {
                return Err(ConfigError::MalformedFields(version));
            },
        }
    } else {
        match read_config(entries) {
            Some(config) => config,
            None => {
                return Err(ConfigError::MalformedFields(version));
            },
        }
    };
    if version == 1 {
        config.migrate_v1();
    } else if version == 2 {
        config.migrate_v2();
    } else if version == 3 {
        config.migrate_v3();
    }
    match config.validate() {
        Ok(_) => Ok((config, version != 4)),
        Err(fault) => Err(fault),
    }
}

/// Reads a file of settings, and says whether it is of an earlier version.
pub fn decode_config(raw: &str) -> (result: Result<(Config, bool), ConfigError>)
    ensures
        match toml_entries(raw@) {
            None => result == Err::<(Config, bool), ConfigError>(ConfigError::MalformedFile),
            Some(entries) => match result {
                Ok(pair) => decoded(entries) == Ok::<(ConfigText, bool), ConfigError>(
                    (pair.0@, pair.1),
                ),
                Err(fault) => decoded(entries) == Err::<(ConfigText, bool), ConfigError>(fault),
            },
        },
{
    match read_toml(raw) {
        None => Err(ConfigError::MalformedFile),
        Some(entries) => decode_entries(&entries),
    }
}

/// Settings that were read from a file are valid, whatever its version.
pub proof fn lemma_decoded_valid(entries: Fields)
    ensures
        decoded(entries) matches Ok((config, _)) ==> config.valid(),
{
}

/// Settings of today's version are taken as they are.
pub proof fn lemma_current_version_unchanged(entries: Fields)
    requires
        file_version(entries) == Some(4u32),
    ensures
        decoded(entries) matches Ok((config, migrated)) ==> config == config_of(entries)
            && !migrated,
{
}

// ---------------------------------------------------------------------------
// Names that are kept back
// ---------------------------------------------------------------------------

/// A name without the dots and spaces at its end.
pub open spec fn without_dots(name: Seq<char>) -> Seq<char>
    decreases name.len(),
{
    if name.len() > 0 && (name.last() == '.' || name.last() == ' ') {
        without_dots(name.drop_last())
    } else {
        name
    }
}

/// Whether a file of settings would have the name of the lock.
pub fn is_reserved_file_name(name: &str) -> (result: bool)
    ensures
        result == (lowercased(without_dots(name@)) == ".config.lock"@),
{
    let chars = chars_of(name);
    let mut to: usize = chars.len();
    assert(chars@.take(chars@.len() as int) == name@);
    while to > 0 && (chars[to - 1] == '.' || chars[to - 1] == ' ')
        invariant
            to <= chars@.len(),
            without_dots(chars@.take(to as int)) == without_dots(name@),
        decreases to,
    {
        assert(chars@.take(to as int).drop_last() == chars@.take(to - 1));
        to -= 1;
    }
    assert(chars@.take(to as int) == chars@.subrange(0, to as int));
    let bare = crate::text::string_of_range(chars.as_slice(), 0, to);
    same_text(ascii_lowercase(bare.as_str()).as_str(), ".config.lock")
}

// ---------------------------------------------------------------------------
// The defaults are valid
// ---------------------------------------------------------------------------

/// The first `n` characters are allowed in a route, and only the one at
/// `slash` is a slash.
spec fn plain_until(value: Seq<char>, n: nat, slash: int) -> bool
    decreases n,
{
    n == 0 || (plain_until(value, (n - 1) as nat, slash) && is_route_char(value[n - 1]) && ((
    value[n - 1] == '/') == (n - 1 == slash)))
}

proof fn lemma_plain_until(value: Seq<char>, n: nat, slash: int)
    requires
        plain_until(value, n, slash),
        n <= value.len(),
    ensures
        forall|k: int|
            0 <= k < n ==> is_route_char(#[trigger] value[k]) && ((value[k] == '/') == (k
                == slash)),
    decreases n,
{
    if n > 0 {
        lemma_plain_until(value, (n - 1) as nat, slash);
    }
}

/// A short name of allowed characters with at most one slash, between parts
/// of three characters or more, is a route; with the slash it is a model.
proof fn lemma_plain_route(value: Seq<char>, slash: int)
    requires
        plain_until(value, value.len(), slash),
        3 <= value.len() <= 64,
        slash == -1 || 3 <= slash <= value.len() - 4,
    ensures
        route_fault(value) is None,
        slash >= 0 ==> model_fault(value) is None,
        provider_fault(value) is None,
{
    lemma_plain_until(value, value.len(), slash);
    assert(vstd::utf8::is_ascii_chars(value)) by {
        assert forall|k: int| 0 <= k < value.len() implies '\0' <= #[trigger] value[k]
            <= '\u{7f}' by {}
    }
    vstd::utf8::is_ascii_chars_encode_utf8(value);
    assert(byte_len(value) == value.len());
    if slash == -1 {
        crate::text::lemma_position_of(value, '/', 0, value.len() as int);
        assert(parts_of(value, '/') == seq![value]);
    } else {
        crate::text::lemma_position_of(value, '/', 0, slash);
        let rest = value.skip(slash + 1);
        assert forall|k: int| 0 <= k < rest.len() implies #[trigger] rest[k] != '/' by {
            assert(rest[k] == value[slash + 1 + k]);
        }
        crate::text::lemma_position_of(rest, '/', 0, rest.len() as int);
        assert(parts_of(rest, '/') == seq![rest]);
        assert(parts_of(value, '/') == seq![value.take(slash)] + seq![rest]);
    }
}

/// The settings where nothing was chosen are valid.
pub proof fn lemma_default_valid()
    ensures
        default_config().valid(),
{
    reveal_with_fuel(plain_until, 24);
    reveal_strlit("google/gemini-3.7-flash");
    reveal_strlit("qwen/qwen3-asr-1.7b");
    reveal_strlit("fish-audio/transcribe-1");
    reveal_strlit("google-vertex/global");
    reveal_strlit("deepinfra");
    reveal_strlit("fish-audio");
    lemma_plain_route("google/gemini-3.7-flash"@, 6);
    lemma_plain_route("qwen/qwen3-asr-1.7b"@, 4);
    lemma_plain_route("fish-audio/transcribe-1"@, 10);
    lemma_plain_route("google-vertex/global"@, 13);
    lemma_plain_route("deepinfra"@, -1);
    lemma_plain_route("fish-audio"@, -1);
}

/// A file that says nothing is of the first version, and becomes the settings
/// where nothing was chosen.
pub proof fn lemma_empty_file()
    ensures
        decoded(Seq::empty()) == Ok::<(ConfigText, bool), ConfigError>((default_config(), true)),
{
    lemma_default_valid();
    let entries = Seq::<FieldParts>::empty();
    assert(legacy_of(entries).migrated_v1() == default_config());
}

/// The settings that the second and the third version wrote where nothing was
/// chosen become today's.
pub proof fn lemma_default_migrations()
    ensures
        default_legacy_config().migrated_v1() == default_config(),
        default_config().migrated_v2() == default_config(),
        default_config().migrated_v3() == default_config(),
{
}

// ---------------------------------------------------------------------------
// Messages
// ---------------------------------------------------------------------------

impl RouteError {
    pub open spec fn text(self) -> Seq<char> {
        match self {
            RouteError::Empty => "不能为空"@,
            RouteError::TooLong => "过长"@,
            RouteError::IllegalCharacter => "包含非法字符"@,
            RouteError::IllegalSegment => "包含非法路径片段"@,
            RouteError::MissingSlash => "必须是 OpenRouter 的 provider/model 形式"@,
        }
    }

    pub fn describe(self) -> (text: &'static str)
        ensures
            text@ == self.text(),
    {
        match self {
            RouteError::Empty => "不能为空",
            RouteError::TooLong => "过长",
            RouteError::IllegalCharacter => "包含非法字符",
            RouteError::IllegalSegment => "包含非法路径片段",
            RouteError::MissingSlash => "必须是 OpenRouter 的 provider/model 形式",
        }
    }

    pub open spec fn model_text(self) -> Seq<char> {
        "模型代号"@ + self.text()
    }

    pub open spec fn provider_text(self) -> Seq<char> {
        "provider 代号"@ + self.text()
    }

    /// The error of the identifier of a model in words.
    pub fn model_message(self) -> (text: String)
        ensures
            text@ == self.model_text(),
    {
        text2("模型代号", self.describe())
    }

    /// The error of the identifier of a provider in words.
    pub fn provider_message(self) -> (text: String)
        ensures
            text@ == self.provider_text(),
    {
        text2("provider 代号", self.describe())
    }
}

impl RouteField {
    pub open spec fn is_provider(self) -> bool {
        self == RouteField::Provider || self == RouteField::AsrProvider || self
            == RouteField::QualityAsrProvider
    }

    pub open spec fn label(self) -> Seq<char> {
        if self.is_provider() {
            "provider 代号"@
        } else {
            "模型代号"@
        }
    }

    pub fn describe(self) -> (text: &'static str)
        ensures
            text@ == self.label(),
    {
        match self {
            RouteField::Provider | RouteField::AsrProvider | RouteField::QualityAsrProvider => {
                "provider 代号"
            },
            _ => "模型代号",
        }
    }
}

impl ConfigError {
    pub open spec fn text(self) -> Seq<char> {
        match self {
            ConfigError::UnsupportedSchema(version) => "不支持的配置 schema_version="@ + decimal(
                version as nat,
            ) + "；当前仅支持 4"@,
            ConfigError::Route(field, fault) => field.label() + fault.text(),
            ConfigError::MalformedFields(version) => "无法解析 v"@ + decimal(version as nat)
                + " 配置（内容已隐藏）"@,
            ConfigError::UnknownVersion(version) => "不支持的配置 schema_version="@ + decimal(
                version as nat,
            ) + "；当前仅支持 1、2、3 和 4"@,
            ConfigError::ChunkSeconds => "SpeakerHarness 的 chunk_seconds 必须在 30 到 900 之间"@,
            ConfigError::OverlapSeconds => "SpeakerHarness 要求 overlap_seconds 在 5 到 30 之间，且小于 chunk_seconds"@,
            ConfigError::MinChunkSeconds => "min_chunk_seconds 必须在 10 到 300 之间"@,
            ConfigError::MinChunkNotBelowChunk => "min_chunk_seconds 必须小于 chunk_seconds"@,
            ConfigError::MinChunkNotHalf => "2 * min_chunk_seconds 必须小于等于 chunk_seconds"@,
            ConfigError::MaxOutputTokens => "max_output_tokens 必须在 256 到 65536 之间"@,
            ConfigError::SplitOutputTokens => "split_output_tokens 必须至少为 128，且小于 max_output_tokens"@,
            ConfigError::ParallelRequests => "SpeakerHarness 要求 parallel_requests=1，以保证全局说话人状态顺序传递"@,
            ConfigError::Retries => "retries 必须在 1 到 10 之间"@,
            ConfigError::MaxAdaptiveDepth => "max_adaptive_depth 必须在 1 到 6 之间"@,
            ConfigError::MaxHttpAttempts => "max_http_attempts 必须在 1 到 10000 之间"@,
            ConfigError::MaxTempBytes => "max_temp_bytes 必须在 64 MiB 到 100 GiB 之间"@,
            ConfigError::MaxSpeakers => "max_speakers 必须在 1 到 32 之间"@,
            ConfigError::SpeakerReferenceSeconds => "speaker_reference_seconds 必须在 2 到 10 之间"@,
            ConfigError::SpeakerReferenceSilenceSeconds => "speaker_reference_silence_seconds 必须在 1 到 5 之间"@,
            ConfigError::SpeakerContextChars => "speaker_context_chars 必须在 500 到 20000 之间"@,
            ConfigError::MaxTranscriptBytes => "max_transcript_bytes 必须在 1 MiB 到 1 GiB 之间"@,
            ConfigError::MaxTotalTurns => "max_total_turns 必须在 1000 到 1000000 之间"@,
            ConfigError::MalformedFile => "无法解析 TOML 配置（内容已隐藏）"@,
            ConfigError::MalformedVersion => "schema_version 必须是非负整数"@,
            ConfigError::Unwritable => "无法序列化配置"@,
        }
    }

    /// The error in words. The words hold nothing of the file but its version.
    pub fn message(self) -> (text: String)
        ensures
            text@ == self.text(),
    {
        match self {
            ConfigError::UnsupportedSchema(version) => {
                let mut text = "不支持的配置 schema_version=".to_owned();
                text.append(decimal_string(version as u64).as_str());
                text.append("；当前仅支持 4");
                text
            },
            ConfigError::Route(field, fault) => {
                let mut text = field.describe().to_owned();
                text.append(fault.describe());
                text
            },
            ConfigError::MalformedFields(version) => {
                let mut text = "无法解析 v".to_owned();
                text.append(decimal_string(version as u64).as_str());
                text.append(" 配置（内容已隐藏）");
                text
            },
            ConfigError::UnknownVersion(version) => {
                let mut text = "不支持的配置 schema_version=".to_owned();
                text.append(decimal_string(version as u64).as_str());
                text.append("；当前仅支持 1、2、3 和 4");
                text
            },
            ConfigError::ChunkSeconds => "SpeakerHarness 的 chunk_seconds 必须在 30 到 900 之间".to_owned(),
            ConfigError::OverlapSeconds => "SpeakerHarness 要求 overlap_seconds 在 5 到 30 之间，且小于 chunk_seconds".to_owned(),
            ConfigError::MinChunkSeconds => "min_chunk_seconds 必须在 10 到 300 之间".to_owned(),
            ConfigError::MinChunkNotBelowChunk => "min_chunk_seconds 必须小于 chunk_seconds".to_owned(),
            ConfigError::MinChunkNotHalf => "2 * min_chunk_seconds 必须小于等于 chunk_seconds".to_owned(),
            ConfigError::MaxOutputTokens => "max_output_tokens 必须在 256 到 65536 之间".to_owned(),
            ConfigError::SplitOutputTokens => "split_output_tokens 必须至少为 128，且小于 max_output_tokens".to_owned(),
            ConfigError::ParallelRequests => "SpeakerHarness 要求 parallel_requests=1，以保证全局说话人状态顺序传递".to_owned(),
            ConfigError::Retries => "retries 必须在 1 到 10 之间".to_owned(),
            ConfigError::MaxAdaptiveDepth => "max_adaptive_depth 必须在 1 到 6 之间".to_owned(),
            ConfigError::MaxHttpAttempts => "max_http_attempts 必须在 1 到 10000 之间".to_owned(),
            ConfigError::MaxTempBytes => "max_temp_bytes 必须在 64 MiB 到 100 GiB 之间".to_owned(),
            ConfigError::MaxSpeakers => "max_speakers 必须在 1 到 32 之间".to_owned(),
            ConfigError::SpeakerReferenceSeconds => "speaker_reference_seconds 必须在 2 到 10 之间".to_owned(),
            ConfigError::SpeakerReferenceSilenceSeconds => "speaker_reference_silence_seconds 必须在 1 到 5 之间".to_owned(),
            ConfigError::SpeakerContextChars => "speaker_context_chars 必须在 500 到 20000 之间".to_owned(),
            ConfigError::MaxTranscriptBytes => "max_transcript_bytes 必须在 1 MiB 到 1 GiB 之间".to_owned(),
            ConfigError::MaxTotalTurns => "max_total_turns 必须在 1000 到 1000000 之间".to_owned(),
            ConfigError::MalformedFile => "无法解析 TOML 配置（内容已隐藏）".to_owned(),
            ConfigError::MalformedVersion => "schema_version 必须是非负整数".to_owned(),
            ConfigError::Unwritable => "无法序列化配置".to_owned(),
        }
    }
}

} // verus!
