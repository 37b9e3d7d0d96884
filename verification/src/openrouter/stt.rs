//! Replies of the speech-to-text interface: their form and their limits.
use vstd::prelude::*;
use crate::asr::{canonical_content, content_of};
use crate::config::{
    is_any_provider, model_fault, names_any_provider, provider_fault, validate_model_id,
    validate_provider_id,
};
use crate::double::{Double, ONE, ONE_MILLION, WEEK_SECONDS};
use crate::openrouter::accounting::{
    bounded_reported_cost, bounded_reported_model, bounded_reported_provider,
    bounded_reported_token, cost_or_zero, cost_reported, is_provider_name, model_name,
    provider_name, token_or_zero, token_reported, valid_reported_cost, valid_reported_model,
    valid_reported_provider, valid_reported_token, Completion, CompletionOrigin, CompletionView,
    RequestLedger, MAX_STT_USAGE_TOKENS,
};
use crate::openrouter::chat::{
    completion_view, keep_completion, ledger_keeps,
};
use crate::openrouter::failure::{
    api_error_text, api_retry_allowed, backoff_seconds, backoff_spec, body_message,
    body_speaks_of_safety, counted_error, extract_error_message, format_api_error,
    format_request_failure, non_retryable_safety_response, request_failure_text, retry_allowed,
    wait_seconds, wait_spec, with_actual_attempt_count, ApiError,
};
use crate::text::{
    as_optional, chars_of, decimal, decimal_string, fault_of, first_fault, is_control_code,
    optional_str, optional_text, same_text, text2, text3, text4, text5,
};

verus! {

pub const MAX_STT_TEXT_CHARS: usize = 8 * 1024 * 1024;

pub const MAX_STT_SEGMENT_TEXT_CHARS: usize = 256 * 1024;

pub const MAX_STT_WORD_CHARS: usize = 4 * 1024;

pub const MAX_STT_METADATA_CHARS: usize = 256;

pub const MAX_STT_SEGMENTS: usize = 100_000;

pub const MAX_STT_WORDS: usize = 500_000;

pub const MAX_STT_SEGMENT_TOKENS: usize = 262_144;

pub const MAX_STT_TOKEN_ID: i64 = 4_294_967_295;

pub const MAX_STT_INDEX: i64 = 100_000_000;

pub const MAX_STT_SPEAKER: i64 = 1_000_000;

/// A part of the recognised text with its times.
#[derive(Clone, Debug, PartialEq, Eq)]
pub struct SttSegment {
    pub id: i64,
    pub start: Double,
    pub end: Double,
    pub text: String,
    pub seek: Option<i64>,
    pub speaker: Option<i64>,
    pub tokens: Vec<i64>,
    pub temperature: Option<Double>,
    pub avg_logprob: Option<Double>,
    pub compression_ratio: Option<Double>,
    pub no_speech_prob: Option<Double>,
}

/// A word with its times.
#[derive(Clone, Debug, PartialEq, Eq)]
pub struct SttWord {
    pub word: String,
    pub start: Double,
    pub end: Double,
    pub speaker: Option<i64>,
}

/// What a reply reports of its use.
#[derive(Clone, Copy, Debug, PartialEq, Eq)]
pub struct SttUsage {
    pub cost: Option<Double>,
    pub input_tokens: Option<u64>,
    pub output_tokens: Option<u64>,
    pub seconds: Option<Double>,
    pub total_tokens: Option<u64>,
}

impl Default for SttUsage {
    fn default() -> (usage: Self)
        ensures
            usage.cost is None && usage.input_tokens is None && usage.output_tokens is None,
            usage.seconds is None && usage.total_tokens is None,
    {
        SttUsage {
            cost: None,
            input_tokens: None,
            output_tokens: None,
            seconds: None,
            total_tokens: None,
        }
    }
}

/// A reply as it came.
#[derive(Debug)]
pub struct SttResponse {
    pub text: Option<String>,
    pub model: Option<String>,
    pub provider: Option<String>,
    pub usage: Option<SttUsage>,
    pub segments: Vec<SttSegment>,
    pub words: Vec<SttWord>,
    pub task: Option<String>,
    pub language: Option<String>,
    pub duration: Option<Double>,
    pub error: Option<ApiError>,
}

/// A reply whose form and limits were checked.
#[derive(Clone, Debug, PartialEq, Eq)]
pub struct SttCompletion {
    pub text: String,
    pub reported_model: Option<String>,
    pub reported_provider: Option<String>,
    pub usage: Option<SttUsage>,
    pub segments: Vec<SttSegment>,
    pub words: Vec<SttWord>,
    pub task: Option<String>,
    pub language: Option<String>,
    pub duration: Option<Double>,
}

// ---------------------------------------------------------------------------
// Limits
// ---------------------------------------------------------------------------

pub open spec fn is_forbidden_control(c: char) -> bool {
    is_control_code(c) && c != '\n' && c != '\r' && c != '\t'
}

pub open spec fn stt_text_fault(label: Seq<char>, text: Seq<char>, maximum: nat) -> Option<
    Seq<char>,
> {
    if text.len() > maximum {
        Some(label + " 超过 "@ + decimal(maximum) + " 字符上限"@)
    } else if exists|k: int| 0 <= k < text.len() && is_forbidden_control(#[trigger] text[k]) {
        Some(label + " 包含非法控制字符"@)
    } else {
        None
    }
}

pub fn validate_bounded_stt_text(label: &str, text: &str, maximum_chars: usize) -> (result: Result<
    (),
    String,
>)
    ensures
        fault_of(result) == stt_text_fault(label@, text@, maximum_chars as nat),
{
    let chars = chars_of(text);
    if chars.len() > maximum_chars {
        let maximum = decimal_string(maximum_chars as u64);
        return Err(text4(label, " 超过 ", maximum.as_str(), " 字符上限"));
    }
    let mut i: usize = 0;
    while i < chars.len()
        invariant
            i <= chars@.len() <= maximum_chars,
            chars@ == text@,
            forall|k: int| 0 <= k < i ==> !is_forbidden_control(#[trigger] text@[k]),
        decreases chars@.len() - i,
    {
        let c: char = chars[i];
        if c.is_control() && c != '\n' && c != '\r' && c != '\t' {
            assert(is_forbidden_control(text@[i as int]));
            return Err(text2(label, " 包含非法控制字符"));
        }
        i += 1;
    }
    Ok(())
}

pub open spec fn stt_count_fault(label: Seq<char>, actual: nat, maximum: nat) -> Option<Seq<char>> {
    if actual > maximum {
        Some(label + " 数量 "@ + decimal(actual) + " 超过 "@ + decimal(maximum) + " 上限"@)
    } else {
        None
    }
}

pub fn validate_stt_count(label: &str, actual: usize, maximum: usize) -> (result: Result<
    (),
    String,
>)
    ensures
        fault_of(result) == stt_count_fault(label@, actual as nat, maximum as nat),
{
    if actual > maximum {
        let found = decimal_string(actual as u64);
        let limit = decimal_string(maximum as u64);
        let mut message = text5(label, " 数量 ", found.as_str(), " 超过 ", limit.as_str());
        message.append(" 上限");
        return Err(message);
    }
    Ok(())
}

/// A number is not taken where it is not within its limits.
pub open spec fn stt_number_fault(label: Seq<char>, within: bool) -> Option<Seq<char>> {
    if within {
        None
    } else {
        Some(label + " 不是有限且有界的数值"@)
    }
}

fn check_number(label: &str, within: bool) -> (result: Result<(), String>)
    ensures
        fault_of(result) == stt_number_fault(label@, within),
{
    if within {
        Ok(())
    } else {
        Err(text2(label, " 不是有限且有界的数值"))
    }
}

/// Checks that a number is at least zero and at most the maximum with the
/// given bits.
pub fn validate_stt_number(label: &str, value: Double, maximum: u64) -> (result: Result<
    (),
    String,
>)
    ensures
        fault_of(result) == stt_number_fault(label@, value.at_most(maximum)),
{
    check_number(label, value.is_at_most(maximum))
}

pub open spec fn optional_number_fault(label: Seq<char>, value: Option<Double>, maximum: u64) -> Option<
    Seq<char>,
> {
    match value {
        Some(number) => stt_number_fault(label, number.at_most(maximum)),
        None => None,
    }
}

fn check_optional_number(label: &str, value: Option<Double>, maximum: u64) -> (result: Result<
    (),
    String,
>)
    ensures
        fault_of(result) == optional_number_fault(label@, value, maximum),
{
    match value {
        Some(number) => validate_stt_number(label, number, maximum),
        None => Ok(()),
    }
}

pub open spec fn stt_range_fault(label: Seq<char>, start: Double, end: Double) -> Option<Seq<char>> {
    first_fault(
        stt_number_fault(label + ".start"@, start.at_most(WEEK_SECONDS)),
        first_fault(
            stt_number_fault(label + ".end"@, end.at_most(WEEK_SECONDS)),
            if start.rank() > end.rank() {
                Some(label + " 的 start 大于 end"@)
            } else {
                None
            },
        ),
    )
}

pub fn validate_stt_time_range(label: &str, start: Double, end: Double) -> (result: Result<
    (),
    String,
>)
    ensures
        fault_of(result) == stt_range_fault(label@, start, end),
{
    let start_label = text2(label, ".start");
    if let Err(message) = validate_stt_number(start_label.as_str(), start, WEEK_SECONDS) {
        return Err(message);
    }
    let end_label = text2(label, ".end");
    if let Err(message) = validate_stt_number(end_label.as_str(), end, WEEK_SECONDS) {
        return Err(message);
    }
    if start.exceeds(end) {
        return Err(text2(label, " 的 start 大于 end"));
    }
    Ok(())
}

pub open spec fn is_index(value: i64, maximum: i64) -> bool {
    0 <= value <= maximum
}

pub open spec fn optional_index_fault(label: Seq<char>, value: Option<i64>, maximum: i64) -> Option<
    Seq<char>,
> {
    if value is Some && !is_index(value->0, maximum) {
        Some(label + " 超出允许范围"@)
    } else {
        None
    }
}

fn check_optional_index(label: &str, value: Option<i64>, maximum: i64) -> (result: Result<
    (),
    String,
>)
    ensures
        fault_of(result) == optional_index_fault(label@, value, maximum),
{
    if let Some(index) = value {
        if !(0 <= index && index <= maximum) {
            return Err(text2(label, " 超出允许范围"));
        }
    }
    Ok(())
}

pub fn validate_stt_speaker(label: &str, speaker: Option<i64>) -> (result: Result<(), String>)
    ensures
        fault_of(result) == optional_index_fault(label@, speaker, MAX_STT_SPEAKER),
{
    check_optional_index(label, speaker, MAX_STT_SPEAKER)
}

// ---------------------------------------------------------------------------
// Segments
// ---------------------------------------------------------------------------

/// The name of an item of a list in messages.
pub open spec fn item_label(list: Seq<char>, position: nat) -> Seq<char> {
    list + "["@ + decimal(position) + "]"@
}

fn label_item(list: &str, position: usize) -> (label: String)
    ensures
        label@ == item_label(list@, position as nat),
{
    let place = decimal_string(position as u64);
    text4(list, "[", place.as_str(), "]")
}

pub open spec fn has_bad_token(tokens: Seq<i64>) -> bool {
    exists|k: int| 0 <= k < tokens.len() && !is_index(#[trigger] tokens[k], MAX_STT_TOKEN_ID)
}

fn any_bad_token(tokens: &Vec<i64>) -> (result: bool)
    ensures
        result == has_bad_token(tokens@),
{
    let mut i: usize = 0;
    while i < tokens.len()
        invariant
            i <= tokens@.len(),
            forall|k: int| 0 <= k < i ==> is_index(#[trigger] tokens@[k], MAX_STT_TOKEN_ID),
        decreases tokens@.len() - i,
    {
        let token: i64 = tokens[i];
        if !(0 <= token && token <= MAX_STT_TOKEN_ID) {
            assert(!is_index(tokens@[i as int], MAX_STT_TOKEN_ID));
            return true;
        }
        i += 1;
    }
    false
}

/// A segment does not stand behind another in number and in time.
pub open spec fn out_of_order(before: SttSegment, segment: SttSegment) -> bool {
    segment.id <= before.id || before.start.rank() > segment.start.rank() || before.end.rank()
        > segment.end.rank()
}

/// Why the numbers and the text of a segment are not taken.
pub open spec fn segment_form_fault(segment: SttSegment, label: Seq<char>) -> Option<Seq<char>> {
    if !is_index(segment.id, MAX_STT_INDEX) {
        Some(label + ".id 超出允许范围"@)
    } else if stt_range_fault(label, segment.start, segment.end) is Some {
        stt_range_fault(label, segment.start, segment.end)
    } else if stt_text_fault(
        label + ".text"@,
        segment.text@,
        MAX_STT_SEGMENT_TEXT_CHARS as nat,
    ) is Some {
        stt_text_fault(label + ".text"@, segment.text@, MAX_STT_SEGMENT_TEXT_CHARS as nat)
    } else if optional_index_fault(label + ".seek"@, segment.seek, MAX_STT_INDEX) is Some {
        optional_index_fault(label + ".seek"@, segment.seek, MAX_STT_INDEX)
    } else if optional_index_fault(
        label + ".speaker"@,
        segment.speaker,
        MAX_STT_SPEAKER,
    ) is Some {
        optional_index_fault(label + ".speaker"@, segment.speaker, MAX_STT_SPEAKER)
    } else if stt_count_fault(
        label + ".tokens"@,
        segment.tokens@.len(),
        MAX_STT_SEGMENT_TOKENS as nat,
    ) is Some {
        stt_count_fault(
            label + ".tokens"@,
            segment.tokens@.len(),
            MAX_STT_SEGMENT_TOKENS as nat,
        )
    } else if has_bad_token(segment.tokens@) {
        Some(label + ".tokens 包含非法 token ID"@)
    } else {
        None
    }
}

fn check_segment_form(segment: &SttSegment, label: &str) -> (result: Result<(), String>)
    ensures
        fault_of(result) == segment_form_fault(*segment, label@),
{
    if !(0 <= segment.id && segment.id <= MAX_STT_INDEX) {
        return Err(text2(label, ".id 超出允许范围"));
    }
    if let Err(message) = validate_stt_time_range(label, segment.start, segment.end) {
        return Err(message);
    }
    let text_label = text2(label, ".text");
    if let Err(message) = validate_bounded_stt_text(
        text_label.as_str(),
        segment.text.as_str(),
        MAX_STT_SEGMENT_TEXT_CHARS,
    ) {
        return Err(message);
    }
    let seek_label = text2(label, ".seek");
    if let Err(message) = check_optional_index(seek_label.as_str(), segment.seek, MAX_STT_INDEX) {
        return Err(message);
    }
    let speaker_label = text2(label, ".speaker");
    if let Err(message) = validate_stt_speaker(speaker_label.as_str(), segment.speaker) {
        return Err(message);
    }
    let tokens_label = text2(label, ".tokens");
    if let Err(message) = validate_stt_count(
        tokens_label.as_str(),
        segment.tokens.len(),
        MAX_STT_SEGMENT_TOKENS,
    ) {
        return Err(message);
    }
    if any_bad_token(&segment.tokens) {
        return Err(text2(label, ".tokens 包含非法 token ID"));
    }
    Ok(())
}

/// Why the measures of a segment are not taken.
pub open spec fn segment_measure_fault(segment: SttSegment, label: Seq<char>) -> Option<Seq<char>> {
    if optional_number_fault(label + ".temperature"@, segment.temperature, ONE) is Some {
        optional_number_fault(label + ".temperature"@, segment.temperature, ONE)
    } else if segment.avg_logprob is Some && !(segment.avg_logprob->0).at_least_negative(
        ONE_MILLION,
    ) {
        stt_number_fault(label + ".avg_logprob"@, false)
    } else if optional_number_fault(
        label + ".compression_ratio"@,
        segment.compression_ratio,
        ONE_MILLION,
    ) is Some {
        optional_number_fault(
            label + ".compression_ratio"@,
            segment.compression_ratio,
            ONE_MILLION,
        )
    } else {
        optional_number_fault(label + ".no_speech_prob"@, segment.no_speech_prob, ONE)
    }
}

fn check_segment_measures(segment: &SttSegment, label: &str) -> (result: Result<(), String>)
    ensures
        fault_of(result) == segment_measure_fault(*segment, label@),
{
    let temperature_label = text2(label, ".temperature");
    if let Err(message) = check_optional_number(
        temperature_label.as_str(),
        segment.temperature,
        ONE,
    ) {
        return Err(message);
    }
    if let Some(value) = segment.avg_logprob {
        let logprob_label = text2(label, ".avg_logprob");
        if let Err(message) = check_number(
            logprob_label.as_str(),
            value.is_at_least_negative(ONE_MILLION),
        ) {
            return Err(message);
        }
    }
    let ratio_label = text2(label, ".compression_ratio");
    if let Err(message) = check_optional_number(
        ratio_label.as_str(),
        segment.compression_ratio,
        ONE_MILLION,
    ) {
        return Err(message);
    }
    let silence_label = text2(label, ".no_speech_prob");
    check_optional_number(silence_label.as_str(), segment.no_speech_prob, ONE)
}

/// Why the segment at a position is not taken.
pub open spec fn segment_fault(segments: Seq<SttSegment>, position: int) -> Option<Seq<char>> {
    let label = item_label("STT segments"@, position as nat);
    let segment = segments[position];
    if segment_form_fault(segment, label) is Some {
        segment_form_fault(segment, label)
    } else if position > 0 && out_of_order(segments[position - 1], segment) {
        Some(label + " 的 ID/时间顺序不单调"@)
    } else {
        segment_measure_fault(segment, label)
    }
}

/// Why the first of the segments from `n` on is not taken that is not.
pub open spec fn segments_fault(segments: Seq<SttSegment>, n: int) -> Option<Seq<char>>
    decreases segments.len() - n,
{
    if n < 0 || n >= segments.len() {
        None
    } else if segment_fault(segments, n) is Some {
        segment_fault(segments, n)
    } else {
        segments_fault(segments, n + 1)
    }
}

fn check_segments(segments: &Vec<SttSegment>) -> (result: Result<(), String>)
    ensures
        fault_of(result) == segments_fault(segments@, 0),
{
    let mut n: usize = 0;
    while n < segments.len()
        invariant
            n <= segments@.len(),
            segments_fault(segments@, n as int) == segments_fault(segments@, 0),
        decreases segments@.len() - n,
    {
        let label = label_item("STT segments", n);
        let segment = &segments[n];
        if let Err(message) = check_segment_form(segment, label.as_str()) {
            return Err(message);
        }
        if n > 0 {
            let before = &segments[n - 1];
            if segment.id <= before.id || before.start.exceeds(segment.start) || before.end.exceeds(
                segment.end,
            ) {
                return Err(text2(label.as_str(), " 的 ID/时间顺序不单调"));
            }
        }
        if let Err(message) = check_segment_measures(segment, label.as_str()) {
            return Err(message);
        }
        n += 1;
    }
    Ok(())
}

/// The texts of the first `n` segments put together.
pub open spec fn segments_text(segments: Seq<SttSegment>, n: nat) -> Seq<char>
    decreases n,
{
    if n == 0 {
        Seq::empty()
    } else {
        segments_text(segments, (n - 1) as nat) + segments[n - 1].text@
    }
}

/// Segments, where there are any, together say what the text says.
pub open spec fn segments_agreement_fault(segments: Seq<SttSegment>, text: Seq<char>) -> Option<
    Seq<char>,
> {
    let all = segments_text(segments, segments.len());
    if segments.len() == 0 {
        None
    } else if stt_text_fault("STT segments 拼接文本"@, all, MAX_STT_TEXT_CHARS as nat) is Some {
        stt_text_fault("STT segments 拼接文本"@, all, MAX_STT_TEXT_CHARS as nat)
    } else if content_of(all) != content_of(text) {
        Some("STT segments.text 未完整重建 top-level text"@)
    } else {
        None
    }
}

fn check_segments_agreement(segments: &Vec<SttSegment>, text: &str) -> (result: Result<(), String>)
    ensures
        fault_of(result) == segments_agreement_fault(segments@, text@),
{
    if segments.len() == 0 {
        return Ok(());
    }
    let mut all = String::new();
    let mut n: usize = 0;
    while n < segments.len()
        invariant
            n <= segments@.len(),
            all@ == segments_text(segments@, n as nat),
        decreases segments@.len() - n,
    {
        all.append(segments[n].text.as_str());
        n += 1;
    }
    if let Err(message) = validate_bounded_stt_text(
        "STT segments 拼接文本",
        all.as_str(),
        MAX_STT_TEXT_CHARS,
    ) {
        return Err(message);
    }
    let parts = canonical_content(all.as_str());
    let whole = canonical_content(text);
    if !same_text(parts.as_str(), whole.as_str()) {
        return Err("STT segments.text 未完整重建 top-level text".to_owned());
    }
    Ok(())
}

// ---------------------------------------------------------------------------
// Words and usage
// ---------------------------------------------------------------------------

/// Why the word at a position is not taken.
pub open spec fn word_fault(word: SttWord, position: nat) -> Option<Seq<char>> {
    let label = item_label("STT words"@, position);
    if stt_range_fault(label, word.start, word.end) is Some {
        stt_range_fault(label, word.start, word.end)
    } else if stt_text_fault(label + ".word"@, word.word@, MAX_STT_WORD_CHARS as nat) is Some {
        stt_text_fault(label + ".word"@, word.word@, MAX_STT_WORD_CHARS as nat)
    } else {
        optional_index_fault(label + ".speaker"@, word.speaker, MAX_STT_SPEAKER)
    }
}

pub open spec fn words_fault(words: Seq<SttWord>, n: int) -> Option<Seq<char>>
    decreases words.len() - n,
{
    if n < 0 || n >= words.len() {
        None
    } else if word_fault(words[n], n as nat) is Some {
        word_fault(words[n], n as nat)
    } else {
        words_fault(words, n + 1)
    }
}

fn check_word(word: &SttWord, position: usize) -> (result: Result<(), String>)
    ensures
        fault_of(result) == word_fault(*word, position as nat),
{
    let label = label_item("STT words", position);
    if let Err(message) = validate_stt_time_range(label.as_str(), word.start, word.end) {
        return Err(message);
    }
    let word_label = text2(label.as_str(), ".word");
    if let Err(message) = validate_bounded_stt_text(
        word_label.as_str(),
        word.word.as_str(),
        MAX_STT_WORD_CHARS,
    ) {
        return Err(message);
    }
    let speaker_label = text2(label.as_str(), ".speaker");
    validate_stt_speaker(speaker_label.as_str(), word.speaker)
}

fn check_words(words: &Vec<SttWord>) -> (result: Result<(), String>)
    ensures
        fault_of(result) == words_fault(words@, 0),
{
    let mut n: usize = 0;
    while n < words.len()
        invariant
            n <= words@.len(),
            words_fault(words@, n as int) == words_fault(words@, 0),
        decreases words@.len() - n,
    {
        if let Err(message) = check_word(&words[n], n) {
            return Err(message);
        }
        n += 1;
    }
    Ok(())
}

pub open spec fn token_count_fault(label: Seq<char>, value: Option<u64>) -> Option<Seq<char>> {
    if value is Some && value->0 > MAX_STT_USAGE_TOKENS {
        Some("STT usage."@ + label + " 超出允许范围"@)
    } else {
        None
    }
}

fn check_token_count(label: &str, value: Option<u64>) -> (result: Result<(), String>)
    ensures
        fault_of(result) == token_count_fault(label@, value),
{
    if let Some(tokens) = value {
        if tokens > MAX_STT_USAGE_TOKENS {
            return Err(text3("STT usage.", label, " 超出允许范围"));
        }
    }
    Ok(())
}

pub open spec fn usage_fault(usage: Option<SttUsage>) -> Option<Seq<char>> {
    match usage {
        None => None,
        Some(found) => {
            if token_count_fault("input_tokens"@, found.input_tokens) is Some {
                token_count_fault("input_tokens"@, found.input_tokens)
            } else if token_count_fault("output_tokens"@, found.output_tokens) is Some {
                token_count_fault("output_tokens"@, found.output_tokens)
            } else if token_count_fault("total_tokens"@, found.total_tokens) is Some {
                token_count_fault("total_tokens"@, found.total_tokens)
            } else if optional_number_fault(
                "STT usage.seconds"@,
                found.seconds,
                WEEK_SECONDS,
            ) is Some {
                optional_number_fault("STT usage.seconds"@, found.seconds, WEEK_SECONDS)
            } else {
                optional_number_fault("STT usage.cost"@, found.cost, ONE_MILLION)
            }
        },
    }
}

fn check_usage(usage: &Option<SttUsage>) -> (result: Result<(), String>)
    ensures
        fault_of(result) == usage_fault(*usage),
{
    if let Some(found) = usage {
        if let Err(message) = check_token_count("input_tokens", found.input_tokens) {
            return Err(message);
        }
        if let Err(message) = check_token_count("output_tokens", found.output_tokens) {
            return Err(message);
        }
        if let Err(message) = check_token_count("total_tokens", found.total_tokens) {
            return Err(message);
        }
        if let Err(message) = check_optional_number(
            "STT usage.seconds",
            found.seconds,
            WEEK_SECONDS,
        ) {
            return Err(message);
        }
        return check_optional_number("STT usage.cost", found.cost, ONE_MILLION);
    }
    Ok(())
}

// ---------------------------------------------------------------------------
// Routes
// ---------------------------------------------------------------------------

pub open spec fn stt_model_fault(reported: Option<Seq<char>>, requested: Seq<char>) -> Option<
    Seq<char>,
> {
    if reported is None {
        None
    } else if model_fault(reported->0) is Some {
        Some("STT response model 不是有界合法 route ID"@)
    } else if reported->0 != requested {
        Some(
            "STT response model "@ + reported->0 + " 与 requested model "@ + requested
                + " 不一致"@,
        )
    } else {
        None
    }
}

pub fn validate_reported_stt_model(reported_model: Option<&str>, requested_model: &str) -> (result:
    Result<(), String>)
    ensures
        fault_of(result) == stt_model_fault(optional_str(reported_model), requested_model@),
{
    if let Some(model) = reported_model {
        if validate_model_id(model).is_err() {
            return Err("STT response model 不是有界合法 route ID".to_owned());
        }
        if !same_text(model, requested_model) {
            return Err(
                text5(
                    "STT response model ",
                    model,
                    " 与 requested model ",
                    requested_model,
                    " 不一致",
                ),
            );
        }
    }
    Ok(())
}

pub open spec fn stt_provider_fault(reported: Option<Seq<char>>, requested: Seq<char>) -> Option<
    Seq<char>,
> {
    if reported is None {
        None
    } else if provider_fault(reported->0) is Some {
        Some("STT response provider 不是有界合法 endpoint tag"@)
    } else if is_any_provider(reported->0) {
        Some("STT response provider=any 不是实际 endpoint 身份"@)
    } else if !is_any_provider(requested) && reported->0 != requested {
        Some(
            "STT response provider "@ + reported->0 + " 与 catalog-unique expected endpoint "@
                + requested + " 不一致"@,
        )
    } else {
        None
    }
}

pub fn validate_reported_stt_provider(
    reported_provider: Option<&str>,
    requested_provider: &str,
) -> (result: Result<(), String>)
    ensures
        fault_of(result) == stt_provider_fault(
            optional_str(reported_provider),
            requested_provider@,
        ),
{
    if let Some(provider) = reported_provider {
        if validate_provider_id(provider).is_err() {
            return Err("STT response provider 不是有界合法 endpoint tag".to_owned());
        }
        if names_any_provider(provider) {
            return Err("STT response provider=any 不是实际 endpoint 身份".to_owned());
        }
        if !names_any_provider(requested_provider) && !same_text(provider, requested_provider) {
            return Err(
                text5(
                    "STT response provider ",
                    provider,
                    " 与 catalog-unique expected endpoint ",
                    requested_provider,
                    " 不一致",
                ),
            );
        }
    }
    Ok(())
}

// ---------------------------------------------------------------------------
// The whole reply
// ---------------------------------------------------------------------------

pub open spec fn optional_text_fault(label: Seq<char>, text: Option<Seq<char>>) -> Option<
    Seq<char>,
> {
    match text {
        Some(found) => stt_text_fault(label, found, MAX_STT_METADATA_CHARS as nat),
        None => None,
    }
}

fn check_optional_text(label: &str, text: &Option<String>) -> (result: Result<(), String>)
    ensures
        fault_of(result) == optional_text_fault(label@, optional_text(*text)),
{
    match text {
        Some(found) => validate_bounded_stt_text(label, found.as_str(), MAX_STT_METADATA_CHARS),
        None => Ok(()),
    }
}

/// Why the head of a reply is not taken: its route, its text and its counts.
pub open spec fn stt_head_fault(
    response: SttResponse,
    requested_model: Seq<char>,
    requested_provider: Seq<char>,
) -> Option<Seq<char>> {
    let model = stt_model_fault(optional_text(response.model), requested_model);
    let provider = stt_provider_fault(optional_text(response.provider), requested_provider);
    if model is Some {
        model
    } else if provider is Some {
        provider
    } else if response.text is None {
        Some("OpenRouter STT 响应缺少必需的 text 字段"@)
    } else if stt_text_fault("STT text"@, (response.text->0)@, MAX_STT_TEXT_CHARS as nat) is Some {
        stt_text_fault("STT text"@, (response.text->0)@, MAX_STT_TEXT_CHARS as nat)
    } else if optional_text_fault("STT task"@, optional_text(response.task)) is Some {
        optional_text_fault("STT task"@, optional_text(response.task))
    } else if optional_text_fault("STT language"@, optional_text(response.language)) is Some {
        optional_text_fault("STT language"@, optional_text(response.language))
    } else if optional_number_fault("STT duration"@, response.duration, WEEK_SECONDS) is Some {
        optional_number_fault("STT duration"@, response.duration, WEEK_SECONDS)
    } else if stt_count_fault(
        "STT segments"@,
        response.segments@.len(),
        MAX_STT_SEGMENTS as nat,
    ) is Some {
        stt_count_fault("STT segments"@, response.segments@.len(), MAX_STT_SEGMENTS as nat)
    } else {
        stt_count_fault("STT words"@, response.words@.len(), MAX_STT_WORDS as nat)
    }
}

fn check_stt_head(response: &SttResponse, requested_model: &str, requested_provider: &str) -> (result:
    Result<(), String>)
    ensures
        fault_of(result) == stt_head_fault(*response, requested_model@, requested_provider@),
        result is Ok ==> response.text is Some,
{
    if let Err(message) = validate_reported_stt_model(
        as_optional(&response.model),
        requested_model,
    ) {
        return Err(message);
    }
    if let Err(message) = validate_reported_stt_provider(
        as_optional(&response.provider),
        requested_provider,
    ) {
        return Err(message);
    }
    match &response.text {
        Some(text) => {
            if let Err(message) = validate_bounded_stt_text(
                "STT text",
                text.as_str(),
                MAX_STT_TEXT_CHARS,
            ) {
                return Err(message);
            }
        },
        None => {
            return Err("OpenRouter STT 响应缺少必需的 text 字段".to_owned());
        },
    }
    if let Err(message) = check_optional_text("STT task", &response.task) {
        return Err(message);
    }
    if let Err(message) = check_optional_text("STT language", &response.language) {
        return Err(message);
    }
    if let Err(message) = check_optional_number("STT duration", response.duration, WEEK_SECONDS) {
        return Err(message);
    }
    if let Err(message) = validate_stt_count(
        "STT segments",
        response.segments.len(),
        MAX_STT_SEGMENTS,
    ) {
        return Err(message);
    }
    validate_stt_count("STT words", response.words.len(), MAX_STT_WORDS)
}

/// Why a reply is not taken.
pub open spec fn stt_fault(
    response: SttResponse,
    requested_model: Seq<char>,
    requested_provider: Seq<char>,
) -> Option<Seq<char>> {
    let head = stt_head_fault(response, requested_model, requested_provider);
    let agreement = segments_agreement_fault(response.segments@, (response.text->0)@);
    if head is Some {
        head
    } else if segments_fault(response.segments@, 0) is Some {
        segments_fault(response.segments@, 0)
    } else if agreement is Some {
        agreement
    } else if words_fault(response.words@, 0) is Some {
        words_fault(response.words@, 0)
    } else {
        usage_fault(response.usage)
    }
}

/// A checked reply holds what the reply held.
pub open spec fn is_completion_of(completion: SttCompletion, response: SttResponse) -> bool {
    &&& Some(completion.text@) == optional_text(response.text)
    &&& optional_text(completion.reported_model) == optional_text(response.model)
    &&& optional_text(completion.reported_provider) == optional_text(response.provider)
    &&& completion.usage == response.usage
    &&& completion.segments == response.segments
    &&& completion.words == response.words
    &&& completion.task == response.task
    &&& completion.language == response.language
    &&& completion.duration == response.duration
}

/// Checks a reply: its route, its limits, the order of its segments, and that
/// the segments together say what the text says.
pub fn validated_stt_completion(
    response: SttResponse,
    requested_model: &str,
    requested_provider: &str,
) -> (result: Result<SttCompletion, String>)
    ensures
        match result {
            Ok(completion) => stt_fault(response, requested_model@, requested_provider@) is None
                && is_completion_of(completion, response),
            Err(message) => stt_fault(response, requested_model@, requested_provider@) == Some(
                message@,
            ),
        },
{
    if let Err(message) = check_stt_head(&response, requested_model, requested_provider) {
        return Err(message);
    }
    if let Err(message) = check_segments(&response.segments) {
        return Err(message);
    }
    let text = match response.text {
        Some(found) => found,
        None => {
            return Err("OpenRouter STT 响应缺少必需的 text 字段".to_owned());
        },
    };
    if let Err(message) = check_segments_agreement(&response.segments, text.as_str()) {
        return Err(message);
    }
    if let Err(message) = check_words(&response.words) {
        return Err(message);
    }
    if let Err(message) = check_usage(&response.usage) {
        return Err(message);
    }
    Ok(
        SttCompletion {
            text,
            reported_model: response.model,
            reported_provider: response.provider,
            usage: response.usage,
            segments: response.segments,
            words: response.words,
            task: response.task,
            language: response.language,
            duration: response.duration,
        },
    )
}

// ---------------------------------------------------------------------------
// What is kept of a reply that was not used
// ---------------------------------------------------------------------------

pub open spec fn stt_usage_complete(usage: SttUsage) -> bool {
    token_reported(usage.input_tokens) && token_reported(usage.output_tokens) && cost_reported(
        usage.cost,
    )
}

pub open spec fn stt_fallback_provider(requested_provider: Seq<char>) -> Seq<char> {
    if is_any_provider(requested_provider) {
        "unreported_automatic"@
    } else {
        "unreported"@
    }
}

/// What is kept of a reply: what it reports, without its text, where it
/// reports anything. No route is claimed that the reply does not name.
pub open spec fn rejected_stt(
    response: SttResponse,
    requested_model: Seq<char>,
    requested_provider: Seq<char>,
) -> Option<CompletionView> {
    let model = optional_text(response.model);
    let provider = optional_text(response.provider);
    match response.usage {
        Some(usage) => Some(
            CompletionView {
                origin: CompletionOrigin::Stt,
                text: Seq::empty(),
                model: model_name(model, requested_model),
                provider: provider_name(provider, stt_fallback_provider(requested_provider)),
                model_reported_by_api: model is Some && model_fault(model->0) is None,
                provider_reported_by_api: provider is Some && is_provider_name(provider->0),
                prompt_tokens: token_or_zero(usage.input_tokens),
                completion_tokens: token_or_zero(usage.output_tokens),
                reasoning_tokens: 0,
                cost: cost_or_zero(usage.cost),
                usage_reported: stt_usage_complete(usage),
                reasoning_tokens_reported: false,
            },
        ),
        None => None,
    }
}

pub fn complete_stt_usage_reported(usage: &SttUsage) -> (result: bool)
    ensures
        result == stt_usage_complete(*usage),
{
    valid_reported_token(usage.input_tokens) && valid_reported_token(usage.output_tokens)
        && valid_reported_cost(usage.cost)
}

pub fn rejected_stt_completion(
    response: &SttResponse,
    requested_model: &str,
    requested_provider: &str,
) -> (completion: Option<Completion>)
    ensures
        completion_view(completion) == rejected_stt(
            *response,
            requested_model@,
            requested_provider@,
        ),
{
    let usage = match &response.usage {
        Some(found) => found,
        None => {
            return None;
        },
    };
    let model = as_optional(&response.model);
    let provider = as_optional(&response.provider);
    let fallback = if names_any_provider(requested_provider) {
        "unreported_automatic"
    } else {
        "unreported"
    };
    let model_reported_by_api = match model {
        Some(name) => valid_reported_model(name),
        None => false,
    };
    let provider_reported_by_api = match provider {
        Some(name) => valid_reported_provider(name),
        None => false,
    };
    let completion = Completion {
        origin: CompletionOrigin::Stt,
        text: String::new(),
        model: bounded_reported_model(model, requested_model),
        provider: bounded_reported_provider(provider, fallback),
        model_reported_by_api,
        provider_reported_by_api,
        prompt_tokens: bounded_reported_token(usage.input_tokens),
        completion_tokens: bounded_reported_token(usage.output_tokens),
        reasoning_tokens: 0,
        cost: bounded_reported_cost(usage.cost),
        usage_reported: complete_stt_usage_reported(usage),
        reasoning_tokens_reported: false,
    };
    assert(completion.text@ =~= Seq::<char>::empty());
    Some(completion)
}

/// Keeps what a reply reports that is not used.
pub fn record_rejected_stt_response(
    ledger: &mut RequestLedger,
    response: &SttResponse,
    requested_model: &str,
    requested_provider: &str,
) -> (result: Result<(), String>)
    requires
        old(ledger).well_formed(),
    ensures
        ledger_keeps(
            *old(ledger),
            *final(ledger),
            rejected_stt(*response, requested_model@, requested_provider@),
            fault_of(result),
        ),
{
    let completion = rejected_stt_completion(response, requested_model, requested_provider);
    keep_completion(ledger, completion)
}

// ---------------------------------------------------------------------------
// What follows from a reply
// ---------------------------------------------------------------------------

/// What came back from one try of a speech-to-text request.
#[derive(Debug)]
pub enum SttReply {
    /// A reply with a status of success.
    Parsed { response: SttResponse, retry_after: Option<u64> },
    /// A reply with a status of success that is no reply to such a request.
    Unparsed { reason: String },
    /// A reply with another status.
    Refused { status: u16, body: Vec<u8>, parsed: Option<SttResponse>, retry_after: Option<u64> },
    /// No reply.
    Failed { message: String, limit_exceeded: bool },
}

/// What to do after a reply.
#[derive(Debug)]
pub enum SttStep {
    Done(SttCompletion),
    Stop(String),
    Again { seconds: u64, last_error: String },
}

/// What to do after a reply, by its texts.
pub ghost enum SttStepView {
    Done,
    Stop(Seq<char>),
    Again(u64, Seq<char>),
}

impl View for SttStep {
    type V = SttStepView;

    open spec fn view(&self) -> SttStepView {
        match self {
            SttStep::Done(_) => SttStepView::Done,
            SttStep::Stop(message) => SttStepView::Stop(message@),
            SttStep::Again { seconds, last_error } => SttStepView::Again(*seconds, last_error@),
        }
    }
}

pub open spec fn stt_again_or_stop(
    again: bool,
    seconds: u64,
    attempt: u32,
    last_error: Seq<char>,
) -> SttStepView {
    if again {
        SttStepView::Again(seconds, last_error)
    } else {
        SttStepView::Stop(request_failure_text(attempt, last_error))
    }
}

fn next_stt_try(again: bool, seconds: u64, attempt: u32, last_error: String) -> (step: SttStep)
    ensures
        step@ == stt_again_or_stop(again, seconds, attempt, last_error@),
{
    if again {
        SttStep::Again { seconds, last_error }
    } else {
        SttStep::Stop(format_request_failure(attempt, last_error.as_str()))
    }
}

pub open spec fn stt_error(parsed: Option<SttResponse>) -> Option<ApiError> {
    match parsed {
        Some(response) => response.error,
        None => None,
    }
}

pub open spec fn stt_refusal_message(error: Option<ApiError>, body: Seq<u8>) -> Seq<char> {
    match error {
        Some(found) => api_error_text(found),
        None => body_message(body),
    }
}

/// What is kept of a reply.
pub open spec fn stt_kept(reply: SttReply, model: Seq<char>, provider: Seq<char>) -> Option<
    CompletionView,
> {
    match reply {
        SttReply::Parsed { response, retry_after } => if response.error is Some || stt_fault(
            response,
            model,
            provider,
        ) is Some {
            rejected_stt(response, model, provider)
        } else {
            None
        },
        SttReply::Refused { status, body, parsed, retry_after } => match parsed {
            Some(response) => rejected_stt(response, model, provider),
            None => None,
        },
        _ => None,
    }
}

/// What to do after a reply.
pub open spec fn stt_step(
    reply: SttReply,
    model: Seq<char>,
    provider: Seq<char>,
    attempt: u32,
    maximum_attempts: u32,
) -> SttStepView {
    match reply {
        SttReply::Parsed { response, retry_after } => if response.error is Some {
            stt_again_or_stop(
                retry_allowed(None, response.error, attempt, maximum_attempts),
                wait_spec(attempt, retry_after),
                attempt,
                api_error_text(response.error->0),
            )
        } else if stt_fault(response, model, provider) is Some {
            SttStepView::Stop(
                request_failure_text(
                    attempt,
                    "OpenRouter STT 响应未通过校验："@ + stt_fault(response, model, provider)->0,
                ),
            )
        } else {
            SttStepView::Done
        },
        SttReply::Unparsed { reason } => SttStepView::Stop(
            request_failure_text(attempt, "OpenRouter STT 成功响应不是合法 JSON："@ + reason@),
        ),
        SttReply::Refused { status, body, parsed, retry_after } => {
            let error = stt_error(parsed);
            let message = stt_refusal_message(error, body@);
            stt_again_or_stop(
                !body_speaks_of_safety(body@, message) && retry_allowed(
                    Some(status),
                    error,
                    attempt,
                    maximum_attempts,
                ),
                wait_spec(attempt, retry_after),
                attempt,
                "OpenRouter STT HTTP "@ + decimal(status as nat) + "："@ + message,
            )
        },
        SttReply::Failed { message, limit_exceeded } => stt_again_or_stop(
            !limit_exceeded && attempt < maximum_attempts,
            backoff_spec(attempt),
            attempt,
            "OpenRouter STT 传输失败："@ + message@,
        ),
    }
}

/// The completion of a step is that of the reply.
pub open spec fn step_completes(step: SttStep, reply: SttReply) -> bool {
    match step {
        SttStep::Done(completion) => match reply {
            SttReply::Parsed { response, retry_after } => is_completion_of(completion, response),
            _ => false,
        },
        _ => true,
    }
}

/// Decides what is kept of a reply and what to do after it.
pub fn judge_stt_reply(
    reply: SttReply,
    requested_model: &str,
    requested_provider: &str,
    attempt: u32,
    maximum_attempts: u32,
) -> (verdict: (Option<Completion>, SttStep))
    ensures
        completion_view(verdict.0) == stt_kept(reply, requested_model@, requested_provider@),
        verdict.1@ == stt_step(
            reply,
            requested_model@,
            requested_provider@,
            attempt,
            maximum_attempts,
        ),
        step_completes(verdict.1, reply),
{
    match reply {
        SttReply::Parsed { response, retry_after } => {
            let kept = rejected_stt_completion(&response, requested_model, requested_provider);
            if let Some(error) = &response.error {
                let again = api_retry_allowed(None, Some(error), attempt, maximum_attempts);
                let text = format_api_error(error);
                let step = next_stt_try(again, wait_seconds(attempt, retry_after), attempt, text);
                return (kept, step);
            }
            match validated_stt_completion(response, requested_model, requested_provider) {
                Ok(completion) => (None, SttStep::Done(completion)),
                Err(message) => {
                    let last_error = text2("OpenRouter STT 响应未通过校验：", message.as_str());
                    (kept, SttStep::Stop(format_request_failure(attempt, last_error.as_str())))
                },
            }
        },
        SttReply::Unparsed { reason } => {
            let last_error = text2("OpenRouter STT 成功响应不是合法 JSON：", reason.as_str());
            (None, SttStep::Stop(format_request_failure(attempt, last_error.as_str())))
        },
        SttReply::Refused { status, body, parsed, retry_after } => {
            let kept = match &parsed {
                Some(response) => rejected_stt_completion(
                    response,
                    requested_model,
                    requested_provider,
                ),
                None => None,
            };
            let error = match &parsed {
                Some(response) => match &response.error {
                    Some(found) => Some(found),
                    None => None,
                },
                None => None,
            };
            let message = match error {
                Some(found) => format_api_error(found),
                None => extract_error_message(body.as_slice()),
            };
            let code = decimal_string(status as u64);
            let last_error = text4("OpenRouter STT HTTP ", code.as_str(), "：", message.as_str());
            let again = !non_retryable_safety_response(body.as_slice(), message.as_str())
                && api_retry_allowed(Some(status), error, attempt, maximum_attempts);
            let step = next_stt_try(again, wait_seconds(attempt, retry_after), attempt, last_error);
            (kept, step)
        },
        SttReply::Failed { message, limit_exceeded } => {
            let last_error = text2("OpenRouter STT 传输失败：", message.as_str());
            let again = !limit_exceeded && attempt < maximum_attempts;
            (None, next_stt_try(again, backoff_seconds(attempt), attempt, last_error))
        },
    }
}

/// Takes a reply: keeps what it reports where it is not used, and says what to
/// do next. Where it cannot be kept, that ends the request.
pub fn take_stt_reply(
    ledger: &mut RequestLedger,
    reply: SttReply,
    requested_model: &str,
    requested_provider: &str,
    attempt: u32,
    maximum_attempts: u32,
) -> (step: SttStep)
    requires
        old(ledger).well_formed(),
    ensures
        step_completes(step, reply),
        ({
            let kept = stt_kept(reply, requested_model@, requested_provider@);
            let fault = if kept is Some {
                old(ledger).record_fault(kept->0)
            } else {
                None
            };
            &&& ledger_keeps(*old(ledger), *final(ledger), kept, fault)
            &&& step@ == (if fault is Some {
                SttStepView::Stop(fault->0)
            } else {
                stt_step(
                    reply,
                    requested_model@,
                    requested_provider@,
                    attempt,
                    maximum_attempts,
                )
            })
        }),
{
    let (kept, step) = judge_stt_reply(
        reply,
        requested_model,
        requested_provider,
        attempt,
        maximum_attempts,
    );
    match keep_completion(ledger, kept) {
        Ok(_) => step,
        Err(fault) => SttStep::Stop(fault),
    }
}

/// Where a request may go, as the catalogs say it.
#[derive(Clone, Debug, PartialEq, Eq)]
pub enum SttEndpointSelection {
    /// The one endpoint of the model, which keeps no data.
    FixedZdr { endpoint: String },
    /// Any of several endpoints; the request cannot choose.
    AnyProviderPrivacyDowngrade { active_endpoints: Vec<String>, zdr_endpoints: Vec<String> },
}

/// Checks a route and, only where it holds, counts the request that is to go
/// there: the request may be one that can be counted only once its route was
/// found to hold.
pub fn validate_then_reserve_stt_attempt<T, V, R>(validate: V, reserve: R) -> (result: Result<
    T,
    String,
>) where V: FnOnce() -> Result<T, String>, R: FnOnce() -> Result<(), String>
    requires
        validate.requires(()),
        forall|selection: T| #[trigger]
            validate.ensures((), Ok(selection)) ==> reserve.requires(()),
    ensures
        match result {
            Ok(selection) => validate.ensures((), Ok(selection)) && reserve.ensures((), Ok(())),
            Err(message) => validate.ensures((), Err(message)) || (reserve.ensures((), Err(message))
                && exists|selection: T| #[trigger] validate.ensures((), Ok(selection))),
        },
{
    let route = validate();
    match route {
        Ok(selection) => {
            assert(validate.ensures((), Ok(selection)));
            let counted = reserve();
            match counted {
                Ok(unit) => {
                    assert(unit == ());
                    assert(reserve.ensures((), Ok(())));
                    Ok(selection)
                },
                Err(message) => Err(message),
            }
        },
        Err(message) => Err(message),
    }
}

/// Why no further try is made, before anything is sent.
pub open spec fn stt_start_fault(
    ledger: RequestLedger,
    route: Option<Seq<char>>,
    attempts_made: u32,
    floor: u32,
) -> Option<Seq<char>> {
    if route is Some {
        Some(counted_error(route->0, attempts_made))
    } else if !ledger.allows_attempt(floor) {
        Some(counted_error(ledger.floor_text(floor), attempts_made))
    } else {
        None
    }
}

/// Starts the next try of a request once its route was checked: counts it and
/// gives its number, or says why there is none. Nothing is counted where the
/// route does not hold.
pub fn start_stt_attempt(
    ledger: &mut RequestLedger,
    route: Result<SttEndpointSelection, String>,
    attempts_made: u32,
    minimum_remaining_after: u32,
) -> (result: Result<u32, String>)
    requires
        old(ledger).well_formed(),
        attempts_made < u32::MAX,
    ensures
        final(ledger).well_formed(),
        final(ledger).max_http_attempts == old(ledger).max_http_attempts,
        final(ledger).catalog_attempts == old(ledger).catalog_attempts,
        final(ledger).rejected@ == old(ledger).rejected@,
        ({
            let fault = stt_start_fault(
                *old(ledger),
                match route {
                    Ok(_) => None,
                    Err(message) => Some(message@),
                },
                attempts_made,
                minimum_remaining_after,
            );
            match result {
                Ok(attempt) => fault is None && attempt == attempts_made + 1
                    && final(ledger).http_attempts == old(ledger).http_attempts + 1,
                Err(message) => fault == Some(message@) && final(ledger).http_attempts
                    == old(ledger).http_attempts,
            }
        }),
{
    match route {
        Ok(_) => match ledger.reserve_http_attempt_with_floor(minimum_remaining_after) {
            Ok(_) => Ok(attempts_made + 1),
            Err(message) => Err(with_actual_attempt_count(message, attempts_made)),
        },
        Err(message) => Err(with_actual_attempt_count(message, attempts_made)),
    }
}

/// A reply is tried again only while tries are left.
pub proof fn lemma_stt_again_is_bounded(
    reply: SttReply,
    model: Seq<char>,
    provider: Seq<char>,
    attempt: u32,
    maximum_attempts: u32,
)
    ensures
        stt_step(reply, model, provider, attempt, maximum_attempts) is Again ==> attempt
            < maximum_attempts,
        stt_step(reply, model, provider, attempt, maximum_attempts) is Done ==> stt_kept(
            reply,
            model,
            provider,
        ) is None,
{
}

} // verus!
