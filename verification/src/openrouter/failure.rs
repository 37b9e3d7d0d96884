//! What went wrong with a request, and whether another try is worth it.
use vstd::prelude::*;
use crate::text::{
    all_digits, ascii_lowercase, bounded, bounded_text, chars_in_range, chars_of, contains_str,
    contains_text, decimal, decimal_string, digits_value, lowercased, parse_digits, text4, lossy_text, lossy_text_of,
};

verus! {

/// The largest response that is read.
pub const MAX_RESPONSE_BYTES: u64 = 16 * 1024 * 1024;

/// The largest medium that one request carries.
pub const MAX_REQUEST_MEDIA_BYTES: u64 = 32 * 1024 * 1024;

/// The code of an error: its JSON text, and the number or the text that it is.
#[derive(Debug)]
pub struct ErrorCode {
    pub shown: String,
    pub number: Option<u64>,
    pub text: Option<String>,
}

#[derive(Debug)]
pub struct ApiErrorMetadata {
    pub error_type: Option<String>,
    pub provider_code: Option<String>,
}

/// An error that a reply reports.
#[derive(Debug)]
pub struct ApiError {
    pub code: Option<ErrorCode>,
    pub message: Option<String>,
    pub metadata: Option<ApiErrorMetadata>,
}

pub open spec fn text_or_else(text: Option<String>, fallback: Seq<char>) -> Seq<char> {
    match text {
        Some(found) => found@,
        None => fallback,
    }
}

pub open spec fn code_text(error: ApiError) -> Seq<char> {
    match error.code {
        Some(code) => code.shown@,
        None => "unknown"@,
    }
}

pub open spec fn error_type_text(error: ApiError) -> Seq<char> {
    match error.metadata {
        Some(metadata) => text_or_else(metadata.error_type, "unknown"@),
        None => "unknown"@,
    }
}

pub open spec fn provider_code_text(error: ApiError) -> Seq<char> {
    match error.metadata {
        Some(metadata) => text_or_else(metadata.provider_code, "unknown"@),
        None => "unknown"@,
    }
}

/// An error in words.
pub open spec fn api_error_text(error: ApiError) -> Seq<char> {
    "OpenRouter 错误 code="@ + code_text(error) + ", type="@ + error_type_text(error)
        + ", provider_code="@ + provider_code_text(error) + "："@ + text_or_else(
        error.message,
        "未知上游错误"@,
    )
}

fn str_or<'a>(text: &'a Option<String>, fallback: &'a str) -> (result: &'a str)
    ensures
        result@ == text_or_else(*text, fallback@),
{
    match text {
        Some(found) => found.as_str(),
        None => fallback,
    }
}

pub fn format_api_error(error: &ApiError) -> (text: String)
    ensures
        text@ == api_error_text(*error),
{
    let code = match &error.code {
        Some(code) => code.shown.as_str(),
        None => "unknown",
    };
    let error_type = match &error.metadata {
        Some(metadata) => str_or(&metadata.error_type, "unknown"),
        None => "unknown",
    };
    let provider_code = match &error.metadata {
        Some(metadata) => str_or(&metadata.provider_code, "unknown"),
        None => "unknown",
    };
    let message = str_or(&error.message, "未知上游错误");
    let mut text = text4("OpenRouter 错误 code=", code, ", type=", error_type);
    text.append(", provider_code=");
    text.append(provider_code);
    text.append("：");
    text.append(message);
    text
}

// ---------------------------------------------------------------------------
// What a message says
// ---------------------------------------------------------------------------

/// A message speaks of a safety rule: another try would be refused again.
pub open spec fn speaks_of_safety(message: Seq<char>) -> bool {
    let lower = lowercased(message);
    ||| contains_text(lower, "content_filter"@)
    ||| contains_text(lower, "content filter"@)
    ||| contains_text(lower, "safety"@)
    ||| contains_text(lower, "provider_code=safety"@)
    ||| contains_text(lower, "type=safety"@)
    ||| contains_text(lower, "moderation"@)
    ||| contains_text(lower, "policy violation"@)
    ||| contains_text(lower, "policy_error"@)
    ||| contains_text(lower, "type=policy"@)
    ||| contains_text(lower, "provider_code=policy"@)
}

pub fn non_retryable_safety_diagnostic(diagnostic: &str) -> (result: bool)
    ensures
        result == speaks_of_safety(diagnostic@),
{
    let lower = ascii_lowercase(diagnostic);
    let found = lower.as_str();
    contains_str(found, "content_filter")
        || contains_str(found, "content filter")
        || contains_str(found, "safety")
        || contains_str(found, "provider_code=safety")
        || contains_str(found, "type=safety")
        || contains_str(found, "moderation")
        || contains_str(found, "policy violation")
        || contains_str(found, "policy_error")
        || contains_str(found, "type=policy")
        || contains_str(found, "provider_code=policy")
}

/// A message says that the input is too long for the model.
pub open spec fn speaks_of_overflow(message: Seq<char>) -> bool {
    let lower = lowercased(message);
    ||| contains_text(lower, "context length"@)
    ||| contains_text(lower, "context window"@)
    ||| contains_text(lower, "maximum context"@)
    ||| contains_text(lower, "input is too long"@)
    ||| contains_text(lower, "payload too large"@)
    ||| contains_text(lower, "request too large"@)
    ||| contains_text(lower, "too many tokens"@)
    ||| contains_text(lower, "context_length_exceeded"@)
    ||| contains_text(lower, "max_tokens_exceeded"@)
    ||| contains_text(lower, "string_too_long"@)
    ||| contains_text(lower, "payload_too_large"@)
}

pub fn indicates_context_overflow(message: &str) -> (result: bool)
    ensures
        result == speaks_of_overflow(message@),
{
    let lower = ascii_lowercase(message);
    let found = lower.as_str();
    contains_str(found, "context length")
        || contains_str(found, "context window")
        || contains_str(found, "maximum context")
        || contains_str(found, "input is too long")
        || contains_str(found, "payload too large")
        || contains_str(found, "request too large")
        || contains_str(found, "too many tokens")
        || contains_str(found, "context_length_exceeded")
        || contains_str(found, "max_tokens_exceeded")
        || contains_str(found, "string_too_long")
        || contains_str(found, "payload_too_large")
}

/// A message says that another try may succeed.
pub open spec fn speaks_of_retry(message: Seq<char>) -> bool {
    let lower = lowercased(message);
    ||| contains_text(lower, "rate_limit"@)
    ||| contains_text(lower, "rate limit"@)
    ||| contains_text(lower, "temporarily"@)
    ||| contains_text(lower, "timeout"@)
    ||| contains_text(lower, "timed out"@)
    ||| contains_text(lower, "overload"@)
    ||| contains_text(lower, "unavailable"@)
}

fn suggests_retry(message: &str) -> (result: bool)
    ensures
        result == speaks_of_retry(message@),
{
    let lower = ascii_lowercase(message);
    let found = lower.as_str();
    contains_str(found, "rate_limit")
        || contains_str(found, "rate limit")
        || contains_str(found, "temporarily")
        || contains_str(found, "timeout")
        || contains_str(found, "timed out")
        || contains_str(found, "overload")
        || contains_str(found, "unavailable")
}

// ---------------------------------------------------------------------------
// Retry
// ---------------------------------------------------------------------------

/// A status or code that another try may change.
pub open spec fn is_retry_code(code: int) -> bool {
    code == 408 || code == 409 || code == 429 || code == 500 || code == 502 || code == 503 || code
        == 504 || code == 524 || code == 529
}

pub fn retryable_status(status: u16) -> (result: bool)
    ensures
        result == is_retry_code(status as int),
{
    status == 408 || status == 409 || status == 429 || status == 500 || status == 502 || status
        == 503 || status == 504 || status == 524 || status == 529
}

/// The digits of a natural number, without the plus sign that may stand
/// before them.
pub open spec fn number_digits(text: Seq<char>) -> Seq<char> {
    if text.len() > 0 && text[0] == '+' {
        text.drop_first()
    } else {
        text
    }
}

/// The natural number of 64 bits that a text writes.
pub open spec fn written_number(text: Seq<char>) -> Option<nat> {
    let digits = number_digits(text);
    if digits.len() > 0 && all_digits(digits) && digits_value(digits) <= u64::MAX {
        Some(digits_value(digits))
    } else {
        None
    }
}

pub fn parse_number(text: &str) -> (result: Option<u64>)
    ensures
        match result {
            Some(n) => written_number(text@) == Some(n as nat),
            None => written_number(text@) is None,
        },
{
    let chars = chars_of(text);
    if chars.len() > 0 && chars[0] == '+' {
        let digits = chars_in_range(chars.as_slice(), 1, chars.len());
        assert(digits@ =~= text@.drop_first());
        parse_digits(digits.as_slice())
    } else {
        parse_digits(chars.as_slice())
    }
}

/// The number of an error's code.
pub open spec fn code_number(error: ApiError) -> Option<nat> {
    match error.code {
        Some(code) => match code.number {
            Some(n) => Some(n as nat),
            None => match code.text {
                Some(text) => written_number(text@),
                None => None,
            },
        },
        None => None,
    }
}

/// Another try may change an error: safety does not forbid it, and its code or
/// its words allow it.
pub open spec fn is_retryable_error(error: ApiError) -> bool {
    !speaks_of_safety(api_error_text(error)) && ((code_number(error) is Some && is_retry_code(
        code_number(error)->0 as int,
    )) || speaks_of_retry(api_error_text(error)))
}

pub fn non_retryable_safety_error(error: &ApiError) -> (result: bool)
    ensures
        result == speaks_of_safety(api_error_text(*error)),
{
    let text = format_api_error(error);
    non_retryable_safety_diagnostic(text.as_str())
}

pub fn retryable_api_error(error: &ApiError) -> (result: bool)
    ensures
        result == is_retryable_error(*error),
{
    if non_retryable_safety_error(error) {
        return false;
    }
    let number: Option<u64> = match &error.code {
        Some(code) => match code.number {
            Some(n) => Some(n),
            None => match &code.text {
                Some(text) => parse_number(text.as_str()),
                None => None,
            },
        },
        None => None,
    };
    if let Some(n) = number {
        if n <= 0xffff && retryable_status(n as u16) {
            return true;
        }
    }
    let diagnostic = format_api_error(error);
    suggests_retry(diagnostic.as_str())
}

/// Whether a request is tried again after a status or an error.
pub open spec fn retry_allowed(
    status: Option<u16>,
    error: Option<ApiError>,
    attempt: u32,
    maximum_attempts: u32,
) -> bool {
    &&& attempt < maximum_attempts
    &&& !(error is Some && speaks_of_safety(api_error_text(error->0)))
    &&& ((status is Some && is_retry_code(status->0 as int)) || (error is Some
        && is_retryable_error(error->0)))
}

pub fn api_retry_allowed(
    status: Option<u16>,
    error: Option<&ApiError>,
    attempt: u32,
    maximum_attempts: u32,
) -> (result: bool)
    ensures
        result == retry_allowed(
            status,
            (match error {
                Some(found) => Some(*found),
                None => None,
            }),
            attempt,
            maximum_attempts,
        ),
{
    if attempt >= maximum_attempts {
        return false;
    }
    if let Some(found) = error {
        if non_retryable_safety_error(found) {
            return false;
        }
        if retryable_api_error(found) {
            return true;
        }
    }
    match status {
        Some(code) => retryable_status(code),
        None => false,
    }
}

/// How long to wait after a try: twice as long each time, at most 30 seconds.
pub open spec fn backoff_spec(attempt: u32) -> u64 {
    if attempt == 0 {
        1
    } else if attempt == 1 {
        2
    } else if attempt == 2 {
        4
    } else if attempt == 3 {
        8
    } else if attempt == 4 {
        16
    } else {
        30
    }
}

pub fn backoff_seconds(attempt: u32) -> (seconds: u64)
    ensures
        seconds == backoff_spec(attempt),
{
    if attempt == 0 {
        1
    } else if attempt == 1 {
        2
    } else if attempt == 2 {
        4
    } else if attempt == 3 {
        8
    } else if attempt == 4 {
        16
    } else {
        30
    }
}

/// How long to wait after a try, where the reply may have said so.
pub open spec fn wait_spec(attempt: u32, retry_after: Option<u64>) -> u64 {
    match retry_after {
        Some(seconds) => seconds,
        None => backoff_spec(attempt),
    }
}

pub fn wait_seconds(attempt: u32, retry_after: Option<u64>) -> (seconds: u64)
    ensures
        seconds == wait_spec(attempt, retry_after),
{
    match retry_after {
        Some(seconds) => seconds,
        None => backoff_seconds(attempt),
    }
}

/// The seconds that a reply asks to wait, at most five minutes.
pub fn retry_after_seconds(header: &str) -> (seconds: Option<u64>)
    ensures
        match seconds {
            Some(n) => written_number(header@) is Some && n == (if written_number(header@)->0
                > 300 {
                300nat
            } else {
                written_number(header@)->0
            }),
            None => written_number(header@) is None,
        },
{
    match parse_number(header) {
        Some(n) => if n > 300 {
            Some(300)
        } else {
            Some(n)
        },
        None => None,
    }
}

// ---------------------------------------------------------------------------
// Messages and limits
// ---------------------------------------------------------------------------

pub open spec fn request_failure_text(attempts_made: u32, last_error: Seq<char>) -> Seq<char> {
    "OpenRouter 请求在 "@ + decimal(attempts_made as nat) + " 次尝试后失败："@ + last_error
}

pub fn format_request_failure(attempts_made: u32, last_error: &str) -> (text: String)
    ensures
        text@ == request_failure_text(attempts_made, last_error@),
{
    let count = decimal_string(attempts_made as u64);
    text4("OpenRouter 请求在 ", count.as_str(), " 次尝试后失败：", last_error)
}

/// An error with the number of tries that were made, where there was one.
pub open spec fn counted_error(error: Seq<char>, attempts_made: u32) -> Seq<char> {
    if attempts_made == 0 {
        error
    } else {
        request_failure_text(attempts_made, error)
    }
}

pub fn with_actual_attempt_count(error: String, attempts_made: u32) -> (text: String)
    ensures
        text@ == counted_error(error@, attempts_made),
{
    if attempts_made == 0 {
        error
    } else {
        format_request_failure(attempts_made, error.as_str())
    }
}

/// A response is too large, by what it announces or by what was read of it.
#[derive(Clone, Copy, Debug, PartialEq, Eq, Structural)]
pub struct ResponseLimitExceeded {
    pub streamed: bool,
}

impl ResponseLimitExceeded {
    pub open spec fn text(self) -> Seq<char> {
        if self.streamed {
            "OpenRouter 分块响应超过 16 MiB 安全上限"@
        } else {
            "OpenRouter 响应超过 16 MiB 安全上限"@
        }
    }

    pub fn message(self) -> (text: &'static str)
        ensures
            text@ == self.text(),
    {
        if self.streamed {
            "OpenRouter 分块响应超过 16 MiB 安全上限"
        } else {
            "OpenRouter 响应超过 16 MiB 安全上限"
        }
    }
}

/// Checks the length that a response announces.
pub fn check_content_length(length: Option<u64>) -> (result: Result<(), ResponseLimitExceeded>)
    ensures
        match result {
            Ok(_) => length is None || length->0 <= MAX_RESPONSE_BYTES,
            Err(limit) => length is Some && length->0 > MAX_RESPONSE_BYTES && !limit.streamed,
        },
{
    match length {
        Some(bytes) => if bytes > MAX_RESPONSE_BYTES {
            Err(ResponseLimitExceeded { streamed: false })
        } else {
            Ok(())
        },
        None => Ok(()),
    }
}

/// Checks that a part of a response still fits behind what was read.
pub fn check_chunk_length(read: u64, chunk: u64) -> (result: Result<(), ResponseLimitExceeded>)
    ensures
        match result {
            Ok(_) => read + chunk <= MAX_RESPONSE_BYTES,
            Err(limit) => read + chunk > MAX_RESPONSE_BYTES && limit.streamed,
        },
{
    if read > MAX_RESPONSE_BYTES || chunk > MAX_RESPONSE_BYTES - read {
        Err(ResponseLimitExceeded { streamed: true })
    } else {
        Ok(())
    }
}

/// Checks that a medium fits into one request.
pub fn validate_request_media_length(length: u64) -> (result: Result<(), String>)
    ensures
        match result {
            Ok(_) => length <= MAX_REQUEST_MEDIA_BYTES,
            Err(message) => length > MAX_REQUEST_MEDIA_BYTES && message@
                == "单个请求的媒体数据超过 32 MiB 安全上限"@,
        },
{
    if length > MAX_REQUEST_MEDIA_BYTES {
        Err("单个请求的媒体数据超过 32 MiB 安全上限".to_owned())
    } else {
        Ok(())
    }
}

// ---------------------------------------------------------------------------
// What a body says
// ---------------------------------------------------------------------------

/// What stands at a place of a JSON document.
#[derive(Debug)]
pub enum JsonPlace {
    /// The bytes are no JSON document.
    NoDocument,
    Missing,
    Text(String),
    Other,
}

/// What stands at a place of a JSON document, with its text.
pub ghost enum JsonPlaceView {
    NoDocument,
    Missing,
    Text(Seq<char>),
    Other,
}

impl View for JsonPlace {
    type V = JsonPlaceView;

    open spec fn view(&self) -> JsonPlaceView {
        match self {
            JsonPlace::NoDocument => JsonPlaceView::NoDocument,
            JsonPlace::Missing => JsonPlaceView::Missing,
            JsonPlace::Text(text) => JsonPlaceView::Text(text@),
            JsonPlace::Other => JsonPlaceView::Other,
        }
    }
}

/// What `serde_json` finds in bytes at a JSON pointer.
pub uninterp spec fn json_place_of(bytes: Seq<u8>, pointer: Seq<char>) -> JsonPlaceView;

/// `serde_json::from_slice` into a value and `Value::pointer`: what the value
/// holds at the pointer is a function of the bytes and the pointer.
#[verifier::external_body]
fn json_place(bytes: &[u8], pointer: &str) -> (place: JsonPlace)
    ensures
        place@ == json_place_of(bytes@, pointer@),
{
    match serde_json::from_slice::<serde_json::Value>(bytes) {
        Err(_) => JsonPlace::NoDocument,
        Ok(document) => match document.pointer(pointer) {
            None => JsonPlace::Missing,
            Some(serde_json::Value::String(text)) => JsonPlace::Text(text.clone()),
            Some(_) => JsonPlace::Other,
        },
    }
}

/// The message of a body: that of its error, else its own, else the body.
pub open spec fn chosen_message(
    inner: JsonPlaceView,
    outer: JsonPlaceView,
    body: Seq<char>,
) -> Seq<char> {
    match inner {
        JsonPlaceView::Text(text) => bounded_text(text, 1_000),
        JsonPlaceView::Missing => match outer {
            JsonPlaceView::Text(text) => bounded_text(text, 1_000),
            _ => bounded_text(body, 1_000),
        },
        _ => bounded_text(body, 1_000),
    }
}

/// The message of a body by what stands at its two places.
pub fn choose_message(inner: JsonPlace, outer: JsonPlace, body: &str) -> (message: String)
    ensures
        message@ == chosen_message(inner@, outer@, body@),
{
    match inner {
        JsonPlace::Text(text) => bounded(text.as_str(), 1_000),
        JsonPlace::Missing => match outer {
            JsonPlace::Text(text) => bounded(text.as_str(), 1_000),
            _ => bounded(body, 1_000),
        },
        _ => bounded(body, 1_000),
    }
}

pub open spec fn body_message(bytes: Seq<u8>) -> Seq<char> {
    chosen_message(
        json_place_of(bytes, "/error/message"@),
        json_place_of(bytes, "/message"@),
        lossy_text_of(bytes),
    )
}

/// The message of the body of a reply.
pub fn extract_error_message(bytes: &[u8]) -> (message: String)
    ensures
        message@ == body_message(bytes@),
{
    let inner = json_place(bytes, "/error/message");
    let outer = json_place(bytes, "/message");
    let body = lossy_text(bytes);
    choose_message(inner, outer, body.as_str())
}

/// A body or the message that was found in it speaks of a safety rule.
pub open spec fn body_speaks_of_safety(bytes: Seq<u8>, message: Seq<char>) -> bool {
    speaks_of_safety(message) || speaks_of_safety(lossy_text_of(bytes))
}

pub fn non_retryable_safety_response(bytes: &[u8], extracted_diagnostic: &str) -> (result: bool)
    ensures
        result == body_speaks_of_safety(bytes@, extracted_diagnostic@),
{
    if non_retryable_safety_diagnostic(extracted_diagnostic) {
        return true;
    }
    let body = lossy_text(bytes);
    non_retryable_safety_diagnostic(body.as_str())
}

// ---------------------------------------------------------------------------
// Laws
// ---------------------------------------------------------------------------

/// What speaks of a safety rule is never tried again, whatever its status or
/// its code.
pub proof fn lemma_safety_is_final(
    status: Option<u16>,
    error: ApiError,
    attempt: u32,
    maximum_attempts: u32,
)
    requires
        speaks_of_safety(api_error_text(error)),
    ensures
        !retry_allowed(status, Some(error), attempt, maximum_attempts),
        !is_retryable_error(error),
{
}

} // verus!
