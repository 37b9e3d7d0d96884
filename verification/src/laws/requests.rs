//! When a request is made, when it is made again, and what it is charged with.
use vstd::prelude::*;
use crate::config::ConfigText;
use crate::media::chunks::are_halves;
use crate::media::MediaChunk;
use crate::openrouter::accounting::{catalog_cap, token_or_zero, CompletionView, RequestLedger};
use crate::openrouter::failure::{
    api_error_text, backoff_spec, is_retryable_error, retry_allowed, speaks_of_overflow,
    speaks_of_retry, speaks_of_safety, wait_spec, ApiError,
};
use crate::pipeline::{gets_second_text, routes_differ, split_fault};
use crate::text::{contains_text, lower_char, lowercased, occurs_at};
use crate::transcript::TranscriptMode;

verus! {

// ---------------------------------------------------------------------------
// Words
// ---------------------------------------------------------------------------

proof fn lemma_small_word(message: Seq<char>, word: Seq<char>)
    requires
        contains_text(message, word),
        forall|i: int| 0 <= i < word.len() ==> !('A' <= #[trigger] word[i] <= 'Z'),
    ensures
        contains_text(lowercased(message), word),
{
    let at = choose|at: int| #[trigger] occurs_at(message, at, word);
    let small = lowercased(message);
    assert(small.subrange(at, at + word.len()) =~= word) by {
        assert forall|i: int| 0 <= i < word.len() implies small[at + i] == word[i] by {
            assert(message.subrange(at, at + word.len())[i] == word[i]);
        }
    }
    assert(occurs_at(small, at, word));
}

/// A message with one of these words speaks of a safety rule.
pub proof fn lemma_words_of_safety(message: Seq<char>)
    ensures
        contains_text(message, "content_filter"@) || contains_text(message, "content filter"@)
            || contains_text(message, "safety"@) || contains_text(message, "moderation"@)
            || contains_text(message, "policy violation"@) || contains_text(
            message,
            "policy_error"@,
        ) || contains_text(message, "type=policy"@) || contains_text(
            message,
            "provider_code=policy"@,
        ) ==> speaks_of_safety(message),
{
    reveal_strlit("content_filter");
    reveal_strlit("content filter");
    reveal_strlit("safety");
    reveal_strlit("moderation");
    reveal_strlit("policy violation");
    reveal_strlit("policy_error");
    reveal_strlit("type=policy");
    reveal_strlit("provider_code=policy");
    if contains_text(message, "content_filter"@) {
        lemma_small_word(message, "content_filter"@);
    }
    if contains_text(message, "content filter"@) {
        lemma_small_word(message, "content filter"@);
    }
    if contains_text(message, "safety"@) {
        lemma_small_word(message, "safety"@);
    }
    if contains_text(message, "moderation"@) {
        lemma_small_word(message, "moderation"@);
    }
    if contains_text(message, "policy violation"@) {
        lemma_small_word(message, "policy violation"@);
    }
    if contains_text(message, "policy_error"@) {
        lemma_small_word(message, "policy_error"@);
    }
    if contains_text(message, "type=policy"@) {
        lemma_small_word(message, "type=policy"@);
    }
    if contains_text(message, "provider_code=policy"@) {
        lemma_small_word(message, "provider_code=policy"@);
    }
}

/// A message with one of these words says that the input is too long.
pub proof fn lemma_words_of_overflow(message: Seq<char>)
    ensures
        contains_text(message, "context length"@) || contains_text(message, "context window"@)
            || contains_text(message, "maximum context"@) || contains_text(
            message,
            "input is too long"@,
        ) || contains_text(message, "payload too large"@) || contains_text(
            message,
            "request too large"@,
        ) || contains_text(message, "too many tokens"@) || contains_text(
            message,
            "context_length_exceeded"@,
        ) || contains_text(message, "max_tokens_exceeded"@) || contains_text(
            message,
            "string_too_long"@,
        ) || contains_text(message, "payload_too_large"@) ==> speaks_of_overflow(message),
{
    reveal_strlit("context length");
    reveal_strlit("context window");
    reveal_strlit("maximum context");
    reveal_strlit("input is too long");
    reveal_strlit("payload too large");
    reveal_strlit("request too large");
    reveal_strlit("too many tokens");
    reveal_strlit("context_length_exceeded");
    reveal_strlit("max_tokens_exceeded");
    reveal_strlit("string_too_long");
    reveal_strlit("payload_too_large");
    if contains_text(message, "context length"@) {
        lemma_small_word(message, "context length"@);
    }
    if contains_text(message, "context window"@) {
        lemma_small_word(message, "context window"@);
    }
    if contains_text(message, "maximum context"@) {
        lemma_small_word(message, "maximum context"@);
    }
    if contains_text(message, "input is too long"@) {
        lemma_small_word(message, "input is too long"@);
    }
    if contains_text(message, "payload too large"@) {
        lemma_small_word(message, "payload too large"@);
    }
    if contains_text(message, "request too large"@) {
        lemma_small_word(message, "request too large"@);
    }
    if contains_text(message, "too many tokens"@) {
        lemma_small_word(message, "too many tokens"@);
    }
    if contains_text(message, "context_length_exceeded"@) {
        lemma_small_word(message, "context_length_exceeded"@);
    }
    if contains_text(message, "max_tokens_exceeded"@) {
        lemma_small_word(message, "max_tokens_exceeded"@);
    }
    if contains_text(message, "string_too_long"@) {
        lemma_small_word(message, "string_too_long"@);
    }
    if contains_text(message, "payload_too_large"@) {
        lemma_small_word(message, "payload_too_large"@);
    }
}

/// A message with one of these words says that another try may succeed.
pub proof fn lemma_words_of_retry(message: Seq<char>)
    ensures
        contains_text(message, "rate_limit"@) || contains_text(message, "rate limit"@)
            || contains_text(message, "temporarily"@) || contains_text(message, "timeout"@)
            || contains_text(message, "timed out"@) || contains_text(message, "overload"@)
            || contains_text(message, "unavailable"@) ==> speaks_of_retry(message),
{
    reveal_strlit("rate_limit");
    reveal_strlit("rate limit");
    reveal_strlit("temporarily");
    reveal_strlit("timeout");
    reveal_strlit("timed out");
    reveal_strlit("overload");
    reveal_strlit("unavailable");
    if contains_text(message, "rate_limit"@) {
        lemma_small_word(message, "rate_limit"@);
    }
    if contains_text(message, "rate limit"@) {
        lemma_small_word(message, "rate limit"@);
    }
    if contains_text(message, "temporarily"@) {
        lemma_small_word(message, "temporarily"@);
    }
    if contains_text(message, "timeout"@) {
        lemma_small_word(message, "timeout"@);
    }
    if contains_text(message, "timed out"@) {
        lemma_small_word(message, "timed out"@);
    }
    if contains_text(message, "overload"@) {
        lemma_small_word(message, "overload"@);
    }
    if contains_text(message, "unavailable"@) {
        lemma_small_word(message, "unavailable"@);
    }
}

/// The case of letters does not matter to what a message says.
pub proof fn lemma_case_does_not_matter(message: Seq<char>)
    ensures
        speaks_of_safety(lowercased(message)) == speaks_of_safety(message),
        speaks_of_overflow(lowercased(message)) == speaks_of_overflow(message),
        speaks_of_retry(lowercased(message)) == speaks_of_retry(message),
{
    let small = lowercased(message);
    assert(lowercased(small) =~= small);
}

/// A message without letters says nothing of the kind.
pub proof fn lemma_no_words(message: Seq<char>)
    requires
        forall|i: int|
            0 <= i < message.len() ==> !('a' <= #[trigger] message[i] <= 'z') && !('A'
                <= message[i] <= 'Z'),
    ensures
        !speaks_of_safety(message),
        !speaks_of_overflow(message),
        !speaks_of_retry(message),
{
    let small = lowercased(message);
    assert forall|i: int| 0 <= i < small.len() implies !('a' <= #[trigger] small[i] <= 'z') by {
        assert(small[i] == lower_char(message[i]));
    }
    assert forall|word: Seq<char>| word.len() > 0 && 'a' <= word[0] <= 'z' implies !(
    #[trigger] contains_text(small, word)) by {
        if contains_text(small, word) {
            let at = choose|at: int| #[trigger] occurs_at(small, at, word);
            assert(small.subrange(at, at + word.len())[0] == word[0]);
            assert(small[at] == word[0]);
        }
    }
    reveal_strlit("content_filter");
    reveal_strlit("content filter");
    reveal_strlit("safety");
    reveal_strlit("provider_code=safety");
    reveal_strlit("type=safety");
    reveal_strlit("moderation");
    reveal_strlit("policy violation");
    reveal_strlit("policy_error");
    reveal_strlit("type=policy");
    reveal_strlit("provider_code=policy");
    reveal_strlit("context length");
    reveal_strlit("context window");
    reveal_strlit("maximum context");
    reveal_strlit("input is too long");
    reveal_strlit("payload too large");
    reveal_strlit("request too large");
    reveal_strlit("too many tokens");
    reveal_strlit("context_length_exceeded");
    reveal_strlit("max_tokens_exceeded");
    reveal_strlit("string_too_long");
    reveal_strlit("payload_too_large");
    reveal_strlit("rate_limit");
    reveal_strlit("rate limit");
    reveal_strlit("temporarily");
    reveal_strlit("timeout");
    reveal_strlit("timed out");
    reveal_strlit("overload");
    reveal_strlit("unavailable");
}

// ---------------------------------------------------------------------------
// Tries
// ---------------------------------------------------------------------------

/// After a status alone a request is made again for nine statuses and no others,
/// and only while tries are left; and an error that speaks of safety ends all
/// tries.
pub proof fn lemma_status_decides(status: u16, error: ApiError, attempt: u32, maximum: u32)
    ensures
        retry_allowed(Some(status), None, attempt, maximum) <==> attempt < maximum && (status == 408
            || status == 409 || status == 429 || status == 500 || status == 502 || status == 503
            || status == 504 || status == 524 || status == 529),
        !retry_allowed(None, None, attempt, maximum),
        speaks_of_safety(api_error_text(error)) ==> !retry_allowed(
            Some(status),
            Some(error),
            attempt,
            maximum,
        ) && !is_retryable_error(error),
        attempt >= maximum ==> !retry_allowed(Some(status), Some(error), attempt, maximum),
        speaks_of_retry(api_error_text(error)) && !speaks_of_safety(api_error_text(error))
            && attempt < maximum ==> retry_allowed(None, Some(error), attempt, maximum),
{
}

/// The time between two tries starts with a second and doubles up to half a
/// minute; what a reply asks for comes first.
pub proof fn lemma_waits_double(attempt: u32, seconds: u64)
    ensures
        backoff_spec(0) == 1,
        attempt < 4 ==> backoff_spec((attempt + 1) as u32) == 2 * backoff_spec(attempt),
        attempt >= 5 ==> backoff_spec(attempt) == 30,
        backoff_spec(attempt) <= 30,
        wait_spec(attempt, Some(seconds)) == seconds,
        wait_spec(attempt, None) == backoff_spec(attempt),
{
}

/// A request is made only where it and all that have to follow it fit in what a
/// task may make.
pub proof fn lemma_budget(ledger: RequestLedger, floor: u32)
    requires
        ledger.well_formed(),
    ensures
        ledger.allows_attempt(floor) <==> ledger.http_attempts + 1 + floor
            <= ledger.max_http_attempts,
{
}

/// The catalogs may be asked four times for each request and eight times more,
/// and never more than forty thousand and eight times.
pub proof fn lemma_catalog_cap(max_http_attempts: u32)
    ensures
        catalog_cap(max_http_attempts) <= 40_008,
        max_http_attempts <= 10_000 ==> catalog_cap(max_http_attempts) == 4 * max_http_attempts + 8,
        max_http_attempts >= 10_000 ==> catalog_cap(max_http_attempts) == 40_008,
{
}

/// What is reported counts up to a million millions of tokens; what is not, or
/// is more, counts nothing. The tokens that can be seen and those of reasoning
/// are together all.
pub proof fn lemma_tokens_counted(tokens: u64, completion: CompletionView)
    ensures
        tokens <= 1_000_000_000_000 ==> token_or_zero(Some(tokens)) == tokens,
        tokens > 1_000_000_000_000 ==> token_or_zero(Some(tokens)) == 0,
        token_or_zero(None) == 0,
        completion.reasoning_tokens <= completion.completion_tokens ==> completion.visible_tokens()
            + completion.reasoning_tokens == completion.completion_tokens,
        completion.reasoning_tokens > completion.completion_tokens ==> completion.visible_tokens()
            == 0,
        completion.without_text().text.len() == 0,
        completion.without_text().cost == completion.cost,
        completion.without_text().prompt_tokens == completion.prompt_tokens,
{
}

// ---------------------------------------------------------------------------
// Pieces
// ---------------------------------------------------------------------------

/// By sampling, the first piece has a second text, and of any five that follow
/// one another exactly one has.
pub proof fn lemma_one_in_five(index: int)
    requires
        index >= 0,
    ensures
        gets_second_text(TranscriptMode::Quality, false, 0),
        exists|k: int|
            0 <= k < 5 && #[trigger] gets_second_text(TranscriptMode::Quality, false, index + k),
        forall|j: int, k: int|
            0 <= j < 5 && 0 <= k < 5 && #[trigger] gets_second_text(
                TranscriptMode::Quality,
                false,
                index + j,
            ) && #[trigger] gets_second_text(TranscriptMode::Quality, false, index + k) ==> j == k,
        gets_second_text(TranscriptMode::Quality, true, index),
        !gets_second_text(TranscriptMode::Raw, false, index),
        !gets_second_text(TranscriptMode::Raw, true, index),
{
    let k = (5 - index % 5) % 5;
    assert((index + k) % 5 == 0);
    assert(gets_second_text(TranscriptMode::Quality, false, index + k));
}

/// Two routes are independent where the models differ, or where both providers
/// are named and differ; a provider that may be any other is never enough.
pub proof fn lemma_independent_routes(config: ConfigText)
    ensures
        config.asr_model != config.quality_asr_model ==> routes_differ(config),
        config.asr_model == config.quality_asr_model && config.asr_provider
            == config.quality_asr_provider ==> !routes_differ(config),
        config.asr_model == config.quality_asr_model && (config.asr_provider == "any"@
            || config.quality_asr_provider == "any"@) ==> !routes_differ(config),
        routes_differ(config) == routes_differ(
            ConfigText {
                asr_model: config.quality_asr_model,
                quality_asr_model: config.asr_model,
                asr_provider: config.quality_asr_provider,
                quality_asr_provider: config.asr_provider,
                ..config
            },
        ),
{
    reveal_strlit("any");
    assert(lowercased("any"@) =~= "any"@);
}

/// A piece is cut in two only where both halves are long enough and it was not
/// cut too often.
pub proof fn lemma_halves_are_long_enough(
    left: MediaChunk,
    right: MediaChunk,
    chunk: MediaChunk,
    depth: u8,
    config: ConfigText,
    reason: Seq<char>,
    overlap_ms: u64,
)
    requires
        chunk.start_ms <= chunk.end_ms,
        split_fault(chunk, depth, config, reason) is None,
        are_halves(left, right, chunk, overlap_ms),
    ensures
        left.end_ms - left.start_ms >= config.min_chunk_seconds * 1_000,
        right.end_ms - right.start_ms >= config.min_chunk_seconds * 1_000,
        depth + 1 <= config.max_adaptive_depth,
{
}

/// A piece that is long enough and was not cut too often is cut.
pub proof fn lemma_long_piece_is_cut(
    chunk: MediaChunk,
    depth: u8,
    config: ConfigText,
    reason: Seq<char>,
)
    requires
        chunk.start_ms <= chunk.end_ms,
    ensures
        split_fault(chunk, depth, config, reason) is None <==> depth < config.max_adaptive_depth
            && chunk.end_ms - chunk.start_ms >= 2_000 * config.min_chunk_seconds,
{
}

} // verus!
