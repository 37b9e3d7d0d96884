//! Replies to chat requests: which are used, which are split, which are tried
//! again, and what is kept of the others.
use vstd::prelude::*;
use vstd::utf8::is_ascii_chars_encode_utf8;
use crate::config::{
    is_any_provider, is_route_char, model_fault, names_any_provider, provider_fault,
    validate_model_id, Config, ConfigText,
};
use crate::double::Double;
use crate::json::{text_field, text_in, field, Json};
use crate::openrouter::accounting::{
    accounting_fault, bounded_reported_cost, bounded_reported_model, bounded_reported_provider,
    bounded_reported_token, completion_views, cost_or_zero, cost_reported, is_provider_name,
    is_provider_name_char,
    model_name, provider_name, token_or_zero, token_reported, valid_reported_cost,
    valid_reported_model, valid_reported_provider, valid_reported_token,
    validate_completion_accounting, Completion, CompletionOrigin, CompletionView, RequestLedger,
};
use crate::openrouter::failure::{
    api_error_text, api_retry_allowed, backoff_seconds, backoff_spec, body_message,
    body_speaks_of_safety, counted_error, extract_error_message, format_api_error,
    format_request_failure, indicates_context_overflow, is_retryable_error,
    non_retryable_safety_diagnostic, non_retryable_safety_response, request_failure_text,
    retry_allowed, retryable_api_error, speaks_of_overflow, speaks_of_safety, wait_seconds,
    wait_spec, with_actual_attempt_count, ApiError,
};
use crate::text::{
    as_optional, ascii_alphanumeric, bounded, bounded_text, chars_of, decimal, decimal_string,
    is_ascii_alphanumeric_char, join, joined, lower_char, lowercased, optional_str, optional_text, same_text,
    starts_with, starts_with_str, text2, text3, text4, text5, texts, to_lower, trim, trimmed,
};

verus! {

#[derive(Debug)]
pub struct Message {
    pub content: Json,
}

#[derive(Debug)]
pub struct Choice {
    pub finish_reason: Option<String>,
    pub message: Option<Message>,
    pub error: Option<ApiError>,
}

#[derive(Debug)]
pub struct CompletionTokenDetails {
    pub reasoning_tokens: Option<u64>,
}

/// What a reply reports of its use.
#[derive(Debug)]
pub struct Usage {
    pub prompt_tokens: Option<u64>,
    pub completion_tokens: Option<u64>,
    pub completion_tokens_details: Option<CompletionTokenDetails>,
    pub cost: Option<Double>,
}

/// The reply to a chat request.
#[derive(Debug)]
pub struct ChatResponse {
    pub choices: Vec<Choice>,
    pub model: Option<String>,
    pub provider: Option<String>,
    pub usage: Option<Usage>,
    pub error: Option<ApiError>,
}

// ---------------------------------------------------------------------------
// The text of a reply
// ---------------------------------------------------------------------------

/// The texts of those of the first `n` parts that have one.
pub open spec fn part_texts(items: Seq<Json>, n: nat) -> Seq<Seq<char>>
    decreases n,
{
    if n == 0 {
        Seq::empty()
    } else {
        let before = part_texts(items, (n - 1) as nat);
        match text_in(field(items[n - 1], "text"@)) {
            Some(text) => before.push(text),
            None => before,
        }
    }
}

/// The text of the content of a message.
pub open spec fn content_text(content: Json) -> Seq<char> {
    match content {
        Json::Text(text) => trimmed(text@),
        Json::Array(items) => trimmed(joined(part_texts(items@, items@.len()), "\n"@)),
        _ => Seq::empty(),
    }
}

pub fn extract_text(content: &Json) -> (result: String)
    ensures
        result@ == content_text(*content),
{
    match content {
        Json::Text(text) => trim(text.as_str()),
        Json::Array(items) => {
            let mut parts: Vec<String> = Vec::new();
            let mut n: usize = 0;
            assert(texts(parts@) =~= part_texts(items@, 0));
            while n < items.len()
                invariant
                    n <= items@.len(),
                    texts(parts@) == part_texts(items@, n as nat),
                decreases items@.len() - n,
            {
                let ghost before = texts(parts@);
                if let Some(text) = text_field(&items[n], "text") {
                    let part = text.to_owned();
                    parts.push(part);
                    assert(texts(parts@) =~= before.push(part@));
                }
                n += 1;
            }
            let all = join(parts.as_slice(), "\n");
            trim(all.as_str())
        },
        _ => String::new(),
    }
}

// ---------------------------------------------------------------------------
// Usage
// ---------------------------------------------------------------------------

pub open spec fn reasoning_of(usage: Usage) -> Option<u64> {
    match usage.completion_tokens_details {
        Some(details) => details.reasoning_tokens,
        None => None,
    }
}

fn reasoning_tokens(usage: &Usage) -> (tokens: Option<u64>)
    ensures
        tokens == reasoning_of(*usage),
{
    match &usage.completion_tokens_details {
        Some(details) => details.reasoning_tokens,
        None => None,
    }
}

/// The tokens and the cost of a reply are all reported.
pub open spec fn usage_complete(usage: Option<Usage>) -> bool {
    match usage {
        Some(found) => token_reported(found.prompt_tokens) && token_reported(
            found.completion_tokens,
        ) && cost_reported(found.cost),
        None => false,
    }
}

pub fn complete_usage_reported(usage: Option<&Usage>) -> (result: bool)
    ensures
        result == usage_complete(
            (match usage {
                Some(found) => Some(*found),
                None => None,
            }),
        ),
{
    match usage {
        Some(found) => valid_reported_token(found.prompt_tokens) && valid_reported_token(
            found.completion_tokens,
        ) && valid_reported_cost(found.cost),
        None => false,
    }
}

pub open spec fn output_tokens_known(usage: Option<Usage>) -> bool {
    match usage {
        Some(found) => token_reported(found.completion_tokens),
        None => false,
    }
}

pub fn completion_tokens_reported(usage: Option<&Usage>) -> (result: bool)
    ensures
        result == output_tokens_known(
            (match usage {
                Some(found) => Some(*found),
                None => None,
            }),
        ),
{
    match usage {
        Some(found) => valid_reported_token(found.completion_tokens),
        None => false,
    }
}

// ---------------------------------------------------------------------------
// Routes
// ---------------------------------------------------------------------------

/// The letters and digits among the first `n` characters, in lower case.
pub open spec fn plain_name(text: Seq<char>, n: nat) -> Seq<char>
    decreases n,
{
    if n == 0 {
        Seq::empty()
    } else {
        let before = plain_name(text, (n - 1) as nat);
        if is_ascii_alphanumeric_char(text[n - 1]) {
            before.push(lower_char(text[n - 1]))
        } else {
            before
        }
    }
}

/// The vendor that a provider's name begins with.
pub open spec fn vendor_of(value: Seq<char>) -> Option<Seq<char>> {
    let name = plain_name(value, value.len());
    if starts_with(name, "google"@) {
        Some("google"@)
    } else if starts_with(name, "deepinfra"@) {
        Some("deepinfra"@)
    } else if starts_with(name, "fishaudio"@) {
        Some("fish-audio"@)
    } else if starts_with(name, "openai"@) {
        Some("openai"@)
    } else if starts_with(name, "anthropic"@) {
        Some("anthropic"@)
    } else if starts_with(name, "amazonbedrock"@) {
        Some("amazon-bedrock"@)
    } else if starts_with(name, "bedrock"@) {
        Some("amazon-bedrock"@)
    } else if starts_with(name, "azure"@) {
        Some("azure"@)
    } else if starts_with(name, "mistral"@) {
        Some("mistral"@)
    } else if starts_with(name, "groq"@) {
        Some("groq"@)
    } else if starts_with(name, "together"@) {
        Some("together"@)
    } else if starts_with(name, "fireworks"@) {
        Some("fireworks"@)
    } else if starts_with(name, "cerebras"@) {
        Some("cerebras"@)
    } else if starts_with(name, "cohere"@) {
        Some("cohere"@)
    } else if starts_with(name, "novita"@) {
        Some("novita"@)
    } else if starts_with(name, "siliconflow"@) {
        Some("siliconflow"@)
    } else if starts_with(name, "xai"@) {
        Some("xai"@)
    } else {
        None
    }
}

pub fn known_chat_provider_vendor(value: &str) -> (vendor: Option<&'static str>)
    ensures
        optional_str(vendor) == vendor_of(value@),
{
    let chars = chars_of(value);
    let mut plain = String::new();
    let mut i: usize = 0;
    while i < chars.len()
        invariant
            i <= chars@.len(),
            chars@ == value@,
            plain@ == plain_name(value@, i as nat),
        decreases chars@.len() - i,
    {
        if ascii_alphanumeric(chars[i]) {
            plain.push(to_lower(chars[i]));
        }
        i += 1;
    }
    let name = plain.as_str();
    if starts_with_str(name, "google") {
        Some("google")
    } else if starts_with_str(name, "deepinfra") {
        Some("deepinfra")
    } else if starts_with_str(name, "fishaudio") {
        Some("fish-audio")
    } else if starts_with_str(name, "openai") {
        Some("openai")
    } else if starts_with_str(name, "anthropic") {
        Some("anthropic")
    } else if starts_with_str(name, "amazonbedrock") {
        Some("amazon-bedrock")
    } else if starts_with_str(name, "bedrock") {
        Some("amazon-bedrock")
    } else if starts_with_str(name, "azure") {
        Some("azure")
    } else if starts_with_str(name, "mistral") {
        Some("mistral")
    } else if starts_with_str(name, "groq") {
        Some("groq")
    } else if starts_with_str(name, "together") {
        Some("together")
    } else if starts_with_str(name, "fireworks") {
        Some("fireworks")
    } else if starts_with_str(name, "cerebras") {
        Some("cerebras")
    } else if starts_with_str(name, "cohere") {
        Some("cohere")
    } else if starts_with_str(name, "novita") {
        Some("novita")
    } else if starts_with_str(name, "siliconflow") {
        Some("siliconflow")
    } else if starts_with_str(name, "xai") {
        Some("xai")
    } else {
        None
    }
}

/// Why the route that a reply names is not the one that was asked for. The
/// name of a provider is often that of its vendor, so a name contradicts a
/// route only where both vendors are known and differ.
pub open spec fn chat_route_fault(
    reported_model: Option<Seq<char>>,
    reported_provider: Option<Seq<char>>,
    requested_model: Seq<char>,
    requested_provider: Seq<char>,
) -> Option<Seq<char>> {
    if reported_model is Some && model_fault(reported_model->0) is Some {
        Some("Chat response model 不是有界合法 route ID"@)
    } else if reported_model is Some && reported_model->0 != requested_model {
        Some(
            "Chat response model "@ + reported_model->0 + " 与 requested model "@ + requested_model
                + " 不一致"@,
        )
    } else if reported_provider is None {
        None
    } else if !is_provider_name(reported_provider->0) {
        Some("Chat response provider 不是有界合合法的 provider 展示身份"@)
    } else if is_any_provider(requested_provider) || reported_provider->0 == requested_provider {
        None
    } else if vendor_of(reported_provider->0) is Some && vendor_of(requested_provider) is Some
        && vendor_of(reported_provider->0) != vendor_of(requested_provider) {
        Some(
            "Chat response provider "@ + reported_provider->0 + " 与 fixed endpoint "@
                + requested_provider + " 的 vendor 身份冲突"@,
        )
    } else {
        None
    }
}

pub fn validate_reported_chat_route(
    reported_model: Option<&str>,
    reported_provider: Option<&str>,
    requested_model: &str,
    requested_provider: &str,
) -> (result: Result<(), String>)
    ensures
        match result {
            Ok(_) => chat_route_fault(
                optional_str(reported_model),
                optional_str(reported_provider),
                requested_model@,
                requested_provider@,
            ) is None,
            Err(message) => chat_route_fault(
                optional_str(reported_model),
                optional_str(reported_provider),
                requested_model@,
                requested_provider@,
            ) == Some(message@),
        },
{
    if let Some(model) = reported_model {
        if validate_model_id(model).is_err() {
            return Err("Chat response model 不是有界合法 route ID".to_owned());
        }
        if !same_text(model, requested_model) {
            return Err(
                text5(
                    "Chat response model ",
                    model,
                    " 与 requested model ",
                    requested_model,
                    " 不一致",
                ),
            );
        }
    }
    if let Some(provider) = reported_provider {
        if !valid_reported_provider(provider) {
            return Err("Chat response provider 不是有界合合法的 provider 展示身份".to_owned());
        }
        if names_any_provider(requested_provider) || same_text(provider, requested_provider) {
            return Ok(());
        }
        if let (Some(reported), Some(requested)) = (
            known_chat_provider_vendor(provider),
            known_chat_provider_vendor(requested_provider),
        ) {
            if !same_text(reported, requested) {
                return Err(
                    text5(
                        "Chat response provider ",
                        provider,
                        " 与 fixed endpoint ",
                        requested_provider,
                        " 的 vendor 身份冲突",
                    ),
                );
            }
        }
    }
    Ok(())
}

// ---------------------------------------------------------------------------
// Completions
// ---------------------------------------------------------------------------

pub open spec fn chat_fallback_provider(config: ConfigText) -> Seq<char> {
    if is_any_provider(config.provider) {
        "unreported_automatic"@
    } else {
        config.provider
    }
}

/// What a reply reports, with a text.
pub open spec fn chat_completion(
    config: ConfigText,
    response: ChatResponse,
    text: Seq<char>,
) -> CompletionView {
    let model = optional_text(response.model);
    let provider = optional_text(response.provider);
    CompletionView {
        origin: CompletionOrigin::Chat,
        text,
        model: model_name(model, config.model),
        provider: provider_name(provider, chat_fallback_provider(config)),
        model_reported_by_api: model is Some && model_fault(model->0) is None,
        provider_reported_by_api: provider is Some && is_provider_name(provider->0),
        prompt_tokens: match response.usage {
            Some(usage) => token_or_zero(usage.prompt_tokens),
            None => 0,
        },
        completion_tokens: match response.usage {
            Some(usage) => token_or_zero(usage.completion_tokens),
            None => 0,
        },
        reasoning_tokens: match response.usage {
            Some(usage) => token_or_zero(reasoning_of(usage)),
            None => 0,
        },
        cost: match response.usage {
            Some(usage) => cost_or_zero(usage.cost),
            None => (Double { bits: 0 }),
        },
        usage_reported: usage_complete(response.usage),
        reasoning_tokens_reported: match response.usage {
            Some(usage) => token_reported(reasoning_of(usage)),
            None => false,
        },
    }
}

fn completion_of(config: &Config, response: &ChatResponse, text: String) -> (completion: Completion)
    ensures
        completion@ == chat_completion(config@, *response, text@),
{
    let model = as_optional(&response.model);
    let provider = as_optional(&response.provider);
    let fallback = if config.uses_any_provider() {
        "unreported_automatic"
    } else {
        config.provider.as_str()
    };
    let model_reported_by_api = match model {
        Some(name) => valid_reported_model(name),
        None => false,
    };
    let provider_reported_by_api = match provider {
        Some(name) => valid_reported_provider(name),
        None => false,
    };
    let prompt_tokens: u64 = match &response.usage {
        Some(usage) => bounded_reported_token(usage.prompt_tokens),
        None => 0,
    };
    let completion_tokens: u64 = match &response.usage {
        Some(usage) => bounded_reported_token(usage.completion_tokens),
        None => 0,
    };
    let reasoning_tokens: u64 = match &response.usage {
        Some(usage) => bounded_reported_token(reasoning_tokens(usage)),
        None => 0,
    };
    let cost = match &response.usage {
        Some(usage) => bounded_reported_cost(usage.cost),
        None => Double { bits: 0 },
    };
    let usage_reported = match &response.usage {
        Some(usage) => complete_usage_reported(Some(usage)),
        None => false,
    };
    let reasoning_tokens_reported = match &response.usage {
        Some(usage) => valid_reported_token(self::reasoning_tokens(usage)),
        None => false,
    };
    Completion {
        origin: CompletionOrigin::Chat,
        text,
        model: bounded_reported_model(model, config.model.as_str()),
        provider: bounded_reported_provider(provider, fallback),
        model_reported_by_api,
        provider_reported_by_api,
        prompt_tokens,
        completion_tokens,
        reasoning_tokens,
        cost,
        usage_reported,
        reasoning_tokens_reported,
    }
}

/// What is kept of a reply that was not used: what it reports, without its
/// text, where it reports anything.
pub open spec fn rejected_chat(config: ConfigText, response: ChatResponse) -> Option<
    CompletionView,
> {
    if response.usage is Some {
        Some(chat_completion(config, response, Seq::empty()))
    } else {
        None
    }
}

pub open spec fn completion_view(completion: Option<Completion>) -> Option<CompletionView> {
    match completion {
        Some(found) => Some(found@),
        None => None,
    }
}

pub fn rejected_chat_completion(config: &Config, response: &ChatResponse) -> (completion: Option<
    Completion,
>)
    ensures
        completion_view(completion) == rejected_chat(config@, *response),
{
    if response.usage.is_some() {
        Some(completion_of(config, response, String::new()))
    } else {
        None
    }
}

/// How a ledger follows from another by keeping a completion.
pub open spec fn ledger_keeps(
    before: RequestLedger,
    after: RequestLedger,
    completion: Option<CompletionView>,
    fault: Option<Seq<char>>,
) -> bool {
    &&& after.well_formed()
    &&& after.max_http_attempts == before.max_http_attempts
    &&& after.http_attempts == before.http_attempts
    &&& after.catalog_attempts == before.catalog_attempts
    &&& match completion {
        Some(kept) => if before.record_fault(kept) is Some {
            fault == before.record_fault(kept) && after.rejected@ == before.rejected@
        } else {
            fault is None && completion_views(after.rejected@) == completion_views(
                before.rejected@,
            ).push(kept)
        },
        None => fault is None && after.rejected@ == before.rejected@,
    }
}

/// Keeps a completion, where there is one.
pub fn keep_completion(ledger: &mut RequestLedger, completion: Option<Completion>) -> (result:
    Result<(), String>)
    requires
        old(ledger).well_formed(),
    ensures
        ledger_keeps(
            *old(ledger),
            *final(ledger),
            completion_view(completion),
            (match result {
                Ok(_) => None,
                Err(message) => Some(message@),
            }),
        ),
{
    match completion {
        Some(kept) => {
            let ghost before = ledger.rejected@;
            let result = ledger.record_rejected_completion(kept);
            proof {
                if result is Ok {
                    assert(completion_views(before.push(kept)) =~= completion_views(before).push(
                        kept@,
                    ));
                }
            }
            result
        },
        None => Ok(()),
    }
}

/// Keeps what a reply reports that is not used.
pub fn record_rejected_chat_response(
    config: &Config,
    ledger: &mut RequestLedger,
    response: &ChatResponse,
) -> (result: Result<(), String>)
    requires
        old(ledger).well_formed(),
    ensures
        ledger_keeps(
            *old(ledger),
            *final(ledger),
            rejected_chat(config@, *response),
            (match result {
                Ok(_) => None,
                Err(message) => Some(message@),
            }),
        ),
{
    keep_completion(ledger, rejected_chat_completion(config, response))
}

pub open spec fn response_route_fault(config: ConfigText, response: ChatResponse) -> Option<
    Seq<char>,
> {
    chat_route_fault(
        optional_text(response.model),
        optional_text(response.provider),
        config.model,
        config.provider,
    )
}

/// Refuses a reply from another route than the one that was asked for, and
/// keeps what it reports.
pub fn validate_or_record_chat_route(
    config: &Config,
    ledger: &mut RequestLedger,
    response: &ChatResponse,
) -> (result: Result<(), String>)
    requires
        old(ledger).well_formed(),
    ensures
        match result {
            Ok(_) => response_route_fault(config@, *response) is None && *final(ledger) == *old(ledger),
            Err(message) => response_route_fault(config@, *response) is Some && ({
                let kept = rejected_chat(config@, *response);
                let full = kept is Some && old(ledger).record_fault(kept->0) is Some;
                if full {
                    Some(message@) == old(ledger).record_fault(kept->0) && ledger_keeps(
                        *old(ledger),
                        *final(ledger),
                        kept,
                        Some(message@),
                    )
                } else {
                    Some(message@) == response_route_fault(config@, *response) && ledger_keeps(
                        *old(ledger),
                        *final(ledger),
                        kept,
                        None,
                    )
                }
            }),
        },
{
    match validate_reported_chat_route(
        as_optional(&response.model),
        as_optional(&response.provider),
        config.model.as_str(),
        config.provider.as_str(),
    ) {
        Ok(_) => Ok(()),
        Err(message) => match record_rejected_chat_response(config, ledger, response) {
            Ok(_) => Err(message),
            Err(fault) => Err(fault),
        },
    }
}

// ---------------------------------------------------------------------------
// What follows from a reply
// ---------------------------------------------------------------------------

/// What came of a request: a completion, or the reason to split the input.
#[derive(Debug)]
pub enum CompletionResult {
    Complete(Completion),
    NeedsSplit { reason: String },
}

/// What came back from one try of a chat request.
#[derive(Debug)]
pub enum ChatReply {
    /// A reply with a status of success.
    Parsed { response: ChatResponse, retry_after: Option<u64> },
    /// A reply with a status of success that is no reply to a chat request.
    Unparsed { reason: String },
    /// A reply with another status.
    Refused {
        status: u16,
        body: Vec<u8>,
        parsed: Option<ChatResponse>,
        retry_after: Option<u64>,
    },
    /// No reply.
    Failed { message: String, limit_exceeded: bool },
}

/// What to do after a reply.
#[derive(Debug)]
pub enum ChatStep {
    Done(CompletionResult),
    Stop(String),
    Again { seconds: u64, last_error: String },
}

/// What to do after a reply, by its texts.
pub ghost enum ChatStepView {
    Complete(CompletionView),
    Split(Seq<char>),
    Stop(Seq<char>),
    Again(u64, Seq<char>),
}

impl View for ChatStep {
    type V = ChatStepView;

    open spec fn view(&self) -> ChatStepView {
        match self {
            ChatStep::Done(CompletionResult::Complete(completion)) => ChatStepView::Complete(
                completion@,
            ),
            ChatStep::Done(CompletionResult::NeedsSplit { reason }) => ChatStepView::Split(reason@),
            ChatStep::Stop(message) => ChatStepView::Stop(message@),
            ChatStep::Again { seconds, last_error } => ChatStepView::Again(*seconds, last_error@),
        }
    }
}

pub open spec fn splits_by_reason(finish_reason: Seq<char>) -> bool {
    finish_reason == "length"@ || finish_reason == "max_tokens"@ || finish_reason == "MAX_TOKENS"@
}

pub fn finish_reason_needs_split(finish_reason: &str) -> (result: bool)
    ensures
        result == splits_by_reason(finish_reason@),
{
    same_text(finish_reason, "length") || same_text(finish_reason, "max_tokens") || same_text(
        finish_reason,
        "MAX_TOKENS",
    )
}

pub fn visible_output_needs_split(
    completion_tokens_reported: bool,
    reasoning_tokens_reported: bool,
    visible_output_tokens: u64,
    split_output_tokens: u32,
) -> (result: bool)
    ensures
        result == (completion_tokens_reported && reasoning_tokens_reported && visible_output_tokens
            >= split_output_tokens),
{
    completion_tokens_reported && reasoning_tokens_reported && visible_output_tokens
        >= split_output_tokens as u64
}

/// Another try after a wait where it is allowed, else the end.
pub open spec fn again_or_stop(
    again: bool,
    seconds: u64,
    attempt: u32,
    last_error: Seq<char>,
) -> ChatStepView {
    if again {
        ChatStepView::Again(seconds, last_error)
    } else {
        ChatStepView::Stop(request_failure_text(attempt, last_error))
    }
}

fn next_try(again: bool, seconds: u64, attempt: u32, last_error: String) -> (step: ChatStep)
    ensures
        step@ == again_or_stop(again, seconds, attempt, last_error@),
{
    if again {
        ChatStep::Again { seconds, last_error }
    } else {
        ChatStep::Stop(format_request_failure(attempt, last_error.as_str()))
    }
}

fn split_for(reason: String) -> (step: ChatStep)
    ensures
        step@ == ChatStepView::Split(reason@),
{
    ChatStep::Done(CompletionResult::NeedsSplit { reason })
}

pub open spec fn finish_reason_of(choice: Choice) -> Seq<char> {
    match choice.finish_reason {
        Some(reason) => reason@,
        None => "missing"@,
    }
}

pub open spec fn message_text(choice: Choice) -> Seq<char> {
    match choice.message {
        Some(message) => content_text(message.content),
        None => Seq::empty(),
    }
}

/// Why a reply is not finished, in words.
pub open spec fn unfinished_text(choice: Choice) -> Seq<char> {
    let reason = finish_reason_of(choice);
    match choice.error {
        Some(error) => "生成未完成（finish_reason="@ + reason + "）："@ + api_error_text(error),
        None => if message_text(choice).len() > 0 {
            "生成未完成（finish_reason="@ + reason + "）："@ + bounded_text(message_text(choice), 1_000)
        } else {
            "生成未完成（finish_reason="@ + reason + "）"@
        },
    }
}

/// What is kept of a reply and what to do after it.
pub ghost struct ChatOutcome {
    pub kept: Option<CompletionView>,
    /// Where the reply cannot be kept, the number of tries is told.
    pub counted: bool,
    pub step: ChatStepView,
}

/// What follows from a choice that is not finished.
pub open spec fn unfinished_step(
    choice: Choice,
    attempt: u32,
    maximum_attempts: u32,
    retry_after: Option<u64>,
) -> ChatStepView {
    let last_error = unfinished_text(choice);
    let retryable = finish_reason_of(choice) == "error"@ && !speaks_of_safety(last_error) && (
    choice.error is None || is_retryable_error(choice.error->0));
    if speaks_of_overflow(last_error) {
        ChatStepView::Split(last_error)
    } else {
        again_or_stop(
            retryable && attempt < maximum_attempts,
            wait_spec(attempt, retry_after),
            attempt,
            last_error,
        )
    }
}

pub open spec fn split_text(tokens: u64, limit: u32) -> Seq<char> {
    "可见输出 "@ + decimal(tokens as nat) + " tokens，达到自适应切分阈值 "@ + decimal(limit as nat)
}

/// What follows from a finished choice with a text.
pub open spec fn finished_outcome(
    config: ConfigText,
    response: ChatResponse,
    text: Seq<char>,
) -> ChatOutcome {
    let completion = chat_completion(config, response, text);
    if accounting_fault(completion) is Some {
        ChatOutcome {
            kept: None,
            counted: false,
            step: ChatStepView::Stop(accounting_fault(completion)->0),
        }
    } else if output_tokens_known(response.usage) && completion.reasoning_tokens_reported
        && completion.visible_tokens() >= config.split_output_tokens {
        ChatOutcome {
            kept: Some(completion.without_text()),
            counted: false,
            step: ChatStepView::Split(
                split_text(completion.visible_tokens(), config.split_output_tokens),
            ),
        }
    } else {
        ChatOutcome { kept: None, counted: false, step: ChatStepView::Complete(completion) }
    }
}

/// What follows from a reply with a status of success.
pub open spec fn parsed_outcome(
    config: ConfigText,
    response: ChatResponse,
    attempt: u32,
    maximum_attempts: u32,
    retry_after: Option<u64>,
) -> ChatOutcome {
    let kept = rejected_chat(config, response);
    let wait = wait_spec(attempt, retry_after);
    let first_again = attempt == 1 && attempt < maximum_attempts;
    if response.error is Some {
        let text = api_error_text(response.error->0);
        ChatOutcome {
            kept,
            counted: false,
            step: if speaks_of_overflow(text) {
                ChatStepView::Split(text)
            } else {
                again_or_stop(
                    is_retryable_error(response.error->0) && attempt < maximum_attempts,
                    wait,
                    attempt,
                    text,
                )
            },
        }
    } else if response_route_fault(config, response) is Some {
        ChatOutcome {
            kept,
            counted: true,
            step: ChatStepView::Stop(
                counted_error(response_route_fault(config, response)->0, attempt),
            ),
        }
    } else if response.choices@.len() == 0 {
        ChatOutcome {
            kept,
            counted: false,
            step: again_or_stop(first_again, wait, attempt, "成功响应没有 choices[0]"@),
        }
    } else {
        let choice = response.choices@[0];
        let reason = finish_reason_of(choice);
        if splits_by_reason(reason) {
            ChatOutcome {
                kept,
                counted: false,
                step: ChatStepView::Split("模型返回 finish_reason="@ + reason),
            }
        } else if reason != "stop"@ {
            ChatOutcome {
                kept,
                counted: false,
                step: unfinished_step(choice, attempt, maximum_attempts, retry_after),
            }
        } else if message_text(choice).len() == 0 {
            ChatOutcome {
                kept,
                counted: false,
                step: again_or_stop(first_again, wait, attempt, "成功响应未包含转写文字"@),
            }
        } else {
            finished_outcome(config, response, message_text(choice))
        }
    }
}

/// The message of a reply with another status.
pub open spec fn refusal_message(error: Option<ApiError>, body: Seq<u8>) -> Seq<char> {
    match error {
        Some(found) => api_error_text(found),
        None => body_message(body),
    }
}

pub open spec fn response_error(parsed: Option<ChatResponse>) -> Option<ApiError> {
    match parsed {
        Some(response) => response.error,
        None => None,
    }
}

/// What follows from a reply, over what it holds and what its body says.
pub open spec fn chat_outcome(
    config: ConfigText,
    reply: ChatReply,
    attempt: u32,
    maximum_attempts: u32,
) -> ChatOutcome {
    match reply {
        ChatReply::Parsed { response, retry_after } => parsed_outcome(
            config,
            response,
            attempt,
            maximum_attempts,
            retry_after,
        ),
        ChatReply::Unparsed { reason } => ChatOutcome {
            kept: None,
            counted: false,
            step: ChatStepView::Stop(
                request_failure_text(attempt, "成功响应不是合法 JSON："@ + reason@),
            ),
        },
        ChatReply::Refused { status, body, parsed, retry_after } => {
            let error = response_error(parsed);
            let message = refusal_message(error, body@);
            let last_error = "HTTP "@ + decimal(status as nat) + "："@ + message;
            ChatOutcome {
                kept: match parsed {
                    Some(response) => rejected_chat(config, response),
                    None => None,
                },
                counted: false,
                step: if status == 413 || speaks_of_overflow(message) {
                    ChatStepView::Split(last_error)
                } else {
                    again_or_stop(
                        !body_speaks_of_safety(body@, message) && retry_allowed(
                            Some(status),
                            error,
                            attempt,
                            maximum_attempts,
                        ),
                        wait_spec(attempt, retry_after),
                        attempt,
                        last_error,
                    )
                },
            }
        },
        ChatReply::Failed { message, limit_exceeded } => ChatOutcome {
            kept: None,
            counted: false,
            step: again_or_stop(
                !limit_exceeded && attempt < maximum_attempts,
                backoff_spec(attempt),
                attempt,
                message@,
            ),
        },
    }
}

/// What is kept of a reply, and what to do after it.
pub struct ChatVerdict {
    pub kept: Option<Completion>,
    pub counted: bool,
    pub step: ChatStep,
}

impl View for ChatVerdict {
    type V = ChatOutcome;

    open spec fn view(&self) -> ChatOutcome {
        ChatOutcome {
            kept: completion_view(self.kept),
            counted: self.counted,
            step: self.step@,
        }
    }
}

fn describe_unfinished(choice: &Choice, reason: &str) -> (text: String)
    requires
        reason@ == finish_reason_of(*choice),
    ensures
        text@ == unfinished_text(*choice),
{
    if let Some(error) = &choice.error {
        let words = format_api_error(error);
        return text4("生成未完成（finish_reason=", reason, "）：", words.as_str());
    }
    if let Some(message) = &choice.message {
        let text = extract_text(&message.content);
        if chars_of(text.as_str()).len() > 0 {
            let words = bounded(text.as_str(), 1_000);
            return text4("生成未完成（finish_reason=", reason, "）：", words.as_str());
        }
    }
    text3("生成未完成（finish_reason=", reason, "）")
}

fn judge_unfinished(
    choice: &Choice,
    reason: &str,
    attempt: u32,
    maximum_attempts: u32,
    retry_after: Option<u64>,
) -> (step: ChatStep)
    requires
        reason@ == finish_reason_of(*choice),
    ensures
        step@ == unfinished_step(*choice, attempt, maximum_attempts, retry_after),
{
    let last_error = describe_unfinished(choice, reason);
    if indicates_context_overflow(last_error.as_str()) {
        return split_for(last_error);
    }
    let error_allows = match &choice.error {
        Some(error) => retryable_api_error(error),
        None => true,
    };
    let retryable = same_text(reason, "error") && !non_retryable_safety_diagnostic(
        last_error.as_str(),
    ) && error_allows;
    next_try(
        retryable && attempt < maximum_attempts,
        wait_seconds(attempt, retry_after),
        attempt,
        last_error,
    )
}

fn judge_finished(config: &Config, response: &ChatResponse, text: String) -> (verdict: ChatVerdict)
    ensures
        verdict@ == finished_outcome(config@, *response, text@),
{
    let completion = completion_of(config, response, text);
    if let Err(message) = validate_completion_accounting(&completion) {
        return ChatVerdict { kept: None, counted: false, step: ChatStep::Stop(message) };
    }
    let visible: u64 = completion.visible_output_tokens();
    let known = match &response.usage {
        Some(usage) => completion_tokens_reported(Some(usage)),
        None => false,
    };
    if visible_output_needs_split(
        known,
        completion.reasoning_tokens_reported,
        visible,
        config.split_output_tokens,
    ) {
        let mut kept = completion.clone();
        kept.text = String::new();
        assert(kept@ == completion@.without_text()) by {
            assert(kept.text@ =~= Seq::<char>::empty());
        }
        let tokens = decimal_string(visible);
        let limit = decimal_string(config.split_output_tokens as u64);
        let reason = text4(
            "可见输出 ",
            tokens.as_str(),
            " tokens，达到自适应切分阈值 ",
            limit.as_str(),
        );
        return ChatVerdict { kept: Some(kept), counted: false, step: split_for(reason) };
    }
    ChatVerdict {
        kept: None,
        counted: false,
        step: ChatStep::Done(CompletionResult::Complete(completion)),
    }
}

fn judge_parsed(
    config: &Config,
    response: &ChatResponse,
    attempt: u32,
    maximum_attempts: u32,
    retry_after: Option<u64>,
) -> (verdict: ChatVerdict)
    ensures
        verdict@ == parsed_outcome(config@, *response, attempt, maximum_attempts, retry_after),
{
    let wait: u64 = wait_seconds(attempt, retry_after);
    let first_again = attempt == 1 && attempt < maximum_attempts;
    let kept = rejected_chat_completion(config, response);
    if let Some(error) = &response.error {
        let text = format_api_error(error);
        let step = if indicates_context_overflow(text.as_str()) {
            split_for(text)
        } else {
            let again = retryable_api_error(error) && attempt < maximum_attempts;
            next_try(again, wait, attempt, text)
        };
        return ChatVerdict { kept, counted: false, step };
    }
    if let Err(fault) = validate_reported_chat_route(
        as_optional(&response.model),
        as_optional(&response.provider),
        config.model.as_str(),
        config.provider.as_str(),
    ) {
        let step = ChatStep::Stop(with_actual_attempt_count(fault, attempt));
        return ChatVerdict { kept, counted: true, step };
    }
    if response.choices.len() == 0 {
        let step = next_try(first_again, wait, attempt, "成功响应没有 choices[0]".to_owned());
        return ChatVerdict { kept, counted: false, step };
    }
    let choice = &response.choices[0];
    let reason = match &choice.finish_reason {
        Some(found) => found.as_str(),
        None => "missing",
    };
    if finish_reason_needs_split(reason) {
        let step = split_for(text2("模型返回 finish_reason=", reason));
        return ChatVerdict { kept, counted: false, step };
    }
    if !same_text(reason, "stop") {
        let step = judge_unfinished(choice, reason, attempt, maximum_attempts, retry_after);
        return ChatVerdict { kept, counted: false, step };
    }
    let text = match &choice.message {
        Some(message) => extract_text(&message.content),
        None => String::new(),
    };
    assert(text@ =~= message_text(*choice));
    if chars_of(text.as_str()).len() == 0 {
        let step = next_try(first_again, wait, attempt, "成功响应未包含转写文字".to_owned());
        return ChatVerdict { kept, counted: false, step };
    }
    judge_finished(config, response, text)
}

/// Decides what follows from a reply.
pub fn judge_chat_reply(
    config: &Config,
    reply: &ChatReply,
    attempt: u32,
    maximum_attempts: u32,
) -> (verdict: ChatVerdict)
    ensures
        verdict@ == chat_outcome(config@, *reply, attempt, maximum_attempts),
{
    match reply {
        ChatReply::Parsed { response, retry_after } => judge_parsed(
            config,
            response,
            attempt,
            maximum_attempts,
            *retry_after,
        ),
        ChatReply::Unparsed { reason } => {
            let last_error = text2("成功响应不是合法 JSON：", reason.as_str());
            ChatVerdict {
                kept: None,
                counted: false,
                step: ChatStep::Stop(format_request_failure(attempt, last_error.as_str())),
            }
        },
        ChatReply::Refused { status, body, parsed, retry_after } => {
            let kept = match parsed {
                Some(response) => rejected_chat_completion(config, response),
                None => None,
            };
            let error = match parsed {
                Some(response) => match &response.error {
                    Some(found) => Some(found),
                    None => None,
                },
                None => None,
            };
            let message = match error {
                Some(found) => format_api_error(found),
                None => extract_error_message(body.as_slice()),
            };
            let code = decimal_string(*status as u64);
            let last_error = text4("HTTP ", code.as_str(), "：", message.as_str());
            if *status == 413 || indicates_context_overflow(message.as_str()) {
                return ChatVerdict { kept, counted: false, step: split_for(last_error) };
            }
            let again = !non_retryable_safety_response(body.as_slice(), message.as_str())
                && api_retry_allowed(Some(*status), error, attempt, maximum_attempts);
            let step = next_try(again, wait_seconds(attempt, *retry_after), attempt, last_error);
            ChatVerdict { kept, counted: false, step }
        },
        ChatReply::Failed { message, limit_exceeded } => {
            let again = !*limit_exceeded && attempt < maximum_attempts;
            let step = next_try(again, backoff_seconds(attempt), attempt, message.clone());
            ChatVerdict { kept: None, counted: false, step }
        },
    }
}

/// The step after a reply, once what is kept of it was written down. Where it
/// cannot be written down, that ends the request.
pub open spec fn settled_step(
    ledger: RequestLedger,
    outcome: ChatOutcome,
    attempt: u32,
) -> ChatStepView {
    if outcome.kept is Some && ledger.record_fault(outcome.kept->0) is Some {
        let fault = ledger.record_fault(outcome.kept->0)->0;
        if outcome.counted {
            ChatStepView::Stop(counted_error(fault, attempt))
        } else {
            ChatStepView::Stop(fault)
        }
    } else {
        outcome.step
    }
}

/// Takes a reply: keeps what it reports where it is not used, and says what to
/// do next.
pub fn take_chat_reply(
    config: &Config,
    ledger: &mut RequestLedger,
    reply: &ChatReply,
    attempt: u32,
    maximum_attempts: u32,
) -> (step: ChatStep)
    requires
        old(ledger).well_formed(),
    ensures
        ({
            let outcome = chat_outcome(config@, *reply, attempt, maximum_attempts);
            &&& step@ == settled_step(*old(ledger), outcome, attempt)
            &&& ledger_keeps(
                *old(ledger),
                *final(ledger),
                outcome.kept,
                (if outcome.kept is Some {
                    old(ledger).record_fault(outcome.kept->0)
                } else {
                    None
                }),
            )
        }),
{
    let verdict = judge_chat_reply(config, reply, attempt, maximum_attempts);
    match keep_completion(ledger, verdict.kept) {
        Ok(_) => verdict.step,
        Err(fault) => if verdict.counted {
            ChatStep::Stop(with_actual_attempt_count(fault, attempt))
        } else {
            ChatStep::Stop(fault)
        },
    }
}

/// Why no further try is made, before anything is sent.
pub open spec fn start_fault(
    ledger: RequestLedger,
    attempts_made: u32,
    maximum_attempts: u32,
    last_error: Seq<char>,
    floor: u32,
) -> Option<Seq<char>> {
    if attempts_made >= maximum_attempts {
        Some(request_failure_text(attempts_made, last_error))
    } else if !ledger.allows_attempt(floor) {
        Some(counted_error(ledger.floor_text(floor), attempts_made))
    } else {
        None
    }
}

/// Starts the next try of a request: counts it and gives its number, or says
/// why there is none.
pub fn start_attempt(
    ledger: &mut RequestLedger,
    attempts_made: u32,
    maximum_attempts: u32,
    last_error: &str,
    minimum_remaining_after: u32,
) -> (result: Result<u32, String>)
    requires
        old(ledger).well_formed(),
    ensures
        final(ledger).well_formed(),
        final(ledger).max_http_attempts == old(ledger).max_http_attempts,
        final(ledger).catalog_attempts == old(ledger).catalog_attempts,
        final(ledger).rejected@ == old(ledger).rejected@,
        ({
            let fault = start_fault(
                *old(ledger),
                attempts_made,
                maximum_attempts,
                last_error@,
                minimum_remaining_after,
            );
            match result {
                Ok(attempt) => fault is None
                    && attempt == attempts_made + 1
                    && final(ledger).http_attempts == old(ledger).http_attempts + 1,
                Err(message) => fault == Some(message@)
                    && final(ledger).http_attempts == old(ledger).http_attempts,
            }
        }),
{
    if attempts_made >= maximum_attempts {
        return Err(format_request_failure(attempts_made, last_error));
    }
    match ledger.reserve_http_attempt_with_floor(minimum_remaining_after) {
        Ok(_) => Ok(attempts_made + 1),
        Err(message) => Err(with_actual_attempt_count(message, attempts_made)),
    }
}

// ---------------------------------------------------------------------------
// Laws
// ---------------------------------------------------------------------------

/// A reply is tried again only while tries are left, and never where the reply
/// was used.
pub proof fn lemma_again_is_bounded(
    config: ConfigText,
    reply: ChatReply,
    attempt: u32,
    maximum_attempts: u32,
)
    ensures
        chat_outcome(config, reply, attempt, maximum_attempts).step is Again ==> attempt
            < maximum_attempts,
        chat_outcome(config, reply, attempt, maximum_attempts).step is Complete ==> chat_outcome(
            config,
            reply,
            attempt,
            maximum_attempts,
        ).kept is None,
{
}

/// What is kept of a reply has no text: only what it reports is kept.
pub proof fn lemma_kept_has_no_text(
    config: ConfigText,
    reply: ChatReply,
    attempt: u32,
    maximum_attempts: u32,
)
    ensures
        ({
            let kept = chat_outcome(config, reply, attempt, maximum_attempts).kept;
            kept is Some ==> (kept->0).text.len() == 0
        }),
{
}

proof fn lemma_fallback_names()
    ensures
        is_provider_name("unreported_automatic"@),
        is_provider_name("unreported"@),
{
    reveal_strlit("unreported_automatic");
    reveal_strlit("unreported");
    reveal_strlit("any");
    is_ascii_chars_encode_utf8("unreported_automatic"@);
    is_ascii_chars_encode_utf8("unreported"@);
    assert(lowercased("unreported_automatic"@).len() == 20);
    assert(lowercased("unreported"@).len() == 10);
}

proof fn lemma_provider_id_is_name(provider: Seq<char>)
    requires
        provider_fault(provider) is None,
        !is_any_provider(provider),
    ensures
        is_provider_name(provider),
{
    assert forall|k: int| 0 <= k < provider.len() implies is_provider_name_char(
        #[trigger] provider[k],
    ) by {
        assert(is_route_char(provider[k]));
    }
    assert(is_route_char(provider[0]));
    assert(is_route_char(provider[provider.len() - 1]));
}

/// Whatever a reply reports, what is accounted for it is within all limits:
/// names and numbers that are out of them are replaced.
pub proof fn lemma_accounting_is_sanitized(
    config: ConfigText,
    response: ChatResponse,
    text: Seq<char>,
)
    requires
        model_fault(config.model) is None,
        provider_fault(config.provider) is None,
    ensures
        accounting_fault(chat_completion(config, response, text)) is None,
{
    lemma_fallback_names();
    if !is_any_provider(config.provider) {
        lemma_provider_id_is_name(config.provider);
    }
}

} // verus!
