//! What a task spends on requests and what replies report of their use.
use vstd::prelude::*;
use crate::config::{is_any_provider, model_fault, names_any_provider, validate_model_id, Config};
use crate::double::{Double, ONE_MILLION};
use crate::text::{
    ascii_alphanumeric, byte_len, bytes_in, chars_of, decimal, decimal_string,
    is_ascii_alphanumeric_char, text3,
};

verus! {

/// The largest number of tokens that a reply may report.
pub const MAX_STT_USAGE_TOKENS: u64 = 1_000_000_000_000;

/// The kind of request that a completion came from.
#[derive(Clone, Copy, Debug, PartialEq, Eq, Structural)]
pub enum CompletionOrigin {
    Chat,
    Stt,
}

/// The text of a reply with what the reply reported of its use.
#[derive(Debug)]
pub struct Completion {
    pub origin: CompletionOrigin,
    pub text: String,
    pub model: String,
    pub provider: String,
    pub model_reported_by_api: bool,
    pub provider_reported_by_api: bool,
    pub prompt_tokens: u64,
    pub completion_tokens: u64,
    pub reasoning_tokens: u64,
    pub cost: Double,
    pub usage_reported: bool,
    pub reasoning_tokens_reported: bool,
}

/// What a completion holds.
pub ghost struct CompletionView {
    pub origin: CompletionOrigin,
    pub text: Seq<char>,
    pub model: Seq<char>,
    pub provider: Seq<char>,
    pub model_reported_by_api: bool,
    pub provider_reported_by_api: bool,
    pub prompt_tokens: u64,
    pub completion_tokens: u64,
    pub reasoning_tokens: u64,
    pub cost: Double,
    pub usage_reported: bool,
    pub reasoning_tokens_reported: bool,
}

impl View for Completion {
    type V = CompletionView;

    open spec fn view(&self) -> CompletionView {
        CompletionView {
            origin: self.origin,
            text: self.text@,
            model: self.model@,
            provider: self.provider@,
            model_reported_by_api: self.model_reported_by_api,
            provider_reported_by_api: self.provider_reported_by_api,
            prompt_tokens: self.prompt_tokens,
            completion_tokens: self.completion_tokens,
            reasoning_tokens: self.reasoning_tokens,
            cost: self.cost,
            usage_reported: self.usage_reported,
            reasoning_tokens_reported: self.reasoning_tokens_reported,
        }
    }
}

impl Clone for Completion {
    fn clone(&self) -> (copy: Self)
        ensures
            copy@ == self@,
    {
        Completion {
            origin: self.origin,
            text: self.text.clone(),
            model: self.model.clone(),
            provider: self.provider.clone(),
            model_reported_by_api: self.model_reported_by_api,
            provider_reported_by_api: self.provider_reported_by_api,
            prompt_tokens: self.prompt_tokens,
            completion_tokens: self.completion_tokens,
            reasoning_tokens: self.reasoning_tokens,
            cost: self.cost,
            usage_reported: self.usage_reported,
            reasoning_tokens_reported: self.reasoning_tokens_reported,
        }
    }
}

impl CompletionView {
    pub open spec fn visible_tokens(self) -> u64 {
        if self.completion_tokens >= self.reasoning_tokens {
            (self.completion_tokens - self.reasoning_tokens) as u64
        } else {
            0
        }
    }

    /// The completion without its text, as it is kept of a reply that was not
    /// used.
    pub open spec fn without_text(self) -> CompletionView {
        CompletionView { text: Seq::empty(), ..self }
    }
}

impl Completion {
    /// The tokens of the output that are not reasoning.
    pub fn visible_output_tokens(&self) -> (tokens: u64)
        ensures
            tokens == self@.visible_tokens(),
    {
        if self.completion_tokens >= self.reasoning_tokens {
            self.completion_tokens - self.reasoning_tokens
        } else {
            0
        }
    }
}

// ---------------------------------------------------------------------------
// Reported values
// ---------------------------------------------------------------------------

pub open spec fn token_reported(value: Option<u64>) -> bool {
    value is Some && value->0 <= MAX_STT_USAGE_TOKENS
}

pub open spec fn token_or_zero(value: Option<u64>) -> u64 {
    if token_reported(value) {
        value->0
    } else {
        0
    }
}

pub open spec fn cost_reported(value: Option<Double>) -> bool {
    value is Some && (value->0).at_most(ONE_MILLION)
}

pub open spec fn cost_or_zero(value: Option<Double>) -> Double {
    if cost_reported(value) {
        value->0
    } else {
        Double { bits: 0 }
    }
}

pub fn valid_reported_token(value: Option<u64>) -> (result: bool)
    ensures
        result == token_reported(value),
{
    match value {
        Some(tokens) => tokens <= MAX_STT_USAGE_TOKENS,
        None => false,
    }
}

pub fn bounded_reported_token(value: Option<u64>) -> (tokens: u64)
    ensures
        tokens == token_or_zero(value),
{
    match value {
        Some(tokens) => if tokens <= MAX_STT_USAGE_TOKENS {
            tokens
        } else {
            0
        },
        None => 0,
    }
}

pub fn valid_reported_cost(value: Option<Double>) -> (result: bool)
    ensures
        result == cost_reported(value),
{
    match value {
        Some(cost) => cost.is_at_most(ONE_MILLION),
        None => false,
    }
}

pub fn bounded_reported_cost(value: Option<Double>) -> (cost: Double)
    ensures
        cost == cost_or_zero(value),
{
    match value {
        Some(cost) => if cost.is_at_most(ONE_MILLION) {
            cost
        } else {
            Double { bits: 0 }
        },
        None => Double { bits: 0 },
    }
}

pub open spec fn is_provider_name_char(c: char) -> bool {
    is_ascii_alphanumeric_char(c) || c == '-' || c == '_' || c == '.' || c == '/' || c == ':' || c
        == '@' || c == '~' || c == ' ' || c == '(' || c == ')'
}

/// A name that a reply may give its provider: not the word for any provider,
/// at most 256 bytes, of a few characters, without spaces around it.
pub open spec fn is_provider_name(provider: Seq<char>) -> bool {
    &&& provider.len() > 0
    &&& byte_len(provider) <= 256
    &&& !is_any_provider(provider)
    &&& provider[0] != ' '
    &&& provider[provider.len() - 1] != ' '
    &&& forall|k: int| 0 <= k < provider.len() ==> is_provider_name_char(#[trigger] provider[k])
}

pub fn valid_reported_provider(provider: &str) -> (result: bool)
    ensures
        result == is_provider_name(provider@),
{
    let chars = chars_of(provider);
    if chars.len() == 0 || bytes_in(provider) > 256 || names_any_provider(provider) || chars[0]
        == ' ' || chars[chars.len() - 1] == ' ' {
        return false;
    }
    let mut i: usize = 0;
    while i < chars.len()
        invariant
            i <= chars@.len(),
            chars@ == provider@,
            forall|k: int| 0 <= k < i ==> is_provider_name_char(#[trigger] provider@[k]),
        decreases chars@.len() - i,
    {
        let c: char = chars[i];
        if !(ascii_alphanumeric(c) || c == '-' || c == '_' || c == '.' || c == '/' || c == ':' || c
            == '@' || c == '~' || c == ' ' || c == '(' || c == ')') {
            assert(!is_provider_name_char(provider@[i as int]));
            return false;
        }
        i += 1;
    }
    true
}

pub fn valid_reported_model(model: &str) -> (result: bool)
    ensures
        result == (model_fault(model@) is None),
{
    validate_model_id(model).is_ok()
}

/// The model that a reply names, or the one that was asked for.
pub open spec fn model_name(reported: Option<Seq<char>>, requested: Seq<char>) -> Seq<char> {
    if reported is Some && model_fault(reported->0) is None {
        reported->0
    } else {
        requested
    }
}

/// The provider that a reply names, or another name.
pub open spec fn provider_name(reported: Option<Seq<char>>, fallback: Seq<char>) -> Seq<char> {
    if reported is Some && is_provider_name(reported->0) {
        reported->0
    } else {
        fallback
    }
}

pub fn bounded_reported_model(reported: Option<&str>, requested_model: &str) -> (model: String)
    ensures
        model@ == model_name(crate::text::optional_str(reported), requested_model@),
{
    if let Some(name) = reported {
        if valid_reported_model(name) {
            return name.to_owned();
        }
    }
    requested_model.to_owned()
}

pub fn bounded_reported_provider(reported: Option<&str>, fallback: &str) -> (provider: String)
    ensures
        provider@ == provider_name(crate::text::optional_str(reported), fallback@),
{
    if let Some(name) = reported {
        if valid_reported_provider(name) {
            return name.to_owned();
        }
    }
    fallback.to_owned()
}

// ---------------------------------------------------------------------------
// The ledger
// ---------------------------------------------------------------------------

/// Why what a completion reports cannot be accounted for.
pub open spec fn accounting_fault(completion: CompletionView) -> Option<Seq<char>> {
    if model_fault(completion.model) is Some {
        Some("Completion model 不是有界合法 route ID"@)
    } else if !is_provider_name(completion.provider) {
        Some("Completion provider 不是有界合法的实际或未报告 provider 标签"@)
    } else if completion.prompt_tokens > MAX_STT_USAGE_TOKENS || completion.completion_tokens
        > MAX_STT_USAGE_TOKENS || completion.reasoning_tokens > MAX_STT_USAGE_TOKENS {
        Some("Completion token accounting 超出硬上限"@)
    } else if !completion.cost.at_most(ONE_MILLION) {
        Some("Completion cost 不是有限且有界的非负数"@)
    } else {
        None
    }
}

pub fn validate_completion_accounting(completion: &Completion) -> (result: Result<(), String>)
    ensures
        match result {
            Ok(_) => accounting_fault(completion@) is None,
            Err(message) => accounting_fault(completion@) == Some(message@),
        },
{
    if !valid_reported_model(completion.model.as_str()) {
        return Err("Completion model 不是有界合法 route ID".to_owned());
    }
    if !valid_reported_provider(completion.provider.as_str()) {
        return Err("Completion provider 不是有界合法的实际或未报告 provider 标签".to_owned());
    }
    if completion.prompt_tokens > MAX_STT_USAGE_TOKENS || completion.completion_tokens
        > MAX_STT_USAGE_TOKENS || completion.reasoning_tokens > MAX_STT_USAGE_TOKENS {
        return Err("Completion token accounting 超出硬上限".to_owned());
    }
    if !completion.cost.is_at_most(ONE_MILLION) {
        return Err("Completion cost 不是有限且有界的非负数".to_owned());
    }
    Ok(())
}

/// How many catalog requests a task may make.
pub open spec fn catalog_cap(max_http_attempts: u32) -> int {
    if 4 * max_http_attempts + 8 > 40_008 {
        40_008
    } else {
        4 * max_http_attempts + 8
    }
}

pub fn derived_catalog_request_cap(max_http_attempts: u32) -> (cap: u32)
    ensures
        cap == catalog_cap(max_http_attempts),
{
    if max_http_attempts >= 10_000 {
        40_008
    } else {
        4 * max_http_attempts + 8
    }
}

/// What a task has spent: the requests that may cost money, the requests to
/// catalogs, and what replies that were not used reported.
pub struct RequestLedger {
    pub max_http_attempts: u32,
    pub http_attempts: u32,
    pub catalog_attempts: u32,
    pub rejected: Vec<Completion>,
}

/// The completions that a list holds.
pub open spec fn completion_views(completions: Seq<Completion>) -> Seq<CompletionView> {
    Seq::new(completions.len(), |k: int| completions[k]@)
}

impl RequestLedger {
    /// No budget is overdrawn, and no text is kept of a reply that was not used.
    pub open spec fn well_formed(&self) -> bool {
        &&& self.http_attempts <= self.max_http_attempts
        &&& self.catalog_attempts <= catalog_cap(self.max_http_attempts)
        &&& self.rejected@.len() <= self.max_http_attempts
        &&& forall|k: int|
            0 <= k < self.rejected@.len() ==> {
                let kept = #[trigger] self.rejected@[k];
                kept.text@.len() == 0 && accounting_fault(kept@) is None
            }
    }

    pub fn new(config: &Config) -> (ledger: Self)
        ensures
            ledger.well_formed(),
            ledger.max_http_attempts == config.max_http_attempts,
            ledger.http_attempts == 0,
            ledger.catalog_attempts == 0,
            ledger.rejected@.len() == 0,
    {
        RequestLedger {
            max_http_attempts: config.max_http_attempts,
            http_attempts: 0,
            catalog_attempts: 0,
            rejected: Vec::new(),
        }
    }

    /// A request that may cost money can be made so that at least `floor` more
    /// can follow.
    pub open spec fn allows_attempt(&self, floor: u32) -> bool {
        self.http_attempts < self.max_http_attempts && self.max_http_attempts - self.http_attempts
            - 1 >= floor
    }

    pub open spec fn floor_text(&self, floor: u32) -> Seq<char> {
        "本次任务无法在保留 "@ + decimal(floor as nat)
            + " 次后续 Stage A 调用的同时继续；max_http_attempts="@ + decimal(
            self.max_http_attempts as nat,
        )
    }

    /// Counts a request that may cost money, where after it at least
    /// `minimum_remaining_after` more can be made.
    pub fn reserve_http_attempt_with_floor(&mut self, minimum_remaining_after: u32) -> (result:
        Result<(), String>)
        requires
            old(self).well_formed(),
        ensures
            final(self).well_formed(),
            final(self).max_http_attempts == old(self).max_http_attempts,
            final(self).catalog_attempts == old(self).catalog_attempts,
            final(self).rejected@ == old(self).rejected@,
            match result {
                Ok(_) => old(self).allows_attempt(minimum_remaining_after)
                    && final(self).http_attempts == old(self).http_attempts + 1,
                Err(message) => !old(self).allows_attempt(minimum_remaining_after)
                    && final(self).http_attempts == old(self).http_attempts
                        && message@ == old(self).floor_text(minimum_remaining_after),
            },
    {
        if self.http_attempts < self.max_http_attempts && self.max_http_attempts
            - self.http_attempts - 1 >= minimum_remaining_after {
            self.http_attempts = self.http_attempts + 1;
            return Ok(());
        }
        let floor = decimal_string(minimum_remaining_after as u64);
        let maximum = decimal_string(self.max_http_attempts as u64);
        let mut message = text3(
            "本次任务无法在保留 ",
            floor.as_str(),
            " 次后续 Stage A 调用的同时继续；max_http_attempts=",
        );
        message.append(maximum.as_str());
        Err(message)
    }

    /// How many catalog requests the task may make. They never count as
    /// requests that may cost money.
    pub fn max_catalog_requests(&self) -> (cap: u32)
        ensures
            cap == catalog_cap(self.max_http_attempts),
    {
        derived_catalog_request_cap(self.max_http_attempts)
    }

    pub open spec fn catalog_text(&self) -> Seq<char> {
        "OpenRouter 目录 GET 次数超过派生上限 "@ + decimal(
            catalog_cap(self.max_http_attempts) as nat,
        ) + "；可能付费的 POST 预算未被消耗"@
    }

    /// Counts a catalog request.
    pub fn reserve_catalog_attempt(&mut self) -> (result: Result<(), String>)
        requires
            old(self).well_formed(),
        ensures
            final(self).well_formed(),
            final(self).max_http_attempts == old(self).max_http_attempts,
            final(self).http_attempts == old(self).http_attempts,
            final(self).rejected@ == old(self).rejected@,
            match result {
                Ok(_) => old(self).catalog_attempts < catalog_cap(old(self).max_http_attempts)
                    && final(self).catalog_attempts == old(self).catalog_attempts + 1,
                Err(message) => old(self).catalog_attempts == catalog_cap(
                    old(self).max_http_attempts,
                )
                    && final(self).catalog_attempts == old(self).catalog_attempts
                    && message@ == old(self).catalog_text(),
            },
    {
        let maximum: u32 = self.max_catalog_requests();
        if self.catalog_attempts < maximum {
            self.catalog_attempts = self.catalog_attempts + 1;
            return Ok(());
        }
        let cap = decimal_string(maximum as u64);
        Err(
            text3(
                "OpenRouter 目录 GET 次数超过派生上限 ",
                cap.as_str(),
                "；可能付费的 POST 预算未被消耗",
            ),
        )
    }

    /// Why a completion is not kept.
    pub open spec fn record_fault(&self, completion: CompletionView) -> Option<Seq<char>> {
        if completion.text.len() > 0 {
            Some("内部错误：rejected accounting 只能记录空 text 费用占位"@)
        } else if accounting_fault(completion) is Some {
            accounting_fault(completion)
        } else if self.rejected@.len() >= self.max_http_attempts {
            Some(
                "内部错误：rejected accounting 条目超过 max_http_attempts="@ + decimal(
                    self.max_http_attempts as nat,
                ) + " 硬上限"@,
            )
        } else {
            None
        }
    }

    /// Keeps what a reply reported that was not used.
    pub fn record_rejected_completion(&mut self, completion: Completion) -> (result: Result<
        (),
        String,
    >)
        requires
            old(self).well_formed(),
        ensures
            final(self).well_formed(),
            final(self).max_http_attempts == old(self).max_http_attempts,
            final(self).http_attempts == old(self).http_attempts,
            final(self).catalog_attempts == old(self).catalog_attempts,
            match result {
                Ok(_) => old(self).record_fault(completion@) is None && final(self).rejected@
                    == old(self).rejected@.push(completion),
                Err(message) => old(self).record_fault(completion@) == Some(message@)
                    && final(self).rejected@ == old(self).rejected@,
            },
    {
        if chars_of(completion.text.as_str()).len() > 0 {
            return Err("内部错误：rejected accounting 只能记录空 text 费用占位".to_owned());
        }
        if let Err(message) = validate_completion_accounting(&completion) {
            return Err(message);
        }
        if self.rejected.len() as u64 >= self.max_http_attempts as u64 {
            let maximum = decimal_string(self.max_http_attempts as u64);
            return Err(
                text3(
                    "内部错误：rejected accounting 条目超过 max_http_attempts=",
                    maximum.as_str(),
                    " 硬上限",
                ),
            );
        }
        self.rejected.push(completion);
        Ok(())
    }

    /// Takes what replies reported that were not used; what is taken once is
    /// not there again.
    pub fn take_rejected_accounting(&mut self) -> (taken: Vec<Completion>)
        requires
            old(self).well_formed(),
        ensures
            final(self).well_formed(),
            taken@ == old(self).rejected@,
            final(self).rejected@.len() == 0,
            final(self).max_http_attempts == old(self).max_http_attempts,
            final(self).http_attempts == old(self).http_attempts,
            final(self).catalog_attempts == old(self).catalog_attempts,
    {
        let mut taken: Vec<Completion> = Vec::new();
        std::mem::swap(&mut taken, &mut self.rejected);
        taken
    }
}

} // verus!
