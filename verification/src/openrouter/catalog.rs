//! The catalogs of OpenRouter: models, endpoints, and which of them a request
//! may use.
use vstd::prelude::*;
use crate::config::{
    is_any_provider, model_fault, names_any_provider, provider_fault, validate_model_id,
    validate_provider_id, Config, ConfigText,
};
use crate::json::{
    field, field_holds, found, inner_field, items_in, natural_in, natural_or_zero, text_field,
    text_in, value_holds, whole_in, Json,
};
use crate::openrouter::failure::{body_message, extract_error_message};
use crate::openrouter::stt::{
    stt_count_fault, validate_stt_count, SttEndpointSelection, MAX_STT_METADATA_CHARS,
};
use crate::ordered::{
    holds, in_order, insert_in_order, lemma_text_before_total, lemma_text_before_transitive,
    place_of, text_before, Place,
};
use crate::text::{
    ascii_lowercase, bounded, bounded_text, contains_str, contains_text, decimal, decimal_string,
    fault_of, lowercased, optional_str, same_text, text2, text3, text4, text5,
};

verus! {

pub const API_BASE: &'static str = "https://openrouter.ai/api/v1";

// ---------------------------------------------------------------------------
// Addresses
// ---------------------------------------------------------------------------

pub open spec fn models_address() -> Seq<char> {
    API_BASE@ + "/models"@
}

pub open spec fn stt_models_address() -> Seq<char> {
    API_BASE@ + "/models?input_modalities=audio&output_modalities=transcription"@
}

pub open spec fn endpoints_address(model: Seq<char>) -> Seq<char> {
    API_BASE@ + "/models/"@ + model + "/endpoints"@
}

pub open spec fn zdr_address() -> Seq<char> {
    API_BASE@ + "/endpoints/zdr"@
}

pub fn models_url() -> (url: String)
    ensures
        url@ == models_address(),
{
    text2(API_BASE, "/models")
}

pub fn stt_models_url() -> (url: String)
    ensures
        url@ == stt_models_address(),
{
    text2(API_BASE, "/models?input_modalities=audio&output_modalities=transcription")
}

pub fn endpoints_url(model: &str) -> (url: String)
    ensures
        url@ == endpoints_address(model@),
{
    text4(API_BASE, "/models/", model, "/endpoints")
}

pub fn zdr_url() -> (url: String)
    ensures
        url@ == zdr_address(),
{
    text2(API_BASE, "/endpoints/zdr")
}

pub fn chat_url() -> (url: String)
    ensures
        url@ == API_BASE@ + "/chat/completions"@,
{
    text2(API_BASE, "/chat/completions")
}

pub fn transcriptions_url() -> (url: String)
    ensures
        url@ == API_BASE@ + "/audio/transcriptions"@,
{
    text2(API_BASE, "/audio/transcriptions")
}

/// Checks the status of the reply of a catalog.
pub fn check_catalog_status(status: u16, body: &[u8]) -> (result: Result<(), String>)
    ensures
        fault_of(result) == (if 200 <= status < 300 {
            None
        } else {
            Some(
                "OpenRouter 目录 API 返回 HTTP "@ + decimal(status as nat) + "："@ + body_message(
                    body@,
                ),
            )
        }),
{
    if 200 <= status && status < 300 {
        return Ok(());
    }
    let number = decimal_string(status as u64);
    let message = extract_error_message(body);
    Err(text4("OpenRouter 目录 API 返回 HTTP ", number.as_str(), "：", message.as_str()))
}

// ---------------------------------------------------------------------------
// Properties of entries
// ---------------------------------------------------------------------------

/// An entry says that it supports a parameter.
pub open spec fn supports(entry: Json, parameter: Seq<char>) -> bool {
    field_holds(field(entry, "supported_parameters"@), parameter)
}

pub fn supports_parameter(value: &Json, parameter: &str) -> (result: bool)
    ensures
        result == supports(*value, parameter@),
{
    value_holds(value.get("supported_parameters"), parameter)
}

/// An entry can answer in a form that was asked for.
pub open spec fn supports_structure(entry: Json) -> bool {
    supports(entry, "response_format"@) && supports(entry, "structured_outputs"@)
}

fn supports_structured_output(value: &Json) -> (result: bool)
    ensures
        result == supports_structure(*value),
{
    supports_parameter(value, "response_format") && supports_parameter(value, "structured_outputs")
}

/// An endpoint works.
pub open spec fn is_active(endpoint: Json) -> bool {
    whole_in(field(endpoint, "status"@)) == Some(0int)
}

pub fn endpoint_is_active(endpoint: &Json) -> (result: bool)
    ensures
        result == is_active(*endpoint),
{
    match endpoint.get("status") {
        Some(status) => match status.as_whole() {
            Some(code) => code == 0,
            None => false,
        },
        None => false,
    }
}

pub open spec fn inactive_fault(endpoint: Json, label: Seq<char>) -> Option<Seq<char>> {
    if is_active(endpoint) {
        None
    } else {
        Some(label + " 当前不是 active 状态"@)
    }
}

pub fn require_active_catalog_endpoint(endpoint: &Json, label: &str) -> (result: Result<
    (),
    String,
>)
    ensures
        fault_of(result) == inactive_fault(*endpoint, label@),
{
    if endpoint_is_active(endpoint) {
        Ok(())
    } else {
        Err(text2(label, " 当前不是 active 状态"))
    }
}

/// Why a number of tokens may not be asked for: the published limit is no
/// number, or it is lower. No limit, `null` and 0 mean that none is known.
pub open spec fn limit_fault(requested: u32, label: Seq<char>, published: Option<Json>) -> Option<
    Seq<char>,
> {
    match published {
        None => None,
        Some(Json::Null) => None,
        Some(Json::Natural(limit)) => if limit != 0 && requested > limit {
            Some(
                "请求 max_output_tokens="@ + decimal(requested as nat) + " 超过 "@ + label
                    + " 公开硬上限 "@ + decimal(limit as nat),
            )
        } else {
            None
        },
        Some(_) => Some(label + " 的 max_completion_tokens 不是非负整数/null"@),
    }
}

pub fn validate_catalog_completion_limit(
    requested_tokens: u32,
    label: &str,
    published_limit: Option<&Json>,
) -> (result: Result<(), String>)
    ensures
        fault_of(result) == limit_fault(requested_tokens, label@, found(published_limit)),
{
    match published_limit {
        None => Ok(()),
        Some(Json::Null) => Ok(()),
        Some(Json::Natural(limit)) => {
            if *limit != 0 && requested_tokens as u64 > *limit {
                let requested = decimal_string(requested_tokens as u64);
                let most = decimal_string(*limit);
                let mut message = text5(
                    "请求 max_output_tokens=",
                    requested.as_str(),
                    " 超过 ",
                    label,
                    " 公开硬上限 ",
                );
                message.append(most.as_str());
                return Err(message);
            }
            Ok(())
        },
        Some(_) => Err(text2(label, " 的 max_completion_tokens 不是非负整数/null")),
    }
}

/// The first entry from `n` on whose field holds a text.
pub open spec fn entry_with(items: Seq<Json>, name: Seq<char>, text: Seq<char>, n: int) -> Option<
    Json,
>
    decreases items.len() - n,
{
    if n < 0 || n >= items.len() {
        None
    } else if text_in(field(items[n], name)) == Some(text) {
        Some(items[n])
    } else {
        entry_with(items, name, text, n + 1)
    }
}

fn has_text(value: &Json, name: &str, text: &str) -> (result: bool)
    ensures
        result == (text_in(field(*value, name@)) == Some(text@)),
{
    match text_field(value, name) {
        Some(found) => same_text(found, text),
        None => false,
    }
}

fn find_entry<'a>(items: &'a Vec<Json>, name: &str, text: &str) -> (entry: Option<&'a Json>)
    ensures
        found(entry) == entry_with(items@, name@, text@, 0),
{
    let mut n: usize = 0;
    while n < items.len()
        invariant
            n <= items@.len(),
            entry_with(items@, name@, text@, n as int) == entry_with(items@, name@, text@, 0),
        decreases items@.len() - n,
    {
        if has_text(&items[n], name, text) {
            return Some(&items[n]);
        }
        n += 1;
    }
    None
}

/// An entry of the list of endpoints that keep no data belongs to a model and
/// an endpoint.
pub open spec fn is_zdr_entry(entry: Json, model: Seq<char>, tag: Seq<char>) -> bool {
    text_in(field(entry, "model_id"@)) == Some(model) && text_in(field(entry, "tag"@)) == Some(tag)
}

/// The first entry from `n` on that belongs to a model and an endpoint.
pub open spec fn zdr_entry(items: Seq<Json>, model: Seq<char>, tag: Seq<char>, n: int) -> Option<
    Json,
>
    decreases items.len() - n,
{
    if n < 0 || n >= items.len() {
        None
    } else if is_zdr_entry(items[n], model, tag) {
        Some(items[n])
    } else {
        zdr_entry(items, model, tag, n + 1)
    }
}

fn find_zdr_entry<'a>(items: &'a Vec<Json>, model: &str, tag: &str) -> (entry: Option<&'a Json>)
    ensures
        found(entry) == zdr_entry(items@, model@, tag@, 0),
{
    let mut n: usize = 0;
    while n < items.len()
        invariant
            n <= items@.len(),
            zdr_entry(items@, model@, tag@, n as int) == zdr_entry(items@, model@, tag@, 0),
        decreases items@.len() - n,
    {
        if has_text(&items[n], "model_id", model) && has_text(&items[n], "tag", tag) {
            return Some(&items[n]);
        }
        n += 1;
    }
    None
}

// ---------------------------------------------------------------------------
// The route of chat requests
// ---------------------------------------------------------------------------

/// A catalog that a route is checked against.
#[derive(Clone, Copy, Debug, PartialEq, Eq, Structural)]
pub enum CatalogStage {
    Models,
    Endpoints,
    ZeroRetention,
}

pub open spec fn modality_fault(modality: Seq<char>) -> Option<Seq<char>> {
    if modality == "audio"@ || modality == "image"@ {
        None
    } else {
        Some("内部错误：不支持的模型 modality "@ + modality)
    }
}

pub fn check_modality(required_modality: &str) -> (result: Result<(), String>)
    ensures
        fault_of(result) == modality_fault(required_modality@),
{
    if same_text(required_modality, "audio") || same_text(required_modality, "image") {
        Ok(())
    } else {
        Err(text2("内部错误：不支持的模型 modality ", required_modality))
    }
}

/// The model of a route in the catalog of models.
pub open spec fn listed_model(models: Json, model: Seq<char>) -> Option<Json> {
    match items_in(field(models, "data"@)) {
        Some(items) => entry_with(items, "id"@, model, 0),
        None => None,
    }
}

/// Why the model of a route cannot be used.
pub open spec fn model_entry_fault(config: ConfigText, modality: Seq<char>, models: Json) -> Option<
    Seq<char>,
> {
    match listed_model(models, config.model) {
        None => Some("OpenRouter 当前不存在模型 "@ + config.model),
        Some(model) => if !field_holds(
            inner_field(model, "architecture"@, "input_modalities"@),
            modality,
        ) {
            Some("模型 "@ + config.model + " 不支持 "@ + modality + " 输入"@)
        } else if limit_fault(
            config.max_output_tokens,
            "模型 "@ + config.model + " top_provider"@,
            inner_field(model, "top_provider"@, "max_completion_tokens"@),
        ) is Some {
            limit_fault(
                config.max_output_tokens,
                "模型 "@ + config.model + " top_provider"@,
                inner_field(model, "top_provider"@, "max_completion_tokens"@),
            )
        } else if modality == "audio"@ && !supports_structure(model) {
            Some(
                "模型 "@ + config.model
                    + " 不同时支持 SpeakerHarness 所需的 response_format/structured_outputs"@,
            )
        } else {
            None
        },
    }
}

fn check_model_entry(config: &Config, required_modality: &str, models: &Json) -> (result: Result<
    (),
    String,
>)
    ensures
        fault_of(result) == model_entry_fault(config@, required_modality@, *models),
{
    let entry = match models.get("data") {
        Some(data) => match data.as_items() {
            Some(items) => find_entry(items, "id", config.model.as_str()),
            None => None,
        },
        None => None,
    };
    let model = match entry {
        Some(found) => found,
        None => {
            return Err(text2("OpenRouter 当前不存在模型 ", config.model.as_str()));
        },
    };
    if !value_holds(model.get_inner("architecture", "input_modalities"), required_modality) {
        return Err(
            text5("模型 ", config.model.as_str(), " 不支持 ", required_modality, " 输入"),
        );
    }
    let label = text3("模型 ", config.model.as_str(), " top_provider");
    if let Err(message) = validate_catalog_completion_limit(
        config.max_output_tokens,
        label.as_str(),
        model.get_inner("top_provider", "max_completion_tokens"),
    ) {
        return Err(message);
    }
    if same_text(required_modality, "audio") && !supports_structured_output(model) {
        return Err(
            text3(
                "模型 ",
                config.model.as_str(),
                " 不同时支持 SpeakerHarness 所需的 response_format/structured_outputs",
            ),
        );
    }
    Ok(())
}

/// Why an endpoint that is to be used cannot be used.
pub open spec fn endpoint_use_fault(
    config: ConfigText,
    modality: Seq<char>,
    endpoint: Json,
    label: Seq<char>,
    unstructured: Seq<char>,
) -> Option<Seq<char>> {
    if inactive_fault(endpoint, label) is Some {
        inactive_fault(endpoint, label)
    } else if limit_fault(
        config.max_output_tokens,
        label,
        field(endpoint, "max_completion_tokens"@),
    ) is Some {
        limit_fault(config.max_output_tokens, label, field(endpoint, "max_completion_tokens"@))
    } else if modality == "audio"@ && !supports_structure(endpoint) {
        Some(unstructured)
    } else {
        None
    }
}

fn check_endpoint_use(
    config: &Config,
    required_modality: &str,
    endpoint: &Json,
    label: &str,
    unstructured: String,
) -> (result: Result<(), String>)
    ensures
        fault_of(result) == endpoint_use_fault(
            config@,
            required_modality@,
            *endpoint,
            label@,
            unstructured@,
        ),
{
    if let Err(message) = require_active_catalog_endpoint(endpoint, label) {
        return Err(message);
    }
    if let Err(message) = validate_catalog_completion_limit(
        config.max_output_tokens,
        label,
        endpoint.get("max_completion_tokens"),
    ) {
        return Err(message);
    }
    if same_text(required_modality, "audio") && !supports_structured_output(endpoint) {
        return Err(unstructured);
    }
    Ok(())
}

/// Why the endpoint of a fixed route cannot be used.
pub open spec fn fixed_endpoint_fault(
    config: ConfigText,
    modality: Seq<char>,
    endpoints: Json,
) -> Option<Seq<char>> {
    let entry = match items_in(inner_field(endpoints, "data"@, "endpoints"@)) {
        Some(items) => entry_with(items, "tag"@, config.provider, 0),
        None => None,
    };
    match entry {
        None => Some(
            "provider endpoint "@ + config.provider + " 不属于模型 "@ + config.model
                + "；请先运行 spt providers"@,
        ),
        Some(endpoint) => endpoint_use_fault(
            config,
            modality,
            endpoint,
            "provider endpoint "@ + config.provider,
            "provider endpoint "@ + config.provider
                + " 不同时支持 SpeakerHarness 所需的 response_format/structured_outputs"@,
        ),
    }
}

fn check_fixed_endpoint(config: &Config, required_modality: &str, endpoints: &Json) -> (result:
    Result<(), String>)
    ensures
        fault_of(result) == fixed_endpoint_fault(config@, required_modality@, *endpoints),
{
    let entry = match endpoints.get_inner("data", "endpoints") {
        Some(list) => match list.as_items() {
            Some(items) => find_entry(items, "tag", config.provider.as_str()),
            None => None,
        },
        None => None,
    };
    match entry {
        None => Err(
            text5(
                "provider endpoint ",
                config.provider.as_str(),
                " 不属于模型 ",
                config.model.as_str(),
                "；请先运行 spt providers",
            ),
        ),
        Some(endpoint) => {
            let label = text2("provider endpoint ", config.provider.as_str());
            let unstructured = text3(
                "provider endpoint ",
                config.provider.as_str(),
                " 不同时支持 SpeakerHarness 所需的 response_format/structured_outputs",
            );
            check_endpoint_use(config, required_modality, endpoint, label.as_str(), unstructured)
        },
    }
}

/// Why the endpoint of a fixed route does not count as one that keeps no data.
pub open spec fn fixed_zdr_fault(config: ConfigText, modality: Seq<char>, zdr: Json) -> Option<
    Seq<char>,
> {
    let entry = match items_in(field(zdr, "data"@)) {
        Some(items) => zdr_entry(items, config.model, config.provider, 0),
        None => None,
    };
    match entry {
        None => Some(
            "provider endpoint "@ + config.provider
                + " 当前不支持零数据保留，SpeakerHarness 拒绝发送参考声音"@,
        ),
        Some(endpoint) => endpoint_use_fault(
            config,
            modality,
            endpoint,
            "ZDR endpoint "@ + config.provider,
            "零数据保留 endpoint "@ + config.provider + " 不支持 SpeakerHarness 结构化输出"@,
        ),
    }
}

fn check_fixed_zdr(config: &Config, required_modality: &str, zdr: &Json) -> (result: Result<
    (),
    String,
>)
    ensures
        fault_of(result) == fixed_zdr_fault(config@, required_modality@, *zdr),
{
    let entry = match zdr.get("data") {
        Some(list) => match list.as_items() {
            Some(items) => find_zdr_entry(items, config.model.as_str(), config.provider.as_str()),
            None => None,
        },
        None => None,
    };
    match entry {
        None => Err(
            text3(
                "provider endpoint ",
                config.provider.as_str(),
                " 当前不支持零数据保留，SpeakerHarness 拒绝发送参考声音",
            ),
        ),
        Some(endpoint) => {
            let label = text2("ZDR endpoint ", config.provider.as_str());
            let unstructured = text3(
                "零数据保留 endpoint ",
                config.provider.as_str(),
                " 不支持 SpeakerHarness 结构化输出",
            );
            check_endpoint_use(config, required_modality, endpoint, label.as_str(), unstructured)
        },
    }
}

pub open spec fn has_active(items: Seq<Json>) -> bool {
    exists|k: int| 0 <= k < items.len() && is_active(#[trigger] items[k])
}

pub open spec fn has_active_structured(items: Seq<Json>) -> bool {
    exists|k: int|
        0 <= k < items.len() && is_active(#[trigger] items[k]) && supports_structure(items[k])
}

/// Why no endpoint of a model can serve a route that is left open.
pub open spec fn any_endpoint_fault(endpoints: Json, modality: Seq<char>, model: Seq<char>) -> Option<
    Seq<char>,
> {
    match items_in(inner_field(endpoints, "data"@, "endpoints"@)) {
        None => Some("OpenRouter Chat endpoint 目录缺少 data.endpoints 数组"@),
        Some(items) => if stt_count_fault(
            "OpenRouter Chat endpoint 目录"@,
            items.len(),
            256,
        ) is Some {
            stt_count_fault("OpenRouter Chat endpoint 目录"@, items.len(), 256)
        } else if !has_active(items) {
            Some("OpenRouter Chat 模型 "@ + model + " 当前没有 active endpoint"@)
        } else if modality == "audio"@ && !has_active_structured(items) {
            Some(
                "OpenRouter Chat 模型 "@ + model
                    + " 当前没有 active endpoint 同时支持 response_format/structured_outputs"@,
            )
        } else {
            None
        },
    }
}

pub fn validate_any_chat_endpoints(response: &Json, required_modality: &str, model: &str) -> (result:
    Result<(), String>)
    ensures
        fault_of(result) == any_endpoint_fault(*response, required_modality@, model@),
{
    let items = match response.get_inner("data", "endpoints") {
        Some(list) => match list.as_items() {
            Some(items) => items,
            None => {
                return Err("OpenRouter Chat endpoint 目录缺少 data.endpoints 数组".to_owned());
            },
        },
        None => {
            return Err("OpenRouter Chat endpoint 目录缺少 data.endpoints 数组".to_owned());
        },
    };
    if let Err(message) = validate_stt_count("OpenRouter Chat endpoint 目录", items.len(), 256) {
        return Err(message);
    }
    let mut active: bool = false;
    let mut structured: bool = false;
    let mut n: usize = 0;
    while n < items.len()
        invariant
            n <= items@.len(),
            active == exists|k: int| 0 <= k < n && is_active(#[trigger] items@[k]),
            structured == exists|k: int|
                0 <= k < n && is_active(#[trigger] items@[k]) && supports_structure(items@[k]),
        decreases items@.len() - n,
    {
        let ghost was_active = active;
        let ghost was_structured = structured;
        if endpoint_is_active(&items[n]) {
            assert(is_active(items@[n as int]));
            active = true;
            if supports_structured_output(&items[n]) {
                structured = true;
            }
        }
        proof {
            if was_active {
                let k = choose|k: int| 0 <= k < n && is_active(#[trigger] items@[k]);
                assert(0 <= k < n + 1 && is_active(items@[k]));
            }
            if was_structured {
                let k = choose|k: int|
                    0 <= k < n && is_active(#[trigger] items@[k]) && supports_structure(items@[k]);
                assert(0 <= k < n + 1 && is_active(items@[k]) && supports_structure(items@[k]));
            }
        }
        n += 1;
    }
    if !active {
        return Err(text3("OpenRouter Chat 模型 ", model, " 当前没有 active endpoint"));
    }
    if same_text(required_modality, "audio") && !structured {
        return Err(
            text3(
                "OpenRouter Chat 模型 ",
                model,
                " 当前没有 active endpoint 同时支持 response_format/structured_outputs",
            ),
        );
    }
    Ok(())
}

/// Why a route cannot be used, by one catalog.
pub open spec fn stage_fault(
    config: ConfigText,
    modality: Seq<char>,
    stage: CatalogStage,
    document: Json,
) -> Option<Seq<char>> {
    if modality_fault(modality) is Some {
        modality_fault(modality)
    } else {
        match stage {
            CatalogStage::Models => model_entry_fault(config, modality, document),
            CatalogStage::Endpoints => if is_any_provider(config.provider) {
                any_endpoint_fault(document, modality, config.model)
            } else {
                fixed_endpoint_fault(config, modality, document)
            },
            CatalogStage::ZeroRetention => fixed_zdr_fault(config, modality, document),
        }
    }
}

/// The catalog that is looked at after another; a fixed route is looked up in
/// the list of endpoints that keep no data, an open one is not.
pub open spec fn stage_after(config: ConfigText, stage: CatalogStage) -> Option<CatalogStage> {
    match stage {
        CatalogStage::Models => Some(CatalogStage::Endpoints),
        CatalogStage::Endpoints => if is_any_provider(config.provider) {
            None
        } else {
            Some(CatalogStage::ZeroRetention)
        },
        CatalogStage::ZeroRetention => None,
    }
}

/// Checks a route against one catalog and says which is to be looked at next.
pub fn validate_selection(
    config: &Config,
    required_modality: &str,
    stage: CatalogStage,
    document: &Json,
) -> (result: Result<Option<CatalogStage>, String>)
    ensures
        match result {
            Ok(next) => stage_fault(config@, required_modality@, stage, *document) is None && next
                == stage_after(config@, stage),
            Err(message) => stage_fault(config@, required_modality@, stage, *document) == Some(
                message@,
            ),
        },
{
    if let Err(message) = check_modality(required_modality) {
        return Err(message);
    }
    match stage {
        CatalogStage::Models => match check_model_entry(config, required_modality, document) {
            Ok(_) => Ok(Some(CatalogStage::Endpoints)),
            Err(message) => Err(message),
        },
        CatalogStage::Endpoints => if config.uses_any_provider() {
            match validate_any_chat_endpoints(document, required_modality, config.model.as_str()) {
                Ok(_) => Ok(None),
                Err(message) => Err(message),
            }
        } else {
            match check_fixed_endpoint(config, required_modality, document) {
                Ok(_) => Ok(Some(CatalogStage::ZeroRetention)),
                Err(message) => Err(message),
            }
        },
        CatalogStage::ZeroRetention => match check_fixed_zdr(config, required_modality, document) {
            Ok(_) => Ok(None),
            Err(message) => Err(message),
        },
    }
}

/// The address of a catalog.
pub fn stage_url(config: &Config, stage: CatalogStage) -> (url: String)
    ensures
        url@ == (match stage {
            CatalogStage::Models => models_address(),
            CatalogStage::Endpoints => endpoints_address(config@.model),
            CatalogStage::ZeroRetention => zdr_address(),
        }),
{
    match stage {
        CatalogStage::Models => models_url(),
        CatalogStage::Endpoints => endpoints_url(config.model.as_str()),
        CatalogStage::ZeroRetention => zdr_url(),
    }
}

// ---------------------------------------------------------------------------
// The route of speech-to-text requests
// ---------------------------------------------------------------------------

/// How many of the first `n` entries have a text in a field.
pub open spec fn entries_with(items: Seq<Json>, name: Seq<char>, text: Seq<char>, n: nat) -> nat
    decreases n,
{
    if n == 0 {
        0
    } else {
        entries_with(items, name, text, (n - 1) as nat) + (if text_in(field(items[n - 1], name))
            == Some(text) {
            1nat
        } else {
            0
        })
    }
}

fn count_entries(items: &Vec<Json>, name: &str, text: &str) -> (count: usize)
    ensures
        count == entries_with(items@, name@, text@, items@.len()),
{
    let mut count: usize = 0;
    let mut n: usize = 0;
    while n < items.len()
        invariant
            n <= items@.len(),
            count <= n,
            count == entries_with(items@, name@, text@, n as nat),
        decreases items@.len() - n,
    {
        if has_text(&items[n], name, text) {
            count += 1;
        }
        n += 1;
    }
    count
}

/// How many of the first `n` entries belong to a model and a working endpoint.
pub open spec fn active_zdr_entries(
    items: Seq<Json>,
    model: Seq<char>,
    tag: Seq<char>,
    n: nat,
) -> nat
    decreases n,
{
    if n == 0 {
        0
    } else {
        active_zdr_entries(items, model, tag, (n - 1) as nat) + (if is_zdr_entry(
            items[n - 1],
            model,
            tag,
        ) && is_active(items[n - 1]) {
            1nat
        } else {
            0
        })
    }
}

fn count_active_zdr(items: &Vec<Json>, model: &str, tag: &str) -> (count: usize)
    ensures
        count == active_zdr_entries(items@, model@, tag@, items@.len()),
{
    let mut count: usize = 0;
    let mut n: usize = 0;
    while n < items.len()
        invariant
            n <= items@.len(),
            count <= n,
            count == active_zdr_entries(items@, model@, tag@, n as nat),
        decreases items@.len() - n,
    {
        if has_text(&items[n], "model_id", model) && has_text(&items[n], "tag", tag)
            && endpoint_is_active(&items[n]) {
            count += 1;
        }
        n += 1;
    }
    count
}

/// The message for an identifier of a provider that is not taken.
pub open spec fn provider_fault_text(tag: Seq<char>) -> Option<Seq<char>> {
    match provider_fault(tag) {
        Some(fault) => Some(fault.provider_text()),
        None => None,
    }
}

/// An entry is looked at: it works and, where a model is given, belongs to it.
pub open spec fn is_candidate(entry: Json, model: Option<Seq<char>>) -> bool {
    is_active(entry) && (model is None || text_in(field(entry, "model_id"@)) == model)
}

/// Why the tag of an entry is not taken.
pub open spec fn tag_fault(entry: Json, missing: Seq<char>) -> Option<Seq<char>> {
    match text_in(field(entry, "tag"@)) {
        None => Some(missing),
        Some(tag) => provider_fault_text(tag),
    }
}

/// Why the first of the tags from `n` on is not taken that is not.
pub open spec fn tags_fault(
    items: Seq<Json>,
    model: Option<Seq<char>>,
    missing: Seq<char>,
    n: int,
) -> Option<Seq<char>>
    decreases items.len() - n,
{
    if n < 0 || n >= items.len() {
        None
    } else if is_candidate(items[n], model) && tag_fault(items[n], missing) is Some {
        tag_fault(items[n], missing)
    } else {
        tags_fault(items, model, missing, n + 1)
    }
}

/// A tag is that of one of the first `n` entries that are looked at.
pub open spec fn is_tag_among(
    items: Seq<Json>,
    model: Option<Seq<char>>,
    tag: Seq<char>,
    n: int,
) -> bool {
    exists|k: int|
        0 <= k < n && is_candidate(#[trigger] items[k], model) && text_in(field(items[k], "tag"@))
            == Some(tag)
}

/// The tags of the entries that are looked at, each once, in order.
pub open spec fn are_tags_of(tags: Seq<String>, items: Seq<Json>, model: Option<Seq<char>>) -> bool {
    &&& in_order(tags)
    &&& forall|tag: Seq<char>| #[trigger]
        holds(tags, tag) <==> is_tag_among(items, model, tag, items.len() as int)
}

fn collect_tags(items: &Vec<Json>, model: Option<&str>, missing: &str) -> (result: Result<
    Vec<String>,
    String,
>)
    ensures
        match result {
            Ok(tags) => tags_fault(items@, optional_str(model), missing@, 0) is None && are_tags_of(
                tags@,
                items@,
                optional_str(model),
            ),
            Err(message) => tags_fault(items@, optional_str(model), missing@, 0) == Some(message@),
        },
{
    let ghost wanted = optional_str(model);
    let mut tags: Vec<String> = Vec::new();
    let mut n: usize = 0;
    while n < items.len()
        invariant
            n <= items@.len(),
            wanted == optional_str(model),
            tags_fault(items@, wanted, missing@, n as int) == tags_fault(
                items@,
                wanted,
                missing@,
                0,
            ),
            in_order(tags@),
            forall|tag: Seq<char>| #[trigger]
                holds(tags@, tag) <==> is_tag_among(items@, wanted, tag, n as int),
        decreases items@.len() - n,
    {
        let entry = &items[n];
        let belongs = match model {
            Some(id) => has_text(entry, "model_id", id),
            None => true,
        };
        let ghost before = tags@;
        if belongs && endpoint_is_active(entry) {
            assert(is_candidate(items@[n as int], wanted));
            match text_field(entry, "tag") {
                None => {
                    return Err(missing.to_owned());
                },
                Some(tag) => {
                    if let Err(fault) = validate_provider_id(tag) {
                        return Err(fault.provider_message());
                    }
                    insert_in_order(&mut tags, tag);
                    assert forall|other: Seq<char>| #[trigger] holds(tags@, other) <==>
                        is_tag_among(items@, wanted, other, n + 1) by {
                        assert(holds(tags@, other) <==> holds(before, other) || other == tag@);
                        if holds(before, other) {
                            assert(is_tag_among(items@, wanted, other, n as int));
                            let k = choose|k: int|
                                0 <= k < n && is_candidate(#[trigger] items@[k], wanted) && text_in(
                                    field(items@[k], "tag"@),
                                ) == Some(other);
                            assert(is_candidate(items@[k], wanted));
                        }
                        if is_tag_among(items@, wanted, other, n + 1) && other != tag@ {
                            let k = choose|k: int|
                                0 <= k < n + 1 && is_candidate(#[trigger] items@[k], wanted)
                                    && text_in(field(items@[k], "tag"@)) == Some(other);
                            assert(k < n);
                            assert(is_tag_among(items@, wanted, other, n as int));
                        }
                    }
                },
            }
        } else {
            assert(!is_candidate(items@[n as int], wanted));
            assert forall|other: Seq<char>| #[trigger] holds(tags@, other) <==> is_tag_among(
                items@,
                wanted,
                other,
                n + 1,
            ) by {
                if is_tag_among(items@, wanted, other, n as int) {
                    let k = choose|k: int|
                        0 <= k < n && is_candidate(#[trigger] items@[k], wanted) && text_in(
                            field(items@[k], "tag"@),
                        ) == Some(other);
                    assert(is_candidate(items@[k], wanted));
                }
                if is_tag_among(items@, wanted, other, n + 1) {
                    let k = choose|k: int|
                        0 <= k < n + 1 && is_candidate(#[trigger] items@[k], wanted) && text_in(
                            field(items@[k], "tag"@),
                        ) == Some(other);
                    assert(k < n);
                    assert(is_tag_among(items@, wanted, other, n as int));
                }
            }
        }
        n += 1;
    }
    Ok(tags)
}

pub open spec fn no_stt_tag() -> Seq<char> {
    "OpenRouter active STT endpoint 缺少 tag"@
}

pub open spec fn no_zdr_tag() -> Seq<char> {
    "OpenRouter active ZDR endpoint 缺少 tag"@
}

/// The tags of the working endpoints, each once, in order.
pub fn active_stt_endpoint_tags(endpoints: &Vec<Json>) -> (result: Result<Vec<String>, String>)
    ensures
        match result {
            Ok(tags) => tags_fault(endpoints@, None, no_stt_tag(), 0) is None && are_tags_of(
                tags@,
                endpoints@,
                None,
            ),
            Err(message) => tags_fault(endpoints@, None, no_stt_tag(), 0) == Some(message@),
        },
{
    collect_tags(endpoints, None, "OpenRouter active STT endpoint 缺少 tag")
}

/// The tags of the working endpoints of a model that keep no data, each once,
/// in order.
pub fn active_zdr_tags(endpoints: &Vec<Json>, model: &str) -> (result: Result<Vec<String>, String>)
    ensures
        match result {
            Ok(tags) => tags_fault(endpoints@, Some(model@), no_zdr_tag(), 0) is None
                && are_tags_of(tags@, endpoints@, Some(model@)),
            Err(message) => tags_fault(endpoints@, Some(model@), no_zdr_tag(), 0) == Some(message@),
        },
{
    collect_tags(endpoints, Some(model), "OpenRouter active ZDR endpoint 缺少 tag")
}

/// Why the catalogs do not list a model as one for speech-to-text.
pub open spec fn stt_models_fault(models: Json, model: Seq<char>) -> Option<Seq<char>> {
    match items_in(field(models, "data"@)) {
        None => Some("OpenRouter STT 模型目录缺少 data 数组"@),
        Some(items) => if stt_count_fault(
            "OpenRouter STT 模型目录"@,
            items.len(),
            1_000,
        ) is Some {
            stt_count_fault("OpenRouter STT 模型目录"@, items.len(), 1_000)
        } else if entries_with(items, "id"@, model, items.len()) != 1 {
            Some("OpenRouter STT 目录中模型 "@ + model + " 不存在或不唯一"@)
        } else if !is_transcriber(entry_with(items, "id"@, model, 0)->0) {
            Some("OpenRouter 模型 "@ + model + " 不是 audio -> transcription 专用 STT 模型"@)
        } else {
            None
        },
    }
}

/// A model turns sound into text.
pub open spec fn is_transcriber(model: Json) -> bool {
    field_holds(inner_field(model, "architecture"@, "input_modalities"@), "audio"@)
        && field_holds(inner_field(model, "architecture"@, "output_modalities"@), "transcription"@)
}

fn model_transcribes(model: &Json) -> (result: bool)
    ensures
        result == is_transcriber(*model),
{
    value_holds(model.get_inner("architecture", "input_modalities"), "audio") && value_holds(
        model.get_inner("architecture", "output_modalities"),
        "transcription",
    )
}

proof fn lemma_entry_found(items: Seq<Json>, name: Seq<char>, text: Seq<char>, n: nat)
    requires
        n <= items.len(),
        entry_with(items, name, text, 0) is None,
    ensures
        entries_with(items, name, text, n) == 0,
    decreases n,
{
    if n > 0 {
        lemma_entry_found(items, name, text, (n - 1) as nat);
        lemma_no_entry(items, name, text, 0, n - 1);
    }
}

proof fn lemma_no_entry(items: Seq<Json>, name: Seq<char>, text: Seq<char>, from: int, k: int)
    requires
        0 <= from <= k < items.len(),
        entry_with(items, name, text, from) is None,
    ensures
        text_in(field(items[k], name)) != Some(text),
    decreases k - from,
{
    if from < k {
        lemma_no_entry(items, name, text, from + 1, k);
    }
}

fn check_stt_models(models: &Json, model: &str) -> (result: Result<(), String>)
    ensures
        fault_of(result) == stt_models_fault(*models, model@),
{
    let items = match models.get("data") {
        Some(list) => match list.as_items() {
            Some(items) => items,
            None => {
                return Err("OpenRouter STT 模型目录缺少 data 数组".to_owned());
            },
        },
        None => {
            return Err("OpenRouter STT 模型目录缺少 data 数组".to_owned());
        },
    };
    if let Err(message) = validate_stt_count("OpenRouter STT 模型目录", items.len(), 1_000) {
        return Err(message);
    }
    if count_entries(items, "id", model) != 1 {
        return Err(text3("OpenRouter STT 目录中模型 ", model, " 不存在或不唯一"));
    }
    match find_entry(items, "id", model) {
        Some(entry) => {
            if !model_transcribes(entry) {
                return Err(
                    text3(
                        "OpenRouter 模型 ",
                        model,
                        " 不是 audio -> transcription 专用 STT 模型",
                    ),
                );
            }
            Ok(())
        },
        None => {
            proof {
                lemma_entry_found(items@, "id"@, model@, items@.len());
            }
            Ok(())
        },
    }
}

/// Why a fixed endpoint cannot be used: it is not the only one of the model,
/// it does not work, it is another, or it is not listed once as one that keeps
/// no data.
pub open spec fn fixed_stt_fault(
    model: Seq<char>,
    expected: Seq<char>,
    endpoints: Seq<Json>,
    zdr: Seq<Json>,
) -> Option<Seq<char>> {
    if endpoints.len() != 1 {
        Some(
            "STT 模型 "@ + model + " 共有 "@ + decimal(endpoints.len())
                + " 个 endpoint；请求 schema 无法传递 provider.only，fixed 路由拒绝发送"@,
        )
    } else {
        match text_in(field(endpoints[0], "tag"@)) {
            None => Some("OpenRouter STT 唯一 endpoint 缺少 tag"@),
            Some(tag) => if provider_fault_text(tag) is Some {
                provider_fault_text(tag)
            } else if !is_active(endpoints[0]) {
                Some("OpenRouter STT endpoint "@ + tag + " 当前不是 active 状态"@)
            } else if tag != expected {
                Some(
                    "OpenRouter STT 唯一 active endpoint 是 "@ + tag + "，不是配置的 "@ + expected,
                )
            } else if active_zdr_entries(zdr, model, tag, zdr.len()) != 1 {
                Some("OpenRouter STT endpoint "@ + tag + " 当前没有唯一 active ZDR 记录"@)
            } else {
                None
            },
        }
    }
}

fn check_fixed_stt(
    model: &str,
    expected_provider: &str,
    endpoints: &Vec<Json>,
    zdr: &Vec<Json>,
) -> (result: Result<String, String>)
    ensures
        match result {
            Ok(endpoint) => fixed_stt_fault(
                model@,
                expected_provider@,
                endpoints@,
                zdr@,
            ) is None && endpoint@ == expected_provider@,
            Err(message) => fixed_stt_fault(model@, expected_provider@, endpoints@, zdr@) == Some(
                message@,
            ),
        },
{
    if endpoints.len() != 1 {
        let count = decimal_string(endpoints.len() as u64);
        return Err(
            text5(
                "STT 模型 ",
                model,
                " 共有 ",
                count.as_str(),
                " 个 endpoint；请求 schema 无法传递 provider.only，fixed 路由拒绝发送",
            ),
        );
    }
    let tag = match text_field(&endpoints[0], "tag") {
        Some(found) => found,
        None => {
            return Err("OpenRouter STT 唯一 endpoint 缺少 tag".to_owned());
        },
    };
    if let Err(fault) = validate_provider_id(tag) {
        return Err(fault.provider_message());
    }
    if !endpoint_is_active(&endpoints[0]) {
        return Err(text3("OpenRouter STT endpoint ", tag, " 当前不是 active 状态"));
    }
    if !same_text(tag, expected_provider) {
        return Err(
            text4(
                "OpenRouter STT 唯一 active endpoint 是 ",
                tag,
                "，不是配置的 ",
                expected_provider,
            ),
        );
    }
    if count_active_zdr(zdr, model, tag) != 1 {
        return Err(text3("OpenRouter STT endpoint ", tag, " 当前没有唯一 active ZDR 记录"));
    }
    Ok(tag.to_owned())
}

/// Why an open route cannot be used.
pub open spec fn open_stt_fault(
    model: Seq<char>,
    endpoints: Seq<Json>,
    zdr: Seq<Json>,
) -> Option<Seq<char>> {
    if tags_fault(endpoints, None, no_stt_tag(), 0) is Some {
        tags_fault(endpoints, None, no_stt_tag(), 0)
    } else if !has_active(endpoints) {
        Some("OpenRouter STT 模型 "@ + model + " 当前没有 active endpoint"@)
    } else {
        tags_fault(zdr, Some(model), no_zdr_tag(), 0)
    }
}

/// Why the catalogs do not allow a route.
pub open spec fn stt_selection_fault(
    model: Seq<char>,
    expected: Seq<char>,
    models: Json,
    endpoints: Json,
    zdr: Json,
) -> Option<Seq<char>> {
    if stt_models_fault(models, model) is Some {
        stt_models_fault(models, model)
    } else {
        match items_in(inner_field(endpoints, "data"@, "endpoints"@)) {
            None => Some("OpenRouter STT endpoint 目录缺少 data.endpoints 数组"@),
            Some(list) => if stt_count_fault(
                "OpenRouter STT endpoint 目录"@,
                list.len(),
                256,
            ) is Some {
                stt_count_fault("OpenRouter STT endpoint 目录"@, list.len(), 256)
            } else {
                match items_in(field(zdr, "data"@)) {
                    None => Some("OpenRouter ZDR endpoint 目录缺少 data 数组"@),
                    Some(kept) => if stt_count_fault(
                        "OpenRouter ZDR endpoint 目录"@,
                        kept.len(),
                        10_000,
                    ) is Some {
                        stt_count_fault("OpenRouter ZDR endpoint 目录"@, kept.len(), 10_000)
                    } else if is_any_provider(expected) {
                        open_stt_fault(model, list, kept)
                    } else {
                        fixed_stt_fault(model, expected, list, kept)
                    },
                }
            },
        }
    }
}

/// What the catalogs allow: the fixed endpoint, or the working endpoints, each
/// once and in order, with those among them that keep no data.
pub open spec fn is_stt_selection(
    selection: SttEndpointSelection,
    model: Seq<char>,
    expected: Seq<char>,
    endpoints: Seq<Json>,
    zdr: Seq<Json>,
) -> bool {
    match selection {
        SttEndpointSelection::FixedZdr { endpoint } => !is_any_provider(expected) && endpoint@
            == expected,
        SttEndpointSelection::AnyProviderPrivacyDowngrade { active_endpoints, zdr_endpoints } => {
            &&& is_any_provider(expected)
            &&& are_tags_of(active_endpoints@, endpoints, None)
            &&& in_order(zdr_endpoints@)
            &&& forall|tag: Seq<char>| #[trigger]
                holds(zdr_endpoints@, tag) <==> is_tag_among(
                    zdr,
                    Some(model),
                    tag,
                    zdr.len() as int,
                ) && holds(active_endpoints@, tag)
        },
    }
}

proof fn lemma_tags_of_active(items: Seq<Json>, k: int, n: int)
    requires
        0 <= n <= k < items.len(),
        tags_fault(items, None, no_stt_tag(), n) is None,
        is_active(items[k]),
    ensures
        text_in(field(items[k], "tag"@)) is Some,
    decreases k - n,
{
    if n < k {
        lemma_tags_of_active(items, k, n + 1);
    } else {
        assert(is_candidate(items[n], None));
    }
}

fn select_open(model: &str, endpoints: &Vec<Json>, zdr: &Vec<Json>, expected_provider: &str) -> (result:
    Result<SttEndpointSelection, String>)
    requires
        is_any_provider(expected_provider@),
    ensures
        match result {
            Ok(selection) => open_stt_fault(model@, endpoints@, zdr@) is None && is_stt_selection(
                selection,
                model@,
                expected_provider@,
                endpoints@,
                zdr@,
            ),
            Err(message) => open_stt_fault(model@, endpoints@, zdr@) == Some(message@),
        },
{
    let active_endpoints = match active_stt_endpoint_tags(endpoints) {
        Ok(tags) => tags,
        Err(message) => {
            return Err(message);
        },
    };
    if active_endpoints.len() == 0 {
        proof {
            if has_active(endpoints@) {
                let k = choose|k: int|
                    0 <= k < endpoints@.len() && is_active(#[trigger] endpoints@[k]);
                lemma_tags_of_active(endpoints@, k, 0);
                let tag = text_in(field(endpoints@[k], "tag"@))->0;
                assert(is_candidate(endpoints@[k], None));
                assert(is_tag_among(endpoints@, None, tag, endpoints@.len() as int));
                assert(holds(active_endpoints@, tag));
            }
        }
        return Err(text3("OpenRouter STT 模型 ", model, " 当前没有 active endpoint"));
    }
    assert(has_active(endpoints@)) by {
        let tag = active_endpoints@[0]@;
        assert(holds(active_endpoints@, tag));
        let k = choose|k: int|
            0 <= k < endpoints@.len() && is_candidate(#[trigger] endpoints@[k], None) && text_in(
                field(endpoints@[k], "tag"@),
            ) == Some(tag);
        assert(is_active(endpoints@[k]));
    }
    let candidates = match active_zdr_tags(zdr, model) {
        Ok(tags) => tags,
        Err(message) => {
            return Err(message);
        },
    };
    let mut zdr_endpoints: Vec<String> = Vec::new();
    let mut n: usize = 0;
    while n < candidates.len()
        invariant
            n <= candidates@.len(),
            in_order(zdr_endpoints@),
            forall|tag: Seq<char>| #[trigger]
                holds(zdr_endpoints@, tag) <==> holds(candidates@.take(n as int), tag) && holds(
                    active_endpoints@,
                    tag,
                ),
        decreases candidates@.len() - n,
    {
        let ghost before = zdr_endpoints@;
        let tag = candidates[n].as_str();
        let mut active: bool = false;
        let mut k: usize = 0;
        while k < active_endpoints.len()
            invariant
                k <= active_endpoints@.len(),
                active == exists|j: int| 0 <= j < k && #[trigger] active_endpoints@[j]@ == tag@,
            decreases active_endpoints@.len() - k,
        {
            let ghost was = active;
            if same_text(active_endpoints[k].as_str(), tag) {
                assert(active_endpoints@[k as int]@ == tag@);
                active = true;
            }
            proof {
                if was {
                    let j = choose|j: int| 0 <= j < k && #[trigger] active_endpoints@[j]@ == tag@;
                    assert(0 <= j < k + 1 && active_endpoints@[j]@ == tag@);
                }
            }
            k += 1;
        }
        assert(active == holds(active_endpoints@, tag@));
        if active {
            insert_in_order(&mut zdr_endpoints, tag);
        }
        assert forall|other: Seq<char>| #[trigger] holds(zdr_endpoints@, other) <==> holds(
            candidates@.take(n + 1),
            other,
        ) && holds(active_endpoints@, other) by {
            lemma_holds_take(candidates@, n as int, other);
            assert(holds(before, other) <==> holds(candidates@.take(n as int), other) && holds(
                active_endpoints@,
                other,
            ));
        }
        n += 1;
    }
    assert(candidates@.take(n as int) =~= candidates@);
    Ok(SttEndpointSelection::AnyProviderPrivacyDowngrade { active_endpoints, zdr_endpoints })
}

proof fn lemma_holds_take(items: Seq<String>, n: int, text: Seq<char>)
    requires
        0 <= n < items.len(),
    ensures
        holds(items.take(n + 1), text) <==> holds(items.take(n), text) || items[n]@ == text,
{
    let longer = items.take(n + 1);
    let shorter = items.take(n);
    if holds(longer, text) {
        let i = choose|i: int| 0 <= i < longer.len() && #[trigger] longer[i]@ == text;
        if i < n {
            assert(shorter[i]@ == text);
        }
    }
    if holds(shorter, text) {
        let i = choose|i: int| 0 <= i < shorter.len() && #[trigger] shorter[i]@ == text;
        assert(longer[i]@ == text);
    }
    if items[n]@ == text {
        assert(longer[n]@ == text);
    }
}

/// Checks a route by the catalogs. A fixed endpoint is allowed only where it is
/// the one endpoint of the model, works, and is listed as one that keeps no
/// data; an open route gives the endpoints that the request may reach.
pub fn validate_stt_catalog_selection(
    model: &str,
    expected_provider: &str,
    models_response: &Json,
    endpoints_response: &Json,
    zdr_response: &Json,
) -> (result: Result<SttEndpointSelection, String>)
    ensures
        match result {
            Ok(selection) => stt_selection_fault(
                model@,
                expected_provider@,
                *models_response,
                *endpoints_response,
                *zdr_response,
            ) is None && is_stt_selection(
                selection,
                model@,
                expected_provider@,
                items_in(inner_field(*endpoints_response, "data"@, "endpoints"@))->0,
                items_in(field(*zdr_response, "data"@))->0,
            ),
            Err(message) => stt_selection_fault(
                model@,
                expected_provider@,
                *models_response,
                *endpoints_response,
                *zdr_response,
            ) == Some(message@),
        },
{
    if let Err(message) = check_stt_models(models_response, model) {
        return Err(message);
    }
    let endpoints = match endpoints_response.get_inner("data", "endpoints") {
        Some(list) => match list.as_items() {
            Some(items) => items,
            None => {
                return Err("OpenRouter STT endpoint 目录缺少 data.endpoints 数组".to_owned());
            },
        },
        None => {
            return Err("OpenRouter STT endpoint 目录缺少 data.endpoints 数组".to_owned());
        },
    };
    if let Err(message) = validate_stt_count("OpenRouter STT endpoint 目录", endpoints.len(), 256) {
        return Err(message);
    }
    let zdr = match zdr_response.get("data") {
        Some(list) => match list.as_items() {
            Some(items) => items,
            None => {
                return Err("OpenRouter ZDR endpoint 目录缺少 data 数组".to_owned());
            },
        },
        None => {
            return Err("OpenRouter ZDR endpoint 目录缺少 data 数组".to_owned());
        },
    };
    if let Err(message) = validate_stt_count("OpenRouter ZDR endpoint 目录", zdr.len(), 10_000) {
        return Err(message);
    }
    if names_any_provider(expected_provider) {
        return select_open(model, endpoints, zdr, expected_provider);
    }
    match check_fixed_stt(model, expected_provider, endpoints, zdr) {
        Ok(endpoint) => Ok(SttEndpointSelection::FixedZdr { endpoint }),
        Err(message) => Err(message),
    }
}

/// The identifiers of a route, before any catalog is looked at.
pub open spec fn stt_route_fault(model: Seq<char>, provider: Seq<char>) -> Option<Seq<char>> {
    match model_fault(model) {
        Some(fault) => Some(fault.model_text()),
        None => provider_fault_text(provider),
    }
}

pub fn check_stt_route(model: &str, expected_provider: &str) -> (result: Result<(), String>)
    ensures
        fault_of(result) == stt_route_fault(model@, expected_provider@),
{
    if let Err(fault) = validate_model_id(model) {
        return Err(fault.model_message());
    }
    if let Err(fault) = validate_provider_id(expected_provider) {
        return Err(fault.provider_message());
    }
    Ok(())
}

// ---------------------------------------------------------------------------
// Lists for the reader
// ---------------------------------------------------------------------------

/// A model of a catalog.
#[derive(Clone, Debug, PartialEq, Eq)]
pub struct ModelSummary {
    pub id: String,
    pub name: String,
    pub context_length: u64,
    pub max_completion_tokens: u64,
}

/// An endpoint of a model.
#[derive(Clone, Debug, PartialEq, Eq)]
pub struct ProviderSummary {
    pub tag: String,
    pub name: String,
    pub context_length: u64,
    pub max_completion_tokens: u64,
}

/// What a line of a list says.
pub ghost struct SummaryView {
    pub key: Seq<char>,
    pub name: Seq<char>,
    pub context_length: u64,
    pub max_completion_tokens: u64,
}

impl View for ModelSummary {
    type V = SummaryView;

    open spec fn view(&self) -> SummaryView {
        SummaryView {
            key: self.id@,
            name: self.name@,
            context_length: self.context_length,
            max_completion_tokens: self.max_completion_tokens,
        }
    }
}

impl View for ProviderSummary {
    type V = SummaryView;

    open spec fn view(&self) -> SummaryView {
        SummaryView {
            key: self.tag@,
            name: self.name@,
            context_length: self.context_length,
            max_completion_tokens: self.max_completion_tokens,
        }
    }
}

/// A line of a list that is kept in the order of its keys.
pub trait Summary: View<V = SummaryView> + Sized {
    fn key(&self) -> (key: &str)
        ensures
            key@ == self@.key,
    ;
}

impl Summary for ModelSummary {
    fn key(&self) -> (key: &str) {
        self.id.as_str()
    }
}

impl Summary for ProviderSummary {
    fn key(&self) -> (key: &str) {
        self.tag.as_str()
    }
}

pub open spec fn summary_views<T: Summary>(items: Seq<T>) -> Seq<SummaryView> {
    Seq::new(items.len(), |k: int| items[k]@)
}

/// Where a key goes in a list, from `n` on: behind all keys that do not come
/// after it.
pub open spec fn place_for(list: Seq<SummaryView>, key: Seq<char>, n: int) -> int
    decreases list.len() - n,
{
    if n < 0 || n >= list.len() || text_before(key, list[n].key) {
        n
    } else {
        place_for(list, key, n + 1)
    }
}

/// A list with one more line.
pub open spec fn with_summary(list: Seq<SummaryView>, line: SummaryView) -> Seq<SummaryView> {
    list.insert(place_for(list, line.key, 0), line)
}

fn add_summary<T: Summary>(items: &mut Vec<T>, item: T)
    ensures
        summary_views(final(items)@) == with_summary(summary_views(old(items)@), item@),
{
    let ghost list = summary_views(items@);
    let mut n: usize = 0;
    let mut placed: bool = false;
    while n < items.len() && !placed
        invariant
            n <= items@.len(),
            list == summary_views(items@),
            items@ == old(items)@,
            !placed ==> place_for(list, item@.key, n as int) == place_for(list, item@.key, 0),
            placed ==> n == place_for(list, item@.key, 0),
        decreases items@.len() - n + (if placed {
            0int
        } else {
            1
        }),
    {
        match place_of(item.key(), items[n].key()) {
            Place::Before => {
                assert(list[n as int].key == items@[n as int]@.key);
                placed = true;
            },
            _ => {
                proof {
                    lemma_text_before_total(item@.key, items@[n as int]@.key);
                    assert(list[n as int].key == items@[n as int]@.key);
                }
                n += 1;
            },
        }
    }
    items.insert(n, item);
    assert(summary_views(items@) =~= list.insert(n as int, item@));
}

/// A list stands in the order of its keys.
pub open spec fn keys_in_order(list: Seq<SummaryView>) -> bool {
    forall|i: int, j: int|
        0 <= i < j < list.len() ==> !text_before(#[trigger] list[j].key, #[trigger] list[i].key)
}

proof fn lemma_place_for(list: Seq<SummaryView>, key: Seq<char>, n: int)
    requires
        0 <= n <= list.len(),
    ensures
        n <= place_for(list, key, n) <= list.len(),
        forall|k: int| n <= k < place_for(list, key, n) ==> !text_before(key, #[trigger] list[k].key),
        place_for(list, key, n) < list.len() ==> text_before(
            key,
            list[place_for(list, key, n)].key,
        ),
    decreases list.len() - n,
{
    if n < list.len() && !text_before(key, list[n].key) {
        lemma_place_for(list, key, n + 1);
    }
}

/// A line more leaves a list in the order of its keys.
pub proof fn lemma_summary_keeps_order(list: Seq<SummaryView>, line: SummaryView)
    requires
        keys_in_order(list),
    ensures
        keys_in_order(with_summary(list, line)),
        with_summary(list, line).len() == list.len() + 1,
        with_summary(list, line).to_multiset() == list.to_multiset().insert(line),
{
    let at = place_for(list, line.key, 0);
    let longer = with_summary(list, line);
    lemma_place_for(list, line.key, 0);
    vstd::seq_lib::lemma_multiset_commutative(list.take(at), list.skip(at));
    assert(list.take(at) + list.skip(at) =~= list);
    assert(longer =~= list.take(at).push(line) + list.skip(at));
    vstd::seq_lib::lemma_multiset_commutative(list.take(at).push(line), list.skip(at));
    list.take(at).to_multiset_ensures();
    assert(longer.to_multiset() =~= list.to_multiset().insert(line));
    assert forall|i: int, j: int| 0 <= i < j < longer.len() implies !text_before(
        #[trigger] longer[j].key,
        #[trigger] longer[i].key,
    ) by {
        if j == at {
            assert(longer[i] == list[i]);
        } else if i == at {
            assert(longer[j] == list[j - 1]);
            lemma_text_before_total(line.key, list[at].key);
            if text_before(list[j - 1].key, line.key) {
                lemma_text_before_transitive(list[j - 1].key, line.key, list[at].key);
                if j - 1 > at {
                    assert(!text_before(list[j - 1].key, list[at].key));
                } else {
                    lemma_text_before_total(list[at].key, list[at].key);
                }
            }
        } else {
            let a = if i < at {
                i
            } else {
                i - 1
            };
            let b = if j < at {
                j
            } else {
                j - 1
            };
            assert(longer[i] == list[a]);
            assert(longer[j] == list[b]);
        }
    }
}

/// A name or an identifier holds what is looked for, without regard to case.
pub open spec fn is_searched(id: Seq<char>, name: Seq<char>, search: Option<Seq<char>>) -> bool {
    search is None || contains_text(lowercased(id), lowercased(search->0)) || contains_text(
        lowercased(name),
        lowercased(search->0),
    )
}

fn matches_search(id: &str, name: &str, search: Option<&str>) -> (result: bool)
    ensures
        result == is_searched(id@, name@, optional_str(search)),
{
    match search {
        None => true,
        Some(text) => {
            let needle = ascii_lowercase(text);
            let low_id = ascii_lowercase(id);
            let low_name = ascii_lowercase(name);
            contains_str(low_id.as_str(), needle.as_str()) || contains_str(
                low_name.as_str(),
                needle.as_str(),
            )
        },
    }
}

pub open spec fn natural_or_none(value: Option<Json>) -> u64 {
    match natural_in(value) {
        Some(n) => n,
        None => 0,
    }
}

pub open spec fn entry_id(entry: Json) -> Seq<char> {
    match text_in(field(entry, "id"@)) {
        Some(id) => id,
        None => ""@,
    }
}

pub open spec fn entry_name(entry: Json) -> Seq<char> {
    match text_in(field(entry, "name"@)) {
        Some(name) => name,
        None => entry_id(entry),
    }
}

/// The line of a model.
pub open spec fn model_line(entry: Json, name: Seq<char>) -> SummaryView {
    SummaryView {
        key: entry_id(entry),
        name,
        context_length: natural_or_none(field(entry, "context_length"@)),
        max_completion_tokens: natural_or_none(
            inner_field(entry, "top_provider"@, "max_completion_tokens"@),
        ),
    }
}

fn summarize_model(entry: &Json, id: &str, name: String) -> (summary: ModelSummary)
    requires
        id@ == entry_id(*entry),
    ensures
        summary@ == model_line(*entry, name@),
{
    ModelSummary {
        id: id.to_owned(),
        name,
        context_length: natural_or_zero(entry.get("context_length")),
        max_completion_tokens: natural_or_zero(
            entry.get_inner("top_provider", "max_completion_tokens"),
        ),
    }
}

/// The lines of those of the first `n` models that take sound and are looked
/// for, in the order of their identifiers.
pub open spec fn audio_models(items: Seq<Json>, search: Option<Seq<char>>, n: nat) -> Seq<
    SummaryView,
>
    decreases n,
{
    if n == 0 {
        Seq::empty()
    } else {
        let before = audio_models(items, search, (n - 1) as nat);
        let entry = items[n - 1];
        if field_holds(inner_field(entry, "architecture"@, "input_modalities"@), "audio"@)
            && is_searched(entry_id(entry), entry_name(entry), search) {
            with_summary(before, model_line(entry, entry_name(entry)))
        } else {
            before
        }
    }
}

/// Lists the models that take sound.
pub fn list_audio_models(value: &Json, search: Option<&str>) -> (result: Result<
    Vec<ModelSummary>,
    String,
>)
    ensures
        match result {
            Ok(models) => items_in(field(*value, "data"@)) is Some && summary_views(models@)
                == audio_models(
                items_in(field(*value, "data"@))->0,
                optional_str(search),
                (items_in(field(*value, "data"@))->0).len(),
            ),
            Err(message) => items_in(field(*value, "data"@)) is None && message@
                == "OpenRouter 模型目录缺少 data 数组"@,
        },
{
    let items = match value.get("data") {
        Some(list) => match list.as_items() {
            Some(items) => items,
            None => {
                return Err("OpenRouter 模型目录缺少 data 数组".to_owned());
            },
        },
        None => {
            return Err("OpenRouter 模型目录缺少 data 数组".to_owned());
        },
    };
    let mut models: Vec<ModelSummary> = Vec::new();
    let mut n: usize = 0;
    assert(summary_views(models@) =~= Seq::<SummaryView>::empty());
    while n < items.len()
        invariant
            n <= items@.len(),
            summary_views(models@) == audio_models(items@, optional_str(search), n as nat),
        decreases items@.len() - n,
    {
        let entry = &items[n];
        if value_holds(entry.get_inner("architecture", "input_modalities"), "audio") {
            let id = match text_field(entry, "id") {
                Some(found) => found,
                None => "",
            };
            let name = match text_field(entry, "name") {
                Some(found) => found,
                None => id,
            };
            if matches_search(id, name, search) {
                let summary = summarize_model(entry, id, name.to_owned());
                add_summary(&mut models, summary);
            }
        }
        n += 1;
    }
    Ok(models)
}

/// The lines of those of the first `n` models that turn sound into text, have
/// an identifier that is taken, and are looked for.
pub open spec fn stt_models(items: Seq<Json>, search: Option<Seq<char>>, n: nat) -> Seq<SummaryView>
    decreases n,
{
    if n == 0 {
        Seq::empty()
    } else {
        let before = stt_models(items, search, (n - 1) as nat);
        let entry = items[n - 1];
        if is_transcriber(entry) && model_fault(entry_id(entry)) is None && is_searched(
            entry_id(entry),
            entry_name(entry),
            search,
        ) {
            with_summary(
                before,
                model_line(entry, bounded_text(entry_name(entry), MAX_STT_METADATA_CHARS as nat)),
            )
        } else {
            before
        }
    }
}

pub open spec fn stt_list_fault(value: Json) -> Option<Seq<char>> {
    match items_in(field(value, "data"@)) {
        None => Some("OpenRouter STT 模型目录缺少 data 数组"@),
        Some(items) => stt_count_fault("OpenRouter STT 模型目录"@, items.len(), 1_000),
    }
}

/// Lists the models that turn sound into text.
pub fn parse_stt_model_summaries(value: &Json, search: Option<&str>) -> (result: Result<
    Vec<ModelSummary>,
    String,
>)
    ensures
        match result {
            Ok(models) => stt_list_fault(*value) is None && summary_views(models@) == stt_models(
                items_in(field(*value, "data"@))->0,
                optional_str(search),
                (items_in(field(*value, "data"@))->0).len(),
            ),
            Err(message) => stt_list_fault(*value) == Some(message@),
        },
{
    let items = match value.get("data") {
        Some(list) => match list.as_items() {
            Some(items) => items,
            None => {
                return Err("OpenRouter STT 模型目录缺少 data 数组".to_owned());
            },
        },
        None => {
            return Err("OpenRouter STT 模型目录缺少 data 数组".to_owned());
        },
    };
    if let Err(message) = validate_stt_count("OpenRouter STT 模型目录", items.len(), 1_000) {
        return Err(message);
    }
    let mut models: Vec<ModelSummary> = Vec::new();
    let mut n: usize = 0;
    assert(summary_views(models@) =~= Seq::<SummaryView>::empty());
    while n < items.len()
        invariant
            n <= items@.len(),
            summary_views(models@) == stt_models(items@, optional_str(search), n as nat),
        decreases items@.len() - n,
    {
        let entry = &items[n];
        if model_transcribes(entry) {
            let id = match text_field(entry, "id") {
                Some(found) => found,
                None => "",
            };
            let name = match text_field(entry, "name") {
                Some(found) => found,
                None => id,
            };
            if validate_model_id(id).is_ok() && matches_search(id, name, search) {
                let summary = summarize_model(entry, id, bounded(name, MAX_STT_METADATA_CHARS));
                add_summary(&mut models, summary);
            }
        }
        n += 1;
    }
    Ok(models)
}

/// The name of an endpoint: that of its provider, else its own.
pub open spec fn endpoint_name(entry: Json) -> Seq<char> {
    let named = if field(entry, "provider_name"@) is Some {
        field(entry, "provider_name"@)
    } else {
        field(entry, "name"@)
    };
    match text_in(named) {
        Some(name) => name,
        None => "unknown"@,
    }
}

pub open spec fn endpoint_line(entry: Json, tag: Seq<char>) -> SummaryView {
    SummaryView {
        key: tag,
        name: endpoint_name(entry),
        context_length: natural_or_none(field(entry, "context_length"@)),
        max_completion_tokens: natural_or_none(field(entry, "max_completion_tokens"@)),
    }
}

/// The lines of those of the first `n` endpoints that have a tag.
pub open spec fn endpoint_lines(items: Seq<Json>, n: nat) -> Seq<SummaryView>
    decreases n,
{
    if n == 0 {
        Seq::empty()
    } else {
        let before = endpoint_lines(items, (n - 1) as nat);
        match text_in(field(items[n - 1], "tag"@)) {
            Some(tag) => with_summary(before, endpoint_line(items[n - 1], tag)),
            None => before,
        }
    }
}

fn summarize_endpoint(entry: &Json, tag: &str) -> (summary: ProviderSummary)
    ensures
        summary@ == endpoint_line(*entry, tag@),
{
    let named = match entry.get("provider_name") {
        Some(found) => Some(found),
        None => entry.get("name"),
    };
    let name = match named {
        Some(found) => match found.as_text() {
            Some(text) => text,
            None => "unknown",
        },
        None => "unknown",
    };
    ProviderSummary {
        tag: tag.to_owned(),
        name: name.to_owned(),
        context_length: natural_or_zero(entry.get("context_length")),
        max_completion_tokens: natural_or_zero(entry.get("max_completion_tokens")),
    }
}

/// Lists the endpoints of a model.
pub fn list_providers(value: &Json) -> (result: Result<Vec<ProviderSummary>, String>)
    ensures
        match result {
            Ok(providers) => items_in(inner_field(*value, "data"@, "endpoints"@)) is Some
                && summary_views(providers@) == endpoint_lines(
                items_in(inner_field(*value, "data"@, "endpoints"@))->0,
                (items_in(inner_field(*value, "data"@, "endpoints"@))->0).len(),
            ),
            Err(message) => items_in(inner_field(*value, "data"@, "endpoints"@)) is None && message@
                == "OpenRouter endpoint 目录缺少 data.endpoints 数组"@,
        },
{
    let items = match value.get_inner("data", "endpoints") {
        Some(list) => match list.as_items() {
            Some(items) => items,
            None => {
                return Err("OpenRouter endpoint 目录缺少 data.endpoints 数组".to_owned());
            },
        },
        None => {
            return Err("OpenRouter endpoint 目录缺少 data.endpoints 数组".to_owned());
        },
    };
    let mut providers: Vec<ProviderSummary> = Vec::new();
    let mut n: usize = 0;
    assert(summary_views(providers@) =~= Seq::<SummaryView>::empty());
    while n < items.len()
        invariant
            n <= items@.len(),
            summary_views(providers@) == endpoint_lines(items@, n as nat),
        decreases items@.len() - n,
    {
        let entry = &items[n];
        if let Some(tag) = text_field(entry, "tag") {
            let summary = summarize_endpoint(entry, tag);
            add_summary(&mut providers, summary);
        }
        n += 1;
    }
    Ok(providers)
}

/// Every list of models stands in the order of its identifiers.
pub proof fn lemma_lists_in_order(items: Seq<Json>, search: Option<Seq<char>>, n: nat)
    requires
        n <= items.len(),
    ensures
        keys_in_order(audio_models(items, search, n)),
        keys_in_order(stt_models(items, search, n)),
        keys_in_order(endpoint_lines(items, n)),
    decreases n,
{
    if n > 0 {
        lemma_lists_in_order(items, search, (n - 1) as nat);
        let entry = items[n - 1];
        lemma_summary_keeps_order(
            audio_models(items, search, (n - 1) as nat),
            model_line(entry, entry_name(entry)),
        );
        lemma_summary_keeps_order(
            stt_models(items, search, (n - 1) as nat),
            model_line(entry, bounded_text(entry_name(entry), MAX_STT_METADATA_CHARS as nat)),
        );
        if let Some(tag) = text_in(field(entry, "tag"@)) {
            lemma_summary_keeps_order(
                endpoint_lines(items, (n - 1) as nat),
                endpoint_line(entry, tag),
            );
        }
    }
}

} // verus!
