use serde_json::Value;
use spt::config::{
    Config, ANY_PROVIDER, DEFAULT_MODEL, DEFAULT_PROVIDER, DEFAULT_QUALITY_REVIEW_MODEL,
};
use spt::double::{Double, ONE};
use spt::json::Json;
use spt::openrouter::accounting::{
    derived_catalog_request_cap, Completion, CompletionOrigin, RequestLedger,
    MAX_STT_USAGE_TOKENS,
};
use spt::openrouter::catalog::{
    endpoints_url, list_audio_models, list_providers, parse_stt_model_summaries,
    require_active_catalog_endpoint, stage_url, validate_any_chat_endpoints,
    validate_catalog_completion_limit, validate_selection, validate_stt_catalog_selection,
    CatalogStage,
};
use spt::openrouter::chat::{
    complete_usage_reported, completion_tokens_reported, extract_text, finish_reason_needs_split,
    judge_chat_reply, record_rejected_chat_response, start_attempt, take_chat_reply,
    validate_or_record_chat_route, validate_reported_chat_route, visible_output_needs_split,
    ChatReply, ChatResponse, ChatStep, Choice, CompletionResult, CompletionTokenDetails, Message,
    Usage,
};
use spt::openrouter::client::{ClientError, OpenRouterClient};
use spt::openrouter::failure::{
    api_retry_allowed, backoff_seconds, check_chunk_length, check_content_length,
    extract_error_message, format_api_error, format_request_failure, indicates_context_overflow,
    non_retryable_safety_diagnostic, non_retryable_safety_response, retry_after_seconds,
    retryable_api_error, retryable_status, validate_request_media_length, wait_seconds,
    with_actual_attempt_count, ApiError, ApiErrorMetadata, ErrorCode, MAX_REQUEST_MEDIA_BYTES,
    MAX_RESPONSE_BYTES,
};
use spt::openrouter::repetition::looks_repetitive;
use spt::openrouter::request::{
    audio_content, audio_prompt, build_chat_payload, build_stt_payload, check_stt_request,
    image_content, stt_audio_format, stt_request_body, validate_stt_language,
};
use spt::openrouter::stt::{
    judge_stt_reply, record_rejected_stt_response, rejected_stt_completion, start_stt_attempt,
    take_stt_reply, validate_bounded_stt_text, validate_stt_count, validate_stt_number,
    validate_stt_time_range, validate_then_reserve_stt_attempt, validated_stt_completion,
    SttEndpointSelection, SttReply, SttResponse, SttSegment, SttStep, SttUsage, SttWord,
};
use spt::text::bounded;
use std::cell::{Cell, RefCell};

fn json(text: &str) -> Value {
    serde_json::from_str(text).unwrap()
}

fn doc(value: &Value) -> Json {
    match value {
        Value::Null => Json::Null,
        Value::Bool(truth) => Json::Bool(*truth),
        Value::Number(number) => match (number.as_u64(), number.as_i64()) {
            (Some(natural), _) => Json::Natural(natural),
            (None, Some(whole)) => Json::Negative(whole),
            (None, None) => Json::Fraction(number.to_string()),
        },
        Value::String(text) => Json::Text(text.clone()),
        Value::Array(items) => Json::Array(items.iter().map(doc).collect()),
        Value::Object(fields) => {
            Json::Object(fields.iter().map(|(name, value)| (name.clone(), doc(value))).collect())
        }
    }
}

fn value(document: &Json) -> Value {
    match document {
        Json::Null => Value::Null,
        Json::Bool(truth) => Value::Bool(*truth),
        Json::Natural(number) => Value::from(*number),
        Json::Negative(number) => Value::from(*number),
        Json::Fraction(text) => json(text),
        Json::Text(text) => Value::from(text.as_str()),
        Json::Array(items) => Value::Array(items.iter().map(value).collect()),
        Json::Object(fields) => Value::Object(
            fields.iter().map(|(name, inner)| (name.clone(), value(inner))).collect(),
        ),
    }
}

fn double(number: f64) -> Double {
    Double { bits: number.to_bits() }
}

fn text_at(value: &Value, name: &str) -> Option<String> {
    value[name].as_str().map(str::to_owned)
}

fn double_at(value: &Value, name: &str) -> Option<Double> {
    value[name].as_f64().map(double)
}

fn items_at<'a>(value: &'a Value, name: &str) -> Vec<&'a Value> {
    value[name].as_array().map(|items| items.iter().collect()).unwrap_or_default()
}

fn api_error(value: &Value) -> ApiError {
    let code = &value["code"];
    ApiError {
        code: if code.is_null() {
            None
        } else {
            Some(ErrorCode {
                shown: code.to_string(),
                number: code.as_u64(),
                text: code.as_str().map(str::to_owned),
            })
        },
        message: text_at(value, "message"),
        metadata: value.get("metadata").map(|metadata| ApiErrorMetadata {
            error_type: text_at(metadata, "error_type"),
            provider_code: text_at(metadata, "provider_code"),
        }),
    }
}

fn chat_response(value: &Value) -> ChatResponse {
    ChatResponse {
        choices: items_at(value, "choices")
            .into_iter()
            .map(|choice| Choice {
                finish_reason: text_at(choice, "finish_reason"),
                message: choice
                    .get("message")
                    .map(|message| Message { content: doc(&message["content"]) }),
                error: choice.get("error").map(api_error),
            })
            .collect(),
        model: text_at(value, "model"),
        provider: text_at(value, "provider"),
        usage: value.get("usage").map(|usage| Usage {
            prompt_tokens: usage["prompt_tokens"].as_u64(),
            completion_tokens: usage["completion_tokens"].as_u64(),
            completion_tokens_details: usage["completion_tokens_details"].as_object().map(
                |details| CompletionTokenDetails {
                    reasoning_tokens: details["reasoning_tokens"].as_u64(),
                },
            ),
            cost: double_at(usage, "cost"),
        }),
        error: value.get("error").map(api_error),
    }
}

fn stt_response(value: &Value) -> SttResponse {
    SttResponse {
        text: text_at(value, "text"),
        model: text_at(value, "model"),
        provider: text_at(value, "provider"),
        usage: value.get("usage").map(|usage| SttUsage {
            cost: double_at(usage, "cost"),
            input_tokens: usage["input_tokens"].as_u64(),
            output_tokens: usage["output_tokens"].as_u64(),
            seconds: double_at(usage, "seconds"),
            total_tokens: usage["total_tokens"].as_u64(),
        }),
        segments: items_at(value, "segments")
            .into_iter()
            .map(|segment| SttSegment {
                id: segment["id"].as_i64().unwrap(),
                start: double_at(segment, "start").unwrap(),
                end: double_at(segment, "end").unwrap(),
                text: text_at(segment, "text").unwrap(),
                seek: segment["seek"].as_i64(),
                speaker: segment["speaker"].as_i64(),
                tokens: items_at(segment, "tokens")
                    .into_iter()
                    .map(|token| token.as_i64().unwrap())
                    .collect(),
                temperature: double_at(segment, "temperature"),
                avg_logprob: double_at(segment, "avg_logprob"),
                compression_ratio: double_at(segment, "compression_ratio"),
                no_speech_prob: double_at(segment, "no_speech_prob"),
            })
            .collect(),
        words: items_at(value, "words")
            .into_iter()
            .map(|word| SttWord {
                word: text_at(word, "word").unwrap(),
                start: double_at(word, "start").unwrap(),
                end: double_at(word, "end").unwrap(),
                speaker: word["speaker"].as_i64(),
            })
            .collect(),
        task: text_at(value, "task"),
        language: text_at(value, "language"),
        duration: double_at(value, "duration"),
        error: value.get("error").map(api_error),
    }
}

fn client(config: Config) -> OpenRouterClient {
    match OpenRouterClient::from_environment(config, "", false) {
        Ok(client) => client,
        Err(error) => panic!("{}", error.message()),
    }
}

fn stt_models_fixture() -> Value {
    json(r#"{
        "data": [{
            "id": "deepgram/nova-3",
            "name": "Deepgram Nova-3",
            "context_length": 0,
            "architecture": {
                "input_modalities": ["audio"],
                "output_modalities": ["transcription"]
            },
            "top_provider": {"max_completion_tokens": null}
        }]
    }"#)
}

#[test]
fn extracts_string_or_structured_content() {
    assert_eq!(extract_text(&doc(&json(r#"" hello ""#))), "hello");
    assert_eq!(
        extract_text(&doc(&json(r#"[{"type": "text", "text": "甲"}, {"text": "乙"}]"#))),
        "甲\n乙"
    );
}

#[test]
fn repetition_guard_ignores_short_fillers_but_catches_loops() {
    let long = "这是一段长度足够而且不应该被模型连续重复三次的完整中文句子";
    let ordinary_repetition = format!("{long}。{long}。{long}。{long}。");
    assert!(!looks_repetitive(&ordinary_repetition, 60_000));
    let pathological = format!("{}。", long).repeat(20);
    assert!(looks_repetitive(&pathological, 5_000));
    assert!(!looks_repetitive("对。对。对。正常的另一句话。", 5_000));
}

#[test]
fn error_messages_are_bounded_on_character_boundaries() {
    let text = "中".repeat(1_200);
    let result = bounded(&text, 1_000);
    assert_eq!(result.chars().count(), 1_001);
    assert!(result.ends_with('…'));
}

#[test]
fn provider_routing_payload_is_exact_or_omitted() {
    let pinned = Config::default();
    let payload = value(&build_chat_payload(&pinned, doc(&json("[]")), None));
    assert_eq!(
        payload.pointer("/provider/only/0"),
        Some(&Value::from(DEFAULT_PROVIDER))
    );
    assert_eq!(
        payload.pointer("/provider/allow_fallbacks"),
        Some(&json(r#"false"#))
    );
    assert_eq!(
        payload.pointer("/provider/require_parameters"),
        Some(&json(r#"true"#))
    );
    assert_eq!(
        payload.pointer("/provider/data_collection"),
        Some(&json(r#""deny""#))
    );
    assert_eq!(payload.pointer("/provider/zdr"), Some(&json(r#"true"#)));
    assert_eq!(
        payload.pointer("/reasoning/effort"),
        Some(&json(r#""minimal""#))
    );

    let any = Config {
        provider: ANY_PROVIDER.into(),
        ..Config::default()
    };
    let payload = value(&build_chat_payload(&any, doc(&json("[]")), None));
    assert!(payload.get("provider").is_none());

    let structured =
        value(&build_chat_payload(&pinned, doc(&json("[]")), Some(doc(&json(r#"{"type": "json_schema"}"#)))));
    assert_eq!(
        structured.pointer("/response_format/type"),
        Some(&json(r#""json_schema""#))
    );
}

#[test]
fn dedicated_stt_payload_is_openapi_json_without_provider_routing() {
    let payload = value(&build_stt_payload(
        "openai/whisper-large-v3",
        "YWJj",
        "mp3",
        Some("zh"),
        false,
    ));
    assert_eq!(
        payload,
        json(r#"{
            "model": "openai/whisper-large-v3",
            "input_audio": {"data": "YWJj", "format": "mp3"},
            "language": "zh",
            "response_format": "json"
        }"#)
    );
    assert!(payload.get("timestamp_granularities").is_none());
    assert!(payload.get("provider").is_none());
    assert!(payload.get("messages").is_none());

    let verbose = value(&build_stt_payload(
        "openai/whisper-large-v3",
        "YWJj",
        "wav",
        None,
        true,
    ));
    assert_eq!(verbose["response_format"], "verbose_json");
    assert_eq!(
        verbose["timestamp_granularities"],
        json(r#"["segment", "word"]"#)
    );
    assert_eq!(stt_audio_format(Some("MP3")).unwrap(), "mp3");
    assert!(stt_audio_format(Some("exe")).is_err());
    assert!(validate_stt_language("zh").is_ok());
    assert!(validate_stt_language("zho").is_err());
    assert!(validate_stt_language("ZH").is_err());
}

#[test]
fn dedicated_stt_openapi_response_deserializes_and_validates() {
    let response = stt_response(&json(r#"{
        "task": "transcribe",
        "language": "chinese",
        "duration": 9.2,
        "text": "预算是四十二万元。",
        "usage": {
            "cost": 0.000508,
            "input_tokens": 83,
            "output_tokens": 30,
            "seconds": 9.2,
            "total_tokens": 113
        },
        "segments": [{
            "id": 0,
            "seek": 0,
            "speaker": 1,
            "start": 0.0,
            "end": 3.2,
            "text": "预算是四十二万元。",
            "tokens": [50364, 2425, 456],
            "temperature": 0.0,
            "avg_logprob": -0.28,
            "compression_ratio": 1.13,
            "no_speech_prob": 0.01
        }],
        "words": [{
            "word": "预算",
            "start": 0.0,
            "end": 0.4,
            "speaker": 1
        }]
    }"#));
    let completion =
        validated_stt_completion(response, "openai/whisper-large-v3", "deepinfra").unwrap();
    assert_eq!(completion.text, "预算是四十二万元。");
    assert_eq!(completion.segments[0].speaker, Some(1));
    assert_eq!(completion.words[0].word, "预算");
    assert_eq!(completion.usage.unwrap().total_tokens, Some(113));
    assert!(completion.reported_model.is_none());
    assert!(completion.reported_provider.is_none());
}

#[test]
fn stt_reported_route_and_segments_must_corroborate_top_level_text() {
    let valid = json(r#"{
        "model": "requested/asr",
        "provider": "provider-a",
        "text": "前半句，后半句。",
        "segments": [
            {"id": 0, "start": 0.0, "end": 1.0, "text": "前半句"},
            {"id": 1, "start": 1.0, "end": 2.0, "text": "后半句"}
        ],
        "words": [{"word": "前", "start": 0.0, "end": 0.1}]
    }"#);
    let completion = validated_stt_completion(
        stt_response(&valid),
        "requested/asr",
        "provider-a",
    )
    .unwrap();
    assert_eq!(completion.reported_model.as_deref(), Some("requested/asr"));
    assert_eq!(completion.reported_provider.as_deref(), Some("provider-a"));

    let mut missing_tail = valid.clone();
    missing_tail["segments"] = json(r#"[
        {"id": 0, "start": 0.0, "end": 1.0, "text": "前半句"}
    ]"#);
    missing_tail["usage"] = json(r#"{
        "input_tokens": 10,
        "output_tokens": 5,
        "cost": 0.001
    }"#);
    let missing_tail_response = stt_response(&missing_tail);
    let mut ledger = RequestLedger::new(&Config::default());
    let rejected = rejected_stt_completion(&missing_tail_response, "requested/asr", "provider-a")
        .unwrap();
    assert!(
        validated_stt_completion(missing_tail_response, "requested/asr", "provider-a",)
            .unwrap_err()
            .contains("未完整重建")
    );
    ledger.record_rejected_completion(rejected).unwrap();
    let rejected = ledger.take_rejected_accounting();
    assert_eq!(rejected.len(), 1);
    assert_eq!(rejected[0].cost, double(0.001));
    assert!(rejected[0].text.is_empty());

    let mut non_monotonic = valid.clone();
    non_monotonic["segments"][1]["start"] = json(r#"0.5"#);
    non_monotonic["segments"][1]["end"] = json(r#"0.75"#);
    assert!(
        validated_stt_completion(
            stt_response(&non_monotonic),
            "requested/asr",
            "provider-a",
        )
        .unwrap_err()
        .contains("不单调")
    );

    let mut wrong_model = valid.clone();
    wrong_model["model"] = json(r#""other/asr""#);
    assert!(
        validated_stt_completion(
            stt_response(&wrong_model),
            "requested/asr",
            "provider-a",
        )
        .is_err()
    );

    let mut wrong_provider = valid.clone();
    wrong_provider["provider"] = json(r#""provider-b""#);
    assert!(
        validated_stt_completion(
            stt_response(&wrong_provider),
            "requested/asr",
            "provider-a",
        )
        .is_err()
    );
    let automatic = validated_stt_completion(
        stt_response(&wrong_provider),
        "requested/asr",
        ANY_PROVIDER,
    )
    .unwrap();
    assert_eq!(automatic.reported_provider.as_deref(), Some("provider-b"));
}

#[test]
fn dedicated_stt_response_rejects_unbounded_or_invalid_values() {
    assert!(validate_bounded_stt_text("test", "甲乙丙", 2).is_err());
    assert!(validate_bounded_stt_text("test", "ok\u{0}bad", 20).is_err());
    assert!(validate_stt_count("test", 3, 2).is_err());
    assert!(validate_stt_number("test", double(f64::INFINITY), ONE).is_err());
    assert!(validate_stt_time_range("test", double(2.0), double(1.0)).is_err());
    assert!(validate_request_media_length(MAX_REQUEST_MEDIA_BYTES).is_ok());
    assert!(validate_request_media_length(MAX_REQUEST_MEDIA_BYTES + 1).is_err());

    let oversized_usage = SttResponse {
        text: Some("文字".into()),
        model: None,
        provider: None,
        usage: Some(SttUsage {
            total_tokens: Some(MAX_STT_USAGE_TOKENS + 1),
            ..SttUsage::default()
        }),
        segments: Vec::new(),
        words: Vec::new(),
        task: None,
        language: None,
        duration: None,
        error: None,
    };
    assert!(validated_stt_completion(oversized_usage, "requested/asr", "provider-a").is_err());
}

#[test]
fn dedicated_stt_retry_policy_is_bounded_and_safety_is_not_retried() {
    let rate_limit = api_error(&json(r#"{
        "code": 429,
        "message": "temporarily rate limited"
    }"#));
    assert!(api_retry_allowed(None, Some(&rate_limit), 1, 3));
    assert!(!api_retry_allowed(None, Some(&rate_limit), 3, 3));
    assert!(api_retry_allowed(
        Some(503),
        None,
        1,
        2
    ));

    let safety = api_error(&json(r#"{
        "code": 503,
        "message": "temporarily unavailable while blocked by safety policy",
        "metadata": {"error_type": "content_filter", "provider_code": "SAFETY"}
    }"#));
    assert!(!api_retry_allowed(None, Some(&safety), 1, 5));
    assert!(!api_retry_allowed(
        Some(503),
        Some(&safety),
        1,
        5
    ));
    assert!(non_retryable_safety_diagnostic(
        "<html>503 SAFETY policy violation</html>"
    ));
    let raw_safety = format!("{}SAFETY", "x".repeat(2_000));
    assert!(non_retryable_safety_response(
        raw_safety.as_bytes(),
        &bounded(&raw_safety, 1_000)
    ));

    let budget_error = with_actual_attempt_count("budget exhausted".to_owned(), 2);
    assert!(budget_error.contains("在 2 次尝试后失败"));
    let zero_attempt_error = with_actual_attempt_count("preflight failed".to_owned(), 0);
    assert_eq!(zero_attempt_error, "preflight failed");

    let failed = |limit_exceeded| SttReply::Failed {
        message: "temporary transport failure".to_owned(),
        limit_exceeded,
    };
    let (_, step) = judge_stt_reply(failed(true), "requested/asr", "provider-a", 1, 3);
    assert!(matches!(step, SttStep::Stop(_)));
    let (_, step) = judge_stt_reply(failed(false), "requested/asr", "provider-a", 1, 3);
    assert!(matches!(step, SttStep::Again { .. }));
}

#[test]
fn stt_preflight_gate_runs_before_every_reserved_post_attempt() {
    let validations = Cell::new(0_u32);
    let reserves = Cell::new(0_u32);
    let order = RefCell::new(Vec::new());
    for _ in 0..3 {
        let selection = validate_then_reserve_stt_attempt(
            || {
                validations.set(validations.get() + 1);
                order.borrow_mut().push("validate");
                Ok(SttEndpointSelection::FixedZdr {
                    endpoint: "provider-a".into(),
                })
            },
            || {
                reserves.set(reserves.get() + 1);
                order.borrow_mut().push("reserve");
                Ok(())
            },
        )
        .unwrap();
        assert!(matches!(selection, SttEndpointSelection::FixedZdr { .. }));
    }
    assert_eq!(validations.get(), 3);
    assert_eq!(reserves.get(), 3);
    assert_eq!(
        order.into_inner(),
        vec![
            "validate", "reserve", "validate", "reserve", "validate", "reserve"
        ]
    );

    let failed_validations = Cell::new(0_u32);
    let forbidden_reserves = Cell::new(0_u32);
    let result = validate_then_reserve_stt_attempt::<SttEndpointSelection, _, _>(
        || {
            failed_validations.set(failed_validations.get() + 1);
            Err("live route drift".to_owned())
        },
        || {
            forbidden_reserves.set(forbidden_reserves.get() + 1);
            Ok(())
        },
    );
    assert!(result.is_err());
    assert_eq!(failed_validations.get(), 1);
    assert_eq!(forbidden_reserves.get(), 0);
}

#[test]
fn rejected_accounting_is_shared_and_atomically_drained() {
    let client = client(Config::default());
    let mut ledger = RequestLedger::new(&client.config);
    let routed = client.routed_to_model(DEFAULT_QUALITY_REVIEW_MODEL).unwrap();

    let length_response = chat_response(&json(r#"{
        "model": "reported/chat-model",
        "provider": "reported-provider",
        "choices": [{
            "finish_reason": "length",
            "message": {"content": "partial text that must not enter accounting"}
        }],
        "usage": {
            "prompt_tokens": 11,
            "completion_tokens": 22,
            "completion_tokens_details": {"reasoning_tokens": 2},
            "cost": 0.003
        }
    }"#));
    assert_eq!(
        length_response.choices[0].finish_reason.as_deref(),
        Some("length")
    );
    assert!(finish_reason_needs_split("length"));
    record_rejected_chat_response(&routed.config, &mut ledger, &length_response)
        .unwrap();

    let drained = ledger.take_rejected_accounting();
    assert_eq!(drained.len(), 1);
    assert!(drained[0].text.is_empty());
    assert_eq!(drained[0].model, "reported/chat-model");
    assert_eq!(drained[0].provider, "reported-provider");
    assert_eq!(drained[0].prompt_tokens, 11);
    assert_eq!(drained[0].completion_tokens, 22);
    assert_eq!(drained[0].reasoning_tokens, 2);
    assert_eq!(drained[0].cost, double(0.003));
    assert!(drained[0].usage_reported);
    assert!(drained[0].reasoning_tokens_reported);
    assert!(ledger.take_rejected_accounting().is_empty());
    assert!(ledger.take_rejected_accounting().is_empty());

    let visible_limit_response = chat_response(&json(r#"{
        "choices": [{
            "finish_reason": "stop",
            "message": {"content": "valid but over the configured visible token boundary"}
        }],
        "usage": {
            "prompt_tokens": 7,
            "completion_tokens": 6000,
            "completion_tokens_details": {"reasoning_tokens": 500},
            "cost": 0.002
        }
    }"#));
    assert!(visible_output_needs_split(true, true, 5_500, 5_000));
    record_rejected_chat_response(&client.config, &mut ledger, &visible_limit_response)
        .unwrap();
    let visible_limit_accounting = ledger.take_rejected_accounting();
    assert_eq!(visible_limit_accounting.len(), 1);
    assert_eq!(visible_limit_accounting[0].visible_output_tokens(), 5_500);
    assert!(visible_limit_accounting[0].text.is_empty());
    assert!(ledger.take_rejected_accounting().is_empty());

    let malicious_routes = chat_response(&json(&r#"{
        "model": @0@,
        "provider": "bad\nprovider",
        "choices": [{"finish_reason": "length", "message": {"content": "x"}}],
        "usage": {
            "prompt_tokens": @1@,
            "completion_tokens": 1,
            "completion_tokens_details": {
                "reasoning_tokens": @2@
            },
            "cost": 1.0e300
        }
    }"#.replace("@0@", &format!("{:?}", format!("attacker/{}", "m".repeat(300)))).replace("@1@", &(MAX_STT_USAGE_TOKENS + 1).to_string()).replace("@2@", &(MAX_STT_USAGE_TOKENS + 1).to_string())));
    record_rejected_chat_response(&client.config, &mut ledger, &malicious_routes)
        .unwrap();
    let sanitized = ledger.take_rejected_accounting();
    assert_eq!(sanitized[0].model, client.config.model);
    assert_eq!(sanitized[0].provider, client.config.provider);
    assert_eq!(sanitized[0].prompt_tokens, 0);
    assert_eq!(sanitized[0].completion_tokens, 1);
    assert_eq!(sanitized[0].reasoning_tokens, 0);
    assert_eq!(sanitized[0].cost, double(0.0));
    assert!(!sanitized[0].usage_reported);
    assert!(!sanitized[0].reasoning_tokens_reported);

    let without_usage = chat_response(&json(r#"{
        "choices": [{"finish_reason": "max_tokens", "message": {"content": "x"}}]
    }"#));
    record_rejected_chat_response(&client.config, &mut ledger, &without_usage)
        .unwrap();
    assert!(ledger.take_rejected_accounting().is_empty());
}

#[test]
fn chat_success_route_conflicts_are_rejected_and_accounted_honestly() {
    let client = client(Config::default());
    let mut ledger = RequestLedger::new(&client.config);
    let compatible = chat_response(&json(&r#"{
        "model": @0@,
        "provider": "Google",
        "choices": [{"finish_reason": "stop", "message": {"content": "ok"}}],
        "usage": {
            "prompt_tokens": 1,
            "completion_tokens": 2,
            "completion_tokens_details": {"reasoning_tokens": 0},
            "cost": 0.001
        }
    }"#.replace("@0@", &format!("{:?}", client.config.model))));
    validate_or_record_chat_route(&client.config, &mut ledger, &compatible).unwrap();
    assert!(ledger.take_rejected_accounting().is_empty());

    let wrong_model = chat_response(&json(r#"{
        "model": "anthropic/other-model",
        "provider": "Google",
        "choices": [{"finish_reason": "stop", "message": {"content": "must reject"}}],
        "usage": {
            "prompt_tokens": 11,
            "completion_tokens": 22,
            "completion_tokens_details": {"reasoning_tokens": 2},
            "cost": 0.003
        }
    }"#));
    assert!(
        validate_or_record_chat_route(&client.config, &mut ledger, &wrong_model)
            .unwrap_err()
            .contains("requested model")
    );
    let rejected = ledger.take_rejected_accounting();
    assert_eq!(rejected.len(), 1);
    assert_eq!(rejected[0].model, "anthropic/other-model");
    assert_eq!(rejected[0].provider, "Google");
    assert!(rejected[0].model_reported_by_api);
    assert!(rejected[0].provider_reported_by_api);
    assert_eq!(rejected[0].cost, double(0.003));

    let wrong_vendor = chat_response(&json(&r#"{
        "model": @0@,
        "provider": "Anthropic",
        "choices": [{"finish_reason": "stop", "message": {"content": "must reject"}}],
        "usage": {"prompt_tokens": 3, "completion_tokens": 4, "cost": 0.002}
    }"#.replace("@0@", &format!("{:?}", client.config.model))));
    assert!(
        validate_or_record_chat_route(&client.config, &mut ledger, &wrong_vendor)
            .unwrap_err()
            .contains("vendor 身份冲突")
    );
    let rejected = ledger.take_rejected_accounting();
    assert_eq!(rejected.len(), 1);
    assert_eq!(rejected[0].provider, "Anthropic");
    assert_eq!(rejected[0].cost, double(0.002));
}

#[test]
fn chat_any_provider_and_unreported_route_identity_remain_supported() {
    let any = Config {
        provider: ANY_PROVIDER.to_owned(),
        ..Config::default()
    };
    let client = client(any);
    validate_reported_chat_route(
        Some(&client.config.model),
        Some("Anthropic"),
        &client.config.model,
        &client.config.provider,
    )
    .unwrap();
    validate_reported_chat_route(None, None, &client.config.model, &client.config.provider)
        .unwrap();

    // Unknown custom endpoint/display vocabularies cannot prove an exact tag and are not
    // promoted to one. The provider.only request remains the authoritative fixed-route gate.
    validate_reported_chat_route(
        Some(&client.config.model),
        Some("custom-display"),
        &client.config.model,
        "custom-endpoint/global",
    )
    .unwrap();
}

#[test]
fn rejected_accounting_never_exceeds_task_http_attempt_cap() {
    let config = Config {
        max_http_attempts: 2,
        ..Config::default()
    };
    let client = client(config);
    let mut ledger = RequestLedger::new(&client.config);
    let completion = |text: &str| Completion {
        origin: CompletionOrigin::Chat,
        text: text.to_owned(),
        model: client.config.model.clone(),
        provider: client.config.provider.clone(),
        model_reported_by_api: true,
        provider_reported_by_api: true,
        prompt_tokens: 1,
        completion_tokens: 1,
        reasoning_tokens: 0,
        cost: double(0.001),
        usage_reported: true,
        reasoning_tokens_reported: false,
    };
    ledger.record_rejected_completion(completion("")).unwrap();
    ledger.record_rejected_completion(completion("")).unwrap();
    assert!(ledger.record_rejected_completion(completion("")).is_err());
    assert_eq!(ledger.take_rejected_accounting().len(), 2);
    assert!(ledger.take_rejected_accounting().is_empty());
    assert!(ledger.record_rejected_completion(completion("must never be retained")).is_err());
}

#[test]
fn rejected_stt_invalid_response_preserves_honest_usage_without_route_claim() {
    let mut ledger = RequestLedger::new(&Config::default());
    let response = SttResponse {
        text: None,
        model: None,
        provider: None,
        usage: Some(SttUsage {
            input_tokens: Some(101),
            output_tokens: None,
            cost: Some(double(0.004)),
            ..SttUsage::default()
        }),
        segments: Vec::new(),
        words: Vec::new(),
        task: None,
        language: None,
        duration: None,
        error: None,
    };
    let rejected = rejected_stt_completion(&response, "requested/asr", "fixed-endpoint")
        .unwrap();
    assert!(validated_stt_completion(response, "requested/asr", "fixed-endpoint").is_err());
    ledger.record_rejected_completion(rejected).unwrap();

    let drained = ledger.take_rejected_accounting();
    assert_eq!(drained.len(), 1);
    assert!(drained[0].text.is_empty());
    assert_eq!(drained[0].model, "requested/asr");
    assert_eq!(drained[0].provider, "unreported");
    assert_eq!(drained[0].prompt_tokens, 101);
    assert_eq!(drained[0].completion_tokens, 0);
    assert_eq!(drained[0].cost, double(0.004));
    assert!(!drained[0].usage_reported);

    let automatic = SttResponse {
        text: None,
        model: Some("reported/asr".into()),
        provider: None,
        usage: Some(SttUsage {
            input_tokens: Some(1),
            output_tokens: Some(2),
            cost: Some(double(0.001)),
            ..SttUsage::default()
        }),
        segments: Vec::new(),
        words: Vec::new(),
        task: None,
        language: None,
        duration: None,
        error: None,
    };
    record_rejected_stt_response(&mut ledger, &automatic, "requested/asr", ANY_PROVIDER)
        .unwrap();
    let drained = ledger.take_rejected_accounting();
    assert_eq!(drained[0].model, "reported/asr");
    assert_eq!(drained[0].provider, "unreported_automatic");
    assert!(drained[0].usage_reported);
}

#[test]
fn catalog_completion_limits_reject_only_known_exceeded_caps() {
    assert!(require_active_catalog_endpoint(&doc(&json(r#"{"status": 0}"#)), "endpoint").is_ok());
    assert!(require_active_catalog_endpoint(&doc(&json(r#"{"status": 1}"#)), "endpoint").is_err());
    assert!(require_active_catalog_endpoint(&doc(&json(r#"{}"#)), "endpoint").is_err());
    assert!(validate_catalog_completion_limit(4_096, "model", None).is_ok());
    assert!(validate_catalog_completion_limit(4_096, "model", Some(&Json::Null)).is_ok());
    assert!(validate_catalog_completion_limit(4_096, "model", Some(&doc(&json(r#"0"#)))).is_ok());
    assert!(validate_catalog_completion_limit(4_096, "model", Some(&doc(&json(r#"4096"#)))).is_ok());
    assert!(validate_catalog_completion_limit(4_097, "model", Some(&doc(&json(r#"4096"#)))).is_err());
    assert!(validate_catalog_completion_limit(4_096, "model", Some(&doc(&json(r#""4096""#)))).is_err());
}

#[test]
fn automatic_chat_routing_requires_a_capable_active_endpoint() {
    let active = json(r#"{
        "data": {"endpoints": [{
            "status": 0,
            "supported_parameters": ["response_format", "structured_outputs"]
        }]}
    }"#);
    assert!(validate_any_chat_endpoints(&doc(&active), "audio", "test/model").is_ok());
    assert!(validate_any_chat_endpoints(&doc(&active), "image", "test/model").is_ok());

    let inactive = json(r#"{
        "data": {"endpoints": [{
            "status": 1,
            "supported_parameters": ["response_format", "structured_outputs"]
        }]}
    }"#);
    assert!(validate_any_chat_endpoints(&doc(&inactive), "audio", "test/model").is_err());

    let incapable = json(r#"{
        "data": {"endpoints": [{"status": 0, "supported_parameters": []}]}
    }"#);
    assert!(validate_any_chat_endpoints(&doc(&incapable), "audio", "test/model").is_err());
    assert!(validate_any_chat_endpoints(&doc(&incapable), "image", "test/model").is_ok());
}

#[test]
fn stt_catalog_requires_unique_active_fixed_zdr_endpoint() {
    let models = stt_models_fixture();
    let endpoints = json(r#"{
        "data": {"endpoints": [{"tag": "deepgram", "status": 0}]}
    }"#);
    let zdr = json(r#"{
        "data": [{
            "model_id": "deepgram/nova-3",
            "tag": "deepgram",
            "status": 0
        }]
    }"#);
    assert_eq!(
        validate_stt_catalog_selection(
            "deepgram/nova-3",
            "deepgram",
            &doc(&models),
            &doc(&endpoints),
            &doc(&zdr),
        )
        .unwrap(),
        SttEndpointSelection::FixedZdr {
            endpoint: "deepgram".into()
        }
    );

    let multiple = json(r#"{
        "data": {"endpoints": [
            {"tag": "deepgram", "status": 0},
            {"tag": "other", "status": 1}
        ]}
    }"#);
    let error =
        validate_stt_catalog_selection("deepgram/nova-3", "deepgram", &doc(&models), &doc(&multiple), &doc(&zdr))
            .unwrap_err();
    assert!(error.contains("2 个 endpoint"));

    let inactive = json(r#"{
        "data": {"endpoints": [{"tag": "deepgram", "status": 1}]}
    }"#);
    assert!(
        validate_stt_catalog_selection(
            "deepgram/nova-3",
            "deepgram",
            &doc(&models),
            &doc(&inactive),
            &doc(&zdr),
        )
        .is_err()
    );
}

#[test]
fn stt_catalog_any_returns_real_candidates_as_privacy_downgrade() {
    let models = stt_models_fixture();
    let endpoints = json(r#"{
        "data": {"endpoints": [
            {"tag": "provider-b", "status": 0},
            {"tag": "provider-a", "status": 0},
            {"tag": "offline", "status": 1}
        ]}
    }"#);
    let zdr = json(r#"{
        "data": [{
            "model_id": "deepgram/nova-3",
            "tag": "provider-a",
            "status": 0
        }]
    }"#);
    assert_eq!(
        validate_stt_catalog_selection(
            "deepgram/nova-3",
            ANY_PROVIDER,
            &doc(&models),
            &doc(&endpoints),
            &doc(&zdr),
        )
        .unwrap(),
        SttEndpointSelection::AnyProviderPrivacyDowngrade {
            active_endpoints: vec!["provider-a".into(), "provider-b".into()],
            zdr_endpoints: vec!["provider-a".into()],
        }
    );
}

#[test]
fn stt_model_catalog_filters_dedicated_transcription_models() {
    let mut fixture = stt_models_fixture();
    fixture["data"].as_array_mut().unwrap().push(json(r#"{
        "id": "google/chat-audio",
        "name": "Chat Audio",
        "architecture": {
            "input_modalities": ["audio"],
            "output_modalities": ["text"]
        }
    }"#));
    let models = parse_stt_model_summaries(&doc(&fixture), None).unwrap();
    assert_eq!(models.len(), 1);
    assert_eq!(models[0].id, "deepgram/nova-3");
    assert!(
        parse_stt_model_summaries(&doc(&fixture), Some("missing"))
            .unwrap()
            .is_empty()
    );
}


#[test]
fn lite_and_quality_review_payloads_use_deterministic_minimal_reasoning() {
    for model in [DEFAULT_MODEL, DEFAULT_QUALITY_REVIEW_MODEL] {
        let config = Config {
            model: model.to_owned(),
            ..Config::default()
        };
        let payload = value(&build_chat_payload(&config, doc(&json("[]")), None));
        assert_eq!(payload.get("model"), Some(&Value::from(model)));
        assert_eq!(payload.get("seed"), Some(&json(r#"0"#)));
        assert_eq!(
            payload.pointer("/reasoning/effort"),
            Some(&json(r#""minimal""#))
        );
    }

    let other = Config {
        model: "anthropic/other-model".to_owned(),
        ..Config::default()
    };
    let payload = value(&build_chat_payload(&other, doc(&json("[]")), None));
    assert!(payload.get("seed").is_none());
    assert!(payload.get("reasoning").is_none());
}

#[test]
fn routed_client_validates_model_and_shares_transport_and_budgets() {
    let config = Config {
        max_http_attempts: 2,
        ..Config::default()
    };
    let client = client(config);
    let mut ledger = RequestLedger::new(&client.config);
    let routed = client
        .routed_to_model(DEFAULT_QUALITY_REVIEW_MODEL)
        .unwrap();

    assert_eq!(client.config.model, DEFAULT_MODEL);
    assert_eq!(routed.config.model, DEFAULT_QUALITY_REVIEW_MODEL);
    assert_eq!(routed.config.provider, client.config.provider);
    assert_eq!(routed.api_key_present, client.api_key_present);

    ledger.reserve_http_attempt_with_floor(0).unwrap();
    assert_eq!(ledger.http_attempts, 1);
    ledger.reserve_http_attempt_with_floor(0).unwrap();
    assert!(ledger.reserve_http_attempt_with_floor(0).is_err());

    assert!(client.routed_to_model("invalid model").is_err());
    assert_eq!(client.config.model, DEFAULT_MODEL);
}

#[test]
fn catalog_budget_is_derived_shared_and_does_not_consume_paid_post_floor() {
    let config = Config {
        max_http_attempts: 2,
        ..Config::default()
    };
    let client = client(config);
    let mut ledger = RequestLedger::new(&client.config);
    let routed = client
        .routed_to_model(DEFAULT_QUALITY_REVIEW_MODEL)
        .unwrap();
    assert_eq!(client.max_catalog_requests(), 16);
    assert_eq!(ledger.max_catalog_requests(), 16);
    assert_eq!(derived_catalog_request_cap(10_000), 40_008);
    assert_eq!(derived_catalog_request_cap(u32::MAX), 40_008);

    for _ in 0..routed.max_catalog_requests() {
        ledger.reserve_catalog_attempt().unwrap();
    }
    assert!(ledger.reserve_catalog_attempt().is_err());
    assert_eq!(ledger.http_attempts, 0);
    ledger.reserve_http_attempt_with_floor(1).unwrap();
    assert_eq!(ledger.http_attempts, 1);
    assert_eq!(ledger.catalog_attempts, 16);
}

#[test]
fn visible_output_excludes_reported_reasoning_tokens() {
    let completion = Completion {
        origin: CompletionOrigin::Chat,
        text: String::new(),
        model: DEFAULT_MODEL.into(),
        provider: DEFAULT_PROVIDER.into(),
        model_reported_by_api: true,
        provider_reported_by_api: true,
        prompt_tokens: 10,
        completion_tokens: 40_613,
        reasoning_tokens: 38_616,
        cost: double(0.0),
        usage_reported: true,
        reasoning_tokens_reported: true,
    };
    assert_eq!(completion.visible_output_tokens(), 1_997);
}

#[test]
fn usage_completeness_requires_tokens_and_cost_but_split_only_needs_completion_tokens() {
    let partial = Usage {
        prompt_tokens: None,
        completion_tokens: Some(12_000),
        completion_tokens_details: Some(CompletionTokenDetails {
            reasoning_tokens: Some(0),
        }),
        cost: None,
    };
    assert!(!complete_usage_reported(Some(&partial)));
    assert!(completion_tokens_reported(Some(&partial)));

    let complete = Usage {
        prompt_tokens: Some(10),
        completion_tokens: Some(20),
        completion_tokens_details: None,
        cost: Some(double(0.001)),
    };
    assert!(complete_usage_reported(Some(&complete)));
}

#[test]
fn http_attempt_floor_preserves_future_transcript_calls() {
    let config = Config {
        max_http_attempts: 2,
        ..Config::default()
    };
    let mut ledger = RequestLedger::new(&config);
    ledger.reserve_http_attempt_with_floor(1).unwrap();
    assert!(ledger.reserve_http_attempt_with_floor(1).is_err());
}

#[test]
fn typed_errors_distinguish_retry_and_split() {
    let rate_limit = chat_response(&json(r#"{
        "error": {
            "code": 429,
            "message": "temporarily rate limited",
            "metadata": {"error_type": "rate_limit_exceeded"}
        }
    }"#));
    assert!(retryable_api_error(rate_limit.error.as_ref().unwrap()));

    let overflow = chat_response(&json(r#"{
        "error": {
            "code": 400,
            "message": "input rejected",
            "metadata": {"error_type": "context_length_exceeded"}
        }
    }"#));
    assert!(indicates_context_overflow(&format_api_error(
        overflow.error.as_ref().unwrap()
    )));
}

#[test]
fn non_retryable_safety_error_reports_actual_attempt_count() {
    let filtered = chat_response(&json(r#"{
        "error": {
            "code": 400,
            "message": "Request blocked",
            "metadata": {
                "error_type": "content_filter",
                "provider_code": "SAFETY"
            }
        }
    }"#));
    let error = filtered.error.as_ref().unwrap();
    assert!(!retryable_api_error(error));

    let message = format_request_failure(1, &format_api_error(error));
    assert!(message.contains("在 1 次尝试后失败"));
    assert!(!message.contains("在 5 次尝试后失败"));
    assert!(message.contains("content_filter"));
    assert!(message.contains("SAFETY"));
}

#[test]
fn nullable_usage_details_and_missing_content_are_accepted() {
    let response = chat_response(&json(r#"{
        "choices": [{
            "finish_reason": "error",
            "message": {},
            "error": {"message": "temporary", "code": 503}
        }],
        "usage": {
            "prompt_tokens": 1,
            "completion_tokens": 0,
            "completion_tokens_details": null,
            "cost": null
        }
    }"#));
    assert!(response.choices[0].message.is_some());
    assert!(response.usage.unwrap().completion_tokens_details.is_none());
}

#[test]
fn a_key_is_needed_for_paid_requests_only() {
    assert!(matches!(
        OpenRouterClient::from_environment(Config::default(), " \n", true),
        Err(ClientError::MissingKey)
    ));
    let with_key = OpenRouterClient::from_environment(Config::default(), " k ", true);
    assert!(matches!(with_key, Ok(client) if client.api_key_present));
    let broken = Config { retries: 0, ..Config::default() };
    assert!(matches!(
        OpenRouterClient::from_environment(broken, "k", true),
        Err(ClientError::Settings(_))
    ));
}

#[test]
fn requests_wait_longer_and_longer_but_not_forever() {
    assert_eq!(backoff_seconds(1), 2);
    assert_eq!(backoff_seconds(2), 4);
    assert_eq!(backoff_seconds(30), 30);
    assert_eq!(wait_seconds(1, Some(7)), 7);
    assert_eq!(wait_seconds(1, None), backoff_seconds(1));
    assert_eq!(retry_after_seconds("12"), Some(12));
    assert_eq!(retry_after_seconds("soon"), None);
    for status in [408, 429, 500, 502, 503, 504] {
        assert!(retryable_status(status), "{status}");
    }
    for status in [200, 400, 401, 403, 404] {
        assert!(!retryable_status(status), "{status}");
    }
}

#[test]
fn replies_are_read_up_to_a_limit() {
    assert!(check_content_length(None).is_ok());
    assert!(check_content_length(Some(MAX_RESPONSE_BYTES)).is_ok());
    assert!(!check_content_length(Some(MAX_RESPONSE_BYTES + 1)).unwrap_err().streamed);
    assert!(check_chunk_length(MAX_RESPONSE_BYTES - 1, 1).is_ok());
    assert!(check_chunk_length(MAX_RESPONSE_BYTES, 1).unwrap_err().streamed);
    assert!(check_chunk_length(u64::MAX, u64::MAX).is_err());
}

#[test]
fn the_message_of_an_error_is_found_in_its_document() {
    assert_eq!(extract_error_message(br#"{"error": {"message": "inner"}}"#), "inner");
    assert_eq!(extract_error_message(br#"{"message": "outer"}"#), "outer");
    assert_eq!(extract_error_message(b"\xffplain"), "\u{fffd}plain");
}

#[test]
fn media_are_sent_as_base64() {
    let sound = value(&audio_content("请转写", b"abc"));
    assert!(sound.to_string().contains("\"YWJj\""), "{sound}");
    let image = value(&image_content(b"abc"));
    assert!(image.to_string().contains(";base64,YWJj\""), "{image}");
    let body = value(&stt_request_body("a/b", b"abc", "mp3", None, false).unwrap());
    assert_eq!(body["input_audio"]["data"], "YWJj");
    assert_eq!(audio_prompt(60_001), audio_prompt(120_000));
    assert_ne!(audio_prompt(60_000), audio_prompt(60_001));
    assert_eq!(check_stt_request("a/b", "any", Some("WAV"), None, true), Ok("wav".to_owned()));
    assert!(check_stt_request("a/b", "any", Some("WAV"), None, false).is_err());
    assert!(check_stt_request("a b", "any", Some("wav"), None, true).is_err());
    assert!(check_stt_request("a/b", "any", Some("txt"), None, true).is_err());
    assert!(check_stt_request("a/b", "any", Some("wav"), Some("ZH"), true).is_err());
}

fn chat_reply(text: &str) -> ChatReply {
    ChatReply::Parsed { response: chat_response(&json(text)), retry_after: None }
}

#[test]
fn a_chat_reply_is_taken_split_tried_again_or_given_up() {
    let config = Config::default();
    let usage = r#""usage": {"prompt_tokens": 5, "completion_tokens": 6,
        "completion_tokens_details": {"reasoning_tokens": 1}, "cost": 0.5}"#;
    let good = chat_reply(&format!(
        r#"{{"choices": [{{"finish_reason": "stop", "message": {{"content": " 好 "}}}}], {usage}}}"#
    ));
    let verdict = judge_chat_reply(&config, &good, 1, 3);
    assert!(verdict.kept.is_none());
    match verdict.step {
        ChatStep::Done(CompletionResult::Complete(completion)) => {
            assert_eq!(completion.text, "好");
            assert_eq!(completion.visible_output_tokens(), 5);
            assert_eq!(completion.cost, double(0.5));
        }
        other => panic!("{other:?}"),
    }
    let long = chat_reply(&format!(
        r#"{{"choices": [{{"finish_reason": "length", "message": {{"content": "x"}}}}], {usage}}}"#
    ));
    let mut ledger = RequestLedger::new(&config);
    let step = take_chat_reply(&config, &mut ledger, &long, 1, 3);
    assert!(matches!(step, ChatStep::Done(CompletionResult::NeedsSplit { .. })));
    assert_eq!(ledger.take_rejected_accounting().len(), 1);
    let busy = ChatReply::Refused {
        status: 503,
        body: b"busy".to_vec(),
        parsed: None,
        retry_after: Some(9),
    };
    match judge_chat_reply(&config, &busy, 1, 3).step {
        ChatStep::Again { seconds, .. } => assert_eq!(seconds, 9),
        other => panic!("{other:?}"),
    }
    assert!(matches!(judge_chat_reply(&config, &busy, 3, 3).step, ChatStep::Stop(_)));
    let denied = ChatReply::Refused {
        status: 401,
        body: b"no".to_vec(),
        parsed: None,
        retry_after: None,
    };
    assert!(matches!(judge_chat_reply(&config, &denied, 1, 3).step, ChatStep::Stop(_)));
}

#[test]
fn tries_are_counted_before_they_are_made() {
    let config = Config { max_http_attempts: 2, ..Config::default() };
    let mut ledger = RequestLedger::new(&config);
    assert_eq!(start_attempt(&mut ledger, 0, 3, "", 0), Ok(1));
    assert_eq!(start_attempt(&mut ledger, 1, 3, "busy", 0), Ok(2));
    assert!(start_attempt(&mut ledger, 2, 3, "busy", 0).is_err());
    assert_eq!(ledger.http_attempts, 2);

    let mut ledger = RequestLedger::new(&config);
    let drift = start_stt_attempt(&mut ledger, Err("drift".to_owned()), 0, 0);
    assert!(drift.is_err());
    assert_eq!(ledger.http_attempts, 0);
    let route = SttEndpointSelection::FixedZdr { endpoint: "e".into() };
    assert_eq!(start_stt_attempt(&mut ledger, Ok(route), 0, 0), Ok(1));
    assert_eq!(ledger.http_attempts, 1);
}

#[test]
fn a_speech_reply_is_taken_or_its_cost_is_kept() {
    let mut ledger = RequestLedger::new(&Config::default());
    let good = SttReply::Parsed {
        response: stt_response(&json(r#"{"text": "好", "model": "a/b"}"#)),
        retry_after: None,
    };
    match take_stt_reply(&mut ledger, good, "a/b", "p", 1, 3) {
        SttStep::Done(completion) => assert_eq!(completion.text, "好"),
        other => panic!("{other:?}"),
    }
    let wrong = SttReply::Parsed {
        response: stt_response(&json(
            r#"{"text": "好", "model": "c/d",
                "usage": {"input_tokens": 1, "output_tokens": 2, "cost": 0.5}}"#,
        )),
        retry_after: None,
    };
    assert!(!matches!(take_stt_reply(&mut ledger, wrong, "a/b", "p", 1, 3), SttStep::Done(_)));
    let kept = ledger.take_rejected_accounting();
    assert_eq!(kept.len(), 1);
    assert_eq!(kept[0].cost, double(0.5));
}

#[test]
fn catalogs_are_read() {
    assert!(endpoints_url("a/b").ends_with("/models/a/b/endpoints"));
    let config = Config::default();
    let models = json(
        r#"{"data": [
            {"id": "b/two", "name": "Two", "context_length": 10,
             "architecture": {"input_modalities": ["text", "audio"]},
             "top_provider": {"max_completion_tokens": 5}},
            {"id": "a/one", "name": "One",
             "architecture": {"input_modalities": ["audio"]}},
            {"id": "c/three", "name": "Three",
             "architecture": {"input_modalities": ["text"]}}]}"#,
    );
    let listed = list_audio_models(&doc(&models), None).unwrap();
    assert_eq!(listed.iter().map(|model| model.id.as_str()).collect::<Vec<_>>(), ["a/one", "b/two"]);
    assert_eq!((listed[1].context_length, listed[1].max_completion_tokens), (10, 5));
    assert_eq!(list_audio_models(&doc(&models), Some("TWO")).unwrap().len(), 1);
    assert!(list_audio_models(&doc(&json("{}")), None).is_err());
    let endpoints = json(
        r#"{"data": {"endpoints": [
            {"tag": "t", "provider_name": "N", "context_length": 7, "max_completion_tokens": 3}]}}"#,
    );
    let listed = list_providers(&doc(&endpoints)).unwrap();
    assert_eq!((listed[0].tag.as_str(), listed[0].context_length), ("t", 7));
    assert!(stage_url(&config, CatalogStage::Models).contains("/models"));
    assert!(validate_selection(&config, "audio", CatalogStage::Models, &doc(&models)).is_err());
    assert!(validate_selection(&config, "smell", CatalogStage::Models, &doc(&models)).is_err());
}

#[test]
fn base64_is_padded_and_standard() {
    for (bytes, text) in [
        (&b"a"[..], "YQ=="),
        (&b"ab"[..], "YWI="),
        (&b"abcd"[..], "YWJjZA=="),
        (&[0xfb_u8, 0xff, 0xfe][..], "+//+"),
        (&[0x00_u8, 0x10, 0x83, 0xff][..], "ABCD/w=="),
    ] {
        let body = value(&stt_request_body("a/b", bytes, "mp3", None, false).unwrap());
        assert_eq!(body["input_audio"]["data"], text);
    }
}
