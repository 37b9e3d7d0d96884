use spt::config::{
    decode_config, validate_model_id, validate_provider_id, Config, ConfigError, ANY_PROVIDER,
    DEFAULT_ASR_MODEL, DEFAULT_ASR_PROVIDER, DEFAULT_MODEL, DEFAULT_PROVIDER,
    DEFAULT_QUALITY_ASR_MODEL, DEFAULT_QUALITY_ASR_PROVIDER, DEFAULT_QUALITY_REVIEW_MODEL,
    LEGACY_DEFAULT_MODEL, MAX_CONFIG_BYTES,
};
use spt::config_files::{
    check_config_handle, check_config_read, check_lock_mode, config_path,
    validate_config_directory_boundary, validate_config_path, validate_lock_path_before_open,
    verify_open_directory_identity, verify_open_lock_identity, ConfigSource, EntryFacts,
};
use spt::config_saved::encode_config;

fn assert_error_is_redacted(error: ConfigError, secret: &str) {
    for rendered in [error.message(), format!("{error:?}"), format!("{error:#?}")] {
        assert!(!rendered.contains(secret), "错误泄露了伪密钥：{rendered}");
        assert!(
            !rendered.contains("OPENROUTER_API_KEY ="),
            "错误泄露了原始配置行：{rendered}"
        );
    }
}

fn regular_file() -> EntryFacts {
    EntryFacts {
        is_symlink: false,
        is_directory: false,
        is_file: true,
        is_reparse_point: false,
        device: 1,
        inode: 42,
        links: 1,
        mode: 0o600,
    }
}

fn directory() -> EntryFacts {
    EntryFacts { is_directory: true, is_file: false, mode: 0o700, ..regular_file() }
}

#[test]
fn defaults_are_valid() {
    let config = Config::default();
    config.validate().unwrap();
    assert_eq!(config.schema_version, 4);
    assert_eq!(config.model, DEFAULT_MODEL);
    assert_eq!(config.quality_review_model, DEFAULT_QUALITY_REVIEW_MODEL);
    assert_eq!(config.model, config.quality_review_model);
    assert_eq!(config.asr_model, DEFAULT_ASR_MODEL);
    assert_eq!(config.quality_asr_model, DEFAULT_QUALITY_ASR_MODEL);
    assert_eq!(config.asr_provider, DEFAULT_ASR_PROVIDER);
    assert_eq!(config.quality_asr_provider, DEFAULT_QUALITY_ASR_PROVIDER);
    assert_eq!(config.chunk_seconds, 900);
    assert_eq!(config.overlap_seconds, 30);
    assert_eq!(config.parallel_requests, 1);
    assert_eq!(
        config.effective_quality_review_model(),
        DEFAULT_QUALITY_REVIEW_MODEL
    );
    assert_eq!(
        config.effective_quality_asr_model(),
        DEFAULT_QUALITY_ASR_MODEL
    );
    assert_eq!(config.effective_asr_chunk_seconds(), 120);
    assert_eq!(config.effective_asr_min_chunk_seconds(), 30);
    assert_eq!(config.effective_quality_chunk_seconds(), 120);
    assert_eq!(config.effective_quality_min_chunk_seconds(), 30);
}

#[test]
fn explicit_model_override_remains_authoritative_for_quality_review() {
    let config = Config {
        model: "anthropic/other-model".to_owned(),
        quality_review_model: "anthropic/other-model".to_owned(),
        ..Config::default()
    };
    assert_eq!(
        config.effective_quality_review_model(),
        "anthropic/other-model"
    );
}

#[test]
fn asr_window_is_hard_capped_and_clamps_runtime_split_minimum() {
    let smaller = Config {
        chunk_seconds: 90,
        min_chunk_seconds: 30,
        ..Config::default()
    };
    assert_eq!(smaller.effective_asr_chunk_seconds(), 90);
    assert_eq!(smaller.effective_asr_min_chunk_seconds(), 30);

    let large_minimum = Config {
        chunk_seconds: 900,
        min_chunk_seconds: 200,
        ..Config::default()
    };
    assert_eq!(large_minimum.effective_asr_chunk_seconds(), 120);
    assert_eq!(large_minimum.effective_asr_min_chunk_seconds(), 60);
    assert_eq!(large_minimum.effective_quality_chunk_seconds(), 120);
    assert_eq!(large_minimum.effective_quality_min_chunk_seconds(), 60);
}

#[test]
fn model_requires_openrouter_slug() {
    assert!(validate_model_id(DEFAULT_MODEL).is_ok());
    assert!(validate_model_id(DEFAULT_ASR_MODEL).is_ok());
    assert!(validate_model_id(DEFAULT_QUALITY_ASR_MODEL).is_ok());
    assert!(validate_model_id("gemini").is_err());
    assert!(validate_model_id("google/gemini 3").is_err());
    assert!(validate_model_id("google/gemini?key=x").is_err());
    assert!(validate_model_id("google/../models").is_err());
}

#[test]
fn provider_accepts_pinned_or_any() {
    assert!(validate_provider_id(DEFAULT_PROVIDER).is_ok());
    assert!(validate_provider_id(DEFAULT_ASR_PROVIDER).is_ok());
    assert!(validate_provider_id(DEFAULT_QUALITY_ASR_PROVIDER).is_ok());
    assert!(validate_provider_id(ANY_PROVIDER).is_ok());
    assert!(validate_provider_id("bad provider").is_err());

    let automatic_asr = Config {
        asr_provider: ANY_PROVIDER.to_owned(),
        quality_asr_provider: ANY_PROVIDER.to_owned(),
        ..Config::default()
    };
    automatic_asr.validate().unwrap();
}

#[test]
fn v1_defaults_migrate_to_speaker_harness_defaults() {
    let mut config = Config {
        schema_version: 1,
        chunk_seconds: 300,
        max_output_tokens: 6_000,
        split_output_tokens: 5_000,
        parallel_requests: 3,
        ..Config::default()
    };
    config.migrate_v1();
    assert_eq!(config.schema_version, 4);
    assert_eq!(config.chunk_seconds, 900);
    assert_eq!(config.max_output_tokens, 16_000);
    assert_eq!(config.split_output_tokens, 12_000);
    assert_eq!(config.parallel_requests, 1);
    assert_eq!(config.model, DEFAULT_MODEL);
    assert_eq!(config.quality_review_model, DEFAULT_QUALITY_REVIEW_MODEL);
    config.validate().unwrap();
}

#[test]
fn v1_custom_token_pair_is_not_split_during_migration() {
    let mut config = Config {
        schema_version: 1,
        max_output_tokens: 8_000,
        split_output_tokens: 5_000,
        ..Config::default()
    };
    config.migrate_v1();
    assert_eq!(config.max_output_tokens, 8_000);
    assert_eq!(config.split_output_tokens, 5_000);
    config.validate().unwrap();
}

#[test]
fn v1_migration_preserves_multimodal_route_and_adds_asr_defaults() {
    let (config, migrated) = decode_config(
        "schema_version = 1\nmodel = \"anthropic/other-model\"\nprovider = \"any\"\n",
    )
    .unwrap();
    assert!(migrated);
    assert_eq!(config.schema_version, 4);
    assert_eq!(config.model, "anthropic/other-model");
    assert_eq!(config.quality_review_model, "anthropic/other-model");
    assert_eq!(config.provider, ANY_PROVIDER);
    assert_eq!(config.asr_model, DEFAULT_ASR_MODEL);
    assert_eq!(config.quality_asr_model, DEFAULT_QUALITY_ASR_MODEL);
    assert_eq!(config.asr_provider, DEFAULT_ASR_PROVIDER);
    assert_eq!(config.quality_asr_provider, DEFAULT_QUALITY_ASR_PROVIDER);
    config.validate().unwrap();
}

#[test]
fn v1_legacy_default_lite_migrates_to_37_overlay() {
    let (config, migrated) = decode_config(&format!(
        "schema_version = 1\nmodel = \"{LEGACY_DEFAULT_MODEL}\"\n"
    ))
    .unwrap();
    assert!(migrated);
    assert_eq!(config.schema_version, 4);
    assert_eq!(config.model, DEFAULT_MODEL);
    assert_eq!(config.quality_review_model, DEFAULT_QUALITY_REVIEW_MODEL);
    assert_eq!(config.model, config.quality_review_model);
}

#[test]
fn v1_long_custom_chunk_is_clamped_to_harness_limit() {
    let (config, migrated) =
        decode_config("schema_version = 1\nchunk_seconds = 1200\n").unwrap();
    assert!(migrated);
    assert_eq!(config.chunk_seconds, 900);
    assert_eq!(config.min_chunk_seconds, 30);
    config.validate().unwrap();
}

#[test]
fn v1_custom_chunk_preserves_chunk_and_reduces_minimum_for_bisection() {
    let (config, migrated) =
        decode_config("schema_version = 1\nchunk_seconds = 500\nmin_chunk_seconds = 300\n")
            .unwrap();
    assert!(migrated);
    assert_eq!(config.chunk_seconds, 500);
    assert_eq!(config.min_chunk_seconds, 250);
    config.validate().unwrap();
}

#[test]
fn v1_minimum_chunk_receives_a_valid_short_identity_context() {
    let (config, migrated) =
        decode_config("schema_version = 1\nchunk_seconds = 30\nmin_chunk_seconds = 10\n")
            .unwrap();
    assert!(migrated);
    assert_eq!(config.chunk_seconds, 30);
    assert_eq!(config.overlap_seconds, 5);
    config.validate().unwrap();
}

#[test]
fn earlier_v2_long_overlap_is_clamped_and_marked_for_save() {
    let (config, migrated) =
        decode_config("schema_version = 2\noverlap_seconds = 120\n").unwrap();
    assert!(migrated);
    assert_eq!(config.overlap_seconds, 30);
    assert_eq!(config.schema_version, 4);
    assert_eq!(config.quality_review_model, DEFAULT_MODEL);
    assert_eq!(config.asr_model, DEFAULT_ASR_MODEL);
    assert_eq!(config.quality_asr_model, DEFAULT_QUALITY_ASR_MODEL);
    assert_eq!(config.asr_provider, DEFAULT_ASR_PROVIDER);
    assert_eq!(config.quality_asr_provider, DEFAULT_QUALITY_ASR_PROVIDER);
    config.validate().unwrap();
}

#[test]
fn v4_long_overlap_is_rejected_instead_of_silently_migrated() {
    let error =
        decode_config("schema_version = 4\nchunk_seconds = 900\noverlap_seconds = 31\n")
            .unwrap_err();
    assert!(error.message().contains("overlap_seconds"));
}

#[test]
fn v2_legacy_default_lite_migrates_to_37_overlay() {
    let (config, migrated) = decode_config(&format!(
        "schema_version = 2\nmodel = \"{LEGACY_DEFAULT_MODEL}\"\n"
    ))
    .unwrap();
    assert!(migrated);
    assert_eq!(config.schema_version, 4);
    assert_eq!(config.model, DEFAULT_MODEL);
    assert_eq!(config.quality_review_model, DEFAULT_QUALITY_REVIEW_MODEL);
    assert_eq!(config.model, config.quality_review_model);
}

#[test]
fn v2_custom_model_migration_does_not_silently_add_another_model() {
    let (config, migrated) = decode_config(
        "schema_version = 2\nmodel = \"anthropic/other-model\"\nprovider = \"any\"\n",
    )
    .unwrap();
    assert!(migrated);
    assert_eq!(config.schema_version, 4);
    assert_eq!(config.model, "anthropic/other-model");
    assert_eq!(config.quality_review_model, "anthropic/other-model");
    assert_eq!(config.provider, ANY_PROVIDER);
    assert_eq!(config.asr_model, DEFAULT_ASR_MODEL);
    assert_eq!(config.quality_asr_model, DEFAULT_QUALITY_ASR_MODEL);
    assert_eq!(config.asr_provider, DEFAULT_ASR_PROVIDER);
    assert_eq!(config.quality_asr_provider, DEFAULT_QUALITY_ASR_PROVIDER);
}

#[test]
fn v3_custom_migration_preserves_multimodal_routes_and_adds_asr_defaults() {
    let (config, migrated) = decode_config(
        "schema_version = 3\nmodel = \"anthropic/other-model\"\nquality_review_model = \"google/gemini-3.7-flash\"\nprovider = \"any\"\nchunk_seconds = 480\n",
    )
    .unwrap();
    assert!(migrated);
    assert_eq!(config.schema_version, 4);
    assert_eq!(config.model, "anthropic/other-model");
    assert_eq!(config.quality_review_model, "google/gemini-3.7-flash");
    assert_eq!(config.provider, ANY_PROVIDER);
    assert_eq!(config.chunk_seconds, 480);
    assert_eq!(config.asr_model, DEFAULT_ASR_MODEL);
    assert_eq!(config.quality_asr_model, DEFAULT_QUALITY_ASR_MODEL);
    assert_eq!(config.asr_provider, DEFAULT_ASR_PROVIDER);
    assert_eq!(config.quality_asr_provider, DEFAULT_QUALITY_ASR_PROVIDER);
    config.validate().unwrap();
}

#[test]
fn v3_official_lite_37_pair_migrates_both_overlays_to_37() {
    let (config, migrated) = decode_config(&format!(
        "schema_version = 3\nmodel = \"{LEGACY_DEFAULT_MODEL}\"\nquality_review_model = \"{DEFAULT_QUALITY_REVIEW_MODEL}\"\nprovider = \"google-vertex/global\"\n"
    ))
    .unwrap();
    assert!(migrated);
    assert_eq!(config.schema_version, 4);
    assert_eq!(config.model, DEFAULT_MODEL);
    assert_eq!(config.quality_review_model, DEFAULT_QUALITY_REVIEW_MODEL);
    assert_eq!(config.model, config.quality_review_model);
    assert_eq!(config.provider, DEFAULT_PROVIDER);
}

#[test]
fn v3_explicit_single_lite_overlay_is_preserved_as_custom() {
    let (config, migrated) = decode_config(&format!(
        "schema_version = 3\nmodel = \"{LEGACY_DEFAULT_MODEL}\"\nquality_review_model = \"{LEGACY_DEFAULT_MODEL}\"\nprovider = \"any\"\n"
    ))
    .unwrap();
    assert!(migrated);
    assert_eq!(config.schema_version, 4);
    assert_eq!(config.model, LEGACY_DEFAULT_MODEL);
    assert_eq!(config.quality_review_model, LEGACY_DEFAULT_MODEL);
    assert_eq!(config.provider, ANY_PROVIDER);
}

#[test]
fn v4_decode_preserves_explicit_asr_routes_without_migration() {
    let (config, migrated) = decode_config(
        "schema_version = 4\nasr_model = \"custom/raw-asr\"\nquality_asr_model = \"custom/quality-asr\"\nasr_provider = \"custom-raw\"\nquality_asr_provider = \"custom-quality\"\n",
    )
    .unwrap();
    assert!(!migrated);
    assert_eq!(config.schema_version, 4);
    assert_eq!(config.asr_model, "custom/raw-asr");
    assert_eq!(config.quality_asr_model, "custom/quality-asr");
    assert_eq!(config.asr_provider, "custom-raw");
    assert_eq!(config.quality_asr_provider, "custom-quality");
    config.validate().unwrap();
}

#[test]
fn invalid_asr_route_ids_are_rejected() {
    let invalid_raw = Config {
        asr_model: "invalid asr".to_owned(),
        ..Config::default()
    };
    assert!(invalid_raw.validate().is_err());

    let invalid_quality = Config {
        quality_asr_model: "quality-asr-without-provider".to_owned(),
        ..Config::default()
    };
    assert!(invalid_quality.validate().is_err());

    let invalid_provider = Config {
        asr_provider: "invalid provider".to_owned(),
        ..Config::default()
    };
    assert!(invalid_provider.validate().is_err());

    let invalid_quality_provider = Config {
        quality_asr_provider: "invalid quality provider".to_owned(),
        ..Config::default()
    };
    assert!(invalid_quality_provider.validate().is_err());
}

#[test]
fn harness_requires_overlap_and_sequential_requests() {
    let config = Config {
        overlap_seconds: 0,
        ..Config::default()
    };
    assert!(config.validate().is_err());
    let config = Config {
        parallel_requests: 2,
        ..Config::default()
    };
    assert!(config.validate().is_err());
}

#[test]
fn toml_unknown_field_error_never_retains_secret_source_line() {
    let secret = "TEST-SECRET-FAKE-CONFIG-UNKNOWN-FIELD";
    let raw = format!("schema_version = 4\nOPENROUTER_API_KEY = \"{secret}\"\n");
    let error = decode_config(&raw).unwrap_err();
    assert!(error.message().contains("无法解析 v4 配置"));
    assert_error_is_redacted(error, secret);
}

#[test]
fn malformed_toml_error_never_retains_secret_source_line() {
    let secret = "TEST-SECRET-FAKE-CONFIG-MALFORMED";
    let raw = format!("schema_version = 4\nOPENROUTER_API_KEY = \"{secret}\n");
    let error = decode_config(&raw).unwrap_err();
    assert!(error.message().contains("无法解析 TOML 配置"));
    assert_error_is_redacted(error, secret);
}

#[test]
fn missing_schema_version_uses_v1_defaults_before_migration() {
    let (config, migrated) = decode_config("parallel_requests = 3\n").unwrap();
    assert!(migrated);
    assert_eq!(config.schema_version, 4);
    assert_eq!(config.chunk_seconds, 900);
    assert_eq!(config.max_output_tokens, 16_000);
    assert_eq!(config.split_output_tokens, 12_000);
    assert_eq!(config.parallel_requests, 1);
    assert_eq!(config.model, DEFAULT_MODEL);
    assert_eq!(config.quality_review_model, DEFAULT_MODEL);
    assert_eq!(config.asr_model, DEFAULT_ASR_MODEL);
    assert_eq!(config.quality_asr_model, DEFAULT_QUALITY_ASR_MODEL);
    assert_eq!(config.asr_provider, DEFAULT_ASR_PROVIDER);
    assert_eq!(config.quality_asr_provider, DEFAULT_QUALITY_ASR_PROVIDER);
}

#[test]
fn config_path_rejects_lock_file_name() {
    assert!(validate_config_path(Some(".config.lock")).is_err());
    assert!(validate_config_path(Some(".CONFIG.LOCK")).is_err());
    assert!(validate_config_path(Some(".config.lock. ")).is_err());
    assert!(validate_config_path(Some("config.toml")).is_ok());
    assert!(validate_config_path(None).is_ok());
}

#[test]
fn config_sources_stand_in_their_order() {
    assert_eq!(config_path(Some(false), Some(false), true), Ok(ConfigSource::Explicit));
    assert_eq!(config_path(None, Some(false), true), Ok(ConfigSource::Xdg));
    assert_eq!(config_path(None, Some(true), true), Ok(ConfigSource::Home));
    assert_eq!(config_path(None, None, true), Ok(ConfigSource::Home));
    assert_eq!(config_path(Some(true), Some(false), true), Ok(ConfigSource::Xdg));
    assert_eq!(config_path(Some(true), Some(true), true), Ok(ConfigSource::Home));
    assert!(config_path(Some(true), None, false).is_err());
    assert_eq!(
        config_path(None, None, false),
        Err("无法确定用户主目录；可设置 SPT_CONFIG_PATH".to_owned())
    );
}

#[test]
fn config_files_over_one_mebibyte_are_refused_before_and_after_reading() {
    assert!(check_config_handle("c", true, MAX_CONFIG_BYTES).is_ok());
    assert_eq!(
        check_config_handle("c", true, MAX_CONFIG_BYTES + 1),
        Err("配置文件超过 1 MiB 安全上限：c".to_owned())
    );
    assert_eq!(
        check_config_handle("c", false, 1),
        Err("配置路径不是普通文件：c".to_owned())
    );
    assert!(check_config_read("c", 10, 10, 10).is_ok());
    assert_eq!(
        check_config_read("c", 10, MAX_CONFIG_BYTES + 1, 10),
        Err("配置文件在读取期间超过 1 MiB 安全上限：c".to_owned())
    );
    assert_eq!(
        check_config_read("c", 10, 10, 11),
        Err("配置文件在读取期间发生变化：c".to_owned())
    );
}

#[test]
fn a_lock_that_is_a_link_is_refused() {
    let link = EntryFacts { is_symlink: true, is_file: false, ..regular_file() };
    let error = validate_lock_path_before_open("p", Some(link)).unwrap_err();
    assert!(error.contains("符号链接"));
    assert!(validate_lock_path_before_open("p", Some(directory())).unwrap_err().contains("普通文件"));
    let point = EntryFacts { is_reparse_point: true, ..regular_file() };
    assert!(validate_lock_path_before_open("p", Some(point)).unwrap_err().contains("reparse point"));
    assert!(validate_lock_path_before_open("p", None).is_ok());
    assert!(validate_lock_path_before_open("p", Some(regular_file())).is_ok());
}

#[test]
fn a_lock_that_was_replaced_is_refused() {
    let file = regular_file();
    assert!(verify_open_lock_identity("p", file, file).is_ok());
    let other = EntryFacts { inode: 43, ..file };
    assert!(verify_open_lock_identity("p", other, file).unwrap_err().contains("不一致"));
    let linked = EntryFacts { links: 2, ..file };
    assert!(verify_open_lock_identity("p", file, linked).unwrap_err().contains("硬链接"));
    assert!(verify_open_lock_identity("p", directory(), file).unwrap_err().contains("非普通文件"));
    assert!(verify_open_lock_identity("p", file, directory()).unwrap_err().contains("已打开的配置锁"));
    let point = EntryFacts { is_reparse_point: true, ..file };
    assert!(verify_open_lock_identity("p", point, file).unwrap_err().contains("reparse point"));
    assert!(check_lock_mode("p", 0o100600).is_ok());
    assert!(check_lock_mode("p", 0o100666).unwrap_err().contains("0600"));
}

#[test]
fn a_directory_for_settings_is_a_private_directory() {
    let gone = vec![None, None, Some(directory())];
    assert!(validate_config_directory_boundary("a/b", "a", &gone).is_ok());
    let shared = vec![Some(EntryFacts { mode: 0o777, ..directory() })];
    let error = validate_config_directory_boundary("a", "a", &shared).unwrap_err();
    assert!(error.contains("组或其他用户写入"));
    let link = vec![Some(EntryFacts { is_symlink: true, ..directory() })];
    assert!(validate_config_directory_boundary("a", "a", &link).unwrap_err().contains("符号链接"));
    let file = vec![Some(regular_file())];
    assert!(validate_config_directory_boundary("a", "a", &file).unwrap_err().contains("不是目录"));
    let point = vec![Some(EntryFacts { is_reparse_point: true, ..directory() })];
    assert!(validate_config_directory_boundary("a", "a", &point)
        .unwrap_err()
        .contains("reparse point"));
    assert!(validate_config_directory_boundary("a", "a", &vec![None]).unwrap_err().contains("安全创建边界"));
    let other = EntryFacts { device: 2, ..directory() };
    assert!(verify_open_directory_identity("a", directory(), directory()).is_ok());
    assert!(verify_open_directory_identity("a", directory(), other).unwrap_err().contains("发生变化"));
}

#[test]
fn every_setting_has_its_limits() {
    let base = Config::default;
    for (config, word) in [
        (Config { schema_version: 5, ..base() }, "schema_version=5"),
        (Config { chunk_seconds: 29, ..base() }, "chunk_seconds"),
        (Config { min_chunk_seconds: 9, ..base() }, "min_chunk_seconds"),
        (Config { chunk_seconds: 50, min_chunk_seconds: 30, ..base() }, "2 * min_chunk_seconds"),
        (Config { max_output_tokens: 255, ..base() }, "max_output_tokens"),
        (Config { split_output_tokens: 127, ..base() }, "split_output_tokens"),
        (Config { parallel_requests: 2, ..base() }, "parallel_requests"),
        (Config { retries: 0, ..base() }, "retries"),
        (Config { max_adaptive_depth: 7, ..base() }, "max_adaptive_depth"),
        (Config { max_http_attempts: 10_001, ..base() }, "max_http_attempts"),
        (Config { max_temp_bytes: 1, ..base() }, "max_temp_bytes"),
        (Config { max_speakers: 33, ..base() }, "max_speakers"),
        (Config { speaker_reference_seconds: 11, ..base() }, "speaker_reference_seconds"),
        (Config { speaker_reference_silence_seconds: 6, ..base() }, "speaker_reference_silence"),
        (Config { speaker_context_chars: 499, ..base() }, "speaker_context_chars"),
        (Config { max_transcript_bytes: 1, ..base() }, "max_transcript_bytes"),
        (Config { max_total_turns: 999, ..base() }, "max_total_turns"),
    ] {
        let message = config.validate().unwrap_err().message();
        assert!(message.contains(word), "{message}");
    }
}

#[test]
fn files_of_other_versions_and_types_are_refused() {
    assert_eq!(
        decode_config("schema_version = 9\n").unwrap_err().message(),
        "不支持的配置 schema_version=9；当前仅支持 1、2、3 和 4"
    );
    assert_eq!(
        decode_config("schema_version = \"4\"\n").unwrap_err().message(),
        "schema_version 必须是非负整数"
    );
    assert!(decode_config("schema_version = 4\nretries = \"many\"\n").is_err());
}

#[test]
fn toml_round_trip_preserves_values() {
    let config = Config::default();
    let encoded = encode_config(&config).unwrap();
    let (decoded, migrated) = decode_config(&encoded).unwrap();
    assert!(!migrated);
    assert_eq!(decoded.schema_version, 4);
    assert_eq!(decoded.model, DEFAULT_MODEL);
    assert_eq!(decoded.quality_review_model, DEFAULT_QUALITY_REVIEW_MODEL);
    assert_eq!(decoded.asr_model, DEFAULT_ASR_MODEL);
    assert_eq!(decoded.quality_asr_model, DEFAULT_QUALITY_ASR_MODEL);
    assert_eq!(decoded.provider, DEFAULT_PROVIDER);
    assert_eq!(decoded.asr_provider, DEFAULT_ASR_PROVIDER);
    assert_eq!(decoded.quality_asr_provider, DEFAULT_QUALITY_ASR_PROVIDER);
    assert_eq!(decoded, config);
}

#[test]
fn written_settings_keep_their_order_and_invalid_ones_are_not_written() {
    let config = Config { max_speakers: 3, provider: "ANY".into(), ..Config::default() };
    let encoded = encode_config(&config).unwrap();
    assert!(encoded.starts_with("schema_version = 4\nmodel = "), "{encoded}");
    assert!(encoded.contains("\nmax_speakers = 3\n"));
    assert_eq!(decode_config(&encoded).unwrap().0, config);
    assert!(encode_config(&Config { retries: 0, ..Config::default() }).is_err());
}
