use spt::cli::{
    apply_config_overrides, check_unchanged, choose_operation, command_topic_guide, model_lines,
    needs_save, open_call, print_changes, print_config, provider_lines, save_notice,
    selection_checks, validate_operation_scope, Command, ConfigOverrides, Invocation, Opening,
    Operation, SelectionCheck, ABOUT, AFTER_HELP, LONG_ABOUT,
};
use spt::config::Config;
use spt::openrouter::catalog::{ModelSummary, ProviderSummary};
use spt::transcript::TranscriptMode;

fn bare<'a>() -> Invocation<'a> {
    Invocation {
        has_audio: false,
        command: None,
        overrides: ConfigOverrides::default(),
        force: false,
        raw: false,
        verify_all: false,
    }
}

#[test]
fn root_help_contains_the_command_guide() {
    let help = format!("{ABOUT}\n{LONG_ABOUT}\n{AFTER_HELP}");
    assert!(help.contains("常用指令"));
    assert!(help.contains("spt <AUDIO_PATH>"));
    assert!(help.contains("spt --model <MODEL_ID>"));
    assert!(help.contains("spt --asr-model <MODEL_ID>"));
    assert!(help.contains("spt --quality-asr-model <MODEL_ID>"));
    assert!(help.contains("spt --quality-model <MODEL_ID>"));
    assert!(help.contains("google/gemini-3.7-flash"));
    assert!(help.contains("spt --raw <AUDIO_PATH>"));
    assert!(help.contains("spt --verify-all <AUDIO_PATH>"));
    assert!(help.contains("spt help [COMMAND]"));
    assert!(help.contains("any 为隐私降级"));
    assert!(help.contains("OPENROUTER_API_KEY"));
    assert!(help.contains("OpenCC 展示投影"));
    assert!(help.contains("事实标签值、成对引号/书名号内容、inline code、URL/email"));
    assert!(help.contains("无标签专名仍按普通 OpenCC t2s 转换"));
    assert!(help.contains("空 Primary 的第二路结果只记录复核告警，不回填正文"));
    assert!(help.contains("首次执行非帮助操作时会原子写入默认配置"));
    assert!(help.contains("XDG_CONFIG_HOME/spt/config.toml"));
}

#[test]
fn explicit_help_command_accepts_a_topic() {
    let call = Invocation { command: Some(Command::Help), ..bare() };
    assert_eq!(open_call(&call), Ok(Opening::Topic));
    assert!(command_topic_guide("ocr").is_some());
    for call in [
        Invocation { has_audio: true, ..call },
        Invocation { force: true, ..call },
        Invocation { raw: true, ..call },
        Invocation { verify_all: true, ..call },
        Invocation {
            overrides: ConfigOverrides { model: Some("a/b"), ..ConfigOverrides::default() },
            ..call
        },
    ] {
        assert_eq!(
            open_call(&call),
            Err("spt help 不能与音频路径、配置选项、--force、--raw 或 --verify-all 同时使用".to_owned())
        );
    }
}

#[test]
fn bare_spt_parses_as_the_offline_guide_entrypoint() {
    let call = bare();
    assert!(!call.overrides.any());
    assert_eq!(open_call(&call), Ok(Opening::Guide));
}

#[test]
fn raw_flag_selects_an_audio_only_mode() {
    let call = Invocation { raw: true, has_audio: true, ..bare() };
    validate_operation_scope(&call).unwrap();
    assert_eq!(open_call(&call), Ok(Opening::Settings));
}

#[test]
fn raw_flag_is_rejected_without_audio_or_with_a_subcommand() {
    let no_audio = Invocation { raw: true, ..bare() };
    assert!(validate_operation_scope(&no_audio).is_err());

    let subcommand = Invocation { raw: true, command: Some(Command::Config), ..bare() };
    assert!(validate_operation_scope(&subcommand).is_err());
}

#[test]
fn verify_all_is_audio_only_and_conflicts_with_raw() {
    let call = Invocation { verify_all: true, has_audio: true, ..bare() };
    validate_operation_scope(&call).unwrap();

    let no_audio = Invocation { verify_all: true, ..bare() };
    assert!(validate_operation_scope(&no_audio).is_err());

    let raw = Invocation { verify_all: true, raw: true, has_audio: true, ..bare() };
    assert_eq!(
        validate_operation_scope(&raw),
        Err("--verify-all 不能与 --raw 同时使用".to_owned())
    );
    assert!(open_call(&raw).is_err());
}

#[test]
fn force_without_an_output_operation_is_rejected_before_config_loading() {
    let force_only = Invocation { force: true, ..bare() };
    assert!(validate_operation_scope(&force_only).is_err());
    let config = Invocation { force: true, command: Some(Command::Config), ..bare() };
    assert!(validate_operation_scope(&config).is_err());
    let ocr = Invocation { force: true, command: Some(Command::Ocr), ..bare() };
    assert!(validate_operation_scope(&ocr).is_ok());
}

#[test]
fn providers_positional_model_does_not_mutate_the_global_model_option() {
    let call = Invocation { command: Some(Command::Providers), ..bare() };
    assert!(!call.overrides.any());
    assert_eq!(open_call(&call), Ok(Opening::Settings));
    let mut config = Config::default();
    assert_eq!(apply_config_overrides(&mut config, call.overrides), Ok(false));
    assert_eq!(config, Config::default());
}

#[test]
fn model_override_controls_both_routes_and_quality_override_can_split_them() {
    let mut config = Config::default();
    apply_config_overrides(
        &mut config,
        ConfigOverrides {
            model: Some("google/gemini-3.5-flash-lite"),
            ..ConfigOverrides::default()
        },
    )
    .unwrap();
    assert_eq!(config.model, "google/gemini-3.5-flash-lite");
    assert_eq!(config.quality_review_model, "google/gemini-3.5-flash-lite");

    apply_config_overrides(
        &mut config,
        ConfigOverrides {
            quality_model: Some("google/gemini-3.7-flash"),
            ..ConfigOverrides::default()
        },
    )
    .unwrap();
    assert_eq!(config.model, "google/gemini-3.5-flash-lite");
    assert_eq!(config.quality_review_model, "google/gemini-3.7-flash");
}

#[test]
fn dedicated_asr_overrides_are_independent_and_persistent() {
    let mut config = Config::default();
    apply_config_overrides(
        &mut config,
        ConfigOverrides {
            asr_model: Some("qwen/qwen3-asr-0.6b"),
            quality_asr_model: Some("fish-audio/transcribe-1"),
            asr_provider: Some("deepinfra"),
            quality_asr_provider: Some("fish-audio"),
            ..ConfigOverrides::default()
        },
    )
    .unwrap();
    assert_eq!(config.asr_model, "qwen/qwen3-asr-0.6b");
    assert_eq!(config.quality_asr_model, "fish-audio/transcribe-1");
    assert_eq!(config.asr_provider, "deepinfra");
    assert_eq!(config.quality_asr_provider, "fish-audio");
}

#[test]
fn every_documented_help_topic_has_a_chinese_guide() {
    for topic in [
        "audio",
        "ocr",
        "models",
        "asr-models",
        "providers",
        "asr-providers",
        "config",
        "help",
    ] {
        let guide = command_topic_guide(topic).unwrap();
        assert!(guide.contains("用法："), "topic={topic}");
        assert!(guide.contains("spt"), "topic={topic}");
    }
    assert!(command_topic_guide("unknown").is_none());

    let audio = command_topic_guide("audio").unwrap();
    assert!(audio.contains("第二路结果只记录复核告警，不会回填正文"));
    assert!(audio.contains("不是 provider 原始响应字节"));
    assert!(audio.contains("无标签专名仍按普通 OpenCC t2s 转换"));

    let config = command_topic_guide("config").unwrap();
    assert!(config.contains("原子写入默认配置并创建同目录 .config.lock"));
    assert!(config.contains("已有 v1-v3 配置会在锁内迁移为 v4"));
    assert!(config.contains("SPT_CONFIG_PATH"));
    assert!(config.contains("XDG_CONFIG_HOME"));

    let providers = command_topic_guide("providers").unwrap();
    assert!(providers.contains("--provider any"));
    assert!(providers.contains("显式隐私降级"));

    let asr_providers = command_topic_guide("asr-providers").unwrap();
    assert!(asr_providers.contains("--asr-provider any"));
    assert!(asr_providers.contains("--quality-asr-provider any"));
    assert!(asr_providers.contains("显式隐私降级"));
}

#[test]
fn operations_follow_from_the_call() {
    let audio = Invocation { has_audio: true, ..bare() };
    assert_eq!(
        choose_operation(&audio, false),
        Ok(Operation::Transcribe(TranscriptMode::Quality))
    );
    let raw = Invocation { raw: true, ..audio };
    assert_eq!(
        choose_operation(&raw, true),
        Ok(Operation::Transcribe(TranscriptMode::Raw))
    );
    assert_eq!(choose_operation(&bare(), true), Ok(Operation::ShowChanges));
    assert_eq!(choose_operation(&bare(), false), Ok(Operation::ShowHelp));
    let both = Invocation { command: Some(Command::Config), ..audio };
    assert_eq!(
        choose_operation(&both, false),
        Err("音频路径不能与子命令同时使用".to_owned())
    );
    let forced = Invocation { command: Some(Command::Models), force: true, ..bare() };
    assert_eq!(
        choose_operation(&forced, false),
        Err("--force 只适用于音频转写或 OCR 输出".to_owned())
    );
    let image = Invocation { command: Some(Command::Ocr), force: true, ..bare() };
    assert_eq!(choose_operation(&image, false), Ok(Operation::Run(Command::Ocr)));
}

#[test]
fn settings_are_shown_in_lines_without_the_key() {
    let config = Config::default();
    let lines = print_config(&config, "/tmp/config.toml", true);
    assert_eq!(lines[0], "config=/tmp/config.toml");
    assert_eq!(lines[1], "schema_version=4");
    assert!(lines.contains(&"chunk_seconds=900".to_owned()));
    assert!(lines.contains(&"effective_asr_chunk_seconds=120".to_owned()));
    assert!(lines.contains(&"effective_asr_min_chunk_seconds=30".to_owned()));
    assert_eq!(lines.last().map(String::as_str), Some("OPENROUTER_API_KEY=已设置"));
    let without = print_config(&config, "c", false);
    assert_eq!(without.last().map(String::as_str), Some("OPENROUTER_API_KEY=未设置"));
    assert_eq!(
        print_changes(&config)[2],
        format!("asr_model={}", config.asr_model)
    );
}

#[test]
fn choices_are_looked_up_once_each() {
    let mut config = Config::default();
    assert_eq!(config.model, config.quality_review_model);
    let checks = selection_checks(&config);
    assert_eq!(checks.len(), 3);
    assert!(matches!(&checks[0], SelectionCheck::Chat { model } if *model == config.model));
    assert!(matches!(
        &checks[1],
        SelectionCheck::Stt { model, provider }
            if *model == config.asr_model && *provider == config.asr_provider
    ));
    config.quality_review_model = "other/model".to_owned();
    config.quality_asr_model = config.asr_model.clone();
    config.quality_asr_provider = config.asr_provider.clone();
    let checks = selection_checks(&config);
    assert_eq!(checks.len(), 3);
    assert!(matches!(&checks[1], SelectionCheck::Chat { model } if model == "other/model"));
}

#[test]
fn settings_are_saved_when_there_is_something_to_save() {
    assert!(needs_save(true, true, false));
    assert!(needs_save(false, false, false));
    assert!(needs_save(false, true, true));
    assert!(!needs_save(false, true, false));
    assert_eq!(save_notice(true, true, "p"), Some("配置已保存：p".to_owned()));
    assert_eq!(
        save_notice(false, true, "p"),
        Some("配置已迁移到专用 STT + 多模态 overlay schema v4：p".to_owned())
    );
    assert_eq!(save_notice(false, false, "p"), None);
    let loaded = Config::default();
    let mut latest = Config::default();
    assert!(check_unchanged(true, &latest, &loaded).is_ok());
    latest.retries += 1;
    assert!(check_unchanged(false, &latest, &loaded).is_ok());
    assert_eq!(
        check_unchanged(true, &latest, &loaded),
        Err("配置在网络校验期间被其他进程修改，请重新执行本次设置命令".to_owned())
    );
}

#[test]
fn lists_are_shown_in_lines() {
    let model = ModelSummary {
        id: "a/b".to_owned(),
        name: "B".to_owned(),
        context_length: 1_000,
        max_completion_tokens: 20,
    };
    assert_eq!(
        model_lines(&vec![model], false),
        ["a/b\tB\tcontext=1000\tmax_output=20"]
    );
    assert_eq!(
        model_lines(&Vec::new(), true),
        ["没有找到匹配的专用 speech-to-text 模型"]
    );
    let provider = ProviderSummary {
        tag: "t".to_owned(),
        name: "T".to_owned(),
        context_length: 0,
        max_completion_tokens: 0,
    };
    assert_eq!(
        provider_lines(&vec![provider], "a/b", false),
        ["t\tT\tcontext=0\tmax_output=0"]
    );
    assert_eq!(provider_lines(&Vec::new(), "a/b", true).len(), 1);
}
