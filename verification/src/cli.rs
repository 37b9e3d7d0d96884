//! What a call of the program means: which options go together, what they
//! change, and what is shown.
use vstd::prelude::*;
use crate::config::{
    is_any_provider, model_fault, names_any_provider, provider_fault, validate_model_id,
    validate_provider_id, Config, ConfigText, ANY_PROVIDER,
};
use crate::openrouter::catalog::{ModelSummary, ProviderSummary};
use crate::speaker::harness::push_text;
use crate::text::{
    decimal, decimal_string, fault_of, optional_str, same_text, text2, text3, texts,
};
use crate::transcript::TranscriptMode;

verus! {

// ---------------------------------------------------------------------------
// Options
// ---------------------------------------------------------------------------

/// A command of the program.
#[derive(Clone, Copy, Debug, PartialEq, Eq, Structural)]
pub enum Command {
    Ocr,
    Models,
    AsrModels,
    Providers,
    AsrProviders,
    Config,
    Help,
}

/// Settings that a call of the program changes.
#[derive(Clone, Copy, Debug, Default)]
pub struct ConfigOverrides<'a> {
    pub model: Option<&'a str>,
    pub quality_model: Option<&'a str>,
    pub asr_model: Option<&'a str>,
    pub quality_asr_model: Option<&'a str>,
    pub provider: Option<&'a str>,
    pub asr_provider: Option<&'a str>,
    pub quality_asr_provider: Option<&'a str>,
}

/// The changes in their order: two pairs of models, then the providers.
pub ghost struct OverridesView {
    pub model: Option<Seq<char>>,
    pub quality_model: Option<Seq<char>>,
    pub asr_model: Option<Seq<char>>,
    pub quality_asr_model: Option<Seq<char>>,
    pub provider: Option<Seq<char>>,
    pub asr_provider: Option<Seq<char>>,
    pub quality_asr_provider: Option<Seq<char>>,
}

impl<'a> View for ConfigOverrides<'a> {
    type V = OverridesView;

    open spec fn view(&self) -> OverridesView {
        OverridesView {
            model: optional_str(self.model),
            quality_model: optional_str(self.quality_model),
            asr_model: optional_str(self.asr_model),
            quality_asr_model: optional_str(self.quality_asr_model),
            provider: optional_str(self.provider),
            asr_provider: optional_str(self.asr_provider),
            quality_asr_provider: optional_str(self.quality_asr_provider),
        }
    }
}

impl OverridesView {
    /// Something is changed.
    pub open spec fn any(self) -> bool {
        self.model is Some || self.quality_model is Some || self.asr_model is Some
            || self.quality_asr_model is Some || self.provider is Some || self.asr_provider is Some
            || self.quality_asr_provider is Some
    }
}

impl<'a> ConfigOverrides<'a> {
    /// Whether something is changed.
    pub fn any(&self) -> (result: bool)
        ensures
            result == self@.any(),
    {
        self.model.is_some() || self.quality_model.is_some() || self.asr_model.is_some()
            || self.quality_asr_model.is_some() || self.provider.is_some()
            || self.asr_provider.is_some() || self.quality_asr_provider.is_some()
    }
}

/// A call of the program.
#[derive(Clone, Copy, Debug)]
pub struct Invocation<'a> {
    pub has_audio: bool,
    pub command: Option<Command>,
    pub overrides: ConfigOverrides<'a>,
    pub force: bool,
    pub raw: bool,
    pub verify_all: bool,
}

/// A call says nothing but, perhaps, a command.
pub open spec fn is_plain(call: Invocation) -> bool {
    !call.has_audio && !call.overrides@.any() && !call.force && !call.raw && !call.verify_all
}

fn says_nothing_more(call: &Invocation) -> (result: bool)
    ensures
        result == is_plain(*call),
{
    !call.has_audio && !call.overrides.any() && !call.force && !call.raw && !call.verify_all
}

/// Why options do not go together. A draft without a second check and a second
/// check of everything exclude each other.
pub open spec fn scope_fault(call: Invocation) -> Option<Seq<char>> {
    if call.raw && call.verify_all {
        Some("--verify-all 不能与 --raw 同时使用"@)
    } else if call.raw && call.command is Some {
        Some("--raw 只适用于音频转写，不能与子命令同时使用"@)
    } else if call.raw && !call.has_audio {
        Some("--raw 需要同时提供音频路径"@)
    } else if call.verify_all && call.command is Some {
        Some("--verify-all 只适用于音频转写，不能与子命令同时使用"@)
    } else if call.verify_all && !call.has_audio {
        Some("--verify-all 需要同时提供音频路径"@)
    } else if call.force && !call.has_audio && call.command != Some(Command::Ocr) {
        Some("--force 只适用于音频转写或 OCR 输出"@)
    } else {
        None
    }
}

fn is_ocr(command: Option<Command>) -> (result: bool)
    ensures
        result == (command == Some(Command::Ocr)),
{
    match command {
        Some(Command::Ocr) => true,
        _ => false,
    }
}

/// Checks that the options of a call go together.
pub fn validate_operation_scope(call: &Invocation) -> (result: Result<(), String>)
    ensures
        fault_of(result) == scope_fault(*call),
{
    if call.raw && call.verify_all {
        return Err("--verify-all 不能与 --raw 同时使用".to_owned());
    }
    if call.raw && call.command.is_some() {
        return Err("--raw 只适用于音频转写，不能与子命令同时使用".to_owned());
    }
    if call.raw && !call.has_audio {
        return Err("--raw 需要同时提供音频路径".to_owned());
    }
    if call.verify_all && call.command.is_some() {
        return Err("--verify-all 只适用于音频转写，不能与子命令同时使用".to_owned());
    }
    if call.verify_all && !call.has_audio {
        return Err("--verify-all 需要同时提供音频路径".to_owned());
    }
    if call.force && !call.has_audio && !is_ocr(call.command) {
        return Err("--force 只适用于音频转写或 OCR 输出".to_owned());
    }
    Ok(())
}

/// Why nothing may be replaced where nothing is written.
pub open spec fn force_fault(force: bool) -> Option<Seq<char>> {
    if force {
        Some("--force 只适用于音频转写或 OCR 输出"@)
    } else {
        None
    }
}

pub fn reject_force(force: bool) -> (result: Result<(), String>)
    ensures
        fault_of(result) == force_fault(force),
{
    if force {
        return Err("--force 只适用于音频转写或 OCR 输出".to_owned());
    }
    Ok(())
}

/// What is done before the settings are read.
#[derive(Clone, Copy, Debug, PartialEq, Eq, Structural)]
pub enum Opening {
    /// The whole help is shown.
    Guide,
    /// The help on a topic is shown.
    Topic,
    /// The settings are read.
    Settings,
}

/// What a call does before the settings are read, or why it is not taken.
pub open spec fn opening_of(call: Invocation) -> Result<Opening, Seq<char>> {
    if call.command is None && is_plain(call) {
        Ok(Opening::Guide)
    } else if call.command == Some(Command::Help) {
        if is_plain(call) {
            Ok(Opening::Topic)
        } else {
            Err("spt help 不能与音频路径、配置选项、--force、--raw 或 --verify-all 同时使用"@)
        }
    } else {
        match scope_fault(call) {
            Some(message) => Err(message),
            None => Ok(Opening::Settings),
        }
    }
}

/// Decides what is done before the settings are read. Help is shown without
/// reading them.
pub fn open_call(call: &Invocation) -> (result: Result<Opening, String>)
    ensures
        match result {
            Ok(opening) => opening_of(*call) == Ok::<Opening, Seq<char>>(opening),
            Err(message) => opening_of(*call) == Err::<Opening, Seq<char>>(message@),
        },
{
    match call.command {
        None => if says_nothing_more(call) {
            return Ok(Opening::Guide);
        },
        Some(Command::Help) => {
            if says_nothing_more(call) {
                return Ok(Opening::Topic);
            }
            return Err(
                "spt help 不能与音频路径、配置选项、--force、--raw 或 --verify-all 同时使用".to_owned(),
            );
        },
        _ => {},
    }
    match validate_operation_scope(call) {
        Ok(_) => Ok(Opening::Settings),
        Err(message) => Err(message),
    }
}

// ---------------------------------------------------------------------------
// Changes
// ---------------------------------------------------------------------------

/// Why the identifier of a model is not taken.
pub open spec fn model_message(model: Option<Seq<char>>) -> Option<Seq<char>> {
    match model {
        Some(name) => match model_fault(name) {
            Some(fault) => Some(fault.model_text()),
            None => None,
        },
        None => None,
    }
}

/// A provider as it is kept: any provider under one name.
pub open spec fn kept_provider(name: Seq<char>) -> Seq<char> {
    if is_any_provider(name) {
        ANY_PROVIDER@
    } else {
        name
    }
}

/// Why the identifier of a provider is not taken.
pub open spec fn provider_message(provider: Option<Seq<char>>) -> Option<Seq<char>> {
    match provider {
        Some(name) => match provider_fault(kept_provider(name)) {
            Some(fault) => Some(fault.provider_text()),
            None => None,
        },
        None => None,
    }
}

/// Why the change at a place is not made.
pub open spec fn change_fault(changes: OverridesView, n: int) -> Option<Seq<char>> {
    if n == 0 {
        model_message(changes.model)
    } else if n == 1 {
        model_message(changes.quality_model)
    } else if n == 2 {
        model_message(changes.asr_model)
    } else if n == 3 {
        model_message(changes.quality_asr_model)
    } else if n == 4 {
        provider_message(changes.provider)
    } else if n == 5 {
        provider_message(changes.asr_provider)
    } else {
        provider_message(changes.quality_asr_provider)
    }
}

/// A text, or another in its place.
pub open spec fn chosen(change: Option<Seq<char>>, held: Seq<char>) -> Seq<char> {
    match change {
        Some(text) => text,
        None => held,
    }
}

/// A provider, or another in its place.
pub open spec fn chosen_provider(change: Option<Seq<char>>, held: Seq<char>) -> Seq<char> {
    match change {
        Some(text) => kept_provider(text),
        None => held,
    }
}

/// The settings when the change at a place has been made. A model for chats is
/// that of the review too.
pub open spec fn changed_at(config: ConfigText, changes: OverridesView, n: int) -> ConfigText {
    if n == 0 {
        ConfigText {
            model: chosen(changes.model, config.model),
            quality_review_model: chosen(changes.model, config.quality_review_model),
            ..config
        }
    } else if n == 1 {
        ConfigText {
            quality_review_model: chosen(changes.quality_model, config.quality_review_model),
            ..config
        }
    } else if n == 2 {
        ConfigText { asr_model: chosen(changes.asr_model, config.asr_model), ..config }
    } else if n == 3 {
        ConfigText {
            quality_asr_model: chosen(changes.quality_asr_model, config.quality_asr_model),
            ..config
        }
    } else if n == 4 {
        ConfigText { provider: chosen_provider(changes.provider, config.provider), ..config }
    } else if n == 5 {
        ConfigText {
            asr_provider: chosen_provider(changes.asr_provider, config.asr_provider),
            ..config
        }
    } else {
        ConfigText {
            quality_asr_provider: chosen_provider(
                changes.quality_asr_provider,
                config.quality_asr_provider,
            ),
            ..config
        }
    }
}

/// The settings when the first `n` changes have been made.
pub open spec fn changed_until(config: ConfigText, changes: OverridesView, n: nat) -> ConfigText
    decreases n,
{
    if n == 0 {
        config
    } else {
        changed_at(changed_until(config, changes, (n - 1) as nat), changes, n - 1)
    }
}

/// The first change, from a place on, that is not made.
pub open spec fn first_refused(changes: OverridesView, n: int) -> int
    decreases 7 - n,
{
    if n >= 7 {
        7
    } else if change_fault(changes, n) is Some {
        n
    } else {
        first_refused(changes, n + 1)
    }
}

fn keep_provider(name: &str) -> (kept: String)
    ensures
        kept@ == kept_provider(name@),
{
    if names_any_provider(name) {
        ANY_PROVIDER.to_owned()
    } else {
        name.to_owned()
    }
}

fn check_model(model: Option<&str>) -> (result: Result<(), String>)
    ensures
        fault_of(result) == model_message(optional_str(model)),
{
    if let Some(name) = model {
        if let Err(fault) = validate_model_id(name) {
            return Err(fault.model_message());
        }
    }
    Ok(())
}

fn check_provider(provider: Option<&str>) -> (result: Result<(), String>)
    ensures
        fault_of(result) == provider_message(optional_str(provider)),
{
    if let Some(name) = provider {
        let kept = keep_provider(name);
        if let Err(fault) = validate_provider_id(kept.as_str()) {
            return Err(fault.provider_message());
        }
    }
    Ok(())
}

/// Makes the changes one after the other, up to the first that is not taken,
/// and says whether there are any.
pub fn apply_config_overrides(config: &mut Config, overrides: ConfigOverrides) -> (result: Result<
    bool,
    String,
>)
    ensures
        ({
            let refused = first_refused(overrides@, 0);
            match result {
                Ok(changed) => {
                    &&& refused == 7
                    &&& changed == overrides@.any()
                    &&& final(config)@ == changed_until(old(config)@, overrides@, 7)
                },
                Err(message) => {
                    &&& 0 <= refused < 7
                    &&& change_fault(overrides@, refused) == Some(message@)
                    &&& final(config)@ == changed_until(old(config)@, overrides@, refused as nat)
                },
            }
        }),
{
    let ghost before = config@;
    let ghost changes = overrides@;
    proof {
        reveal_with_fuel(first_refused, 8);
        reveal_with_fuel(changed_until, 8);
    }
    if let Err(message) = check_model(overrides.model) {
        return Err(message);
    }
    if let Some(model) = overrides.model {
        config.model = model.to_owned();
        config.quality_review_model = model.to_owned();
    }
    assert(config@ == changed_until(before, changes, 1));
    if let Err(message) = check_model(overrides.quality_model) {
        return Err(message);
    }
    if let Some(model) = overrides.quality_model {
        config.quality_review_model = model.to_owned();
    }
    assert(config@ == changed_until(before, changes, 2));
    if let Err(message) = check_model(overrides.asr_model) {
        return Err(message);
    }
    if let Some(model) = overrides.asr_model {
        config.asr_model = model.to_owned();
    }
    assert(config@ == changed_until(before, changes, 3));
    if let Err(message) = check_model(overrides.quality_asr_model) {
        return Err(message);
    }
    if let Some(model) = overrides.quality_asr_model {
        config.quality_asr_model = model.to_owned();
    }
    assert(config@ == changed_until(before, changes, 4));
    if let Err(message) = check_provider(overrides.provider) {
        return Err(message);
    }
    if let Some(provider) = overrides.provider {
        config.provider = keep_provider(provider);
    }
    assert(config@ == changed_until(before, changes, 5));
    if let Err(message) = check_provider(overrides.asr_provider) {
        return Err(message);
    }
    if let Some(provider) = overrides.asr_provider {
        config.asr_provider = keep_provider(provider);
    }
    assert(config@ == changed_until(before, changes, 6));
    if let Err(message) = check_provider(overrides.quality_asr_provider) {
        return Err(message);
    }
    if let Some(provider) = overrides.quality_asr_provider {
        config.quality_asr_provider = keep_provider(provider);
    }
    assert(config@ == changed_until(before, changes, 7));
    Ok(overrides.any())
}

/// A model for chats becomes that of the review too, unless another is chosen
/// for the review, and it changes nothing else.
pub proof fn lemma_model_sets_both_routes(config: ConfigText, changes: OverridesView)
    requires
        changes.model is Some,
    ensures
        changed_until(config, changes, 7).model == changes.model->0,
        changes.quality_model is None ==> changed_until(config, changes, 7).quality_review_model
            == changes.model->0,
        changes.quality_model is Some ==> changed_until(config, changes, 7).quality_review_model
            == changes.quality_model->0,
        changes.asr_model is None ==> changed_until(config, changes, 7).asr_model
            == config.asr_model,
        changes.provider is None ==> changed_until(config, changes, 7).provider == config.provider,
{
    reveal_with_fuel(changed_until, 8);
}

/// Making the same changes once more changes nothing.
pub proof fn lemma_changes_twice(config: ConfigText, changes: OverridesView)
    ensures
        changed_until(changed_until(config, changes, 7), changes, 7) == changed_until(
            config,
            changes,
            7,
        ),
{
    reveal_with_fuel(changed_until, 8);
}

// ---------------------------------------------------------------------------
// Saving
// ---------------------------------------------------------------------------

/// Whether two settings are the same.
pub fn same_config(left: &Config, right: &Config) -> (result: bool)
    ensures
        result == (left@ == right@),
{
    left.schema_version == right.schema_version
        && same_text(left.model.as_str(), right.model.as_str())
        && same_text(left.quality_review_model.as_str(), right.quality_review_model.as_str())
        && same_text(left.asr_model.as_str(), right.asr_model.as_str())
        && same_text(left.quality_asr_model.as_str(), right.quality_asr_model.as_str())
        && same_text(left.provider.as_str(), right.provider.as_str())
        && same_text(left.asr_provider.as_str(), right.asr_provider.as_str())
        && same_text(left.quality_asr_provider.as_str(), right.quality_asr_provider.as_str())
        && left.chunk_seconds == right.chunk_seconds
        && left.overlap_seconds == right.overlap_seconds
        && left.min_chunk_seconds == right.min_chunk_seconds
        && left.max_output_tokens == right.max_output_tokens
        && left.split_output_tokens == right.split_output_tokens
        && left.parallel_requests == right.parallel_requests
        && left.retries == right.retries
        && left.max_adaptive_depth == right.max_adaptive_depth
        && left.max_http_attempts == right.max_http_attempts
        && left.max_temp_bytes == right.max_temp_bytes
        && left.max_speakers == right.max_speakers
        && left.speaker_reference_seconds == right.speaker_reference_seconds
        && left.speaker_reference_silence_seconds == right.speaker_reference_silence_seconds
        && left.speaker_context_chars == right.speaker_context_chars
        && left.max_transcript_bytes == right.max_transcript_bytes
        && left.max_total_turns == right.max_total_turns
}

/// A choice that is looked up before it is saved.
#[derive(Debug)]
pub enum SelectionCheck {
    Chat { model: String },
    Stt { model: String, provider: String },
}

pub ghost enum SelectionView {
    Chat { model: Seq<char> },
    Stt { model: Seq<char>, provider: Seq<char> },
}

impl View for SelectionCheck {
    type V = SelectionView;

    open spec fn view(&self) -> SelectionView {
        match self {
            SelectionCheck::Chat { model } => SelectionView::Chat { model: model@ },
            SelectionCheck::Stt { model, provider } => SelectionView::Stt {
                model: model@,
                provider: provider@,
            },
        }
    }
}

pub open spec fn check_views(checks: Seq<SelectionCheck>) -> Seq<SelectionView> {
    checks.map_values(|check: SelectionCheck| check@)
}

/// The choices that are looked up: the model for chats, that of the review
/// where it is another, the first recognition, and the second where it is
/// another.
pub open spec fn checks_of(config: ConfigText) -> Seq<SelectionView> {
    let first = seq![SelectionView::Chat { model: config.model }];
    let second = if config.quality_review_model != config.model {
        first.push(SelectionView::Chat { model: config.quality_review_model })
    } else {
        first
    };
    let third = second.push(
        SelectionView::Stt { model: config.asr_model, provider: config.asr_provider },
    );
    if config.quality_asr_model != config.asr_model || config.quality_asr_provider
        != config.asr_provider {
        third.push(
            SelectionView::Stt {
                model: config.quality_asr_model,
                provider: config.quality_asr_provider,
            },
        )
    } else {
        third
    }
}

fn push_check(checks: &mut Vec<SelectionCheck>, check: SelectionCheck)
    ensures
        check_views(final(checks)@) == check_views(old(checks)@).push(check@),
{
    let ghost before = check_views(checks@);
    checks.push(check);
    assert(check_views(checks@) =~= before.push(check@));
}

/// The choices that are looked up before changed settings are saved.
pub fn selection_checks(config: &Config) -> (checks: Vec<SelectionCheck>)
    ensures
        check_views(checks@) == checks_of(config@),
{
    let mut checks: Vec<SelectionCheck> = Vec::new();
    assert(check_views(checks@) =~= Seq::empty());
    push_check(&mut checks, SelectionCheck::Chat { model: config.model.clone() });
    assert(check_views(checks@) =~= seq![SelectionView::Chat { model: config.model@ }]);
    if !same_text(config.effective_quality_review_model(), config.model.as_str()) {
        push_check(
            &mut checks,
            SelectionCheck::Chat { model: config.quality_review_model.clone() },
        );
    }
    push_check(
        &mut checks,
        SelectionCheck::Stt {
            model: config.asr_model.clone(),
            provider: config.asr_provider.clone(),
        },
    );
    if !same_text(config.effective_quality_asr_model(), config.asr_model.as_str()) || !same_text(
        config.quality_asr_provider.as_str(),
        config.asr_provider.as_str(),
    ) {
        push_check(
            &mut checks,
            SelectionCheck::Stt {
                model: config.quality_asr_model.clone(),
                provider: config.quality_asr_provider.clone(),
            },
        );
    }
    checks
}

/// Whether settings are saved: they were changed, there was no file, or the
/// file was of an earlier kind.
pub fn needs_save(changed: bool, existed: bool, migrated: bool) -> (result: bool)
    ensures
        result == (changed || !existed || migrated),
{
    changed || !existed || migrated
}

/// Checks that nobody else has changed the settings since they were read.
pub fn check_unchanged(changed: bool, latest: &Config, loaded: &Config) -> (result: Result<
    (),
    String,
>)
    ensures
        fault_of(result) == (if changed && latest@ != loaded@ {
            Some("配置在网络校验期间被其他进程修改，请重新执行本次设置命令"@)
        } else {
            None
        }),
{
    if changed && !same_config(latest, loaded) {
        return Err("配置在网络校验期间被其他进程修改，请重新执行本次设置命令".to_owned());
    }
    Ok(())
}

/// What is said when settings have been saved.
pub fn save_notice(changed: bool, migrated: bool, path: &str) -> (notice: Option<String>)
    ensures
        match notice {
            Some(text) => if changed {
                text@ == "配置已保存："@ + path@
            } else {
                migrated && text@ == "配置已迁移到专用 STT + 多模态 overlay schema v4："@ + path@
            },
            None => !changed && !migrated,
        },
{
    if changed {
        Some(text2("配置已保存：", path))
    } else if migrated {
        Some(text2("配置已迁移到专用 STT + 多模态 overlay schema v4：", path))
    } else {
        None
    }
}

// ---------------------------------------------------------------------------
// Operations
// ---------------------------------------------------------------------------

/// What is done when the settings are there.
#[derive(Clone, Copy, Debug, PartialEq, Eq, Structural)]
pub enum Operation {
    Run(Command),
    Transcribe(TranscriptMode),
    ShowChanges,
    ShowHelp,
}

/// What a call does when the settings are there, or why it does nothing.
pub open spec fn operation_of(call: Invocation, changed: bool) -> Result<Operation, Seq<char>> {
    match call.command {
        Some(command) => if call.has_audio {
            Err("音频路径不能与子命令同时使用"@)
        } else if command != Command::Ocr && command != Command::Help && call.force {
            Err("--force 只适用于音频转写或 OCR 输出"@)
        } else {
            Ok(Operation::Run(command))
        },
        None => if call.has_audio {
            Ok(
                Operation::Transcribe(
                    if call.raw {
                        TranscriptMode::Raw
                    } else {
                        TranscriptMode::Quality
                    },
                ),
            )
        } else if changed {
            Ok(Operation::ShowChanges)
        } else {
            Ok(Operation::ShowHelp)
        },
    }
}

/// Decides what is done when the settings are there.
pub fn choose_operation(call: &Invocation, changed: bool) -> (result: Result<Operation, String>)
    ensures
        match result {
            Ok(operation) => operation_of(*call, changed) == Ok::<Operation, Seq<char>>(operation),
            Err(message) => operation_of(*call, changed) == Err::<Operation, Seq<char>>(message@),
        },
{
    if let Some(command) = call.command {
        if call.has_audio {
            return Err("音频路径不能与子命令同时使用".to_owned());
        }
        let writes = match command {
            Command::Ocr => true,
            Command::Help => true,
            _ => false,
        };
        if !writes {
            if let Err(message) = reject_force(call.force) {
                return Err(message);
            }
        }
        return Ok(Operation::Run(command));
    }
    if call.has_audio {
        let mode = if call.raw {
            TranscriptMode::Raw
        } else {
            TranscriptMode::Quality
        };
        return Ok(Operation::Transcribe(mode));
    }
    if changed {
        return Ok(Operation::ShowChanges);
    }
    Ok(Operation::ShowHelp)
}

// ---------------------------------------------------------------------------
// Lines
// ---------------------------------------------------------------------------

/// A setting in a line.
pub open spec fn setting_line(name: Seq<char>, value: Seq<char>) -> Seq<char> {
    name + "="@ + value
}

fn push_setting(lines: &mut Vec<String>, name: &str, value: &str)
    ensures
        texts(final(lines)@) == texts(old(lines)@).push(setting_line(name@, value@)),
{
    push_text(lines, text3(name, "=", value));
}

fn push_count(lines: &mut Vec<String>, name: &str, value: u64)
    ensures
        texts(final(lines)@) == texts(old(lines)@).push(
            setting_line(name@, decimal(value as nat)),
        ),
{
    let number = decimal_string(value);
    push_text(lines, text3(name, "=", number.as_str()));
}

/// The lines that show what was changed.
pub open spec fn change_lines(config: ConfigText) -> Seq<Seq<char>> {
    Seq::empty().push(setting_line("model"@, config.model)).push(
        setting_line("quality_review_model"@, config.quality_review_model),
    ).push(setting_line("asr_model"@, config.asr_model)).push(
        setting_line("quality_asr_model"@, config.quality_asr_model),
    ).push(setting_line("provider"@, config.provider)).push(
        setting_line("asr_provider"@, config.asr_provider),
    ).push(setting_line("quality_asr_provider"@, config.quality_asr_provider))
}

/// Writes what can be changed in lines.
pub fn print_changes(config: &Config) -> (lines: Vec<String>)
    ensures
        texts(lines@) == change_lines(config@),
{
    let mut lines: Vec<String> = Vec::new();
    assert(texts(lines@) =~= Seq::empty());
    push_setting(&mut lines, "model", config.model.as_str());
    push_setting(&mut lines, "quality_review_model", config.quality_review_model.as_str());
    push_setting(&mut lines, "asr_model", config.asr_model.as_str());
    push_setting(&mut lines, "quality_asr_model", config.quality_asr_model.as_str());
    push_setting(&mut lines, "provider", config.provider.as_str());
    push_setting(&mut lines, "asr_provider", config.asr_provider.as_str());
    push_setting(&mut lines, "quality_asr_provider", config.quality_asr_provider.as_str());
    lines
}

/// The lines that show the settings.
pub open spec fn settings_lines(config: ConfigText, path: Seq<char>, has_key: bool) -> Seq<
    Seq<char>,
> {
    Seq::empty()
        .push(setting_line("config"@, path))
        .push(setting_line("schema_version"@, decimal(config.schema_version as nat)))
        .push(setting_line("model"@, config.model))
        .push(setting_line("quality_review_model"@, config.quality_review_model))
        .push(setting_line("asr_model"@, config.asr_model))
        .push(setting_line("quality_asr_model"@, config.quality_asr_model))
        .push(setting_line("effective_quality_review_model"@, config.quality_review_model))
        .push(setting_line("provider"@, config.provider))
        .push(setting_line("asr_provider"@, config.asr_provider))
        .push(setting_line("quality_asr_provider"@, config.quality_asr_provider))
        .push(setting_line("chunk_seconds"@, decimal(config.chunk_seconds as nat)))
        .push(
            setting_line(
                "effective_quality_chunk_seconds"@,
                decimal(config.asr_chunk_seconds() as nat),
            ),
        )
        .push(
            setting_line(
                "effective_asr_chunk_seconds"@,
                decimal(config.asr_chunk_seconds() as nat),
            ),
        )
        .push(
            setting_line(
                "effective_asr_min_chunk_seconds"@,
                decimal(config.asr_min_chunk_seconds() as nat),
            ),
        )
        .push(
            setting_line(
                "effective_quality_min_chunk_seconds"@,
                decimal(config.asr_min_chunk_seconds() as nat),
            ),
        )
        .push(setting_line("overlap_seconds"@, decimal(config.overlap_seconds as nat)))
        .push(setting_line("min_chunk_seconds"@, decimal(config.min_chunk_seconds as nat)))
        .push(setting_line("max_output_tokens"@, decimal(config.max_output_tokens as nat)))
        .push(setting_line("split_output_tokens"@, decimal(config.split_output_tokens as nat)))
        .push(setting_line("parallel_requests"@, decimal(config.parallel_requests as nat)))
        .push(setting_line("retries"@, decimal(config.retries as nat)))
        .push(setting_line("max_adaptive_depth"@, decimal(config.max_adaptive_depth as nat)))
        .push(setting_line("max_http_attempts"@, decimal(config.max_http_attempts as nat)))
        .push(setting_line("max_temp_bytes"@, decimal(config.max_temp_bytes as nat)))
        .push(setting_line("max_speakers"@, decimal(config.max_speakers as nat)))
        .push(
            setting_line(
                "speaker_reference_seconds"@,
                decimal(config.speaker_reference_seconds as nat),
            ),
        )
        .push(
            setting_line(
                "speaker_reference_silence_seconds"@,
                decimal(config.speaker_reference_silence_seconds as nat),
            ),
        )
        .push(setting_line("speaker_context_chars"@, decimal(config.speaker_context_chars as nat)))
        .push(setting_line("max_transcript_bytes"@, decimal(config.max_transcript_bytes as nat)))
        .push(setting_line("max_total_turns"@, decimal(config.max_total_turns as nat)))
        .push("effective_transcription_parallel_requests=1"@)
        .push(
            setting_line(
                "OPENROUTER_API_KEY"@,
                if has_key {
                    "已设置"@
                } else {
                    "未设置"@
                },
            ),
        )
}

/// Writes the settings in lines. Of the key they say only whether there is one.
pub fn print_config(config: &Config, path: &str, has_key: bool) -> (lines: Vec<String>)
    ensures
        texts(lines@) == settings_lines(config@, path@, has_key),
{
    let mut lines: Vec<String> = Vec::new();
    assert(texts(lines@) =~= Seq::empty());
    push_setting(&mut lines, "config", path);
    push_count(&mut lines, "schema_version", config.schema_version as u64);
    push_setting(&mut lines, "model", config.model.as_str());
    push_setting(&mut lines, "quality_review_model", config.quality_review_model.as_str());
    push_setting(&mut lines, "asr_model", config.asr_model.as_str());
    push_setting(&mut lines, "quality_asr_model", config.quality_asr_model.as_str());
    push_setting(
        &mut lines,
        "effective_quality_review_model",
        config.effective_quality_review_model(),
    );
    push_setting(&mut lines, "provider", config.provider.as_str());
    push_setting(&mut lines, "asr_provider", config.asr_provider.as_str());
    push_setting(&mut lines, "quality_asr_provider", config.quality_asr_provider.as_str());
    push_count(&mut lines, "chunk_seconds", config.chunk_seconds);
    push_count(
        &mut lines,
        "effective_quality_chunk_seconds",
        config.effective_quality_chunk_seconds(),
    );
    push_count(&mut lines, "effective_asr_chunk_seconds", config.effective_asr_chunk_seconds());
    push_count(
        &mut lines,
        "effective_asr_min_chunk_seconds",
        config.effective_asr_min_chunk_seconds(),
    );
    push_count(
        &mut lines,
        "effective_quality_min_chunk_seconds",
        config.effective_quality_min_chunk_seconds(),
    );
    push_count(&mut lines, "overlap_seconds", config.overlap_seconds);
    push_count(&mut lines, "min_chunk_seconds", config.min_chunk_seconds);
    push_count(&mut lines, "max_output_tokens", config.max_output_tokens as u64);
    push_count(&mut lines, "split_output_tokens", config.split_output_tokens as u64);
    push_count(&mut lines, "parallel_requests", config.parallel_requests as u64);
    push_count(&mut lines, "retries", config.retries as u64);
    push_count(&mut lines, "max_adaptive_depth", config.max_adaptive_depth as u64);
    push_count(&mut lines, "max_http_attempts", config.max_http_attempts as u64);
    push_count(&mut lines, "max_temp_bytes", config.max_temp_bytes);
    push_count(&mut lines, "max_speakers", config.max_speakers as u64);
    push_count(&mut lines, "speaker_reference_seconds", config.speaker_reference_seconds);
    push_count(
        &mut lines,
        "speaker_reference_silence_seconds",
        config.speaker_reference_silence_seconds,
    );
    push_count(&mut lines, "speaker_context_chars", config.speaker_context_chars as u64);
    push_count(&mut lines, "max_transcript_bytes", config.max_transcript_bytes);
    push_count(&mut lines, "max_total_turns", config.max_total_turns);
    push_text(&mut lines, "effective_transcription_parallel_requests=1".to_owned());
    push_setting(&mut lines, "OPENROUTER_API_KEY", if has_key { "已设置" } else { "未设置" });
    lines
}

/// An entry of a list in a line.
pub open spec fn entry_line(id: Seq<char>, name: Seq<char>, context: u64, output: u64) -> Seq<char> {
    id + "\t"@ + name + "\tcontext="@ + decimal(context as nat) + "\tmax_output="@ + decimal(
        output as nat,
    )
}

fn describe_entry(id: &str, name: &str, context: u64, output: u64) -> (line: String)
    ensures
        line@ == entry_line(id@, name@, context, output),
{
    let first = decimal_string(context);
    let second = decimal_string(output);
    let mut line = id.to_owned();
    line.append("\t");
    line.append(name);
    line.append("\tcontext=");
    line.append(first.as_str());
    line.append("\tmax_output=");
    line.append(second.as_str());
    line
}

pub open spec fn model_line(model: ModelSummary) -> Seq<char> {
    entry_line(model.id@, model.name@, model.context_length, model.max_completion_tokens)
}

pub open spec fn provider_line(provider: ProviderSummary) -> Seq<char> {
    entry_line(
        provider.tag@,
        provider.name@,
        provider.context_length,
        provider.max_completion_tokens,
    )
}

/// The line that stands where there are no models.
pub open spec fn no_models_text(recognition: bool) -> Seq<char> {
    if recognition {
        "没有找到匹配的专用 speech-to-text 模型"@
    } else {
        "没有找到匹配的音频多模态模型"@
    }
}

/// Writes a list of models in lines, for recognition or for chats.
pub fn model_lines(models: &Vec<ModelSummary>, recognition: bool) -> (lines: Vec<String>)
    ensures
        texts(lines@) == (if models@.len() == 0 {
            seq![no_models_text(recognition)]
        } else {
            models@.map_values(|model: ModelSummary| model_line(model))
        }),
{
    let mut lines: Vec<String> = Vec::new();
    if models.len() == 0 {
        lines.push(
            if recognition {
                "没有找到匹配的专用 speech-to-text 模型".to_owned()
            } else {
                "没有找到匹配的音频多模态模型".to_owned()
            },
        );
        assert(texts(lines@) =~= seq![no_models_text(recognition)]);
        return lines;
    }
    let ghost wanted = models@.map_values(|model: ModelSummary| model_line(model));
    let mut n: usize = 0;
    while n < models.len()
        invariant
            n <= models@.len(),
            wanted == models@.map_values(|model: ModelSummary| model_line(model)),
            lines@.len() == n,
            forall|k: int| 0 <= k < n ==> (#[trigger] lines@[k])@ == wanted[k],
        decreases models@.len() - n,
    {
        let model = &models[n];
        assert(wanted[n as int] == model_line(models@[n as int]));
        lines.push(
            describe_entry(
                model.id.as_str(),
                model.name.as_str(),
                model.context_length,
                model.max_completion_tokens,
            ),
        );
        n += 1;
    }
    assert(texts(lines@) =~= wanted);
    lines
}

/// The line that stands where a model has no endpoints.
pub open spec fn no_providers_text(model: Seq<char>, recognition: bool) -> Seq<char> {
    if recognition {
        "专用 STT 模型 "@ + model + " 当前没有公开 provider endpoint"@
    } else {
        "模型 "@ + model + " 当前没有公开 provider endpoint"@
    }
}

/// Writes the endpoints of a model in lines.
pub fn provider_lines(
    providers: &Vec<ProviderSummary>,
    model: &str,
    recognition: bool,
) -> (lines: Vec<String>)
    ensures
        texts(lines@) == (if providers@.len() == 0 {
            seq![no_providers_text(model@, recognition)]
        } else {
            providers@.map_values(|provider: ProviderSummary| provider_line(provider))
        }),
{
    let mut lines: Vec<String> = Vec::new();
    if providers.len() == 0 {
        lines.push(
            if recognition {
                text3("专用 STT 模型 ", model, " 当前没有公开 provider endpoint")
            } else {
                text3("模型 ", model, " 当前没有公开 provider endpoint")
            },
        );
        assert(texts(lines@) =~= seq![no_providers_text(model@, recognition)]);
        return lines;
    }
    let ghost wanted = providers@.map_values(
        |provider: ProviderSummary| provider_line(provider),
    );
    let mut n: usize = 0;
    while n < providers.len()
        invariant
            n <= providers@.len(),
            wanted == providers@.map_values(
                |provider: ProviderSummary| provider_line(provider),
            ),
            lines@.len() == n,
            forall|k: int| 0 <= k < n ==> (#[trigger] lines@[k])@ == wanted[k],
        decreases providers@.len() - n,
    {
        let provider = &providers[n];
        assert(wanted[n as int] == provider_line(providers@[n as int]));
        lines.push(
            describe_entry(
                provider.tag.as_str(),
                provider.name.as_str(),
                provider.context_length,
                provider.max_completion_tokens,
            ),
        );
        n += 1;
    }
    assert(texts(lines@) =~= wanted);
    lines
}

// ---------------------------------------------------------------------------
// Help
// ---------------------------------------------------------------------------

/// The program in a line.
pub const ABOUT: &'static str = "安全、可持久配置的 OpenRouter 语音转文字 CLI";

/// The program in words.
pub const LONG_ABOUT: &'static str = "spt 使用 OpenRouter 专用 speech-to-text 模型生成 provider source；Rust 校验后冻结事实片段受保护的 OpenCC 展示投影，再由受约束的音频多模态模型切分 turn，并由 Rust SpeakerHarness 维护跨片段说话人编号。\n\n直接给出合法音频路径后，会在源文件同一目录生成同名 Markdown 文字稿。专用 STT TARGET 最长 120 秒，以规避上游处理超时；模型和 provider 预期值会持久保存，直到再次修改。";

/// The commands, examples and remarks behind the help.
pub const AFTER_HELP: &'static str = "常用指令：\n  spt <AUDIO_PATH>                         成本有界的 quality 清稿，输出同名 .md\n  spt --verify-all <AUDIO_PATH>            每个 TARGET 都运行第二路 ASR 核验\n  spt --raw <AUDIO_PATH>                   单 ASR 未清稿，输出同名 .raw.md\n  spt --force <AUDIO_PATH>                 完整成功后原子替换已有目标稿件\n  spt --asr-model <MODEL_ID>               持久设置正文专用 STT 模型\n  spt --quality-asr-model <MODEL_ID>       持久设置 quality 交叉检查 STT 模型\n  spt --asr-provider <TAG|any>             保存正文 STT endpoint；any 为隐私降级\n  spt --quality-asr-provider <TAG|any>     保存检查 STT endpoint；any 为隐私降级\n  spt --model <MODEL_ID>                   同时设置 raw/quality overlay 模型\n  spt --quality-model <MODEL_ID>           仅设置 quality overlay 模型\n  spt --provider <ENDPOINT_TAG|any>        设置 overlay provider；any 为隐私降级\n  spt asr-models [SEARCH]                  列出专用 speech-to-text 模型\n  spt asr-providers [MODEL_ID]             列出专用 STT 模型 endpoints\n  spt models [SEARCH]                      列出 Chat Audio 多模态模型\n  spt providers [MODEL_ID]                 列出多模态模型 endpoints\n  spt config                               查看生效配置，不显示 API Key\n  spt ocr <IMAGE_PATH>                     OCR 单张图片，生成 *.ocr.md\n  spt help [COMMAND]                       显示完整介绍或指定子命令帮助\n\n示例：\n  spt \"会议录音.m4a\"\n  spt --verify-all \"会议录音.m4a\"\n  spt --raw \"会议录音.m4a\"\n  spt --asr-model qwen/qwen3-asr-1.7b --asr-provider deepinfra\n  spt --quality-asr-model fish-audio/transcribe-1 --quality-asr-provider fish-audio\n  spt --model google/gemini-3.7-flash --provider google-vertex/global\n\n说明：\n  - 默认正文来自 OpenRouter 专用 STT；Rust 冻结经校验、事实片段受保护的 OpenCC 展示投影，而非 provider 原始响应字节。\n  - quality 对首段及此后约每 10 分钟抽检独立 STT，--verify-all 改为全量核验；一致仍不等于真值。空 Primary 的第二路结果只记录复核告警，不回填正文。\n  - 多模态模型只负责把已冻结的展示正文切成 turn 和比较短声音样本，不得改写事实正文。\n  - 默认 quality 只做事实字符不变的主机标点清理；疑似 filler/口吃只标 signal，不自动删字；--raw 跳过清稿和第二路 ASR。\n  - STT API 暂不支持 Chat API 的 provider.only；固定模式只接受目录中唯一且为 ZDR 的 endpoint。\n  - OPENROUTER_API_KEY 只从环境变量读取，不会写入配置。\n  - 中文正文只保护事实标签值、成对引号/书名号内容、inline code、URL/email 和显式指定字形；无标签专名仍按普通 OpenCC t2s 转换。\n  - 首次执行非帮助操作时会原子写入默认配置并创建同目录 .config.lock；v1-v3 配置会在锁内迁移为 v4。\n  - 配置路径优先级为 SPT_CONFIG_PATH、XDG_CONFIG_HOME/spt/config.toml、~/.config/spt/config.toml。\n  - 默认不覆盖已有输出；只有 --force 会在完整结果就绪后原子替换。";

/// How to transcribe a recording.
pub const AUDIO_GUIDE: &'static str = "音频转写\n\n用法：\n  spt <AUDIO_PATH>\n  spt --verify-all <AUDIO_PATH>\n  spt --raw <AUDIO_PATH>\n  spt --force <AUDIO_PATH>\n\n输出：\n  默认生成 <AUDIO_STEM>.md：Primary STT 生成 provider source；Rust 校验后冻结事实片段受保护的 OpenCC 展示投影，再做 presentation-only 标点清理。第二路 STT 默认检查首段及此后每第 5 个根 TARGET（约每 10 分钟）。\n  --verify-all 对每个根 TARGET 运行第二路 STT，费用更高，但交叉核验覆盖完整。Primary 为空时，第二路结果只记录复核告警，不会回填正文。\n  --raw 生成 <AUDIO_STEM>.raw.md：只运行主 STT，不做第二路交叉检查或 quality 清稿；它仍不承诺底层 ASR 保留每个非词汇声音。\n  通用多模态模型只能切 turn 和比较短声音样本，不能改写事实正文。两种输出可以同时存在，默认均不覆盖已有文件。任何输出都明确标记准确率未测量。\n  冻结正文是 OpenCC 展示投影，不是 provider 原始响应字节。源字形保护仅覆盖事实标签值、成对引号/书名号内容、inline code、URL/email 和显式指定字形；无标签专名仍按普通 OpenCC t2s 转换。\n\n支持格式：\n  aac, aif, aiff, caf, flac, m4a, m4b, mp3, oga, ogg, opus, wav, webm, wma\n\n示例：\n  spt \"/path/to/会议录音.m4a\"\n  spt --verify-all \"/path/to/会议录音.m4a\"\n  spt --raw \"/path/to/会议录音.m4a\"";

/// How to read an image.
pub const OCR_GUIDE: &'static str = "图片 OCR\n\n用法：\n  spt ocr <IMAGE_PATH>\n  spt ocr --force <IMAGE_PATH>\n\n输出：\n  在图片旁生成 <IMAGE_STEM>.ocr.md。\n\n支持格式：\n  png, jpg, jpeg, webp\n\n示例：\n  spt ocr \"/path/to/扫描件.png\"";

/// How to list models for chats with sound.
pub const MODELS_GUIDE: &'static str = "Chat Audio 模型目录\n\n用法：\n  spt models [SEARCH]\n\n作用：\n  查询 OpenRouter 当前声明支持音频输入的通用多模态模型；这些模型用于 turn/说话人 overlay，不是默认正文 STT。\n\n示例：\n  spt models gemini\n  spt --model google/gemini-3.7-flash";

/// How to list models for recognition.
pub const ASR_MODELS_GUIDE: &'static str = "专用 STT 模型目录\n\n用法：\n  spt asr-models [SEARCH]\n\n作用：\n  查询 OpenRouter /audio/transcriptions 的 audio→transcription 模型。固定 provider 模式仍会在付费前要求目录唯一 endpoint 与 ZDR。\n\n示例：\n  spt asr-models qwen\n  spt --asr-model qwen/qwen3-asr-1.7b";

/// How to list the endpoints of a model for chats.
pub const PROVIDERS_GUIDE: &'static str = "Chat Audio Provider 目录\n\n用法：\n  spt providers [MODEL_ID]\n\n作用：\n  列出通用多模态模型的 endpoint tag；省略 MODEL_ID 时使用当前已保存模型。spt --provider any 允许 OpenRouter 自动路由，属于显式隐私降级。\n\n示例：\n  spt providers google/gemini-3.7-flash\n  spt --provider google-vertex/global";

/// How to list the endpoints of a model for recognition.
pub const ASR_PROVIDERS_GUIDE: &'static str = "专用 STT Provider 目录\n\n用法：\n  spt asr-providers [MODEL_ID]\n\n作用：\n  列出专用 STT 模型的 endpoint。STT OpenAPI 当前没有 provider.only；固定模式只接受目录中唯一且为 ZDR 的 endpoint。spt --asr-provider any 和 spt --quality-asr-provider any 接受自动路由，均属于显式隐私降级。\n\n示例：\n  spt asr-providers qwen/qwen3-asr-1.7b\n  spt --asr-provider deepinfra";

/// How to look at the settings.
pub const CONFIG_GUIDE: &'static str = "查看配置\n\n用法：\n  spt config\n\n作用：\n  显示专用 STT、quality STT、多模态 overlay、各自 provider 及资源预算。只显示 OPENROUTER_API_KEY 是否已设置，绝不显示 Key 内容。\n  首次执行非帮助操作时，spt 会原子写入默认配置并创建同目录 .config.lock；已有 v1-v3 配置会在锁内迁移为 v4。\n  配置路径依次取非空 SPT_CONFIG_PATH、非空 XDG_CONFIG_HOME 下的 spt/config.toml、~/.config/spt/config.toml。\n\n持久修改：\n  spt --asr-model <MODEL_ID>\n  spt --quality-asr-model <MODEL_ID>\n  spt --asr-provider <ENDPOINT_TAG|any>    # any 为显式隐私降级\n  spt --quality-asr-provider <ENDPOINT_TAG|any> # any 为显式隐私降级\n  spt --model <MULTIMODAL_MODEL_ID>\n  spt --quality-model <MULTIMODAL_MODEL_ID>\n  spt --provider <ENDPOINT_TAG|any>        # any 为显式隐私降级";

/// How to get help.
pub const HELP_GUIDE: &'static str = "指令帮助\n\n用法：\n  spt\n  spt --help\n  spt help [COMMAND]\n\n可选主题：\n  audio, ocr, asr-models, asr-providers, models, providers, config, help\n\n帮助命令离线执行，不读取或修改 spt 配置。";

/// The guide to a topic.
pub open spec fn topic_text(name: Seq<char>) -> Option<Seq<char>> {
    if name == "audio"@ || name == "transcribe"@ || name == "转写"@ {
        Some(AUDIO_GUIDE@)
    } else if name == "ocr"@ {
        Some(OCR_GUIDE@)
    } else if name == "models"@ {
        Some(MODELS_GUIDE@)
    } else if name == "asr-models"@ || name == "asr_models"@ {
        Some(ASR_MODELS_GUIDE@)
    } else if name == "providers"@ {
        Some(PROVIDERS_GUIDE@)
    } else if name == "asr-providers"@ || name == "asr_providers"@ {
        Some(ASR_PROVIDERS_GUIDE@)
    } else if name == "config"@ {
        Some(CONFIG_GUIDE@)
    } else if name == "help"@ {
        Some(HELP_GUIDE@)
    } else {
        None
    }
}

pub fn command_topic_guide(name: &str) -> (guide: Option<&'static str>)
    ensures
        optional_str(guide) == topic_text(name@),
{
    if same_text(name, "audio") || same_text(name, "transcribe") || same_text(name, "转写") {
        return Some(AUDIO_GUIDE);
    }
    if same_text(name, "ocr") {
        return Some(OCR_GUIDE);
    }
    if same_text(name, "models") {
        return Some(MODELS_GUIDE);
    }
    if same_text(name, "asr-models") || same_text(name, "asr_models") {
        return Some(ASR_MODELS_GUIDE);
    }
    if same_text(name, "providers") {
        return Some(PROVIDERS_GUIDE);
    }
    if same_text(name, "asr-providers") || same_text(name, "asr_providers") {
        return Some(ASR_PROVIDERS_GUIDE);
    }
    if same_text(name, "config") {
        return Some(CONFIG_GUIDE);
    }
    if same_text(name, "help") {
        return Some(HELP_GUIDE);
    }
    None
}

} // verus!
