//! What a call may say, and what the catalogs allow.
use vstd::prelude::*;
use crate::cli::{
    changed_until, checks_of, opening_of, operation_of, settings_lines, Command, Invocation,
    Opening, Operation, OverridesView, SelectionView,
};
use crate::config::ConfigText;
use crate::json::{field, field_holds, inner_field, items_in, natural_in, text_in, whole_in, Json};
use crate::openrouter::catalog::{
    active_zdr_entries, entry_with, fixed_endpoint_fault, fixed_stt_fault, fixed_zdr_fault,
    is_searched, is_zdr_entry, limit_fault, stage_after, zdr_entry, CatalogStage,
};
use crate::security::{directory_fault, DirectoryFacts};
use crate::text::{contains_text, decimal, lowercased, occurs_at};
use crate::transcript::TranscriptMode;

verus! {

// ---------------------------------------------------------------------------
// Calls
// ---------------------------------------------------------------------------

/// A call that says nothing gives the guide; help is given only where nothing
/// else is asked; and what goes on to the settings never asks for a draft and
/// for a check of everything at once, asks for either only with a recording and
/// no command, and replaces a file only where one is written.
pub proof fn lemma_options_go_together(call: Invocation)
    ensures
        ({
            let plain = !call.has_audio && !call.force && !call.raw && !call.verify_all
                && !call.overrides@.any();
            &&& opening_of(call) == Ok::<Opening, Seq<char>>(Opening::Guide) <==> plain
                && call.command is None
            &&& opening_of(call) == Ok::<Opening, Seq<char>>(Opening::Topic) <==> plain
                && call.command == Some(Command::Help)
            &&& opening_of(call) == Ok::<Opening, Seq<char>>(Opening::Settings) <==> !(plain
                && call.command is None) && call.command != Some(Command::Help) && !(call.raw
                && call.verify_all) && (call.raw || call.verify_all ==> call.has_audio
                && call.command is None) && (call.force ==> call.has_audio || call.command == Some(
                Command::Ocr,
            ))
        }),
{
}

/// A recording is transcribed, as a draft where that is asked; a command is run
/// without a recording; and where neither is given, what was changed is shown.
pub proof fn lemma_what_a_call_does(call: Invocation, changed: bool)
    ensures
        call.command is None && call.has_audio && call.raw ==> operation_of(call, changed) == Ok::<
            Operation,
            Seq<char>,
        >(Operation::Transcribe(TranscriptMode::Raw)),
        call.command is None && call.has_audio && !call.raw ==> operation_of(call, changed) == Ok::<
            Operation,
            Seq<char>,
        >(Operation::Transcribe(TranscriptMode::Quality)),
        call.command is None && !call.has_audio ==> operation_of(call, changed) == Ok::<
            Operation,
            Seq<char>,
        >(
            if changed {
                Operation::ShowChanges
            } else {
                Operation::ShowHelp
            },
        ),
        call.command is Some && call.has_audio ==> operation_of(call, changed) is Err,
        call.command is Some && !call.has_audio && !call.force ==> operation_of(call, changed)
            == Ok::<Operation, Seq<char>>(Operation::Run(call.command->0)),
{
}

/// Each change changes its own setting, and nothing else is changed: a model
/// for chats sets that of the review too, unless that is given.
pub proof fn lemma_changes(config: ConfigText, changes: OverridesView)
    ensures
        ({
            let now = changed_until(config, changes, 7);
            &&& now == (ConfigText {
                model: now.model,
                quality_review_model: now.quality_review_model,
                asr_model: now.asr_model,
                quality_asr_model: now.quality_asr_model,
                provider: now.provider,
                asr_provider: now.asr_provider,
                quality_asr_provider: now.quality_asr_provider,
                ..config
            })
            &&& now.model == match changes.model {
                Some(name) => name,
                None => config.model,
            }
            &&& now.quality_review_model == match changes.quality_model {
                Some(name) => name,
                None => match changes.model {
                    Some(name) => name,
                    None => config.quality_review_model,
                },
            }
            &&& now.asr_model == match changes.asr_model {
                Some(name) => name,
                None => config.asr_model,
            }
            &&& now.quality_asr_model == match changes.quality_asr_model {
                Some(name) => name,
                None => config.quality_asr_model,
            }
            &&& changes.provider is None ==> now.provider == config.provider
            &&& changes.asr_provider is None ==> now.asr_provider == config.asr_provider
            &&& changes.quality_asr_provider is None ==> now.quality_asr_provider
                == config.quality_asr_provider
            &&& changes.provider matches Some(name) ==> now.provider == if lowercased(name)
                == "any"@ {
                "any"@
            } else {
                name
            }
            &&& changes.asr_provider matches Some(name) ==> now.asr_provider == if lowercased(name)
                == "any"@ {
                "any"@
            } else {
                name
            }
            &&& changes.quality_asr_provider matches Some(name) ==> now.quality_asr_provider
                == if lowercased(name) == "any"@ {
                "any"@
            } else {
                name
            }
        }),
{
    reveal_with_fuel(changed_until, 8);
}

/// What is looked up before settings are kept: every model and every provider
/// that they name, each once.
pub proof fn lemma_everything_is_looked_up(config: ConfigText)
    ensures
        checks_of(config).contains(SelectionView::Chat { model: config.model }),
        checks_of(config).contains(SelectionView::Chat { model: config.quality_review_model }),
        checks_of(config).contains(
            SelectionView::Stt { model: config.asr_model, provider: config.asr_provider },
        ),
        checks_of(config).contains(
            SelectionView::Stt {
                model: config.quality_asr_model,
                provider: config.quality_asr_provider,
            },
        ),
        checks_of(config).no_duplicates(),
        checks_of(config).len() <= 4,
{
    let checks = checks_of(config);
    assert(checks[0] == SelectionView::Chat { model: config.model });
    if config.quality_review_model != config.model {
        assert(checks[1] == SelectionView::Chat { model: config.quality_review_model });
        assert(checks[2] == SelectionView::Stt {
            model: config.asr_model,
            provider: config.asr_provider,
        });
        if config.quality_asr_model != config.asr_model || config.quality_asr_provider
            != config.asr_provider {
            assert(checks[3] == SelectionView::Stt {
                model: config.quality_asr_model,
                provider: config.quality_asr_provider,
            });
        }
    } else {
        assert(checks[1] == SelectionView::Stt {
            model: config.asr_model,
            provider: config.asr_provider,
        });
        if config.quality_asr_model != config.asr_model || config.quality_asr_provider
            != config.asr_provider {
            assert(checks[2] == SelectionView::Stt {
                model: config.quality_asr_model,
                provider: config.quality_asr_provider,
            });
        }
    }
}

/// The settings are shown as they are, each under its name.
pub proof fn lemma_settings_are_shown(config: ConfigText, path: Seq<char>, has_key: bool)
    ensures
        ({
            let lines = settings_lines(config, path, has_key);
            &&& lines.contains("config"@ + "="@ + path)
            &&& lines.contains("model"@ + "="@ + config.model)
            &&& lines.contains("quality_review_model"@ + "="@ + config.quality_review_model)
            &&& lines.contains("asr_model"@ + "="@ + config.asr_model)
            &&& lines.contains("quality_asr_model"@ + "="@ + config.quality_asr_model)
            &&& lines.contains("provider"@ + "="@ + config.provider)
            &&& lines.contains("asr_provider"@ + "="@ + config.asr_provider)
            &&& lines.contains("quality_asr_provider"@ + "="@ + config.quality_asr_provider)
            &&& lines.contains("chunk_seconds"@ + "="@ + decimal(config.chunk_seconds as nat))
            &&& lines.contains("overlap_seconds"@ + "="@ + decimal(config.overlap_seconds as nat))
            &&& lines.contains(
                "min_chunk_seconds"@ + "="@ + decimal(config.min_chunk_seconds as nat),
            )
            &&& lines.contains("retries"@ + "="@ + decimal(config.retries as nat))
            &&& lines.contains("max_speakers"@ + "="@ + decimal(config.max_speakers as nat))
            &&& lines.contains("max_temp_bytes"@ + "="@ + decimal(config.max_temp_bytes as nat))
            &&& lines.contains("max_total_turns"@ + "="@ + decimal(config.max_total_turns as nat))
            &&& has_key ==> lines.last() == "OPENROUTER_API_KEY"@ + "="@ + "已设置"@
            &&& !has_key ==> lines.last() == "OPENROUTER_API_KEY"@ + "="@ + "未设置"@
        }),
{
    let lines = settings_lines(config, path, has_key);
    assert(lines[0] == "config"@ + "="@ + path);
    assert(lines[2] == "model"@ + "="@ + config.model);
    assert(lines[3] == "quality_review_model"@ + "="@ + config.quality_review_model);
    assert(lines[4] == "asr_model"@ + "="@ + config.asr_model);
    assert(lines[5] == "quality_asr_model"@ + "="@ + config.quality_asr_model);
    assert(lines[7] == "provider"@ + "="@ + config.provider);
    assert(lines[8] == "asr_provider"@ + "="@ + config.asr_provider);
    assert(lines[9] == "quality_asr_provider"@ + "="@ + config.quality_asr_provider);
    assert(lines[10] == "chunk_seconds"@ + "="@ + decimal(config.chunk_seconds as nat));
    assert(lines[15] == "overlap_seconds"@ + "="@ + decimal(config.overlap_seconds as nat));
    assert(lines[16] == "min_chunk_seconds"@ + "="@ + decimal(config.min_chunk_seconds as nat));
    assert(lines[20] == "retries"@ + "="@ + decimal(config.retries as nat));
    assert(lines[23] == "max_temp_bytes"@ + "="@ + decimal(config.max_temp_bytes as nat));
    assert(lines[24] == "max_speakers"@ + "="@ + decimal(config.max_speakers as nat));
    assert(lines[29] == "max_total_turns"@ + "="@ + decimal(config.max_total_turns as nat));
}

// ---------------------------------------------------------------------------
// Directories
// ---------------------------------------------------------------------------

/// A directory is private exactly where it is one, belongs to the user, and
/// neither the group nor others may write to it.
pub proof fn lemma_private_directories(path: Seq<char>, facts: DirectoryFacts)
    ensures
        directory_fault(path, facts) is None <==> facts.is_directory && facts.owner == facts.user
            && facts.mode & 0o020 == 0 && facts.mode & 0o002 == 0,
{
    let mode = facts.mode;
    assert(mode & 0o022 == 0 <==> mode & 0o020 == 0 && mode & 0o002 == 0) by (bit_vector);
}

// ---------------------------------------------------------------------------
// Catalogs
// ---------------------------------------------------------------------------

/// A number of tokens may be asked for up to the limit that is published; a
/// limit of zero, or none, is no limit.
pub proof fn lemma_limits(requested: u32, label: Seq<char>, limit: u64)
    ensures
        limit_fault(requested, label, Some(Json::Natural(limit))) is None <==> limit == 0
            || requested <= limit,
        limit_fault(requested, label, None) is None,
        limit_fault(requested, label, Some(Json::Null)) is None,
        limit_fault(requested, label, Some(Json::Bool(true))) is Some,
{
}

proof fn lemma_entry_found(items: Seq<Json>, name: Seq<char>, text: Seq<char>, n: int)
    requires
        0 <= n,
        entry_with(items, name, text, n) is Some,
    ensures
        items.contains(entry_with(items, name, text, n)->0),
        text_in(field(entry_with(items, name, text, n)->0, name)) == Some(text),
    decreases items.len() - n,
{
    if n < items.len() && text_in(field(items[n], name)) != Some(text) {
        lemma_entry_found(items, name, text, n + 1);
    }
}

proof fn lemma_zdr_found(items: Seq<Json>, model: Seq<char>, tag: Seq<char>, n: int)
    requires
        0 <= n,
        zdr_entry(items, model, tag, n) is Some,
    ensures
        items.contains(zdr_entry(items, model, tag, n)->0),
        is_zdr_entry(zdr_entry(items, model, tag, n)->0, model, tag),
    decreases items.len() - n,
{
    if n < items.len() && !is_zdr_entry(items[n], model, tag) {
        lemma_zdr_found(items, model, tag, n + 1);
    }
}

/// An entry that can be used: it works, allows the number of tokens, and, for
/// sound, can answer in a form that was asked for.
pub open spec fn can_serve(entry: Json, tokens: u32, sound: bool) -> bool {
    &&& whole_in(field(entry, "status"@)) == Some(0int)
    &&& natural_in(field(entry, "max_completion_tokens"@)) matches Some(limit) ==> limit == 0
        || tokens <= limit
    &&& sound ==> field_holds(field(entry, "supported_parameters"@), "response_format"@)
        && field_holds(field(entry, "supported_parameters"@), "structured_outputs"@)
}

/// A fixed provider passes only where the catalog of the model has an endpoint
/// of that name that can serve; and as one that keeps no data only where such an
/// endpoint of the model is listed among those.
pub proof fn lemma_fixed_provider(config: ConfigText, sound: bool, endpoints: Json, zdr: Json)
    requires
        fixed_endpoint_fault(
            config,
            if sound {
                "audio"@
            } else {
                "image"@
            },
            endpoints,
        ) is None,
        fixed_zdr_fault(
            config,
            if sound {
                "audio"@
            } else {
                "image"@
            },
            zdr,
        ) is None,
    ensures
        items_in(inner_field(endpoints, "data"@, "endpoints"@)) is Some,
        exists|entry: Json| #[trigger]
            (items_in(inner_field(endpoints, "data"@, "endpoints"@))->0).contains(entry) && text_in(
                field(entry, "tag"@),
            ) == Some(config.provider) && can_serve(entry, config.max_output_tokens, sound),
        items_in(field(zdr, "data"@)) is Some,
        exists|entry: Json| #[trigger]
            (items_in(field(zdr, "data"@))->0).contains(entry) && text_in(
                field(entry, "model_id"@),
            ) == Some(config.model) && text_in(field(entry, "tag"@)) == Some(config.provider)
                && can_serve(entry, config.max_output_tokens, sound),
{
    reveal_strlit("audio");
    reveal_strlit("image");
    assert("audio"@[0] == 'a' && "image"@[0] == 'i');
    let items = items_in(inner_field(endpoints, "data"@, "endpoints"@))->0;
    lemma_entry_found(items, "tag"@, config.provider, 0);
    let entry = entry_with(items, "tag"@, config.provider, 0)->0;
    assert(items.contains(entry) && can_serve(entry, config.max_output_tokens, sound));
    let kept = items_in(field(zdr, "data"@))->0;
    lemma_zdr_found(kept, config.model, config.provider, 0);
    let other = zdr_entry(kept, config.model, config.provider, 0)->0;
    assert(kept.contains(other) && can_serve(other, config.max_output_tokens, sound));
}

/// A fixed provider of speech-to-text passes only where the model has one
/// endpoint, that works and has the name that was asked for, and where it is
/// listed once as working among those that keep no data.
pub proof fn lemma_fixed_speech_provider(
    model: Seq<char>,
    expected: Seq<char>,
    endpoints: Seq<Json>,
    zdr: Seq<Json>,
)
    requires
        fixed_stt_fault(model, expected, endpoints, zdr) is None,
    ensures
        endpoints.len() == 1,
        text_in(field(endpoints[0], "tag"@)) == Some(expected),
        whole_in(field(endpoints[0], "status"@)) == Some(0int),
        exists|k: int| #[trigger] serves_without_data(zdr, model, expected, k) && forall|j: int|
            #[trigger] serves_without_data(zdr, model, expected, j) ==> j == k,
{
    lemma_only_entry(zdr, model, expected, zdr.len());
}

/// The entry at a place names the model and the endpoint, and works.
pub open spec fn serves_without_data(
    zdr: Seq<Json>,
    model: Seq<char>,
    tag: Seq<char>,
    k: int,
) -> bool {
    0 <= k < zdr.len() && text_in(field(zdr[k], "model_id"@)) == Some(model) && text_in(
        field(zdr[k], "tag"@),
    ) == Some(tag) && whole_in(field(zdr[k], "status"@)) == Some(0int)
}

proof fn lemma_no_entry(zdr: Seq<Json>, model: Seq<char>, tag: Seq<char>, n: nat)
    requires
        n <= zdr.len(),
    ensures
        active_zdr_entries(zdr, model, tag, n) == 0 ==> forall|k: int|
            0 <= k < n ==> !#[trigger] serves_without_data(zdr, model, tag, k),
    decreases n,
{
    if n > 0 {
        lemma_no_entry(zdr, model, tag, (n - 1) as nat);
    }
}

proof fn lemma_only_entry(zdr: Seq<Json>, model: Seq<char>, tag: Seq<char>, n: nat)
    requires
        n <= zdr.len(),
        active_zdr_entries(zdr, model, tag, n) == 1,
    ensures
        exists|k: int|
            0 <= k < n && #[trigger] serves_without_data(zdr, model, tag, k) && forall|j: int|
                0 <= j < n && #[trigger] serves_without_data(zdr, model, tag, j) ==> j == k,
    decreases n,
{
    let last = n - 1;
    if serves_without_data(zdr, model, tag, last) {
        lemma_no_entry(zdr, model, tag, last as nat);
        assert(serves_without_data(zdr, model, tag, last));
    } else {
        lemma_only_entry(zdr, model, tag, last as nat);
    }
}

/// A fixed route is looked up in three catalogs, one that any provider may
/// serve in two; the models come first, and those that keep no data last.
pub proof fn lemma_catalogs(config: ConfigText)
    ensures
        stage_after(config, CatalogStage::Models) == Some(CatalogStage::Endpoints),
        lowercased(config.provider) == "any"@ ==> stage_after(config, CatalogStage::Endpoints)
            is None,
        lowercased(config.provider) != "any"@ ==> stage_after(config, CatalogStage::Endpoints)
            == Some(CatalogStage::ZeroRetention),
        stage_after(config, CatalogStage::ZeroRetention) is None,
{
}

/// A search finds what holds the words in its name or its identifier, whatever
/// the case of the letters; no search finds all.
pub proof fn lemma_search(id: Seq<char>, name: Seq<char>, words: Seq<char>)
    ensures
        is_searched(id, name, None),
        contains_text(id, words) || contains_text(name, words) ==> is_searched(
            id,
            name,
            Some(words),
        ),
        is_searched(id, name, Some(lowercased(words))) == is_searched(id, name, Some(words)),
        is_searched(lowercased(id), lowercased(name), Some(words)) == is_searched(
            id,
            name,
            Some(words),
        ),
{
    assert(lowercased(lowercased(words)) =~= lowercased(words));
    assert(lowercased(lowercased(id)) =~= lowercased(id));
    assert(lowercased(lowercased(name)) =~= lowercased(name));
    if contains_text(id, words) {
        lemma_small_words(id, words);
    }
    if contains_text(name, words) {
        lemma_small_words(name, words);
    }
}

proof fn lemma_small_words(text: Seq<char>, words: Seq<char>)
    requires
        contains_text(text, words),
    ensures
        contains_text(lowercased(text), lowercased(words)),
{
    let at = choose|at: int| #[trigger] occurs_at(text, at, words);
    let small = lowercased(text);
    let least = lowercased(words);
    assert forall|k: int| 0 <= k < least.len() implies small.subrange(
        at,
        at + least.len(),
    )[k] == least[k] by {
        assert(text.subrange(at, at + words.len())[k] == words[k]);
    }
    assert(small.subrange(at, at + least.len()) =~= least);
    assert(occurs_at(small, at, least));
}

} // verus!
