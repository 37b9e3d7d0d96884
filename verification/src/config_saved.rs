//! Settings as they are written to a file, and that reading the file gives
//! them back.
use vstd::prelude::*;
use crate::config::{
    config_of, config_typed, decoded, entry_of, entry_position, fields_known, file_version,
    has_entry, is_config_field, is_route_char, toml_entries, Config, ConfigError, ConfigText,
    FieldParts, Fields,
};
use crate::text::lowercased;

verus! {

// ---------------------------------------------------------------------------
// Fields
// ---------------------------------------------------------------------------

/// The value of a field that is written.
#[derive(Debug)]
pub enum SavedValue {
    Text(String),
    Number(i64),
}

/// A field that is written.
#[derive(Debug)]
pub struct SavedEntry {
    pub name: String,
    pub value: SavedValue,
}

impl SavedEntry {
    /// The field as it is read: its name, and its text or its number.
    pub open spec fn parts(&self) -> FieldParts {
        match self.value {
            SavedValue::Text(text) => (self.name@, Some(text@), None),
            SavedValue::Number(number) => (self.name@, None, Some(number as int)),
        }
    }
}

pub open spec fn saved_parts(entries: Seq<SavedEntry>) -> Fields {
    Seq::new(entries.len(), |i: int| entries[i].parts())
}

/// A field with a text.
pub open spec fn text_part(name: Seq<char>, text: Seq<char>) -> FieldParts {
    (name, Some(text), None)
}

/// A field with a number.
pub open spec fn number_part(name: Seq<char>, number: int) -> FieldParts {
    (name, None, Some(number))
}

fn push_text_field(entries: &mut Vec<SavedEntry>, name: &str, text: &String)
    ensures
        saved_parts(final(entries)@) == saved_parts(old(entries)@).push(text_part(name@, text@)),
{
    let entry = SavedEntry { name: name.to_owned(), value: SavedValue::Text(text.clone()) };
    let ghost before = saved_parts(entries@);
    entries.push(entry);
    assert(saved_parts(entries@) =~= before.push(text_part(name@, text@)));
}

fn push_number_field(entries: &mut Vec<SavedEntry>, name: &str, number: i64)
    ensures
        saved_parts(final(entries)@) == saved_parts(old(entries)@).push(
            number_part(name@, number as int),
        ),
{
    let entry = SavedEntry { name: name.to_owned(), value: SavedValue::Number(number) };
    let ghost before = saved_parts(entries@);
    entries.push(entry);
    assert(saved_parts(entries@) =~= before.push(number_part(name@, number as int)));
}

/// The fields of a file of settings, in their order.
pub open spec fn written(config: ConfigText) -> Fields {
    seq![
        number_part("schema_version"@, config.schema_version as int),
        text_part("model"@, config.model),
        text_part("quality_review_model"@, config.quality_review_model),
        text_part("asr_model"@, config.asr_model),
        text_part("quality_asr_model"@, config.quality_asr_model),
        text_part("provider"@, config.provider),
        text_part("asr_provider"@, config.asr_provider),
        text_part("quality_asr_provider"@, config.quality_asr_provider),
        number_part("chunk_seconds"@, config.chunk_seconds as int),
        number_part("overlap_seconds"@, config.overlap_seconds as int),
        number_part("min_chunk_seconds"@, config.min_chunk_seconds as int),
        number_part("max_output_tokens"@, config.max_output_tokens as int),
        number_part("split_output_tokens"@, config.split_output_tokens as int),
        number_part("parallel_requests"@, config.parallel_requests as int),
        number_part("retries"@, config.retries as int),
        number_part("max_adaptive_depth"@, config.max_adaptive_depth as int),
        number_part("max_http_attempts"@, config.max_http_attempts as int),
        number_part("max_temp_bytes"@, config.max_temp_bytes as int),
        number_part("max_speakers"@, config.max_speakers as int),
        number_part("speaker_reference_seconds"@, config.speaker_reference_seconds as int),
        number_part("speaker_reference_silence_seconds"@, config.speaker_reference_silence_seconds as int),
        number_part("speaker_context_chars"@, config.speaker_context_chars as int),
        number_part("max_transcript_bytes"@, config.max_transcript_bytes as int),
        number_part("max_total_turns"@, config.max_total_turns as int),
    ]
}

/// The fields of a file of settings.
fn encode_entries(config: &Config) -> (entries: Vec<SavedEntry>)
    requires
        config@.valid(),
    ensures
        saved_parts(entries@) == written(config@),
{
    let mut entries: Vec<SavedEntry> = Vec::new();
    assert(saved_parts(entries@) =~= seq![]);
    push_number_field(&mut entries, "schema_version", config.schema_version as i64);
    push_text_field(&mut entries, "model", &config.model);
    push_text_field(&mut entries, "quality_review_model", &config.quality_review_model);
    push_text_field(&mut entries, "asr_model", &config.asr_model);
    push_text_field(&mut entries, "quality_asr_model", &config.quality_asr_model);
    push_text_field(&mut entries, "provider", &config.provider);
    push_text_field(&mut entries, "asr_provider", &config.asr_provider);
    push_text_field(&mut entries, "quality_asr_provider", &config.quality_asr_provider);
    push_number_field(&mut entries, "chunk_seconds", config.chunk_seconds as i64);
    push_number_field(&mut entries, "overlap_seconds", config.overlap_seconds as i64);
    push_number_field(&mut entries, "min_chunk_seconds", config.min_chunk_seconds as i64);
    push_number_field(&mut entries, "max_output_tokens", config.max_output_tokens as i64);
    push_number_field(&mut entries, "split_output_tokens", config.split_output_tokens as i64);
    push_number_field(&mut entries, "parallel_requests", config.parallel_requests as i64);
    push_number_field(&mut entries, "retries", config.retries as i64);
    push_number_field(&mut entries, "max_adaptive_depth", config.max_adaptive_depth as i64);
    push_number_field(&mut entries, "max_http_attempts", config.max_http_attempts as i64);
    push_number_field(&mut entries, "max_temp_bytes", config.max_temp_bytes as i64);
    push_number_field(&mut entries, "max_speakers", config.max_speakers as i64);
    push_number_field(
        &mut entries,
        "speaker_reference_seconds",
        config.speaker_reference_seconds as i64,
    );
    push_number_field(
        &mut entries,
        "speaker_reference_silence_seconds",
        config.speaker_reference_silence_seconds as i64,
    );
    push_number_field(&mut entries, "speaker_context_chars", config.speaker_context_chars as i64);
    push_number_field(&mut entries, "max_transcript_bytes", config.max_transcript_bytes as i64);
    push_number_field(&mut entries, "max_total_turns", config.max_total_turns as i64);
    assert(saved_parts(entries@) =~= written(config@));
    entries
}

// ---------------------------------------------------------------------------
// The file
// ---------------------------------------------------------------------------

/// A text of visible characters of ASCII other than quotes.
pub open spec fn is_visible(text: Seq<char>) -> bool {
    forall|i: int| 0 <= i < text.len() ==> is_visible_char(#[trigger] text[i])
}

pub open spec fn is_visible_char(c: char) -> bool {
    '!' <= c <= '~' && c != '\'' && c != '"'
}

/// No two fields have the same name, and the texts and names are of visible
/// characters other than quotes.
pub open spec fn is_plain_file(entries: Fields) -> bool {
    &&& forall|i: int, j: int|
        0 <= i < j < entries.len() ==> (#[trigger] entries[i]).0 != (#[trigger] entries[j]).0
    &&& forall|i: int|
        0 <= i < entries.len() ==> is_visible((#[trigger] entries[i]).0) && match entries[i].1 {
            Some(text) => is_visible(text),
            None => true,
        }
}

/// The text in TOML that writes fields.
pub uninterp spec fn toml_text_of(
    entries: Seq<(Seq<char>, Option<Seq<char>>, Option<int>)>,
) -> Option<Seq<char>>;

/// `toml::to_string_pretty` of a `toml::Table` with the fields in their order:
/// a function of the fields. Reading what was written gives the same fields in
/// the same order. It is called only with fields of different names whose names
/// and texts are of visible characters without quotes: in the writer a long run
/// of quotes overflows a counter.
#[verifier::external_body]
fn write_toml(entries: &Vec<SavedEntry>) -> (text: Option<String>)
    requires
        is_plain_file(saved_parts(entries@)),
    ensures
        match text {
            Some(text) => toml_text_of(saved_parts(entries@)) == Some(text@) && toml_entries(text@)
                == Some(saved_parts(entries@)),
            None => toml_text_of(saved_parts(entries@)) is None,
        },
{
    let fields = entries.iter().map(|entry| match &entry.value {
        SavedValue::Text(text) => (entry.name.clone(), toml::Value::String(text.clone())),
        SavedValue::Number(number) => (entry.name.clone(), toml::Value::Integer(*number)),
    });
    toml::to_string_pretty(&fields.collect::<toml::Table>()).ok()
}

/// Writes settings as the text of a file. Reading the text gives the settings
/// back.
pub fn encode_config(config: &Config) -> (result: Result<String, ConfigError>)
    ensures
        match result {
            Ok(text) => {
                &&& config@.valid()
                &&& toml_text_of(written(config@)) == Some(text@)
                &&& toml_entries(text@) == Some(written(config@))
                &&& decoded(written(config@)) == Ok::<(ConfigText, bool), ConfigError>(
                    (config@, false),
                )
            },
            Err(fault) => if config@.valid() {
                fault == ConfigError::Unwritable && toml_text_of(written(config@)) is None
            } else {
                config@.fault() == Some(fault)
            },
        },
{
    if let Err(fault) = config.validate() {
        return Err(fault);
    }
    let entries = encode_entries(config);
    proof {
        lemma_plain_file(config@);
        lemma_read_back(config@);
    }
    match write_toml(&entries) {
        Some(text) => Ok(text),
        None => Err(ConfigError::Unwritable),
    }
}

// ---------------------------------------------------------------------------
// Laws
// ---------------------------------------------------------------------------

/// The place of a name among the fields of a file.
spec fn place_of(name: Seq<char>) -> int {
    if name == "schema_version"@ {
        0
    } else if name == "model"@ {
        1
    } else if name == "quality_review_model"@ {
        2
    } else if name == "asr_model"@ {
        3
    } else if name == "quality_asr_model"@ {
        4
    } else if name == "provider"@ {
        5
    } else if name == "asr_provider"@ {
        6
    } else if name == "quality_asr_provider"@ {
        7
    } else if name == "chunk_seconds"@ {
        8
    } else if name == "overlap_seconds"@ {
        9
    } else if name == "min_chunk_seconds"@ {
        10
    } else if name == "max_output_tokens"@ {
        11
    } else if name == "split_output_tokens"@ {
        12
    } else if name == "parallel_requests"@ {
        13
    } else if name == "retries"@ {
        14
    } else if name == "max_adaptive_depth"@ {
        15
    } else if name == "max_http_attempts"@ {
        16
    } else if name == "max_temp_bytes"@ {
        17
    } else if name == "max_speakers"@ {
        18
    } else if name == "speaker_reference_seconds"@ {
        19
    } else if name == "speaker_reference_silence_seconds"@ {
        20
    } else if name == "speaker_context_chars"@ {
        21
    } else if name == "max_transcript_bytes"@ {
        22
    } else if name == "max_total_turns"@ {
        23
    } else {
        -1
    }
}

proof fn lemma_places(config: ConfigText)
    ensures
        forall|i: int|
            0 <= i < written(config).len() ==> place_of((#[trigger] written(config)[i]).0) == i,
        written(config).len() == 24,
{
    reveal_strlit("schema_version");
    reveal_strlit("model");
    reveal_strlit("quality_review_model");
    reveal_strlit("asr_model");
    reveal_strlit("quality_asr_model");
    reveal_strlit("provider");
    reveal_strlit("asr_provider");
    reveal_strlit("quality_asr_provider");
    reveal_strlit("chunk_seconds");
    reveal_strlit("overlap_seconds");
    reveal_strlit("min_chunk_seconds");
    reveal_strlit("max_output_tokens");
    reveal_strlit("split_output_tokens");
    reveal_strlit("parallel_requests");
    reveal_strlit("retries");
    reveal_strlit("max_adaptive_depth");
    reveal_strlit("max_http_attempts");
    reveal_strlit("max_temp_bytes");
    reveal_strlit("max_speakers");
    reveal_strlit("speaker_reference_seconds");
    reveal_strlit("speaker_reference_silence_seconds");
    reveal_strlit("speaker_context_chars");
    reveal_strlit("max_transcript_bytes");
    reveal_strlit("max_total_turns");
    assert("schema_version"@.len() == 14);
    assert("model"@.len() == 5);
    assert("quality_review_model"@.len() == 20);
    assert("asr_model"@.len() == 9);
    assert("quality_asr_model"@.len() == 17);
    assert("provider"@.len() == 8);
    assert("asr_provider"@.len() == 12);
    assert("quality_asr_provider"@.len() == 20);
    assert("chunk_seconds"@.len() == 13);
    assert("overlap_seconds"@.len() == 15);
    assert("min_chunk_seconds"@.len() == 17);
    assert("max_output_tokens"@.len() == 17);
    assert("split_output_tokens"@.len() == 19);
    assert("parallel_requests"@.len() == 17);
    assert("retries"@.len() == 7);
    assert("max_adaptive_depth"@.len() == 18);
    assert("max_http_attempts"@.len() == 17);
    assert("max_temp_bytes"@.len() == 14);
    assert("max_speakers"@.len() == 12);
    assert("speaker_reference_seconds"@.len() == 25);
    assert("speaker_reference_silence_seconds"@.len() == 33);
    assert("speaker_context_chars"@.len() == 21);
    assert("max_transcript_bytes"@.len() == 20);
    assert("max_total_turns"@.len() == 15);
    assert("asr_provider"@[0] == 'a');
    assert("max_speakers"@[0] == 'm');
    assert("schema_version"@[0] == 's');
    assert("max_temp_bytes"@[0] == 'm');
    assert("overlap_seconds"@[0] == 'o');
    assert("max_total_turns"@[0] == 'm');
    assert("quality_asr_model"@[4] == 'i');
    assert("min_chunk_seconds"@[4] == 'c');
    assert("max_output_tokens"@[4] == 'o');
    assert("parallel_requests"@[4] == 'l');
    assert("max_http_attempts"@[4] == 'h');
    assert("quality_review_model"@[8] == 'r');
    assert("quality_asr_provider"@[8] == 'a');
    assert("max_transcript_bytes"@[8] == 's');
    assert(place_of("schema_version"@) == 0);
    assert(place_of("model"@) == 1);
    assert(place_of("quality_review_model"@) == 2);
    assert(place_of("asr_model"@) == 3);
    assert(place_of("quality_asr_model"@) == 4);
    assert(place_of("provider"@) == 5);
    assert(place_of("asr_provider"@) == 6);
    assert(place_of("quality_asr_provider"@) == 7);
    assert(place_of("chunk_seconds"@) == 8);
    assert(place_of("overlap_seconds"@) == 9);
    assert(place_of("min_chunk_seconds"@) == 10);
    assert(place_of("max_output_tokens"@) == 11);
    assert(place_of("split_output_tokens"@) == 12);
    assert(place_of("parallel_requests"@) == 13);
    assert(place_of("retries"@) == 14);
    assert(place_of("max_adaptive_depth"@) == 15);
    assert(place_of("max_http_attempts"@) == 16);
    assert(place_of("max_temp_bytes"@) == 17);
    assert(place_of("max_speakers"@) == 18);
    assert(place_of("speaker_reference_seconds"@) == 19);
    assert(place_of("speaker_reference_silence_seconds"@) == 20);
    assert(place_of("speaker_context_chars"@) == 21);
    assert(place_of("max_transcript_bytes"@) == 22);
    assert(place_of("max_total_turns"@) == 23);
}

/// A field that no field before it shares its name with is found.
proof fn lemma_found(
    entries: Fields,
    from: int,
    at: int,
)
    requires
        0 <= from <= at < entries.len(),
        forall|i: int| from <= i < at ==> (#[trigger] entries[i]).0 != entries[at].0,
    ensures
        entry_position(entries, entries[at].0, from) == at,
    decreases at - from,
{
    if from < at {
        lemma_found(entries, from + 1, at);
    }
}

proof fn lemma_fields_found(config: ConfigText)
    ensures
        forall|i: int|
            0 <= i < written(config).len() ==> entry_position(
                written(config),
                (#[trigger] written(config)[i]).0,
                0,
            ) == i,
{
    let entries = written(config);
    lemma_places(config);
    assert forall|at: int| 0 <= at < entries.len() implies entry_position(
        entries,
        (#[trigger] entries[at]).0,
        0,
    ) == at by {
        assert forall|i: int| 0 <= i < at implies (#[trigger] entries[i]).0 != entries[at].0 by {
            assert(place_of(entries[i].0) == i);
            assert(place_of(entries[at].0) == at);
        }
        lemma_found(entries, 0, at);
    }
}

/// The entry of a name is the one at a place.
spec fn stands_at(entries: Fields, name: Seq<char>, at: int) -> bool {
    has_entry(entries, name) && entry_of(entries, name) == entries[at]
}

/// A field of each name is there, with its value.
proof fn lemma_fields(config: ConfigText)
    ensures
        stands_at(written(config), "schema_version"@, 0),
        stands_at(written(config), "model"@, 1),
        stands_at(written(config), "quality_review_model"@, 2),
        stands_at(written(config), "asr_model"@, 3),
        stands_at(written(config), "quality_asr_model"@, 4),
        stands_at(written(config), "provider"@, 5),
        stands_at(written(config), "asr_provider"@, 6),
        stands_at(written(config), "quality_asr_provider"@, 7),
        stands_at(written(config), "chunk_seconds"@, 8),
        stands_at(written(config), "overlap_seconds"@, 9),
        stands_at(written(config), "min_chunk_seconds"@, 10),
        stands_at(written(config), "max_output_tokens"@, 11),
        stands_at(written(config), "split_output_tokens"@, 12),
        stands_at(written(config), "parallel_requests"@, 13),
        stands_at(written(config), "retries"@, 14),
        stands_at(written(config), "max_adaptive_depth"@, 15),
        stands_at(written(config), "max_http_attempts"@, 16),
        stands_at(written(config), "max_temp_bytes"@, 17),
        stands_at(written(config), "max_speakers"@, 18),
        stands_at(written(config), "speaker_reference_seconds"@, 19),
        stands_at(written(config), "speaker_reference_silence_seconds"@, 20),
        stands_at(written(config), "speaker_context_chars"@, 21),
        stands_at(written(config), "max_transcript_bytes"@, 22),
        stands_at(written(config), "max_total_turns"@, 23),
{
    let entries = written(config);
    lemma_places(config);
    lemma_fields_found(config);
    assert(entries[0].0 == "schema_version"@);
    assert(entries[1].0 == "model"@);
    assert(entries[2].0 == "quality_review_model"@);
    assert(entries[3].0 == "asr_model"@);
    assert(entries[4].0 == "quality_asr_model"@);
    assert(entries[5].0 == "provider"@);
    assert(entries[6].0 == "asr_provider"@);
    assert(entries[7].0 == "quality_asr_provider"@);
    assert(entries[8].0 == "chunk_seconds"@);
    assert(entries[9].0 == "overlap_seconds"@);
    assert(entries[10].0 == "min_chunk_seconds"@);
    assert(entries[11].0 == "max_output_tokens"@);
    assert(entries[12].0 == "split_output_tokens"@);
    assert(entries[13].0 == "parallel_requests"@);
    assert(entries[14].0 == "retries"@);
    assert(entries[15].0 == "max_adaptive_depth"@);
    assert(entries[16].0 == "max_http_attempts"@);
    assert(entries[17].0 == "max_temp_bytes"@);
    assert(entries[18].0 == "max_speakers"@);
    assert(entries[19].0 == "speaker_reference_seconds"@);
    assert(entries[20].0 == "speaker_reference_silence_seconds"@);
    assert(entries[21].0 == "speaker_context_chars"@);
    assert(entries[22].0 == "max_transcript_bytes"@);
    assert(entries[23].0 == "max_total_turns"@);
}

/// Reading the fields of settings that hold gives the settings back, as those
/// of today's version.
pub proof fn lemma_read_back(config: ConfigText)
    requires
        config.valid(),
    ensures
        decoded(written(config)) == Ok::<(ConfigText, bool), ConfigError>((config, false)),
{
    let entries = written(config);
    lemma_fields(config);
    assert(fields_known(entries, false)) by {
        assert forall|i: int| 0 <= i < entries.len() implies is_config_field(
            #[trigger] entries[i].0,
        ) by {
            lemma_places(config);
            assert(place_of(entries[i].0) == i);
        }
    }
    assert(file_version(entries) == Some(4u32));
    assert(config_typed(entries));
    assert(config_of(entries) == config);
}

proof fn lemma_route_visible(text: Seq<char>)
    requires
        crate::config::provider_fault(text) is None,
    ensures
        is_visible(text),
{
    if crate::config::is_any_provider(text) {
        reveal_strlit("any");
        assert forall|i: int| 0 <= i < text.len() implies is_visible_char(#[trigger] text[i]) by {
            assert(lowercased(text).len() == text.len());
            assert(lowercased(text)[i] == "any"@[i]);
        }
    } else {
        assert forall|i: int| 0 <= i < text.len() implies is_visible_char(#[trigger] text[i]) by {
            assert(is_route_char(text[i]));
        }
    }
}

proof fn lemma_plain_file(config: ConfigText)
    requires
        config.valid(),
    ensures
        is_plain_file(written(config)),
{
    let entries = written(config);
    lemma_places(config);
    assert forall|i: int, j: int| 0 <= i < j < entries.len() implies (#[trigger] entries[i]).0 != (
    #[trigger] entries[j]).0 by {
        assert(place_of(entries[i].0) == i);
        assert(place_of(entries[j].0) == j);
    }
    lemma_route_visible(config.model);
    lemma_route_visible(config.quality_review_model);
    lemma_route_visible(config.asr_model);
    lemma_route_visible(config.quality_asr_model);
    lemma_route_visible(config.provider);
    lemma_route_visible(config.asr_provider);
    lemma_route_visible(config.quality_asr_provider);
    reveal_strlit("schema_version");
    reveal_strlit("model");
    reveal_strlit("quality_review_model");
    reveal_strlit("asr_model");
    reveal_strlit("quality_asr_model");
    reveal_strlit("provider");
    reveal_strlit("asr_provider");
    reveal_strlit("quality_asr_provider");
    reveal_strlit("chunk_seconds");
    reveal_strlit("overlap_seconds");
    reveal_strlit("min_chunk_seconds");
    reveal_strlit("max_output_tokens");
    reveal_strlit("split_output_tokens");
    reveal_strlit("parallel_requests");
    reveal_strlit("retries");
    reveal_strlit("max_adaptive_depth");
    reveal_strlit("max_http_attempts");
    reveal_strlit("max_temp_bytes");
    reveal_strlit("max_speakers");
    reveal_strlit("speaker_reference_seconds");
    reveal_strlit("speaker_reference_silence_seconds");
    reveal_strlit("speaker_context_chars");
    reveal_strlit("max_transcript_bytes");
    reveal_strlit("max_total_turns");
    assert(is_visible("schema_version"@));
    assert(is_visible("model"@));
    assert(is_visible("quality_review_model"@));
    assert(is_visible("asr_model"@));
    assert(is_visible("quality_asr_model"@));
    assert(is_visible("provider"@));
    assert(is_visible("asr_provider"@));
    assert(is_visible("quality_asr_provider"@));
    assert(is_visible("chunk_seconds"@));
    assert(is_visible("overlap_seconds"@));
    assert(is_visible("min_chunk_seconds"@));
    assert(is_visible("max_output_tokens"@));
    assert(is_visible("split_output_tokens"@));
    assert(is_visible("parallel_requests"@));
    assert(is_visible("retries"@));
    assert(is_visible("max_adaptive_depth"@));
    assert(is_visible("max_http_attempts"@));
    assert(is_visible("max_temp_bytes"@));
    assert(is_visible("max_speakers"@));
    assert(is_visible("speaker_reference_seconds"@));
    assert(is_visible("speaker_reference_silence_seconds"@));
    assert(is_visible("speaker_context_chars"@));
    assert(is_visible("max_transcript_bytes"@));
    assert(is_visible("max_total_turns"@));
    assert forall|i: int| 0 <= i < entries.len() implies is_visible((#[trigger] entries[i]).0)
        && match entries[i].1 {
        Some(text) => is_visible(text),
        None => true,
    } by {
        assert(place_of(entries[i].0) == i);
    }
}

} // verus!
