//! Which settings hold, and what becomes of those of earlier versions.
use vstd::prelude::*;
use vstd::utf8::*;
use crate::config::{is_any_provider, model_fault, provider_fault, route_fault, ConfigText};
use crate::text::{byte_len, lemma_position_of, lowercased, parts_of, position_of};

verus! {

// ---------------------------------------------------------------------------
// Numbers
// ---------------------------------------------------------------------------

/// The bounds of the numbers.
pub open spec fn numbers_in_bounds(config: ConfigText) -> bool {
    &&& 30 <= config.chunk_seconds <= 900
    &&& 5 <= config.overlap_seconds <= 30
    &&& config.overlap_seconds < config.chunk_seconds
    &&& 10 <= config.min_chunk_seconds <= 300
    &&& 2 * config.min_chunk_seconds <= config.chunk_seconds
    &&& 256 <= config.max_output_tokens <= 65_536
    &&& 128 <= config.split_output_tokens < config.max_output_tokens
    &&& config.parallel_requests == 1
    &&& 1 <= config.retries <= 10
    &&& 1 <= config.max_adaptive_depth <= 6
    &&& 1 <= config.max_http_attempts <= 10_000
    &&& 67_108_864 <= config.max_temp_bytes <= 107_374_182_400
    &&& 1 <= config.max_speakers <= 32
    &&& 2 <= config.speaker_reference_seconds <= 10
    &&& 1 <= config.speaker_reference_silence_seconds <= 5
    &&& 500 <= config.speaker_context_chars <= 20_000
    &&& 1_048_576 <= config.max_transcript_bytes <= 1_073_741_824
    &&& 1_000 <= config.max_total_turns <= 1_000_000
}

/// Settings hold exactly where they are of the fourth version, their numbers
/// are in bounds, and each of their seven routes can be used.
pub proof fn lemma_valid_settings(config: ConfigText)
    ensures
        config.valid() <==> config.schema_version == 4 && numbers_in_bounds(config) && model_fault(
            config.model,
        ) is None && model_fault(config.quality_review_model) is None && model_fault(
            config.asr_model,
        ) is None && model_fault(config.quality_asr_model) is None && provider_fault(
            config.provider,
        ) is None && provider_fault(config.asr_provider) is None && provider_fault(
            config.quality_asr_provider,
        ) is None,
{
}

/// Sound is recognised in stretches of two minutes, or of the length that was
/// chosen where that is shorter.
pub proof fn lemma_stretches(config: ConfigText)
    requires
        config.valid(),
    ensures
        config.chunk_seconds <= 120 ==> config.asr_chunk_seconds() == config.chunk_seconds
            && config.asr_min_chunk_seconds() == config.min_chunk_seconds,
        config.chunk_seconds >= 120 ==> config.asr_chunk_seconds() == 120,
        config.min_chunk_seconds <= 60 && config.chunk_seconds >= 120
            ==> config.asr_min_chunk_seconds() == config.min_chunk_seconds,
        config.min_chunk_seconds >= 60 && config.chunk_seconds >= 120
            ==> config.asr_min_chunk_seconds() == 60,
{
}

// ---------------------------------------------------------------------------
// Routes
// ---------------------------------------------------------------------------

/// The characters of a route.
pub open spec fn may_name_route(c: char) -> bool {
    ('a' <= c <= 'z') || ('A' <= c <= 'Z') || ('0' <= c <= '9') || c == '-' || c == '_' || c == '.'
        || c == '/' || c == ':' || c == '@' || c == '~'
}

/// A part of a route: letters, digits and marks, not a slash, and not one or
/// two points alone.
pub open spec fn is_part(part: Seq<char>) -> bool {
    &&& part.len() > 0
    &&& part != seq!['.']
    &&& part != seq!['.', '.']
    &&& forall|i: int| 0 <= i < part.len() ==> may_name_route(#[trigger] part[i]) && part[i] != '/'
}

proof fn lemma_route_bytes(value: Seq<char>)
    requires
        forall|i: int| 0 <= i < value.len() ==> may_name_route(#[trigger] value[i]),
    ensures
        byte_len(value) == value.len(),
{
    assert forall|i: int| 0 <= i < value.len() implies '\0' <= #[trigger] value[i] <= '\u{7f}' by {
        assert(may_name_route(value[i]));
    }
    is_ascii_chars_encode_utf8(value);
}

proof fn lemma_one_part(part: Seq<char>)
    requires
        forall|i: int| 0 <= i < part.len() ==> #[trigger] part[i] != '/',
    ensures
        parts_of(part, '/') == seq![part],
        position_of(part, '/', 0) == part.len(),
{
    lemma_position_of(part, '/', 0, part.len() as int);
}

proof fn lemma_two_parts(left: Seq<char>, right: Seq<char>)
    requires
        forall|i: int| 0 <= i < left.len() ==> #[trigger] left[i] != '/',
        forall|i: int| 0 <= i < right.len() ==> #[trigger] right[i] != '/',
    ensures
        parts_of(left + seq!['/'] + right, '/') == seq![left, right],
        position_of(left + seq!['/'] + right, '/', 0) == left.len(),
{
    let value = left + seq!['/'] + right;
    assert forall|i: int| 0 <= i < left.len() implies #[trigger] value[i] != '/' by {
        assert(value[i] == left[i]);
    }
    assert(value[left.len() as int] == '/');
    lemma_position_of(value, '/', 0, left.len() as int);
    assert(value.take(left.len() as int) =~= left);
    assert(value.skip(left.len() as int + 1) =~= right);
    lemma_one_part(right);
    assert(parts_of(value, '/') =~= seq![left, right]);
}

/// A vendor, a slash and a name are a model, up to 256 characters; a name alone
/// is none, but may be a provider.
pub proof fn lemma_model_names(vendor: Seq<char>, name: Seq<char>)
    requires
        is_part(vendor),
        is_part(name),
    ensures
        model_fault(vendor + seq!['/'] + name) is None <==> vendor.len() + 1 + name.len() <= 256,
        provider_fault(vendor + seq!['/'] + name) is None <==> vendor.len() + 1 + name.len() <= 256,
        model_fault(name) is Some,
        provider_fault(name) is None <==> name.len() <= 256,
{
    let value = vendor + seq!['/'] + name;
    assert forall|i: int| 0 <= i < value.len() implies may_name_route(#[trigger] value[i]) by {
        if i < vendor.len() {
            assert(value[i] == vendor[i]);
        } else if i > vendor.len() {
            assert(value[i] == name[i - vendor.len() - 1]);
        }
    }
    lemma_route_bytes(value);
    lemma_route_bytes(name);
    lemma_two_parts(vendor, name);
    lemma_one_part(name);
    assert(parts_of(value, '/')[0] == vendor);
    assert(parts_of(value, '/')[1] == name);
    assert(parts_of(name, '/')[0] == name);
    lemma_any_is_a_word(value);
    lemma_any_is_a_word(name);
}

/// `any` has three letters and no slash.
proof fn lemma_any_is_a_word(value: Seq<char>)
    ensures
        is_any_provider(value) ==> value.len() == 3 && !value.contains('/'),
{
    reveal_strlit("any");
    if is_any_provider(value) {
        assert(lowercased(value).len() == 3);
        assert forall|i: int| 0 <= i < value.len() implies #[trigger] value[i] != '/' by {
            assert(lowercased(value)[i] == "any"@[i]);
        }
    }
}

/// A route that can be used holds letters, digits and a few marks alone, is not
/// empty and not too long, and never climbs with points.
pub proof fn lemma_routes_are_plain(value: Seq<char>, i: int)
    requires
        route_fault(value) is None,
    ensures
        0 < value.len() <= 256,
        0 <= i < value.len() ==> may_name_route(value[i]),
        0 <= i < parts_of(value, '/').len() ==> parts_of(value, '/')[i].len() > 0 && parts_of(
            value,
            '/',
        )[i] != seq!['.'] && parts_of(value, '/')[i] != seq!['.', '.'],
{
    assert forall|k: int| 0 <= k < value.len() implies may_name_route(#[trigger] value[k]) by {}
    lemma_route_bytes(value);
}

// ---------------------------------------------------------------------------
// Earlier versions
// ---------------------------------------------------------------------------

/// Settings of the first version keep what was chosen: the routes, the number
/// of tries, the room, and every length of a stretch but that which nobody
/// chose, up to a quarter of an hour; one request is made at a time.
pub proof fn lemma_first_version(config: ConfigText)
    ensures
        ({
            let now = config.migrated_v1();
            &&& now.schema_version == 4
            &&& now.provider == config.provider
            &&& now.retries == config.retries
            &&& now.max_adaptive_depth == config.max_adaptive_depth
            &&& now.max_http_attempts == config.max_http_attempts
            &&& now.max_temp_bytes == config.max_temp_bytes
            &&& now.max_speakers == config.max_speakers
            &&& now.parallel_requests == 1
            &&& config.model != "google/gemini-3.5-flash-lite"@ ==> now.model == config.model
            &&& config.model == "google/gemini-3.5-flash-lite"@ ==> now.model
                == "google/gemini-3.7-flash"@
            &&& now.quality_review_model == now.model
            &&& config.chunk_seconds == 300 ==> now.chunk_seconds == 900
            &&& config.chunk_seconds != 300 && config.chunk_seconds <= 900 ==> now.chunk_seconds
                == config.chunk_seconds
            &&& config.chunk_seconds > 900 ==> now.chunk_seconds == 900
            &&& config.max_output_tokens == 6_000 && config.split_output_tokens == 5_000
                ==> now.max_output_tokens == 16_000 && now.split_output_tokens == 12_000
            &&& !(config.max_output_tokens == 6_000 && config.split_output_tokens == 5_000)
                ==> now.max_output_tokens == config.max_output_tokens && now.split_output_tokens
                == config.split_output_tokens
        }),
{
}

/// The lengths of settings of the first version fit one another after the
/// change: the stretches overlap by a sixth, within bounds, and can be cut in
/// two.
pub proof fn lemma_first_version_fits(config: ConfigText)
    requires
        config.chunk_seconds >= 30,
    ensures
        ({
            let now = config.migrated_v1();
            &&& 30 <= now.chunk_seconds <= 900
            &&& 5 <= now.overlap_seconds <= 30
            &&& now.overlap_seconds < now.chunk_seconds
            &&& 10 <= now.min_chunk_seconds <= 300
            &&& 2 * now.min_chunk_seconds <= now.chunk_seconds
            &&& now.chunk_seconds >= 180 ==> now.overlap_seconds == 30
            &&& now.chunk_seconds < 180 ==> now.overlap_seconds == now.chunk_seconds / 6
            &&& 10 <= config.min_chunk_seconds <= 300 && 2 * config.min_chunk_seconds
                <= now.chunk_seconds ==> now.min_chunk_seconds == config.min_chunk_seconds
        }),
{
}

/// Settings of the second and the third version keep what was chosen, and get
/// today's routes for recognition.
pub proof fn lemma_later_versions(config: ConfigText)
    ensures
        ({
            let second = config.migrated_v2();
            let third = config.migrated_v3();
            &&& second.schema_version == 4
            &&& third.schema_version == 4
            &&& second.asr_model == "qwen/qwen3-asr-1.7b"@
            &&& second.quality_asr_model == "fish-audio/transcribe-1"@
            &&& second.asr_provider == "deepinfra"@
            &&& second.quality_asr_provider == "fish-audio"@
            &&& third.asr_model == second.asr_model
            &&& third.quality_asr_model == second.quality_asr_model
            &&& third.asr_provider == second.asr_provider
            &&& third.quality_asr_provider == second.quality_asr_provider
            &&& second.provider == config.provider
            &&& third.provider == config.provider
            &&& second.chunk_seconds == config.chunk_seconds
            &&& third.chunk_seconds == config.chunk_seconds
            &&& second.min_chunk_seconds == config.min_chunk_seconds
            &&& third.overlap_seconds == config.overlap_seconds
            &&& third.quality_review_model == config.quality_review_model
            &&& second.quality_review_model == second.model
            &&& config.overlap_seconds <= 30 && config.overlap_seconds < config.chunk_seconds
                ==> second.overlap_seconds == config.overlap_seconds
            &&& config.overlap_seconds > 30 && config.chunk_seconds > 30 ==> second.overlap_seconds
                == 30
            &&& config.model != "google/gemini-3.5-flash-lite"@ ==> second.model == config.model
                && third.model == config.model
            &&& config.model == "google/gemini-3.5-flash-lite"@ ==> second.model
                == "google/gemini-3.7-flash"@
            &&& config.model == "google/gemini-3.5-flash-lite"@ && config.quality_review_model
                == "google/gemini-3.7-flash"@ ==> third.model == "google/gemini-3.7-flash"@
            &&& config.quality_review_model != "google/gemini-3.7-flash"@ ==> third.model
                == config.model
            &&& second.retries == config.retries && third.retries == config.retries
            &&& second.max_speakers == config.max_speakers && third.max_speakers
                == config.max_speakers
        }),
{
}

} // verus!
