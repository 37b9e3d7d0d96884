//! What is sent, and which replies are taken.
use vstd::prelude::*;
use crate::asr::content_of;
use crate::config::{is_any_provider, ConfigText};
use crate::json::{field, field_from, items_in, natural_in, text_in, Json};
use crate::openrouter::accounting::is_provider_name;
use crate::openrouter::chat::{
    chat_outcome, content_text, message_text, plain_name, vendor_of, ChatReply, ChatResponse,
    ChatStepView,
};
use crate::openrouter::request::{
    is_chat_payload, is_pinned_route, language_fault, prompt_minutes, stt_format_fault,
};
use crate::openrouter::stt::{
    segment_fault, segments_fault, segments_text, stt_fault, word_fault, words_fault, SttResponse,
    SttSegment, SttWord,
};
use crate::text::{
    is_white_space, lemma_trimmed_empty, lemma_trimmed_end_prefix, lemma_trimmed_start_suffix,
    lower_char, lowercased, optional_text, starts_with, trimmed, trimmed_start,
};

verus! {

// ---------------------------------------------------------------------------
// Requests
// ---------------------------------------------------------------------------

proof fn lemma_field_at(fields: Seq<(String, Json)>, name: Seq<char>, from: int, at: int)
    requires
        0 <= from <= at < fields.len(),
        fields[at].0@ == name,
        forall|k: int| from <= k < at ==> (#[trigger] fields[k]).0@ != name,
    ensures
        field_from(fields, name, from) == Some(fields[at].1),
    decreases at - from,
{
    if from < at {
        lemma_field_at(fields, name, from + 1, at);
    }
}

proof fn lemma_no_field(fields: Seq<(String, Json)>, name: Seq<char>, from: int)
    requires
        0 <= from,
        forall|k: int| from <= k < fields.len() ==> (#[trigger] fields[k]).0@ != name,
    ensures
        field_from(fields, name, from) is None,
    decreases fields.len() - from,
{
    if from < fields.len() {
        lemma_no_field(fields, name, from + 1);
    }
}

/// What a route says that is fixed: one provider and no other in its place, all
/// parameters taken, no data collected and none kept.
pub open spec fn keeps_to_provider(route: Json, provider: Seq<char>) -> bool {
    &&& items_in(field(route, "only"@)) is Some
    &&& (items_in(field(route, "only"@))->0).len() == 1
    &&& text_in(Some((items_in(field(route, "only"@))->0)[0])) == Some(provider)
    &&& field(route, "allow_fallbacks"@) == Some(Json::Bool(false))
    &&& field(route, "require_parameters"@) == Some(Json::Bool(true))
    &&& text_in(field(route, "data_collection"@)) == Some("deny"@)
    &&& field(route, "zdr"@) == Some(Json::Bool(true))
}

proof fn lemma_route_names()
    ensures
        "only"@ != "allow_fallbacks"@ && "only"@ != "require_parameters"@ && "only"@
            != "data_collection"@ && "only"@ != "zdr"@,
        "allow_fallbacks"@ != "require_parameters"@ && "allow_fallbacks"@ != "data_collection"@
            && "allow_fallbacks"@ != "zdr"@,
        "require_parameters"@ != "data_collection"@ && "require_parameters"@ != "zdr"@,
        "data_collection"@ != "zdr"@,
{
    reveal_strlit("only");
    reveal_strlit("allow_fallbacks");
    reveal_strlit("require_parameters");
    reveal_strlit("data_collection");
    reveal_strlit("zdr");
    assert("only"@[0] == 'o' && "allow_fallbacks"@[0] == 'a' && "require_parameters"@[0] == 'r'
        && "data_collection"@[0] == 'd' && "zdr"@[0] == 'z');
}

proof fn lemma_pinned(route: Json, provider: Seq<char>)
    requires
        is_pinned_route(route, provider),
    ensures
        keeps_to_provider(route, provider),
{
    lemma_route_names();
    if let Json::Object(fields) = route {
        lemma_field_at(fields@, "only"@, 0, 0);
        lemma_field_at(fields@, "allow_fallbacks"@, 0, 1);
        lemma_field_at(fields@, "require_parameters"@, 0, 2);
        lemma_field_at(fields@, "data_collection"@, 0, 3);
        lemma_field_at(fields@, "zdr"@, 0, 4);
    }
}

proof fn lemma_payload_names()
    ensures
        "model"@ != "messages"@ && "model"@ != "max_tokens"@ && "model"@ != "seed"@ && "model"@
            != "reasoning"@ && "model"@ != "response_format"@ && "model"@ != "provider"@,
        "messages"@ != "max_tokens"@ && "messages"@ != "provider"@,
        "max_tokens"@ != "provider"@,
        "seed"@ != "provider"@ && "seed"@ != "response_format"@ && "seed"@ != "model"@,
        "reasoning"@ != "provider"@ && "reasoning"@ != "response_format"@,
        "response_format"@ != "provider"@ && "messages"@ != "response_format"@ && "max_tokens"@
            != "response_format"@,
{
    reveal_strlit("model");
    reveal_strlit("messages");
    reveal_strlit("max_tokens");
    reveal_strlit("seed");
    reveal_strlit("reasoning");
    reveal_strlit("response_format");
    reveal_strlit("provider");
    assert("model"@.len() == 5 && "messages"@.len() == 8 && "max_tokens"@.len() == 10);
    assert("seed"@.len() == 4 && "reasoning"@.len() == 9 && "response_format"@.len() == 15);
    assert("provider"@.len() == 8 && "provider"@[0] == 'p' && "messages"@[0] == 'm');
}

/// A chat request names its model and its limit; it is held to its provider
/// unless any may serve, and then it names none; and it asks for a form of the
/// answer exactly where one is given.
pub proof fn lemma_request_keeps_to_provider(
    payload: Json,
    config: ConfigText,
    content: Json,
    response_format: Option<Json>,
)
    requires
        is_chat_payload(payload, config, content, response_format),
    ensures
        text_in(field(payload, "model"@)) == Some(config.model),
        natural_in(field(payload, "max_tokens"@)) == Some(config.max_output_tokens as u64),
        lowercased(config.provider) == "any"@ ==> field(payload, "provider"@) is None,
        lowercased(config.provider) != "any"@ ==> field(payload, "provider"@) is Some
            && keeps_to_provider(field(payload, "provider"@)->0, config.provider),
        field(payload, "response_format"@) == response_format,
{
    lemma_payload_names();
    if let Json::Object(fields) = payload {
        let list = fields@;
        lemma_field_at(list, "model"@, 0, 0);
        lemma_field_at(list, "max_tokens"@, 0, 2);
        let at_format: int = if config.model == crate::config::DEFAULT_MODEL@ {
            5
        } else {
            3
        };
        let at_route = if response_format is Some {
            at_format + 1
        } else {
            at_format
        };
        assert(forall|k: int|
            0 <= k < at_format ==> (#[trigger] list[k]).0@ != "provider"@ && list[k].0@
                != "response_format"@);
        if response_format is Some {
            lemma_field_at(list, "response_format"@, 0, at_format);
        } else {
            lemma_no_field(list, "response_format"@, 0);
        }
        if is_any_provider(config.provider) {
            lemma_no_field(list, "provider"@, 0);
        } else {
            lemma_field_at(list, "provider"@, 0, at_route);
            lemma_pinned(list[at_route].1, config.provider);
        }
    }
}

/// The minutes of a piece of sound reach to its end, and a minute less does
/// not.
pub proof fn lemma_minutes(duration_ms: u64)
    ensures
        prompt_minutes(duration_ms) >= 1,
        prompt_minutes(duration_ms) * 60_000 >= duration_ms,
        duration_ms > 0 ==> (prompt_minutes(duration_ms) - 1) * 60_000 < duration_ms,
{
}

/// A language is two small letters, and sound is sent in one of seven formats.
pub proof fn lemma_language_and_format(text: Seq<char>)
    ensures
        language_fault(text) is None <==> text.len() == 2 && 'a' <= text[0] <= 'z' && 'a' <= text[1]
            <= 'z',
        stt_format_fault(Some(text)) is None <==> lowercased(text) == "wav"@ || lowercased(text)
            == "mp3"@ || lowercased(text) == "flac"@ || lowercased(text) == "m4a"@ || lowercased(
            text,
        ) == "ogg"@ || lowercased(text) == "webm"@ || lowercased(text) == "aac"@,
        stt_format_fault(None) is Some,
{
}

// ---------------------------------------------------------------------------
// Chats
// ---------------------------------------------------------------------------

/// A text stands in another one with nothing but white space around it.
pub open spec fn is_core(core: Seq<char>, text: Seq<char>) -> bool {
    &&& core.len() > 0 ==> !is_white_space(core[0]) && !is_white_space(core.last())
    &&& exists|before: Seq<char>, behind: Seq<char>|
        #![trigger before + core + behind]
        text == before + core + behind && (forall|k: int|
            0 <= k < before.len() ==> is_white_space(#[trigger] before[k])) && forall|k: int|
            0 <= k < behind.len() ==> is_white_space(#[trigger] behind[k])
}

proof fn lemma_trimmed_is_core(text: Seq<char>)
    ensures
        is_core(trimmed(text), text),
{
    let rest = trimmed_start(text);
    let core = trimmed(text);
    lemma_trimmed_start_suffix(text);
    lemma_trimmed_end_prefix(rest);
    let n = text.len() - rest.len();
    let before = text.take(n);
    let behind = rest.skip(core.len() as int);
    assert(text =~= before + core + behind);
    assert forall|k: int| 0 <= k < behind.len() implies is_white_space(#[trigger] behind[k]) by {
        assert(behind[k] == rest[core.len() + k]);
    }
    assert forall|k: int| 0 <= k < before.len() implies is_white_space(#[trigger] before[k]) by {
        assert(before[k] == text[k]);
    }
    if core.len() > 0 {
        assert(core[0] == rest[0]);
    }
}

/// A reply is taken only where it reports no error, its first choice is
/// finished, and it has words; its text is then what the message says, without
/// the white space around it, and its tokens are those that it reports.
pub proof fn lemma_chat_reply_taken(
    config: ConfigText,
    response: ChatResponse,
    retry_after: Option<u64>,
    attempt: u32,
    maximum_attempts: u32,
)
    ensures
        match chat_outcome(
            config,
            ChatReply::Parsed { response, retry_after },
            attempt,
            maximum_attempts,
        ).step {
            ChatStepView::Complete(completion) => {
                &&& response.error is None
                &&& response.choices@.len() > 0
                &&& optional_text(response.choices@[0].finish_reason) == Some("stop"@)
                &&& completion.text.len() > 0
                &&& response.choices@[0].message is Some
                &&& match (response.choices@[0].message->0).content {
                    Json::Text(text) => is_core(completion.text, text@),
                    _ => true,
                }
                &&& response.model is Some ==> completion.model == (response.model->0)@
                    && completion.model == config.model
                &&& response.usage matches Some(usage) ==> (usage.prompt_tokens matches Some(n)
                    ==> n <= 1_000_000_000_000 ==> completion.prompt_tokens == n) && (
                usage.completion_tokens matches Some(n) ==> n <= 1_000_000_000_000
                    ==> completion.completion_tokens == n)
            },
            _ => true,
        },
{
    reveal_strlit("stop");
    reveal_strlit("missing");
    assert("stop"@.len() != "missing"@.len());
    if response.choices@.len() > 0 {
        let choice = response.choices@[0];
        if let Some(message) = choice.message {
            if let Json::Text(text) = message.content {
                lemma_trimmed_is_core(text@);
            }
        }
    }
}

/// A finished reply with words, from the model that was asked, that reports no
/// provider and no numbers, is taken.
pub proof fn lemma_plain_chat_reply(
    config: ConfigText,
    response: ChatResponse,
    retry_after: Option<u64>,
    attempt: u32,
    maximum_attempts: u32,
    word: int,
)
    requires
        config.valid(),
        response.error is None,
        response.usage is None,
        response.provider is None,
        response.model is None || (response.model->0)@ == config.model,
        response.choices@.len() > 0,
        optional_text(response.choices@[0].finish_reason) == Some("stop"@),
        response.choices@[0].message is Some,
        match (response.choices@[0].message->0).content {
            Json::Text(text) => 0 <= word < text@.len() && !is_white_space(text@[word]),
            _ => false,
        },
        is_provider_name(config.provider),
    ensures
        chat_outcome(
            config,
            ChatReply::Parsed { response, retry_after },
            attempt,
            maximum_attempts,
        ).step is Complete,
{
    let choice = response.choices@[0];
    let message = choice.message->0;
    if let Json::Text(text) = message.content {
        lemma_trimmed_empty(text@);
        assert(content_text(message.content).len() > 0);
    }
    assert(message_text(choice).len() > 0);
    reveal_strlit("stop");
    reveal_strlit("length");
    reveal_strlit("max_tokens");
    reveal_strlit("MAX_TOKENS");
    assert("stop"@.len() == 4 && "length"@.len() == 6 && "max_tokens"@.len() == 10
        && "MAX_TOKENS"@.len() == 10);
}

/// A reply that was cut off by its length is never taken, but asks for a
/// shorter piece.
pub proof fn lemma_cut_reply_asks_to_split(
    config: ConfigText,
    response: ChatResponse,
    retry_after: Option<u64>,
    attempt: u32,
    maximum_attempts: u32,
)
    requires
        response.error is None,
        response.provider is None,
        response.model is None,
        response.choices@.len() > 0,
        optional_text(response.choices@[0].finish_reason) == Some("length"@) || optional_text(
            response.choices@[0].finish_reason,
        ) == Some("max_tokens"@) || optional_text(response.choices@[0].finish_reason) == Some(
            "MAX_TOKENS"@,
        ),
    ensures
        chat_outcome(
            config,
            ChatReply::Parsed { response, retry_after },
            attempt,
            maximum_attempts,
        ).step is Split,
{
}

/// A reply from another model than the one that was asked is never taken.
pub proof fn lemma_other_model_is_refused(
    config: ConfigText,
    response: ChatResponse,
    retry_after: Option<u64>,
    attempt: u32,
    maximum_attempts: u32,
)
    requires
        response.error is None,
        response.model is Some,
        (response.model->0)@ != config.model,
    ensures
        chat_outcome(
            config,
            ChatReply::Parsed { response, retry_after },
            attempt,
            maximum_attempts,
        ).step is Stop,
{
}

proof fn lemma_plain_together(left: Seq<char>, right: Seq<char>, n: nat)
    requires
        n <= right.len(),
    ensures
        plain_name(left + right, left.len() + n) == plain_name(left, left.len()) + plain_name(
            right,
            n,
        ),
    decreases n,
{
    if n == 0 {
        lemma_plain_prefix(left + right, left, left.len());
        assert(plain_name(left, left.len()) + plain_name(right, 0) =~= plain_name(
            left,
            left.len(),
        ));
    } else {
        lemma_plain_together(left, right, (n - 1) as nat);
        assert((left + right)[left.len() + n - 1] == right[n - 1]);
        assert(plain_name(left + right, left.len() + n) =~= plain_name(left, left.len())
            + plain_name(right, n));
    }
}

proof fn lemma_plain_prefix(text: Seq<char>, left: Seq<char>, n: nat)
    requires
        n <= left.len() <= text.len(),
        forall|k: int| 0 <= k < left.len() ==> text[k] == #[trigger] left[k],
    ensures
        plain_name(text, n) == plain_name(left, n),
    decreases n,
{
    if n > 0 {
        lemma_plain_prefix(text, left, (n - 1) as nat);
        assert(text[n - 1] == left[n - 1]);
    }
}

proof fn lemma_plain_small(text: Seq<char>, n: nat)
    requires
        n <= text.len(),
    ensures
        plain_name(lowercased(text), n) == plain_name(text, n),
    decreases n,
{
    if n > 0 {
        lemma_plain_small(text, (n - 1) as nat);
        assert(lowercased(text)[n - 1] == lower_char(text[n - 1]));
    }
}

proof fn lemma_plain_word(word: Seq<char>, n: nat)
    requires
        n <= word.len(),
        forall|k: int| 0 <= k < word.len() ==> 'a' <= #[trigger] word[k] <= 'z',
    ensures
        plain_name(word, n) == word.take(n as int),
    decreases n,
{
    if n > 0 {
        lemma_plain_word(word, (n - 1) as nat);
        assert('a' <= word[n - 1] <= 'z');
    }
    assert(plain_name(word, n) =~= word.take(n as int));
}

/// The vendors that are known by the word that they begin with.
pub open spec fn names_vendor(word: Seq<char>) -> bool {
    word == "google"@ || word == "deepinfra"@ || word == "openai"@ || word == "anthropic"@ || word
        == "azure"@ || word == "mistral"@ || word == "groq"@ || word == "together"@ || word
        == "fireworks"@ || word == "cerebras"@ || word == "cohere"@ || word == "novita"@ || word
        == "siliconflow"@ || word == "xai"@
}

/// A provider whose name begins with that of a vendor belongs to it, whatever
/// follows; the case of letters does not matter.
pub proof fn lemma_vendors(word: Seq<char>, rest: Seq<char>)
    requires
        names_vendor(word),
    ensures
        vendor_of(word + rest) == Some(word),
        vendor_of(lowercased(word + rest)) == vendor_of(word + rest),
{
    reveal_strlit("google");
    reveal_strlit("deepinfra");
    reveal_strlit("fishaudio");
    reveal_strlit("openai");
    reveal_strlit("anthropic");
    reveal_strlit("amazonbedrock");
    reveal_strlit("bedrock");
    reveal_strlit("azure");
    reveal_strlit("mistral");
    reveal_strlit("groq");
    reveal_strlit("together");
    reveal_strlit("fireworks");
    reveal_strlit("cerebras");
    reveal_strlit("cohere");
    reveal_strlit("novita");
    reveal_strlit("siliconflow");
    reveal_strlit("xai");
    assert forall|k: int| 0 <= k < word.len() implies 'a' <= #[trigger] word[k] <= 'z' by {}
    lemma_plain_word(word, word.len());
    assert(word.take(word.len() as int) =~= word);
    lemma_plain_together(word, rest, rest.len());
    lemma_plain_small(word + rest, (word + rest).len());
    let name = plain_name(word + rest, (word + rest).len());
    assert(name.take(word.len() as int) =~= word);
    assert(word.len() >= 3);
    assert(name[0] == word[0] && name[1] == word[1] && name[2] == word[2]);
    lemma_other_vendors(name, "google"@);
    lemma_other_vendors(name, "deepinfra"@);
    lemma_other_vendors(name, "fishaudio"@);
    lemma_other_vendors(name, "openai"@);
    lemma_other_vendors(name, "anthropic"@);
    lemma_other_vendors(name, "amazonbedrock"@);
    lemma_other_vendors(name, "bedrock"@);
    lemma_other_vendors(name, "azure"@);
    lemma_other_vendors(name, "mistral"@);
    lemma_other_vendors(name, "groq"@);
    lemma_other_vendors(name, "together"@);
    lemma_other_vendors(name, "fireworks"@);
    lemma_other_vendors(name, "cerebras"@);
    lemma_other_vendors(name, "cohere"@);
    lemma_other_vendors(name, "novita"@);
    lemma_other_vendors(name, "siliconflow"@);
}

proof fn lemma_other_vendors(name: Seq<char>, vendor: Seq<char>)
    requires
        vendor.len() >= 3,
    ensures
        starts_with(name, vendor) ==> name[0] == vendor[0] && name[1] == vendor[1] && name[2]
            == vendor[2],
{
    if starts_with(name, vendor) {
        assert(name.take(vendor.len() as int)[0] == name[0]);
        assert(name.take(vendor.len() as int)[1] == name[1]);
        assert(name.take(vendor.len() as int)[2] == name[2]);
    }
}

// ---------------------------------------------------------------------------
// Speech to text
// ---------------------------------------------------------------------------

proof fn lemma_segment_checked(segments: Seq<SttSegment>, n: int, k: int)
    requires
        0 <= n <= k < segments.len(),
        segments_fault(segments, n) is None,
    ensures
        segment_fault(segments, k) is None,
    decreases k - n,
{
    if n < k {
        lemma_segment_checked(segments, n + 1, k);
    }
}

proof fn lemma_word_checked(words: Seq<SttWord>, n: int, k: int)
    requires
        0 <= n <= k < words.len(),
        words_fault(words, n) is None,
    ensures
        word_fault(words[k], k as nat) is None,
    decreases k - n,
{
    if n < k {
        lemma_word_checked(words, n + 1, k);
    }
}

/// A text without control characters other than breaks and tabs.
pub open spec fn is_clean_text(text: Seq<char>) -> bool {
    forall|k: int|
        0 <= k < text.len() ==> !(#[trigger] text[k] as u32 <= 0x1f || 0x7f <= text[k] as u32
            <= 0x9f) || text[k] == '\n' || text[k] == '\r' || text[k] == '\t'
}

/// A reply that is taken has a clean text of at most eight mebi-characters,
/// names no other model and no other provider than those that were asked, and
/// its segments together say what its text says.
pub proof fn lemma_speech_reply_taken(response: SttResponse, model: Seq<char>, provider: Seq<char>)
    requires
        stt_fault(response, model, provider) is None,
    ensures
        response.text is Some,
        (response.text->0)@.len() <= 8_388_608,
        is_clean_text((response.text->0)@),
        response.model is Some ==> (response.model->0)@ == model,
        response.provider is Some && lowercased(provider) != "any"@ ==> (response.provider->0)@
            == provider,
        response.provider is Some ==> lowercased((response.provider->0)@) != "any"@,
        response.segments@.len() <= 100_000,
        response.words@.len() <= 500_000,
        response.segments@.len() > 0 ==> content_of(
            segments_text(response.segments@, response.segments@.len()),
        ) == content_of((response.text->0)@),
{
    assert(8 * 1024 * 1024 == 8_388_608);
}

/// Each segment of a reply that is taken starts in the week and does not end
/// before it starts, and stands behind the one before it in number and in time;
/// its text is clean and not too long. So is each word.
pub proof fn lemma_segments_taken(
    response: SttResponse,
    model: Seq<char>,
    provider: Seq<char>,
    k: int,
)
    requires
        stt_fault(response, model, provider) is None,
    ensures
        0 <= k < response.segments@.len() ==> {
            let segment = response.segments@[k];
            &&& 0 <= segment.id <= 100_000_000
            &&& segment.start.rank() <= segment.end.rank() <= 0x4122_7500_0000_0000
            &&& segment.text@.len() <= 262_144
            &&& is_clean_text(segment.text@)
            &&& segment.tokens@.len() <= 262_144
            &&& segment.speaker is Some ==> 0 <= segment.speaker->0 <= 1_000_000
            &&& segment.seek is Some ==> 0 <= segment.seek->0 <= 100_000_000
            &&& segment.temperature is Some ==> (segment.temperature->0).rank()
                <= 0x3ff0_0000_0000_0000
            &&& segment.no_speech_prob is Some ==> (segment.no_speech_prob->0).rank()
                <= 0x3ff0_0000_0000_0000
        },
        0 < k < response.segments@.len() ==> {
            let before = response.segments@[k - 1];
            let segment = response.segments@[k];
            before.id < segment.id && before.start.rank() <= segment.start.rank()
                && before.end.rank() <= segment.end.rank()
        },
        0 <= k < response.words@.len() ==> {
            let word = response.words@[k];
            &&& word.start.rank() <= word.end.rank() <= 0x4122_7500_0000_0000
            &&& word.word@.len() <= 4_096
            &&& is_clean_text(word.word@)
            &&& word.speaker is Some ==> 0 <= word.speaker->0 <= 1_000_000
        },
{
    if 0 <= k < response.segments@.len() {
        lemma_segment_checked(response.segments@, 0, k);
    }
    if 0 <= k < response.words@.len() {
        lemma_word_checked(response.words@, 0, k);
    }
}

/// A reply with a clean text and nothing else is taken.
pub proof fn lemma_plain_speech_reply(response: SttResponse, model: Seq<char>, provider: Seq<char>)
    requires
        response.text is Some,
        response.model is None,
        response.provider is None,
        response.task is None,
        response.language is None,
        response.duration is None,
        response.usage is None,
        response.segments@.len() == 0,
        response.words@.len() == 0,
    ensures
        stt_fault(response, model, provider) is None <==> (response.text->0)@.len() <= 8_388_608
            && is_clean_text((response.text->0)@),
{
    assert(8 * 1024 * 1024 == 8_388_608);
}

} // verus!
