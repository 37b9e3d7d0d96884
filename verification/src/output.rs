//! The files that are written: their names, their text and when they may be
//! written.
use vstd::prelude::*;
use crate::asr::{json_quoted, json_string};
use crate::config::{is_any_provider, names_any_provider, Config};
use crate::media::storage::{seconds_arg, seconds_text};
use crate::media::{file_stem, stem_of, AudioInfo, ImageInfo};
use crate::openrouter::accounting::Completion;
use crate::ordered::{put_text, with_text};
use crate::text::{
    chars_of, contains_text, decimal, decimal_string, fault_of, join, joined, lines_of, occurs_at,
    optional_str, padded_decimal, padded_decimal_string, split_lines, starts_with,
    starts_with_str, text2, text3, texts, trim, trimmed,
};

verus! {

// ---------------------------------------------------------------------------
// Markdown
// ---------------------------------------------------------------------------

/// A character that has a meaning in Markdown.
pub open spec fn is_markdown_mark(c: char) -> bool {
    c == '\\' || c == '`' || c == '*' || c == '_' || c == '{' || c == '}' || c == '[' || c == ']'
        || c == '(' || c == ')' || c == '#' || c == '+' || c == '-' || c == '.' || c == '!' || c
        == '|' || c == '~'
}

/// A character as Markdown shows it.
pub open spec fn escaped_char(c: char) -> Seq<char> {
    if c == '&' {
        "&amp;"@
    } else if c == '<' {
        "&lt;"@
    } else if c == '>' {
        "&gt;"@
    } else if is_markdown_mark(c) {
        seq!['\\', c]
    } else {
        seq![c]
    }
}

/// A text as Markdown shows it.
pub open spec fn escaped(text: Seq<char>) -> Seq<char>
    decreases text.len(),
{
    if text.len() == 0 {
        Seq::empty()
    } else {
        escaped(text.drop_last()) + escaped_char(text.last())
    }
}

fn markdown_mark(c: char) -> (result: bool)
    ensures
        result == is_markdown_mark(c),
{
    c == '\\' || c == '`' || c == '*' || c == '_' || c == '{' || c == '}' || c == '[' || c == ']'
        || c == '(' || c == ')' || c == '#' || c == '+' || c == '-' || c == '.' || c == '!' || c
        == '|' || c == '~'
}

/// A text in which nothing has a meaning in Markdown.
pub fn escape_markdown_text(text: &str) -> (result: String)
    ensures
        result@ == escaped(text@),
{
    let chars = chars_of(text);
    let mut result = String::new();
    let mut n: usize = 0;
    assert(chars@.take(0) =~= Seq::empty());
    while n < chars.len()
        invariant
            n <= chars@.len(),
            chars@ == text@,
            result@ == escaped(text@.take(n as int)),
        decreases chars@.len() - n,
    {
        let c = chars[n];
        let ghost before = result@;
        assert(text@.take(n + 1).drop_last() =~= text@.take(n as int));
        assert(text@.take(n + 1).last() == c);
        if c == '&' {
            result.append("&amp;");
        } else if c == '<' {
            result.append("&lt;");
        } else if c == '>' {
            result.append("&gt;");
        } else if markdown_mark(c) {
            result.push('\\');
            result.push(c);
            assert(result@ =~= before + seq!['\\', c]);
        } else {
            result.push(c);
            assert(result@ =~= before + seq![c]);
        }
        n += 1;
    }
    assert(text@.take(n as int) =~= text@);
    result
}

// ---------------------------------------------------------------------------
// Times
// ---------------------------------------------------------------------------

/// A time as hours, minutes and seconds, with the milliseconds where there are
/// any.
pub open spec fn timestamp_text(milliseconds: u64) -> Seq<char> {
    let total = milliseconds / 1_000;
    let clock = padded_decimal((total / 3_600) as nat, 2) + ":"@ + padded_decimal(
        (total % 3_600 / 60) as nat,
        2,
    ) + ":"@ + padded_decimal((total % 60) as nat, 2);
    if milliseconds % 1_000 == 0 {
        clock
    } else {
        clock + "."@ + padded_decimal((milliseconds % 1_000) as nat, 3)
    }
}

pub fn format_timestamp(milliseconds: u64) -> (text: String)
    ensures
        text@ == timestamp_text(milliseconds),
{
    let total: u64 = milliseconds / 1_000;
    let hours = padded_decimal_string(total / 3_600, 2);
    let minutes = padded_decimal_string(total % 3_600 / 60, 2);
    let seconds = padded_decimal_string(total % 60, 2);
    let mut text = hours;
    text.append(":");
    text.append(minutes.as_str());
    text.append(":");
    text.append(seconds.as_str());
    if milliseconds % 1_000 != 0 {
        let rest = padded_decimal_string(milliseconds % 1_000, 3);
        text.append(".");
        text.append(rest.as_str());
    }
    text
}

// ---------------------------------------------------------------------------
// Metadata
// ---------------------------------------------------------------------------

/// A stretch of a recording with what was heard in it.
#[derive(Debug)]
pub struct TranscriptPart {
    pub start_ms: u64,
    pub end_ms: u64,
    pub completion: Completion,
}

/// The metadata of a file, each value as a string of JSON.
#[derive(Debug)]
pub struct QuotedFields {
    pub source: String,
    pub model: String,
    pub provider: String,
    pub models: String,
    pub providers: String,
    pub codec: String,
    pub container: String,
}

pub ghost struct QuotedView {
    pub source: Seq<char>,
    pub model: Seq<char>,
    pub provider: Seq<char>,
    pub models: Seq<char>,
    pub providers: Seq<char>,
    pub codec: Seq<char>,
    pub container: Seq<char>,
}

impl View for QuotedFields {
    type V = QuotedView;

    open spec fn view(&self) -> QuotedView {
        QuotedView {
            source: self.source@,
            model: self.model@,
            provider: self.provider@,
            models: self.models@,
            providers: self.providers@,
            codec: self.codec@,
            container: self.container@,
        }
    }
}

/// Metadata as strings of JSON.
pub open spec fn quoted_of(plain: QuotedView) -> QuotedView {
    QuotedView {
        source: json_quoted(plain.source),
        model: json_quoted(plain.model),
        provider: json_quoted(plain.provider),
        models: json_quoted(plain.models),
        providers: json_quoted(plain.providers),
        codec: json_quoted(plain.codec),
        container: json_quoted(plain.container),
    }
}

/// A text as a string of JSON.
fn yaml_string(text: &str) -> (quoted: String)
    ensures
        quoted@ == json_quoted(text@),
{
    json_string(text).unwrap()
}

/// Writes metadata as strings of JSON.
pub fn quote_fields(plain: &QuotedFields) -> (fields: QuotedFields)
    ensures
        fields@ == quoted_of(plain@),
{
    QuotedFields {
        source: yaml_string(plain.source.as_str()),
        model: yaml_string(plain.model.as_str()),
        provider: yaml_string(plain.provider.as_str()),
        models: yaml_string(plain.models.as_str()),
        providers: yaml_string(plain.providers.as_str()),
        codec: yaml_string(plain.codec.as_str()),
        container: yaml_string(plain.container.as_str()),
    }
}

/// A text with a line of metadata behind it.
pub open spec fn with_line(text: Seq<char>, name: Seq<char>, value: Seq<char>) -> Seq<char> {
    text + name + ": "@ + value + "\n"@
}

fn push_line(text: &mut String, name: &str, value: &str)
    ensures
        final(text)@ == with_line(old(text)@, name@, value@),
{
    text.append(name);
    text.append(": ");
    text.append(value);
    text.append("\n");
}

pub open spec fn number_text(n: int) -> Seq<char> {
    decimal(n as nat)
}

fn push_number(text: &mut String, name: &str, value: u64)
    ensures
        final(text)@ == with_line(old(text)@, name@, number_text(value as int)),
{
    let number = decimal_string(value);
    push_line(text, name, number.as_str());
}

pub open spec fn truth_text(value: bool) -> Seq<char> {
    if value {
        "true"@
    } else {
        "false"@
    }
}

fn push_truth(text: &mut String, name: &str, value: bool)
    ensures
        final(text)@ == with_line(old(text)@, name@, truth_text(value)),
{
    push_line(
        text,
        name,
        if value {
            "true"
        } else {
            "false"
        },
    );
}

/// What parts report together.
#[derive(Clone, Copy, Debug, PartialEq, Eq, Structural)]
pub struct Usage {
    pub prompt_tokens: u64,
    pub completion_tokens: u64,
    pub reasoning_tokens: u64,
    pub usage_reported: bool,
    pub reasoning_tokens_reported: bool,
}

/// The tokens left when those of reasoning are taken away.
pub open spec fn visible_of(usage: Usage) -> int {
    if usage.completion_tokens >= usage.reasoning_tokens {
        usage.completion_tokens - usage.reasoning_tokens
    } else {
        0
    }
}

fn visible_tokens(usage: Usage) -> (tokens: u64)
    ensures
        tokens == visible_of(usage),
{
    if usage.completion_tokens >= usage.reasoning_tokens {
        usage.completion_tokens - usage.reasoning_tokens
    } else {
        0
    }
}

/// The lines on tokens and cost.
pub open spec fn with_token_lines(text: Seq<char>, usage: Usage, cost: Seq<char>) -> Seq<char> {
    let text = with_line(
        text,
        "reported_prompt_tokens"@,
        number_text(usage.prompt_tokens as int),
    );
    let text = with_line(
        text,
        "reported_completion_tokens"@,
        number_text(usage.completion_tokens as int),
    );
    let text = with_line(
        text,
        "reported_reasoning_tokens"@,
        number_text(usage.reasoning_tokens as int),
    );
    let text = with_line(text, "reported_visible_output_tokens"@, number_text(visible_of(usage)));
    with_line(text, "reported_accepted_cost_usd"@, cost)
}

fn push_token_lines(text: &mut String, usage: Usage, cost: &str)
    ensures
        final(text)@ == with_token_lines(old(text)@, usage, cost@),
{
    push_number(text, "reported_prompt_tokens", usage.prompt_tokens);
    push_number(text, "reported_completion_tokens", usage.completion_tokens);
    push_number(text, "reported_reasoning_tokens", usage.reasoning_tokens);
    push_number(text, "reported_visible_output_tokens", visible_tokens(usage));
    push_line(text, "reported_accepted_cost_usd", cost);
}

/// The lines on where a text comes from.
pub open spec fn with_route_lines(text: Seq<char>, fields: QuotedView) -> Seq<char> {
    let text = with_line(text, "source"@, fields.source);
    let text = with_line(text, "model_requested"@, fields.model);
    let text = with_line(text, "provider_requested"@, fields.provider);
    let text = with_line(text, "model_reported_or_requested"@, fields.models);
    with_line(text, "provider_reported_or_requested"@, fields.providers)
}

fn push_route_lines(text: &mut String, fields: &QuotedFields)
    ensures
        final(text)@ == with_route_lines(old(text)@, fields@),
{
    push_line(text, "source", fields.source.as_str());
    push_line(text, "model_requested", fields.model.as_str());
    push_line(text, "provider_requested", fields.provider.as_str());
    push_line(text, "model_reported_or_requested", fields.models.as_str());
    push_line(text, "provider_reported_or_requested", fields.providers.as_str());
}

pub open spec fn with_file_lines(text: Seq<char>, fields: QuotedView) -> Seq<char> {
    let text = with_line(text, "source_codec"@, fields.codec);
    with_line(text, "source_container"@, fields.container)
}

fn push_file_lines(text: &mut String, fields: &QuotedFields)
    ensures
        final(text)@ == with_file_lines(old(text)@, fields@),
{
    push_line(text, "source_codec", fields.codec.as_str());
    push_line(text, "source_container", fields.container.as_str());
}

// ---------------------------------------------------------------------------
// Transcripts
// ---------------------------------------------------------------------------

/// The models of the first `n` parts, in order, each once.
pub open spec fn models_until(parts: Seq<TranscriptPart>, n: nat) -> Seq<Seq<char>>
    decreases n,
{
    if n == 0 {
        Seq::empty()
    } else {
        with_text(models_until(parts, (n - 1) as nat), parts[n - 1].completion.model@)
    }
}

/// The providers of the first `n` parts, in order, each once.
pub open spec fn providers_until(parts: Seq<TranscriptPart>, n: nat) -> Seq<Seq<char>>
    decreases n,
{
    if n == 0 {
        Seq::empty()
    } else {
        with_text(providers_until(parts, (n - 1) as nat), parts[n - 1].completion.provider@)
    }
}

pub open spec fn prompt_sum(parts: Seq<TranscriptPart>, n: nat) -> int
    decreases n,
{
    if n == 0 {
        0
    } else {
        prompt_sum(parts, (n - 1) as nat) + parts[n - 1].completion.prompt_tokens
    }
}

pub open spec fn completion_sum(parts: Seq<TranscriptPart>, n: nat) -> int
    decreases n,
{
    if n == 0 {
        0
    } else {
        completion_sum(parts, (n - 1) as nat) + parts[n - 1].completion.completion_tokens
    }
}

pub open spec fn reasoning_sum(parts: Seq<TranscriptPart>, n: nat) -> int
    decreases n,
{
    if n == 0 {
        0
    } else {
        reasoning_sum(parts, (n - 1) as nat) + parts[n - 1].completion.reasoning_tokens
    }
}

/// The tokens of all parts fit in their counters.
pub open spec fn sums_fit(parts: Seq<TranscriptPart>) -> bool {
    prompt_sum(parts, parts.len()) <= u64::MAX && completion_sum(parts, parts.len()) <= u64::MAX
        && reasoning_sum(parts, parts.len()) <= u64::MAX
}

/// What all parts report together.
pub open spec fn is_usage(parts: Seq<TranscriptPart>, usage: Usage) -> bool {
    &&& usage.prompt_tokens == prompt_sum(parts, parts.len())
    &&& usage.completion_tokens == completion_sum(parts, parts.len())
    &&& usage.reasoning_tokens == reasoning_sum(parts, parts.len())
    &&& usage.usage_reported == forall|k: int|
        0 <= k < parts.len() ==> (#[trigger] parts[k]).completion.usage_reported
    &&& usage.reasoning_tokens_reported == forall|k: int|
        0 <= k < parts.len() ==> (#[trigger] parts[k]).completion.reasoning_tokens_reported
}

proof fn lemma_sums_grow(parts: Seq<TranscriptPart>, n: nat, m: nat)
    requires
        n <= m <= parts.len(),
    ensures
        0 <= prompt_sum(parts, n) <= prompt_sum(parts, m),
        0 <= completion_sum(parts, n) <= completion_sum(parts, m),
        0 <= reasoning_sum(parts, n) <= reasoning_sum(parts, m),
    decreases m,
{
    if n < m {
        lemma_sums_grow(parts, n, (m - 1) as nat);
    } else if n > 0 {
        lemma_sums_grow(parts, (n - 1) as nat, (n - 1) as nat);
    }
}

/// What parts report together.
pub fn usage_of(parts: &Vec<TranscriptPart>) -> (usage: Usage)
    requires
        sums_fit(parts@),
    ensures
        is_usage(parts@, usage),
{
    let mut usage = Usage {
        prompt_tokens: 0,
        completion_tokens: 0,
        reasoning_tokens: 0,
        usage_reported: true,
        reasoning_tokens_reported: true,
    };
    let mut n: usize = 0;
    while n < parts.len()
        invariant
            n <= parts@.len(),
            sums_fit(parts@),
            usage.prompt_tokens == prompt_sum(parts@, n as nat),
            usage.completion_tokens == completion_sum(parts@, n as nat),
            usage.reasoning_tokens == reasoning_sum(parts@, n as nat),
            usage.usage_reported == forall|k: int|
                0 <= k < n ==> (#[trigger] parts@[k]).completion.usage_reported,
            usage.reasoning_tokens_reported == forall|k: int|
                0 <= k < n ==> (#[trigger] parts@[k]).completion.reasoning_tokens_reported,
        decreases parts@.len() - n,
    {
        proof {
            lemma_sums_grow(parts@, (n + 1) as nat, parts@.len());
        }
        let completion = &parts[n].completion;
        assert(*completion == parts@[n as int].completion);
        usage.prompt_tokens = usage.prompt_tokens + completion.prompt_tokens;
        usage.completion_tokens = usage.completion_tokens + completion.completion_tokens;
        usage.reasoning_tokens = usage.reasoning_tokens + completion.reasoning_tokens;
        usage.usage_reported = usage.usage_reported && completion.usage_reported;
        usage.reasoning_tokens_reported = usage.reasoning_tokens_reported
            && completion.reasoning_tokens_reported;
        n += 1;
    }
    usage
}

/// The text with the first `n` parts behind it.
pub open spec fn with_parts(text: Seq<char>, parts: Seq<TranscriptPart>, n: nat) -> Seq<char>
    decreases n,
{
    if n == 0 {
        text
    } else {
        let part = parts[n - 1];
        with_parts(text, parts, (n - 1) as nat) + "## "@ + timestamp_text(part.start_ms) + "–"@
            + timestamp_text(part.end_ms) + "\n\n"@ + trimmed(part.completion.text@) + "\n\n"@
    }
}

/// A line of a text names a speaker that is not known.
pub open spec fn names_unknown(text: Seq<char>) -> bool {
    exists|k: int|
        0 <= k < lines_of(text).len() && starts_with(#[trigger] lines_of(text)[k], "UNKNOWN："@)
}

/// A part of a transcript names a speaker that is not known.
pub open spec fn has_unknown(parts: Seq<TranscriptPart>) -> bool {
    exists|n: int|
        0 <= n < parts.len() && names_unknown(trimmed((#[trigger] parts[n]).completion.text@))
}

fn name_unknown(parts: &Vec<TranscriptPart>) -> (result: bool)
    ensures
        result == has_unknown(parts@),
{
    let mut n: usize = 0;
    while n < parts.len()
        invariant
            n <= parts@.len(),
            forall|m: int|
                0 <= m < n ==> !names_unknown(trimmed((#[trigger] parts@[m]).completion.text@)),
        decreases parts@.len() - n,
    {
        let body = trim(parts[n].completion.text.as_str());
        let lines = split_lines(body.as_str());
        let mut k: usize = 0;
        while k < lines.len()
            invariant
                k <= lines@.len(),
                n < parts@.len(),
                texts(lines@) == lines_of(trimmed(parts@[n as int].completion.text@)),
                forall|j: int|
                    0 <= j < k ==> !starts_with(#[trigger] texts(lines@)[j], "UNKNOWN："@),
            decreases lines@.len() - k,
        {
            assert(texts(lines@)[k as int] == lines@[k as int]@);
            if starts_with_str(lines[k].as_str(), "UNKNOWN：") {
                assert(names_unknown(trimmed(parts@[n as int].completion.text@)));
                return true;
            }
            k += 1;
        }
        n += 1;
    }
    false
}

/// The text with lines behind it that say what was not measured: neither the
/// words nor the speakers. Of the speakers they say whether one is not known;
/// of a route that is fixed, how far that goes.
pub open spec fn with_status_lines(text: Seq<char>, unknown: bool, fixed_route: bool) -> Seq<
    char,
> {
    let text = with_line(text, "transcript_accuracy_verification"@, "\"not_measured\""@);
    let text = with_line(
        text,
        "speaker_label_assignment_status"@,
        if unknown {
            "\"unknown_labels_present\""@
        } else {
            "\"no_unknown_labels_present\""@
        },
    );
    let text = with_line(text, "speaker_alignment_status"@, "\"not_verified\""@);
    let text = with_line(text, "speaker_identity_accuracy"@, "\"not_measured\""@);
    if fixed_route {
        with_line(
            text,
            "asr_provider_privacy_mode"@,
            "\"catalog_unique_zdr_preflight_no_request_level_pin\""@,
        )
    } else {
        text
    }
}

fn push_status_lines(text: &mut String, unknown: bool, fixed_route: bool)
    ensures
        final(text)@ == with_status_lines(old(text)@, unknown, fixed_route),
{
    push_line(text, "transcript_accuracy_verification", "\"not_measured\"");
    push_line(
        text,
        "speaker_label_assignment_status",
        if unknown {
            "\"unknown_labels_present\""
        } else {
            "\"no_unknown_labels_present\""
        },
    );
    push_line(text, "speaker_alignment_status", "\"not_verified\"");
    push_line(text, "speaker_identity_accuracy", "\"not_measured\"");
    if fixed_route {
        push_line(
            text,
            "asr_provider_privacy_mode",
            "\"catalog_unique_zdr_preflight_no_request_level_pin\"",
        );
    }
}

/// The text of a transcript: metadata, a title and the parts.
pub open spec fn transcript_markdown(
    fields: QuotedView,
    title: Seq<char>,
    duration_ms: u64,
    usage: Usage,
    cost: Seq<char>,
    parts: Seq<TranscriptPart>,
    fixed_route: bool,
) -> Seq<char> {
    let text = with_route_lines("---\n"@, fields);
    let text = with_line(text, "duration_seconds"@, seconds_text(duration_ms));
    let text = with_file_lines(text, fields);
    let text = with_line(text, "segments"@, number_text(parts.len() as int));
    let text = with_line(
        text,
        "usage_reported_for_all_segments"@,
        truth_text(usage.usage_reported),
    );
    let text = with_line(
        text,
        "reasoning_tokens_reported_for_all_segments"@,
        truth_text(usage.reasoning_tokens_reported),
    );
    let text = with_token_lines(text, usage, cost);
    let text = with_status_lines(text, has_unknown(parts), fixed_route);
    with_parts(text + "---\n\n"@ + "# "@ + title + " 转写稿\n\n"@, parts, parts.len())
}

proof fn lemma_parts_behind(text: Seq<char>, parts: Seq<TranscriptPart>, n: nat)
    ensures
        with_parts(text, parts, n).len() >= text.len(),
        with_parts(text, parts, n).take(text.len() as int) == text,
    decreases n,
{
    if n > 0 {
        lemma_parts_behind(text, parts, (n - 1) as nat);
        let before = with_parts(text, parts, (n - 1) as nat);
        assert(with_parts(text, parts, n).take(text.len() as int) =~= before.take(
            text.len() as int,
        ));
    } else {
        assert(text.take(text.len() as int) =~= text);
    }
}

proof fn lemma_status_behind(text: Seq<char>, unknown: bool, fixed_route: bool)
    ensures
        ({
            let line = "transcript_accuracy_verification"@ + ": "@ + "\"not_measured\""@ + "\n"@;
            let all = with_status_lines(text, unknown, fixed_route);
            all.len() >= text.len() + line.len() && all.take((text.len() + line.len()) as int)
                == text + line
        }),
{
    let line = "transcript_accuracy_verification"@ + ": "@ + "\"not_measured\""@ + "\n"@;
    let first = with_line(text, "transcript_accuracy_verification"@, "\"not_measured\""@);
    assert(first =~= text + line);
    let all = with_status_lines(text, unknown, fixed_route);
    assert(all.take(first.len() as int) =~= first);
}

proof fn lemma_status_within(
    text: Seq<char>,
    unknown: bool,
    fixed_route: bool,
    title: Seq<char>,
    parts: Seq<TranscriptPart>,
)
    ensures
        contains_text(
            with_parts(
                with_status_lines(text, unknown, fixed_route) + "---\n\n"@ + "# "@ + title
                    + " 转写稿\n\n"@,
                parts,
                parts.len(),
            ),
            "transcript_accuracy_verification"@ + ": "@ + "\"not_measured\""@ + "\n"@,
        ),
{
    let line = "transcript_accuracy_verification"@ + ": "@ + "\"not_measured\""@ + "\n"@;
    let status = with_status_lines(text, unknown, fixed_route);
    lemma_status_behind(text, unknown, fixed_route);
    let head = status + "---\n\n"@ + "# "@ + title + " 转写稿\n\n"@;
    lemma_parts_behind(head, parts, parts.len());
    let whole = with_parts(head, parts, parts.len());
    let at = text.len() as int;
    let end = at + line.len();
    assert forall|k: int| at <= k < end implies whole[k] == line[k - at] by {
        assert(whole[k] == whole.take(head.len() as int)[k]);
        assert(head[k] == status[k]);
        assert(status[k] == status.take(end)[k]);
    }
    assert(whole.subrange(at, end) =~= line);
    assert(occurs_at(whole, at, line));
}

/// Every transcript says that its words were not measured.
pub proof fn lemma_accuracy_is_marked(
    fields: QuotedView,
    title: Seq<char>,
    duration_ms: u64,
    usage: Usage,
    cost: Seq<char>,
    parts: Seq<TranscriptPart>,
    fixed_route: bool,
)
    ensures
        contains_text(
            transcript_markdown(fields, title, duration_ms, usage, cost, parts, fixed_route),
            "transcript_accuracy_verification"@ + ": "@ + "\"not_measured\""@ + "\n"@,
        ),
{
    let text = with_route_lines("---\n"@, fields);
    let text = with_line(text, "duration_seconds"@, seconds_text(duration_ms));
    let text = with_file_lines(text, fields);
    let text = with_line(text, "segments"@, number_text(parts.len() as int));
    let text = with_line(
        text,
        "usage_reported_for_all_segments"@,
        truth_text(usage.usage_reported),
    );
    let text = with_line(
        text,
        "reasoning_tokens_reported_for_all_segments"@,
        truth_text(usage.reasoning_tokens_reported),
    );
    let text = with_token_lines(text, usage, cost);
    lemma_status_within(text, has_unknown(parts), fixed_route, title, parts);
}

/// Writes a transcript from its metadata.
pub fn write_transcript(
    fields: &QuotedFields,
    title: &str,
    duration_ms: u64,
    usage: Usage,
    cost: &str,
    parts: &Vec<TranscriptPart>,
    fixed_route: bool,
) -> (markdown: String)
    ensures
        markdown@ == transcript_markdown(
            fields@,
            title@,
            duration_ms,
            usage,
            cost@,
            parts@,
            fixed_route,
        ),
{
    let mut text = "---\n".to_owned();
    push_route_lines(&mut text, fields);
    let seconds = seconds_arg(duration_ms);
    push_line(&mut text, "duration_seconds", seconds.as_str());
    push_file_lines(&mut text, fields);
    push_number(&mut text, "segments", parts.len() as u64);
    push_truth(&mut text, "usage_reported_for_all_segments", usage.usage_reported);
    push_truth(
        &mut text,
        "reasoning_tokens_reported_for_all_segments",
        usage.reasoning_tokens_reported,
    );
    push_token_lines(&mut text, usage, cost);
    push_status_lines(&mut text, name_unknown(parts), fixed_route);
    text.append("---\n\n");
    text.append("# ");
    text.append(title);
    text.append(" 转写稿\n\n");
    let ghost head = text@;
    let mut n: usize = 0;
    while n < parts.len()
        invariant
            n <= parts@.len(),
            text@ == with_parts(head, parts@, n as nat),
        decreases parts@.len() - n,
    {
        let part = &parts[n];
        let start = format_timestamp(part.start_ms);
        let end = format_timestamp(part.end_ms);
        let body = trim(part.completion.text.as_str());
        text.append("## ");
        text.append(start.as_str());
        text.append("–");
        text.append(end.as_str());
        text.append("\n\n");
        text.append(body.as_str());
        text.append("\n\n");
        n += 1;
    }
    text
}

/// The metadata of a transcript.
pub open spec fn transcript_fields(
    name: Seq<char>,
    config: Config,
    info: AudioInfo,
    parts: Seq<TranscriptPart>,
) -> QuotedView {
    QuotedView {
        source: name,
        model: config.model@,
        provider: config.provider@,
        models: joined(models_until(parts, parts.len()), ", "@),
        providers: joined(providers_until(parts, parts.len()), ", "@),
        codec: info.codec@,
        container: info.container@,
    }
}

/// Why no transcript is written.
pub open spec fn transcript_fault(
    name: Option<Seq<char>>,
    parts: Seq<TranscriptPart>,
) -> Option<Seq<char>> {
    if parts.len() == 0 {
        Some("没有可写入的转写片段"@)
    } else if name is None {
        Some("源文件名不是有效 UTF-8"@)
    } else {
        None
    }
}

fn model_list(parts: &Vec<TranscriptPart>) -> (text: String)
    ensures
        text@ == joined(models_until(parts@, parts@.len()), ", "@),
{
    let mut list: Vec<String> = Vec::new();
    assert(texts(list@) =~= models_until(parts@, 0));
    let mut n: usize = 0;
    while n < parts.len()
        invariant
            n <= parts@.len(),
            texts(list@) == models_until(parts@, n as nat),
        decreases parts@.len() - n,
    {
        put_text(&mut list, parts[n].completion.model.as_str());
        n += 1;
    }
    join(list.as_slice(), ", ")
}

fn provider_list(parts: &Vec<TranscriptPart>) -> (text: String)
    ensures
        text@ == joined(providers_until(parts@, parts@.len()), ", "@),
{
    let mut list: Vec<String> = Vec::new();
    assert(texts(list@) =~= providers_until(parts@, 0));
    let mut n: usize = 0;
    while n < parts.len()
        invariant
            n <= parts@.len(),
            texts(list@) == providers_until(parts@, n as nat),
        decreases parts@.len() - n,
    {
        put_text(&mut list, parts[n].completion.provider.as_str());
        n += 1;
    }
    join(list.as_slice(), ", ")
}

/// Writes the transcript of a recording. The name is that of the source file,
/// where it is text; the cost is that of all parts, as a text.
pub fn render_transcript(
    file_name: Option<&str>,
    config: &Config,
    info: &AudioInfo,
    parts: &Vec<TranscriptPart>,
    cost: &str,
) -> (result: Result<String, String>)
    requires
        sums_fit(parts@),
    ensures
        match result {
            Ok(markdown) => {
                let name = (file_name->0)@;
                &&& transcript_fault(optional_str(file_name), parts@) is None
                &&& exists|usage: Usage|
                    #![trigger is_usage(parts@, usage)]
                    is_usage(parts@, usage) && markdown@ == transcript_markdown(
                        quoted_of(transcript_fields(name, *config, *info, parts@)),
                        stem_of(name),
                        info.duration_ms,
                        usage,
                        cost@,
                        parts@,
                        !is_any_provider(config.asr_provider@),
                    )
            },
            Err(message) => transcript_fault(optional_str(file_name), parts@) == Some(message@),
        },
{
    if parts.len() == 0 {
        return Err("没有可写入的转写片段".to_owned());
    }
    let name = match file_name {
        Some(name) => name,
        None => {
            return Err("源文件名不是有效 UTF-8".to_owned());
        },
    };
    let plain = QuotedFields {
        source: name.to_owned(),
        model: config.model.clone(),
        provider: config.provider.clone(),
        models: model_list(parts),
        providers: provider_list(parts),
        codec: info.codec.clone(),
        container: info.container.clone(),
    };
    assert(plain@ == transcript_fields(name@, *config, *info, parts@));
    let fields = quote_fields(&plain);
    let title = file_stem(name);
    let usage = usage_of(parts);
    Ok(
        write_transcript(
            &fields,
            title.as_str(),
            info.duration_ms,
            usage,
            cost,
            parts,
            !names_any_provider(config.asr_provider.as_str()),
        ),
    )
}

// ---------------------------------------------------------------------------
// Text in images
// ---------------------------------------------------------------------------

/// The text of a file on an image: metadata, a title and what was read.
pub open spec fn ocr_markdown(
    fields: QuotedView,
    title: Seq<char>,
    width: u64,
    height: u64,
    usage: Usage,
    cost: Seq<char>,
    body: Seq<char>,
) -> Seq<char> {
    let text = with_route_lines("---\n"@, fields);
    let text = with_file_lines(text, fields);
    let text = with_line(text, "source_width"@, number_text(width as int));
    let text = with_line(text, "source_height"@, number_text(height as int));
    let text = with_line(text, "usage_reported"@, truth_text(usage.usage_reported));
    let text = with_line(
        text,
        "reasoning_tokens_reported"@,
        truth_text(usage.reasoning_tokens_reported),
    );
    let text = with_token_lines(text, usage, cost);
    text + "---\n\n"@ + "# "@ + title + " OCR\n\n"@ + trimmed(body) + "\n"@
}

/// Writes the file on an image from its metadata.
pub fn write_ocr(
    fields: &QuotedFields,
    title: &str,
    width: u64,
    height: u64,
    usage: Usage,
    cost: &str,
    body: &str,
) -> (markdown: String)
    ensures
        markdown@ == ocr_markdown(fields@, title@, width, height, usage, cost@, body@),
{
    let mut text = "---\n".to_owned();
    push_route_lines(&mut text, fields);
    push_file_lines(&mut text, fields);
    push_number(&mut text, "source_width", width);
    push_number(&mut text, "source_height", height);
    push_truth(&mut text, "usage_reported", usage.usage_reported);
    push_truth(&mut text, "reasoning_tokens_reported", usage.reasoning_tokens_reported);
    push_token_lines(&mut text, usage, cost);
    let inner = trim(body);
    text.append("---\n\n");
    text.append("# ");
    text.append(title);
    text.append(" OCR\n\n");
    text.append(inner.as_str());
    text.append("\n");
    text
}

pub open spec fn ocr_fields(
    name: Seq<char>,
    config: Config,
    info: ImageInfo,
    completion: Completion,
) -> QuotedView {
    QuotedView {
        source: name,
        model: config.model@,
        provider: config.provider@,
        models: completion.model@,
        providers: completion.provider@,
        codec: info.codec@,
        container: info.container@,
    }
}

/// What one completion reports.
pub open spec fn own_usage(completion: Completion) -> Usage {
    Usage {
        prompt_tokens: completion.prompt_tokens,
        completion_tokens: completion.completion_tokens,
        reasoning_tokens: completion.reasoning_tokens,
        usage_reported: completion.usage_reported,
        reasoning_tokens_reported: completion.reasoning_tokens_reported,
    }
}

/// Writes what was read in an image. The name is that of the source file,
/// where it is text; the cost is that of the completion, as a text.
pub fn render_ocr(
    file_name: Option<&str>,
    config: &Config,
    info: &ImageInfo,
    completion: &Completion,
    cost: &str,
) -> (result: Result<String, String>)
    ensures
        match (file_name, result) {
            (Some(name), Ok(markdown)) => markdown@ == ocr_markdown(
                quoted_of(ocr_fields(name@, *config, *info, *completion)),
                stem_of(name@),
                info.width,
                info.height,
                own_usage(*completion),
                cost@,
                completion.text@,
            ),
            (None, Err(message)) => message@ == "源文件名不是有效 UTF-8"@,
            _ => false,
        },
{
    let name = match file_name {
        Some(name) => name,
        None => {
            return Err("源文件名不是有效 UTF-8".to_owned());
        },
    };
    let plain = QuotedFields {
        source: name.to_owned(),
        model: config.model.clone(),
        provider: config.provider.clone(),
        models: completion.model.clone(),
        providers: completion.provider.clone(),
        codec: info.codec.clone(),
        container: info.container.clone(),
    };
    assert(plain@ == ocr_fields(name@, *config, *info, *completion));
    let fields = quote_fields(&plain);
    let title = file_stem(name);
    let usage = Usage {
        prompt_tokens: completion.prompt_tokens,
        completion_tokens: completion.completion_tokens,
        reasoning_tokens: completion.reasoning_tokens,
        usage_reported: completion.usage_reported,
        reasoning_tokens_reported: completion.reasoning_tokens_reported,
    };
    Ok(
        write_ocr(
            &fields,
            title.as_str(),
            info.width,
            info.height,
            usage,
            cost,
            completion.text.as_str(),
        ),
    )
}

// ---------------------------------------------------------------------------
// Places
// ---------------------------------------------------------------------------

/// The name of the file on an image: that of the image with another ending.
/// The name is that of the image, where it is text.
pub fn ocr_output_path(file_name: Option<&str>) -> (result: Result<String, String>)
    ensures
        match (file_name, result) {
            (Some(name), Ok(output)) => output@ == stem_of(name@) + ".ocr.md"@,
            (None, Err(message)) => message@ == "OCR 源文件缺少有效主文件名"@,
            _ => false,
        },
{
    match file_name {
        Some(name) => {
            let stem = file_stem(name);
            Ok(text2(stem.as_str(), ".ocr.md"))
        },
        None => Err("OCR 源文件缺少有效主文件名".to_owned()),
    }
}

/// The directory of a file whose path has the given parent: the current one
/// where there is none.
pub fn output_parent(parent: Option<&str>) -> (directory: String)
    ensures
        directory@ == (match parent {
            Some(path) => if path@.len() == 0 {
                "."@
            } else {
                path@
            },
            None => "."@,
        }),
{
    match parent {
        Some(path) => if chars_of(path).len() == 0 {
            ".".to_owned()
        } else {
            path.to_owned()
        },
        None => ".".to_owned(),
    }
}

/// What stands where a file is to be written.
#[derive(Clone, Copy, Debug, PartialEq, Eq, Structural)]
pub enum OutputEntry {
    Missing,
    Regular,
    Other,
}

/// Why a file may not be written.
pub open spec fn output_fault(path: Seq<char>, entry: OutputEntry, force: bool) -> Option<
    Seq<char>,
> {
    match entry {
        OutputEntry::Missing => None,
        OutputEntry::Regular => if force {
            None
        } else {
            Some("输出文件已存在："@ + path + "；如需替换请使用 --force"@)
        },
        OutputEntry::Other => Some("输出目标不是普通文件，拒绝覆盖："@ + path),
    }
}

/// Checks that a file may be written: nothing stands there, or a regular file
/// that is to be replaced.
pub fn ensure_output_available(path: &str, entry: OutputEntry, force: bool) -> (result: Result<
    (),
    String,
>)
    ensures
        fault_of(result) == output_fault(path@, entry, force),
{
    match entry {
        OutputEntry::Missing => Ok(()),
        OutputEntry::Regular => if force {
            Ok(())
        } else {
            Err(text3("输出文件已存在：", path, "；如需替换请使用 --force"))
        },
        OutputEntry::Other => Err(text2("输出目标不是普通文件，拒绝覆盖：", path)),
    }
}

} // verus!
