//! What stands in the files that are written.
use vstd::prelude::*;
use crate::asr::json_quoted;
use crate::config::Config;
use crate::laws::numbers::{lemma_digits_below, lemma_padded, ten_to};
use crate::media::storage::seconds_text;
use crate::media::AudioInfo;
use crate::ordered::{text_before, with_text};
use crate::output::{
    completion_sum, escaped, models_until, number_text, output_fault, prompt_sum, providers_until,
    quoted_of, reasoning_sum, timestamp_text, transcript_fields, transcript_markdown, truth_text,
    visible_of, with_file_lines, with_line, with_parts, with_route_lines, with_status_lines,
    with_token_lines, has_unknown, OutputEntry, QuotedView, TranscriptPart, Usage,
};
use crate::text::{
    contains_text, decimal, digits_value, joined, lemma_decimal_round_trip, occurs_at,
    padded_decimal, trimmed,
};

verus! {

// ---------------------------------------------------------------------------
// Lines
// ---------------------------------------------------------------------------

proof fn lemma_holds_behind(whole: Seq<char>, head: Seq<char>, part: Seq<char>)
    requires
        (head + part).is_prefix_of(whole),
    ensures
        contains_text(whole, part),
{
    let at = head.len() as int;
    let both = head + part;
    assert(whole.subrange(0, both.len() as int) == both);
    assert(whole.subrange(at, at + part.len()) =~= part) by {
        assert forall|i: int| 0 <= i < part.len() implies whole[at + i] == part[i] by {
            assert(whole.subrange(0, both.len() as int)[at + i] == both[at + i]);
        }
    }
    assert(occurs_at(whole, at, part));
}

proof fn lemma_prefix(whole: Seq<char>, part: Seq<char>, rest: Seq<char>)
    requires
        whole == part + rest,
    ensures
        part.is_prefix_of(whole),
{
    assert(whole.subrange(0, part.len() as int) =~= part);
}

proof fn lemma_prefix_of_prefix(a: Seq<char>, b: Seq<char>, c: Seq<char>)
    requires
        a.is_prefix_of(b),
        b.is_prefix_of(c),
    ensures
        a.is_prefix_of(c),
{
    assert(c.subrange(0, a.len() as int) =~= a) by {
        assert forall|i: int| 0 <= i < a.len() implies c[i] == a[i] by {
            assert(b.subrange(0, a.len() as int)[i] == a[i]);
            assert(c.subrange(0, b.len() as int)[i] == b[i]);
        }
    }
}

/// A line of metadata: a name and a value.
pub open spec fn line(name: Seq<char>, value: Seq<char>) -> Seq<char> {
    name + ": "@ + value + "\n"@
}

proof fn lemma_line(whole: Seq<char>, text: Seq<char>, name: Seq<char>, value: Seq<char>)
    requires
        with_line(text, name, value).is_prefix_of(whole),
    ensures
        contains_text(whole, line(name, value)),
        text.is_prefix_of(whole),
{
    let now = with_line(text, name, value);
    assert(now =~= text + line(name, value));
    lemma_holds_behind(whole, text, line(name, value));
    lemma_prefix(now, text, line(name, value));
    lemma_prefix_of_prefix(text, now, whole);
}

/// A part of a transcript: a heading with its times, and its words.
pub open spec fn block(part: TranscriptPart) -> Seq<char> {
    "## "@ + timestamp_text(part.start_ms) + "–"@ + timestamp_text(part.end_ms) + "\n\n"@ + trimmed(
        part.completion.text@,
    ) + "\n\n"@
}

proof fn lemma_blocks(text: Seq<char>, parts: Seq<TranscriptPart>, n: nat, m: nat)
    requires
        n <= m <= parts.len(),
    ensures
        with_parts(text, parts, n).is_prefix_of(with_parts(text, parts, m)),
    decreases m,
{
    let whole = with_parts(text, parts, m);
    if n == m {
        assert(whole + Seq::<char>::empty() =~= whole);
        lemma_prefix(whole, whole, Seq::empty());
    } else {
        lemma_blocks(text, parts, n, (m - 1) as nat);
        let before = with_parts(text, parts, (m - 1) as nat);
        assert(whole =~= before + block(parts[m - 1]));
        lemma_prefix(whole, before, block(parts[m - 1]));
        lemma_prefix_of_prefix(with_parts(text, parts, n), before, whole);
    }
}

proof fn lemma_parts_behind(
    metadata: Seq<char>,
    top: Seq<char>,
    parts: Seq<TranscriptPart>,
    n: int,
)
    requires
        0 <= n < parts.len(),
    ensures
        ({
            let text = with_parts(metadata + top, parts, parts.len());
            &&& contains_text(text, block(parts[n]))
            &&& n + 1 < parts.len() ==> contains_text(text, block(parts[n]) + block(parts[n + 1]))
            &&& contains_text(text, top + block(parts[0]))
        }),
{
    let head = metadata + top;
    let text = with_parts(head, parts, parts.len());
    let before = with_parts(head, parts, n as nat);
    let now = with_parts(head, parts, (n + 1) as nat);
    lemma_next(head, parts, n as nat);
    lemma_blocks(head, parts, (n + 1) as nat, parts.len());
    lemma_holds_behind(text, before, block(parts[n]));
    if n + 1 < parts.len() {
        let next = with_parts(head, parts, (n + 2) as nat);
        lemma_next(head, parts, (n + 1) as nat);
        assert(next =~= before + (block(parts[n]) + block(parts[n + 1])));
        lemma_blocks(head, parts, (n + 2) as nat, parts.len());
        lemma_holds_behind(text, before, block(parts[n]) + block(parts[n + 1]));
    }
    lemma_next(head, parts, 0);
    let first = with_parts(head, parts, 1);
    assert(with_parts(head, parts, 0) == head);
    assert(first =~= metadata + (top + block(parts[0])));
    lemma_blocks(head, parts, 1, parts.len());
    lemma_holds_behind(text, metadata, top + block(parts[0]));
}

proof fn lemma_next(text: Seq<char>, parts: Seq<TranscriptPart>, n: nat)
    ensures
        with_parts(text, parts, n + 1) == with_parts(text, parts, n) + block(parts[n as int]),
{
    assert(with_parts(text, parts, n + 1) =~= with_parts(text, parts, n) + block(parts[n as int]));
}

/// Every part of a recording stands in its transcript under a heading with its
/// times, and each is followed by the next one.
pub proof fn lemma_parts_are_written(
    fields: QuotedView,
    title: Seq<char>,
    duration_ms: u64,
    usage: Usage,
    cost: Seq<char>,
    parts: Seq<TranscriptPart>,
    fixed_route: bool,
    n: int,
)
    requires
        0 <= n < parts.len(),
    ensures
        ({
            let text = transcript_markdown(
                fields,
                title,
                duration_ms,
                usage,
                cost,
                parts,
                fixed_route,
            );
            &&& contains_text(text, block(parts[n]))
            &&& n + 1 < parts.len() ==> contains_text(text, block(parts[n]) + block(parts[n + 1]))
            &&& contains_text(text, "---\n\n"@ + "# "@ + title + " 转写稿\n\n"@ + block(parts[0]))
        }),
{
    let text = transcript_markdown(fields, title, duration_ms, usage, cost, parts, fixed_route);
    let metadata = metadata_of(fields, duration_ms, usage, cost, parts, fixed_route);
    let top = "---\n\n"@ + "# "@ + title + " 转写稿\n\n"@;
    let head = metadata + "---\n\n"@ + "# "@ + title + " 转写稿\n\n"@;
    assert(head =~= metadata + top);
    assert(text == with_parts(head, parts, parts.len()));
    lemma_parts_behind(metadata, top, parts, n);
    assert(top + block(parts[0]) == "---\n\n"@ + "# "@ + title + " 转写稿\n\n"@ + block(parts[0]));
}

spec fn metadata_of(
    fields: QuotedView,
    duration_ms: u64,
    usage: Usage,
    cost: Seq<char>,
    parts: Seq<TranscriptPart>,
    fixed_route: bool,
) -> Seq<char> {
    let text = with_route_lines("---\n"@, fields);
    let text = with_line(text, "duration_seconds"@, seconds_text(duration_ms));
    let text = with_file_lines(text, fields);
    let text = with_line(text, "segments"@, number_text(parts.len() as int));
    let text = with_line(
        text,
        "usage_reported_for_all_segments"@,
        truth_text(usage.usage_reported),
    );
    let text = with_line(
        text,
        "reasoning_tokens_reported_for_all_segments"@,
        truth_text(usage.reasoning_tokens_reported),
    );
    let text = with_token_lines(text, usage, cost);
    with_status_lines(text, has_unknown(parts), fixed_route)
}

proof fn lemma_metadata(
    fields: QuotedView,
    title: Seq<char>,
    duration_ms: u64,
    usage: Usage,
    cost: Seq<char>,
    parts: Seq<TranscriptPart>,
    fixed_route: bool,
)
    ensures
        metadata_of(fields, duration_ms, usage, cost, parts, fixed_route).is_prefix_of(
            transcript_markdown(fields, title, duration_ms, usage, cost, parts, fixed_route),
        ),
{
    let metadata = metadata_of(fields, duration_ms, usage, cost, parts, fixed_route);
    lemma_top_behind(metadata, title, parts);
}

proof fn lemma_top_behind(metadata: Seq<char>, title: Seq<char>, parts: Seq<TranscriptPart>)
    ensures
        metadata.is_prefix_of(
            with_parts(
                metadata + "---\n\n"@ + "# "@ + title + " 转写稿\n\n"@,
                parts,
                parts.len(),
            ),
        ),
{
    let top = "---\n\n"@ + "# "@ + title + " 转写稿\n\n"@;
    let head = metadata + "---\n\n"@ + "# "@ + title + " 转写稿\n\n"@;
    assert(head =~= metadata + top);
    lemma_prefix(head, metadata, top);
    lemma_blocks(head, parts, 0, parts.len());
    lemma_prefix_of_prefix(metadata, head, with_parts(head, parts, parts.len()));
}

/// The metadata of a transcript says where the text comes from, how long the
/// recording is, in how many parts it was heard and what was reported.
pub proof fn lemma_metadata_is_written(
    name: Seq<char>,
    config: Config,
    info: AudioInfo,
    title: Seq<char>,
    usage: Usage,
    cost: Seq<char>,
    parts: Seq<TranscriptPart>,
    fixed_route: bool,
)
    ensures
        ({
            let text = transcript_markdown(
                quoted_of(transcript_fields(name, config, info, parts)),
                title,
                info.duration_ms,
                usage,
                cost,
                parts,
                fixed_route,
            );
            &&& "---\n"@.is_prefix_of(text)
            &&& contains_text(text, line("source"@, json_quoted(name)))
            &&& contains_text(text, line("model_requested"@, json_quoted(config.model@)))
            &&& contains_text(text, line("provider_requested"@, json_quoted(config.provider@)))
            &&& contains_text(
                text,
                line(
                    "model_reported_or_requested"@,
                    json_quoted(joined(models_until(parts, parts.len()), ", "@)),
                ),
            )
            &&& contains_text(
                text,
                line(
                    "provider_reported_or_requested"@,
                    json_quoted(joined(providers_until(parts, parts.len()), ", "@)),
                ),
            )
            &&& contains_text(text, line("duration_seconds"@, seconds_text(info.duration_ms)))
            &&& contains_text(text, line("source_codec"@, json_quoted(info.codec@)))
            &&& contains_text(text, line("source_container"@, json_quoted(info.container@)))
            &&& contains_text(text, line("segments"@, decimal(parts.len())))
            &&& contains_text(
                text,
                line(
                    "usage_reported_for_all_segments"@,
                    if usage.usage_reported {
                        "true"@
                    } else {
                        "false"@
                    },
                ),
            )
            &&& contains_text(
                text,
                line(
                    "reasoning_tokens_reported_for_all_segments"@,
                    if usage.reasoning_tokens_reported {
                        "true"@
                    } else {
                        "false"@
                    },
                ),
            )
        }),
{
    let fields = quoted_of(transcript_fields(name, config, info, parts));
    let text = transcript_markdown(
        fields,
        title,
        info.duration_ms,
        usage,
        cost,
        parts,
        fixed_route,
    );
    lemma_metadata(fields, title, info.duration_ms, usage, cost, parts, fixed_route);
    let t1 = with_line("---\n"@, "source"@, fields.source);
    let t2 = with_line(t1, "model_requested"@, fields.model);
    let t3 = with_line(t2, "provider_requested"@, fields.provider);
    let t4 = with_line(t3, "model_reported_or_requested"@, fields.models);
    let t5 = with_line(t4, "provider_reported_or_requested"@, fields.providers);
    let t6 = with_line(t5, "duration_seconds"@, seconds_text(info.duration_ms));
    let t7 = with_line(t6, "source_codec"@, fields.codec);
    let t8 = with_line(t7, "source_container"@, fields.container);
    let t9 = with_line(t8, "segments"@, number_text(parts.len() as int));
    let t10 = with_line(t9, "usage_reported_for_all_segments"@, truth_text(usage.usage_reported));
    let t11 = with_line(
        t10,
        "reasoning_tokens_reported_for_all_segments"@,
        truth_text(usage.reasoning_tokens_reported),
    );
    lemma_tail(text, t11, usage, cost, parts, fixed_route);
    lemma_line(
        text,
        t10,
        "reasoning_tokens_reported_for_all_segments"@,
        truth_text(usage.reasoning_tokens_reported),
    );
    lemma_line(text, t9, "usage_reported_for_all_segments"@, truth_text(usage.usage_reported));
    lemma_line(text, t8, "segments"@, number_text(parts.len() as int));
    lemma_line(text, t7, "source_container"@, fields.container);
    lemma_line(text, t6, "source_codec"@, fields.codec);
    lemma_line(text, t5, "duration_seconds"@, seconds_text(info.duration_ms));
    lemma_line(text, t4, "provider_reported_or_requested"@, fields.providers);
    lemma_line(text, t3, "model_reported_or_requested"@, fields.models);
    lemma_line(text, t2, "provider_requested"@, fields.provider);
    lemma_line(text, t1, "model_requested"@, fields.model);
    lemma_line(text, "---\n"@, "source"@, fields.source);
}

proof fn lemma_tail(
    whole: Seq<char>,
    text: Seq<char>,
    usage: Usage,
    cost: Seq<char>,
    parts: Seq<TranscriptPart>,
    fixed_route: bool,
)
    requires
        with_status_lines(
            with_token_lines(text, usage, cost),
            has_unknown(parts),
            fixed_route,
        ).is_prefix_of(whole),
    ensures
        text.is_prefix_of(whole),
        with_token_lines(text, usage, cost).is_prefix_of(whole),
        contains_text(whole, line("speaker_alignment_status"@, "\"not_verified\""@)),
        contains_text(whole, line("speaker_identity_accuracy"@, "\"not_measured\""@)),
        contains_text(
            whole,
            line(
                "speaker_label_assignment_status"@,
                if has_unknown(parts) {
                    "\"unknown_labels_present\""@
                } else {
                    "\"no_unknown_labels_present\""@
                },
            ),
        ),
        fixed_route ==> contains_text(
            whole,
            line(
                "asr_provider_privacy_mode"@,
                "\"catalog_unique_zdr_preflight_no_request_level_pin\""@,
            ),
        ),
        contains_text(whole, line("reported_prompt_tokens"@, number_text(usage.prompt_tokens as int))),
        contains_text(
            whole,
            line("reported_completion_tokens"@, number_text(usage.completion_tokens as int)),
        ),
        contains_text(
            whole,
            line("reported_reasoning_tokens"@, number_text(usage.reasoning_tokens as int)),
        ),
        contains_text(
            whole,
            line("reported_visible_output_tokens"@, number_text(visible_of(usage))),
        ),
        contains_text(whole, line("reported_accepted_cost_usd"@, cost)),
{
    let unknown = has_unknown(parts);
    let tokens = with_token_lines(text, usage, cost);
    let s1 = with_line(tokens, "transcript_accuracy_verification"@, "\"not_measured\""@);
    let status = if unknown {
        "\"unknown_labels_present\""@
    } else {
        "\"no_unknown_labels_present\""@
    };
    let s2 = with_line(s1, "speaker_label_assignment_status"@, status);
    let s3 = with_line(s2, "speaker_alignment_status"@, "\"not_verified\""@);
    let s4 = with_line(s3, "speaker_identity_accuracy"@, "\"not_measured\""@);
    if fixed_route {
        lemma_line(
            whole,
            s4,
            "asr_provider_privacy_mode"@,
            "\"catalog_unique_zdr_preflight_no_request_level_pin\""@,
        );
    }
    lemma_line(whole, s3, "speaker_identity_accuracy"@, "\"not_measured\""@);
    lemma_line(whole, s2, "speaker_alignment_status"@, "\"not_verified\""@);
    lemma_line(whole, s1, "speaker_label_assignment_status"@, status);
    lemma_line(whole, tokens, "transcript_accuracy_verification"@, "\"not_measured\""@);
    let k1 = with_line(text, "reported_prompt_tokens"@, number_text(usage.prompt_tokens as int));
    let k2 = with_line(
        k1,
        "reported_completion_tokens"@,
        number_text(usage.completion_tokens as int),
    );
    let k3 = with_line(
        k2,
        "reported_reasoning_tokens"@,
        number_text(usage.reasoning_tokens as int),
    );
    let k4 = with_line(k3, "reported_visible_output_tokens"@, number_text(visible_of(usage)));
    lemma_line(whole, k4, "reported_accepted_cost_usd"@, cost);
    lemma_line(whole, k3, "reported_visible_output_tokens"@, number_text(visible_of(usage)));
    lemma_line(
        whole,
        k2,
        "reported_reasoning_tokens"@,
        number_text(usage.reasoning_tokens as int),
    );
    lemma_line(
        whole,
        k1,
        "reported_completion_tokens"@,
        number_text(usage.completion_tokens as int),
    );
    lemma_line(whole, text, "reported_prompt_tokens"@, number_text(usage.prompt_tokens as int));
}

/// The metadata of a transcript says what was counted and what it cost, and
/// what was not measured: nothing of the words, nothing of the speakers.
pub proof fn lemma_counts_are_written(
    fields: QuotedView,
    title: Seq<char>,
    duration_ms: u64,
    usage: Usage,
    cost: Seq<char>,
    parts: Seq<TranscriptPart>,
    fixed_route: bool,
)
    requires
        usage.reasoning_tokens <= usage.completion_tokens,
    ensures
        ({
            let text = transcript_markdown(
                fields,
                title,
                duration_ms,
                usage,
                cost,
                parts,
                fixed_route,
            );
            &&& contains_text(
                text,
                line("reported_prompt_tokens"@, decimal(usage.prompt_tokens as nat)),
            )
            &&& contains_text(
                text,
                line("reported_completion_tokens"@, decimal(usage.completion_tokens as nat)),
            )
            &&& contains_text(
                text,
                line("reported_reasoning_tokens"@, decimal(usage.reasoning_tokens as nat)),
            )
            &&& contains_text(
                text,
                line(
                    "reported_visible_output_tokens"@,
                    decimal((usage.completion_tokens - usage.reasoning_tokens) as nat),
                ),
            )
            &&& contains_text(text, line("reported_accepted_cost_usd"@, cost))
            &&& contains_text(text, line("speaker_alignment_status"@, "\"not_verified\""@))
            &&& contains_text(text, line("speaker_identity_accuracy"@, "\"not_measured\""@))
            &&& has_unknown(parts) ==> contains_text(
                text,
                line("speaker_label_assignment_status"@, "\"unknown_labels_present\""@),
            )
            &&& !has_unknown(parts) ==> contains_text(
                text,
                line("speaker_label_assignment_status"@, "\"no_unknown_labels_present\""@),
            )
            &&& fixed_route ==> contains_text(
                text,
                line(
                    "asr_provider_privacy_mode"@,
                    "\"catalog_unique_zdr_preflight_no_request_level_pin\""@,
                ),
            )
        }),
{
    let text = transcript_markdown(fields, title, duration_ms, usage, cost, parts, fixed_route);
    lemma_metadata(fields, title, duration_ms, usage, cost, parts, fixed_route);
    let t = with_route_lines("---\n"@, fields);
    let t = with_line(t, "duration_seconds"@, seconds_text(duration_ms));
    let t = with_file_lines(t, fields);
    let t = with_line(t, "segments"@, number_text(parts.len() as int));
    let t = with_line(t, "usage_reported_for_all_segments"@, truth_text(usage.usage_reported));
    let t = with_line(
        t,
        "reasoning_tokens_reported_for_all_segments"@,
        truth_text(usage.reasoning_tokens_reported),
    );
    lemma_tail(text, t, usage, cost, parts, fixed_route);
}

// ---------------------------------------------------------------------------
// Sums and lists
// ---------------------------------------------------------------------------

/// What one more part reports is added to what the others report, and nothing
/// else is.
pub proof fn lemma_tokens_add_up(parts: Seq<TranscriptPart>, part: TranscriptPart)
    ensures
        ({
            let more = parts.push(part);
            &&& prompt_sum(more, more.len()) - prompt_sum(parts, parts.len())
                == part.completion.prompt_tokens
            &&& completion_sum(more, more.len()) - completion_sum(parts, parts.len())
                == part.completion.completion_tokens
            &&& reasoning_sum(more, more.len()) - reasoning_sum(parts, parts.len())
                == part.completion.reasoning_tokens
        }),
        prompt_sum(Seq::empty(), 0) == 0,
        completion_sum(Seq::empty(), 0) == 0,
        reasoning_sum(Seq::empty(), 0) == 0,
{
    lemma_sums_same(parts, parts.push(part), parts.len());
}

proof fn lemma_sums_same(parts: Seq<TranscriptPart>, more: Seq<TranscriptPart>, n: nat)
    requires
        n <= parts.len() <= more.len(),
        forall|i: int| 0 <= i < n ==> #[trigger] parts[i] == more[i],
    ensures
        prompt_sum(parts, n) == prompt_sum(more, n),
        completion_sum(parts, n) == completion_sum(more, n),
        reasoning_sum(parts, n) == reasoning_sum(more, n),
    decreases n,
{
    if n > 0 {
        lemma_sums_same(parts, more, (n - 1) as nat);
        assert(parts[n - 1] == more[n - 1]);
    }
}

proof fn lemma_with_text(list: Seq<Seq<char>>, text: Seq<char>, other: Seq<char>)
    ensures
        with_text(list, text).contains(other) <==> list.contains(other) || other == text,
    decreases list.len(),
{
    let now = with_text(list, text);
    if list.len() == 0 {
        assert(now[0] == text);
    } else if list.last() == text {
        assert(list[list.len() - 1] == text);
    } else if text_before(list.last(), text) {
        assert(now[list.len() as int] == text);
        if list.contains(other) {
            assert(now[list.index_of(other)] == other);
        }
        if now.contains(other) {
            let i = now.index_of(other);
            if i < list.len() {
                assert(list[i] == other);
            }
        }
    } else {
        let most = list.drop_last();
        lemma_with_text(most, text, other);
        let rest = with_text(most, text);
        assert(now == rest.push(list.last()));
        if rest.contains(other) {
            assert(now[rest.index_of(other)] == other);
        }
        assert(now[rest.len() as int] == list.last());
        if list.contains(other) {
            let i = list.index_of(other);
            if i < most.len() {
                assert(most[i] == other);
            }
        }
        if most.contains(other) {
            assert(list[most.index_of(other)] == other);
        }
        assert(list[list.len() - 1] == list.last());
        if now.contains(other) {
            let i = now.index_of(other);
            if i < rest.len() {
                assert(rest[i] == other);
            }
        }
    }
}

/// The lists of models and of providers hold those of the parts and no others.
pub proof fn lemma_models_of_parts(parts: Seq<TranscriptPart>, n: nat, name: Seq<char>)
    requires
        n <= parts.len(),
    ensures
        models_until(parts, n).contains(name) <==> exists|i: int|
            0 <= i < n && (#[trigger] parts[i]).completion.model@ == name,
        providers_until(parts, n).contains(name) <==> exists|i: int|
            0 <= i < n && (#[trigger] parts[i]).completion.provider@ == name,
    decreases n,
{
    if n > 0 {
        lemma_models_of_parts(parts, (n - 1) as nat, name);
        lemma_with_text(
            models_until(parts, (n - 1) as nat),
            parts[n - 1].completion.model@,
            name,
        );
        lemma_with_text(
            providers_until(parts, (n - 1) as nat),
            parts[n - 1].completion.provider@,
            name,
        );
        assert(parts[n - 1] == parts[n - 1]);
    }
}

// ---------------------------------------------------------------------------
// Characters
// ---------------------------------------------------------------------------

/// Nothing of a text has a meaning in Markdown: each of seventeen marks gets a
/// backslash, three others get their names, and all else stays.
pub proof fn lemma_marks_are_escaped(left: Seq<char>, right: Seq<char>, c: char)
    ensures
        escaped(left + right) == escaped(left) + escaped(right),
        (c == '\\' || c == '`' || c == '*' || c == '_' || c == '{' || c == '}' || c == '[' || c
            == ']' || c == '(' || c == ')' || c == '#' || c == '+' || c == '-' || c == '.' || c
            == '!' || c == '|' || c == '~') ==> escaped(seq![c]) == seq!['\\', c],
        escaped(seq!['&']) == seq!['&', 'a', 'm', 'p', ';'],
        escaped(seq!['<']) == seq!['&', 'l', 't', ';'],
        escaped(seq!['>']) == seq!['&', 'g', 't', ';'],
        ('0' <= c <= '9' || 'a' <= c <= 'z' || 'A' <= c <= 'Z' || c as u32 >= 0x80 || c == ' ' || c
            == ',' || c == ':' || c == ';' || c == '?' || c == '%' || c == '"' || c == '\'' || c
            == '/' || c == '@' || c == '$' || c == '=' || c == '^') ==> escaped(seq![c])
            == seq![c],
    decreases right.len(),
{
    let whole = left + right;
    if right.len() == 0 {
        assert(whole =~= left);
    } else {
        lemma_marks_are_escaped(left, right.drop_last(), c);
        assert(whole.drop_last() =~= left + right.drop_last());
        assert(whole.last() == right.last());
    }
    assert(escaped(whole) =~= escaped(left) + escaped(right));
    lemma_escaped_one(c);
    lemma_escaped_one('&');
    lemma_escaped_one('<');
    lemma_escaped_one('>');
    reveal_strlit("&amp;");
    reveal_strlit("&lt;");
    reveal_strlit("&gt;");
    assert("&amp;"@ =~= seq!['&', 'a', 'm', 'p', ';']);
    assert("&lt;"@ =~= seq!['&', 'l', 't', ';']);
    assert("&gt;"@ =~= seq!['&', 'g', 't', ';']);
}

proof fn lemma_escaped_one(c: char)
    ensures
        escaped(seq![c]) == crate::output::escaped_char(c),
{
    let one = seq![c];
    assert(one.drop_last() =~= Seq::empty());
    assert(escaped(Seq::<char>::empty()) =~= Seq::empty());
    assert(escaped(one) == escaped(one.drop_last()) + crate::output::escaped_char(one.last()));
    assert(escaped(one) =~= crate::output::escaped_char(c));
}

/// A number of seconds is read back: what stands before the point are the full
/// seconds, and three digits behind it are the thousandths.
pub proof fn lemma_seconds_are_read_back(milliseconds: u64)
    ensures
        exists|whole: Seq<char>, part: Seq<char>| #[trigger]
            (whole + seq!['.'] + part) == seconds_text(milliseconds) && part.len() == 3
                && digits_value(whole) * 1_000 + digits_value(part) == milliseconds,
{
    reveal_strlit(".");
    reveal_with_fuel(ten_to, 4);
    let whole = decimal((milliseconds / 1_000) as nat);
    let rest = (milliseconds % 1_000) as nat;
    let part = padded_decimal(rest, 3);
    lemma_decimal_round_trip((milliseconds / 1_000) as nat);
    lemma_padded(rest, 3);
    lemma_digits_below(rest, 3);
    assert("."@ =~= seq!['.']);
    assert(whole + seq!['.'] + part =~= seconds_text(milliseconds));
}

/// A file that exists is replaced only where that is asked for, and what is no
/// file never is.
pub proof fn lemma_nothing_is_overwritten(path: Seq<char>, force: bool)
    ensures
        output_fault(path, OutputEntry::Missing, force) is None,
        output_fault(path, OutputEntry::Regular, force) is None <==> force,
        output_fault(path, OutputEntry::Other, force) is Some,
{
}

} // verus!
