//! What other programs are told to do, what the words of a call mean, and which
//! entries a list shows.
use vstd::prelude::*;
use crate::bench_cli::{bench_outcome, read_options, BenchOutcome, PathsView};
use crate::config_files::{boundary_fault, source_of, ConfigSource, EntryFacts};
use crate::json::{field, field_holds, inner_field, natural_in, text_in, Json};
use crate::media::commands::{
    image_arguments_of, master_arguments_of, piece_arguments_of, probe_arguments_of,
    silence_arguments_of,
};
use crate::media::packet::{all_input_arguments, packet_arguments_of, PacketInput};
use crate::media::storage::seconds_text;
use crate::openrouter::catalog::{
    audio_models, endpoint_lines, entry_name, lemma_lists_in_order, lemma_summary_keeps_order,
    with_summary, SummaryView,
};
use crate::text::{bounded_text, decimal, lowercased, trimmed};

verus! {

// ---------------------------------------------------------------------------
// Arguments
// ---------------------------------------------------------------------------

/// An option stands in a list with its value behind it.
pub open spec fn sets(arguments: Seq<Seq<char>>, option: Seq<char>, value: Seq<char>) -> bool {
    exists|at: int|
        0 <= at && at + 1 < arguments.len() && #[trigger] arguments[at] == option && arguments[at
            + 1] == value
}

/// Every program that reads a file may open local files of the allowed formats
/// alone, reads that file, and writes to the place that is given.
pub proof fn lemma_programs_stay_local(
    formats: Seq<char>,
    source: Seq<char>,
    demuxer: Option<Seq<char>>,
    start_ms: u64,
    duration_ms: u64,
    most_bytes: u64,
    output: Seq<char>,
)
    ensures
        ({
            let master = master_arguments_of(formats, source, most_bytes, output);
            &&& sets(master, "-format_whitelist"@, formats)
            &&& sets(master, "-protocol_whitelist"@, "file"@)
            &&& sets(master, "-i"@, source)
            &&& sets(master, "-fs"@, decimal(most_bytes as nat))
            &&& sets(master, "-codec:a"@, "flac"@)
            &&& sets(master, "-ac"@, "1"@)
            &&& sets(master, "-ar"@, "32000"@)
            &&& master.last() == output
        }),
        ({
            let piece = piece_arguments_of(formats, source, start_ms, duration_ms, output);
            &&& sets(piece, "-format_whitelist"@, formats)
            &&& sets(piece, "-protocol_whitelist"@, "file"@)
            &&& sets(piece, "-i"@, source)
            &&& sets(piece, "-ss"@, seconds_text(start_ms))
            &&& sets(piece, "-t"@, seconds_text(duration_ms))
            &&& sets(piece, "-codec:a"@, "libmp3lame"@)
            &&& sets(piece, "-ac"@, "1"@)
            &&& sets(piece, "-ar"@, "32000"@)
            &&& piece.last() == output
        }),
        ({
            let silence = silence_arguments_of(formats, source);
            &&& sets(silence, "-format_whitelist"@, formats)
            &&& sets(silence, "-protocol_whitelist"@, "file"@)
            &&& sets(silence, "-i"@, source)
            &&& sets(silence, "-af"@, "silencedetect=noise=-30dB:d=1.0"@)
        }),
        ({
            let image = image_arguments_of(formats, demuxer, source, most_bytes, output);
            &&& sets(image, "-format_whitelist"@, formats)
            &&& sets(image, "-protocol_whitelist"@, "file"@)
            &&& sets(image, "-i"@, source)
            &&& sets(image, "-fs"@, decimal(most_bytes as nat))
            &&& sets(image, "-frames:v"@, "1"@)
            &&& demuxer is Some ==> sets(image, "-f"@, demuxer->0)
            &&& image.last() == output
        }),
        ({
            let probe = probe_arguments_of(formats, demuxer, source);
            &&& sets(probe, "-format_whitelist"@, formats)
            &&& sets(probe, "-protocol_whitelist"@, "file"@)
            &&& sets(probe, "-of"@, "json"@)
            &&& demuxer is Some ==> sets(probe, "-f"@, demuxer->0)
            &&& sets(probe, "-i"@, source)
            &&& probe.last() == source
        }),
{
    let master = master_arguments_of(formats, source, most_bytes, output);
    assert(master[6] == "-format_whitelist"@ && master[8] == "-protocol_whitelist"@ && master[10]
        == "-i"@ && master[19] == "-ac"@ && master[21] == "-ar"@ && master[25] == "-codec:a"@
        && master[29] == "-fs"@);
    let piece = piece_arguments_of(formats, source, start_ms, duration_ms, output);
    assert(piece[5] == "-ss"@ && piece[7] == "-format_whitelist"@ && piece[9]
        == "-protocol_whitelist"@ && piece[11] == "-i"@ && piece[13] == "-t"@ && piece[22] == "-ac"@
        && piece[24] == "-ar"@ && piece[26] == "-codec:a"@);
    let silence = silence_arguments_of(formats, source);
    assert(silence[5] == "-format_whitelist"@ && silence[7] == "-protocol_whitelist"@ && silence[9]
        == "-i"@ && silence[11] == "-af"@);
    let image = image_arguments_of(formats, demuxer, source, most_bytes, output);
    let n: int = if demuxer is Some {
        14
    } else {
        12
    };
    assert(image[8] == "-format_whitelist"@ && image[9] == formats && image[10]
        == "-protocol_whitelist"@ && image[11] == "file"@);
    if demuxer is Some {
        assert(image[12] == "-f"@ && image[13] == demuxer->0);
    }
    assert(image[n] == "-i"@ && image[n + 1] == source);
    assert(image[n + 6] == "-frames:v"@ && image[n + 7] == "1"@);
    assert(image[n + 12] == "-fs"@ && image[n + 13] == decimal(most_bytes as nat));
    let probe = probe_arguments_of(formats, demuxer, source);
    let m: int = if demuxer is Some {
        14
    } else {
        10
    };
    assert(probe[2] == "-format_whitelist"@ && probe[3] == formats && probe[4]
        == "-protocol_whitelist"@ && probe[5] == "file"@ && probe[8] == "-of"@ && probe[9]
        == "json"@);
    if demuxer is Some {
        assert(probe[10] == "-f"@ && probe[11] == demuxer->0);
    }
    assert(probe[m] == "-i"@ && probe[m + 1] == source);
}

/// A part of a packet stands in a list of arguments: sound with its start and
/// its length from the file, silence with its length.
pub open spec fn plays(
    arguments: Seq<Seq<char>>,
    at: int,
    input: PacketInput,
    formats: Seq<char>,
    source: Seq<char>,
) -> bool {
    match input {
        PacketInput::Sound { start_ms, duration_ms } => at >= 0 && at + 10 <= arguments.len()
            && arguments[at] == "-format_whitelist"@ && arguments[at + 1] == formats && arguments[at
            + 2] == "-protocol_whitelist"@ && arguments[at + 3] == "file"@ && arguments[at + 4]
            == "-ss"@ && arguments[at + 5] == seconds_text(start_ms) && arguments[at + 6] == "-t"@
            && arguments[at + 7] == seconds_text(duration_ms) && arguments[at + 8] == "-i"@
            && arguments[at + 9] == source,
        PacketInput::Silence { duration_ms } => at >= 0 && at + 6 <= arguments.len()
            && arguments[at] == "-f"@ && arguments[at + 1] == "lavfi"@ && arguments[at + 2] == "-t"@
            && arguments[at + 3] == seconds_text(duration_ms) && arguments[at + 4] == "-i"@
            && arguments[at + 5] == "anullsrc=r=32000:cl=mono"@,
    }
}

proof fn lemma_input_stands(
    inputs: Seq<PacketInput>,
    formats: Seq<char>,
    source: Seq<char>,
    n: nat,
    k: int,
) -> (at: int)
    requires
        0 <= k < n <= inputs.len(),
    ensures
        plays(all_input_arguments(inputs, formats, source, n), at, inputs[k], formats, source),
        at + (if inputs[k] is Sound {
            10int
        } else {
            6
        }) <= all_input_arguments(inputs, formats, source, n).len(),
    decreases n,
{
    let before = all_input_arguments(inputs, formats, source, (n - 1) as nat);
    if k == n - 1 {
        before.len() as int
    } else {
        lemma_input_stands(inputs, formats, source, (n - 1) as nat, k)
    }
}

/// Every part of a packet is told to the program that makes it, and the packet
/// is written to the place that is given.
pub proof fn lemma_packet_is_told(
    inputs: Seq<PacketInput>,
    formats: Seq<char>,
    source: Seq<char>,
    output: Seq<char>,
    k: int,
)
    requires
        0 <= k < inputs.len(),
    ensures
        exists|at: int| #[trigger]
            plays(
                packet_arguments_of(inputs, formats, source, output),
                at,
                inputs[k],
                formats,
                source,
            ),
        packet_arguments_of(inputs, formats, source, output).last() == output,
        sets(packet_arguments_of(inputs, formats, source, output), "-map"@, "[packet]"@),
        sets(packet_arguments_of(inputs, formats, source, output), "-ar"@, "32000"@),
        sets(packet_arguments_of(inputs, formats, source, output), "-ac"@, "1"@),
        sets(packet_arguments_of(inputs, formats, source, output), "-codec:a"@, "libmp3lame"@),
{
    let arguments = packet_arguments_of(inputs, formats, source, output);
    let parts = all_input_arguments(inputs, formats, source, inputs.len());
    let at = lemma_input_stands(inputs, formats, source, inputs.len(), k);
    assert(plays(arguments, at + 5, inputs[k], formats, source));
    let n = 5 + parts.len() as int;
    assert(arguments[n + 2] == "-map"@ && arguments[n + 3] == "[packet]"@);
    assert(arguments[n + 8] == "-ac"@ && arguments[n + 9] == "1"@);
    assert(arguments[n + 10] == "-ar"@ && arguments[n + 11] == "32000"@);
    assert(arguments[n + 12] == "-codec:a"@ && arguments[n + 13] == "libmp3lame"@);
}

// ---------------------------------------------------------------------------
// Words
// ---------------------------------------------------------------------------

proof fn lemma_option_names()
    ensures
        "--case"@ != "--transcript"@ && "--case"@ != "--run"@ && "--case"@ != "--report"@,
        "--transcript"@ != "--run"@ && "--transcript"@ != "--report"@ && "--run"@ != "--report"@,
        "evaluate"@ != "--help"@ && "evaluate"@ != "-h"@ && "evaluate"@ != "help"@,
{
    reveal_strlit("--case");
    reveal_strlit("--transcript");
    reveal_strlit("--run");
    reveal_strlit("--report");
    reveal_strlit("evaluate");
    reveal_strlit("--help");
    reveal_strlit("-h");
    reveal_strlit("help");
    assert("--case"@.len() == 6 && "--transcript"@.len() == 12 && "--run"@.len() == 5
        && "--report"@.len() == 8);
    assert("evaluate"@.len() == 8 && "--help"@.len() == 6 && "-h"@.len() == 2 && "help"@.len()
        == 4);
}

/// The paths of a case and of a transcript are taken in any order, each behind
/// its own option; a case alone is enough, and without one nothing is done.
pub proof fn lemma_paths_of_a_call(case: Seq<char>, transcript: Seq<char>)
    ensures
        ({
            let both = BenchOutcome::Evaluate(
                PathsView {
                    case_directory: Some(case),
                    transcript: Some(transcript),
                    run: None,
                    report: None,
                },
            );
            &&& bench_outcome(seq!["evaluate"@, "--case"@, case, "--transcript"@, transcript])
                == both
            &&& bench_outcome(seq!["evaluate"@, "--transcript"@, transcript, "--case"@, case])
                == both
        }),
        bench_outcome(seq!["evaluate"@, "--case"@, case]) == BenchOutcome::Evaluate(
            PathsView { case_directory: Some(case), transcript: None, run: None, report: None },
        ),
        bench_outcome(seq!["evaluate"@, "--transcript"@, transcript]) == BenchOutcome::MissingCase,
        bench_outcome(seq!["evaluate"@, "--case"@]) == BenchOutcome::MissingPath("--case"@),
{
    lemma_option_names();
    reveal_with_fuel(read_options, 4);
}

/// The same of the paths of a run and of a report.
pub proof fn lemma_more_paths_of_a_call(case: Seq<char>, run: Seq<char>, report: Seq<char>)
    ensures
        bench_outcome(seq!["evaluate"@, "--case"@, case, "--run"@, run, "--report"@, report])
            == BenchOutcome::Evaluate(
            PathsView {
                case_directory: Some(case),
                transcript: None,
                run: Some(run),
                report: Some(report),
            },
        ),
{
    lemma_option_names();
    reveal_with_fuel(read_options, 5);
}

// ---------------------------------------------------------------------------
// Places of settings
// ---------------------------------------------------------------------------

/// A path that is given comes before the directory for settings, and that
/// before the home directory; a variable that is empty decides nothing.
pub proof fn lemma_where_settings_lie(
    explicit_empty: Option<bool>,
    xdg_empty: Option<bool>,
    has_home: bool,
)
    ensures
        source_of(Some(false), xdg_empty, has_home) == Ok::<ConfigSource, Seq<char>>(
            ConfigSource::Explicit,
        ),
        explicit_empty != Some(false) ==> source_of(explicit_empty, Some(false), has_home) == Ok::<
            ConfigSource,
            Seq<char>,
        >(ConfigSource::Xdg),
        explicit_empty != Some(false) && xdg_empty != Some(false) ==> (source_of(
            explicit_empty,
            xdg_empty,
            has_home,
        ) == Ok::<ConfigSource, Seq<char>>(ConfigSource::Home) <==> has_home),
        explicit_empty != Some(false) && xdg_empty != Some(false) && !has_home ==> source_of(
            explicit_empty,
            xdg_empty,
            has_home,
        ) is Err,
{
}

/// A directory for settings is made only in one that is no link and that
/// neither the group nor others may write to.
pub proof fn lemma_where_settings_are_made(
    path: Seq<char>,
    boundary: Seq<char>,
    entry: EntryFacts,
    rest: Seq<Option<EntryFacts>>,
)
    ensures
        boundary_fault(path, boundary, seq![Some(entry)] + rest) is None <==> !entry.is_symlink
            && entry.is_directory && !entry.is_reparse_point && entry.mode & 0o020 == 0 && entry.mode
            & 0o002 == 0,
        boundary_fault(path, boundary, Seq::empty()) is Some,
{
    let mode = entry.mode;
    assert(mode & 0o022 == 0 <==> mode & 0o020 == 0 && mode & 0o002 == 0) by (bit_vector);
    assert((seq![Some(entry)] + rest)[0] == Some(entry));
}

// ---------------------------------------------------------------------------
// Lists
// ---------------------------------------------------------------------------

proof fn lemma_with_summary_holds(list: Seq<SummaryView>, line: SummaryView, other: SummaryView)
    requires
        crate::openrouter::catalog::keys_in_order(list),
    ensures
        with_summary(list, line).contains(other) <==> other == line || list.contains(other),
{
    lemma_summary_keeps_order(list, line);
    let longer = with_summary(list, line);
    list.to_multiset_ensures();
    longer.to_multiset_ensures();
    assert(longer.contains(other) <==> longer.to_multiset().count(other) > 0);
    assert(list.contains(other) <==> list.to_multiset().count(other) > 0);
}

/// A model is listed exactly where it takes sound and holds what is searched
/// for.
pub proof fn lemma_listed_models(items: Seq<Json>, n: nat, line: SummaryView)
    requires
        n <= items.len(),
    ensures
        audio_models(items, None, n).contains(line) <==> exists|k: int|
            0 <= k < n && field_holds(
                inner_field(#[trigger] items[k], "architecture"@, "input_modalities"@),
                "audio"@,
            ) && line == crate::openrouter::catalog::model_line(items[k], entry_name(items[k])),
    decreases n,
{
    if n > 0 {
        let before = audio_models(items, None, (n - 1) as nat);
        let entry = items[n - 1];
        lemma_listed_models(items, (n - 1) as nat, line);
        lemma_lists_in_order(items, None, (n - 1) as nat);
        lemma_with_summary_holds(
            before,
            crate::openrouter::catalog::model_line(entry, entry_name(entry)),
            line,
        );
    }
}

/// A list has a line with a key.
pub open spec fn is_listed(list: Seq<SummaryView>, key: Seq<char>) -> bool {
    exists|line: SummaryView| #[trigger] list.contains(line) && line.key == key
}

/// What is listed of an endpoint is its own tag and its own limits.
pub proof fn lemma_listed_endpoints(items: Seq<Json>, n: nat, line: SummaryView)
    requires
        n <= items.len(),
    ensures
        endpoint_lines(items, n).contains(line) ==> exists|k: int|
            0 <= k < n && text_in(field(#[trigger] items[k], "tag"@)) == Some(line.key) && (
            natural_in(field(items[k], "context_length"@)) matches Some(context)
                ==> line.context_length == context) && (natural_in(
                field(items[k], "max_completion_tokens"@),
            ) matches Some(most) ==> line.max_completion_tokens == most),
        forall|k: int|
            0 <= k < n && text_in(field(#[trigger] items[k], "tag"@)) is Some ==> is_listed(
                endpoint_lines(items, n),
                text_in(field(items[k], "tag"@))->0,
            ),
    decreases n,
{
    if n > 0 {
        let before = endpoint_lines(items, (n - 1) as nat);
        let entry = items[n - 1];
        lemma_listed_endpoints(items, (n - 1) as nat, line);
        lemma_lists_in_order(items, None, (n - 1) as nat);
        if let Some(tag) = text_in(field(entry, "tag"@)) {
            let own = crate::openrouter::catalog::endpoint_line(entry, tag);
            lemma_with_summary_holds(before, own, line);
            lemma_with_summary_holds(before, own, own);
            assert(endpoint_lines(items, n).contains(own));
            assert forall|k: int|
                0 <= k < n && text_in(field(#[trigger] items[k], "tag"@)) is Some implies is_listed(
                endpoint_lines(items, n),
                text_in(field(items[k], "tag"@))->0,
            ) by {
                if k == n - 1 {
                    assert(endpoint_lines(items, n).contains(own));
                } else {
                    let other = choose|other: SummaryView| #[trigger]
                        before.contains(other) && other.key == text_in(
                            field(items[k], "tag"@),
                        )->0;
                    lemma_with_summary_holds(before, own, other);
                    assert(endpoint_lines(items, n).contains(other));
                }
            }
        } else {
            assert(endpoint_lines(items, n) == before);
        }
    }
}

// ---------------------------------------------------------------------------
// Texts
// ---------------------------------------------------------------------------

/// Of letters only the large ones of ASCII become small, and nothing else
/// changes.
pub proof fn lemma_small_letters(text: Seq<char>, i: int)
    ensures
        lowercased(text).len() == text.len(),
        0 <= i < text.len() && 'A' <= text[i] <= 'Z' ==> lowercased(text)[i] as u32 == text[i]
            as u32 + 32,
        0 <= i < text.len() && !('A' <= text[i] <= 'Z') ==> lowercased(text)[i] == text[i],
{
}

/// A text that is cut to a length keeps its beginning, and what fits is kept
/// whole.
pub proof fn lemma_bounded(text: Seq<char>, max: nat)
    ensures
        trimmed(text).len() <= max ==> bounded_text(text, max) == trimmed(text),
        trimmed(text).len() > max ==> bounded_text(text, max).len() == max + 1 && bounded_text(
            text,
            max,
        ).take(max as int) == trimmed(text).take(max as int) && bounded_text(text, max).last()
            == '…',
{
    reveal_strlit("…");
    if trimmed(text).len() > max {
        assert(bounded_text(text, max).take(max as int) =~= trimmed(text).take(max as int));
    }
}

} // verus!
