//! How a text is divided into turns, and how the parts make up a recording.
use vstd::prelude::*;
use crate::asr::{
    alignment_fault, asr_fault, content_of, content_positions, content_until, context_of,
    counts_fit, counts_sum, cut_position, cut_texts, first_difference, is_content, is_restored,
    json_char, json_chars, json_quoted, lemma_content_positions, lemma_counts_sum, lemma_cut_order,
    lemma_restored_text, retexted, shown_of, text_fault, turns_text,
};
use crate::output::TranscriptPart;
use crate::pipeline::quality::{state_of, QualityState, SecondText};
use crate::pipeline::{expected_start, follows_from, timeline_fault};
use crate::speaker::LocalSpeakerTurn;
use crate::text::{byte_len, contains_text, is_white_space, lemma_trimmed_empty, occurs_at};
use crate::transcript::TranscriptMode;

verus! {

// ---------------------------------------------------------------------------
// Turns
// ---------------------------------------------------------------------------

/// What turns say one after the other.
pub open spec fn spoken(turns: Seq<LocalSpeakerTurn>) -> Seq<char>
    decreases turns.len(),
{
    if turns.len() == 0 {
        Seq::empty()
    } else {
        spoken(turns.drop_last()) + turns.last().text@
    }
}

proof fn lemma_spoken(turns: Seq<LocalSpeakerTurn>, n: nat)
    requires
        n <= turns.len(),
    ensures
        turns_text(turns, n) == spoken(turns.take(n as int)),
    decreases n,
{
    if n > 0 {
        lemma_spoken(turns, (n - 1) as nat);
        assert(turns.take(n as int).drop_last() =~= turns.take(n - 1));
        assert(turns.take(n as int).last() == turns[n - 1]);
    }
}

/// After a division is taken, the turns say exactly the recognized text,
/// whatever they said before: neither a word nor a mark is lost or added. They
/// keep their number, their labels and their times.
pub proof fn lemma_words_stay(
    before: Seq<LocalSpeakerTurn>,
    after: Seq<LocalSpeakerTurn>,
    primary: Seq<char>,
    max_bytes: nat,
    k: int,
)
    requires
        is_restored(before, after, primary, max_bytes, Ok(())),
    ensures
        spoken(after) == primary,
        after.len() == before.len(),
        0 <= k < after.len() ==> after[k].local_speaker_id@ == before[k].local_speaker_id@
            && after[k].start_ms == before[k].start_ms && after[k].end_ms == before[k].end_ms
            && after[k].clean_reference == before[k].clean_reference,
{
    let counts = choose|counts: Seq<usize>|
        {
            &&& #[trigger] crate::asr::are_turn_counts(counts, before)
            &&& counts_fit(primary, counts)
            &&& retexted(before, after, cut_texts(primary, counts))
        };
    lemma_restored_text(before, after, primary, counts);
    lemma_spoken(after, after.len());
    assert(after.take(after.len() as int) =~= after);
}

/// Turns are taken only where they say what was recognized: with the same
/// content, character for character.
pub proof fn lemma_rewriting_is_refused(
    turns: Seq<LocalSpeakerTurn>,
    primary: Seq<char>,
    max_bytes: nat,
)
    ensures
        alignment_fault(turns, primary, max_bytes) is None ==> turns.len() > 0 && content_of(
            shown_of(spoken(turns)),
        ) == content_of(primary) && shown_of(spoken(turns)).len() == spoken(turns).len(),
        turns.len() == 0 ==> alignment_fault(turns, primary, max_bytes) is Some,
        content_of(shown_of(spoken(turns))) != content_of(primary) ==> alignment_fault(
            turns,
            primary,
            max_bytes,
        ) is Some,
{
    lemma_spoken(turns, turns.len());
    assert(turns.take(turns.len() as int) =~= turns);
}

/// A text is taken only where it says something, is not longer than it may be,
/// and holds neither a null nor a character that stands for a lost one.
pub proof fn lemma_broken_text_is_refused(text: Seq<char>, max_bytes: nat)
    ensures
        text_fault(text, max_bytes) is None <==> (exists|i: int|
            0 <= i < text.len() && !is_white_space(#[trigger] text[i])) && byte_len(text)
            <= max_bytes && !text.contains('\0') && !text.contains('\u{fffd}'),
        asr_fault(text, max_bytes) is None ==> text_fault(text, max_bytes) is None && max_bytes > 0
            && text_fault(shown_of(text), max_bytes) is None && content_of(shown_of(text)).len()
            > 0,
{
    lemma_trimmed_empty(text);
    if text.contains('\0') {
        let k = choose|k: int| 0 <= k < text.len() && text[k] == '\0';
        assert(crate::asr::has_char(text, '\0'));
    }
    if text.contains('\u{fffd}') {
        let k = choose|k: int| 0 <= k < text.len() && text[k] == '\u{fffd}';
        assert(crate::asr::has_char(text, '\u{fffd}'));
    }
}

proof fn lemma_place_of_content(text: Seq<char>, n: nat, j: int)
    requires
        n <= text.len(),
        0 <= j < content_positions(text, n).len(),
    ensures
        is_content(text, content_positions(text, n)[j]),
        content_until(text, content_positions(text, n)[j] as nat).len() == j,
    decreases n,
{
    lemma_content_positions(text, n);
    if n > 0 {
        let before = content_positions(text, (n - 1) as nat);
        lemma_content_positions(text, (n - 1) as nat);
        if j < before.len() {
            lemma_place_of_content(text, (n - 1) as nat, j);
            assert(content_positions(text, n)[j] == before[j]);
        }
    }
}

/// A text is cut so that each part but the first begins with content, and each
/// part has just as much content as its share: marks stay with what they
/// follow.
pub proof fn lemma_marks_stay_behind(text: Seq<char>, counts: Seq<usize>, k: nat)
    requires
        counts_fit(text, counts),
        k < counts.len(),
    ensures
        cut_position(text, counts, 0) == 0,
        cut_position(text, counts, counts.len()) == text.len(),
        0 <= cut_position(text, counts, k) <= cut_position(text, counts, k + 1) <= text.len(),
        k > 0 ==> is_content(text, cut_position(text, counts, k)),
        content_until(text, cut_position(text, counts, k + 1) as nat).len() - content_until(
            text,
            cut_position(text, counts, k) as nat,
        ).len() == counts[k as int],
        cut_texts(text, counts)[k as int] == text.subrange(
            cut_position(text, counts, k),
            cut_position(text, counts, k + 1),
        ),
{
    lemma_cut_order(text, counts, k);
    lemma_content_positions(text, text.len());
    lemma_counts_sum(counts, k, counts.len());
    lemma_counts_sum(counts, k, k + 1);
    if k > 0 {
        lemma_place_of_content(text, text.len(), counts_sum(counts, k) as int);
    }
    if k + 1 < counts.len() {
        lemma_counts_sum(counts, k + 1, counts.len());
        lemma_place_of_content(text, text.len(), counts_sum(counts, k + 1) as int);
    }
}

// ---------------------------------------------------------------------------
// Differences
// ---------------------------------------------------------------------------

/// Up to where two texts differ first they are the same, and there they differ
/// or one of them ends.
pub proof fn lemma_first_difference(a: Seq<char>, b: Seq<char>)
    ensures
        ({
            let at = first_difference(a, b, 0);
            &&& 0 <= at <= a.len()
            &&& at <= b.len()
            &&& a.take(at) == b.take(at)
            &&& at == a.len() || at == b.len() || a[at] != b[at]
        }),
{
    lemma_difference_from(a, b, 0);
    let at = first_difference(a, b, 0);
    assert(a.take(at) =~= b.take(at));
}

proof fn lemma_difference_from(a: Seq<char>, b: Seq<char>, from: int)
    requires
        0 <= from <= a.len(),
        from <= b.len(),
    ensures
        ({
            let at = first_difference(a, b, from);
            &&& from <= at <= a.len()
            &&& at <= b.len()
            &&& forall|k: int| from <= k < at ==> #[trigger] a[k] == b[k]
            &&& at == a.len() || at == b.len() || a[at] != b[at]
        }),
    decreases a.len() - from,
{
    if from < a.len() && from < b.len() && a[from] == b[from] {
        lemma_difference_from(a, b, from + 1);
    }
}

/// The text around a place shows the sixteen characters before it and the
/// thirty-two behind it, or as many as there are, and says where more was left
/// out.
pub proof fn lemma_context(text: Seq<char>, at: int)
    requires
        0 <= at <= text.len(),
    ensures
        ({
            let start = if at >= 16 {
                at - 16
            } else {
                0
            };
            let end = if text.len() - at >= 32 {
                at + 32
            } else {
                text.len() as int
            };
            &&& start == 0 && end == text.len() ==> context_of(text, at) == text
            &&& start > 0 && end == text.len() ==> context_of(text, at) == seq!['…']
                + text.skip(start)
            &&& start == 0 && end < text.len() ==> context_of(text, at) == text.take(end).push('…')
            &&& start > 0 && end < text.len() ==> context_of(text, at) == (seq!['…']
                + text.subrange(start, end)).push('…')
        }),
{
    let start = if at >= 16 {
        at - 16
    } else {
        0
    };
    let end = if text.len() - at >= 32 {
        at + 32
    } else {
        text.len() as int
    };
    assert(text.subrange(0, text.len() as int) =~= text);
    assert(Seq::<char>::empty() + text =~= text);
    assert(text.subrange(start, text.len() as int) =~= text.skip(start));
    assert(text.subrange(0, end) =~= text.take(end));
    assert(Seq::<char>::empty() + text.take(end) =~= text.take(end));
}

// ---------------------------------------------------------------------------
// Strings
// ---------------------------------------------------------------------------

/// The value of a digit to the base 16.
pub open spec fn hex_value(c: char) -> int {
    if '0' <= c <= '9' {
        c as int - '0' as int
    } else {
        c as int - 'a' as int + 10
    }
}

/// What the inside of a string of JSON says.
pub open spec fn read_string(text: Seq<char>) -> Seq<char>
    decreases text.len(),
{
    if text.len() == 0 {
        Seq::empty()
    } else if text[0] != '\\' {
        seq![text[0]] + read_string(text.skip(1))
    } else if text.len() < 2 {
        Seq::empty()
    } else if text[1] == 'u' {
        if text.len() < 6 {
            Seq::empty()
        } else {
            seq![(hex_value(text[4]) * 16 + hex_value(text[5])) as char] + read_string(text.skip(6))
        }
    } else {
        let c = text[1];
        seq![
            if c == 'b' {
                '\u{8}'
            } else if c == 't' {
                '\t'
            } else if c == 'n' {
                '\n'
            } else if c == 'f' {
                '\u{c}'
            } else if c == 'r' {
                '\r'
            } else {
                c
            },
        ] + read_string(text.skip(2))
    }
}

proof fn lemma_string_from_left(text: Seq<char>)
    requires
        text.len() > 0,
    ensures
        json_chars(text) == json_char(text[0]) + json_chars(text.skip(1)),
    decreases text.len(),
{
    if text.len() == 1 {
        assert(text.drop_last() =~= Seq::<char>::empty());
        assert(text.skip(1) =~= Seq::<char>::empty());
        assert(json_chars(text) =~= json_char(text[0]) + json_chars(text.skip(1)));
    } else {
        let shorter = text.drop_last();
        lemma_string_from_left(shorter);
        assert(shorter.skip(1) =~= text.skip(1).drop_last());
        assert(shorter[0] == text[0]);
        assert(json_chars(text) =~= json_char(text[0]) + json_chars(text.skip(1)));
    }
}

proof fn lemma_character_read(c: char, rest: Seq<char>)
    ensures
        read_string(json_char(c) + rest) == seq![c] + read_string(rest),
{
    let text = json_char(c) + rest;
    let n = json_char(c).len() as int;
    assert(text.skip(n) =~= rest);
    assert(text[0] == json_char(c)[0]);
    if n > 1 {
        assert(text[1] == json_char(c)[1]);
    }
    if n == 6 {
        assert(text[4] == json_char(c)[4]);
        assert(text[5] == json_char(c)[5]);
        let v = c as int;
        assert(0 <= v / 16 < 2 && 0 <= v % 16 < 16 && v / 16 * 16 + v % 16 == v);
        assert(hex_value(text[4]) == v / 16);
        assert(hex_value(text[5]) == v % 16);
    }
}

/// A text that is written as a string of JSON is read back.
pub proof fn lemma_string_is_read_back(text: Seq<char>)
    ensures
        read_string(json_chars(text)) == text,
        json_quoted(text) == seq!['"'] + json_chars(text) + seq!['"'],
    decreases text.len(),
{
    if text.len() > 0 {
        lemma_string_from_left(text);
        lemma_character_read(text[0], json_chars(text.skip(1)));
        lemma_string_is_read_back(text.skip(1));
    }
    assert(read_string(json_chars(text)) =~= text);
}

// ---------------------------------------------------------------------------
// Parts
// ---------------------------------------------------------------------------

/// A moment lies in one part, and in no other.
pub open spec fn is_in_one_part(parts: Seq<TranscriptPart>, moment: int) -> bool {
    exists|k: int|
        0 <= k < parts.len() && (#[trigger] parts[k]).start_ms <= moment < parts[k].end_ms
            && forall|j: int|
            0 <= j < parts.len() && (#[trigger] parts[j]).start_ms <= moment < parts[j].end_ms
                ==> j == k
}

/// No part is empty, and none ends behind the recording.
pub open spec fn are_within(parts: Seq<TranscriptPart>, duration_ms: u64) -> bool {
    forall|k: int|
        0 <= k < parts.len() ==> (#[trigger] parts[k]).start_ms < parts[k].end_ms <= duration_ms
}

/// Every moment of a recording lies in one of the parts that are taken for it,
/// and in no other; none lies outside the recording.
pub proof fn lemma_every_moment_once(parts: Seq<TranscriptPart>, duration_ms: u64, moment: int)
    requires
        timeline_fault(parts, duration_ms) is None,
    ensures
        0 <= moment < duration_ms ==> is_in_one_part(parts, moment),
        are_within(parts, duration_ms),
{
    lemma_all_within(parts, duration_ms);
    if 0 <= moment < duration_ms {
        lemma_in_one_part(parts, duration_ms, moment);
    }
}

proof fn lemma_all_within(parts: Seq<TranscriptPart>, duration_ms: u64)
    requires
        timeline_fault(parts, duration_ms) is None,
    ensures
        are_within(parts, duration_ms),
        in_turn(parts),
{
    lemma_in_turn(parts);
    lemma_last_ends(parts, duration_ms);
}

proof fn lemma_in_one_part(parts: Seq<TranscriptPart>, duration_ms: u64, moment: int)
    requires
        timeline_fault(parts, duration_ms) is None,
        0 <= moment < duration_ms,
    ensures
        is_in_one_part(parts, moment),
{
    lemma_all_within(parts, duration_ms);
    let k = lemma_part_at(parts, duration_ms, moment);
    lemma_only_part(parts, moment, k);
}

/// Parts that follow one another, and none is empty.
spec fn in_turn(parts: Seq<TranscriptPart>) -> bool {
    &&& forall|k: int| 0 <= k < parts.len() ==> (#[trigger] parts[k]).start_ms < parts[k].end_ms
    &&& forall|j: int, k: int|
        0 <= j < k < parts.len() ==> (#[trigger] parts[j]).end_ms <= (#[trigger] parts[k]).start_ms
}

proof fn lemma_in_turn(parts: Seq<TranscriptPart>)
    requires
        follows_from(parts, 0),
    ensures
        in_turn(parts),
{
    assert forall|k: int| 0 <= k < parts.len() implies (#[trigger] parts[k]).start_ms
        < parts[k].end_ms by {}
    assert forall|j: int, k: int| 0 <= j < k < parts.len() implies (#[trigger] parts[j]).end_ms
        <= (#[trigger] parts[k]).start_ms by {
        lemma_parts_follow(parts, j, k);
    }
}

proof fn lemma_last_ends(parts: Seq<TranscriptPart>, duration_ms: u64)
    requires
        in_turn(parts),
        parts.len() > 0,
        parts.last().end_ms == duration_ms,
    ensures
        are_within(parts, duration_ms),
{
    let last = parts.len() - 1;
    assert forall|k: int| 0 <= k < parts.len() implies (#[trigger] parts[k]).start_ms
        < parts[k].end_ms <= duration_ms by {
        if k < last {
            assert(parts[k].end_ms <= parts[last].start_ms);
        }
    }
}

proof fn lemma_only_part(parts: Seq<TranscriptPart>, moment: int, k: int)
    requires
        in_turn(parts),
        0 <= k < parts.len(),
        parts[k].start_ms <= moment < parts[k].end_ms,
    ensures
        is_in_one_part(parts, moment),
{
    assert(parts[k].start_ms <= moment < parts[k].end_ms);
}

proof fn lemma_part_at(parts: Seq<TranscriptPart>, duration_ms: u64, moment: int) -> (k: int)
    requires
        timeline_fault(parts, duration_ms) is None,
        0 <= moment < duration_ms,
    ensures
        0 <= k < parts.len(),
        parts[k].start_ms <= moment < parts[k].end_ms,
{
    lemma_part_of(parts, parts.len() as int, moment)
}

proof fn lemma_parts_follow(parts: Seq<TranscriptPart>, j: int, k: int)
    requires
        follows_from(parts, 0),
        0 <= j < k < parts.len(),
    ensures
        parts[j].end_ms <= parts[k].start_ms,
    decreases k - j,
{
    assert(parts[k].start_ms == expected_start(parts, k));
    if j + 1 < k {
        lemma_parts_follow(parts, j, k - 1);
        assert(parts[k - 1].end_ms > parts[k - 1].start_ms);
    }
}

proof fn lemma_part_of(parts: Seq<TranscriptPart>, n: int, moment: int) -> (k: int)
    requires
        follows_from(parts, 0),
        0 < n <= parts.len(),
        0 <= moment < parts[n - 1].end_ms,
    ensures
        0 <= k < n,
        parts[k].start_ms <= moment < parts[k].end_ms,
    decreases n,
{
    assert(parts[n - 1].start_ms == expected_start(parts, n - 1));
    if parts[n - 1].start_ms <= moment {
        n - 1
    } else {
        lemma_part_of(parts, n - 1, moment)
    }
}

/// One piece whose second text differs makes the whole differ; one whose second
/// text could not be had makes it open, where none differs; and pieces that were
/// not asked for leave a sample.
pub proof fn lemma_whole_by_pieces(pieces: Seq<SecondText>, k: int)
    requires
        0 <= k < pieces.len(),
    ensures
        pieces[k] == SecondText::Different ==> state_of(pieces) == Some(QualityState::Disagreement),
        pieces[k] == SecondText::Failed && !pieces.contains(SecondText::Different) ==> state_of(
            pieces,
        ) == Some(QualityState::Unavailable),
        (forall|j: int|
            0 <= j < pieces.len() ==> #[trigger] pieces[j] == SecondText::Equal || pieces[j]
                == SecondText::NotAsked) && pieces[k] == SecondText::NotAsked && pieces.contains(
            SecondText::Equal,
        ) ==> state_of(pieces) == Some(QualityState::SampledExactConsensus),
        (forall|j: int| 0 <= j < pieces.len() ==> #[trigger] pieces[j] == SecondText::Equal)
            ==> state_of(pieces) == Some(QualityState::ExactConsensus),
{
    assert(pieces.contains(pieces[k]));
    assert forall|second: SecondText| pieces.contains(second) implies exists|j: int|
        0 <= j < pieces.len() && #[trigger] pieces[j] == second by {}
}

/// What is doubtful is said to need a second look, and what agrees is said to
/// be no proof.
pub proof fn lemma_states_in_words(state: QualityState)
    ensures
        state == QualityState::Disagreement || state == QualityState::Unavailable ==> contains_text(
            state.text(),
            "_requires_review"@,
        ),
        state == QualityState::ExactConsensus || state == QualityState::SampledExactConsensus
            ==> contains_text(state.text(), "_not_ground_truth"@),
{
    reveal_strlit("exact_consensus_not_ground_truth");
    reveal_strlit("sampled_exact_consensus_not_ground_truth");
    reveal_strlit("disagreement_requires_review");
    reveal_strlit("unavailable_requires_review");
    reveal_strlit("_requires_review");
    reveal_strlit("_not_ground_truth");
    let text = state.text();
    if state == QualityState::Disagreement {
        assert(text.subrange(12, 28) =~= "_requires_review"@);
        assert(occurs_at(text, 12, "_requires_review"@));
    } else if state == QualityState::Unavailable {
        assert(text.subrange(11, 27) =~= "_requires_review"@);
        assert(occurs_at(text, 11, "_requires_review"@));
    } else if state == QualityState::ExactConsensus {
        assert(text.subrange(15, 32) =~= "_not_ground_truth"@);
        assert(occurs_at(text, 15, "_not_ground_truth"@));
    } else {
        assert(text.subrange(23, 40) =~= "_not_ground_truth"@);
        assert(occurs_at(text, 23, "_not_ground_truth"@));
    }
}

/// The file of a draft has its own extension.
pub proof fn lemma_drafts_stand_apart()
    ensures
        TranscriptMode::Raw.extension_text() == "raw."@ + TranscriptMode::Quality.extension_text(),
        TranscriptMode::Quality.extension_text() == "md"@,
{
    reveal_strlit("raw.md");
    reveal_strlit("raw.");
    reveal_strlit("md");
    assert("raw."@ + "md"@ =~= "raw.md"@);
}

} // verus!
