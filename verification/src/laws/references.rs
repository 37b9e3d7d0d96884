//! By what a speaker is known, and to whom a turn may be mapped.
use vstd::prelude::*;
use vstd::utf8::*;
use crate::speaker::candidates::is_eligible;
use crate::speaker::harness::{
    alignment_fault, best_reference, candidate_views, first_faulty, label_fault, lemma_first_faulty,
    ranges_until, reference_ms, rendered_turns, turn_line, value_from, GlobalTurnView,
};
use crate::speaker::labels::{
    is_alignment_label, lemma_decimal_first, lemma_digits_of_word, lemma_speaker_label_round_trip,
    speaker_text, target_of, Target,
};
use crate::speaker::LocalTranscript;
use crate::text::{contains_text, decimal, joined, lemma_decimal_round_trip, occurs_at, starts_with};

verus! {

// ---------------------------------------------------------------------------
// Targets
// ---------------------------------------------------------------------------

/// A turn may be mapped to nobody, to a speaker that is known, and to a new
/// voice as long as there is room; and to no other number.
pub proof fn lemma_targets(number: nat, known: int, max_speakers: int)
    requires
        0 < number < 0x1_0000_0000,
        0 <= known <= max_speakers,
    ensures
        label_fault("UNKNOWN"@, known, max_speakers) is None,
        label_fault("S"@ + decimal(number), known, max_speakers) is None <==> number <= known,
        label_fault("NEW"@ + decimal(number), known, max_speakers) is None <==> number
            <= max_speakers - known,
{
    lemma_speaker_label_round_trip((number - 1) as usize);
    assert(speaker_text(Some((number - 1) as usize)) == "S"@ + decimal(number));
    lemma_new_voice_target(number);
}

proof fn lemma_new_voice_target(number: nat)
    requires
        0 < number < 0x1_0000_0000,
    ensures
        is_alignment_label("NEW"@ + decimal(number)),
        target_of("NEW"@ + decimal(number)) == Some(Target::New(number as u64)),
{
    let label = "NEW"@ + decimal(number);
    reveal_strlit("NEW");
    reveal_strlit("UNKNOWN");
    lemma_decimal_round_trip(number);
    lemma_decimal_first(number);
    lemma_digits_of_word(number);
    assert(label.subrange(0, 3) =~= "NEW"@);
    assert(label.take(3) =~= "NEW"@);
    assert(starts_with(label, "NEW"@));
    assert(label.skip(3) =~= decimal(number));
    assert(label[0] == 'N');
    assert("UNKNOWN"@[0] == 'U');
    assert forall|i: int| 0 <= i < label.len() implies '\0' <= #[trigger] label[i] <= '\u{7f}' by {
        if i >= 3 {
            assert(label[i] == decimal(number)[i - 3]);
        } else {
            assert(label[i] == "NEW"@[i]);
        }
    }
    is_ascii_chars_encode_utf8(label);
}

proof fn lemma_no_faulty(entries: Seq<(String, String)>, known: int, max_speakers: int, n: nat, i: int)
    requires
        0 <= i < n <= entries.len(),
        first_faulty(entries, known, max_speakers, n) is None,
    ensures
        label_fault(entries[i].1@, known, max_speakers) is None,
    decreases n,
{
    if i < n - 1 {
        lemma_no_faulty(entries, known, max_speakers, (n - 1) as nat, i);
    }
}

/// A mapping holds a key.
pub open spec fn is_mapped(entries: Seq<(String, String)>, key: Seq<char>) -> bool {
    exists|i: int| 0 <= i < entries.len() && #[trigger] entries[i].0@ == key
}

/// A mapping is taken only where no turn stands in it twice, every turn in it
/// was asked for, every turn that was asked for stands in it, and every target
/// may be chosen.
pub proof fn lemma_mapping_taken(
    entries: Seq<(String, String)>,
    keys: Seq<Seq<char>>,
    known: int,
    max_speakers: int,
)
    requires
        alignment_fault(entries, keys, known, max_speakers) is None,
    ensures
        forall|i: int, j: int|
            0 <= i < j < entries.len() ==> #[trigger] entries[i].0@ != #[trigger] entries[j].0@,
        forall|i: int| 0 <= i < entries.len() ==> keys.contains(#[trigger] entries[i].0@),
        forall|k: int| 0 <= k < keys.len() ==> is_mapped(entries, #[trigger] keys[k]),
        forall|i: int|
            0 <= i < entries.len() ==> label_fault(
                #[trigger] entries[i].1@,
                known,
                max_speakers,
            ) is None,
{
    lemma_first_faulty(entries, known, max_speakers, entries.len());
    assert forall|i: int| 0 <= i < entries.len() implies label_fault(
        #[trigger] entries[i].1@,
        known,
        max_speakers,
    ) is None by {
        lemma_no_faulty(entries, known, max_speakers, entries.len(), i);
    }
    assert forall|k: int| 0 <= k < keys.len() implies is_mapped(entries, #[trigger] keys[k]) by {
        lemma_value_found(entries, keys[k], 0);
    }
}

proof fn lemma_value_found(entries: Seq<(String, String)>, key: Seq<char>, n: int)
    requires
        0 <= n,
        value_from(entries, key, n) is Some,
    ensures
        exists|i: int| n <= i < entries.len() && #[trigger] entries[i].0@ == key,
    decreases entries.len() - n,
{
    if n < entries.len() && entries[n].0@ != key {
        lemma_value_found(entries, key, n + 1);
        let i = choose|i: int| n + 1 <= i < entries.len() && #[trigger] entries[i].0@ == key;
        assert(entries[i].0@ == key);
    } else if n < entries.len() {
        assert(entries[n].0@ == key);
    }
}

// ---------------------------------------------------------------------------
// References
// ---------------------------------------------------------------------------

/// A sample by which a speaker may be known: of a turn that can be kept, with
/// that speaker, and two seconds long.
pub open spec fn may_be_kept(
    transcript: LocalTranscript,
    candidate: (int, int, int),
    speakers: Seq<Option<usize>>,
    speaker: usize,
) -> bool {
    is_eligible(transcript, candidate.0) && candidate.2 - candidate.1 >= 2_000
        && speakers[candidate.0] == Some(speaker)
}

/// A speaker is known by the longest sample that may be kept, the first of
/// several, at its time in the whole recording; by none only where there is
/// none.
pub proof fn lemma_longest_is_kept(
    transcript: LocalTranscript,
    start_ms: int,
    candidates: Seq<(int, int, int)>,
    speakers: Seq<Option<usize>>,
    speaker: usize,
    n: nat,
)
    requires
        n <= candidates.len(),
        0 <= start_ms,
        forall|k: int|
            0 <= k < candidates.len() ==> 0 <= (#[trigger] candidates[k]).1 && start_ms
                + candidates[k].2 <= u64::MAX,
    ensures
        match best_reference(transcript, start_ms, candidates, speakers, speaker, n) {
            Some((start, end)) => {
                &&& exists|k: int|
                    0 <= k < n && may_be_kept(
                        transcript,
                        #[trigger] candidates[k],
                        speakers,
                        speaker,
                    ) && start == start_ms + candidates[k].1 && end == start_ms + candidates[k].2
                        && forall|j: int|
                        0 <= j < k && may_be_kept(
                            transcript,
                            #[trigger] candidates[j],
                            speakers,
                            speaker,
                        ) ==> candidates[j].2 - candidates[j].1 < end - start
                &&& forall|k: int|
                    0 <= k < n && may_be_kept(
                        transcript,
                        #[trigger] candidates[k],
                        speakers,
                        speaker,
                    ) ==> candidates[k].2 - candidates[k].1 <= end - start
            },
            None => forall|k: int|
                0 <= k < n ==> !may_be_kept(
                    transcript,
                    #[trigger] candidates[k],
                    speakers,
                    speaker,
                ),
        },
    decreases n,
{
    if n > 0 {
        lemma_longest_is_kept(
            transcript,
            start_ms,
            candidates,
            speakers,
            speaker,
            (n - 1) as nat,
        );
        let held = best_reference(
            transcript,
            start_ms,
            candidates,
            speakers,
            speaker,
            (n - 1) as nat,
        );
        let candidate = candidates[n - 1];
        if may_be_kept(transcript, candidate, speakers, speaker) && candidate.2 - candidate.1
            > reference_ms(held) {
            assert(may_be_kept(transcript, candidates[n - 1], speakers, speaker));
        } else if let Some((start, end)) = held {
            let k = choose|k: int|
                0 <= k < n - 1 && may_be_kept(
                    transcript,
                    #[trigger] candidates[k],
                    speakers,
                    speaker,
                ) && start == start_ms + candidates[k].1 && end == start_ms + candidates[k].2
                    && forall|j: int|
                    0 <= j < k && may_be_kept(
                        transcript,
                        #[trigger] candidates[j],
                        speakers,
                        speaker,
                    ) ==> candidates[j].2 - candidates[j].1 < end - start;
            assert(may_be_kept(transcript, candidates[k], speakers, speaker));
        }
    }
}

/// Where every speaker has a reference, they are told in the order of their
/// numbers, each under its own.
pub proof fn lemma_references_are_told(references: Seq<Option<(u64, u64)>>, n: nat, k: int)
    requires
        n <= references.len(),
        n <= usize::MAX,
        forall|j: int| 0 <= j < references.len() ==> (#[trigger] references[j]) is Some,
    ensures
        ranges_until(references, n).len() == n,
        0 <= k < n ==> ranges_until(references, n)[k] == (
            "S"@ + decimal((k + 1) as nat),
            (references[k]->0).0,
            (references[k]->0).1,
        ),
    decreases n,
{
    if n > 0 {
        lemma_references_are_told(references, (n - 1) as nat, k);
        assert(references[n - 1] is Some);
    }
}

/// A sample stands in the whole recording by its time in its stretch and the
/// start of that, under the number of its turn.
pub proof fn lemma_samples_in_recording(candidates: Seq<(int, int, int)>, start_ms: int, k: int)
    requires
        0 <= k < candidates.len(),
        0 <= candidates[k].0,
        0 <= start_ms + candidates[k].1 <= u64::MAX,
        0 <= start_ms + candidates[k].2 <= u64::MAX,
    ensures
        candidate_views(candidates, start_ms)[k].0 == "T"@ + decimal((candidates[k].0 + 1) as nat),
        candidate_views(candidates, start_ms)[k].1 == start_ms + candidates[k].1,
        candidate_views(candidates, start_ms)[k].2 == start_ms + candidates[k].2,
{
}

// ---------------------------------------------------------------------------
// Text
// ---------------------------------------------------------------------------

proof fn lemma_joined_holds(parts: Seq<Seq<char>>, separator: Seq<char>, k: int)
    requires
        0 <= k < parts.len(),
    ensures
        contains_text(joined(parts, separator), parts[k]),
    decreases parts.len(),
{
    let whole = joined(parts, separator);
    if parts.len() == 1 {
        assert(whole.subrange(0, whole.len() as int) =~= parts[0]);
        assert(occurs_at(whole, 0, parts[0]));
    } else if k == parts.len() - 1 {
        let at = whole.len() - parts[k].len();
        assert(whole.subrange(at, at + parts[k].len()) =~= parts[k]);
        assert(occurs_at(whole, at, parts[k]));
    } else {
        let before = parts.drop_last();
        lemma_joined_holds(before, separator, k);
        let front = joined(before, separator);
        let at = choose|at: int| #[trigger] occurs_at(front, at, before[k]);
        assert(whole.subrange(at, at + parts[k].len()) =~= front.subrange(
            at,
            at + before[k].len(),
        ));
        assert(occurs_at(whole, at, parts[k]));
    }
}

/// Every turn stands in the text of its stretch, with its speaker before it.
pub proof fn lemma_turns_are_told(turns: Seq<GlobalTurnView>, k: int)
    requires
        0 <= k < turns.len(),
    ensures
        contains_text(rendered_turns(turns), turns[k].speaker_id + "："@ + crate::output::escaped(
            crate::text::single_spaced(turns[k].text),
        )),
{
    let parts = turns.map_values(|turn: GlobalTurnView| turn_line(turn));
    lemma_joined_holds(parts, "\n\n"@, k);
    assert(parts[k] == turn_line(turns[k]));
}

} // verus!
