//! Who speaks: what a mapping of turns to speakers does to the turns.
use vstd::prelude::*;
use crate::media::MediaChunk;
use crate::speaker::candidates::{
    is_eligible, is_usable, lemma_candidates_bounded, lemma_selected, longest_sample, sample_of,
    selected_turns,
};
use crate::speaker::harness::{
    chunk_result, heard_ids, heard_until, is_qualified, lemma_all_allowed, lemma_first_faulty,
    lemma_new_voices_are_heard, lemma_place_of, lemma_sampled_speaker, lemma_speakers_known,
    lemma_voices, place_in, speakers_of, takes_alignment, target_speaker, targets_of, value_from,
    voices_until, ChunkResultView, SpeakerHarness,
};
use crate::speaker::labels::{lemma_speaker_label_round_trip, speaker_text, target_of, Target};
use crate::speaker::LocalTranscript;
use crate::text::{decimal, lemma_decimal_round_trip, starts_with};

verus! {

/// What comes of a mapping that is taken.
pub open spec fn outcome_of(
    before: SpeakerHarness,
    assignments: Seq<(String, String)>,
    transcript: LocalTranscript,
    chunk: MediaChunk,
) -> ChunkResultView {
    let candidates = before.candidates(transcript);
    let known = before.references@.len();
    let targets = targets_of(assignments, candidates);
    let voices = voices_until(transcript, candidates, targets, candidates.len());
    let speakers = speakers_of(transcript.turns@.len(), candidates, targets, voices, known as int);
    chunk_result(transcript, chunk.start_ms as int, speakers, known + voices.len())
}

/// A mapping holds a label for a turn, whose key is `T` and its number from one
/// on.
pub open spec fn maps(assignments: Seq<(String, String)>, turn: int, label: Seq<char>) -> bool {
    exists|e: int|
        0 <= e < assignments.len() && (#[trigger] assignments[e]).0@ == "T"@ + decimal(
            (turn + 1) as nat,
        ) && assignments[e].1@ == label
}

proof fn lemma_value_of(entries: Seq<(String, String)>, key: Seq<char>, e: int, n: int)
    requires
        0 <= n <= e < entries.len(),
        entries[e].0@ == key,
        forall|i: int, j: int|
            0 <= i < j < entries.len() ==> #[trigger] entries[i].0@ != #[trigger] entries[j].0@,
    ensures
        value_from(entries, key, n) == Some(entries[e].1@),
    decreases e - n,
{
    if n < e {
        assert(entries[n].0@ != entries[e].0@);
        lemma_value_of(entries, key, e, n + 1);
    }
}

proof fn lemma_target(
    before: SpeakerHarness,
    assignments: Seq<(String, String)>,
    transcript: LocalTranscript,
    chunk: MediaChunk,
    after: SpeakerHarness,
    k: int,
    label: Seq<char>,
)
    requires
        before.well_formed(),
        takes_alignment(before, assignments, transcript, chunk, after),
        0 <= k < before.candidates(transcript).len(),
        maps(assignments, before.candidates(transcript)[k].0, label),
    ensures
        ({
            let candidates = before.candidates(transcript);
            let targets = targets_of(assignments, candidates);
            let voices = voices_until(transcript, candidates, targets, candidates.len());
            &&& target_of(label) == Some(targets[k])
            &&& voices.len() <= before.max_speakers - before.references@.len()
            &&& outcome_of(before, assignments, transcript, chunk).turns[candidates[k].0].speaker_id
                == speaker_text(
                target_speaker(targets[k], voices, before.references@.len() as int),
            )
        }),
{
    let candidates = before.candidates(transcript);
    let known = before.references@.len() as int;
    let most = before.max_speakers as int;
    let targets = targets_of(assignments, candidates);
    let voices = voices_until(transcript, candidates, targets, candidates.len());
    let turn = candidates[k].0;
    lemma_all_allowed(assignments, candidates, known, most);
    lemma_first_faulty(assignments, known, most, assignments.len());
    let e = choose|e: int|
        0 <= e < assignments.len() && (#[trigger] assignments[e]).0@ == "T"@ + decimal(
            (turn + 1) as nat,
        ) && assignments[e].1@ == label;
    lemma_value_of(assignments, assignments[e].0@, e, 0);
    assert(crate::speaker::harness::label_fault(assignments[e].1@, known, most) is None);
    lemma_voices(transcript, candidates, targets, known, most, candidates.len());
    lemma_candidates_bounded(transcript, before.reference_duration_ms as int);
    assert(0 <= candidates[k].0 < transcript.turns@.len());
    lemma_sampled_speaker(
        transcript,
        before.reference_duration_ms as int,
        targets,
        voices,
        known,
        k,
    );
}

/// A turn that is mapped to a known speaker has that very label: the person
/// keeps their number.
pub proof fn lemma_known_speaker_keeps_number(
    before: SpeakerHarness,
    assignments: Seq<(String, String)>,
    transcript: LocalTranscript,
    chunk: MediaChunk,
    after: SpeakerHarness,
    k: int,
    number: int,
)
    requires
        before.well_formed(),
        takes_alignment(before, assignments, transcript, chunk, after),
        0 <= k < before.candidates(transcript).len(),
        1 <= number <= before.references@.len(),
        maps(
            assignments,
            before.candidates(transcript)[k].0,
            "S"@ + decimal(number as nat),
        ),
    ensures
        outcome_of(before, assignments, transcript, chunk).turns[before.candidates(
            transcript,
        )[k].0].speaker_id == "S"@ + decimal(number as nat),
{
    let label = "S"@ + decimal(number as nat);
    assert(before.references@.len() == before.references.len());
    let index = (number - 1) as usize;
    lemma_speaker_label_round_trip(index);
    assert(speaker_text(Some(index)) == label);
    lemma_target(before, assignments, transcript, chunk, after, k, label);
}

/// A turn that is mapped to nobody has nobody.
pub proof fn lemma_unknown_stays_unknown(
    before: SpeakerHarness,
    assignments: Seq<(String, String)>,
    transcript: LocalTranscript,
    chunk: MediaChunk,
    after: SpeakerHarness,
    k: int,
)
    requires
        before.well_formed(),
        takes_alignment(before, assignments, transcript, chunk, after),
        0 <= k < before.candidates(transcript).len(),
        maps(assignments, before.candidates(transcript)[k].0, "UNKNOWN"@),
    ensures
        outcome_of(before, assignments, transcript, chunk).turns[before.candidates(
            transcript,
        )[k].0].speaker_id == "UNKNOWN"@,
{
    lemma_target(before, assignments, transcript, chunk, after, k, "UNKNOWN"@);
}

// ---------------------------------------------------------------------------
// New voices
// ---------------------------------------------------------------------------

/// A new voice is heard for two seconds at least in a clean turn that no other
/// turn overlaps.
pub open spec fn is_heard_well(
    before: SpeakerHarness,
    assignments: Seq<(String, String)>,
    transcript: LocalTranscript,
    voice: nat,
) -> bool {
    exists|k: int|
        {
            &&& 0 <= k < before.candidates(transcript).len()
            &&& (#[trigger] before.candidates(transcript)[k]).2 - before.candidates(
                transcript,
            )[k].1 >= 2_000
            &&& maps(
                assignments,
                before.candidates(transcript)[k].0,
                "NEW"@ + decimal(voice),
            )
            &&& transcript.turns@[before.candidates(transcript)[k].0].clean_reference
        }
}

proof fn lemma_new_target(label: Seq<char>, voice: nat)
    requires
        label == "NEW"@ + decimal(voice),
        target_of(label) is Some,
    ensures
        target_of(label) == Some(Target::New(voice as u64)),
        voice <= u64::MAX,
{
    reveal_strlit("NEW");
    reveal_strlit("UNKNOWN");
    lemma_decimal_round_trip(voice);
    assert(label.subrange(0, 3) =~= "NEW"@);
    assert(starts_with(label, "NEW"@));
    assert(label.skip(3) =~= decimal(voice));
    assert(label[0] == 'N');
    if label == "UNKNOWN"@ {
        assert("UNKNOWN"@[0] == 'U');
    }
}

proof fn lemma_new_targets(
    before: SpeakerHarness,
    assignments: Seq<(String, String)>,
    transcript: LocalTranscript,
    chunk: MediaChunk,
    after: SpeakerHarness,
    k: int,
    voice: nat,
)
    requires
        before.well_formed(),
        takes_alignment(before, assignments, transcript, chunk, after),
        0 <= k < before.candidates(transcript).len(),
        maps(assignments, before.candidates(transcript)[k].0, "NEW"@ + decimal(voice)),
    ensures
        targets_of(assignments, before.candidates(transcript))[k] == Target::New(voice as u64),
        voice <= u64::MAX,
{
    let label = "NEW"@ + decimal(voice);
    lemma_target(before, assignments, transcript, chunk, after, k, label);
    lemma_new_target(label, voice);
}

/// Where the voice of a list gets its place.
proof fn lemma_voice_place(
    transcript: LocalTranscript,
    candidates: Seq<(int, int, int)>,
    targets: Seq<Target>,
    voice: u64,
    k: int,
    n: nat,
)
    requires
        0 <= k < n <= candidates.len(),
        targets[k] == Target::New(voice),
        is_qualified(transcript, candidates, targets, voice),
        forall|j: int| 0 <= j < k ==> #[trigger] targets[j] != Target::New(voice),
    ensures
        voices_until(transcript, candidates, targets, k as nat).len() < voices_until(
            transcript,
            candidates,
            targets,
            n,
        ).len(),
        voices_until(transcript, candidates, targets, n)[voices_until(
            transcript,
            candidates,
            targets,
            k as nat,
        ).len() as int] == voice,
    decreases n,
{
    let first = voices_until(transcript, candidates, targets, k as nat);
    if k == n - 1 {
        lemma_not_yet_heard(transcript, candidates, targets, voice, k as nat);
    } else {
        lemma_voice_place(transcript, candidates, targets, voice, k, (n - 1) as nat);
    }
}

proof fn lemma_not_yet_heard(
    transcript: LocalTranscript,
    candidates: Seq<(int, int, int)>,
    targets: Seq<Target>,
    voice: u64,
    n: nat,
)
    requires
        n <= candidates.len(),
        forall|j: int| 0 <= j < n ==> #[trigger] targets[j] != Target::New(voice),
    ensures
        !voices_until(transcript, candidates, targets, n).contains(voice),
    decreases n,
{
    if n > 0 {
        lemma_not_yet_heard(transcript, candidates, targets, voice, (n - 1) as nat);
        assert(targets[n - 1] != Target::New(voice));
        let before = voices_until(transcript, candidates, targets, (n - 1) as nat);
        let now = voices_until(transcript, candidates, targets, n);
        if now.contains(voice) {
            let i = now.index_of(voice);
            if i < before.len() {
                assert(before[i] == voice);
            }
        }
    }
}

/// A sample of two seconds in a clean turn is one by which a voice can be known.
proof fn lemma_long_sample(before: SpeakerHarness, transcript: LocalTranscript, k: int)
    requires
        0 <= k < before.candidates(transcript).len(),
        before.candidates(transcript)[k].2 - before.candidates(transcript)[k].1 >= 2_000,
        transcript.turns@[before.candidates(transcript)[k].0].clean_reference,
    ensures
        is_eligible(transcript, before.candidates(transcript)[k].0),
{
    lemma_selected(transcript);
    let selected = selected_turns(transcript);
    let longest = longest_sample(before.reference_duration_ms as int, selected.len() as int);
    let i = selected[k];
    assert(before.candidates(transcript)[k] == sample_of(transcript, i, longest));
    assert(is_usable(transcript, i));
}

/// A new voice that is heard well becomes a new speaker, behind all that are
/// known, and one that is not stays nobody.
pub proof fn lemma_new_voice(
    before: SpeakerHarness,
    assignments: Seq<(String, String)>,
    transcript: LocalTranscript,
    chunk: MediaChunk,
    after: SpeakerHarness,
    k: int,
    voice: nat,
)
    requires
        before.well_formed(),
        takes_alignment(before, assignments, transcript, chunk, after),
        0 <= k < before.candidates(transcript).len(),
        maps(assignments, before.candidates(transcript)[k].0, "NEW"@ + decimal(voice)),
    ensures
        ({
            let label = outcome_of(
                before,
                assignments,
                transcript,
                chunk,
            ).turns[before.candidates(transcript)[k].0].speaker_id;
            let known = before.references@.len();
            &&& !is_heard_well(before, assignments, transcript, voice) ==> label == "UNKNOWN"@
            &&& is_heard_well(before, assignments, transcript, voice) ==> exists|number: nat|
                known < number <= before.max_speakers && label == "S"@ + #[trigger] decimal(number)
        }),
{
    let candidates = before.candidates(transcript);
    let known = before.references@.len() as int;
    let targets = targets_of(assignments, candidates);
    let voices = voices_until(transcript, candidates, targets, candidates.len());
    let label = "NEW"@ + decimal(voice);
    let id = voice as u64;
    lemma_target(before, assignments, transcript, chunk, after, k, label);
    lemma_new_targets(before, assignments, transcript, chunk, after, k, voice);
    lemma_new_voices_are_heard(transcript, candidates, targets);
    lemma_all_allowed(assignments, candidates, known, before.max_speakers as int);
    if is_heard_well(before, assignments, transcript, voice) {
        let j = choose|j: int|
            {
                &&& 0 <= j < before.candidates(transcript).len()
                &&& (#[trigger] before.candidates(transcript)[j]).2 - before.candidates(
                    transcript,
                )[j].1 >= 2_000
                &&& maps(
                    assignments,
                    before.candidates(transcript)[j].0,
                    "NEW"@ + decimal(voice),
                )
                &&& transcript.turns@[before.candidates(transcript)[j].0].clean_reference
            };
        lemma_new_targets(before, assignments, transcript, chunk, after, j, voice);
        lemma_long_sample(before, transcript, j);
        assert(targets[j] == Target::New(id));
        assert(is_qualified(transcript, candidates, targets, id));
    }
    if is_qualified(transcript, candidates, targets, id) {
        let j = choose|j: int|
            0 <= j < candidates.len() && #[trigger] targets[j] == Target::New(id)
                && candidates[j].2 - candidates[j].1
                >= crate::media::MIN_IDENTITY_REFERENCE_MS
                && is_eligible(transcript, candidates[j].0);
        lemma_label_of(before, assignments, transcript, chunk, after, j, voice);
        assert(is_heard_well(before, assignments, transcript, voice));
        let at = voices.index_of(id);
        lemma_place_of(voices, at, 0);
        let number = (known + at + 1) as nat;
        assert(outcome_of(
            before,
            assignments,
            transcript,
            chunk,
        ).turns[candidates[k].0].speaker_id == "S"@ + decimal(number));
    }
}

proof fn lemma_label_of(
    before: SpeakerHarness,
    assignments: Seq<(String, String)>,
    transcript: LocalTranscript,
    chunk: MediaChunk,
    after: SpeakerHarness,
    k: int,
    voice: nat,
)
    requires
        before.well_formed(),
        takes_alignment(before, assignments, transcript, chunk, after),
        0 <= k < before.candidates(transcript).len(),
        voice <= u64::MAX,
        targets_of(assignments, before.candidates(transcript))[k] == Target::New(voice as u64),
    ensures
        maps(assignments, before.candidates(transcript)[k].0, "NEW"@ + decimal(voice)),
{
    let candidates = before.candidates(transcript);
    let known = before.references@.len() as int;
    lemma_all_allowed(assignments, candidates, known, before.max_speakers as int);
    lemma_first_faulty(assignments, known, before.max_speakers as int, assignments.len());
    let key = crate::speaker::labels::turn_key_text(candidates[k].0);
    assert(value_from(assignments, key, 0) is Some);
    let e = lemma_entry_of(assignments, key, 0);
    let label = assignments[e].1@;
    assert(crate::speaker::harness::label_fault(assignments[e].1@, known, before.max_speakers as int)
        is None);
    reveal_strlit("NEW");
    reveal_strlit("UNKNOWN");
    assert(starts_with(label, "NEW"@));
    assert(label.subrange(0, 3) == "NEW"@);
    let digits = label.skip(3);
    assert(label =~= "NEW"@ + digits);
    lemma_plain_number(digits);
}

proof fn lemma_entry_of(entries: Seq<(String, String)>, key: Seq<char>, n: int) -> (e: int)
    requires
        0 <= n,
        value_from(entries, key, n) is Some,
    ensures
        n <= e < entries.len(),
        entries[e].0@ == key,
        value_from(entries, key, n) == Some(entries[e].1@),
    decreases entries.len() - n,
{
    if entries[n].0@ == key {
        n
    } else {
        lemma_entry_of(entries, key, n + 1)
    }
}

/// Digits without a leading zero are the number that they write.
proof fn lemma_plain_number(digits: Seq<char>)
    requires
        crate::speaker::labels::is_plain_number(digits),
    ensures
        decimal(crate::text::digits_value(digits)) == digits,
        crate::text::digits_value(digits) > 0,
    decreases digits.len(),
{
    let value = crate::text::digits_value(digits);
    let last = digits[digits.len() - 1];
    assert('0' <= last <= '9');
    if digits.len() == 1 {
        assert(digits.drop_last() =~= Seq::empty());
        assert(crate::text::digits_value(digits.drop_last()) == 0);
        assert(decimal(value) =~= digits);
    } else {
        let most = digits.drop_last();
        assert forall|i: int| 0 <= i < most.len() implies '0' <= #[trigger] most[i] <= '9' by {
            assert(most[i] == digits[i]);
        }
        assert(most[0] == digits[0]);
        lemma_plain_number(most);
        let front = crate::text::digits_value(most);
        assert(value == front * 10 + (last as int - 48));
        assert(value / 10 == front);
        assert(value % 10 == (last as int - 48));
        assert(decimal(value) =~= digits);
    }
}

/// Numbers of new speakers follow one another: one is given only where the one
/// before it is known or given too.
pub proof fn lemma_no_number_is_skipped(
    before: SpeakerHarness,
    assignments: Seq<(String, String)>,
    transcript: LocalTranscript,
    chunk: MediaChunk,
    after: SpeakerHarness,
    k: int,
    number: nat,
)
    requires
        before.well_formed(),
        takes_alignment(before, assignments, transcript, chunk, after),
        0 <= k < before.candidates(transcript).len(),
        number > before.references@.len() + 1,
        outcome_of(before, assignments, transcript, chunk).turns[before.candidates(
            transcript,
        )[k].0].speaker_id == "S"@ + decimal(number),
    ensures
        exists|j: int|
            0 <= j < before.candidates(transcript).len() && outcome_of(
                before,
                assignments,
                transcript,
                chunk,
            ).turns[(#[trigger] before.candidates(transcript)[j]).0].speaker_id == "S"@ + decimal(
                (number - 1) as nat,
            ),
{
    let candidates = before.candidates(transcript);
    let known = before.references@.len() as int;
    let most = before.max_speakers as int;
    let targets = targets_of(assignments, candidates);
    let voices = voices_until(transcript, candidates, targets, candidates.len());
    let turns = outcome_of(before, assignments, transcript, chunk).turns;
    lemma_all_allowed(assignments, candidates, known, most);
    lemma_voices(transcript, candidates, targets, known, most, candidates.len());
    lemma_new_voices_are_heard(transcript, candidates, targets);
    lemma_candidates_bounded(transcript, before.reference_duration_ms as int);
    assert(before.references@.len() == before.references.len());
    assert forall|i: int| 0 <= i < candidates.len() implies turns[(#[trigger] candidates[i]).0].speaker_id
        == speaker_text(target_speaker(targets[i], voices, known)) by {
        lemma_sampled_speaker(
            transcript,
            before.reference_duration_ms as int,
            targets,
            voices,
            known,
            i,
        );
    }
    assert forall|n: nat| 1 <= n <= known implies turns[candidates[k].0].speaker_id != "S"@
        + #[trigger] decimal(n) by {
        reveal_strlit("S");
        lemma_decimal_round_trip(n);
        lemma_decimal_round_trip(number);
        assert(("S"@ + decimal(n)).skip(1) =~= decimal(n));
        assert(("S"@ + decimal(number)).skip(1) =~= decimal(number));
    }
    let (voice, at) = lemma_new_speaker(targets[k], voices, known, most, number);
    let other = voices[at - 1];
    assert(voices.contains(other));
    let j = choose|j: int|
        0 <= j < candidates.len() && #[trigger] targets[j] == Target::New(other)
            && candidates[j].2 - candidates[j].1 >= crate::media::MIN_IDENTITY_REFERENCE_MS
            && is_eligible(transcript, candidates[j].0);
    lemma_place_of(voices, at - 1, 0);
    assert(turns[candidates[j].0].speaker_id == "S"@ + decimal((number - 1) as nat));
}

/// Of two new speakers the one that is heard first has the smaller number.
pub proof fn lemma_new_voices_in_order(
    before: SpeakerHarness,
    assignments: Seq<(String, String)>,
    transcript: LocalTranscript,
    chunk: MediaChunk,
    after: SpeakerHarness,
    j: int,
    k: int,
)
    requires
        before.well_formed(),
        takes_alignment(before, assignments, transcript, chunk, after),
        0 <= j < k < before.candidates(transcript).len(),
        ({
            let turns = outcome_of(before, assignments, transcript, chunk).turns;
            let candidates = before.candidates(transcript);
            let known = before.references@.len();
            // Both are new speakers, and the second is not heard before the first.
            &&& forall|n: nat|
                1 <= n <= known ==> turns[candidates[j].0].speaker_id != "S"@ + #[trigger] decimal(n)
                    && turns[candidates[k].0].speaker_id != "S"@ + decimal(n)
            &&& forall|i: int|
                0 <= i < k ==> turns[(#[trigger] candidates[i]).0].speaker_id
                    != turns[candidates[k].0].speaker_id
        }),
    ensures
        ({
            let turns = outcome_of(before, assignments, transcript, chunk).turns;
            let candidates = before.candidates(transcript);
            forall|m: nat, n: nat|
                turns[candidates[j].0].speaker_id == "S"@ + #[trigger] decimal(m)
                    && turns[candidates[k].0].speaker_id == "S"@ + #[trigger] decimal(n) ==> m < n
        }),
{
    let candidates = before.candidates(transcript);
    let known = before.references@.len() as int;
    let most = before.max_speakers as int;
    let targets = targets_of(assignments, candidates);
    let voices = voices_until(transcript, candidates, targets, candidates.len());
    let turns = outcome_of(before, assignments, transcript, chunk).turns;
    lemma_all_allowed(assignments, candidates, known, most);
    lemma_voices(transcript, candidates, targets, known, most, candidates.len());
    lemma_new_voices_are_heard(transcript, candidates, targets);
    lemma_candidates_bounded(transcript, before.reference_duration_ms as int);
    assert(before.references@.len() == before.references.len());
    assert forall|i: int| 0 <= i < candidates.len() implies turns[(#[trigger] candidates[i]).0].speaker_id
        == speaker_text(target_speaker(targets[i], voices, known)) by {
        lemma_sampled_speaker(
            transcript,
            before.reference_duration_ms as int,
            targets,
            voices,
            known,
            i,
        );
    }
    assert forall|m: nat, n: nat|
        turns[candidates[j].0].speaker_id == "S"@ + #[trigger] decimal(m)
            && turns[candidates[k].0].speaker_id == "S"@ + #[trigger] decimal(n) implies m < n by {
        let (first, m1) = lemma_new_speaker(targets[j], voices, known, most, m);
        let (second, n1) = lemma_new_speaker(targets[k], voices, known, most, n);
        // The voice of the second is heard here for the first time.
        assert forall|i: int| 0 <= i < k implies #[trigger] targets[i] != Target::New(second) by {
            if targets[i] == Target::New(second) {
                assert(turns[candidates[i].0].speaker_id == turns[candidates[k].0].speaker_id);
            }
        }
        assert(is_qualified(transcript, candidates, targets, second)) by {
            assert(voices.contains(second));
        }
        lemma_voice_place(transcript, candidates, targets, second, k, candidates.len());
        let at = voices_until(transcript, candidates, targets, k as nat).len() as int;
        lemma_place_of(voices, at, 0);
        // The voice of the first stands before it.
        assert(voices.contains(first));
        assert(is_qualified(transcript, candidates, targets, first));
        lemma_heard_before(transcript, candidates, targets, first, j, k as nat);
        let heard = voices_until(transcript, candidates, targets, k as nat);
        let place = heard.index_of(first);
        lemma_voices_stay(transcript, candidates, targets, k as nat, candidates.len());
        assert(voices[place] == first);
        lemma_place_of(voices, place, 0);
    }
}

proof fn lemma_heard_before(
    transcript: LocalTranscript,
    candidates: Seq<(int, int, int)>,
    targets: Seq<Target>,
    voice: u64,
    j: int,
    n: nat,
)
    requires
        0 <= j < n <= candidates.len(),
        targets[j] == Target::New(voice),
        is_qualified(transcript, candidates, targets, voice),
    ensures
        voices_until(transcript, candidates, targets, n).contains(voice),
    decreases n,
{
    let before = voices_until(transcript, candidates, targets, (n - 1) as nat);
    let now = voices_until(transcript, candidates, targets, n);
    if j < n - 1 {
        lemma_heard_before(transcript, candidates, targets, voice, j, (n - 1) as nat);
        let i = before.index_of(voice);
        assert(now[i] == voice);
    } else if !before.contains(voice) {
        assert(now[before.len() as int] == voice);
    }
}

proof fn lemma_voices_stay(
    transcript: LocalTranscript,
    candidates: Seq<(int, int, int)>,
    targets: Seq<Target>,
    m: nat,
    n: nat,
)
    requires
        m <= n <= candidates.len(),
    ensures
        voices_until(transcript, candidates, targets, m).len() <= voices_until(
            transcript,
            candidates,
            targets,
            n,
        ).len(),
        forall|i: int|
            0 <= i < voices_until(transcript, candidates, targets, m).len()
                ==> #[trigger] voices_until(transcript, candidates, targets, n)[i] == voices_until(
                transcript,
                candidates,
                targets,
                m,
            )[i],
    decreases n,
{
    if m < n {
        lemma_voices_stay(transcript, candidates, targets, m, (n - 1) as nat);
    }
}

/// A label with a number behind those that are known is that of a new voice.
proof fn lemma_new_speaker(
    target: Target,
    voices: Seq<u64>,
    known: int,
    most: int,
    number: nat,
) -> (found: (u64, int))
    requires
        0 <= known <= most <= usize::MAX,
        voices.no_duplicates(),
        voices.len() <= most - known,
        crate::speaker::harness::is_allowed(Some(target), known, most),
        speaker_text(target_speaker(target, voices, known)) == "S"@ + decimal(number),
        forall|n: nat|
            1 <= n <= known ==> speaker_text(target_speaker(target, voices, known)) != "S"@
                + #[trigger] decimal(n),
    ensures
        target == Target::New(found.0),
        voices.contains(found.0),
        number == known + place_in(voices, found.0, 0) + 1,
        found.1 == place_in(voices, found.0, 0),
        0 <= found.1 < voices.len(),
{
    reveal_strlit("UNKNOWN");
    reveal_strlit("S");
    let label = "S"@ + decimal(number);
    assert(label[0] == 'S');
    match target {
        Target::Unknown => {
            assert("UNKNOWN"@[0] == 'U');
            (0, 0)
        },
        Target::Known(n) => {
            assert(speaker_text(target_speaker(target, voices, known)) == "S"@ + decimal(n as nat));
            (0, 0)
        },
        Target::New(voice) => {
            if !voices.contains(voice) {
                assert("UNKNOWN"@[0] == 'U');
            }
            let at = voices.index_of(voice);
            lemma_place_of(voices, at, 0);
            let own = (known + at + 1) as nat;
            assert(speaker_text(target_speaker(target, voices, known)) == "S"@ + decimal(own));
            assert(label.skip(1) =~= decimal(number));
            assert(("S"@ + decimal(own)).skip(1) =~= decimal(own));
            lemma_decimal_round_trip(number);
            lemma_decimal_round_trip(own);
            (voice, at)
        },
    }
}

// ---------------------------------------------------------------------------
// The turns themselves
// ---------------------------------------------------------------------------

/// A mapping says who speaks and changes nothing else: each turn keeps its
/// words, in its place, at its time in the whole recording.
pub proof fn lemma_turns_keep_words(
    before: SpeakerHarness,
    assignments: Seq<(String, String)>,
    transcript: LocalTranscript,
    chunk: MediaChunk,
    i: int,
)
    requires
        0 <= i < transcript.turns@.len(),
    ensures
        ({
            let turns = outcome_of(before, assignments, transcript, chunk).turns;
            &&& turns.len() == transcript.turns@.len()
            &&& turns[i].text == transcript.turns@[i].text@
            &&& turns[i].start_ms - transcript.turns@[i].start_ms == chunk.start_ms
            &&& turns[i].end_ms - transcript.turns@[i].end_ms == chunk.start_ms
            &&& turns[i].clean_reference == transcript.turns@[i].clean_reference
        }),
{
}

proof fn lemma_heard(speakers: Seq<Option<usize>>, n: nat, label: Seq<char>)
    requires
        n <= usize::MAX,
    ensures
        heard_until(speakers, n).contains(label) <==> exists|k: usize|
            k < n && speakers.contains(Some(k)) && label == #[trigger] speaker_text(Some(k)),
    decreases n,
{
    if n > 0 {
        lemma_heard(speakers, (n - 1) as nat, label);
        let before = heard_until(speakers, (n - 1) as nat);
        let now = heard_until(speakers, n);
        let last = (n - 1) as usize;
        if now.contains(label) && !before.contains(label) {
            let i = now.index_of(label);
            if i < before.len() {
                assert(before[i] == label);
            }
            assert(label == speaker_text(Some(last)));
        }
        if before.contains(label) {
            let i = before.index_of(label);
            assert(now[i] == label);
        }
        if speakers.contains(Some(last)) && label == speaker_text(Some(last)) {
            assert(now[before.len() as int] == label);
        }
    }
}

/// The list of those who speak holds the labels of the turns and no others.
pub proof fn lemma_speakers_are_listed(
    before: SpeakerHarness,
    assignments: Seq<(String, String)>,
    transcript: LocalTranscript,
    chunk: MediaChunk,
    after: SpeakerHarness,
    label: Seq<char>,
)
    requires
        before.well_formed(),
        takes_alignment(before, assignments, transcript, chunk, after),
    ensures
        ({
            let outcome = outcome_of(before, assignments, transcript, chunk);
            outcome.speaker_ids.contains(label) <==> exists|i: int|
                0 <= i < outcome.turns.len() && (#[trigger] outcome.turns[i]).speaker_id == label
        }),
{
    let candidates = before.candidates(transcript);
    let known = before.references@.len() as int;
    let most = before.max_speakers as int;
    let targets = targets_of(assignments, candidates);
    let voices = voices_until(transcript, candidates, targets, candidates.len());
    let count = transcript.turns@.len();
    let speakers = speakers_of(count, candidates, targets, voices, known);
    let outcome = outcome_of(before, assignments, transcript, chunk);
    let total = (known + voices.len()) as nat;
    lemma_all_allowed(assignments, candidates, known, most);
    lemma_voices(transcript, candidates, targets, known, most, candidates.len());
    assert(before.references@.len() == before.references.len());
    lemma_heard(speakers, total, label);
    let named = heard_until(speakers, total);
    let ids = heard_ids(speakers, total);
    if exists|i: int|
        0 <= i < outcome.turns.len() && (#[trigger] outcome.turns[i]).speaker_id == label {
        let i = choose|i: int|
            0 <= i < outcome.turns.len() && (#[trigger] outcome.turns[i]).speaker_id == label;
        assert(speakers.contains(speakers[i]));
        match speakers[i] {
            Some(k) => {
                lemma_speakers_known(
                    count,
                    candidates,
                    targets,
                    voices,
                    known,
                    most,
                    i,
                    candidates.len(),
                );
                assert(k < total && speakers.contains(Some(k)) && label == speaker_text(Some(k)));
                let at = named.index_of(label);
                assert(ids[at] == label);
            },
            None => {
                assert(ids[named.len() as int] == label);
            },
        }
    }
    if ids.contains(label) {
        let at = ids.index_of(label);
        if at < named.len() {
            assert(named[at] == label);
            let k = choose|k: usize|
                k < total && speakers.contains(Some(k)) && label == #[trigger] speaker_text(Some(k));
            let i = speakers.index_of(Some(k));
            assert(outcome.turns[i].speaker_id == label);
        } else {
            let i = speakers.index_of(None);
            assert(outcome.turns[i].speaker_id == label);
        }
    }
}

} // verus!
