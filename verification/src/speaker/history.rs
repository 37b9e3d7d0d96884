//! What is known of the speakers of a recording over all its stretches.
use vstd::prelude::*;
use crate::config::Config;
use crate::media::{MediaChunk, MAX_IDENTITY_SAMPLE_MS, MIN_IDENTITY_REFERENCE_MS};
use crate::speaker::candidates::candidates_of;
use crate::speaker::harness::{
    is_reference, keeps_speakers, known_labels, lemma_references_kept,
    lemma_speakers_have_references, ranges_until, speakers_of, takes_alignment, targets_of,
    times_fit, updated_references, voices_until, with_room, SpeakerHarness,
};
use crate::speaker::labels::speaker_text;
use crate::speaker::packets::lemma_labels_differ;
use crate::speaker::LocalTranscript;
use crate::text::decimal;

verus! {

/// One call leads from the one to the other: a mapping that is taken, one that
/// is not taken, or a stretch that is left without speakers.
pub open spec fn is_step(before: SpeakerHarness, after: SpeakerHarness) -> bool {
    after.well_formed() && (keeps_speakers(before, after) || exists|
        assignments: Seq<(String, String)>,
        transcript: LocalTranscript,
        chunk: MediaChunk,
    |
        times_fit(transcript, chunk) && #[trigger] takes_alignment(
            before,
            assignments,
            transcript,
            chunk,
            after,
        ))
}

/// What a harness that was just made becomes, call by call.
pub open spec fn is_history(config: Config, states: Seq<SpeakerHarness>) -> bool {
    &&& states.len() > 0
    &&& states[0].well_formed()
    &&& states[0].references@.len() == 0
    &&& states[0].max_speakers == config.max_speakers
    &&& forall|n: int|
        0 <= n < states.len() - 1 ==> is_step(#[trigger] states[n], states[n + 1])
}

/// Every speaker has a reference.
spec fn all_heard(state: SpeakerHarness) -> bool {
    forall|k: int| 0 <= k < state.references@.len() ==> (#[trigger] state.references@[k]) is Some
}

/// What is known stays, and every speaker has a reference where every speaker
/// had one.
proof fn lemma_step(before: SpeakerHarness, after: SpeakerHarness)
    requires
        is_step(before, after),
        all_heard(before),
    ensures
        after.max_speakers == before.max_speakers,
        after.references@.len() >= before.references@.len(),
        after.references@.take(before.references@.len() as int) == before.references@,
        all_heard(after),
{
    let references = before.references@;
    if keeps_speakers(before, after) {
        assert(after.references@.take(references.len() as int) =~= references);
        assert forall|k: int| 0 <= k < after.references@.len() implies (
        #[trigger] after.references@[k]) is Some by {
            assert(references[k] is Some);
        }
    } else {
        let (assignments, transcript, chunk) = choose|
            assignments: Seq<(String, String)>,
            transcript: LocalTranscript,
            chunk: MediaChunk,
        |
            times_fit(transcript, chunk) && #[trigger] takes_alignment(
                before,
                assignments,
                transcript,
                chunk,
                after,
            );
        let reference_ms = before.reference_duration_ms as int;
        let start_ms = chunk.start_ms as int;
        let candidates = candidates_of(transcript, reference_ms);
        let targets = targets_of(assignments, candidates);
        let voices = voices_until(transcript, candidates, targets, candidates.len());
        let speakers = speakers_of(
            transcript.turns@.len(),
            candidates,
            targets,
            voices,
            references.len() as int,
        );
        lemma_references_kept(
            transcript,
            start_ms,
            candidates,
            speakers,
            references,
            voices.len(),
        );
        assert(after.references@ == updated_references(
            transcript,
            start_ms,
            candidates,
            speakers,
            with_room(references, voices.len()),
        ));
        lemma_speakers_have_references(transcript, start_ms, reference_ms, targets, references);
        assert(after.references@.take(references.len() as int) =~= references) by {
            assert forall|k: int| 0 <= k < references.len() implies after.references@[k]
                == #[trigger] references[k] by {
                assert(references[k] is Some);
            }
        }
    }
}

proof fn lemma_states(config: Config, states: Seq<SpeakerHarness>, i: int, j: int)
    requires
        is_history(config, states),
        0 <= i <= j < states.len(),
    ensures
        states[j].well_formed(),
        states[j].max_speakers == config.max_speakers,
        all_heard(states[j]),
        states[i].references@.len() <= states[j].references@.len(),
        states[j].references@.take(states[i].references@.len() as int) == states[i].references@,
    decreases j,
{
    if j > 0 {
        let before = states[j - 1];
        lemma_states(config, states, if i < j { i } else { j - 1 }, j - 1);
        assert(is_step(states[j - 1], states[j - 1 + 1]));
        lemma_step(before, states[j]);
        if i < j {
            let first = states[i].references@;
            assert(states[j].references@.take(first.len() as int) =~= first) by {
                assert forall|k: int| 0 <= k < first.len() implies #[trigger] states[j].references@[
                k] == first[k] by {
                    assert(before.references@.take(first.len() as int)[k] == first[k]);
                    assert(states[j].references@.take(before.references@.len() as int)[k]
                        == before.references@[k]);
                }
            }
        }
    }
    if i == j {
        assert(states[j].references@.take(states[i].references@.len() as int)
            =~= states[i].references@);
    }
}

/// The known speakers are `S1`, `S2` and so on in the order of their numbers,
/// without a gap and without repetition, and no more than there may be. A
/// speaker that is known stays known under its label.
pub proof fn lemma_known_speakers(config: Config, states: Seq<SpeakerHarness>, i: int, j: int)
    requires
        is_history(config, states),
        0 <= i <= j < states.len(),
    ensures
        ({
            let earlier = known_labels(states[i].references@.len());
            let labels = known_labels(states[j].references@.len());
            &&& labels.len() <= config.max_speakers
            &&& labels.no_duplicates()
            &&& forall|k: int|
                0 <= k < labels.len() ==> #[trigger] labels[k] == "S"@ + decimal((k + 1) as nat)
            &&& earlier.len() <= labels.len()
            &&& labels.take(earlier.len() as int) == earlier
        }),
{
    lemma_states(config, states, i, j);
    let earlier = known_labels(states[i].references@.len());
    let labels = known_labels(states[j].references@.len());
    assert(labels.take(earlier.len() as int) =~= earlier);
    assert forall|x: int, y: int|
        0 <= x < labels.len() && 0 <= y < labels.len() && x != y implies labels[x] != labels[y] by {
        if x < y {
            lemma_labels_differ(x as usize, y as usize);
        } else {
            lemma_labels_differ(y as usize, x as usize);
        }
    }
}

proof fn lemma_ranges(references: Seq<Option<(u64, u64)>>, n: nat)
    requires
        n <= references.len() <= usize::MAX,
        forall|k: int| 0 <= k < references.len() ==> (#[trigger] references[k]) is Some,
    ensures
        ranges_until(references, n).len() == n,
        forall|k: int|
            0 <= k < n ==> #[trigger] ranges_until(references, n)[k] == (
                speaker_text(Some(k as usize)),
                (references[k]->0).0,
                (references[k]->0).1,
            ),
    decreases n,
{
    if n > 0 {
        lemma_ranges(references, (n - 1) as nat);
        assert(references[n - 1] is Some);
    }
}

/// Each known speaker has one reference, in the order of the speakers, and none
/// has another one. A reference is two to ten seconds long, and once there it
/// stays as it is.
pub proof fn lemma_references_of_speakers(
    config: Config,
    states: Seq<SpeakerHarness>,
    i: int,
    j: int,
)
    requires
        is_history(config, states),
        0 <= i <= j < states.len(),
    ensures
        ({
            let earlier = ranges_until(states[i].references@, states[i].references@.len());
            let ranges = ranges_until(states[j].references@, states[j].references@.len());
            let labels = known_labels(states[j].references@.len());
            &&& ranges.map_values(|range: (Seq<char>, u64, u64)| range.0) == labels
            &&& forall|k: int|
                0 <= k < ranges.len() ==> MIN_IDENTITY_REFERENCE_MS <= (#[trigger] ranges[k]).2
                    - ranges[k].1 <= MAX_IDENTITY_SAMPLE_MS
            &&& earlier.len() <= ranges.len()
            &&& ranges.take(earlier.len() as int) == earlier
        }),
{
    lemma_states(config, states, i, j);
    lemma_states(config, states, i, i);
    let first = states[i].references@;
    let last = states[j].references@;
    lemma_ranges(first, first.len());
    lemma_ranges(last, last.len());
    let earlier = ranges_until(first, first.len());
    let ranges = ranges_until(last, last.len());
    let labels = known_labels(last.len());
    assert(ranges.map_values(|range: (Seq<char>, u64, u64)| range.0) =~= labels);
    assert forall|k: int| 0 <= k < ranges.len() implies MIN_IDENTITY_REFERENCE_MS <= (
    #[trigger] ranges[k]).2 - ranges[k].1 <= MAX_IDENTITY_SAMPLE_MS by {
        assert(is_reference(last[k]));
    }
    assert(ranges.take(earlier.len() as int) =~= earlier) by {
        assert forall|k: int| 0 <= k < earlier.len() implies ranges[k] == #[trigger] earlier[k] by {
            assert(last.take(first.len() as int)[k] == first[k]);
        }
    }
}

} // verus!
