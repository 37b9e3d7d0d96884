//! The samples that are chosen for comparison make a packet within its limits.
use vstd::prelude::*;
use crate::media::packet::{
    audio_ms, candidate_fault, candidates_fault, is_named_before, packet_fault, range_ms,
    reference_fault, references_fault,
};
use crate::media::{
    MediaChunk, SpeakerReferenceRange, MAX_IDENTITY_BOUNDARY_MS, MAX_IDENTITY_CANDIDATE_AUDIO_MS,
    MAX_IDENTITY_REFERENCES, MAX_IDENTITY_SAMPLE_MS, MAX_IDENTITY_SILENCE_MS,
    MIN_IDENTITY_CANDIDATE_MS,
};
use crate::speaker::candidates::{
    activity_of, candidates_of, is_heard, lemma_candidates_bounded, lemma_candidates_heard,
    lemma_candidates_in_order, samples_ms, selected_turns,
};
use crate::speaker::harness::{candidate_views, is_reference, range_views, ranges_until, SpeakerHarness};
use crate::speaker::labels::{
    lemma_speaker_label_round_trip, lemma_turn_key_round_trip, speaker_text,
    turn_key_text,
};
use crate::speaker::selection::lemma_selected_count;
use crate::speaker::LocalTranscript;

verus! {

// ---------------------------------------------------------------------------
// The known voices
// ---------------------------------------------------------------------------

/// A range is the reference of one of the first `n` speakers.
spec fn is_known(range: (Seq<char>, u64, u64), n: nat) -> bool {
    is_reference(Some((range.1, range.2))) && exists|k: usize|
        k < n && range.0 == #[trigger] speaker_text(Some(k))
}

/// Different speakers have different labels.
pub(crate) proof fn lemma_labels_differ(j: usize, k: usize)
    requires
        j < k < usize::MAX,
    ensures
        speaker_text(Some(j)) != speaker_text(Some(k)),
{
    lemma_speaker_label_round_trip(j);
    lemma_speaker_label_round_trip(k);
}

proof fn lemma_known(references: Seq<Option<(u64, u64)>>, n: nat)
    requires
        n <= references.len() <= MAX_IDENTITY_REFERENCES,
        forall|k: int| 0 <= k < references.len() ==> is_reference(#[trigger] references[k]),
    ensures
        ranges_until(references, n).len() <= n,
        forall|a: int|
            0 <= a < ranges_until(references, n).len() ==> is_known(
                #[trigger] ranges_until(references, n)[a],
                n,
            ),
        forall|a: int, b: int|
            0 <= a < b < ranges_until(references, n).len() ==> (#[trigger] ranges_until(
                references,
                n,
            )[a]).0 != (#[trigger] ranges_until(references, n)[b]).0,
    decreases n,
{
    if n > 0 {
        let last = (n - 1) as nat;
        lemma_known(references, last);
        let before = ranges_until(references, last);
        let ranges = ranges_until(references, n);
        let label = speaker_text(Some(last as usize));
        assert(is_reference(references[n - 1]));
        assert forall|a: int| 0 <= a < before.len() implies is_known(#[trigger] before[a], n)
            && before[a].0 != label by {
            assert(is_known(before[a], last));
            let k = choose|k: usize| k < last && before[a].0 == #[trigger] speaker_text(Some(k));
            lemma_labels_differ(k, last as usize);
        }
        assert forall|a: int| 0 <= a < ranges.len() implies is_known(#[trigger] ranges[a], n) by {
            if a < before.len() {
                assert(ranges[a] == before[a]);
            } else {
                assert(ranges[a].0 == speaker_text(Some(last as usize)));
            }
        }
        assert forall|a: int, b: int| 0 <= a < b < ranges.len() implies (#[trigger] ranges[a]).0
            != (#[trigger] ranges[b]).0 by {
            assert(ranges[a] == before[a]);
            if b < before.len() {
                assert(ranges[b] == before[b]);
            }
        }
    }
}

proof fn lemma_references_taken(references: Seq<SpeakerReferenceRange>, n: int)
    requires
        0 <= n <= references.len(),
        forall|k: int|
            0 <= k < references.len() ==> (#[trigger] reference_fault(references, k)) is None,
    ensures
        references_fault(references, n) is None,
    decreases references.len() - n,
{
    if n < references.len() {
        assert(reference_fault(references, n) is None);
        lemma_references_taken(references, n + 1);
    }
}

// ---------------------------------------------------------------------------
// The voices to compare
// ---------------------------------------------------------------------------

proof fn lemma_candidates_taken(chunk: MediaChunk, candidates: Seq<SpeakerReferenceRange>, n: int)
    requires
        0 <= n <= candidates.len(),
        forall|k: int|
            0 <= k < candidates.len() ==> (#[trigger] candidate_fault(chunk, candidates, k)) is None,
    ensures
        candidates_fault(chunk, candidates, n) is None,
    decreases candidates.len() - n,
{
    if n < candidates.len() {
        assert(candidate_fault(chunk, candidates, n) is None);
        lemma_candidates_taken(chunk, candidates, n + 1);
    }
}

proof fn lemma_same_length(
    ranges: Seq<SpeakerReferenceRange>,
    candidates: Seq<(int, int, int)>,
    n: nat,
)
    requires
        n <= ranges.len() == candidates.len(),
        forall|k: int|
            0 <= k < ranges.len() ==> range_ms(#[trigger] ranges[k]) == candidates[k].2
                - candidates[k].1,
    ensures
        audio_ms(ranges, n) == samples_ms(candidates, n),
    decreases n,
{
    if n > 0 {
        lemma_same_length(ranges, candidates, (n - 1) as nat);
        assert(range_ms(ranges[n - 1]) == candidates[n - 1].2 - candidates[n - 1].1);
    }
}

proof fn lemma_keys_differ(j: int, k: int)
    requires
        0 <= j < k < u64::MAX,
    ensures
        turn_key_text(j) != turn_key_text(k),
{
    lemma_turn_key_round_trip(j, k + 1);
    lemma_turn_key_round_trip(k, k + 1);
}

// ---------------------------------------------------------------------------
// The packet
// ---------------------------------------------------------------------------

/// The samples of a harness are told apart and have the length that a packet
/// asks for.
proof fn lemma_references_pass(harness: SpeakerHarness, references: Seq<SpeakerReferenceRange>)
    requires
        harness.well_formed(),
        harness.max_speakers <= MAX_IDENTITY_REFERENCES,
        range_views(references) == ranges_until(harness.references@, harness.references@.len()),
    ensures
        references.len() <= MAX_IDENTITY_REFERENCES,
        references_fault(references, 0) is None,
{
    let views = range_views(references);
    lemma_known(harness.references@, harness.references@.len());
    assert forall|k: int| 0 <= k < references.len() implies (#[trigger] reference_fault(
        references,
        k,
    )) is None by {
        assert(is_known(views[k], harness.references@.len()));
        assert(views[k] == (
            references[k].speaker_id@,
            references[k].start_ms,
            references[k].end_ms,
        ));
        if is_named_before(references, references[k].speaker_id@, k) {
            let j = choose|j: int|
                0 <= j < k && #[trigger] references[j].speaker_id@ == references[k].speaker_id@;
            assert(views[j].0 == references[j].speaker_id@);
            assert(views[j].0 != views[k].0);
        }
    }
    lemma_references_taken(references, 0);
}

/// Each sample of a turn stands in the stretch at the time of its candidate,
/// under the key of its turn.
proof fn lemma_ranges_placed(
    transcript: LocalTranscript,
    reference_ms: int,
    chunk: MediaChunk,
    ranges: Seq<SpeakerReferenceRange>,
)
    requires
        chunk.start_ms < chunk.end_ms,
        forall|i: int|
            0 <= i < transcript.turns@.len() ==> (#[trigger] transcript.turns@[i]).end_ms
                <= chunk.duration(),
        range_views(ranges) == candidate_views(
            candidates_of(transcript, reference_ms),
            chunk.start_ms as int,
        ),
    ensures
        ranges.len() == candidates_of(transcript, reference_ms).len(),
        forall|k: int|
            0 <= k < ranges.len() ==> {
                let candidate = candidates_of(transcript, reference_ms)[k];
                &&& (#[trigger] ranges[k]).speaker_id@ == turn_key_text(candidate.0)
                &&& ranges[k].start_ms == chunk.start_ms + candidate.1
                &&& ranges[k].end_ms == chunk.start_ms + candidate.2
                &&& ranges[k].end_ms <= chunk.end_ms
                &&& range_ms(ranges[k]) == candidate.2 - candidate.1
            },
{
    let candidates = candidates_of(transcript, reference_ms);
    let views = range_views(ranges);
    lemma_candidates_bounded(transcript, reference_ms);
    assert(views.len() == candidates.len());
    assert forall|k: int| 0 <= k < ranges.len() implies ({
        let candidate = candidates[k];
        &&& (#[trigger] ranges[k]).speaker_id@ == turn_key_text(candidate.0)
        &&& ranges[k].start_ms == chunk.start_ms + candidate.1
        &&& ranges[k].end_ms == chunk.start_ms + candidate.2
        &&& ranges[k].end_ms <= chunk.end_ms
        &&& range_ms(ranges[k]) == candidate.2 - candidate.1
    }) by {
        let candidate = candidates[k];
        assert(views[k] == (ranges[k].speaker_id@, ranges[k].start_ms, ranges[k].end_ms));
        assert(transcript.turns@[candidate.0].end_ms <= chunk.duration());
    }
}

/// The samples that are chosen make a packet that passes all its limits. With
/// the settings that are accepted there are at most thirty-two speakers and
/// half a minute of context, and the turns lie in the stretch; where any
/// sample is chosen, the packet is made. Each sample is one to ten seconds
/// long, lies in its own turn and in one part of the sound, and all together
/// are at most two minutes.
pub proof fn lemma_chosen_make_packet(
    harness: SpeakerHarness,
    transcript: LocalTranscript,
    chunk: MediaChunk,
    references: Seq<SpeakerReferenceRange>,
    ranges: Seq<SpeakerReferenceRange>,
    silence_ms: u64,
)
    requires
        harness.well_formed(),
        harness.max_speakers <= MAX_IDENTITY_REFERENCES,
        chunk.audio_start_ms <= chunk.start_ms < chunk.end_ms,
        chunk.context() <= MAX_IDENTITY_BOUNDARY_MS,
        silence_ms <= MAX_IDENTITY_SILENCE_MS,
        forall|i: int|
            0 <= i < transcript.turns@.len() ==> (#[trigger] transcript.turns@[i]).end_ms
                <= chunk.duration(),
        range_views(references) == ranges_until(harness.references@, harness.references@.len()),
        range_views(ranges) == candidate_views(
            harness.candidates(transcript),
            chunk.start_ms as int,
        ),
    ensures
        ranges.len() > 0 ==> packet_fault(chunk, references, ranges, silence_ms) is None,
        ranges.len() == harness.candidates(transcript).len(),
        forall|k: int|
            0 <= k < ranges.len() ==> {
                let turn = transcript.turns@[harness.candidates(transcript)[k].0];
                let start = (#[trigger] ranges[k]).start_ms - chunk.start_ms;
                let end = ranges[k].end_ms - chunk.start_ms;
                &&& MIN_IDENTITY_CANDIDATE_MS <= end - start <= MAX_IDENTITY_SAMPLE_MS
                &&& turn.start_ms <= start && end <= turn.end_ms
                &&& is_heard(activity_of(transcript), start, end)
            },
        audio_ms(ranges, ranges.len()) <= MAX_IDENTITY_CANDIDATE_AUDIO_MS,
{
    let reference_ms = harness.reference_duration_ms as int;
    let candidates = harness.candidates(transcript);
    lemma_candidates_bounded(transcript, reference_ms);
    lemma_candidates_in_order(transcript, reference_ms);
    lemma_candidates_heard(transcript, reference_ms);
    lemma_selected_count(transcript);
    lemma_ranges_placed(transcript, reference_ms, chunk, ranges);
    lemma_references_pass(harness, references);
    lemma_same_length(ranges, candidates, ranges.len());
    assert(candidates.len() <= selected_turns(transcript).len());
    assert(transcript.turns.len() == transcript.turns@.len());
    assert forall|k: int| 0 <= k < ranges.len() implies (#[trigger] candidate_fault(
        chunk,
        ranges,
        k,
    )) is None by {
        let candidate = candidates[k];
        assert(range_ms(ranges[k]) == candidate.2 - candidate.1);
        lemma_turn_key_round_trip(candidate.0, transcript.turns@.len() as int);
        if is_named_before(ranges, ranges[k].speaker_id@, k) {
            let j = choose|j: int|
                0 <= j < k && #[trigger] ranges[j].speaker_id@ == ranges[k].speaker_id@;
            assert(ranges[j].speaker_id@ == turn_key_text(candidates[j].0));
            assert(candidates[j].0 < candidates[k].0);
            lemma_keys_differ(candidates[j].0, candidates[k].0);
        }
    }
    lemma_candidates_taken(chunk, ranges, 0);
}

} // verus!
