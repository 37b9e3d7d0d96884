//! Pieces of a recording, silence, and packets of voice samples.
use vstd::prelude::*;
use crate::media::chunks::{are_halves, cuts_from, is_piece, planned_cuts};
use crate::media::packet::{
    are_windows, audio_ms, candidate_fault, candidates_fault, is_named_before, is_plan, is_turn_key,
    packet_fault, parts_of_list, reference_fault, references_fault, PacketInput, PacketPlan,
};
use crate::media::silence::{is_silent, silent_by, SilenceMark};
use crate::media::{MediaChunk, SpeakerReferenceRange};

verus! {

// ---------------------------------------------------------------------------
// Packets
// ---------------------------------------------------------------------------

/// The limits of a packet: at most thirty-two known voices of two to ten seconds
/// each, one to forty-eight samples of one to ten seconds each that lie in the
/// stretch, at most two minutes of samples, half a minute of context and five
/// seconds of silence, and no name twice.
pub open spec fn is_within_limits(
    chunk: MediaChunk,
    references: Seq<SpeakerReferenceRange>,
    candidates: Seq<SpeakerReferenceRange>,
    silence_ms: u64,
) -> bool {
    &&& chunk.audio_start_ms <= chunk.start_ms < chunk.end_ms
    &&& chunk.start_ms - chunk.audio_start_ms <= 30_000
    &&& silence_ms <= 5_000
    &&& references.len() <= 32
    &&& 1 <= candidates.len() <= 48
    &&& forall|k: int|
        0 <= k < references.len() ==> 2_000 <= (#[trigger] references[k]).end_ms
            - references[k].start_ms <= 10_000
    &&& forall|k: int|
        0 <= k < candidates.len() ==> 1_000 <= (#[trigger] candidates[k]).end_ms
            - candidates[k].start_ms <= 10_000 && chunk.start_ms <= candidates[k].start_ms
            && candidates[k].end_ms <= chunk.end_ms && is_turn_key(candidates[k].speaker_id@)
    &&& forall|j: int, k: int|
        0 <= j < k < references.len() ==> (#[trigger] references[j]).speaker_id@ != (
        #[trigger] references[k]).speaker_id@
    &&& forall|j: int, k: int|
        0 <= j < k < candidates.len() ==> (#[trigger] candidates[j]).speaker_id@ != (
        #[trigger] candidates[k]).speaker_id@
    &&& length_of(candidates) <= 120_000
}

/// How long samples are together.
pub open spec fn length_of(ranges: Seq<SpeakerReferenceRange>) -> int
    decreases ranges.len(),
{
    if ranges.len() == 0 {
        0
    } else {
        length_of(ranges.drop_last()) + (ranges.last().end_ms - ranges.last().start_ms)
    }
}

proof fn lemma_references(references: Seq<SpeakerReferenceRange>, n: int)
    requires
        0 <= n <= references.len(),
    ensures
        references_fault(references, n) is None <==> forall|k: int|
            n <= k < references.len() ==> (#[trigger] reference_fault(references, k)) is None,
    decreases references.len() - n,
{
    if n < references.len() {
        lemma_references(references, n + 1);
    }
}

proof fn lemma_candidates(chunk: MediaChunk, candidates: Seq<SpeakerReferenceRange>, n: int)
    requires
        0 <= n <= candidates.len(),
    ensures
        candidates_fault(chunk, candidates, n) is None <==> forall|k: int|
            n <= k < candidates.len() ==> (#[trigger] candidate_fault(chunk, candidates, k)) is None,
    decreases candidates.len() - n,
{
    if n < candidates.len() {
        lemma_candidates(chunk, candidates, n + 1);
    }
}

proof fn lemma_length(ranges: Seq<SpeakerReferenceRange>, n: nat)
    requires
        n <= ranges.len(),
        forall|k: int| 0 <= k < ranges.len() ==> (#[trigger] ranges[k]).start_ms <= ranges[k].end_ms,
    ensures
        audio_ms(ranges, n) == length_of(ranges.take(n as int)),
    decreases n,
{
    if n > 0 {
        lemma_length(ranges, (n - 1) as nat);
        assert(ranges.take(n as int).drop_last() =~= ranges.take(n - 1));
        assert(ranges.take(n as int).last() == ranges[n - 1]);
    }
}

/// A packet is made where its limits are kept, and only there.
pub proof fn lemma_packet_limits(
    chunk: MediaChunk,
    references: Seq<SpeakerReferenceRange>,
    candidates: Seq<SpeakerReferenceRange>,
    silence_ms: u64,
)
    ensures
        packet_fault(chunk, references, candidates, silence_ms) is None <==> is_within_limits(
            chunk,
            references,
            candidates,
            silence_ms,
        ),
{
    lemma_references(references, 0);
    lemma_candidates(chunk, candidates, 0);
    if packet_fault(chunk, references, candidates, silence_ms) is None {
        assert forall|k: int| 0 <= k < references.len() implies 2_000 <= (
        #[trigger] references[k]).end_ms - references[k].start_ms <= 10_000 by {
            assert(reference_fault(references, k) is None);
        }
        assert forall|k: int| 0 <= k < candidates.len() implies 1_000 <= (
        #[trigger] candidates[k]).end_ms - candidates[k].start_ms <= 10_000 && chunk.start_ms
            <= candidates[k].start_ms && candidates[k].end_ms <= chunk.end_ms && is_turn_key(
            candidates[k].speaker_id@,
        ) by {
            assert(candidate_fault(chunk, candidates, k) is None);
        }
        assert forall|j: int, k: int| 0 <= j < k < references.len() implies (
        #[trigger] references[j]).speaker_id@ != (#[trigger] references[k]).speaker_id@ by {
            assert(reference_fault(references, k) is None);
            assert(!is_named_before(references, references[k].speaker_id@, k));
        }
        assert forall|j: int, k: int| 0 <= j < k < candidates.len() implies (
        #[trigger] candidates[j]).speaker_id@ != (#[trigger] candidates[k]).speaker_id@ by {
            assert(candidate_fault(chunk, candidates, k) is None);
            assert(!is_named_before(candidates, candidates[k].speaker_id@, k));
        }
        lemma_length(candidates, candidates.len());
        assert(candidates.take(candidates.len() as int) =~= candidates);
    }
    if is_within_limits(chunk, references, candidates, silence_ms) {
        assert forall|k: int| 0 <= k < references.len() implies (#[trigger] reference_fault(
            references,
            k,
        )) is None by {
            assert(2_000 <= references[k].end_ms - references[k].start_ms <= 10_000);
        }
        assert forall|k: int| 0 <= k < candidates.len() implies (#[trigger] candidate_fault(
            chunk,
            candidates,
            k,
        )) is None by {
            assert(1_000 <= candidates[k].end_ms - candidates[k].start_ms <= 10_000);
        }
        assert forall|k: int| 0 <= k < candidates.len() implies (#[trigger] candidates[k]).start_ms
            <= candidates[k].end_ms by {}
        lemma_length(candidates, candidates.len());
        assert(candidates.take(candidates.len() as int) =~= candidates);
    }
}

/// In a packet each sample is as long as in the recording, and between two
/// samples there is the silence.
pub proof fn lemma_samples_stand_apart(
    plan: PacketPlan,
    chunk: MediaChunk,
    references: Seq<SpeakerReferenceRange>,
    candidates: Seq<SpeakerReferenceRange>,
    silence_ms: u64,
    k: int,
)
    requires
        is_plan(plan, chunk, references, candidates, silence_ms),
        0 <= k < candidates.len(),
        forall|n: int|
            0 <= n < references.len() ==> (#[trigger] references[n]).start_ms
                <= references[n].end_ms,
        forall|n: int|
            0 <= n < candidates.len() ==> (#[trigger] candidates[n]).start_ms
                <= candidates[n].end_ms,
    ensures
        plan.candidates@.len() == candidates.len(),
        plan.references@.len() == references.len(),
        plan.candidates@[k].speaker_id@ == candidates[k].speaker_id@,
        plan.candidates@[k].end_ms - plan.candidates@[k].start_ms == candidates[k].end_ms
            - candidates[k].start_ms,
        k + 1 < candidates.len() ==> plan.candidates@[k + 1].start_ms - plan.candidates@[k].end_ms
            == silence_ms,
        k + 1 == candidates.len() ==> plan.total_duration_ms - plan.candidates@[k].end_ms
            == silence_ms,
        references.len() > 0 ==> plan.references@[0].start_ms == 0,
        forall|n: int|
            0 <= n < references.len() - 1 ==> plan.references@[n + 1].start_ms
                - (#[trigger] plan.references@[n]).end_ms == silence_ms,
        forall|n: int|
            0 <= n < references.len() ==> (#[trigger] plan.references@[n]).end_ms
                - plan.references@[n].start_ms == references[n].end_ms - references[n].start_ms
                && plan.references@[n].speaker_id@ == references[n].speaker_id@,
{
    assert(candidates[k].start_ms <= candidates[k].end_ms);
    assert(are_windows(plan.references@, references, silence_ms, 0));
    if k + 1 < candidates.len() {
        let next = plan.candidates@[k + 1];
        assert(candidates[k + 1].start_ms <= candidates[k + 1].end_ms);
    }
    assert forall|n: int| 0 <= n < references.len() - 1 implies plan.references@[n + 1].start_ms
        - (#[trigger] plan.references@[n]).end_ms == silence_ms by {
        let next = plan.references@[n + 1];
        assert(references[n].start_ms <= references[n].end_ms);
    }
    assert forall|n: int| 0 <= n < references.len() implies (#[trigger] plan.references@[n]).end_ms
        - plan.references@[n].start_ms == references[n].end_ms - references[n].start_ms
        && plan.references@[n].speaker_id@ == references[n].speaker_id@ by {
        assert(references[n].start_ms <= references[n].end_ms);
    }
    if references.len() > 0 {
        let first = plan.references@[0];
    }
}

proof fn lemma_sound_of_sample(ranges: Seq<SpeakerReferenceRange>, silence_ms: u64, k: int, n: nat)
    requires
        0 <= k < n <= ranges.len(),
        ranges[k].start_ms <= ranges[k].end_ms,
    ensures
        parts_of_list(ranges, silence_ms, n).len() == 2 * n,
        parts_of_list(ranges, silence_ms, n)[2 * k] == (PacketInput::Sound {
            start_ms: ranges[k].start_ms,
            duration_ms: (ranges[k].end_ms - ranges[k].start_ms) as u64,
        }),
        parts_of_list(ranges, silence_ms, n)[2 * k + 1] == (PacketInput::Silence {
            duration_ms: silence_ms,
        }),
    decreases n,
{
    if k < n - 1 {
        lemma_sound_of_sample(ranges, silence_ms, k, (n - 1) as nat);
    } else {
        lemma_twice(ranges, silence_ms, (n - 1) as nat);
    }
}

proof fn lemma_twice(ranges: Seq<SpeakerReferenceRange>, silence_ms: u64, n: nat)
    ensures
        parts_of_list(ranges, silence_ms, n).len() == 2 * n,
    decreases n,
{
    if n > 0 {
        lemma_twice(ranges, silence_ms, (n - 1) as nat);
    }
}

/// What is played for each known voice is its own part of the recording, and
/// silence behind it.
pub proof fn lemma_known_voices_are_played(
    plan: PacketPlan,
    chunk: MediaChunk,
    references: Seq<SpeakerReferenceRange>,
    candidates: Seq<SpeakerReferenceRange>,
    silence_ms: u64,
    k: int,
)
    requires
        is_plan(plan, chunk, references, candidates, silence_ms),
        0 <= k < references.len(),
        references[k].start_ms <= references[k].end_ms,
    ensures
        plan.inputs@[2 * k] == (PacketInput::Sound {
            start_ms: references[k].start_ms,
            duration_ms: (references[k].end_ms - references[k].start_ms) as u64,
        }),
        plan.inputs@[2 * k + 1] == (PacketInput::Silence { duration_ms: silence_ms }),
{
    lemma_sound_of_sample(references, silence_ms, k, references.len());
}

/// What is played for each sample of a turn is its own part of the recording,
/// and silence behind it; the samples are the end of the packet.
pub proof fn lemma_samples_are_played(
    plan: PacketPlan,
    chunk: MediaChunk,
    references: Seq<SpeakerReferenceRange>,
    candidates: Seq<SpeakerReferenceRange>,
    silence_ms: u64,
    k: int,
)
    requires
        is_plan(plan, chunk, references, candidates, silence_ms),
        0 <= k < candidates.len(),
        candidates[k].start_ms <= candidates[k].end_ms,
    ensures
        ({
            let at = plan.inputs@.len() - 2 * (candidates.len() - k);
            &&& plan.inputs@[at] == (PacketInput::Sound {
                start_ms: candidates[k].start_ms,
                duration_ms: (candidates[k].end_ms - candidates[k].start_ms) as u64,
            })
            &&& plan.inputs@[at + 1] == (PacketInput::Silence { duration_ms: silence_ms })
        }),
{
    lemma_sound_of_sample(candidates, silence_ms, k, candidates.len());
    lemma_twice(references, silence_ms, references.len());
}

// ---------------------------------------------------------------------------
// Pieces
// ---------------------------------------------------------------------------

proof fn lemma_cuts(
    found: Seq<u64>,
    boundary: int,
    duration_ms: u64,
    chunk_ms: u64,
    minimum_tail_ms: u64,
)
    requires
        0 < chunk_ms,
        2 * minimum_tail_ms <= chunk_ms,
        minimum_tail_ms > 0,
        duration_ms > 0,
        found.len() > 0,
        boundary == found.len() * chunk_ms,
        boundary - chunk_ms < duration_ms,
        found.len() > 1 ==> duration_ms - (boundary - chunk_ms) >= minimum_tail_ms,
        forall|k: int| 0 <= k < found.len() ==> #[trigger] found[k] == k * chunk_ms,
    ensures
        ({
            let cuts = cuts_from(found, boundary, duration_ms, chunk_ms, minimum_tail_ms);
            let n = cuts.len();
            &&& n >= 2
            &&& forall|k: int| 0 <= k < n - 2 ==> #[trigger] cuts[k] == k * chunk_ms
            &&& cuts[n - 1] == duration_ms
            &&& n > 2 ==> cuts[n - 1] - cuts[n - 2] >= minimum_tail_ms
            &&& cuts[n - 2] == (n - 2) * chunk_ms || cuts[n - 1] - cuts[n - 2] == minimum_tail_ms
        }),
    decreases (if duration_ms > boundary { duration_ms - boundary } else { 0 }),
{
    let last = found.len() - 1;
    assert(found[last] == last * chunk_ms);
    assert(last * chunk_ms + chunk_ms == (last + 1) * chunk_ms) by (nonlinear_arith);
    if boundary >= duration_ms {
    } else if duration_ms - boundary < minimum_tail_ms {
        let moved = duration_ms - minimum_tail_ms;
        let cuts = cuts_from(found, boundary, duration_ms, chunk_ms, minimum_tail_ms);
        assert(moved > found.last());
    } else {
        let more = found.push(boundary as u64);
        assert(more.len() * chunk_ms == boundary + chunk_ms) by (nonlinear_arith)
            requires
                more.len() == found.len() + 1,
                boundary == found.len() * chunk_ms,
        ;
        assert forall|k: int| 0 <= k < more.len() implies #[trigger] more[k] == k * chunk_ms by {
            if k < found.len() {
                assert(found[k] == k * chunk_ms);
            }
        }
        lemma_cuts(more, boundary + chunk_ms, duration_ms, chunk_ms, minimum_tail_ms);
    }
}

/// A recording is cut every so many seconds, up to its last two pieces; the last
/// piece is not too short, for which the cut before it is moved where it has to
/// be.
pub proof fn lemma_cuts_are_regular(duration_ms: u64, chunk_ms: u64, minimum_tail_ms: u64)
    requires
        0 < minimum_tail_ms,
        2 * minimum_tail_ms <= chunk_ms,
        duration_ms > 0,
    ensures
        ({
            let cuts = planned_cuts(duration_ms, chunk_ms, minimum_tail_ms);
            let n = cuts.len();
            &&& n >= 2
            &&& forall|k: int| 0 <= k < n - 2 ==> #[trigger] cuts[k] == k * chunk_ms
            &&& cuts[n - 1] == duration_ms
            &&& n > 2 ==> cuts[n - 1] - cuts[n - 2] >= minimum_tail_ms
            &&& cuts[n - 2] == (n - 2) * chunk_ms || cuts[n - 1] - cuts[n - 2] == minimum_tail_ms
        }),
{
    let found = seq![0u64];
    assert(found[0] == 0 * chunk_ms);
    assert(found.len() * chunk_ms == chunk_ms) by (nonlinear_arith)
        requires
            found.len() == 1,
    ;
    assert forall|k: int| 0 <= k < found.len() implies #[trigger] found[k] == k * chunk_ms by {
        assert(k == 0);
    }
    lemma_cuts(found, chunk_ms as int, duration_ms, chunk_ms, minimum_tail_ms);
}

/// A piece stands between two cuts; before it is heard as much of what comes
/// before as is asked for, or all of it; and each piece starts where the one
/// before it ends.
pub proof fn lemma_pieces_follow(
    left: MediaChunk,
    right: MediaChunk,
    source: Seq<char>,
    cuts: Seq<u64>,
    index: int,
    overlap_ms: int,
)
    requires
        0 <= index,
        index + 2 < cuts.len(),
        0 <= overlap_ms,
        is_piece(left, source, cuts, index, overlap_ms),
        is_piece(right, source, cuts, index + 1, overlap_ms),
    ensures
        left.end_ms == right.start_ms,
        left.source_path@ == source && right.source_path@ == source,
        left.start_ms - left.audio_start_ms == overlap_ms || (left.audio_start_ms == 0
            && left.start_ms <= overlap_ms),
        right.start_ms - right.audio_start_ms == overlap_ms || (right.audio_start_ms == 0
            && right.start_ms <= overlap_ms),
{
}

/// The halves of a piece are as long as each other, but for a millisecond, and
/// together they are the piece.
pub proof fn lemma_halves_are_equal(
    left: MediaChunk,
    right: MediaChunk,
    chunk: MediaChunk,
    overlap_ms: u64,
)
    requires
        are_halves(left, right, chunk, overlap_ms),
        chunk.start_ms <= chunk.end_ms,
    ensures
        left.start_ms == chunk.start_ms,
        left.end_ms == right.start_ms,
        right.end_ms == chunk.end_ms,
        0 <= (right.end_ms - right.start_ms) - (left.end_ms - left.start_ms) <= 1,
        right.start_ms - right.audio_start_ms <= overlap_ms,
        left.start_ms - left.audio_start_ms <= overlap_ms,
{
}

// ---------------------------------------------------------------------------
// Silence
// ---------------------------------------------------------------------------

/// A moment between the beginning of a silence and its end is silent; so is one
/// before an end without a beginning, and one behind a beginning without an end.
pub proof fn lemma_silence(marks: Seq<SilenceMark>, duration: int, n: int, p: int)
    requires
        0 <= p < duration,
        0 <= n < marks.len(),
    ensures
        match marks[n] {
            SilenceMark::Start(start) => if n + 1 == marks.len() {
                start <= p ==> is_silent(marks, duration, p)
            } else {
                match marks[n + 1] {
                    SilenceMark::End(end) => start <= p < end ==> is_silent(marks, duration, p),
                    SilenceMark::Start(_) => true,
                }
            },
            SilenceMark::End(end) => n == 0 && p < end ==> is_silent(marks, duration, p),
        },
{
    if n + 1 <= marks.len() {
        let next = silent_by(marks, duration, n + 1, p);
        let own = silent_by(marks, duration, n, p);
    }
}

/// A moment is silent only between a beginning or the start of the sound and an
/// end or the end of the sound; without marks nothing is.
pub proof fn lemma_sound_is_not_silent(marks: Seq<SilenceMark>, duration: int, p: int)
    requires
        0 <= p < duration,
        is_silent(marks, duration, p),
    ensures
        exists|n: int|
            {
                &&& 0 <= n < marks.len()
                &&& match #[trigger] marks[n] {
                    SilenceMark::Start(start) => start <= p && n + 1 == marks.len(),
                    SilenceMark::End(end) => p < end && (n > 0 ==> match marks[n - 1] {
                        SilenceMark::Start(start) => start <= p,
                        SilenceMark::End(_) => true,
                    }),
                }
            },
{
    let n = choose|n: int| 0 <= n <= marks.len() && #[trigger] silent_by(marks, duration, n, p);
    if n < marks.len() {
        let mark = marks[n];
    } else {
        let mark = marks[n - 1];
    }
}

} // verus!
