//! Which turns are compared by their voice, and which replies are taken.
use vstd::prelude::*;
use crate::laws::numbers::{lemma_digits_below, ten_to};
use crate::media::NonSilentRange;
use crate::speaker::candidates::{
    activity_of, candidates_of, is_eligible, is_usable, lemma_candidates_bounded,
    lemma_longest_window, lemma_selected, lemma_window_heard, longest_window, samples_ms,
    selected_turns, shared_window, spaced_places, turn_window, usable_until, window_ms,
};
use crate::speaker::labels::{
    is_local_label, label_before, labels_of, lemma_decimal_first, lemma_digits_bytes, local_number,
};
use crate::speaker::local::{
    last_same, mostly_overlap, order_fault, orders_fault, reply_fault, says_same, turn_fault,
    turns_fault, RawLocalTranscript,
};
use crate::speaker::selection::lemma_selected_count;
use crate::speaker::{LocalSpeakerTurn, LocalTranscript};
use crate::text::{decimal, lemma_decimal_round_trip, trimmed};

verus! {

// ---------------------------------------------------------------------------
// Windows
// ---------------------------------------------------------------------------

/// A stretch of a turn in which there is sound without a break.
pub open spec fn sounds_through(transcript: LocalTranscript, i: int, from: int, to: int) -> bool {
    transcript.turns@[i].start_ms <= from < to <= transcript.turns@[i].end_ms && exists|a: int|
        0 <= a < activity_of(transcript).len() && (#[trigger] activity_of(transcript)[a]).start_ms
            <= from && to <= activity_of(transcript)[a].end_ms
}

proof fn lemma_no_longer(
    turn: LocalSpeakerTurn,
    activity: Seq<NonSilentRange>,
    n: nat,
    a: int,
    from: int,
    to: int,
)
    requires
        0 <= a < n <= activity.len(),
        turn.start_ms <= from < to <= turn.end_ms,
        activity[a].start_ms <= from,
        to <= activity[a].end_ms,
    ensures
        longest_window(turn, activity, n) is Some,
        window_ms(longest_window(turn, activity, n)) >= to - from,
        window_ms(longest_window(turn, activity, n)) == to - from ==> (longest_window(
            turn,
            activity,
            n,
        )->0).0 <= from,
    decreases n,
{
    if n > a + 1 {
        lemma_no_longer(turn, activity, (n - 1) as nat, a, from, to);
    } else {
        assert(shared_window(turn, activity[a]) is Some);
    }
}

/// The window of a turn is the longest stretch of it in which there is sound
/// without a break, and of several the first.
pub proof fn lemma_window_is_longest(transcript: LocalTranscript, i: int, from: int, to: int)
    requires
        0 <= i < transcript.turns@.len(),
    ensures
        match turn_window(transcript, i) {
            Some((start, end)) => sounds_through(transcript, i, start, end),
            None => true,
        },
        sounds_through(transcript, i, from, to) ==> turn_window(transcript, i) is Some && to - from
            <= (turn_window(transcript, i)->0).1 - (turn_window(transcript, i)->0).0,
        sounds_through(transcript, i, from, to) && to - from == (turn_window(transcript, i)->0).1 - (
        turn_window(transcript, i)->0).0 ==> (turn_window(transcript, i)->0).0 <= from,
{
    let turn = transcript.turns@[i];
    let activity = activity_of(transcript);
    lemma_longest_window(turn, activity, activity.len());
    lemma_window_heard(turn, activity, activity.len());
    if sounds_through(transcript, i, from, to) {
        let a = choose|a: int|
            0 <= a < activity_of(transcript).len() && (#[trigger] activity_of(
                transcript,
            )[a]).start_ms <= from && to <= activity_of(transcript)[a].end_ms;
        lemma_no_longer(turn, activity, activity.len(), a, from, to);
    }
}

/// A turn is compared only where no other shares a moment with it, and where it
/// has a second of sound without a break; and a voice is kept by it only where
/// it is clean and has two.
pub proof fn lemma_compared_turns(transcript: LocalTranscript, i: int)
    requires
        0 <= i < transcript.turns@.len(),
    ensures
        is_usable(transcript, i) <==> (forall|j: int|
            0 <= j < transcript.turns@.len() && j != i ==> (
            #[trigger] transcript.turns@[j]).start_ms >= transcript.turns@[i].end_ms
                || transcript.turns@[j].end_ms <= transcript.turns@[i].start_ms) && exists|
            from: int,
            to: int,
        | #[trigger] sounds_through(transcript, i, from, to) && to - from >= 1_000,
        is_eligible(transcript, i) <==> transcript.turns@[i].clean_reference && (forall|j: int|
            0 <= j < transcript.turns@.len() && j != i ==> (
            #[trigger] transcript.turns@[j]).start_ms >= transcript.turns@[i].end_ms
                || transcript.turns@[j].end_ms <= transcript.turns@[i].start_ms) && exists|
            from: int,
            to: int,
        | #[trigger] sounds_through(transcript, i, from, to) && to - from >= 2_000,
{
    lemma_window_is_longest(transcript, i, 0, 0);
    assert forall|from: int, to: int| #[trigger] sounds_through(
        transcript,
        i,
        from,
        to,
    ) implies turn_window(transcript, i) is Some && to - from <= window_ms(
        turn_window(transcript, i),
    ) by {
        lemma_window_is_longest(transcript, i, from, to);
    }
    if let Some((start, end)) = turn_window(transcript, i) {
        assert(sounds_through(transcript, i, start, end));
    }
}

proof fn lemma_usable_listed(transcript: LocalTranscript, n: nat, i: int)
    requires
        0 <= i < n <= transcript.turns@.len(),
        is_usable(transcript, i),
    ensures
        usable_until(transcript, n).contains(i),
    decreases n,
{
    let list = usable_until(transcript, n);
    if n == i + 1 {
        assert(list.last() == i);
    } else {
        lemma_usable_listed(transcript, (n - 1) as nat, i);
        let before = usable_until(transcript, (n - 1) as nat);
        let k = choose|k: int| 0 <= k < before.len() && before[k] == i;
        assert(list[k] == i);
    }
}

/// At most forty-eight turns are compared; where no more can be, all that can
/// be are.
pub proof fn lemma_all_are_compared(transcript: LocalTranscript, i: int)
    requires
        0 <= i < transcript.turns@.len(),
    ensures
        selected_turns(transcript).len() <= 48,
        selected_turns(transcript).contains(i) ==> is_usable(transcript, i),
        usable_until(transcript, transcript.turns@.len()).len() <= 48 && is_usable(transcript, i)
            ==> selected_turns(transcript).contains(i),
        usable_until(transcript, transcript.turns@.len()).len() > 48 ==> selected_turns(
            transcript,
        ).len() == 48,
{
    lemma_selected_count(transcript);
    lemma_selected(transcript);
    if is_usable(transcript, i) {
        lemma_usable_listed(transcript, transcript.turns@.len(), i);
    }
}

/// Every turn that is compared gives a sample from the middle of its window: it
/// leaves as much before it as behind it, to a millisecond, and takes the whole
/// window where that is no longer than a sample may be. A sample is one to ten
/// seconds long, and all together are at most two minutes.
pub proof fn lemma_samples(transcript: LocalTranscript, reference_ms: int, k: int)
    requires
        0 <= k < candidates_of(transcript, reference_ms).len(),
    ensures
        ({
            let candidates = candidates_of(transcript, reference_ms);
            let (i, start, end) = candidates[k];
            let window = turn_window(transcript, i)->0;
            let count = selected_turns(transcript).len() as int;
            &&& candidates.len() == count
            &&& i == selected_turns(transcript)[k]
            &&& turn_window(transcript, i) is Some
            &&& window.0 <= start < end <= window.1
            &&& 0 <= (window.1 - end) - (start - window.0) <= 1
            &&& 1_000 <= end - start <= 10_000
            &&& end - start <= reference_ms
            &&& (end - start) * count <= 120_000
            &&& window.1 - window.0 <= 10_000 && window.1 - window.0 <= reference_ms && (window.1
                - window.0) * count <= 120_000 ==> (start, end) == window
            &&& samples_ms(candidates, candidates.len()) <= 120_000
        }),
{
    let candidates = candidates_of(transcript, reference_ms);
    lemma_candidates_bounded(transcript, reference_ms);
    lemma_selected(transcript);
    let selected = selected_turns(transcript);
    let i = selected[k];
    assert(is_usable(transcript, i));
    lemma_window_is_longest(transcript, i, 0, 0);
    let count = selected.len() as int;
    let share = 120_000int / count;
    let length = candidates[k].2 - candidates[k].1;
    let window = turn_window(transcript, i)->0;
    assert(length <= share);
    assert(length * count <= 120_000) by (nonlinear_arith)
        requires
            length <= share,
            share == 120_000int / count,
            count > 0,
    ;
    let whole = window.1 - window.0;
    if whole * count <= 120_000 {
        assert(whole <= share) by (nonlinear_arith)
            requires
                whole * count <= 120_000,
                share == 120_000int / count,
                count > 0,
        ;
    }
}

/// Items that are taken evenly from a list begin with the first and end with
/// the last, stand in order, and none is taken twice.
pub proof fn lemma_spaced(length: int, count: int, k: int)
    requires
        2 <= count,
        2 <= length,
        0 <= k,
        k + 1 < spaced_places(length, count).len(),
    ensures
        spaced_places(length, count).len() == if count <= length {
            count
        } else {
            length
        },
        spaced_places(length, count)[0] == 0,
        spaced_places(length, count).last() == length - 1,
        spaced_places(length, count)[k] < spaced_places(length, count)[k + 1],
{
    if count < length {
        let last = count - 1;
        let top = length - 1;
        assert(0 * top / last == 0 && last * top / last == top && k * top / last < (k + 1) * top
            / last) by (nonlinear_arith)
            requires
                last >= 1,
                top >= last,
                k >= 0,
        ;
    }
}

// ---------------------------------------------------------------------------
// Labels
// ---------------------------------------------------------------------------

/// The label `L` with a number is one of those of a stretch of sound where the
/// number is one of those of the speakers; and no other letter makes one.
pub proof fn lemma_local_labels(number: nat, max_speakers: int)
    requires
        0 < number <= 99_999_999,
    ensures
        is_local_label("L"@ + decimal(number), max_speakers) <==> number <= max_speakers,
        !is_local_label("S"@ + decimal(number), max_speakers),
        is_local_label("UNKNOWN"@, max_speakers),
{
    let digits = decimal(number);
    reveal_strlit("L");
    reveal_strlit("S");
    reveal_strlit("UNKNOWN");
    assert("L"@ =~= seq!['L']);
    lemma_decimal_round_trip(number);
    lemma_decimal_first(number);
    assert(number < ten_to(8)) by {
        reveal_with_fuel(ten_to, 9);
    }
    lemma_digits_below(number, 8);
    lemma_digits_bytes(digits, 'L');
    let label = "L"@ + digits;
    assert(label.skip(1) =~= digits);
    assert(label[1] == digits[0]);
    assert(label[0] == 'L');
    assert(("S"@ + digits)[0] == 'S');
    assert("UNKNOWN"@[0] == 'U');
}

/// Labels stand in the order of their numbers, not of their letters.
pub proof fn lemma_labels_by_number(left: nat, right: nat)
    requires
        left <= u64::MAX,
        right <= u64::MAX,
        left != right,
    ensures
        label_before("L"@ + decimal(left), "L"@ + decimal(right)) <==> left < right,
{
    lemma_local_number(left);
    lemma_local_number(right);
}

proof fn lemma_local_number(number: nat)
    requires
        number <= u64::MAX,
    ensures
        local_number("L"@ + decimal(number)) == number,
{
    reveal_strlit("L");
    lemma_decimal_round_trip(number);
    let label = "L"@ + decimal(number);
    assert(label.skip(1) =~= decimal(number));
    assert(label[0] == 'L');
    assert('0' <= decimal(number)[0]);
}

// ---------------------------------------------------------------------------
// Replies
// ---------------------------------------------------------------------------

proof fn lemma_turn_checked(turns: Seq<LocalSpeakerTurn>, duration: int, max: int, n: int, k: int)
    requires
        0 <= n <= k < turns.len(),
        turns_fault(turns, duration, max, n) is None,
    ensures
        turn_fault(turns[k], duration, max) is None,
    decreases k - n,
{
    if n < k {
        lemma_turn_checked(turns, duration, max, n + 1, k);
    }
}

proof fn lemma_order_checked(turns: Seq<LocalSpeakerTurn>, n: int, k: int)
    requires
        0 <= n <= k < turns.len(),
        orders_fault(turns, n) is None,
    ensures
        order_fault(turns, k) is None,
    decreases k - n,
{
    if n < k {
        lemma_order_checked(turns, n + 1, k);
    }
}

/// A reply that is taken covers the whole stretch of sound, says whether there
/// is speech as its turns do, has at most ten thousand turns, each with words,
/// a label that may stand, and a time in the stretch; they start in order, and
/// no more speakers are named than there may be.
pub proof fn lemma_reply_taken(raw: RawLocalTranscript, duration: int, max_speakers: int, k: int)
    requires
        reply_fault(raw, duration, max_speakers) is None,
    ensures
        raw.target_complete,
        raw.processed_through_ms == duration,
        raw.turns@.len() <= 10_000,
        raw.audio_status@ == "speech"@ && raw.turns@.len() > 0 || raw.audio_status@ == "no_speech"@
            && raw.turns@.len() == 0,
        labels_of(raw.turns@).len() <= max_speakers,
        0 <= k < raw.turns@.len() ==> trimmed(raw.turns@[k].text@).len() > 0 && is_local_label(
            raw.turns@[k].local_speaker_id@,
            max_speakers,
        ) && raw.turns@[k].start_ms < raw.turns@[k].end_ms <= duration,
        0 < k < raw.turns@.len() ==> raw.turns@[k - 1].start_ms <= raw.turns@[k].start_ms,
{
    if 0 <= k < raw.turns@.len() {
        lemma_turn_checked(raw.turns@, duration, max_speakers, 0, k);
        lemma_order_checked(raw.turns@, 0, k);
    }
}

/// A turn that says what the turn before it says, with the same label and at
/// the same time, is not taken.
pub proof fn lemma_repeated_turn_is_refused(
    raw: RawLocalTranscript,
    duration: int,
    max_speakers: int,
    k: int,
)
    requires
        0 < k < raw.turns@.len(),
        raw.turns@[k].text@ == raw.turns@[k - 1].text@,
        raw.turns@[k].local_speaker_id@ == raw.turns@[k - 1].local_speaker_id@,
        raw.turns@[k].start_ms == raw.turns@[k - 1].start_ms,
        raw.turns@[k].end_ms == raw.turns@[k - 1].end_ms,
    ensures
        reply_fault(raw, duration, max_speakers) is Some,
{
    let turns = raw.turns@;
    if reply_fault(raw, duration, max_speakers) is None {
        lemma_turn_checked(turns, duration, max_speakers, 0, k);
        lemma_order_checked(turns, 0, k);
        assert(says_same(turns[k], turns[k - 1]));
        assert(last_same(turns, turns[k], k as nat) == Some(k - 1));
        assert(mostly_overlap(turns[k], turns[k - 1]));
    }
}

/// Two turns that follow one another are never too much alike: what they share
/// is nothing.
pub proof fn lemma_turns_apart_may_repeat(turn: LocalSpeakerTurn, other: LocalSpeakerTurn)
    requires
        other.start_ms < other.end_ms <= turn.start_ms,
        turn.start_ms < turn.end_ms,
    ensures
        !mostly_overlap(turn, other),
{
}

/// A turn shares too much with a longer one that began before it exactly where
/// that ends in or behind the last fifth of the turn.
pub proof fn lemma_four_fifths(turn: LocalSpeakerTurn, other: LocalSpeakerTurn)
    requires
        other.start_ms <= turn.start_ms < turn.end_ms,
        turn.start_ms < other.end_ms,
        turn.end_ms - turn.start_ms <= other.end_ms - other.start_ms,
        other.end_ms <= 100_000_000_000_000_000,
        turn.end_ms <= 100_000_000_000_000_000,
    ensures
        mostly_overlap(turn, other) <==> 5 * (other.end_ms - turn.start_ms) >= 4 * (turn.end_ms
            - turn.start_ms),
{
}

} // verus!
