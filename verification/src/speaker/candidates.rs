//! Which turns of a stretch of audio are compared by voice, and which part of
//! each is heard.
use vstd::prelude::*;
use crate::media::{
    NonSilentRange, MAX_IDENTITY_CANDIDATE_AUDIO_MS, MAX_IDENTITY_SAMPLE_MS,
    MAX_IDENTITY_TURN_CANDIDATES, MIN_IDENTITY_CANDIDATE_MS, MIN_IDENTITY_REFERENCE_MS,
};
use crate::media::storage::lesser;
use crate::speaker::labels::{label_list, labels_of};
use crate::speaker::{LocalSpeakerTurn, LocalTranscript};
use crate::text::{same_text, texts};

verus! {

// ---------------------------------------------------------------------------
// Where a turn is heard
// ---------------------------------------------------------------------------

/// Two turns share a moment.
pub open spec fn turns_overlap(turn: LocalSpeakerTurn, other: LocalSpeakerTurn) -> bool {
    other.start_ms < turn.end_ms && other.end_ms > turn.start_ms
}

/// No other turn shares a moment with the turn at an index.
pub open spec fn stands_alone(turns: Seq<LocalSpeakerTurn>, i: int) -> bool {
    forall|j: int|
        0 <= j < turns.len() && j != i ==> !turns_overlap(turns[i], #[trigger] turns[j])
}

pub fn turn_has_no_overlap(turns: &Vec<LocalSpeakerTurn>, i: usize) -> (result: bool)
    requires
        i < turns@.len(),
    ensures
        result == stands_alone(turns@, i as int),
{
    let mut j: usize = 0;
    while j < turns.len()
        invariant
            j <= turns@.len(),
            i < turns@.len(),
            forall|k: int|
                0 <= k < j && k != i ==> !turns_overlap(turns@[i as int], #[trigger] turns@[k]),
        decreases turns@.len() - j,
    {
        if j != i && turns[j].start_ms < turns[i].end_ms && turns[j].end_ms > turns[i].start_ms {
            assert(turns_overlap(turns@[i as int], turns@[j as int]));
            return false;
        }
        j += 1;
    }
    true
}

/// The part of a sound in a turn.
pub open spec fn shared_window(turn: LocalSpeakerTurn, range: NonSilentRange) -> Option<(int, int)> {
    let start = if range.start_ms >= turn.start_ms {
        range.start_ms
    } else {
        turn.start_ms
    };
    let end = lesser(range.end_ms as int, turn.end_ms as int);
    if end > start {
        Some((start as int, end))
    } else {
        None
    }
}

/// A window is longer than another, or as long and earlier.
pub open spec fn is_better_window(window: (int, int), other: Option<(int, int)>) -> bool {
    match other {
        None => true,
        Some(held) => window.1 - window.0 > held.1 - held.0 || (window.1 - window.0 == held.1
            - held.0 && window.0 < held.0),
    }
}

/// The longest part of a turn in which there is sound, the first of several,
/// over the first `n` parts of the sound.
pub open spec fn longest_window(
    turn: LocalSpeakerTurn,
    activity: Seq<NonSilentRange>,
    n: nat,
) -> Option<(int, int)>
    decreases n,
{
    if n == 0 {
        None
    } else {
        let held = longest_window(turn, activity, (n - 1) as nat);
        match shared_window(turn, activity[n - 1]) {
            Some(window) => if is_better_window(window, held) {
                Some(window)
            } else {
                held
            },
            None => held,
        }
    }
}

/// The parts of the sound, where they are known.
pub open spec fn activity_of(transcript: LocalTranscript) -> Seq<NonSilentRange> {
    match transcript.activity_ranges {
        Some(ranges) => ranges@,
        None => Seq::empty(),
    }
}

/// The window of a turn of a transcript.
pub open spec fn turn_window(transcript: LocalTranscript, i: int) -> Option<(int, int)> {
    longest_window(
        transcript.turns@[i],
        activity_of(transcript),
        activity_of(transcript).len(),
    )
}

pub open spec fn window_ms(window: Option<(int, int)>) -> int {
    match window {
        Some((start, end)) => end - start,
        None => 0,
    }
}

/// A window of a turn lies in the turn.
pub(crate) proof fn lemma_longest_window(turn: LocalSpeakerTurn, activity: Seq<NonSilentRange>, n: nat)
    ensures
        match longest_window(turn, activity, n) {
            Some((start, end)) => turn.start_ms <= start < end <= turn.end_ms,
            None => true,
        },
    decreases n,
{
    if n > 0 {
        lemma_longest_window(turn, activity, (n - 1) as nat);
    }
}

/// The window of a turn, and that it lies in the turn.
pub fn active_window_for_turn(transcript: &LocalTranscript, i: usize) -> (window: Option<
    (u64, u64),
>)
    requires
        i < transcript.turns@.len(),
    ensures
        match window {
            Some((start, end)) => turn_window(*transcript, i as int) == Some(
                (start as int, end as int),
            ) && transcript.turns@[i as int].start_ms <= start < end
                <= transcript.turns@[i as int].end_ms,
            None => turn_window(*transcript, i as int) is None,
        },
{
    let turn = &transcript.turns[i];
    let ghost activity = activity_of(*transcript);
    let mut best: Option<(u64, u64)> = None;
    if let Some(ranges) = &transcript.activity_ranges {
        let mut n: usize = 0;
        while n < ranges.len()
            invariant
                n <= ranges@.len(),
                activity == ranges@,
                match best {
                    Some((start, end)) => longest_window(*turn, activity, n as nat) == Some(
                        (start as int, end as int),
                    ),
                    None => longest_window(*turn, activity, n as nat) is None,
                },
            decreases ranges@.len() - n,
        {
            proof {
                lemma_longest_window(*turn, activity, n as nat);
            }
            let range = ranges[n];
            let start: u64 = if range.start_ms >= turn.start_ms {
                range.start_ms
            } else {
                turn.start_ms
            };
            let end: u64 = if range.end_ms <= turn.end_ms {
                range.end_ms
            } else {
                turn.end_ms
            };
            if end > start {
                assert(shared_window(*turn, activity[n as int]) == Some(
                    (start as int, end as int),
                ));
                let better = match best {
                    None => true,
                    Some((held_start, held_end)) => end - start > held_end - held_start || (end
                        - start == held_end - held_start && start < held_start),
                };
                if better {
                    best = Some((start, end));
                }
            }
            n += 1;
        }
    }
    proof {
        lemma_longest_window(*turn, activity, activity.len());
    }
    best
}

/// A turn whose voice can be compared: it stands alone and has a second of
/// sound without a break.
pub open spec fn is_usable(transcript: LocalTranscript, i: int) -> bool {
    stands_alone(transcript.turns@, i) && window_ms(turn_window(transcript, i))
        >= MIN_IDENTITY_CANDIDATE_MS
}

/// A turn by which a voice can be known later: it is clean, stands alone and
/// has two seconds of sound without a break.
pub open spec fn is_eligible(transcript: LocalTranscript, i: int) -> bool {
    transcript.turns@[i].clean_reference && stands_alone(transcript.turns@, i) && window_ms(
        turn_window(transcript, i),
    ) >= MIN_IDENTITY_REFERENCE_MS
}

fn has_window(transcript: &LocalTranscript, i: usize, least_ms: u64) -> (result: bool)
    requires
        i < transcript.turns@.len(),
        least_ms > 0,
    ensures
        result == (window_ms(turn_window(*transcript, i as int)) >= least_ms),
{
    match active_window_for_turn(transcript, i) {
        Some((start, end)) => end - start >= least_ms,
        None => false,
    }
}

pub fn turn_is_candidate(transcript: &LocalTranscript, i: usize) -> (result: bool)
    requires
        i < transcript.turns@.len(),
    ensures
        result == is_usable(*transcript, i as int),
{
    has_window(transcript, i, MIN_IDENTITY_CANDIDATE_MS) && turn_has_no_overlap(
        &transcript.turns,
        i,
    )
}

pub fn turn_is_reference_eligible(transcript: &LocalTranscript, i: usize) -> (result: bool)
    requires
        i < transcript.turns@.len(),
    ensures
        result == is_eligible(*transcript, i as int),
{
    transcript.turns[i].clean_reference && has_window(transcript, i, MIN_IDENTITY_REFERENCE_MS)
        && turn_has_no_overlap(&transcript.turns, i)
}

// ---------------------------------------------------------------------------
// Groups
// ---------------------------------------------------------------------------

/// The usable turns among the first `n`.
pub open spec fn usable_until(transcript: LocalTranscript, n: nat) -> Seq<int>
    decreases n,
{
    if n == 0 {
        Seq::empty()
    } else if is_usable(transcript, n - 1) {
        usable_until(transcript, (n - 1) as nat).push(n - 1)
    } else {
        usable_until(transcript, (n - 1) as nat)
    }
}

/// The usable turns with a label among the first `n`.
pub open spec fn group_until(transcript: LocalTranscript, label: Seq<char>, n: nat) -> Seq<int>
    decreases n,
{
    if n == 0 {
        Seq::empty()
    } else if is_usable(transcript, n - 1) && transcript.turns@[n - 1].local_speaker_id@ == label {
        group_until(transcript, label, (n - 1) as nat).push(n - 1)
    } else {
        group_until(transcript, label, (n - 1) as nat)
    }
}

pub open spec fn group_of(transcript: LocalTranscript, label: Seq<char>) -> Seq<int> {
    group_until(transcript, label, transcript.turns@.len())
}

/// The groups of the first `n` labels that have a usable turn.
pub open spec fn label_groups(
    transcript: LocalTranscript,
    labels: Seq<Seq<char>>,
    n: nat,
) -> Seq<Seq<int>>
    decreases n,
{
    if n == 0 {
        Seq::empty()
    } else {
        let before = label_groups(transcript, labels, (n - 1) as nat);
        let group = group_of(transcript, labels[n - 1]);
        if group.len() > 0 {
            before.push(group)
        } else {
            before
        }
    }
}

/// A group for each usable turn without a label among the first `n`.
pub open spec fn lone_groups(transcript: LocalTranscript, n: nat) -> Seq<Seq<int>>
    decreases n,
{
    if n == 0 {
        Seq::empty()
    } else {
        let before = lone_groups(transcript, (n - 1) as nat);
        if is_usable(transcript, n - 1) && transcript.turns@[n - 1].local_speaker_id@
            == "UNKNOWN"@ {
            before.push(seq![n - 1])
        } else {
            before
        }
    }
}

/// The groups of usable turns: one for each label, then one for each turn
/// without a label.
pub open spec fn groups_of(transcript: LocalTranscript) -> Seq<Seq<int>> {
    label_groups(transcript, labels_of(transcript.turns@), labels_of(transcript.turns@).len())
        + lone_groups(transcript, transcript.turns@.len())
}

/// Indices as numbers.
pub open spec fn numbers(indices: Seq<usize>) -> Seq<int> {
    indices.map_values(|i: usize| i as int)
}

/// Groups as numbers.
pub open spec fn number_groups(groups: Seq<Vec<usize>>) -> Seq<Seq<int>> {
    groups.map_values(|group: Vec<usize>| numbers(group@))
}

/// All members of a list are indices of turns.
pub open spec fn are_indices(list: Seq<int>, count: int) -> bool {
    forall|k: int| 0 <= k < list.len() ==> 0 <= #[trigger] list[k] < count
}

/// Groups that hold indices of turns, and none is empty.
pub open spec fn are_groups(groups: Seq<Seq<int>>, count: int) -> bool {
    forall|g: int|
        0 <= g < groups.len() ==> (#[trigger] groups[g]).len() > 0 && are_indices(groups[g], count)
}

fn push_index(list: &mut Vec<usize>, i: usize)
    ensures
        numbers(final(list)@) == numbers(old(list)@).push(i as int),
{
    let ghost before = numbers(list@);
    list.push(i);
    assert(numbers(list@) =~= before.push(i as int));
}

fn push_group(groups: &mut Vec<Vec<usize>>, group: Vec<usize>)
    ensures
        number_groups(final(groups)@) == number_groups(old(groups)@).push(numbers(group@)),
{
    let ghost before = number_groups(groups@);
    groups.push(group);
    assert(number_groups(groups@) =~= before.push(numbers(group@)));
}

/// The usable turns.
fn usable_turns(transcript: &LocalTranscript) -> (usable: Vec<usize>)
    ensures
        numbers(usable@) == usable_until(*transcript, transcript.turns@.len()),
        are_indices(numbers(usable@), transcript.turns@.len() as int),
{
    let mut usable: Vec<usize> = Vec::new();
    assert(numbers(usable@) =~= Seq::empty());
    let mut n: usize = 0;
    while n < transcript.turns.len()
        invariant
            n <= transcript.turns@.len(),
            numbers(usable@) == usable_until(*transcript, n as nat),
            are_indices(numbers(usable@), transcript.turns@.len() as int),
        decreases transcript.turns@.len() - n,
    {
        if turn_is_candidate(transcript, n) {
            push_index(&mut usable, n);
        }
        n += 1;
    }
    usable
}

fn label_group(transcript: &LocalTranscript, label: &str) -> (group: Vec<usize>)
    ensures
        numbers(group@) == group_of(*transcript, label@),
        are_indices(numbers(group@), transcript.turns@.len() as int),
{
    let mut group: Vec<usize> = Vec::new();
    assert(numbers(group@) =~= Seq::empty());
    let mut n: usize = 0;
    while n < transcript.turns.len()
        invariant
            n <= transcript.turns@.len(),
            numbers(group@) == group_until(*transcript, label@, n as nat),
            are_indices(numbers(group@), transcript.turns@.len() as int),
        decreases transcript.turns@.len() - n,
    {
        if same_text(transcript.turns[n].local_speaker_id.as_str(), label) && turn_is_candidate(
            transcript,
            n,
        ) {
            push_index(&mut group, n);
        }
        n += 1;
    }
    group
}

fn turn_groups(transcript: &LocalTranscript) -> (groups: Vec<Vec<usize>>)
    ensures
        number_groups(groups@) == groups_of(*transcript),
        are_groups(number_groups(groups@), transcript.turns@.len() as int),
{
    let labels = label_list(&transcript.turns);
    let ghost names = labels_of(transcript.turns@);
    let ghost count = transcript.turns@.len() as int;
    let mut groups: Vec<Vec<usize>> = Vec::new();
    assert(number_groups(groups@) =~= Seq::empty());
    let mut n: usize = 0;
    while n < labels.len()
        invariant
            n <= labels@.len(),
            texts(labels@) == names,
            count == transcript.turns@.len(),
            number_groups(groups@) == label_groups(*transcript, names, n as nat),
            are_groups(number_groups(groups@), count),
        decreases labels@.len() - n,
    {
        assert(names[n as int] == labels@[n as int]@);
        let group = label_group(transcript, labels[n].as_str());
        assert(numbers(group@).len() == group@.len());
        if group.len() > 0 {
            push_group(&mut groups, group);
        }
        n += 1;
    }
    let ghost first = number_groups(groups@);
    assert(first + lone_groups(*transcript, 0) =~= first);
    let mut i: usize = 0;
    while i < transcript.turns.len()
        invariant
            i <= transcript.turns@.len(),
            count == transcript.turns@.len(),
            number_groups(groups@) == first + lone_groups(*transcript, i as nat),
            are_groups(number_groups(groups@), count),
        decreases transcript.turns@.len() - i,
    {
        if same_text(transcript.turns[i].local_speaker_id.as_str(), "UNKNOWN")
            && turn_is_candidate(transcript, i) {
            let mut group: Vec<usize> = Vec::new();
            assert(numbers(group@) =~= Seq::empty());
            push_index(&mut group, i);
            assert(numbers(group@) =~= seq![i as int]);
            let ghost before = number_groups(groups@);
            push_group(&mut groups, group);
            assert(number_groups(groups@) =~= first + lone_groups(*transcript, (i + 1) as nat));
        }
        i += 1;
    }
    groups
}

// ---------------------------------------------------------------------------
// Slots
// ---------------------------------------------------------------------------

/// A group has a turn by which its voice can be known later.
pub open spec fn has_anchor(transcript: LocalTranscript, group: Seq<int>) -> bool {
    exists|k: int| 0 <= k < group.len() && is_eligible(transcript, #[trigger] group[k])
}

/// The order of groups: those with an anchor first, then by their first turn.
pub open spec fn group_before(
    transcript: LocalTranscript,
    left: Seq<int>,
    right: Seq<int>,
) -> bool {
    if has_anchor(transcript, left) == has_anchor(transcript, right) {
        left[0] < right[0]
    } else {
        has_anchor(transcript, left)
    }
}

/// How many of the first `n` groups come before a group.
pub open spec fn groups_before(
    transcript: LocalTranscript,
    groups: Seq<Seq<int>>,
    g: int,
    n: nat,
) -> nat
    decreases n,
{
    if n == 0 {
        0
    } else {
        groups_before(transcript, groups, g, (n - 1) as nat) + if group_before(
            transcript,
            groups[n - 1],
            groups[g],
        ) {
            1nat
        } else {
            0
        }
    }
}

/// The slots at first: one for each of the first groups in order, as many as
/// there are slots.
pub open spec fn first_slots(transcript: LocalTranscript, groups: Seq<Seq<int>>) -> Seq<int> {
    Seq::new(
        groups.len(),
        |g: int|
            if groups_before(transcript, groups, g, groups.len())
                < MAX_IDENTITY_TURN_CANDIDATES {
                1int
            } else {
                0
            },
    )
}

/// The sum of the first `n` numbers.
pub open spec fn sum_until(list: Seq<int>, n: nat) -> int
    decreases n,
{
    if n == 0 {
        0
    } else {
        sum_until(list, (n - 1) as nat) + list[n - 1]
    }
}

/// The group that gets the next slot among the first `n`: of those with a slot
/// and turns left, the one with the most turns left, the first of several.
pub open spec fn hungriest(groups: Seq<Seq<int>>, slots: Seq<int>, n: nat) -> Option<int>
    decreases n,
{
    if n == 0 {
        None
    } else {
        let held = hungriest(groups, slots, (n - 1) as nat);
        let g = n - 1;
        if 0 < slots[g] < groups[g].len() && (held is None || groups[g].len() - slots[g]
            > groups[held->0].len() - slots[held->0]) {
            Some(g)
        } else {
            held
        }
    }
}

/// The slots after so many more have been given out, one after the other.
pub open spec fn filled_slots(groups: Seq<Seq<int>>, slots: Seq<int>, left: nat) -> Seq<int>
    decreases left,
{
    if left == 0 {
        slots
    } else {
        match hungriest(groups, slots, groups.len()) {
            Some(g) => filled_slots(groups, slots.update(g, slots[g] + 1), (left - 1) as nat),
            None => slots,
        }
    }
}

/// The slots of the groups.
pub open spec fn slots_of(transcript: LocalTranscript, groups: Seq<Seq<int>>) -> Seq<int> {
    let first = first_slots(transcript, groups);
    let used = sum_until(first, first.len());
    filled_slots(
        groups,
        first,
        if used < MAX_IDENTITY_TURN_CANDIDATES {
            (MAX_IDENTITY_TURN_CANDIDATES - used) as nat
        } else {
            0
        },
    )
}

fn group_has_anchor(transcript: &LocalTranscript, group: &Vec<usize>) -> (result: bool)
    requires
        are_indices(numbers(group@), transcript.turns@.len() as int),
    ensures
        result == has_anchor(*transcript, numbers(group@)),
{
    let ghost list = numbers(group@);
    let mut k: usize = 0;
    while k < group.len()
        invariant
            k <= group@.len(),
            list == numbers(group@),
            are_indices(list, transcript.turns@.len() as int),
            forall|j: int| 0 <= j < k ==> !is_eligible(*transcript, #[trigger] list[j]),
        decreases group@.len() - k,
    {
        assert(list[k as int] == group@[k as int]);
        if turn_is_reference_eligible(transcript, group[k]) {
            assert(is_eligible(*transcript, list[k as int]));
            return true;
        }
        k += 1;
    }
    false
}

fn anchors_of(transcript: &LocalTranscript, groups: &Vec<Vec<usize>>) -> (anchors: Vec<bool>)
    requires
        are_groups(number_groups(groups@), transcript.turns@.len() as int),
    ensures
        anchors@.len() == groups@.len(),
        forall|g: int|
            0 <= g < groups@.len() ==> #[trigger] anchors@[g] == has_anchor(
                *transcript,
                number_groups(groups@)[g],
            ),
{
    let ghost lists = number_groups(groups@);
    let mut anchors: Vec<bool> = Vec::new();
    let mut g: usize = 0;
    while g < groups.len()
        invariant
            g <= groups@.len(),
            lists == number_groups(groups@),
            are_groups(lists, transcript.turns@.len() as int),
            anchors@.len() == g,
            forall|h: int| 0 <= h < g ==> #[trigger] anchors@[h] == has_anchor(*transcript, lists[h]),
        decreases groups@.len() - g,
    {
        assert(lists[g as int] == numbers(groups@[g as int]@));
        anchors.push(group_has_anchor(transcript, &groups[g]));
        g += 1;
    }
    anchors
}

fn count_before(
    transcript: &LocalTranscript,
    groups: &Vec<Vec<usize>>,
    anchors: &Vec<bool>,
    g: usize,
) -> (count: usize)
    requires
        g < groups@.len(),
        are_groups(number_groups(groups@), transcript.turns@.len() as int),
        anchors@.len() == groups@.len(),
        forall|h: int|
            0 <= h < groups@.len() ==> #[trigger] anchors@[h] == has_anchor(
                *transcript,
                number_groups(groups@)[h],
            ),
    ensures
        count == groups_before(*transcript, number_groups(groups@), g as int, groups@.len()),
{
    let ghost lists = number_groups(groups@);
    let mut count: usize = 0;
    let mut n: usize = 0;
    while n < groups.len()
        invariant
            n <= groups@.len(),
            g < groups@.len(),
            lists == number_groups(groups@),
            are_groups(lists, transcript.turns@.len() as int),
            anchors@.len() == groups@.len(),
            forall|h: int|
                0 <= h < groups@.len() ==> #[trigger] anchors@[h] == has_anchor(
                    *transcript,
                    lists[h],
                ),
            count == groups_before(*transcript, lists, g as int, n as nat),
            count <= n,
        decreases groups@.len() - n,
    {
        assert(lists[n as int] == numbers(groups@[n as int]@));
        assert(lists[g as int] == numbers(groups@[g as int]@));
        assert(lists[n as int].len() > 0 && lists[g as int].len() > 0);
        assert(anchors@[n as int] == has_anchor(*transcript, lists[n as int]));
        assert(anchors@[g as int] == has_anchor(*transcript, lists[g as int]));
        let first: usize = groups[n][0];
        let own: usize = groups[g][0];
        assert(lists[n as int][0] == first);
        assert(lists[g as int][0] == own);
        let before = if anchors[n] == anchors[g] {
            first < own
        } else {
            anchors[n]
        };
        if before {
            count += 1;
        }
        n += 1;
    }
    count
}

pub(crate) proof fn lemma_sum_update(list: Seq<int>, at: int, value: int, n: nat)
    requires
        0 <= at < list.len(),
        n <= list.len(),
    ensures
        sum_until(list.update(at, value), n) == sum_until(list, n) + if at < n {
            value - list[at]
        } else {
            0
        },
    decreases n,
{
    if n > 0 {
        lemma_sum_update(list, at, value, (n - 1) as nat);
    }
}

pub(crate) proof fn lemma_hungriest(groups: Seq<Seq<int>>, slots: Seq<int>, n: nat)
    requires
        n <= groups.len(),
    ensures
        match hungriest(groups, slots, n) {
            Some(g) => 0 <= g < n && 0 < slots[g] < groups[g].len(),
            None => true,
        },
    decreases n,
{
    if n > 0 {
        lemma_hungriest(groups, slots, (n - 1) as nat);
    }
}

fn find_hungriest(groups: &Vec<Vec<usize>>, slots: &Vec<usize>) -> (group: Option<usize>)
    requires
        slots@.len() == groups@.len(),
    ensures
        match group {
            Some(g) => hungriest(
                number_groups(groups@),
                numbers(slots@),
                groups@.len(),
            ) == Some(g as int) && g < groups@.len() && 0 < slots@[g as int]
                < groups@[g as int]@.len() && slots@[g as int] < usize::MAX,
            None => hungriest(number_groups(groups@), numbers(slots@), groups@.len()) is None,
        },
{
    let ghost lists = number_groups(groups@);
    let ghost counts = numbers(slots@);
    let mut held: Option<usize> = None;
    let mut n: usize = 0;
    while n < groups.len()
        invariant
            n <= groups@.len(),
            slots@.len() == groups@.len(),
            lists == number_groups(groups@),
            counts == numbers(slots@),
            match held {
                Some(g) => hungriest(lists, counts, n as nat) == Some(g as int) && g < n && 0
                    < slots@[g as int] < groups@[g as int]@.len() && slots@[g as int]
                    < usize::MAX,
                None => hungriest(lists, counts, n as nat) is None,
            },
        decreases groups@.len() - n,
    {
        assert(lists[n as int].len() == groups@[n as int]@.len());
        assert(counts[n as int] == slots@[n as int]);
        if slots[n] > 0 && slots[n] < groups[n].len() {
            match held {
                None => {
                    held = Some(n);
                },
                Some(g) => {
                    assert(lists[g as int].len() == groups@[g as int]@.len());
                    assert(counts[g as int] == slots@[g as int]);
                    if groups[n].len() - slots[n] > groups[g].len() - slots[g] {
                        held = Some(n);
                    }
                },
            }
        }
        n += 1;
    }
    held
}

/// Slots in their bounds: no group has more than it has turns.
pub open spec fn slots_fit(groups: Seq<Seq<int>>, slots: Seq<int>) -> bool {
    slots.len() == groups.len() && forall|g: int|
        0 <= g < groups.len() ==> 0 <= #[trigger] slots[g] <= groups[g].len()
}

fn give_slots(transcript: &LocalTranscript, groups: &Vec<Vec<usize>>) -> (slots: Vec<usize>)
    requires
        are_groups(number_groups(groups@), transcript.turns@.len() as int),
    ensures
        numbers(slots@) == slots_of(*transcript, number_groups(groups@)),
        slots_fit(number_groups(groups@), numbers(slots@)),
{
    let ghost lists = number_groups(groups@);
    let ghost first = first_slots(*transcript, lists);
    let anchors = anchors_of(transcript, groups);
    let mut slots: Vec<usize> = Vec::new();
    let mut used: usize = 0;
    let mut n: usize = 0;
    while n < groups.len()
        invariant
            n <= groups@.len(),
            lists == number_groups(groups@),
            are_groups(lists, transcript.turns@.len() as int),
            first == first_slots(*transcript, lists),
            anchors@.len() == groups@.len(),
            forall|h: int|
                0 <= h < groups@.len() ==> #[trigger] anchors@[h] == has_anchor(
                    *transcript,
                    lists[h],
                ),
            slots@.len() == n,
            forall|h: int| 0 <= h < n ==> #[trigger] slots@[h] == first[h],
            forall|h: int| 0 <= h < n ==> #[trigger] slots@[h] <= 1,
            used == sum_until(first, n as nat),
            used <= n,
        decreases groups@.len() - n,
    {
        let rank: usize = count_before(transcript, groups, &anchors, n);
        let slot: usize = if rank < MAX_IDENTITY_TURN_CANDIDATES {
            1
        } else {
            0
        };
        slots.push(slot);
        used += slot;
        n += 1;
    }
    assert(numbers(slots@) =~= first);
    assert(slots_fit(lists, numbers(slots@))) by {
        assert forall|g: int| 0 <= g < lists.len() implies 0 <= #[trigger] numbers(slots@)[g]
            <= lists[g].len() by {
            assert(lists[g].len() > 0);
            assert(slots@[g] <= 1);
        }
    }
    let mut left: usize = if used < MAX_IDENTITY_TURN_CANDIDATES {
        MAX_IDENTITY_TURN_CANDIDATES - used
    } else {
        0
    };
    let ghost target = slots_of(*transcript, lists);
    assert(target == filled_slots(lists, first, left as nat));
    while left > 0
        invariant
            lists == number_groups(groups@),
            slots@.len() == groups@.len(),
            slots_fit(lists, numbers(slots@)),
            target == slots_of(*transcript, lists),
            target == filled_slots(lists, numbers(slots@), left as nat),
        decreases left,
    {
        match find_hungriest(groups, &slots) {
            Some(g) => {
                let ghost before = numbers(slots@);
                let next: usize = slots[g] + 1;
                slots.set(g, next);
                assert(lists[g as int].len() == groups@[g as int]@.len());
                assert(numbers(slots@) =~= before.update(g as int, before[g as int] + 1));
                assert(slots_fit(lists, numbers(slots@))) by {
                    assert forall|h: int| 0 <= h < lists.len() implies 0 <= #[trigger] numbers(
                        slots@,
                    )[h] <= lists[h].len() by {
                        assert(before[h] <= lists[h].len());
                    }
                }
                left -= 1;
            },
            None => {
                assert(target == numbers(slots@));
                return slots;
            },
        }
    }
    slots
}

// ---------------------------------------------------------------------------
// Places
// ---------------------------------------------------------------------------

/// The place of the `k`th of `count` items that are taken evenly from a list.
pub open spec fn spaced_place(length: int, count: int, k: int) -> int {
    if count >= length {
        k
    } else if count == 1 {
        length / 2
    } else {
        k * (length - 1) / (count - 1)
    }
}

/// The places of items that are taken evenly from a list.
pub open spec fn spaced_places(length: int, count: int) -> Seq<int> {
    if length <= 0 || count <= 0 {
        Seq::empty()
    } else {
        Seq::new(lesser(length, count) as nat, |k: int| spaced_place(length, count, k))
    }
}

pub(crate) proof fn lemma_spaced_place(length: int, count: int, k: int)
    requires
        0 < count,
        0 <= k < lesser(length, count),
    ensures
        0 <= spaced_place(length, count, k) < length,
{
    if count < length && count > 1 {
        assert(0 <= k * (length - 1) <= (count - 1) * (length - 1)) by (nonlinear_arith)
            requires
                0 <= k <= count - 1,
                length >= 1,
        ;
        vstd::arithmetic::div_mod::lemma_div_pos_is_pos(k * (length - 1), count - 1);
        vstd::arithmetic::div_mod::lemma_div_is_ordered(
            k * (length - 1),
            (count - 1) * (length - 1),
            count - 1,
        );
        vstd::arithmetic::div_mod::lemma_div_multiples_vanish(length - 1, count - 1);
    }
}

pub fn evenly_spaced_positions(length: usize, count: usize) -> (places: Vec<usize>)
    ensures
        numbers(places@) == spaced_places(length as int, count as int),
        are_indices(numbers(places@), length as int),
{
    let mut places: Vec<usize> = Vec::new();
    assert(numbers(places@) =~= Seq::empty());
    if length == 0 || count == 0 {
        return places;
    }
    let total: usize = if length <= count {
        length
    } else {
        count
    };
    let mut k: usize = 0;
    while k < total
        invariant
            k <= total,
            total == lesser(length as int, count as int),
            0 < length,
            0 < count,
            places@.len() == k,
            forall|j: int|
                0 <= j < k ==> #[trigger] places@[j] == spaced_place(
                    length as int,
                    count as int,
                    j,
                ) && places@[j] < length,
        decreases total - k,
    {
        proof {
            lemma_spaced_place(length as int, count as int, k as int);
        }
        let place: usize = if count >= length {
            k
        } else if count == 1 {
            length / 2
        } else {
            assert(k * (length - 1) <= u64::MAX * u64::MAX) by (nonlinear_arith)
                requires
                    0 <= k <= u64::MAX,
                    0 <= length - 1 <= u64::MAX,
            ;
            (k as u128 * (length - 1) as u128 / (count - 1) as u128) as usize
        };
        places.push(place);
        k += 1;
    }
    assert(numbers(places@) =~= spaced_places(length as int, count as int));
    places
}

// ---------------------------------------------------------------------------
// Selection
// ---------------------------------------------------------------------------

/// The turns of the first `n` groups for which there are slots.
pub open spec fn picked_until(groups: Seq<Seq<int>>, slots: Seq<int>, n: nat) -> Seq<int>
    decreases n,
{
    if n == 0 {
        Seq::empty()
    } else {
        let group = groups[n - 1];
        picked_until(groups, slots, (n - 1) as nat) + spaced_places(
            group.len() as int,
            slots[n - 1],
        ).map_values(|place: int| group[place])
    }
}

/// The first member of a list that can be an anchor, from a place on.
pub open spec fn first_anchor(transcript: LocalTranscript, group: Seq<int>, from: int) -> Option<int>
    decreases group.len() - from,
{
    if from < 0 || from >= group.len() {
        None
    } else if is_eligible(transcript, group[from]) {
        Some(group[from])
    } else {
        first_anchor(transcript, group, from + 1)
    }
}

/// The first place, from a place on, where a list holds a member of a group.
pub open spec fn first_member(list: Seq<int>, group: Seq<int>, from: int) -> Option<int>
    decreases list.len() - from,
{
    if from < 0 || from >= list.len() {
        None
    } else if group.contains(list[from]) {
        Some(from)
    } else {
        first_member(list, group, from + 1)
    }
}

/// A list holds an anchor of a group.
pub open spec fn holds_anchor(
    transcript: LocalTranscript,
    list: Seq<int>,
    group: Seq<int>,
) -> bool {
    exists|k: int|
        0 <= k < list.len() && group.contains(#[trigger] list[k]) && is_eligible(
            transcript,
            list[k],
        )
}

/// A list in which a group that has an anchor has one: where none was picked,
/// the first anchor stands in place of the first turn of the group.
pub open spec fn with_anchor(
    transcript: LocalTranscript,
    list: Seq<int>,
    group: Seq<int>,
) -> Seq<int> {
    match first_anchor(transcript, group, 0) {
        None => list,
        Some(anchor) => if holds_anchor(transcript, list, group) {
            list
        } else {
            match first_member(list, group, 0) {
                None => list,
                Some(at) => list.update(at, anchor),
            }
        },
    }
}

pub open spec fn anchored_until(
    transcript: LocalTranscript,
    list: Seq<int>,
    groups: Seq<Seq<int>>,
    n: nat,
) -> Seq<int>
    decreases n,
{
    if n == 0 {
        list
    } else {
        with_anchor(
            transcript,
            anchored_until(transcript, list, groups, (n - 1) as nat),
            groups[n - 1],
        )
    }
}

/// The numbers below `n` that a list holds, in order.
pub open spec fn held_until(list: Seq<int>, n: nat) -> Seq<int>
    decreases n,
{
    if n == 0 {
        Seq::empty()
    } else if list.contains(n - 1) {
        held_until(list, (n - 1) as nat).push(n - 1)
    } else {
        held_until(list, (n - 1) as nat)
    }
}

/// The turns that are compared, in order: all that are usable, or as many as
/// there are slots, spread over the groups.
pub open spec fn selected_turns(transcript: LocalTranscript) -> Seq<int> {
    let count = transcript.turns@.len();
    let usable = usable_until(transcript, count);
    if usable.len() <= MAX_IDENTITY_TURN_CANDIDATES {
        usable
    } else {
        let groups = groups_of(transcript);
        let picked = picked_until(groups, slots_of(transcript, groups), groups.len());
        held_until(anchored_until(transcript, picked, groups, groups.len()), count)
    }
}

fn pick_turns(groups: &Vec<Vec<usize>>, slots: &Vec<usize>, Ghost(count): Ghost<int>) -> (picked:
    Vec<usize>)
    requires
        are_groups(number_groups(groups@), count),
        slots@.len() == groups@.len(),
    ensures
        numbers(picked@) == picked_until(number_groups(groups@), numbers(slots@), groups@.len()),
        are_indices(numbers(picked@), count),
{
    let ghost lists = number_groups(groups@);
    let ghost counts = numbers(slots@);
    let mut picked: Vec<usize> = Vec::new();
    assert(numbers(picked@) =~= Seq::empty());
    let mut n: usize = 0;
    while n < groups.len()
        invariant
            n <= groups@.len(),
            slots@.len() == groups@.len(),
            lists == number_groups(groups@),
            counts == numbers(slots@),
            are_groups(lists, count),
            numbers(picked@) == picked_until(lists, counts, n as nat),
            are_indices(numbers(picked@), count),
        decreases groups@.len() - n,
    {
        let ghost group = lists[n as int];
        let ghost before = numbers(picked@);
        assert(group == numbers(groups@[n as int]@));
        assert(counts[n as int] == slots@[n as int]);
        let places = evenly_spaced_positions(groups[n].len(), slots[n]);
        let ghost spaced = numbers(places@);
        let ghost taken = spaced.map_values(|place: int| group[place]);
        let mut k: usize = 0;
        assert(before + taken.take(0) =~= before);
        while k < places.len()
            invariant
                k <= places@.len(),
                n < groups@.len(),
                spaced == numbers(places@),
                group == numbers(groups@[n as int]@),
                are_indices(group, count),
                are_indices(spaced, group.len() as int),
                taken == spaced.map_values(|place: int| group[place]),
                numbers(picked@) == before + taken.take(k as int),
                are_indices(numbers(picked@), count),
            decreases places@.len() - k,
        {
            assert(0 <= spaced[k as int] < group.len());
            assert(spaced[k as int] == places@[k as int]);
            let place: usize = places[k];
            assert(group[place as int] == groups@[n as int]@[place as int]);
            assert(0 <= group[place as int] < count);
            assert(taken[k as int] == group[place as int]);
            push_index(&mut picked, groups[n][place]);
            assert(numbers(picked@) =~= before + taken.take(k + 1));
            k += 1;
        }
        assert(taken.take(k as int) =~= taken);
        n += 1;
    }
    picked
}

fn index_in(list: &Vec<usize>, i: usize) -> (result: bool)
    ensures
        result == numbers(list@).contains(i as int),
{
    let ghost all = numbers(list@);
    let mut k: usize = 0;
    while k < list.len()
        invariant
            k <= list@.len(),
            all == numbers(list@),
            forall|j: int| 0 <= j < k ==> #[trigger] all[j] != i,
        decreases list@.len() - k,
    {
        assert(all[k as int] == list@[k as int]);
        if list[k] == i {
            assert(all[k as int] == i);
            return true;
        }
        k += 1;
    }
    false
}

fn find_anchor(transcript: &LocalTranscript, group: &Vec<usize>) -> (anchor: Option<usize>)
    requires
        are_indices(numbers(group@), transcript.turns@.len() as int),
    ensures
        match anchor {
            Some(i) => first_anchor(*transcript, numbers(group@), 0) == Some(i as int) && i
                < transcript.turns@.len(),
            None => first_anchor(*transcript, numbers(group@), 0) is None,
        },
{
    let ghost list = numbers(group@);
    let mut k: usize = 0;
    while k < group.len()
        invariant
            k <= group@.len(),
            list == numbers(group@),
            are_indices(list, transcript.turns@.len() as int),
            first_anchor(*transcript, list, k as int) == first_anchor(*transcript, list, 0),
        decreases group@.len() - k,
    {
        assert(list[k as int] == group@[k as int]);
        if turn_is_reference_eligible(transcript, group[k]) {
            return Some(group[k]);
        }
        k += 1;
    }
    None
}

fn list_holds_anchor(transcript: &LocalTranscript, list: &Vec<usize>, group: &Vec<usize>) -> (result:
    bool)
    requires
        are_indices(numbers(list@), transcript.turns@.len() as int),
    ensures
        result == holds_anchor(*transcript, numbers(list@), numbers(group@)),
{
    let ghost all = numbers(list@);
    let ghost members = numbers(group@);
    let mut k: usize = 0;
    while k < list.len()
        invariant
            k <= list@.len(),
            all == numbers(list@),
            members == numbers(group@),
            are_indices(all, transcript.turns@.len() as int),
            forall|j: int|
                0 <= j < k ==> !(members.contains(#[trigger] all[j]) && is_eligible(
                    *transcript,
                    all[j],
                )),
        decreases list@.len() - k,
    {
        assert(all[k as int] == list@[k as int]);
        if index_in(group, list[k]) && turn_is_reference_eligible(transcript, list[k]) {
            assert(members.contains(all[k as int]) && is_eligible(*transcript, all[k as int]));
            return true;
        }
        k += 1;
    }
    false
}

fn find_member(list: &Vec<usize>, group: &Vec<usize>) -> (place: Option<usize>)
    ensures
        match place {
            Some(at) => first_member(numbers(list@), numbers(group@), 0) == Some(at as int) && at
                < list@.len(),
            None => first_member(numbers(list@), numbers(group@), 0) is None,
        },
{
    let ghost all = numbers(list@);
    let ghost members = numbers(group@);
    let mut k: usize = 0;
    while k < list.len()
        invariant
            k <= list@.len(),
            all == numbers(list@),
            members == numbers(group@),
            first_member(all, members, k as int) == first_member(all, members, 0),
        decreases list@.len() - k,
    {
        assert(all[k as int] == list@[k as int]);
        if index_in(group, list[k]) {
            return Some(k);
        }
        k += 1;
    }
    None
}

fn set_anchor(transcript: &LocalTranscript, list: &mut Vec<usize>, group: &Vec<usize>)
    requires
        are_indices(numbers(old(list)@), transcript.turns@.len() as int),
        are_indices(numbers(group@), transcript.turns@.len() as int),
    ensures
        numbers(final(list)@) == with_anchor(*transcript, numbers(old(list)@), numbers(group@)),
        are_indices(numbers(final(list)@), transcript.turns@.len() as int),
{
    let ghost before = numbers(list@);
    if let Some(anchor) = find_anchor(transcript, group) {
        if !list_holds_anchor(transcript, list, group) {
            if let Some(at) = find_member(list, group) {
                list.set(at, anchor);
                assert(numbers(list@) =~= before.update(at as int, anchor as int));
            }
        }
    }
}

fn hold_in_order(list: &Vec<usize>, count: usize) -> (held: Vec<usize>)
    ensures
        numbers(held@) == held_until(numbers(list@), count as nat),
        are_indices(numbers(held@), count as int),
{
    let mut held: Vec<usize> = Vec::new();
    assert(numbers(held@) =~= Seq::empty());
    let mut n: usize = 0;
    while n < count
        invariant
            n <= count,
            numbers(held@) == held_until(numbers(list@), n as nat),
            are_indices(numbers(held@), count as int),
        decreases count - n,
    {
        if index_in(list, n) {
            push_index(&mut held, n);
        }
        n += 1;
    }
    held
}

/// The turns that are compared.
pub fn select_turns(transcript: &LocalTranscript) -> (selected: Vec<usize>)
    ensures
        numbers(selected@) == selected_turns(*transcript),
        are_indices(numbers(selected@), transcript.turns@.len() as int),
{
    let usable = usable_turns(transcript);
    assert(numbers(usable@).len() == usable@.len());
    if usable.len() <= MAX_IDENTITY_TURN_CANDIDATES {
        return usable;
    }
    let groups = turn_groups(transcript);
    let slots = give_slots(transcript, &groups);
    let ghost count = transcript.turns@.len() as int;
    let ghost lists = number_groups(groups@);
    assert(slots@.len() == numbers(slots@).len());
    let mut list = pick_turns(&groups, &slots, Ghost(count));
    let ghost picked = numbers(list@);
    let mut n: usize = 0;
    while n < groups.len()
        invariant
            n <= groups@.len(),
            count == transcript.turns@.len(),
            lists == number_groups(groups@),
            are_groups(lists, count),
            numbers(list@) == anchored_until(*transcript, picked, lists, n as nat),
            are_indices(numbers(list@), count),
        decreases groups@.len() - n,
    {
        assert(lists[n as int] == numbers(groups@[n as int]@));
        assert(are_indices(lists[n as int], count));
        set_anchor(transcript, &mut list, &groups[n]);
        n += 1;
    }
    hold_in_order(&list, transcript.turns.len())
}

// ---------------------------------------------------------------------------
// Samples
// ---------------------------------------------------------------------------

/// The part of a turn that is heard when voices are compared, in milliseconds
/// of the stretch of audio.
#[derive(Clone, Copy, Debug, PartialEq, Eq, Structural)]
pub struct TurnCandidate {
    pub turn_index: usize,
    pub start_ms: u64,
    pub end_ms: u64,
}

/// How long a sample may be where there are so many.
pub open spec fn longest_sample(reference_ms: int, count: int) -> int {
    lesser(
        lesser(reference_ms, MAX_IDENTITY_SAMPLE_MS as int),
        MAX_IDENTITY_CANDIDATE_AUDIO_MS as int / count,
    )
}

/// The middle of a window, no longer than a sample may be.
pub open spec fn middle_of(window: (int, int), longest: int) -> (int, int) {
    let length = lesser(window.1 - window.0, longest);
    let start = window.0 + (window.1 - window.0 - length) / 2;
    (start, start + length)
}

/// The sample of a turn: its index, its start and its end.
pub open spec fn sample_of(transcript: LocalTranscript, i: int, longest: int) -> (int, int, int) {
    let part = middle_of(turn_window(transcript, i)->0, longest);
    (i, part.0, part.1)
}

/// The samples of the turns that are compared: one for each, from the middle
/// of its window; none where a sample could not be a second long.
pub open spec fn candidates_of(transcript: LocalTranscript, reference_ms: int) -> Seq<
    (int, int, int),
> {
    let selected = selected_turns(transcript);
    let longest = longest_sample(reference_ms, selected.len() as int);
    if selected.len() == 0 || longest < MIN_IDENTITY_CANDIDATE_MS {
        Seq::empty()
    } else {
        Seq::new(selected.len(), |k: int| sample_of(transcript, selected[k], longest))
    }
}

/// A candidate as numbers.
pub open spec fn candidate_number(candidate: TurnCandidate) -> (int, int, int) {
    (candidate.turn_index as int, candidate.start_ms as int, candidate.end_ms as int)
}

/// Candidates as numbers.
pub open spec fn candidate_numbers(candidates: Seq<TurnCandidate>) -> Seq<(int, int, int)> {
    candidates.map_values(|candidate: TurnCandidate| candidate_number(candidate))
}

/// All members of a list are usable turns.
pub open spec fn all_usable(transcript: LocalTranscript, list: Seq<int>) -> bool {
    forall|k: int|
        0 <= k < list.len() ==> 0 <= #[trigger] list[k] < transcript.turns@.len() && is_usable(
            transcript,
            list[k],
        )
}

pub(crate) proof fn lemma_usable_until(transcript: LocalTranscript, n: nat)
    requires
        n <= transcript.turns@.len(),
    ensures
        all_usable(transcript, usable_until(transcript, n)),
    decreases n,
{
    if n > 0 {
        lemma_usable_until(transcript, (n - 1) as nat);
    }
}

proof fn lemma_group_usable(transcript: LocalTranscript, label: Seq<char>, n: nat)
    requires
        n <= transcript.turns@.len(),
    ensures
        all_usable(transcript, group_until(transcript, label, n)),
    decreases n,
{
    if n > 0 {
        lemma_group_usable(transcript, label, (n - 1) as nat);
    }
}

proof fn lemma_label_groups_usable(transcript: LocalTranscript, labels: Seq<Seq<char>>, n: nat)
    requires
        n <= labels.len(),
    ensures
        forall|g: int|
            0 <= g < label_groups(transcript, labels, n).len() ==> all_usable(
                transcript,
                #[trigger] label_groups(transcript, labels, n)[g],
            ),
    decreases n,
{
    if n > 0 {
        lemma_label_groups_usable(transcript, labels, (n - 1) as nat);
        lemma_group_usable(transcript, labels[n - 1], transcript.turns@.len());
        let before = label_groups(transcript, labels, (n - 1) as nat);
        let after = label_groups(transcript, labels, n);
        assert forall|g: int| 0 <= g < after.len() implies all_usable(
            transcript,
            #[trigger] after[g],
        ) by {
            if g < before.len() {
                assert(after[g] == before[g]);
            }
        }
    }
}

proof fn lemma_lone_groups_usable(transcript: LocalTranscript, n: nat)
    requires
        n <= transcript.turns@.len(),
    ensures
        forall|g: int|
            0 <= g < lone_groups(transcript, n).len() ==> all_usable(
                transcript,
                #[trigger] lone_groups(transcript, n)[g],
            ),
    decreases n,
{
    if n > 0 {
        lemma_lone_groups_usable(transcript, (n - 1) as nat);
        let before = lone_groups(transcript, (n - 1) as nat);
        let after = lone_groups(transcript, n);
        assert forall|g: int| 0 <= g < after.len() implies all_usable(
            transcript,
            #[trigger] after[g],
        ) by {
            if g < before.len() {
                assert(after[g] == before[g]);
            }
        }
    }
}

pub(crate) proof fn lemma_groups_usable(transcript: LocalTranscript)
    ensures
        forall|g: int|
            0 <= g < groups_of(transcript).len() ==> all_usable(
                transcript,
                #[trigger] groups_of(transcript)[g],
            ),
{
    let labels = labels_of(transcript.turns@);
    lemma_label_groups_usable(transcript, labels, labels.len());
    lemma_lone_groups_usable(transcript, transcript.turns@.len());
    let first = label_groups(transcript, labels, labels.len());
    let second = lone_groups(transcript, transcript.turns@.len());
    assert forall|g: int| 0 <= g < groups_of(transcript).len() implies all_usable(
        transcript,
        #[trigger] groups_of(transcript)[g],
    ) by {
        if g < first.len() {
            assert(groups_of(transcript)[g] == first[g]);
        } else {
            assert(groups_of(transcript)[g] == second[g - first.len()]);
        }
    }
}

pub(crate) proof fn lemma_picked_usable(
    transcript: LocalTranscript,
    groups: Seq<Seq<int>>,
    slots: Seq<int>,
    n: nat,
)
    requires
        n <= groups.len(),
        forall|g: int| 0 <= g < groups.len() ==> all_usable(transcript, #[trigger] groups[g]),
    ensures
        all_usable(transcript, picked_until(groups, slots, n)),
    decreases n,
{
    if n > 0 {
        lemma_picked_usable(transcript, groups, slots, (n - 1) as nat);
        let group = groups[n - 1];
        assert(all_usable(transcript, group));
        let before = picked_until(groups, slots, (n - 1) as nat);
        let places = spaced_places(group.len() as int, slots[n - 1]);
        let taken = places.map_values(|place: int| group[place]);
        let after = picked_until(groups, slots, n);
        assert forall|k: int| 0 <= k < after.len() implies 0 <= #[trigger] after[k]
            < transcript.turns@.len() && is_usable(transcript, after[k]) by {
            if k < before.len() {
                assert(after[k] == before[k]);
            } else {
                let j = k - before.len();
                assert(after[k] == taken[j]);
                lemma_spaced_place(group.len() as int, slots[n - 1], j);
                assert(taken[j] == group[places[j]]);
            }
        }
    }
}

pub(crate) proof fn lemma_first_anchor(transcript: LocalTranscript, group: Seq<int>, from: int)
    requires
        0 <= from <= group.len(),
        all_usable(transcript, group),
    ensures
        match first_anchor(transcript, group, from) {
            Some(i) => 0 <= i < transcript.turns@.len() && is_usable(transcript, i) && is_eligible(
                transcript,
                i,
            ) && group.contains(i),
            None => forall|k: int|
                from <= k < group.len() ==> !is_eligible(transcript, #[trigger] group[k]),
        },
    decreases group.len() - from,
{
    if from < group.len() {
        lemma_first_anchor(transcript, group, from + 1);
        assert(group.contains(group[from]));
    }
}

pub(crate) proof fn lemma_first_member(list: Seq<int>, group: Seq<int>, from: int)
    requires
        0 <= from <= list.len(),
    ensures
        match first_member(list, group, from) {
            Some(at) => from <= at < list.len() && group.contains(list[at]),
            None => forall|k: int| from <= k < list.len() ==> !group.contains(#[trigger] list[k]),
        },
    decreases list.len() - from,
{
    if from < list.len() {
        lemma_first_member(list, group, from + 1);
    }
}

pub(crate) proof fn lemma_anchored_usable(
    transcript: LocalTranscript,
    list: Seq<int>,
    groups: Seq<Seq<int>>,
    n: nat,
)
    requires
        n <= groups.len(),
        all_usable(transcript, list),
        forall|g: int| 0 <= g < groups.len() ==> all_usable(transcript, #[trigger] groups[g]),
    ensures
        all_usable(transcript, anchored_until(transcript, list, groups, n)),
        anchored_until(transcript, list, groups, n).len() == list.len(),
    decreases n,
{
    if n > 0 {
        lemma_anchored_usable(transcript, list, groups, (n - 1) as nat);
        let before = anchored_until(transcript, list, groups, (n - 1) as nat);
        assert(all_usable(transcript, groups[n - 1]));
        lemma_first_anchor(transcript, groups[n - 1], 0);
        lemma_first_member(before, groups[n - 1], 0);
    }
}

pub(crate) proof fn lemma_held(list: Seq<int>, n: nat)
    ensures
        forall|k: int|
            0 <= k < held_until(list, n).len() ==> 0 <= #[trigger] held_until(list, n)[k] < n
                && list.contains(held_until(list, n)[k]),
        forall|j: int, k: int|
            0 <= j < k < held_until(list, n).len() ==> #[trigger] held_until(list, n)[j]
                < #[trigger] held_until(list, n)[k],
        forall|i: int| 0 <= i < n && list.contains(i) ==> #[trigger] held_until(list, n).contains(i),
    decreases n,
{
    if n > 0 {
        lemma_held(list, (n - 1) as nat);
        let before = held_until(list, (n - 1) as nat);
        let after = held_until(list, n);
        assert forall|i: int| 0 <= i < n && list.contains(i) implies #[trigger] after.contains(
            i,
        ) by {
            if i == n - 1 {
                assert(after[before.len() as int] == i);
            } else {
                assert(before.contains(i));
                let k = choose|k: int| 0 <= k < before.len() && before[k] == i;
                assert(after[k] == i);
            }
        }
    }
}

/// The turns that are compared are usable and stand in order.
pub proof fn lemma_selected(transcript: LocalTranscript)
    ensures
        all_usable(transcript, selected_turns(transcript)),
        forall|j: int, k: int|
            0 <= j < k < selected_turns(transcript).len() ==> #[trigger] selected_turns(
                transcript,
            )[j] < #[trigger] selected_turns(transcript)[k],
{
    let count = transcript.turns@.len();
    lemma_usable_until(transcript, count);
    lemma_usable_order(transcript, count);
    let groups = groups_of(transcript);
    let slots = slots_of(transcript, groups);
    lemma_groups_usable(transcript);
    lemma_picked_usable(transcript, groups, slots, groups.len());
    let picked = picked_until(groups, slots, groups.len());
    lemma_anchored_usable(transcript, picked, groups, groups.len());
    let list = anchored_until(transcript, picked, groups, groups.len());
    lemma_held(list, count);
    let held = held_until(list, count);
    assert forall|k: int| 0 <= k < held.len() implies 0 <= #[trigger] held[k] < count && is_usable(
        transcript,
        held[k],
    ) by {
        let m = choose|m: int| 0 <= m < list.len() && list[m] == held[k];
        assert(is_usable(transcript, list[m]));
    }
}

pub(crate) proof fn lemma_usable_order(transcript: LocalTranscript, n: nat)
    ensures
        forall|k: int|
            0 <= k < usable_until(transcript, n).len() ==> 0 <= #[trigger] usable_until(
                transcript,
                n,
            )[k] < n,
        forall|j: int, k: int|
            0 <= j < k < usable_until(transcript, n).len() ==> #[trigger] usable_until(
                transcript,
                n,
            )[j] < #[trigger] usable_until(transcript, n)[k],
    decreases n,
{
    if n > 0 {
        lemma_usable_order(transcript, (n - 1) as nat);
        let before = usable_until(transcript, (n - 1) as nat);
        let after = usable_until(transcript, n);
        assert forall|k: int| 0 <= k < after.len() implies 0 <= #[trigger] after[k] < n && (k
            < before.len() ==> after[k] == before[k]) by {
            if k < before.len() {
                assert(0 <= before[k] < n - 1);
            }
        }
        assert forall|j: int, k: int| 0 <= j < k < after.len() implies #[trigger] after[j]
            < #[trigger] after[k] by {
            assert(after[j] == before[j]);
            assert(0 <= before[j] < n - 1);
            if k < before.len() {
                assert(after[k] == before[k]);
            }
        }
    }
}

/// The samples of the turns that are compared, where a sample may be so long.
pub fn select_candidates(transcript: &LocalTranscript, reference_ms: u64) -> (candidates: Vec<
    TurnCandidate,
>)
    ensures
        candidate_numbers(candidates@) == candidates_of(*transcript, reference_ms as int),
        forall|k: int|
            0 <= k < candidates@.len() ==> (#[trigger] candidates@[k]).turn_index
                < transcript.turns@.len() && candidates@[k].start_ms < candidates@[k].end_ms
                <= transcript.turns@[candidates@[k].turn_index as int].end_ms,
{
    let selected = select_turns(transcript);
    let ghost list = numbers(selected@);
    assert(list.len() == selected@.len());
    let mut candidates: Vec<TurnCandidate> = Vec::new();
    assert(candidate_numbers(candidates@) =~= Seq::empty());
    if selected.len() == 0 {
        return candidates;
    }
    let count: u64 = selected.len() as u64;
    let share: u64 = MAX_IDENTITY_CANDIDATE_AUDIO_MS / count;
    let mut longest: u64 = reference_ms;
    if longest > MAX_IDENTITY_SAMPLE_MS {
        longest = MAX_IDENTITY_SAMPLE_MS;
    }
    if longest > share {
        longest = share;
    }
    assert(longest == longest_sample(reference_ms as int, list.len() as int));
    if longest < MIN_IDENTITY_CANDIDATE_MS {
        return candidates;
    }
    proof {
        lemma_selected(*transcript);
    }
    let mut k: usize = 0;
    while k < selected.len()
        invariant
            k <= selected@.len(),
            list == numbers(selected@),
            list == selected_turns(*transcript),
            all_usable(*transcript, list),
            longest >= MIN_IDENTITY_CANDIDATE_MS,
            candidates@.len() == k,
            forall|j: int|
                0 <= j < k ==> candidate_number(#[trigger] candidates@[j]) == sample_of(
                    *transcript,
                    list[j],
                    longest as int,
                ),
            forall|j: int|
                0 <= j < k ==> (#[trigger] candidates@[j]).turn_index < transcript.turns@.len()
                    && candidates@[j].start_ms < candidates@[j].end_ms
                    <= transcript.turns@[candidates@[j].turn_index as int].end_ms,
        decreases selected@.len() - k,
    {
        let i: usize = selected[k];
        assert(list[k as int] == i);
        assert(is_usable(*transcript, list[k as int]));
        if let Some((start, end)) = active_window_for_turn(transcript, i) {
            let length: u64 = end - start;
            let sample: u64 = if length <= longest {
                length
            } else {
                longest
            };
            let padding: u64 = (length - sample) / 2;
            let candidate = TurnCandidate {
                turn_index: i,
                start_ms: start + padding,
                end_ms: start + padding + sample,
            };
            assert(candidate_number(candidate) == sample_of(
                *transcript,
                list[k as int],
                longest as int,
            ));
            candidates.push(candidate);
        }
        k += 1;
    }
    assert(candidate_numbers(candidates@) =~= candidates_of(*transcript, reference_ms as int));
    candidates
}

/// How long the first `n` samples are together.
pub open spec fn samples_ms(candidates: Seq<(int, int, int)>, n: nat) -> int
    decreases n,
{
    if n == 0 {
        0
    } else {
        samples_ms(candidates, (n - 1) as nat) + (candidates[n - 1].2 - candidates[n - 1].1)
    }
}

proof fn lemma_samples_until(candidates: Seq<(int, int, int)>, longest: int, n: nat)
    requires
        n <= candidates.len(),
        forall|k: int|
            0 <= k < candidates.len() ==> (#[trigger] candidates[k]).2 - candidates[k].1
                <= longest,
    ensures
        samples_ms(candidates, n) <= n * longest,
    decreases n,
{
    if n > 0 {
        lemma_samples_until(candidates, longest, (n - 1) as nat);
        assert(candidates[n - 1].2 - candidates[n - 1].1 <= longest);
        assert((n - 1) * longest + longest == n * longest) by (nonlinear_arith);
    } else {
        assert(n * longest == 0) by (nonlinear_arith)
            requires
                n == 0,
        ;
    }
}

/// Every sample is at least a second and at most ten seconds long and lies in
/// its turn, and all samples together are at most two minutes long.
pub proof fn lemma_candidates_bounded(transcript: LocalTranscript, reference_ms: int)
    ensures
        forall|k: int|
            0 <= k < candidates_of(transcript, reference_ms).len() ==> {
                let candidate = #[trigger] candidates_of(transcript, reference_ms)[k];
                &&& 0 <= candidate.0 < transcript.turns@.len()
                &&& transcript.turns@[candidate.0].start_ms <= candidate.1
                &&& candidate.2 <= transcript.turns@[candidate.0].end_ms
                &&& MIN_IDENTITY_CANDIDATE_MS <= candidate.2 - candidate.1 <= MAX_IDENTITY_SAMPLE_MS
            },
        samples_ms(
            candidates_of(transcript, reference_ms),
            candidates_of(transcript, reference_ms).len(),
        ) <= MAX_IDENTITY_CANDIDATE_AUDIO_MS,
{
    let candidates = candidates_of(transcript, reference_ms);
    let selected = selected_turns(transcript);
    let count = selected.len() as int;
    let longest = longest_sample(reference_ms, count);
    lemma_selected(transcript);
    if count > 0 && longest >= MIN_IDENTITY_CANDIDATE_MS {
        assert forall|k: int| 0 <= k < candidates.len() implies ({
            let candidate = #[trigger] candidates[k];
            &&& 0 <= candidate.0 < transcript.turns@.len()
            &&& transcript.turns@[candidate.0].start_ms <= candidate.1
            &&& candidate.2 <= transcript.turns@[candidate.0].end_ms
            &&& MIN_IDENTITY_CANDIDATE_MS <= candidate.2 - candidate.1 <= longest
        }) by {
            let i = selected[k];
            assert(candidates[k] == sample_of(transcript, i, longest));
            assert(is_usable(transcript, i));
            lemma_longest_window(
                transcript.turns@[i],
                activity_of(transcript),
                activity_of(transcript).len(),
            );
        }
        lemma_samples_until(candidates, longest, candidates.len());
        let share = MAX_IDENTITY_CANDIDATE_AUDIO_MS as int / count;
        assert(count * longest <= count * share) by (nonlinear_arith)
            requires
                0 < count,
                longest <= share,
        ;
        vstd::arithmetic::div_mod::lemma_fundamental_div_mod(
            MAX_IDENTITY_CANDIDATE_AUDIO_MS as int,
            count,
        );
    }
}

/// The samples stand in the order of the turns, one for a turn.
pub proof fn lemma_candidates_in_order(transcript: LocalTranscript, reference_ms: int)
    ensures
        forall|j: int, k: int|
            0 <= j < k < candidates_of(transcript, reference_ms).len() ==> (
            #[trigger] candidates_of(transcript, reference_ms)[j]).0 < (#[trigger] candidates_of(
                transcript,
                reference_ms,
            )[k]).0,
{
    lemma_selected(transcript);
    let selected = selected_turns(transcript);
    let candidates = candidates_of(transcript, reference_ms);
    assert forall|j: int, k: int| 0 <= j < k < candidates.len() implies (
    #[trigger] candidates[j]).0 < (#[trigger] candidates[k]).0 by {
        assert(selected[j] < selected[k]);
    }
}

/// A stretch of time lies in one part of the sound.
pub open spec fn is_heard(activity: Seq<NonSilentRange>, start: int, end: int) -> bool {
    exists|a: int|
        0 <= a < activity.len() && (#[trigger] activity[a]).start_ms <= start && end
            <= activity[a].end_ms
}

pub(crate) proof fn lemma_window_heard(turn: LocalSpeakerTurn, activity: Seq<NonSilentRange>, n: nat)
    requires
        n <= activity.len(),
    ensures
        match longest_window(turn, activity, n) {
            Some((start, end)) => is_heard(activity, start, end),
            None => true,
        },
    decreases n,
{
    if n > 0 {
        lemma_window_heard(turn, activity, (n - 1) as nat);
        let range = activity[n - 1];
        assert(match shared_window(turn, range) {
            Some((start, end)) => range.start_ms <= start && end <= range.end_ms,
            None => true,
        });
    }
}

/// Every sample lies in one part of the sound.
pub proof fn lemma_candidates_heard(transcript: LocalTranscript, reference_ms: int)
    ensures
        forall|k: int|
            0 <= k < candidates_of(transcript, reference_ms).len() ==> is_heard(
                activity_of(transcript),
                (#[trigger] candidates_of(transcript, reference_ms)[k]).1,
                candidates_of(transcript, reference_ms)[k].2,
            ),
{
    lemma_selected(transcript);
    let selected = selected_turns(transcript);
    let candidates = candidates_of(transcript, reference_ms);
    let activity = activity_of(transcript);
    let longest = longest_sample(reference_ms, selected.len() as int);
    assert forall|k: int| 0 <= k < candidates.len() implies is_heard(
        activity,
        (#[trigger] candidates[k]).1,
        candidates[k].2,
    ) by {
        let i = selected[k];
        assert(candidates[k] == sample_of(transcript, i, longest));
        assert(is_usable(transcript, i));
        let turn = transcript.turns@[i];
        lemma_longest_window(turn, activity, activity.len());
        lemma_window_heard(turn, activity, activity.len());
        let window = turn_window(transcript, i)->0;
        let a = choose|a: int|
            0 <= a < activity.len() && (#[trigger] activity[a]).start_ms <= window.0 && window.1
                <= activity[a].end_ms;
        assert(activity[a].start_ms <= candidates[k].1 && candidates[k].2 <= activity[a].end_ms);
    }
}

} // verus!
