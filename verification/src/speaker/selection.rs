//! How many turns are compared by voice, and what they have of each group.
use vstd::prelude::*;
use crate::media::storage::lesser;
use crate::media::MAX_IDENTITY_TURN_CANDIDATES;
use crate::ordered::lemma_text_before_total;
use crate::speaker::candidates::{
    all_usable, anchored_until, filled_slots, first_anchor, first_member, first_slots,
    group_before, group_of, group_until, groups_before, groups_of, has_anchor, held_until,
    holds_anchor, hungriest, is_eligible, is_usable, label_groups, lemma_anchored_usable,
    lemma_first_anchor, lemma_first_member, lemma_groups_usable, lemma_held, lemma_hungriest,
    lemma_picked_usable, lemma_spaced_place, lemma_sum_update, lemma_usable_order,
    lemma_usable_until, lone_groups, picked_until, selected_turns, slots_fit, slots_of,
    spaced_place, spaced_places, sum_until, usable_until, with_anchor,
};
use crate::speaker::labels::{is_labelled, label_before, labels_of, lemma_labels};
use crate::speaker::LocalTranscript;

verus! {

// ---------------------------------------------------------------------------
// Groups and their order
// ---------------------------------------------------------------------------

/// The members of a group have its label.
proof fn lemma_group_label(transcript: LocalTranscript, label: Seq<char>, n: nat)
    requires
        n <= transcript.turns@.len(),
    ensures
        forall|k: int|
            0 <= k < group_until(transcript, label, n).len() ==> transcript.turns@[
            #[trigger] group_until(transcript, label, n)[k]].local_speaker_id@ == label,
    decreases n,
{
    if n > 0 {
        lemma_group_label(transcript, label, (n - 1) as nat);
        let before = group_until(transcript, label, (n - 1) as nat);
        let after = group_until(transcript, label, n);
        assert forall|k: int| 0 <= k < after.len() implies transcript.turns@[
        #[trigger] after[k]].local_speaker_id@ == label by {
            if k < before.len() {
                assert(after[k] == before[k]);
            }
        }
    }
}

/// The label of the first member of a group.
spec fn group_label(transcript: LocalTranscript, group: Seq<int>) -> Seq<char> {
    transcript.turns@[group[0]].local_speaker_id@
}

/// The groups of labels have different labels.
proof fn lemma_label_groups_differ(transcript: LocalTranscript, labels: Seq<Seq<char>>, n: nat)
    requires
        n <= labels.len(),
        labels.no_duplicates(),
    ensures
        forall|g: int|
            0 <= g < label_groups(transcript, labels, n).len() ==> labels.take(n as int).contains(
                #[trigger] group_label(transcript, label_groups(transcript, labels, n)[g]),
            ),
        forall|g: int, h: int|
            0 <= g < h < label_groups(transcript, labels, n).len() ==> #[trigger] group_label(
                transcript,
                label_groups(transcript, labels, n)[g],
            ) != #[trigger] group_label(transcript, label_groups(transcript, labels, n)[h]),
    decreases n,
{
    if n > 0 {
        lemma_label_groups_differ(transcript, labels, (n - 1) as nat);
        let label = labels[n - 1];
        lemma_group_label(transcript, label, transcript.turns@.len());
        let before = label_groups(transcript, labels, (n - 1) as nat);
        let after = label_groups(transcript, labels, n);
        let group = group_of(transcript, label);
        assert forall|g: int| 0 <= g < before.len() implies #[trigger] group_label(
            transcript,
            before[g],
        ) != label && labels.take(n as int).contains(group_label(transcript, before[g])) by {
            let held = group_label(transcript, before[g]);
            assert(labels.take(n - 1).contains(held));
            let earlier = labels.take(n - 1);
            let m = choose|m: int| 0 <= m < earlier.len() && earlier[m] == held;
            assert(labels[m] == held);
            assert(labels.take(n as int)[m] == held);
        }
        if group.len() > 0 {
            assert(group_label(transcript, group) == label) by {
                assert(transcript.turns@[group[0]].local_speaker_id@ == label);
            }
            assert(labels.take(n as int)[n - 1] == label);
        }
        assert forall|g: int| 0 <= g < after.len() implies labels.take(n as int).contains(
            #[trigger] group_label(transcript, after[g]),
        ) by {
            if g < before.len() {
                assert(after[g] == before[g]);
                assert(group_label(transcript, before[g]) != label);
            }
        }
        assert forall|g: int, h: int| 0 <= g < h < after.len() implies #[trigger] group_label(
            transcript,
            after[g],
        ) != #[trigger] group_label(transcript, after[h]) by {
            assert(after[g] == before[g]);
            assert(group_label(transcript, before[g]) != label);
            if h < before.len() {
                assert(after[h] == before[h]);
                assert(group_label(transcript, before[g]) != group_label(transcript, before[h]));
            }
        }
    }
}

/// The groups of single turns hold different turns.
proof fn lemma_lone_groups_differ(transcript: LocalTranscript, n: nat)
    requires
        n <= transcript.turns@.len(),
    ensures
        forall|g: int|
            0 <= g < lone_groups(transcript, n).len() ==> (#[trigger] lone_groups(
                transcript,
                n,
            )[g]).len() == 1 && 0 <= lone_groups(transcript, n)[g][0] < n && group_label(
                transcript,
                lone_groups(transcript, n)[g],
            ) == "UNKNOWN"@,
        forall|g: int, h: int|
            0 <= g < h < lone_groups(transcript, n).len() ==> (#[trigger] lone_groups(
                transcript,
                n,
            )[g])[0] < (#[trigger] lone_groups(transcript, n)[h])[0],
    decreases n,
{
    if n > 0 {
        lemma_lone_groups_differ(transcript, (n - 1) as nat);
        let before = lone_groups(transcript, (n - 1) as nat);
        let after = lone_groups(transcript, n);
        assert forall|g: int| 0 <= g < after.len() implies (#[trigger] after[g]).len() == 1 && 0
            <= after[g][0] < n && group_label(transcript, after[g]) == "UNKNOWN"@ by {
            if g < before.len() {
                assert(after[g] == before[g]);
            }
        }
        assert forall|g: int, h: int| 0 <= g < h < after.len() implies (#[trigger] after[g])[0] < (
        #[trigger] after[h])[0] by {
            assert(after[g] == before[g]);
            if h < before.len() {
                assert(after[h] == before[h]);
            }
        }
    }
}

/// No two groups begin with the same turn.
spec fn firsts_differ(groups: Seq<Seq<int>>) -> bool {
    forall|g: int, h: int|
        0 <= g < h < groups.len() ==> (#[trigger] groups[g])[0] != (#[trigger] groups[h])[0]
}

proof fn lemma_firsts_differ(transcript: LocalTranscript)
    ensures
        firsts_differ(groups_of(transcript)),
{
    let turns = transcript.turns@;
    let labels = labels_of(turns);
    lemma_labels(turns, turns.len());
    assert(labels.no_duplicates()) by {
        assert forall|i: int, j: int|
            0 <= i < labels.len() && 0 <= j < labels.len() && i != j implies labels[i]
            != labels[j] by {
            if i < j {
                assert(label_before(labels[i], labels[j]));
                lemma_text_before_total(labels[i], labels[j]);
            } else {
                assert(label_before(labels[j], labels[i]));
                lemma_text_before_total(labels[i], labels[j]);
            }
        }
    }
    lemma_label_groups_differ(transcript, labels, labels.len());
    lemma_lone_groups_differ(transcript, turns.len());
    let first = label_groups(transcript, labels, labels.len());
    let second = lone_groups(transcript, turns.len());
    let groups = groups_of(transcript);
    assert(labels.take(labels.len() as int) =~= labels);
    assert forall|g: int, h: int| 0 <= g < h < groups.len() implies (#[trigger] groups[g])[0] != (
    #[trigger] groups[h])[0] by {
        if h < first.len() {
            assert(groups[g] == first[g] && groups[h] == first[h]);
            assert(group_label(transcript, first[g]) != group_label(transcript, first[h]));
        } else if g < first.len() {
            let k = h - first.len();
            assert(groups[g] == first[g] && groups[h] == second[k]);
            let own = group_label(transcript, first[g]);
            assert(labels.contains(own));
            assert(is_labelled(turns, turns.len() as int, own));
            assert(group_label(transcript, second[k]) == "UNKNOWN"@);
        } else {
            let j = g - first.len();
            let k = h - first.len();
            assert(groups[g] == second[j] && groups[h] == second[k]);
        }
    }
}

/// A group that comes before another has fewer groups before it.
proof fn lemma_groups_before(
    transcript: LocalTranscript,
    groups: Seq<Seq<int>>,
    h: int,
    g: int,
    n: nat,
)
    requires
        n <= groups.len(),
        0 <= h < groups.len(),
        group_before(transcript, groups[h], groups[g]),
    ensures
        groups_before(transcript, groups, h, n) + (if h < n {
            1int
        } else {
            0
        }) <= groups_before(transcript, groups, g, n),
    decreases n,
{
    if n > 0 {
        lemma_groups_before(transcript, groups, h, g, (n - 1) as nat);
    }
}

/// The places in the order of the first `n` groups that are below the number
/// of slots.
spec fn ranks_until(transcript: LocalTranscript, groups: Seq<Seq<int>>, n: nat) -> Seq<int>
    decreases n,
{
    if n == 0 {
        Seq::empty()
    } else {
        let before = ranks_until(transcript, groups, (n - 1) as nat);
        let rank = groups_before(transcript, groups, n - 1, groups.len()) as int;
        if rank < MAX_IDENTITY_TURN_CANDIDATES {
            before.push(rank)
        } else {
            before
        }
    }
}

spec fn rank_of(transcript: LocalTranscript, groups: Seq<Seq<int>>, g: int) -> int {
    groups_before(transcript, groups, g, groups.len()) as int
}

/// Two groups have different places in the order.
proof fn lemma_rank_differs(
    transcript: LocalTranscript,
    groups: Seq<Seq<int>>,
    g: int,
    h: int,
)
    requires
        0 <= g < h < groups.len(),
        firsts_differ(groups),
    ensures
        rank_of(transcript, groups, g) != rank_of(transcript, groups, h),
{
    assert(groups[g][0] != groups[h][0]);
    if group_before(transcript, groups[g], groups[h]) {
        lemma_groups_before(transcript, groups, g, h, groups.len());
    } else {
        assert(group_before(transcript, groups[h], groups[g]));
        lemma_groups_before(transcript, groups, h, g, groups.len());
    }
}

/// A group is not before itself.
proof fn lemma_rank_below(transcript: LocalTranscript, groups: Seq<Seq<int>>, g: int, n: nat)
    requires
        0 <= g < groups.len(),
        n <= groups.len(),
    ensures
        groups_before(transcript, groups, g, n) + (if g < n {
            1int
        } else {
            0
        }) <= n,
    decreases n,
{
    if n > 0 {
        lemma_rank_below(transcript, groups, g, (n - 1) as nat);
    }
}

proof fn lemma_ranks(transcript: LocalTranscript, groups: Seq<Seq<int>>, n: nat)
    requires
        n <= groups.len(),
        firsts_differ(groups),
    ensures
        sum_until(first_slots(transcript, groups), n) == ranks_until(transcript, groups, n).len(),
        forall|k: int|
            0 <= k < ranks_until(transcript, groups, n).len() ==> 0 <= #[trigger] ranks_until(
                transcript,
                groups,
                n,
            )[k] < MAX_IDENTITY_TURN_CANDIDATES,
        forall|k: int|
            0 <= k < ranks_until(transcript, groups, n).len() ==> exists|g: int|
                0 <= g < n && #[trigger] rank_of(transcript, groups, g) == #[trigger] ranks_until(
                    transcript,
                    groups,
                    n,
                )[k],
        ranks_until(transcript, groups, n).no_duplicates(),
    decreases n,
{
    if n > 0 {
        lemma_ranks(transcript, groups, (n - 1) as nat);
        let before = ranks_until(transcript, groups, (n - 1) as nat);
        let after = ranks_until(transcript, groups, n);
        let rank = rank_of(transcript, groups, n - 1);
        assert forall|k: int| 0 <= k < before.len() implies #[trigger] before[k] != rank by {
            let g = choose|g: int|
                0 <= g < n - 1 && #[trigger] rank_of(transcript, groups, g) == before[k];
            lemma_rank_differs(transcript, groups, g, n - 1);
        }
        assert forall|k: int| 0 <= k < after.len() implies 0 <= #[trigger] after[k]
            < MAX_IDENTITY_TURN_CANDIDATES && exists|g: int|
            0 <= g < n && #[trigger] rank_of(transcript, groups, g) == after[k] by {
            if k < before.len() {
                assert(after[k] == before[k]);
                let g = choose|g: int|
                    0 <= g < n - 1 && #[trigger] rank_of(transcript, groups, g) == before[k];
                assert(rank_of(transcript, groups, g) == after[k]);
            } else {
                assert(rank_of(transcript, groups, n - 1) == after[k]);
            }
        }
        assert(after.no_duplicates()) by {
            assert forall|i: int, j: int|
                0 <= i < after.len() && 0 <= j < after.len() && i != j implies after[i]
                != after[j] by {
                if i < before.len() {
                    assert(before[i] != rank);
                }
                if j < before.len() {
                    assert(before[j] != rank);
                }
            }
        }
    }
}

/// Different numbers below a bound are no more than the bound.
proof fn lemma_distinct_below(list: Seq<int>, bound: int)
    requires
        0 <= bound,
        list.no_duplicates(),
        forall|k: int| 0 <= k < list.len() ==> 0 <= #[trigger] list[k] < bound,
    ensures
        list.len() <= bound,
    decreases bound,
{
    if list.len() > 0 {
        assert(0 <= list[0] < bound);
        if exists|p: int| 0 <= p < list.len() && #[trigger] list[p] == bound - 1 {
            let p = choose|p: int| 0 <= p < list.len() && #[trigger] list[p] == bound - 1;
            let rest = list.remove(p);
            assert forall|k: int| 0 <= k < rest.len() implies 0 <= #[trigger] rest[k] < bound
                - 1 by {
                let m = if k < p {
                    k
                } else {
                    k + 1
                };
                assert(rest[k] == list[m]);
                assert(list[m] != list[p]);
            }
            assert(rest.no_duplicates()) by {
                assert forall|a: int, b: int|
                    0 <= a < rest.len() && 0 <= b < rest.len() && a != b implies rest[a]
                    != rest[b] by {
                    let a1 = if a < p {
                        a
                    } else {
                        a + 1
                    };
                    let b1 = if b < p {
                        b
                    } else {
                        b + 1
                    };
                    assert(rest[a] == list[a1] && rest[b] == list[b1]);
                }
            }
            lemma_distinct_below(rest, bound - 1);
        } else {
            assert forall|k: int| 0 <= k < list.len() implies 0 <= #[trigger] list[k] < bound
                - 1 by {
                assert(list[k] != bound - 1);
            }
            lemma_distinct_below(list, bound - 1);
        }
    }
}

/// The places in a list of numbers that it holds.
spec fn places_of(list: Seq<int>, held: Seq<int>) -> Seq<int> {
    Seq::new(
        held.len(),
        |k: int| choose|m: int| 0 <= m < list.len() && #[trigger] list[m] == held[k],
    )
}

/// A list without repetition is no longer than one that holds all of it.
proof fn lemma_no_longer(held: Seq<int>, list: Seq<int>)
    requires
        held.no_duplicates(),
        forall|k: int| 0 <= k < held.len() ==> list.contains(#[trigger] held[k]),
    ensures
        held.len() <= list.len(),
{
    let places = places_of(list, held);
    assert forall|k: int| 0 <= k < held.len() implies 0 <= #[trigger] places[k] < list.len()
        && list[places[k]] == held[k] by {
        assert(list.contains(held[k]));
        let m = choose|m: int| 0 <= m < list.len() && list[m] == held[k];
        assert(list[m] == held[k]);
    }
    assert(places.no_duplicates()) by {
        assert forall|i: int, j: int|
            0 <= i < places.len() && 0 <= j < places.len() && i != j implies places[i]
            != places[j] by {
            assert(list[places[i]] == held[i]);
            assert(list[places[j]] == held[j]);
        }
    }
    lemma_distinct_below(places, list.len() as int);
}

// ---------------------------------------------------------------------------
// How many turns are compared
// ---------------------------------------------------------------------------

/// No group holds a turn twice, and no two groups hold the same turn.
spec fn are_apart(groups: Seq<Seq<int>>) -> bool {
    &&& forall|g: int| 0 <= g < groups.len() ==> (#[trigger] groups[g]).no_duplicates()
    &&& forall|g: int, h: int, x: int|
        0 <= g < h < groups.len() && #[trigger] groups[g].contains(x)
            ==> !(#[trigger] groups[h].contains(x))
}

proof fn lemma_group_rises(transcript: LocalTranscript, label: Seq<char>, n: nat)
    ensures
        group_until(transcript, label, n).no_duplicates(),
        forall|k: int|
            0 <= k < group_until(transcript, label, n).len() ==> #[trigger] group_until(
                transcript,
                label,
                n,
            )[k] < n,
        forall|i: int|
            0 <= i < n && is_usable(transcript, i) && transcript.turns@[i].local_speaker_id@
                == label ==> #[trigger] group_until(transcript, label, n).contains(i),
    decreases n,
{
    if n > 0 {
        lemma_group_rises(transcript, label, (n - 1) as nat);
        let before = group_until(transcript, label, (n - 1) as nat);
        let after = group_until(transcript, label, n);
        assert forall|i: int|
            0 <= i < n && is_usable(transcript, i) && transcript.turns@[i].local_speaker_id@
                == label implies #[trigger] after.contains(i) by {
            if i == n - 1 {
                assert(after[before.len() as int] == i);
            } else {
                assert(before.contains(i));
                let k = choose|k: int| 0 <= k < before.len() && before[k] == i;
                assert(after[k] == i);
            }
        }
    }
}

/// The groups of labels: each holds all usable turns with its label and no
/// other.
proof fn lemma_label_groups_full(transcript: LocalTranscript, labels: Seq<Seq<char>>, n: nat)
    requires
        n <= labels.len(),
    ensures
        forall|g: int|
            0 <= g < label_groups(transcript, labels, n).len() ==> (#[trigger] label_groups(
                transcript,
                labels,
                n,
            )[g]).len() > 0 && label_groups(transcript, labels, n)[g].no_duplicates(),
        forall|g: int, x: int|
            0 <= g < label_groups(transcript, labels, n).len() && #[trigger] label_groups(
                transcript,
                labels,
                n,
            )[g].contains(x) ==> transcript.turns@[x].local_speaker_id@ == group_label(
                transcript,
                label_groups(transcript, labels, n)[g],
            ),
        forall|m: int, i: int|
            0 <= m < n && 0 <= i < transcript.turns@.len() && is_usable(transcript, i)
                && #[trigger] labels[m] == (#[trigger] transcript.turns@[i]).local_speaker_id@
                ==> exists|g: int|
                0 <= g < label_groups(transcript, labels, n).len() && (#[trigger] label_groups(
                    transcript,
                    labels,
                    n,
                )[g]).contains(i),
    decreases n,
{
    if n > 0 {
        lemma_label_groups_full(transcript, labels, (n - 1) as nat);
        let label = labels[n - 1];
        let count = transcript.turns@.len();
        lemma_group_label(transcript, label, count);
        lemma_group_rises(transcript, label, count);
        let before = label_groups(transcript, labels, (n - 1) as nat);
        let after = label_groups(transcript, labels, n);
        let group = group_of(transcript, label);
        assert forall|g: int| 0 <= g < after.len() implies (#[trigger] after[g]).len() > 0
            && after[g].no_duplicates() by {
            if g < before.len() {
                assert(after[g] == before[g]);
            }
        }
        assert forall|g: int, x: int|
            0 <= g < after.len() && #[trigger] after[g].contains(
                x,
            ) implies transcript.turns@[x].local_speaker_id@ == group_label(
            transcript,
            after[g],
        ) by {
            if g < before.len() {
                assert(after[g] == before[g]);
                assert(before[g].contains(x));
            } else {
                let k = choose|k: int| 0 <= k < group.len() && group[k] == x;
                assert(transcript.turns@[group[k]].local_speaker_id@ == label);
                assert(transcript.turns@[group[0]].local_speaker_id@ == label);
            }
        }
        assert forall|m: int, i: int|
            0 <= m < n && 0 <= i < count && is_usable(transcript, i) && #[trigger] labels[m] == (
            #[trigger] transcript.turns@[i]).local_speaker_id@ implies exists|g: int|
            0 <= g < after.len() && (#[trigger] after[g]).contains(i) by {
            if m < n - 1 {
                let g = choose|g: int| 0 <= g < before.len() && (#[trigger] before[g]).contains(i);
                assert(after[g] == before[g]);
            } else {
                assert(group.contains(i));
                assert(after[before.len() as int] == group);
            }
        }
    }
}

proof fn lemma_lone_groups_full(transcript: LocalTranscript, n: nat)
    requires
        n <= transcript.turns@.len(),
    ensures
        forall|i: int|
            0 <= i < n && is_usable(transcript, i) && (
            #[trigger] transcript.turns@[i]).local_speaker_id@ == "UNKNOWN"@ ==> exists|g: int|
                0 <= g < lone_groups(transcript, n).len() && (#[trigger] lone_groups(
                    transcript,
                    n,
                )[g]).contains(i),
    decreases n,
{
    if n > 0 {
        lemma_lone_groups_full(transcript, (n - 1) as nat);
        let before = lone_groups(transcript, (n - 1) as nat);
        let after = lone_groups(transcript, n);
        assert forall|i: int|
            0 <= i < n && is_usable(transcript, i) && (
            #[trigger] transcript.turns@[i]).local_speaker_id@ == "UNKNOWN"@ implies exists|g: int|
            0 <= g < after.len() && (#[trigger] after[g]).contains(i) by {
            if i < n - 1 {
                let g = choose|g: int| 0 <= g < before.len() && (#[trigger] before[g]).contains(i);
                assert(after[g] == before[g]);
            } else {
                assert(after[before.len() as int] == seq![n - 1]);
                assert(seq![n - 1][0] == i);
            }
        }
    }
}

/// The groups are apart, none is empty, and every usable turn is in one.
#[verifier::spinoff_prover]
#[verifier::rlimit(50)]
proof fn lemma_groups_divide(transcript: LocalTranscript)
    ensures
        are_apart(groups_of(transcript)),
        forall|g: int|
            0 <= g < groups_of(transcript).len() ==> (#[trigger] groups_of(transcript)[g]).len()
                > 0,
        forall|i: int|
            0 <= i < transcript.turns@.len() && #[trigger] is_usable(transcript, i) ==> exists|
                g: int,
            |
                0 <= g < groups_of(transcript).len() && (#[trigger] groups_of(
                    transcript,
                )[g]).contains(i),
{
    let turns = transcript.turns@;
    let count = turns.len();
    let labels = labels_of(turns);
    lemma_labels(turns, count);
    assert(labels.no_duplicates()) by {
        assert forall|i: int, j: int|
            0 <= i < labels.len() && 0 <= j < labels.len() && i != j implies labels[i]
            != labels[j] by {
            lemma_text_before_total(labels[i], labels[j]);
            if i < j {
                assert(label_before(labels[i], labels[j]));
            } else {
                assert(label_before(labels[j], labels[i]));
            }
        }
    }
    lemma_label_groups_full(transcript, labels, labels.len());
    lemma_label_groups_differ(transcript, labels, labels.len());
    lemma_lone_groups_differ(transcript, count);
    lemma_lone_groups_full(transcript, count);
    let first = label_groups(transcript, labels, labels.len());
    let second = lone_groups(transcript, count);
    let groups = groups_of(transcript);
    assert(labels.take(labels.len() as int) =~= labels);
    assert forall|g: int| 0 <= g < groups.len() implies (#[trigger] groups[g]).no_duplicates()
        && groups[g].len() > 0 by {
        if g < first.len() {
            assert(groups[g] == first[g]);
        } else {
            assert(groups[g] == second[g - first.len()]);
        }
    }
    assert forall|g: int, h: int, x: int|
        0 <= g < h < groups.len() && #[trigger] groups[g].contains(x) implies !(
    #[trigger] groups[h].contains(x)) by {
        if groups[h].contains(x) {
            if h < first.len() {
                assert(groups[g] == first[g] && groups[h] == first[h]);
                assert(first[g].contains(x) && first[h].contains(x));
                assert(group_label(transcript, first[g]) != group_label(transcript, first[h]));
            } else {
                let k = h - first.len();
                assert(groups[h] == second[k]);
                assert(second[k].len() == 1);
                assert(second[k][0] == x);
                if g < first.len() {
                    assert(groups[g] == first[g]);
                    assert(first[g].contains(x));
                    let own = group_label(transcript, first[g]);
                    assert(labels.contains(own));
                    assert(is_labelled(turns, count as int, own));
                    assert(group_label(transcript, second[k]) == "UNKNOWN"@);
                } else {
                    let j = g - first.len();
                    assert(groups[g] == second[j]);
                    assert(second[j].len() == 1);
                    assert(second[j][0] == x);
                }
            }
        }
    }
    assert forall|i: int| 0 <= i < count && #[trigger] is_usable(transcript, i) implies exists|
        g: int,
    | 0 <= g < groups.len() && (#[trigger] groups[g]).contains(i) by {
        let label = turns[i].local_speaker_id@;
        if label == "UNKNOWN"@ {
            let k = choose|k: int| 0 <= k < second.len() && (#[trigger] second[k]).contains(i);
            assert(groups[first.len() + k] == second[k]);
        } else {
            assert(is_labelled(turns, count as int, label));
            assert(labels.contains(label));
            let m = choose|m: int| 0 <= m < labels.len() && labels[m] == label;
            assert(labels[m] == turns[i].local_speaker_id@);
            let g = choose|g: int| 0 <= g < first.len() && (#[trigger] first[g]).contains(i);
            assert(groups[g] == first[g]);
        }
    }
}

/// How far the first `n` groups are past the last slot in the order, those that
/// are.
spec fn late_until(transcript: LocalTranscript, groups: Seq<Seq<int>>, n: nat) -> Seq<int>
    decreases n,
{
    if n == 0 {
        Seq::empty()
    } else {
        let before = late_until(transcript, groups, (n - 1) as nat);
        let rank = rank_of(transcript, groups, n - 1);
        if rank < MAX_IDENTITY_TURN_CANDIDATES {
            before
        } else {
            before.push(rank - MAX_IDENTITY_TURN_CANDIDATES)
        }
    }
}

proof fn lemma_late(transcript: LocalTranscript, groups: Seq<Seq<int>>, n: nat)
    requires
        n <= groups.len(),
        firsts_differ(groups),
    ensures
        sum_until(first_slots(transcript, groups), n) + late_until(transcript, groups, n).len()
            == n,
        forall|k: int|
            0 <= k < late_until(transcript, groups, n).len() ==> 0 <= #[trigger] late_until(
                transcript,
                groups,
                n,
            )[k] < groups.len() - MAX_IDENTITY_TURN_CANDIDATES,
        forall|k: int|
            0 <= k < late_until(transcript, groups, n).len() ==> exists|g: int|
                0 <= g < n && #[trigger] rank_of(transcript, groups, g)
                    - MAX_IDENTITY_TURN_CANDIDATES == #[trigger] late_until(
                    transcript,
                    groups,
                    n,
                )[k],
        late_until(transcript, groups, n).no_duplicates(),
    decreases n,
{
    if n > 0 {
        lemma_late(transcript, groups, (n - 1) as nat);
        let before = late_until(transcript, groups, (n - 1) as nat);
        let after = late_until(transcript, groups, n);
        let rank = rank_of(transcript, groups, n - 1);
        let past = rank - MAX_IDENTITY_TURN_CANDIDATES;
        lemma_rank_below(transcript, groups, n - 1, groups.len());
        assert forall|k: int| 0 <= k < before.len() implies #[trigger] before[k] != past by {
            let g = choose|g: int|
                0 <= g < n - 1 && #[trigger] rank_of(transcript, groups, g)
                    - MAX_IDENTITY_TURN_CANDIDATES == before[k];
            lemma_rank_differs(transcript, groups, g, n - 1);
        }
        assert forall|k: int| 0 <= k < after.len() implies 0 <= #[trigger] after[k] < groups.len()
            - MAX_IDENTITY_TURN_CANDIDATES && exists|g: int|
            0 <= g < n && #[trigger] rank_of(transcript, groups, g) - MAX_IDENTITY_TURN_CANDIDATES
                == after[k] by {
            if k < before.len() {
                assert(after[k] == before[k]);
                let g = choose|g: int|
                    0 <= g < n - 1 && #[trigger] rank_of(transcript, groups, g)
                        - MAX_IDENTITY_TURN_CANDIDATES == before[k];
                assert(rank_of(transcript, groups, g) - MAX_IDENTITY_TURN_CANDIDATES == after[k]);
            } else {
                assert(rank_of(transcript, groups, n - 1) - MAX_IDENTITY_TURN_CANDIDATES
                    == after[k]);
            }
        }
        assert(after.no_duplicates()) by {
            assert forall|i: int, j: int|
                0 <= i < after.len() && 0 <= j < after.len() && i != j implies after[i]
                != after[j] by {
                if i < before.len() {
                    assert(before[i] != past);
                }
                if j < before.len() {
                    assert(before[j] != past);
                }
            }
        }
    }
}

/// At first every group has a slot, or all slots are given out.
proof fn lemma_first_given(transcript: LocalTranscript, groups: Seq<Seq<int>>)
    requires
        firsts_differ(groups),
    ensures
        sum_until(first_slots(transcript, groups), groups.len()) == lesser(
            groups.len() as int,
            MAX_IDENTITY_TURN_CANDIDATES as int,
        ),
{
    lemma_ranks(transcript, groups, groups.len());
    lemma_distinct_below(
        ranks_until(transcript, groups, groups.len()),
        MAX_IDENTITY_TURN_CANDIDATES as int,
    );
    lemma_late(transcript, groups, groups.len());
    let late = late_until(transcript, groups, groups.len());
    if late.len() > 0 {
        assert(0 <= late[0] < groups.len() - MAX_IDENTITY_TURN_CANDIDATES);
        lemma_distinct_below(late, groups.len() - MAX_IDENTITY_TURN_CANDIDATES);
    }
}

proof fn lemma_none_hungry(groups: Seq<Seq<int>>, slots: Seq<int>, n: nat)
    requires
        n <= groups.len(),
        hungriest(groups, slots, n) is None,
    ensures
        forall|g: int| 0 <= g < n ==> !(0 < #[trigger] slots[g] < groups[g].len()),
    decreases n,
{
    if n > 0 {
        lemma_none_hungry(groups, slots, (n - 1) as nat);
    }
}

/// How many turns each group has.
spec fn lengths(groups: Seq<Seq<int>>) -> Seq<int> {
    Seq::new(groups.len(), |g: int| groups[g].len() as int)
}

proof fn lemma_sums_equal(left: Seq<int>, right: Seq<int>, n: nat)
    requires
        forall|g: int| 0 <= g < n ==> #[trigger] left[g] == right[g],
    ensures
        sum_until(left, n) == sum_until(right, n),
    decreases n,
{
    if n > 0 {
        lemma_sums_equal(left, right, (n - 1) as nat);
        assert(left[n - 1] == right[n - 1]);
    }
}

/// While there are more turns than slots, every slot is given out.
proof fn lemma_filled_full(groups: Seq<Seq<int>>, slots: Seq<int>, left: nat)
    requires
        slots_fit(groups, slots),
        forall|g: int| 0 <= g < slots.len() ==> 0 < #[trigger] slots[g],
        sum_until(slots, groups.len()) + left <= sum_until(lengths(groups), groups.len()),
    ensures
        slots_fit(groups, filled_slots(groups, slots, left)),
        sum_until(filled_slots(groups, slots, left), groups.len()) == sum_until(
            slots,
            groups.len(),
        ) + left,
    decreases left,
{
    if left > 0 {
        lemma_hungriest(groups, slots, groups.len());
        match hungriest(groups, slots, groups.len()) {
            Some(g) => {
                let next = slots.update(g, slots[g] + 1);
                lemma_sum_update(slots, g, slots[g] + 1, groups.len());
                assert forall|h: int| 0 <= h < groups.len() implies 0 < #[trigger] next[h]
                    <= groups[h].len() by {
                    assert(0 < slots[h] <= groups[h].len());
                }
                lemma_filled_full(groups, next, (left - 1) as nat);
            },
            None => {
                lemma_none_hungry(groups, slots, groups.len());
                assert forall|g: int| 0 <= g < groups.len() implies #[trigger] slots[g] == lengths(
                    groups,
                )[g] by {}
                lemma_sums_equal(slots, lengths(groups), groups.len());
            },
        }
    }
}

/// Of places that are taken evenly, a later one is further on.
proof fn lemma_spaced_rise(length: int, count: int, j: int, k: int)
    requires
        0 < count <= length,
        0 <= j < k < count,
    ensures
        spaced_place(length, count, j) < spaced_place(length, count, k),
{
    if count < length {
        let low = j * (length - 1);
        let high = k * (length - 1);
        let step = count - 1;
        assert(low + step <= high) by (nonlinear_arith)
            requires
                low == j * (length - 1),
                high == k * (length - 1),
                j + 1 <= k,
                0 <= step <= length - 1,
        ;
        assert(low / step < high / step) by (nonlinear_arith)
            requires
                step > 0,
                low + step <= high,
        ;
    }
}

/// The turns that are picked are different, as many as there are slots, and
/// turns of the groups.
proof fn lemma_picked_apart(groups: Seq<Seq<int>>, slots: Seq<int>, n: nat)
    requires
        n <= groups.len(),
        are_apart(groups),
        slots_fit(groups, slots),
    ensures
        picked_until(groups, slots, n).len() == sum_until(slots, n),
        picked_until(groups, slots, n).no_duplicates(),
        forall|k: int|
            0 <= k < picked_until(groups, slots, n).len() ==> exists|g: int|
                0 <= g < n && (#[trigger] groups[g]).contains(
                    #[trigger] picked_until(groups, slots, n)[k],
                ),
    decreases n,
{
    if n > 0 {
        lemma_picked_apart(groups, slots, (n - 1) as nat);
        let group = groups[n - 1];
        let count = slots[n - 1];
        let length = group.len() as int;
        let before = picked_until(groups, slots, (n - 1) as nat);
        let places = spaced_places(length, count);
        let new = places.map_values(|place: int| group[place]);
        let after = picked_until(groups, slots, n);
        assert(0 <= count <= length);
        assert(after == before + new);
        assert(places.len() == count);
        assert forall|k: int| 0 <= k < new.len() implies group.contains(#[trigger] new[k]) by {
            lemma_spaced_place(length, count, k);
            assert(new[k] == group[places[k]]);
        }
        assert forall|j: int, k: int| 0 <= j < k < new.len() implies #[trigger] new[j]
            != #[trigger] new[k] by {
            lemma_spaced_place(length, count, j);
            lemma_spaced_place(length, count, k);
            lemma_spaced_rise(length, count, j, k);
            assert(group.no_duplicates());
            assert(new[j] == group[places[j]] && new[k] == group[places[k]]);
        }
        assert forall|j: int, k: int| 0 <= j < before.len() && 0 <= k < new.len() implies (
        #[trigger] before[j]) != #[trigger] new[k] by {
            let g = choose|g: int| 0 <= g < n - 1 && (#[trigger] groups[g]).contains(before[j]);
            assert(groups[g].contains(before[j]));
            assert(group.contains(new[k]));
            assert(!groups[n - 1].contains(before[j]));
        }
        assert forall|k: int| 0 <= k < after.len() implies exists|g: int|
            0 <= g < n && (#[trigger] groups[g]).contains(#[trigger] after[k]) by {
            if k < before.len() {
                let g = choose|g: int|
                    0 <= g < n - 1 && (#[trigger] groups[g]).contains(before[k]);
                assert(after[k] == before[k]);
                assert(groups[g].contains(after[k]));
            } else {
                assert(after[k] == new[k - before.len()]);
                assert(groups[n - 1].contains(after[k]));
            }
        }
        assert(after.no_duplicates()) by {
            assert forall|i: int, j: int|
                0 <= i < after.len() && 0 <= j < after.len() && i != j implies after[i]
                != after[j] by {
                let m = before.len() as int;
                assert(i < m ==> after[i] == before[i]);
                assert(i >= m ==> after[i] == new[i - m]);
                assert(j < m ==> after[j] == before[j]);
                assert(j >= m ==> after[j] == new[j - m]);
            }
        }
    }
}

/// With a slot for every turn, every turn is picked.
proof fn lemma_all_picked(groups: Seq<Seq<int>>, n: nat)
    requires
        n <= groups.len(),
    ensures
        forall|g: int, x: int|
            0 <= g < n && #[trigger] groups[g].contains(x) ==> picked_until(
                groups,
                lengths(groups),
                n,
            ).contains(x),
    decreases n,
{
    if n > 0 {
        lemma_all_picked(groups, (n - 1) as nat);
        let group = groups[n - 1];
        let length = group.len() as int;
        let before = picked_until(groups, lengths(groups), (n - 1) as nat);
        let places = spaced_places(length, length);
        let new = places.map_values(|place: int| group[place]);
        let after = picked_until(groups, lengths(groups), n);
        assert(after == before + new);
        assert forall|g: int, x: int|
            0 <= g < n && #[trigger] groups[g].contains(x) implies after.contains(x) by {
            if g < n - 1 {
                assert(before.contains(x));
                let k = choose|k: int| 0 <= k < before.len() && before[k] == x;
                assert(after[k] == x);
            } else {
                let k = choose|k: int| 0 <= k < group.len() && group[k] == x;
                assert(places[k] == k);
                assert(new[k] == x);
                assert(after[before.len() + k] == x);
            }
        }
    }
}

/// An anchor that takes the place of another turn was not in the list.
proof fn lemma_anchored_apart(
    transcript: LocalTranscript,
    list: Seq<int>,
    groups: Seq<Seq<int>>,
    n: nat,
)
    requires
        n <= groups.len(),
        list.no_duplicates(),
        all_usable(transcript, list),
        forall|g: int| 0 <= g < groups.len() ==> all_usable(transcript, #[trigger] groups[g]),
    ensures
        anchored_until(transcript, list, groups, n).no_duplicates(),
    decreases n,
{
    if n > 0 {
        lemma_anchored_apart(transcript, list, groups, (n - 1) as nat);
        let before = anchored_until(transcript, list, groups, (n - 1) as nat);
        let group = groups[n - 1];
        assert(all_usable(transcript, group));
        lemma_first_anchor(transcript, group, 0);
        lemma_first_member(before, group, 0);
        if !holds_anchor(transcript, before, group) {
            if let Some(anchor) = first_anchor(transcript, group, 0) {
                assert forall|k: int| 0 <= k < before.len() implies #[trigger] before[k]
                    != anchor by {}
                if let Some(at) = first_member(before, group, 0) {
                    let after = before.update(at, anchor);
                    assert forall|i: int, j: int|
                        0 <= i < after.len() && 0 <= j < after.len() && i != j implies after[i]
                        != after[j] by {
                        assert(before[i] != before[j]);
                    }
                }
            }
        }
    }
}

/// As many turns are compared as there are slots, or all that are usable where
/// they are fewer.
pub proof fn lemma_selected_count(transcript: LocalTranscript)
    ensures
        selected_turns(transcript).len() == lesser(
            usable_until(transcript, transcript.turns@.len()).len() as int,
            MAX_IDENTITY_TURN_CANDIDATES as int,
        ),
{
    let count = transcript.turns@.len();
    let usable = usable_until(transcript, count);
    if usable.len() > MAX_IDENTITY_TURN_CANDIDATES {
        let groups = groups_of(transcript);
        lemma_groups_divide(transcript);
        lemma_usable_until(transcript, count);
        lemma_usable_order(transcript, count);
        lemma_groups_usable(transcript);
        let whole = picked_until(groups, lengths(groups), groups.len());
        assert(slots_fit(groups, lengths(groups)));
        lemma_picked_apart(groups, lengths(groups), groups.len());
        lemma_all_picked(groups, groups.len());
        assert forall|k: int| 0 <= k < usable.len() implies whole.contains(#[trigger] usable[k]) by {
            assert(is_usable(transcript, usable[k]));
            let g = choose|g: int|
                0 <= g < groups.len() && (#[trigger] groups[g]).contains(usable[k]);
            assert(groups[g].contains(usable[k]));
        }
        lemma_no_longer(usable, whole);
        let first = first_slots(transcript, groups);
        let slots = slots_of(transcript, groups);
        lemma_firsts_differ(transcript);
        lemma_first_given(transcript, groups);
        assert(slots_fit(groups, first));
        if groups.len() < MAX_IDENTITY_TURN_CANDIDATES {
            assert forall|g: int| 0 <= g < first.len() implies 0 < #[trigger] first[g] by {
                lemma_rank_below(transcript, groups, g, groups.len());
            }
            lemma_filled_full(
                groups,
                first,
                (MAX_IDENTITY_TURN_CANDIDATES - groups.len()) as nat,
            );
        }
        assert(slots_fit(groups, slots));
        lemma_picked_apart(groups, slots, groups.len());
        let picked = picked_until(groups, slots, groups.len());
        lemma_picked_usable(transcript, groups, slots, groups.len());
        lemma_anchored_usable(transcript, picked, groups, groups.len());
        lemma_anchored_apart(transcript, picked, groups, groups.len());
        let list = anchored_until(transcript, picked, groups, groups.len());
        lemma_held(list, count);
        let held = held_until(list, count);
        assert forall|k: int| 0 <= k < list.len() implies held.contains(#[trigger] list[k]) by {
            assert(list.contains(list[k]));
        }
        lemma_no_longer(list, held);
        lemma_no_longer(held, list);
    }
}

// ---------------------------------------------------------------------------
// What is heard of each group
// ---------------------------------------------------------------------------

/// How many of the first `n` groups have an anchor.
pub open spec fn anchored_groups(
    transcript: LocalTranscript,
    groups: Seq<Seq<int>>,
    n: nat,
) -> nat
    decreases n,
{
    if n == 0 {
        0
    } else {
        anchored_groups(transcript, groups, (n - 1) as nat) + if has_anchor(
            transcript,
            groups[n - 1],
        ) {
            1nat
        } else {
            0
        }
    }
}

/// Only groups with an anchor come before one that has an anchor.
proof fn lemma_anchored_rank(transcript: LocalTranscript, groups: Seq<Seq<int>>, g: int, n: nat)
    requires
        0 <= g < groups.len(),
        n <= groups.len(),
        has_anchor(transcript, groups[g]),
    ensures
        groups_before(transcript, groups, g, n) + (if g < n {
            1int
        } else {
            0
        }) <= anchored_groups(transcript, groups, n),
    decreases n,
{
    if n > 0 {
        lemma_anchored_rank(transcript, groups, g, (n - 1) as nat);
    }
}

/// A list holds a turn of a group.
pub open spec fn holds_member(list: Seq<int>, group: Seq<int>) -> bool {
    exists|k: int| 0 <= k < list.len() && group.contains(#[trigger] list[k])
}

/// No group loses a slot or gets more than it has turns.
proof fn lemma_filled_grows(groups: Seq<Seq<int>>, slots: Seq<int>, left: nat)
    requires
        slots_fit(groups, slots),
    ensures
        slots_fit(groups, filled_slots(groups, slots, left)),
        forall|g: int|
            0 <= g < groups.len() ==> slots[g] <= #[trigger] filled_slots(groups, slots, left)[g],
    decreases left,
{
    if left > 0 {
        lemma_hungriest(groups, slots, groups.len());
        if let Some(g) = hungriest(groups, slots, groups.len()) {
            let next = slots.update(g, slots[g] + 1);
            assert(slots_fit(groups, next)) by {
                assert forall|h: int| 0 <= h < groups.len() implies 0 <= #[trigger] next[h]
                    <= groups[h].len() by {
                    assert(0 <= slots[h] <= groups[h].len());
                }
            }
            lemma_filled_grows(groups, next, (left - 1) as nat);
            assert forall|h: int| 0 <= h < groups.len() implies slots[h]
                <= #[trigger] filled_slots(groups, slots, left)[h] by {
                assert(next[h] <= filled_slots(groups, next, (left - 1) as nat)[h]);
            }
        }
    }
}

/// Of a group with a slot a turn is picked.
proof fn lemma_picked_member(groups: Seq<Seq<int>>, slots: Seq<int>, g: int, n: nat)
    requires
        0 <= g < n <= groups.len(),
        slots_fit(groups, slots),
        slots[g] > 0,
    ensures
        holds_member(picked_until(groups, slots, n), groups[g]),
    decreases n,
{
    let group = groups[n - 1];
    let places = spaced_places(group.len() as int, slots[n - 1]);
    let new = places.map_values(|place: int| group[place]);
    let before = picked_until(groups, slots, (n - 1) as nat);
    let after = picked_until(groups, slots, n);
    assert(after == before + new);
    if g < n - 1 {
        lemma_picked_member(groups, slots, g, (n - 1) as nat);
        let k = choose|k: int| 0 <= k < before.len() && groups[g].contains(#[trigger] before[k]);
        assert(after[k] == before[k]);
        assert(groups[g].contains(after[k]));
    } else {
        lemma_spaced_place(group.len() as int, slots[g], 0);
        assert(new[0] == group[places[0]]);
        assert(after[before.len() as int] == new[0]);
        assert(group.contains(after[before.len() as int]));
    }
}

/// A group that has an anchor and a picked turn comes to have its anchor in
/// the list, and keeps it while other groups get theirs.
proof fn lemma_anchor_stays(
    transcript: LocalTranscript,
    list: Seq<int>,
    groups: Seq<Seq<int>>,
    g: int,
    n: nat,
)
    requires
        0 <= g < groups.len(),
        n <= groups.len(),
        are_apart(groups),
        forall|h: int| 0 <= h < groups.len() ==> all_usable(transcript, #[trigger] groups[h]),
        holds_member(list, groups[g]),
    ensures
        holds_member(anchored_until(transcript, list, groups, n), groups[g]),
        g < n && has_anchor(transcript, groups[g]) ==> holds_anchor(
            transcript,
            anchored_until(transcript, list, groups, n),
            groups[g],
        ),
    decreases n,
{
    if n > 0 {
        lemma_anchor_stays(transcript, list, groups, g, (n - 1) as nat);
        let h = n - 1;
        let group = groups[h];
        let before = anchored_until(transcript, list, groups, h as nat);
        let after = anchored_until(transcript, list, groups, n);
        assert(after == with_anchor(transcript, before, group));
        assert(all_usable(transcript, group));
        lemma_first_anchor(transcript, group, 0);
        lemma_first_member(before, group, 0);
        let m = choose|m: int| 0 <= m < before.len() && groups[g].contains(#[trigger] before[m]);
        if let Some(anchor) = first_anchor(transcript, group, 0) {
            if !holds_anchor(transcript, before, group) {
                if let Some(at) = first_member(before, group, 0) {
                    assert(after == before.update(at, anchor));
                    if h == g {
                        assert(after[at] == anchor);
                        assert(groups[g].contains(after[at]));
                    } else {
                        assert forall|k: int|
                            0 <= k < before.len() && groups[g].contains(
                                #[trigger] before[k],
                            ) implies after[k] == before[k] by {
                            if k == at {
                                assert(groups[h].contains(before[k]));
                                assert(groups[g].contains(before[k]));
                            }
                        }
                        assert(after[m] == before[m]);
                        assert(groups[g].contains(after[m]));
                        if holds_anchor(transcript, before, groups[g]) {
                            let k = choose|k: int|
                                0 <= k < before.len() && groups[g].contains(
                                    #[trigger] before[k],
                                ) && is_eligible(transcript, before[k]);
                            assert(after[k] == before[k]);
                            assert(groups[g].contains(after[k]));
                        }
                    }
                }
            }
        } else if h == g && has_anchor(transcript, group) {
            let k = choose|k: int|
                0 <= k < group.len() && is_eligible(transcript, #[trigger] group[k]);
            assert(!is_eligible(transcript, group[k]));
        }
    }
}

proof fn lemma_usable_whole(transcript: LocalTranscript, n: nat)
    ensures
        forall|i: int|
            0 <= i < n && #[trigger] is_usable(transcript, i) ==> usable_until(
                transcript,
                n,
            ).contains(i),
    decreases n,
{
    if n > 0 {
        lemma_usable_whole(transcript, (n - 1) as nat);
        let before = usable_until(transcript, (n - 1) as nat);
        let after = usable_until(transcript, n);
        assert forall|i: int| 0 <= i < n && #[trigger] is_usable(
            transcript,
            i,
        ) implies after.contains(i) by {
            if i == n - 1 {
                assert(after[before.len() as int] == i);
            } else {
                assert(before.contains(i));
                let k = choose|k: int| 0 <= k < before.len() && before[k] == i;
                assert(after[k] == i);
            }
        }
    }
}

/// Of a group that has a slot at first a turn is compared, and one by which
/// its voice can be known later where it has such a turn.
proof fn lemma_first_slot_heard(transcript: LocalTranscript, g: int)
    requires
        0 <= g < groups_of(transcript).len(),
        rank_of(transcript, groups_of(transcript), g) < MAX_IDENTITY_TURN_CANDIDATES,
    ensures
        holds_member(selected_turns(transcript), groups_of(transcript)[g]),
        has_anchor(transcript, groups_of(transcript)[g]) ==> holds_anchor(
            transcript,
            selected_turns(transcript),
            groups_of(transcript)[g],
        ),
{
    let count = transcript.turns@.len();
    let groups = groups_of(transcript);
    let group = groups[g];
    let selected = selected_turns(transcript);
    lemma_groups_divide(transcript);
    lemma_groups_usable(transcript);
    assert(all_usable(transcript, group));
    assert(group.len() > 0);
    if usable_until(transcript, count).len() <= MAX_IDENTITY_TURN_CANDIDATES {
        lemma_usable_whole(transcript, count);
        assert forall|m: int| 0 <= m < group.len() implies exists|k: int|
            0 <= k < selected.len() && selected[k] == #[trigger] group[m] by {
            assert(is_usable(transcript, group[m]));
            assert(selected.contains(group[m]));
        }
        let k = choose|k: int| 0 <= k < selected.len() && selected[k] == group[0];
        assert(group.contains(group[0]));
        assert(group.contains(selected[k]));
        if has_anchor(transcript, group) {
            let m = choose|m: int|
                0 <= m < group.len() && is_eligible(transcript, #[trigger] group[m]);
            let j = choose|j: int| 0 <= j < selected.len() && selected[j] == group[m];
            assert(group.contains(group[m]));
            assert(group.contains(selected[j]));
        }
    } else {
        let first = first_slots(transcript, groups);
        let slots = slots_of(transcript, groups);
        let used = sum_until(first, first.len());
        let left: nat = if used < MAX_IDENTITY_TURN_CANDIDATES {
            (MAX_IDENTITY_TURN_CANDIDATES - used) as nat
        } else {
            0
        };
        assert(slots_fit(groups, first));
        lemma_filled_grows(groups, first, left);
        assert(first[g] == 1);
        assert(first[g] <= slots[g]);
        lemma_picked_member(groups, slots, g, groups.len());
        lemma_picked_usable(transcript, groups, slots, groups.len());
        let picked = picked_until(groups, slots, groups.len());
        lemma_anchor_stays(transcript, picked, groups, g, groups.len());
        lemma_anchored_usable(transcript, picked, groups, groups.len());
        let list = anchored_until(transcript, picked, groups, groups.len());
        lemma_held(list, count);
        assert forall|m: int| 0 <= m < list.len() implies exists|k: int|
            0 <= k < selected.len() && selected[k] == #[trigger] list[m] by {
            assert(is_usable(transcript, list[m]));
            assert(list.contains(list[m]));
            assert(selected.contains(list[m]));
        }
        let m = choose|m: int| 0 <= m < list.len() && group.contains(#[trigger] list[m]);
        let k = choose|k: int| 0 <= k < selected.len() && selected[k] == list[m];
        assert(group.contains(selected[k]));
        if has_anchor(transcript, group) {
            let i = choose|i: int|
                0 <= i < list.len() && group.contains(#[trigger] list[i]) && is_eligible(
                    transcript,
                    list[i],
                );
            let j = choose|j: int| 0 <= j < selected.len() && selected[j] == list[i];
            assert(group.contains(selected[j]));
        }
    }
}

/// Where there are no more groups than slots, a turn of every group is
/// compared.
pub proof fn lemma_groups_heard(transcript: LocalTranscript, g: int)
    requires
        0 <= g < groups_of(transcript).len() <= MAX_IDENTITY_TURN_CANDIDATES,
    ensures
        holds_member(selected_turns(transcript), groups_of(transcript)[g]),
{
    let groups = groups_of(transcript);
    lemma_rank_below(transcript, groups, g, groups.len());
    lemma_first_slot_heard(transcript, g);
}

/// Where no more groups have an anchor than there are slots, every group that
/// has one has one among the turns that are compared.
pub proof fn lemma_anchors_heard(transcript: LocalTranscript, g: int)
    requires
        0 <= g < groups_of(transcript).len(),
        has_anchor(transcript, groups_of(transcript)[g]),
        anchored_groups(transcript, groups_of(transcript), groups_of(transcript).len())
            <= MAX_IDENTITY_TURN_CANDIDATES,
    ensures
        holds_anchor(transcript, selected_turns(transcript), groups_of(transcript)[g]),
{
    let groups = groups_of(transcript);
    lemma_anchored_rank(transcript, groups, g, groups.len());
    lemma_first_slot_heard(transcript, g);
}

} // verus!
