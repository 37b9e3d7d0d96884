//! A score of speakers does not depend on the names of the speakers.
use vstd::prelude::*;
use crate::alignment::{aligned_pairs, lemma_aligned_pairs};
use crate::assignment::{
    assignment_weight, is_assignment, is_maximum_weight, lemma_rearranged, lemma_sum_remove,
    lemma_weight_is_sum, pair_weights, square_size, sum_of, weight_at,
};
use crate::evaluation::{
    counts_pairs, is_best_match, is_label_list, is_speaker_of, is_speaker_score, pair_count,
    turn_costs, SpeakerScore,
};

verus! {

/// Two lists of turns differ in the names of the speakers only: what had the
/// same name has the same name, what had different names has different names,
/// and `UNKNOWN` keeps its name.
pub open spec fn is_renaming(
    turns: Seq<(Seq<char>, Seq<char>)>,
    renamed: Seq<(Seq<char>, Seq<char>)>,
) -> bool {
    &&& renamed.len() == turns.len()
    &&& forall|i: int| 0 <= i < turns.len() ==> (#[trigger] turns[i]).1 == renamed[i].1
    &&& forall|i: int|
        0 <= i < turns.len() ==> ((#[trigger] turns[i]).0 == "UNKNOWN"@ <==> renamed[i].0
            == "UNKNOWN"@)
    &&& forall|i: int, j: int|
        0 <= i < turns.len() && 0 <= j < turns.len() ==> ((#[trigger] turns[i]).0 == (
        #[trigger] turns[j]).0 <==> renamed[i].0 == renamed[j].0)
}

// ---------------------------------------------------------------------------
// Lists of names
// ---------------------------------------------------------------------------

/// The places in another list of the members of a list.
pub(crate) open spec fn places_in(list: Seq<Seq<char>>, other: Seq<Seq<char>>) -> Seq<int> {
    Seq::new(list.len(), |k: int| other.index_of(list[k]))
}

/// Where two lists without repetition have the same members, the places of the
/// members of the one in the other are all its places.
pub(crate) proof fn lemma_places_in(list: Seq<Seq<char>>, other: Seq<Seq<char>>)
    requires
        list.no_duplicates(),
        other.no_duplicates(),
        forall|label: Seq<char>| #[trigger] list.contains(label) <==> other.contains(label),
    ensures
        list.len() == other.len(),
        is_assignment(places_in(list, other), list.len()),
        forall|k: int|
            0 <= k < list.len() ==> other[#[trigger] places_in(list, other)[k]] == list[k],
{
    list.unique_seq_to_set();
    other.unique_seq_to_set();
    assert(list.to_set() =~= other.to_set()) by {
        assert forall|label: Seq<char>| list.to_set().contains(label)
            <==> other.to_set().contains(label) by {
            assert(list.contains(label) <==> other.contains(label));
        }
    }
    let places = places_in(list, other);
    assert forall|k: int| 0 <= k < list.len() implies 0 <= #[trigger] places[k] < other.len()
        && other[places[k]] == list[k] by {
        assert(list.contains(list[k]));
        assert(other.contains(list[k]));
    }
    assert(places.no_duplicates()) by {
        assert forall|i: int, j: int|
            0 <= i < places.len() && 0 <= j < places.len() && i != j implies places[i]
            != places[j] by {
            assert(other[places[i]] == list[i]);
            assert(other[places[j]] == list[j]);
        }
    }
}

/// Places with those behind them, which stay.
spec fn extended(places: Seq<int>, size: nat) -> Seq<int> {
    Seq::new(
        size,
        |k: int|
            if k < places.len() {
                places[k]
            } else {
                k
            },
    )
}

proof fn lemma_extended(places: Seq<int>, size: nat)
    requires
        is_assignment(places, places.len()),
        places.len() <= size,
    ensures
        is_assignment(extended(places, size), size),
{
    let all = extended(places, size);
    assert forall|k: int| 0 <= k < size implies 0 <= #[trigger] all[k] < size by {
        if k < places.len() {
            assert(0 <= places[k] < places.len());
        }
    }
    assert(all.no_duplicates()) by {
        assert forall|i: int, j: int|
            0 <= i < all.len() && 0 <= j < all.len() && i != j implies all[i] != all[j] by {
            if i < places.len() {
                assert(0 <= places[i] < places.len());
            }
            if j < places.len() {
                assert(0 <= places[j] < places.len());
            }
        }
    }
}

// ---------------------------------------------------------------------------
// Names of the speakers of a hypothesis
// ---------------------------------------------------------------------------

/// The name that a speaker has after a renaming.
spec fn new_name(
    turns: Seq<(Seq<char>, Seq<char>)>,
    renamed: Seq<(Seq<char>, Seq<char>)>,
    label: Seq<char>,
) -> Seq<char> {
    let i = choose|i: int| 0 <= i < turns.len() && (#[trigger] turns[i]).0 == label;
    renamed[i].0
}

spec fn new_names(
    turns: Seq<(Seq<char>, Seq<char>)>,
    renamed: Seq<(Seq<char>, Seq<char>)>,
    labels: Seq<Seq<char>>,
) -> Seq<Seq<char>> {
    labels.map_values(|label: Seq<char>| new_name(turns, renamed, label))
}

proof fn lemma_new_name(
    turns: Seq<(Seq<char>, Seq<char>)>,
    renamed: Seq<(Seq<char>, Seq<char>)>,
    label: Seq<char>,
)
    requires
        is_renaming(turns, renamed),
        is_speaker_of(turns, label),
    ensures
        is_speaker_of(renamed, new_name(turns, renamed, label)),
        label == "UNKNOWN"@ <==> new_name(turns, renamed, label) == "UNKNOWN"@,
        forall|k: int|
            0 <= k < turns.len() ==> ((#[trigger] turns[k]).0 == label <==> renamed[k].0
                == new_name(turns, renamed, label)),
{
    let i = choose|i: int| 0 <= i < turns.len() && (#[trigger] turns[i]).0 == label;
    assert(turns[i].0 == label);
    assert(renamed[i].0 == new_name(turns, renamed, label));
}

/// The new names of all speakers are the speakers after the renaming.
proof fn lemma_new_names(
    turns: Seq<(Seq<char>, Seq<char>)>,
    renamed: Seq<(Seq<char>, Seq<char>)>,
    labels: Seq<Seq<char>>,
    renamed_labels: Seq<Seq<char>>,
)
    requires
        is_renaming(turns, renamed),
        is_label_list(labels, turns, true),
        is_label_list(renamed_labels, renamed, true),
    ensures
        new_names(turns, renamed, labels).no_duplicates(),
        forall|label: Seq<char>| #[trigger]
            new_names(turns, renamed, labels).contains(label) <==> renamed_labels.contains(label),
{
    let names = new_names(turns, renamed, labels);
    assert forall|k: int| 0 <= k < labels.len() implies is_speaker_of(turns, #[trigger] labels[k])
        && labels[k] != "UNKNOWN"@ by {
        assert(labels.contains(labels[k]));
    }
    assert(names.no_duplicates()) by {
        assert forall|a: int, b: int|
            0 <= a < names.len() && 0 <= b < names.len() && a != b implies names[a]
            != names[b] by {
            assert(labels[a] != labels[b]);
            lemma_new_name(turns, renamed, labels[a]);
            lemma_new_name(turns, renamed, labels[b]);
            let i = choose|i: int| 0 <= i < turns.len() && (#[trigger] turns[i]).0 == labels[a];
            assert(turns[i].0 == labels[a]);
        }
    }
    assert forall|label: Seq<char>| #[trigger] names.contains(label)
        <==> renamed_labels.contains(label) by {
        if names.contains(label) {
            let k = choose|k: int| 0 <= k < names.len() && names[k] == label;
            assert(is_speaker_of(turns, labels[k]));
            lemma_new_name(turns, renamed, labels[k]);
        }
        if renamed_labels.contains(label) {
            let i = choose|i: int| 0 <= i < renamed.len() && (#[trigger] renamed[i]).0 == label;
            let old_label = turns[i].0;
            assert(is_speaker_of(turns, old_label));
            assert(labels.contains(old_label));
            lemma_new_name(turns, renamed, old_label);
            let k = choose|k: int| 0 <= k < labels.len() && labels[k] == old_label;
            assert(names[k] == label);
        }
    }
}

proof fn lemma_pair_count_renamed(
    pairs: Seq<(int, int)>,
    n: nat,
    reference: Seq<(Seq<char>, Seq<char>)>,
    turns: Seq<(Seq<char>, Seq<char>)>,
    renamed: Seq<(Seq<char>, Seq<char>)>,
    expected: Seq<char>,
    label: Seq<char>,
)
    requires
        n <= pairs.len(),
        is_renaming(turns, renamed),
        is_speaker_of(turns, label),
        forall|k: int| 0 <= k < pairs.len() ==> 0 <= (#[trigger] pairs[k]).1 < turns.len(),
    ensures
        pair_count(pairs, n, reference, turns, expected, label) == pair_count(
            pairs,
            n,
            reference,
            renamed,
            expected,
            new_name(turns, renamed, label),
        ),
    decreases n,
{
    if n > 0 {
        lemma_pair_count_renamed(
            pairs,
            (n - 1) as nat,
            reference,
            turns,
            renamed,
            expected,
            label,
        );
        lemma_new_name(turns, renamed, label);
        let k = pairs[n - 1].1;
        assert(0 <= k < turns.len());
        assert(turns[k].0 == label <==> renamed[k].0 == new_name(turns, renamed, label));
    }
}

// ---------------------------------------------------------------------------
// The score
// ---------------------------------------------------------------------------

/// After a renaming no fewer pairs can have equal speakers.
proof fn lemma_match_not_smaller(
    reference: Seq<(Seq<char>, Seq<char>)>,
    turns: Seq<(Seq<char>, Seq<char>)>,
    renamed: Seq<(Seq<char>, Seq<char>)>,
    pairs: Seq<(int, int)>,
    best: int,
    renamed_best: int,
)
    requires
        is_renaming(turns, renamed),
        forall|k: int| 0 <= k < pairs.len() ==> 0 <= (#[trigger] pairs[k]).1 < turns.len(),
        is_best_match(reference, turns, pairs, best),
        is_best_match(reference, renamed, pairs, renamed_best),
    ensures
        best <= renamed_best,
{
    let (expected, predicted, weights) = choose|
        expected: Seq<Seq<char>>,
        predicted: Seq<Seq<char>>,
        weights: Seq<Vec<usize>>,
    |
        {
            &&& #[trigger] is_label_list(expected, reference, false)
            &&& #[trigger] is_label_list(predicted, turns, true)
            &&& #[trigger] counts_pairs(
                weights,
                pairs,
                pairs.len(),
                reference,
                turns,
                expected,
                predicted,
            )
            &&& if expected.len() == 0 || predicted.len() == 0 {
                best == 0
            } else {
                is_maximum_weight(weights, square_size(weights, expected.len()), best)
            }
        };
    let (other_expected, other_predicted, other_weights) = choose|
        expected: Seq<Seq<char>>,
        predicted: Seq<Seq<char>>,
        weights: Seq<Vec<usize>>,
    |
        {
            &&& #[trigger] is_label_list(expected, reference, false)
            &&& #[trigger] is_label_list(predicted, renamed, true)
            &&& #[trigger] counts_pairs(
                weights,
                pairs,
                pairs.len(),
                reference,
                renamed,
                expected,
                predicted,
            )
            &&& if expected.len() == 0 || predicted.len() == 0 {
                renamed_best == 0
            } else {
                is_maximum_weight(weights, square_size(weights, expected.len()), renamed_best)
            }
        };
    let names = new_names(turns, renamed, predicted);
    lemma_new_names(turns, renamed, predicted, other_predicted);
    assert forall|label: Seq<char>| #[trigger] other_expected.contains(label)
        <==> expected.contains(label) by {}
    lemma_places_in(other_expected, expected);
    lemma_places_in(names, other_predicted);
    if expected.len() > 0 && predicted.len() > 0 {
        let size = square_size(weights, expected.len());
        let columns = places_in(other_expected, expected);
        let rows = places_in(names, other_predicted);
        let all_columns = extended(columns, size);
        let all_rows = extended(rows, size);
        lemma_extended(columns, size);
        lemma_extended(rows, size);
        assert forall|row: int, column: int|
            0 <= row < size && 0 <= column < size implies #[trigger] weight_at(
            weights,
            row,
            all_columns[column],
        ) == weight_at(other_weights, all_rows[row], column) by {
            if row < predicted.len() && column < expected.len() {
                let e = columns[column];
                let p = rows[row];
                assert(0 <= e < expected.len() && 0 <= p < predicted.len());
                assert(expected[e] == other_expected[column]);
                assert(other_predicted[p] == names[row]);
                assert(predicted.contains(predicted[row]));
                lemma_pair_count_renamed(
                    pairs,
                    pairs.len(),
                    reference,
                    turns,
                    renamed,
                    expected[e],
                    predicted[row],
                );
                assert(weights[row]@.len() == expected.len());
                assert(other_weights[p]@.len() == expected.len());
                assert(weights[row]@[e] == pair_count(
                    pairs,
                    pairs.len(),
                    reference,
                    turns,
                    expected[e],
                    predicted[row],
                ));
                assert(other_weights[p]@[column] == pair_count(
                    pairs,
                    pairs.len(),
                    reference,
                    renamed,
                    other_expected[column],
                    other_predicted[p],
                ));
            } else if row < predicted.len() {
                assert(weights[row]@.len() == expected.len());
                assert(0 <= rows[row] < predicted.len());
                assert(other_weights[rows[row]]@.len() == expected.len());
            }
        }
        lemma_rearranged(
            weights,
            other_weights,
            all_rows,
            all_columns,
            size,
            best,
            renamed_best,
        );
    }
}

/// How many of the first `n` pairs have equal speakers in each column, where
/// the columns have these rows.
spec fn column_counts(
    pairs: Seq<(int, int)>,
    n: nat,
    reference: Seq<(Seq<char>, Seq<char>)>,
    turns: Seq<(Seq<char>, Seq<char>)>,
    expected: Seq<Seq<char>>,
    predicted: Seq<Seq<char>>,
    rows: Seq<int>,
) -> Seq<int> {
    Seq::new(
        rows.len(),
        |c: int|
            if c < expected.len() && 0 <= rows[c] < predicted.len() {
                pair_count(pairs, n, reference, turns, expected[c], predicted[rows[c]]) as int
            } else {
                0
            },
    )
}

proof fn lemma_sum_raised(before: Seq<int>, after: Seq<int>, at: int)
    requires
        before.len() == after.len(),
        0 <= at < before.len(),
        after[at] <= before[at] + 1,
        forall|k: int| 0 <= k < before.len() && k != at ==> #[trigger] after[k] == before[k],
    ensures
        sum_of(after) <= sum_of(before) + 1,
{
    lemma_sum_remove(before, at);
    lemma_sum_remove(after, at);
    assert(before.remove(at) =~= after.remove(at)) by {
        assert forall|k: int| 0 <= k < before.len() - 1 implies #[trigger] before.remove(at)[k]
            == after.remove(at)[k] by {
            let m = if k < at {
                k
            } else {
                k + 1
            };
            assert(before.remove(at)[k] == before[m]);
            assert(after.remove(at)[k] == after[m]);
        }
    }
}

proof fn lemma_sum_zero(list: Seq<int>)
    requires
        forall|k: int| 0 <= k < list.len() ==> #[trigger] list[k] == 0,
    ensures
        sum_of(list) == 0,
    decreases list.len(),
{
    if list.len() > 0 {
        lemma_sum_zero(list.drop_last());
    }
}

/// A pair has equal speakers in one column at most.
proof fn lemma_column_counts(
    pairs: Seq<(int, int)>,
    n: nat,
    reference: Seq<(Seq<char>, Seq<char>)>,
    turns: Seq<(Seq<char>, Seq<char>)>,
    expected: Seq<Seq<char>>,
    predicted: Seq<Seq<char>>,
    rows: Seq<int>,
)
    requires
        expected.no_duplicates(),
    ensures
        sum_of(column_counts(pairs, n, reference, turns, expected, predicted, rows)) <= n,
    decreases n,
{
    let after = column_counts(pairs, n, reference, turns, expected, predicted, rows);
    if n == 0 {
        lemma_sum_zero(after);
    } else {
        lemma_column_counts(
            pairs,
            (n - 1) as nat,
            reference,
            turns,
            expected,
            predicted,
            rows,
        );
        let before = column_counts(
            pairs,
            (n - 1) as nat,
            reference,
            turns,
            expected,
            predicted,
            rows,
        );
        let label = reference[pairs[n - 1].0].0;
        if exists|c: int| 0 <= c < rows.len() && c < expected.len() && #[trigger] expected[c] == label {
            let at = choose|c: int|
                0 <= c < rows.len() && c < expected.len() && #[trigger] expected[c] == label;
            assert forall|k: int| 0 <= k < before.len() && k != at implies #[trigger] after[k]
                == before[k] by {
                if k < expected.len() {
                    assert(expected[k] != expected[at]);
                }
            }
            lemma_sum_raised(before, after, at);
        } else {
            assert forall|k: int| 0 <= k < before.len() implies #[trigger] after[k]
                == before[k] by {
                if k < expected.len() {
                    assert(expected[k] != label);
                }
            }
            assert(after =~= before);
        }
    }
}

/// No more pairs have equal speakers than there are.
proof fn lemma_match_bound(
    reference: Seq<(Seq<char>, Seq<char>)>,
    turns: Seq<(Seq<char>, Seq<char>)>,
    pairs: Seq<(int, int)>,
    best: int,
)
    requires
        is_best_match(reference, turns, pairs, best),
    ensures
        best <= pairs.len(),
{
    let (expected, predicted, weights) = choose|
        expected: Seq<Seq<char>>,
        predicted: Seq<Seq<char>>,
        weights: Seq<Vec<usize>>,
    |
        {
            &&& #[trigger] is_label_list(expected, reference, false)
            &&& #[trigger] is_label_list(predicted, turns, true)
            &&& #[trigger] counts_pairs(
                weights,
                pairs,
                pairs.len(),
                reference,
                turns,
                expected,
                predicted,
            )
            &&& if expected.len() == 0 || predicted.len() == 0 {
                best == 0
            } else {
                is_maximum_weight(weights, square_size(weights, expected.len()), best)
            }
        };
    if expected.len() > 0 && predicted.len() > 0 {
        let size = square_size(weights, expected.len());
        let rows = choose|rows: Seq<int>|
            is_assignment(rows, size) && #[trigger] assignment_weight(weights, rows) == best;
        lemma_weight_is_sum(weights, rows);
        lemma_column_counts(
            pairs,
            pairs.len(),
            reference,
            turns,
            expected,
            predicted,
            rows,
        );
        let counts = column_counts(
            pairs,
            pairs.len(),
            reference,
            turns,
            expected,
            predicted,
            rows,
        );
        assert(pair_weights(weights, rows) =~= counts) by {
            assert forall|c: int| 0 <= c < rows.len() implies #[trigger] pair_weights(
                weights,
                rows,
            )[c] == counts[c] by {
                assert(0 <= rows[c] < size);
                if rows[c] < predicted.len() {
                    assert(weights[rows[c]]@.len() == expected.len());
                    if c < expected.len() {
                        assert(weights[rows[c]]@[c] == pair_count(
                            pairs,
                            pairs.len(),
                            reference,
                            turns,
                            expected[c],
                            predicted[rows[c]],
                        ));
                    }
                }
            }
        }
    }
}

/// The score of a hypothesis stays when its speakers are renamed.
pub proof fn lemma_score_is_renamed(
    reference: Seq<(Seq<char>, Seq<char>)>,
    hypothesis: Seq<(Seq<char>, Seq<char>)>,
    renamed: Seq<(Seq<char>, Seq<char>)>,
    score: SpeakerScore,
    renamed_score: SpeakerScore,
)
    requires
        is_renaming(hypothesis, renamed),
        is_speaker_score(reference, hypothesis, score),
        is_speaker_score(reference, renamed, renamed_score),
    ensures
        score.correct == renamed_score.correct,
        score.denominator == renamed_score.denominator,
        score.aligned_pairs == renamed_score.aligned_pairs,
{
    let costs = turn_costs(reference, hypothesis);
    assert(turn_costs(reference, renamed) =~~= costs);
    let pairs = aligned_pairs(costs, reference.len(), hypothesis.len());
    lemma_aligned_pairs(costs, reference.len(), hypothesis.len());
    assert(is_renaming(renamed, hypothesis));
    lemma_match_not_smaller(
        reference,
        hypothesis,
        renamed,
        pairs,
        score.correct as int,
        renamed_score.correct as int,
    );
    lemma_match_not_smaller(
        reference,
        renamed,
        hypothesis,
        pairs,
        renamed_score.correct as int,
        score.correct as int,
    );
}

/// Turns whose speakers have other names.
pub open spec fn renamed_by(
    turns: Seq<(Seq<char>, Seq<char>)>,
    rename: spec_fn(Seq<char>) -> Seq<char>,
) -> Seq<(Seq<char>, Seq<char>)> {
    turns.map_values(|turn: (Seq<char>, Seq<char>)| (rename(turn.0), turn.1))
}

/// Giving the speakers of a hypothesis other names, different ones to different
/// speakers, with `UNKNOWN` as it is, changes nothing of the score.
pub proof fn lemma_score_ignores_names(
    reference: Seq<(Seq<char>, Seq<char>)>,
    hypothesis: Seq<(Seq<char>, Seq<char>)>,
    rename: spec_fn(Seq<char>) -> Seq<char>,
    score: SpeakerScore,
    renamed_score: SpeakerScore,
)
    requires
        rename("UNKNOWN"@) == "UNKNOWN"@,
        forall|x: Seq<char>, y: Seq<char>| #[trigger] rename(x) == #[trigger] rename(y) ==> x == y,
        is_speaker_score(reference, hypothesis, score),
        is_speaker_score(reference, renamed_by(hypothesis, rename), renamed_score),
    ensures
        score == renamed_score,
        score.correct <= score.aligned_pairs,
        score.aligned_pairs <= reference.len(),
        score.aligned_pairs <= hypothesis.len(),
{
    let renamed = renamed_by(hypothesis, rename);
    assert forall|i: int| 0 <= i < hypothesis.len() implies ((#[trigger] hypothesis[i]).0
        == "UNKNOWN"@ <==> renamed[i].0 == "UNKNOWN"@) by {
        assert(rename(hypothesis[i].0) == renamed[i].0);
    }
    assert forall|i: int, j: int| 0 <= i < hypothesis.len() && 0 <= j < hypothesis.len() implies ((
    #[trigger] hypothesis[i]).0 == (#[trigger] hypothesis[j]).0 <==> renamed[i].0
        == renamed[j].0) by {
        assert(rename(hypothesis[i].0) == renamed[i].0);
        assert(rename(hypothesis[j].0) == renamed[j].0);
    }
    lemma_score_is_renamed(reference, hypothesis, renamed, score, renamed_score);
    lemma_score_is_bounded(reference, hypothesis, score);
}

/// Of the pairs of turns at most all are correct, and there are no more pairs
/// than turns on either side.
pub proof fn lemma_score_is_bounded(
    reference: Seq<(Seq<char>, Seq<char>)>,
    hypothesis: Seq<(Seq<char>, Seq<char>)>,
    score: SpeakerScore,
)
    requires
        is_speaker_score(reference, hypothesis, score),
    ensures
        score.correct <= score.aligned_pairs,
        score.aligned_pairs <= reference.len(),
        score.aligned_pairs <= hypothesis.len(),
        reference.len() <= score.denominator,
        hypothesis.len() <= score.denominator,
        score.denominator == reference.len() || score.denominator == hypothesis.len(),
{
    let costs = turn_costs(reference, hypothesis);
    lemma_aligned_pairs(costs, reference.len(), hypothesis.len());
    lemma_match_bound(
        reference,
        hypothesis,
        aligned_pairs(costs, reference.len(), hypothesis.len()),
        score.correct as int,
    );
}

} // verus!
