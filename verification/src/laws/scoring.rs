//! How a transcript is held against what was said.
use vstd::prelude::*;
use crate::alignment::{
    aligned_pairs, edit_distance, gap_end, gap_ends, gap_start, gap_starts,
    lemma_edit_distance_zero, prefix_distance, text_pair_cost, turn_alignment_cost,
};
use crate::assignment::{
    assignment_weight, is_assignment, is_maximum_weight, lemma_sum_remove, lemma_weight_is_sum,
    pair_weights, square_size, sum_of,
};
use crate::evaluation::{
    counts_pairs, is_label_list, is_speaker_of, is_speaker_score, pair_count, turn_costs,
    SpeakerScore, accepted_of, bare_line, category_hits, category_total, fields_of, first_part,
    has_tab, is_hypothesis_speaker, is_ignored_line, is_located, missed_ids, rest_part,
    speaker_turn, term_is_hit, turns_of, without_escapes, TermText, TsvFault,
};
use crate::normalization::normalized_text;
use crate::renaming::{lemma_places_in, lemma_score_is_bounded, places_in};
use crate::text::{
    is_white_space, lemma_position_of, occurs_at, position_of, trimmed, trimmed_start,
};

verus! {

// ---------------------------------------------------------------------------
// Tables
// ---------------------------------------------------------------------------

/// A text that can stand in a table: it is not empty, and neither begins nor
/// ends with white space.
pub open spec fn is_cell(text: Seq<char>) -> bool {
    text.len() > 0 && !is_white_space(text[0]) && !is_white_space(text.last())
}

proof fn lemma_cell_is_trimmed(text: Seq<char>)
    requires
        is_cell(text),
    ensures
        trimmed(text) == text,
        trimmed_start(text) == text,
{
}

/// The line of two cells.
pub open spec fn row(left: Seq<char>, right: Seq<char>) -> Seq<char> {
    left + seq!['\t'] + right
}

proof fn lemma_row(left: Seq<char>, right: Seq<char>)
    requires
        is_cell(left),
        is_cell(right),
        !left.contains('\t'),
        left[0] != '#',
    ensures
        bare_line(row(left, right)) == row(left, right),
        !is_ignored_line(row(left, right)),
        has_tab(row(left, right)),
        first_part(row(left, right)) == left,
        rest_part(row(left, right)) == right,
{
    let line = row(left, right);
    assert(line[0] == left[0]);
    assert(line.last() == right.last());
    lemma_cell_is_trimmed(line);
    lemma_cell_is_trimmed(left);
    lemma_cell_is_trimmed(right);
    assert forall|k: int| 0 <= k < left.len() implies #[trigger] line[k] != '\t' by {
        assert(line[k] == left[k]);
        assert(left.contains(left[k]));
    }
    assert(line[left.len() as int] == '\t');
    lemma_position_of(line, '\t', 0, left.len() as int);
    assert(line.take(left.len() as int) =~= left);
    assert(line.skip(left.len() as int + 1) =~= right);
    assert(line.take(1)[0] == line[0]);
}

/// A turn that is written to a table as a row is read back from it, behind
/// those before it.
pub proof fn lemma_turn_is_read_back(
    lines: Seq<Seq<char>>,
    turns: Seq<(Seq<char>, Seq<char>)>,
    speaker: Seq<char>,
    said: Seq<char>,
)
    requires
        turns_of(lines, lines.len()) == Ok::<Seq<(Seq<char>, Seq<char>)>, TsvFault>(turns),
        is_cell(speaker),
        is_cell(said),
        !speaker.contains('\t'),
        speaker[0] != '#',
    ensures
        turns_of(lines.push(row(speaker, said)), lines.len() + 1) == Ok::<
            Seq<(Seq<char>, Seq<char>)>,
            TsvFault,
        >(turns.push((speaker, said))),
{
    let more = lines.push(row(speaker, said));
    lemma_turns_before(lines, more, lines.len());
    lemma_row(speaker, said);
    assert(more[lines.len() as int] == row(speaker, said));
}

proof fn lemma_turns_before(lines: Seq<Seq<char>>, more: Seq<Seq<char>>, n: nat)
    requires
        n <= lines.len() <= more.len(),
        forall|k: int| 0 <= k < lines.len() ==> #[trigger] lines[k] == more[k],
    ensures
        turns_of(more, n) == turns_of(lines, n),
    decreases n,
{
    if n > 0 {
        lemma_turns_before(lines, more, (n - 1) as nat);
        assert(lines[n - 1] == more[n - 1]);
    }
}

proof fn lemma_fields_before(lines: Seq<Seq<char>>, more: Seq<Seq<char>>, n: nat)
    requires
        n <= lines.len() <= more.len(),
        forall|k: int| 0 <= k < lines.len() ==> #[trigger] lines[k] == more[k],
    ensures
        fields_of(more, n) == fields_of(lines, n),
    decreases n,
{
    if n > 0 {
        lemma_fields_before(lines, more, (n - 1) as nat);
        assert(lines[n - 1] == more[n - 1]);
    }
}

/// A field that is written to a table as a row is read back from it, unless the
/// table has it: then the table is refused.
pub proof fn lemma_field_is_read_back(
    lines: Seq<Seq<char>>,
    fields: Map<Seq<char>, Seq<char>>,
    key: Seq<char>,
    value: Seq<char>,
)
    requires
        fields_of(lines, lines.len()) == Ok::<Map<Seq<char>, Seq<char>>, TsvFault>(fields),
        is_cell(key),
        is_cell(value),
        !key.contains('\t'),
        key[0] != '#',
    ensures
        !fields.contains_key(key) ==> fields_of(lines.push(row(key, value)), lines.len() + 1)
            == Ok::<Map<Seq<char>, Seq<char>>, TsvFault>(fields.insert(key, value)),
        fields.contains_key(key) ==> fields_of(
            lines.push(row(key, value)),
            lines.len() + 1,
        ) is Err,
{
    let more = lines.push(row(key, value));
    lemma_fields_before(lines, more, lines.len());
    lemma_row(key, value);
    assert(more[lines.len() as int] == row(key, value));
}

/// A comment says nothing, and a line without a tab is refused.
pub proof fn lemma_comment_is_skipped(lines: Seq<Seq<char>>, line: Seq<char>)
    requires
        turns_of(lines, lines.len()) is Ok,
        is_cell(line),
        !line.contains('\t'),
    ensures
        line[0] == '#' ==> turns_of(lines.push(line), lines.len() + 1) == turns_of(
            lines,
            lines.len(),
        ),
        line[0] != '#' ==> turns_of(lines.push(line), lines.len() + 1) is Err,
{
    let more = lines.push(line);
    lemma_turns_before(lines, more, lines.len());
    assert(more[lines.len() as int] == line);
    assert(bare_line(line) == line);
    lemma_cell_is_trimmed(line);
    assert(line.take(1)[0] == line[0]);
    if line[0] == '#' {
        assert(line.take(1) =~= seq!['#']);
    }
    assert forall|k: int| 0 <= k < line.len() implies #[trigger] line[k] != '\t' by {
        assert(line.contains(line[k]));
    }
    lemma_position_of(line, '\t', 0, line.len() as int);
}

// ---------------------------------------------------------------------------
// Terms
// ---------------------------------------------------------------------------

proof fn lemma_same_distance(a: Seq<char>, i: nat)
    ensures
        prefix_distance(a, a, i, i) == 0,
    decreases i,
{
    if i > 0 {
        lemma_same_distance(a, (i - 1) as nat);
    }
}

proof fn lemma_same_gap(a: Seq<char>, i: nat, boundary: nat)
    requires
        boundary <= i <= a.len(),
    ensures
        gap_end(a, a, i, i, boundary) == boundary,
        gap_start(a, a, i, i, boundary) == boundary,
    decreases i,
{
    if i > 0 {
        lemma_same_distance(a, i);
        lemma_same_distance(a, (i - 1) as nat);
        if boundary < i {
            lemma_same_gap(a, (i - 1) as nat, boundary);
        }
    }
}

/// In a transcript that says exactly what was said, every term is hit that
/// stands in it.
pub proof fn lemma_right_transcript_hits_all(term: TermText, said: Seq<char>)
    requires
        said.len() < usize::MAX,
    ensures
        term_is_hit(term, said, said) <==> is_located(term, said),
{
    let accepted = accepted_of(term.variants);
    let starts = gap_starts(said, said);
    let ends = gap_ends(said, said);
    if is_located(term, said) {
        let (a, at) = choose|a: int, at: int|
            0 <= a < accepted.len() && accepted[a].len() > 0 && #[trigger] occurs_at(
                said,
                at,
                accepted[a],
            );
        let to = at + accepted[a].len();
        lemma_same_gap(said, said.len(), at as nat);
        lemma_same_gap(said, said.len(), to as nat);
        assert(starts[at] == at);
        assert(ends[to] == to);
        assert(said.subrange(at, to) == accepted[a]);
        assert(accepted.contains(said.subrange(starts[at] as int, ends[to] as int)));
    }
}

/// Every term of a category is hit or listed as missed, never both.
pub proof fn lemma_hit_or_missed(
    terms: Seq<TermText>,
    n: nat,
    category: Seq<char>,
    reference: Seq<char>,
    hypothesis: Seq<char>,
)
    requires
        n <= terms.len(),
    ensures
        category_hits(terms, n, category, reference, hypothesis) + missed_ids(
            terms,
            n,
            category,
            reference,
            hypothesis,
        ).len() == category_total(terms, n, category),
    decreases n,
{
    if n > 0 {
        lemma_hit_or_missed(terms, (n - 1) as nat, category, reference, hypothesis);
    }
}

/// A term that is missed is listed by its id, and what is listed is the id of a
/// term of the category that is missed.
pub proof fn lemma_missed_are_listed(
    terms: Seq<TermText>,
    n: nat,
    category: Seq<char>,
    reference: Seq<char>,
    hypothesis: Seq<char>,
    id: Seq<char>,
)
    requires
        n <= terms.len(),
    ensures
        missed_ids(terms, n, category, reference, hypothesis).contains(id) <==> exists|i: int|
            0 <= i < n && (#[trigger] terms[i]).id == id && terms[i].category == category
                && !term_is_hit(terms[i], reference, hypothesis),
    decreases n,
{
    if n > 0 {
        let before = missed_ids(terms, (n - 1) as nat, category, reference, hypothesis);
        let all = missed_ids(terms, n, category, reference, hypothesis);
        lemma_missed_are_listed(
            terms,
            (n - 1) as nat,
            category,
            reference,
            hypothesis,
            id,
        );
        if before.contains(id) {
            let k = choose|k: int| 0 <= k < before.len() && before[k] == id;
            assert(all[k] == id);
        }
        if all.contains(id) {
            let k = choose|k: int| 0 <= k < all.len() && all[k] == id;
            if k < before.len() {
                assert(before[k] == id);
            } else {
                assert(terms[n - 1].id == id);
            }
        }
        if terms[n - 1].id == id && terms[n - 1].category == category && !term_is_hit(
            terms[n - 1],
            reference,
            hypothesis,
        ) {
            assert(all.last() == id);
        }
    }
}

/// A term counts once, and in its own category alone.
pub proof fn lemma_terms_count_once(terms: Seq<TermText>, n: nat, category: Seq<char>)
    requires
        n <= terms.len(),
    ensures
        category_total(terms, n, category) <= n,
        (forall|i: int| 0 <= i < n ==> (#[trigger] terms[i]).category == category)
            ==> category_total(terms, n, category) == n,
        (forall|i: int| 0 <= i < n ==> (#[trigger] terms[i]).category != category)
            ==> category_total(terms, n, category) == 0,
    decreases n,
{
    if n > 0 {
        lemma_terms_count_once(terms, (n - 1) as nat, category);
    }
}

// ---------------------------------------------------------------------------
// Turns
// ---------------------------------------------------------------------------

/// Two turns with the same words cost nothing; two that differ in more than
/// three fifths of their characters cost more than leaving both out; and
/// others never more than leaving one out.
pub proof fn lemma_cost_of_a_pair(reference: Seq<char>, hypothesis: Seq<char>)
    requires
        reference.len() > 0 || hypothesis.len() > 0,
    ensures
        reference == hypothesis ==> text_pair_cost(reference, hypothesis) == 0,
        ({
            let longer = if reference.len() >= hypothesis.len() {
                reference.len()
            } else {
                hypothesis.len()
            };
            let errors = edit_distance(reference, hypothesis);
            let cost = text_pair_cost(reference, hypothesis);
            &&& 5 * errors > 3 * longer ==> cost > 2_000_000_000_000
            &&& 5 * errors <= 3 * longer ==> cost <= 600_000_000_000 && cost * longer <= errors
                * 1_000_000_000_000 < (cost + 1) * longer
        }),
{
    lemma_edit_distance_zero(reference, hypothesis);
    let longer: int = if reference.len() >= hypothesis.len() {
        reference.len() as int
    } else {
        hypothesis.len() as int
    };
    let errors = edit_distance(reference, hypothesis) as int;
    if 5 * errors <= 3 * longer {
        let scaled = errors * 1_000_000_000_000;
        let cost = scaled / longer;
        assert(cost * longer <= scaled < (cost + 1) * longer && 0 <= cost <= 600_000_000_000)
            by (nonlinear_arith)
            requires
                longer > 0,
                0 <= errors,
                5 * errors <= 3 * longer,
                scaled == errors * 1_000_000_000_000,
                cost == scaled / longer,
        ;
    }
}

/// The pairs of each turn with the turn at its own place.
pub open spec fn in_place(n: nat) -> Seq<(int, int)> {
    Seq::new(n, |k: int| (k, k))
}

/// Where pairing each turn with the turn at its own place costs nothing, this
/// is how the turns are aligned.
pub proof fn lemma_equal_turns_are_paired(costs: Seq<Seq<u128>>, n: nat)
    requires
        forall|k: int| 0 <= k < n ==> #[trigger] costs[k][k] == 0,
    ensures
        turn_alignment_cost(costs, n, n) == 0,
        aligned_pairs(costs, n, n) == in_place(n),
    decreases n,
{
    if n > 0 {
        lemma_equal_turns_are_paired(costs, (n - 1) as nat);
        assert(costs[n - 1][n - 1] == 0);
    }
    assert(aligned_pairs(costs, n, n) =~= in_place(n));
}

proof fn lemma_one_count_more(before: Seq<int>, after: Seq<int>, at: int)
    requires
        before.len() == after.len(),
        0 <= at < before.len(),
        after[at] == before[at] + 1,
        forall|k: int| 0 <= k < before.len() && k != at ==> #[trigger] after[k] == before[k],
    ensures
        sum_of(after) == sum_of(before) + 1,
{
    lemma_sum_remove(before, at);
    lemma_sum_remove(after, at);
    assert(before.remove(at) =~= after.remove(at)) by {
        assert forall|k: int| 0 <= k < before.len() - 1 implies #[trigger] before.remove(at)[k]
            == after.remove(at)[k] by {
            let m = if k < at {
                k
            } else {
                k + 1
            };
            assert(before.remove(at)[k] == before[m]);
            assert(after.remove(at)[k] == after[m]);
        }
    }
}

/// How many of the first `n` turns each of the speakers has.
spec fn own_counts(
    turns: Seq<(Seq<char>, Seq<char>)>,
    n: nat,
    labels: Seq<Seq<char>>,
) -> Seq<int> {
    Seq::new(
        labels.len(),
        |c: int|
            pair_count(in_place(turns.len()), n, turns, turns, labels[c], labels[c]) as int,
    )
}

proof fn lemma_own_counts(
    turns: Seq<(Seq<char>, Seq<char>)>,
    n: nat,
    labels: Seq<Seq<char>>,
)
    requires
        n <= turns.len(),
        labels.no_duplicates(),
        forall|i: int| 0 <= i < turns.len() ==> labels.contains((#[trigger] turns[i]).0),
    ensures
        sum_of(own_counts(turns, n, labels)) == n,
    decreases n,
{
    let after = own_counts(turns, n, labels);
    if n == 0 {
        lemma_nothing_adds_up(after);
    } else {
        lemma_own_counts(turns, (n - 1) as nat, labels);
        let before = own_counts(turns, (n - 1) as nat, labels);
        let label = turns[n - 1].0;
        assert(labels.contains(label));
        let at = choose|c: int| 0 <= c < labels.len() && labels[c] == label;
        assert(in_place(turns.len())[n - 1] == (n - 1, n - 1));
        assert forall|k: int| 0 <= k < before.len() && k != at implies #[trigger] after[k]
            == before[k] by {
            assert(labels[k] != labels[at]);
        }
        lemma_one_count_more(before, after, at);
    }
}

proof fn lemma_nothing_adds_up(list: Seq<int>)
    requires
        forall|k: int| 0 <= k < list.len() ==> #[trigger] list[k] == 0,
    ensures
        sum_of(list) == 0,
    decreases list.len(),
{
    if list.len() > 0 {
        lemma_nothing_adds_up(list.drop_last());
    }
}

/// A transcript that names every speaker and says exactly what was said has
/// every turn right.
pub proof fn lemma_right_transcript_scores_all(
    turns: Seq<(Seq<char>, Seq<char>)>,
    score: SpeakerScore,
)
    requires
        is_speaker_score(turns, turns, score),
        forall|i: int| 0 <= i < turns.len() ==> (#[trigger] turns[i]).0 != "UNKNOWN"@,
        forall|i: int|
            0 <= i < turns.len() ==> normalized_text((#[trigger] turns[i]).1).len() > 0,
    ensures
        score.correct == turns.len(),
        score.aligned_pairs == turns.len(),
        score.denominator == turns.len(),
{
    let n = turns.len();
    let costs = turn_costs(turns, turns);
    assert forall|k: int| 0 <= k < n implies #[trigger] costs[k][k] == 0 by {
        lemma_cost_of_a_pair(normalized_text(turns[k].1), normalized_text(turns[k].1));
    }
    lemma_equal_turns_are_paired(costs, n);
    lemma_score_is_bounded(turns, turns, score);
    let pairs = in_place(n);
    let (expected, predicted, weights) = choose|
        expected: Seq<Seq<char>>,
        predicted: Seq<Seq<char>>,
        weights: Seq<Vec<usize>>,
    |
        {
            &&& #[trigger] is_label_list(expected, turns, false)
            &&& #[trigger] is_label_list(predicted, turns, true)
            &&& #[trigger] counts_pairs(
                weights,
                pairs,
                pairs.len(),
                turns,
                turns,
                expected,
                predicted,
            )
            &&& if expected.len() == 0 || predicted.len() == 0 {
                score.correct == 0
            } else {
                is_maximum_weight(
                    weights,
                    square_size(weights, expected.len()),
                    score.correct as int,
                )
            }
        };
    if n > 0 {
        assert forall|label: Seq<char>| expected.contains(label) == predicted.contains(
            label,
        ) by {
            if is_speaker_of(turns, label) {
                let i = choose|i: int| 0 <= i < turns.len() && (#[trigger] turns[i]).0 == label;
                assert(turns[i].0 != "UNKNOWN"@);
            }
        }
        assert forall|i: int| 0 <= i < n implies expected.contains((#[trigger] turns[i]).0) by {
            assert(is_speaker_of(turns, turns[i].0));
        }
        assert(expected.contains(turns[0].0));
        assert(predicted.contains(turns[0].0));
        let rows = places_in(expected, predicted);
        lemma_places_in(expected, predicted);
        let size = square_size(weights, expected.len());
        assert(size == expected.len());
        assert(is_assignment(rows, size));
        lemma_own_counts(turns, n, expected);
        lemma_weight_is_sum(weights, rows);
        assert(pair_weights(weights, rows) =~= own_counts(turns, n, expected)) by {
            assert forall|c: int| 0 <= c < rows.len() implies #[trigger] pair_weights(
                weights,
                rows,
            )[c] == own_counts(turns, n, expected)[c] by {
                assert(0 <= rows[c] < size);
                assert(weights[rows[c]]@.len() == expected.len());
                assert(weights[rows[c]]@[c] == pair_count(
                    pairs,
                    pairs.len(),
                    turns,
                    turns,
                    expected[c],
                    predicted[rows[c]],
                ));
                assert(predicted[rows[c]] == expected[c]);
            }
        }
        assert(assignment_weight(weights, rows) == n);
    }
}

// ---------------------------------------------------------------------------
// Speakers
// ---------------------------------------------------------------------------

/// A line `S1：text`, with a colon of either width, is a turn of that speaker.
pub proof fn lemma_speaker_is_read(speaker: Seq<char>, colon: char, said: Seq<char>)
    requires
        speaker == "UNKNOWN"@ || (speaker.len() >= 2 && speaker[0] == 'S' && forall|k: int|
            1 <= k < speaker.len() ==> '0' <= #[trigger] speaker[k] <= '9'),
        colon == ':' || colon == '：',
        is_cell(said),
    ensures
        speaker_turn(speaker + seq![colon] + said) == Some((speaker, said)),
{
    let line = speaker + seq![colon] + said;
    let at = speaker.len() as int;
    reveal_strlit("UNKNOWN");
    assert forall|k: int| 0 <= k < at implies #[trigger] line[k] != ':' && line[k] != '：' by {
        assert(line[k] == speaker[k]);
    }
    assert(line[at] == colon);
    lemma_first_place(line, ':', at);
    lemma_first_place(line, '：', at);
    if colon == ':' {
        lemma_position_of(line, ':', 0, at);
    } else {
        lemma_position_of(line, '：', 0, at);
    }
    assert(line.take(at) =~= speaker);
    assert(line.skip(at + 1) =~= said);
    assert(is_cell(speaker));
    lemma_cell_is_trimmed(speaker);
    lemma_cell_is_trimmed(said);
    if speaker != "UNKNOWN"@ {
        assert forall|k: int| 0 <= k < speaker.skip(1).len() implies '0'
            <= #[trigger] speaker.skip(1)[k] <= '9' by {
            assert(speaker.skip(1)[k] == speaker[k + 1]);
        }
    }
    assert(is_hypothesis_speaker(speaker));
}

proof fn lemma_first_place(text: Seq<char>, c: char, bound: int)
    requires
        0 <= bound <= text.len(),
        forall|k: int| 0 <= k < bound ==> #[trigger] text[k] != c,
    ensures
        position_of(text, c, 0) >= bound,
{
    lemma_first_place_from(text, c, 0, bound);
}

proof fn lemma_first_place_from(text: Seq<char>, c: char, from: int, bound: int)
    requires
        0 <= from <= bound <= text.len(),
        forall|k: int| 0 <= k < bound ==> #[trigger] text[k] != c,
    ensures
        position_of(text, c, from) >= bound,
    decreases text.len() - from,
{
    if from < bound {
        lemma_first_place_from(text, c, from + 1, bound);
    } else {
        lemma_place_behind(text, c, from);
    }
}

proof fn lemma_place_behind(text: Seq<char>, c: char, from: int)
    requires
        0 <= from <= text.len(),
    ensures
        position_of(text, c, from) >= from,
    decreases text.len() - from,
{
    if from < text.len() && text[from] != c {
        lemma_place_behind(text, c, from + 1);
    }
}

/// A text in which each listed character has a backslash before it.
pub open spec fn guarded(text: Seq<char>) -> Seq<char>
    decreases text.len(),
{
    if text.len() == 0 {
        Seq::empty()
    } else {
        seq!['\\', text[0]] + guarded(text.skip(1))
    }
}

/// A character that a backslash guards is read as itself, the backslash too.
pub proof fn lemma_guarded_is_read_back(text: Seq<char>)
    ensures
        without_escapes(guarded(text)) == text,
    decreases text.len(),
{
    if text.len() > 0 {
        lemma_guarded_is_read_back(text.skip(1));
        let all = guarded(text);
        assert(all[0] == '\\');
        assert(all[1] == text[0]);
        assert(all.skip(2) =~= guarded(text.skip(1)));
    }
    assert(without_escapes(guarded(text)) =~= text);
}

/// What holds no backslash is read as itself.
pub proof fn lemma_plain_is_read_back(text: Seq<char>)
    requires
        !text.contains('\\'),
    ensures
        without_escapes(text) == text,
    decreases text.len(),
{
    if text.len() > 0 {
        assert(text.contains(text[0]));
        assert forall|c: char| #[trigger] text.skip(1).contains(c) implies text.contains(c) by {
            let k = choose|k: int| 0 <= k < text.skip(1).len() && text.skip(1)[k] == c;
            assert(text[k + 1] == c);
        }
        lemma_plain_is_read_back(text.skip(1));
    }
    assert(without_escapes(text) =~= text);
}

} // verus!
