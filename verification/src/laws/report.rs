//! What a report on a transcript says.
use vstd::prelude::*;
use crate::alignment::{edit_distance, lemma_edit_distance_zero};
use crate::evaluation::{
    category_key, evaluation_fault, front_matter_of, has_term, is_evaluation, is_speaker_score,
    parsed_fields, parsed_terms, parsed_turns, sanitized, squeezed, terms_of, transcript_fields,
    transcript_turns, unquoted, whole_text, with_categories, with_term_metrics,
    with_unavailable_categories, with_unavailable_terms, MetricText, SpeakerScore, TermText,
    TsvFault,
};
use crate::laws::scoring::{is_cell, row};
use crate::normalization::normalized_text;
use crate::text::{
    decimal, is_white_space, lemma_position_of, lower_char, lowercased, parts_of, replaced,
    starts_with, trimmed, trimmed_start, without_leading, without_trailing,
};

verus! {

// ---------------------------------------------------------------------------
// Lines of a report
// ---------------------------------------------------------------------------

proof fn lemma_kept_in_front(
    metrics: Seq<(Seq<char>, MetricText)>,
    terms: Seq<TermText>,
    categories: Seq<Seq<char>>,
    n: nat,
    reference: Seq<char>,
    hypothesis: Seq<char>,
)
    ensures
        metrics.len() <= with_categories(
            metrics,
            terms,
            categories,
            n,
            reference,
            hypothesis,
        ).len(),
        forall|k: int|
            0 <= k < metrics.len() ==> #[trigger] with_categories(
                metrics,
                terms,
                categories,
                n,
                reference,
                hypothesis,
            )[k] == metrics[k],
    decreases n,
{
    if n > 0 {
        lemma_kept_in_front(metrics, terms, categories, (n - 1) as nat, reference, hypothesis);
    }
}

proof fn lemma_missing_kept_in_front(
    metrics: Seq<(Seq<char>, MetricText)>,
    terms: Seq<TermText>,
    categories: Seq<Seq<char>>,
    n: nat,
)
    ensures
        metrics.len() <= with_unavailable_categories(metrics, terms, categories, n).len(),
        forall|k: int|
            0 <= k < metrics.len() ==> #[trigger] with_unavailable_categories(
                metrics,
                terms,
                categories,
                n,
            )[k] == metrics[k],
    decreases n,
{
    if n > 0 {
        lemma_missing_kept_in_front(metrics, terms, categories, (n - 1) as nat);
    }
}

/// A report on a transcript says how many characters differ from what was said
/// and how many were said, how many turns have the right speaker, and of how
/// many; and it repeats which case it is about.
pub proof fn lemma_report_on_transcript(
    metrics: Seq<(Seq<char>, MetricText)>,
    case: Map<Seq<char>, Seq<char>>,
    reference: Seq<(Seq<char>, Seq<char>)>,
    terms: Seq<TermText>,
    run: Map<Seq<char>, Seq<char>>,
    text: Seq<char>,
)
    requires
        is_evaluation(metrics, case, reference, terms, run, Some(text)),
    ensures
        ({
            let said = normalized_text(whole_text(reference));
            let found = normalized_text(whole_text(transcript_turns(text)));
            let errors = edit_distance(said, found);
            &&& metrics.contains(("case_id"@, MetricText::Text(case["case_id"@])))
            &&& metrics.contains(("reference_characters"@, MetricText::Text(decimal(said.len()))))
            &&& metrics.contains(("hypothesis_characters"@, MetricText::Text(decimal(found.len()))))
            &&& metrics.contains(("character_errors"@, MetricText::Text(decimal(errors))))
            &&& metrics.contains(("cer"@, MetricText::Ratio(errors, said.len())))
            &&& said == found ==> errors == 0
            &&& metrics.contains(("reference_turns"@, MetricText::Text(decimal(reference.len()))))
            &&& metrics.contains(
                (
                    "hypothesis_turns"@,
                    MetricText::Text(decimal(transcript_turns(text).len())),
                ),
            )
            &&& run.contains_key("status"@) && run["status"@] != "success"@ ==> metrics.contains(
                ("failed"@, MetricText::Text("true"@)),
            )
            &&& !run.contains_key("status"@) ==> metrics.contains(
                ("failed"@, MetricText::Text("false"@)),
            )
        }),
        exists|score: SpeakerScore| #[trigger]
            is_speaker_score(reference, transcript_turns(text), score) && metrics.contains(
                ("speaker_turn_correct"@, MetricText::Text(decimal(score.correct as nat))),
            ) && (score.denominator > 0 ==> metrics.contains(
                (
                    "speaker_permutation_invariant_turn_accuracy"@,
                    MetricText::Ratio(score.correct as nat, score.denominator as nat),
                ),
            ) && metrics.contains(
                (
                    "speaker_turn_error_rate"@,
                    MetricText::Complement(score.correct as nat, score.denominator as nat),
                ),
            )),
{
    let hypothesis = transcript_turns(text);
    let front = transcript_fields(text);
    let said = normalized_text(whole_text(reference));
    let found = normalized_text(whole_text(hypothesis));
    let errors = edit_distance(said, found);
    lemma_edit_distance_zero(said, found);
    let base = crate::evaluation::header_metrics(case, run, front, true).push(
        ("reference_characters"@, MetricText::Text(decimal(said.len()))),
    ).push(("reference_turns"@, MetricText::Text(decimal(reference.len()))));
    let characters = base.push(
        ("hypothesis_characters"@, MetricText::Text(decimal(found.len()))),
    ).push(("character_errors"@, MetricText::Text(decimal(errors)))).push(
        ("cer"@, MetricText::Ratio(errors, said.len())),
    );
    let (categories, score) = choose|categories: Seq<Seq<char>>, score: SpeakerScore|
        #![trigger crate::evaluation::is_category_list(categories, terms), is_speaker_score(reference, hypothesis, score)]
        {
            &&& crate::evaluation::is_category_list(categories, terms)
            &&& is_speaker_score(reference, hypothesis, score)
            &&& metrics == crate::evaluation::with_speaker_metrics(
                with_term_metrics(
                    characters,
                    terms,
                    categories,
                    crate::normalization::exact_text(whole_text(reference)),
                    crate::normalization::exact_text(whole_text(hypothesis)),
                ),
                hypothesis.len(),
                score,
            )
        };
    let left = crate::normalization::exact_text(whole_text(reference));
    let right = crate::normalization::exact_text(whole_text(hypothesis));
    lemma_kept_in_front(characters, terms, categories, categories.len(), left, right);
    let termed = with_term_metrics(characters, terms, categories, left, right);
    assert forall|k: int| 0 <= k < characters.len() implies metrics.contains(
        #[trigger] characters[k],
    ) by {
        assert(with_categories(characters, terms, categories, categories.len(), left, right)[k]
            == characters[k]);
        assert(termed[k] == characters[k]);
        assert(metrics[k] == characters[k]);
    }
    assert(characters[1] == ("case_id"@, MetricText::Text(case["case_id"@])));
    assert(characters[6].0 == "failed"@);
    assert(characters[17] == ("reference_characters"@, MetricText::Text(decimal(said.len()))));
    assert(characters[18] == ("reference_turns"@, MetricText::Text(decimal(reference.len()))));
    assert(characters[19] == ("hypothesis_characters"@, MetricText::Text(decimal(found.len()))));
    assert(characters[20] == ("character_errors"@, MetricText::Text(decimal(errors))));
    assert(characters[21] == ("cer"@, MetricText::Ratio(errors, said.len())));
    let n = termed.len() as int;
    assert(metrics[n] == ("hypothesis_turns"@, MetricText::Text(decimal(hypothesis.len()))));
    assert(metrics[n + 3] == (
        "speaker_turn_correct"@,
        MetricText::Text(decimal(score.correct as nat)),
    ));
    if score.denominator > 0 {
        assert(metrics[n + 5] == (
            "speaker_permutation_invariant_turn_accuracy"@,
            MetricText::Ratio(score.correct as nat, score.denominator as nat),
        ));
        assert(metrics[n + 6] == (
            "speaker_turn_error_rate"@,
            MetricText::Complement(score.correct as nat, score.denominator as nat),
        ));
    }
    assert(is_speaker_score(reference, hypothesis, score));
}

/// A report on a run that left no transcript claims no number of errors, but
/// says how much was said; without a record the run counts as failed.
pub proof fn lemma_report_on_failure(
    metrics: Seq<(Seq<char>, MetricText)>,
    case: Map<Seq<char>, Seq<char>>,
    reference: Seq<(Seq<char>, Seq<char>)>,
    terms: Seq<TermText>,
    run: Map<Seq<char>, Seq<char>>,
)
    requires
        is_evaluation(metrics, case, reference, terms, run, None),
    ensures
        metrics.contains(("cer"@, MetricText::Text("NA"@))),
        metrics.contains(("character_errors"@, MetricText::Text("NA"@))),
        metrics.contains(("speaker_turn_correct"@, MetricText::Text("NA"@))),
        metrics.contains(("speaker_turn_error_rate"@, MetricText::Text("NA"@))),
        metrics.contains(
            (
                "reference_characters"@,
                MetricText::Text(decimal(normalized_text(whole_text(reference)).len())),
            ),
        ),
        !run.contains_key("status"@) ==> metrics.contains(("failed"@, MetricText::Text("true"@))),
{
    reveal_strlit("success");
    reveal_strlit("failure");
    assert("success"@[0] == 's' && "failure"@[0] == 'f');
    let said = normalized_text(whole_text(reference));
    let base = crate::evaluation::header_metrics(case, run, Map::empty(), false).push(
        ("reference_characters"@, MetricText::Text(decimal(said.len()))),
    ).push(("reference_turns"@, MetricText::Text(decimal(reference.len()))));
    let characters = base.push(("hypothesis_characters"@, MetricText::Text("NA"@))).push(
        ("character_errors"@, MetricText::Text("NA"@)),
    ).push(("cer"@, MetricText::Text("NA"@)));
    let categories = choose|categories: Seq<Seq<char>>| #[trigger]
        crate::evaluation::is_category_list(categories, terms) && metrics
            == with_unavailable_terms(characters, terms, categories).push(
            ("hypothesis_turns"@, MetricText::Text("NA"@)),
        ).push(("speaker_aligned_turn_pairs"@, MetricText::Text("NA"@))).push(
            ("speaker_turn_alignment_max_cer"@, MetricText::Text("0.600000"@)),
        ).push(("speaker_turn_correct"@, MetricText::Text("NA"@))).push(
            ("speaker_turn_denominator"@, MetricText::Text(decimal(reference.len()))),
        ).push(
            ("speaker_permutation_invariant_turn_accuracy"@, MetricText::Text("NA"@)),
        ).push(("speaker_turn_error_rate"@, MetricText::Text("NA"@)));
    lemma_missing_kept_in_front(characters, terms, categories, categories.len());
    let termed = with_unavailable_terms(characters, terms, categories);
    assert forall|k: int| 0 <= k < characters.len() implies metrics.contains(
        #[trigger] characters[k],
    ) by {
        assert(with_unavailable_categories(characters, terms, categories, categories.len())[k]
            == characters[k]);
        assert(termed[k] == characters[k]);
        assert(metrics[k] == characters[k]);
    }
    assert(characters[6].0 == "failed"@);
    assert(characters[17] == ("reference_characters"@, MetricText::Text(decimal(said.len()))));
    assert(characters[20] == ("character_errors"@, MetricText::Text("NA"@)));
    assert(characters[21] == ("cer"@, MetricText::Text("NA"@)));
    let n = termed.len() as int;
    assert(metrics[n + 3] == ("speaker_turn_correct"@, MetricText::Text("NA"@)));
    assert(metrics[n + 6] == ("speaker_turn_error_rate"@, MetricText::Text("NA"@)));
}

/// A case is evaluated only where it names itself and its language, the
/// language is Chinese, the texts are in the composed form, somebody said
/// something, and a run that claims success left a transcript.
pub proof fn lemma_case_evaluated(
    case_content: Seq<char>,
    turns_content: Seq<char>,
    terms_content: Seq<char>,
    run_content: Option<Seq<char>>,
    transcript: Option<Seq<char>>,
)
    requires
        evaluation_fault(case_content, turns_content, terms_content, run_content, transcript)
            is None,
    ensures
        match parsed_fields(case_content) {
            Ok(case) => case.contains_key("case_id"@) && case.contains_key("language"@)
                && starts_with(case["language"@], "zh-"@) && case.contains_key(
                "unicode_normalization"@,
            ) && case["unicode_normalization"@] == "NFC"@,
            Err(_) => false,
        },
        match parsed_turns(turns_content) {
            Ok(reference) => reference.len() > 0 && normalized_text(whole_text(reference)).len()
                > 0,
            Err(_) => false,
        },
        parsed_terms(terms_content) is Ok,
        transcript is None ==> run_content is None || match parsed_fields(run_content->0) {
            Ok(run) => run.contains_key("status"@) ==> run["status"@] != "success"@,
            Err(_) => false,
        },
{
}

// ---------------------------------------------------------------------------
// Terms
// ---------------------------------------------------------------------------

proof fn lemma_terms_before(lines: Seq<Seq<char>>, more: Seq<Seq<char>>, n: nat)
    requires
        n <= lines.len() <= more.len(),
        forall|k: int| 0 <= k < lines.len() ==> #[trigger] lines[k] == more[k],
    ensures
        terms_of(more, n) == terms_of(lines, n),
    decreases n,
{
    if n > 0 {
        lemma_terms_before(lines, more, (n - 1) as nat);
        assert(lines[n - 1] == more[n - 1]);
    }
}

/// A term that is written to a table with two ways of writing is read back with
/// both, unless the table has it.
pub proof fn lemma_term_is_read_back(
    lines: Seq<Seq<char>>,
    terms: Seq<TermText>,
    category: Seq<char>,
    id: Seq<char>,
    first: Seq<char>,
    second: Seq<char>,
)
    requires
        terms_of(lines, lines.len()) == Ok::<Seq<TermText>, TsvFault>(terms),
        is_cell(category) && is_cell(id) && is_cell(first) && is_cell(second),
        !category.contains('\t') && !id.contains('\t') && !first.contains('\t')
            && !second.contains('\t'),
        !first.contains('|') && !second.contains('|'),
        category[0] != '#',
    ensures
        ({
            let line = row(category, row(id, first + seq!['|'] + second));
            let term = TermText { category, id, variants: seq![first, second] };
            &&& !has_term(terms, term) ==> terms_of(lines.push(line), lines.len() + 1) == Ok::<
                Seq<TermText>,
                TsvFault,
            >(terms.push(term))
            &&& has_term(terms, term) ==> terms_of(lines.push(line), lines.len() + 1) is Err
        }),
{
    let ways = first + seq!['|'] + second;
    let rest = row(id, ways);
    let line = row(category, rest);
    let more = lines.push(line);
    let a = category.len() as int;
    let b = a + 1 + id.len();
    lemma_terms_before(lines, more, lines.len());
    assert(more[lines.len() as int] == line);
    assert(line[0] == category[0]);
    assert(line.last() == second.last());
    assert(trimmed(line) == line && trimmed_start(line) == line);
    assert(line.take(1)[0] == line[0]);
    assert forall|k: int| 0 <= k < a implies #[trigger] line[k] != '\t' by {
        assert(line[k] == category[k]);
        assert(category.contains(category[k]));
    }
    assert(line[a] == '\t');
    lemma_position_of(line, '\t', 0, a);
    assert forall|k: int| a + 1 <= k < b implies #[trigger] line[k] != '\t' by {
        assert(line[k] == id[k - a - 1]);
        assert(id.contains(id[k - a - 1]));
    }
    assert(line[b] == '\t');
    lemma_position_of(line, '\t', a + 1, b);
    assert(line.take(a) =~= category);
    assert(line.subrange(a + 1, b) =~= id);
    assert(line.skip(b + 1) =~= ways);
    assert forall|k: int| 0 <= k < first.len() implies #[trigger] ways[k] != '|' by {
        assert(ways[k] == first[k]);
        assert(first.contains(first[k]));
    }
    assert(ways[first.len() as int] == '|');
    lemma_position_of(ways, '|', 0, first.len() as int);
    assert(ways.take(first.len() as int) =~= first);
    assert(ways.skip(first.len() as int + 1) =~= second);
    assert forall|k: int| 0 <= k < second.len() implies #[trigger] second[k] != '|' by {
        assert(second.contains(second[k]));
    }
    lemma_position_of(second, '|', 0, second.len() as int);
    assert(parts_of(second, '|') =~= seq![second]);
    assert(parts_of(ways, '|') =~= seq![first, second]);
    let parts = seq![first, second];
    assert(parts.drop_last() =~= seq![first]);
    assert(seq![first].drop_last() =~= Seq::<Seq<char>>::empty());
    assert(trimmed(first) == first && trimmed(second) == second);
    assert(seq![first].last() == first && parts.last() == second);
    assert(crate::evaluation::filled_parts(Seq::<Seq<char>>::empty()) =~= Seq::empty());
    assert(crate::evaluation::filled_parts(seq![first]) =~= seq![first]);
    assert(crate::evaluation::filled_parts(parts) =~= parts);
    assert(crate::evaluation::term_of(line) == TermText { category, id, variants: parts });
}

// ---------------------------------------------------------------------------
// Front matter
// ---------------------------------------------------------------------------

proof fn lemma_nothing_replaced(text: Seq<char>, from: Seq<char>, to: Seq<char>)
    requires
        from.len() > 0,
        !text.contains(from[0]),
    ensures
        replaced(text, from, to) == text,
    decreases text.len(),
{
    if text.len() > 0 {
        assert(text.contains(text[0]));
        if starts_with(text, from) {
            assert(text.take(from.len() as int)[0] == from[0]);
        }
        let rest = text.drop_first();
        assert forall|c: char| #[trigger] rest.contains(c) implies text.contains(c) by {
            let k = choose|k: int| 0 <= k < rest.len() && rest[k] == c;
            assert(text[k + 1] == c);
        }
        lemma_nothing_replaced(rest, from, to);
        assert(seq![text[0]] + rest =~= text);
    }
}

/// A value in quotes is read without them; one without is read as it is.
pub proof fn lemma_quotes_are_taken_off(value: Seq<char>)
    requires
        !value.contains('\\'),
    ensures
        unquoted(seq!['"'] + value + seq!['"']) == value,
        value.len() > 0 && value[0] != '"' ==> unquoted(value) == value,
{
    let quoted = seq!['"'] + value + seq!['"'];
    assert(quoted.subrange(1, quoted.len() - 1) =~= value);
    lemma_nothing_replaced(value, seq!['\\', '"'], seq!['"']);
    lemma_nothing_replaced(value, seq!['\\', '\\'], seq!['\\']);
}

/// A line `name: value` of a front matter sets its field, and a later line of
/// the same name sets it anew.
pub proof fn lemma_front_matter(
    lines: Seq<Seq<char>>,
    from: int,
    to: int,
    name: Seq<char>,
    value: Seq<char>,
)
    requires
        0 <= from < to <= lines.len(),
        is_cell(name),
        is_cell(value),
        !name.contains(':'),
        lines[to - 1] == name + seq![':', ' '] + value,
    ensures
        front_matter_of(lines, from, to) == front_matter_of(lines, from, to - 1).insert(
            name,
            unquoted(value),
        ),
{
    let line = lines[to - 1];
    let at = name.len() as int;
    assert forall|k: int| 0 <= k < at implies #[trigger] line[k] != ':' by {
        assert(line[k] == name[k]);
        assert(name.contains(name[k]));
    }
    assert(line[at] == ':');
    lemma_position_of(line, ':', 0, at);
    assert(line.take(at) =~= name);
    let rest = line.skip(at + 1);
    assert(rest =~= seq![' '] + value);
    assert(rest.drop_first() =~= value);
    assert(is_white_space(rest[0]));
    assert(trimmed_start(rest) == trimmed_start(value));
    assert(trimmed(value) == value);
    assert(trimmed(name) == name);
}

// ---------------------------------------------------------------------------
// Names
// ---------------------------------------------------------------------------

/// The characters of the name of a category.
pub open spec fn may_name_category(c: char) -> bool {
    ('a' <= c <= 'z') || ('0' <= c <= '9') || c == '_'
}

proof fn lemma_squeezed(category: Seq<char>)
    ensures
        forall|k: int|
            0 <= k < squeezed(category).len() ==> may_name_category(
                #[trigger] squeezed(category)[k],
            ),
        (forall|k: int|
            0 <= k < category.len() ==> ('a' <= #[trigger] category[k] <= 'z') || ('A'
                <= category[k] <= 'Z') || ('0' <= category[k] <= '9')) ==> squeezed(category)
            == lowercased(category),
    decreases category.len(),
{
    if category.len() > 0 {
        let shorter = category.drop_last();
        lemma_squeezed(shorter);
        assert forall|k: int| 0 <= k < squeezed(category).len() implies may_name_category(
            #[trigger] squeezed(category)[k],
        ) by {
            if k < squeezed(shorter).len() {
                assert(squeezed(category)[k] == squeezed(shorter)[k]);
            }
        }
        if forall|k: int|
            0 <= k < category.len() ==> ('a' <= #[trigger] category[k] <= 'z') || ('A'
                <= category[k] <= 'Z') || ('0' <= category[k] <= '9') {
            assert forall|k: int| 0 <= k < shorter.len() implies ('a' <= #[trigger] shorter[k]
                <= 'z') || ('A' <= shorter[k] <= 'Z') || ('0' <= shorter[k] <= '9') by {
                assert(shorter[k] == category[k]);
            }
            let c = category[category.len() - 1];
            assert(('a' <= c <= 'z') || ('A' <= c <= 'Z') || ('0' <= c <= '9'));
            assert(squeezed(category) =~= lowercased(category));
        }
    } else {
        assert(squeezed(category) =~= lowercased(category));
    }
}

proof fn lemma_stripped(text: Seq<char>)
    ensures
        without_leading(text, '_').len() <= text.len(),
        forall|k: int|
            0 <= k < without_leading(text, '_').len() ==> text.contains(
                #[trigger] without_leading(text, '_')[k],
            ),
        without_leading(text, '_').len() > 0 ==> without_leading(text, '_')[0] != '_',
        text.len() > 0 && text[0] != '_' ==> without_leading(text, '_') == text,
    decreases text.len(),
{
    if text.len() > 0 && text[0] == '_' {
        lemma_stripped(text.drop_first());
        assert forall|k: int| 0 <= k < without_leading(text, '_').len() implies text.contains(
            #[trigger] without_leading(text, '_')[k],
        ) by {
            let c = without_leading(text.drop_first(), '_')[k];
            assert(text.drop_first().contains(c));
            let j = choose|j: int| 0 <= j < text.drop_first().len() && text.drop_first()[j] == c;
            assert(text[j + 1] == c);
        }
    }
}

proof fn lemma_stripped_end(text: Seq<char>)
    ensures
        forall|k: int|
            0 <= k < without_trailing(text, '_').len() ==> text.contains(
                #[trigger] without_trailing(text, '_')[k],
            ),
        without_trailing(text, '_').len() > 0 ==> without_trailing(text, '_').last() != '_',
        text.len() > 0 && text.last() != '_' ==> without_trailing(text, '_') == text,
    decreases text.len(),
{
    if text.len() > 0 && text.last() == '_' {
        lemma_stripped_end(text.drop_last());
        assert forall|k: int| 0 <= k < without_trailing(text, '_').len() implies text.contains(
            #[trigger] without_trailing(text, '_')[k],
        ) by {
            let c = without_trailing(text.drop_last(), '_')[k];
            assert(text.drop_last().contains(c));
            let j = choose|j: int| 0 <= j < text.drop_last().len() && text.drop_last()[j] == c;
            assert(text[j] == c);
        }
    }
}

/// A category is named by small letters, digits and underscores alone, and one
/// of letters and digits by them in small.
pub proof fn lemma_category_names(category: Seq<char>, k: int)
    ensures
        0 <= k < category_key(category).len() ==> may_name_category(category_key(category)[k]),
        category_key(category).len() > 0 ==> category_key(category).last() != '_',
        category.len() > 0 && (forall|i: int|
            0 <= i < category.len() ==> ('a' <= #[trigger] category[i] <= 'z') || ('A'
                <= category[i] <= 'Z') || ('0' <= category[i] <= '9')) ==> category_key(category)
            == lowercased(category),
{
    let all = squeezed(category);
    let rest = without_leading(all, '_');
    lemma_squeezed(category);
    lemma_stripped(all);
    lemma_stripped_end(rest);
    if 0 <= k < category_key(category).len() {
        let c = category_key(category)[k];
        assert(rest.contains(c));
        let j = choose|j: int| 0 <= j < rest.len() && rest[j] == c;
        assert(all.contains(rest[j]));
        let i = choose|i: int| 0 <= i < all.len() && all[i] == c;
        assert(may_name_category(all[i]));
    }
    if category.len() > 0 && (forall|i: int|
        0 <= i < category.len() ==> ('a' <= #[trigger] category[i] <= 'z') || ('A' <= category[i]
            <= 'Z') || ('0' <= category[i] <= '9')) {
        assert(all == lowercased(category));
        assert(all[0] == lower_char(category[0]));
        assert(all.last() == lower_char(category[category.len() - 1]));
    }
}

/// A cell of a report holds its text with spaces for tabs and breaks, and
/// nothing else is changed.
pub proof fn lemma_cells_stay_cells(text: Seq<char>, k: int)
    ensures
        sanitized(text).len() == text.len(),
        0 <= k < text.len() ==> sanitized(text)[k] != '\t' && sanitized(text)[k] != '\n'
            && sanitized(text)[k] != '\r',
        0 <= k < text.len() && text[k] != '\t' && text[k] != '\n' && text[k] != '\r'
            ==> sanitized(text)[k] == text[k],
        0 <= k < text.len() && sanitized(text)[k] != text[k] ==> sanitized(text)[k] == ' ',
{
}

} // verus!
