//! Evaluation of a transcript against a reference: the files of a case, the
//! transcript that is judged, and the metrics of the report.
use crate::alignment::{
    align_by_costs, aligned_pairs, character_alignment_gaps, cost_table, edit_distance,
    find_occurrences, gap_ends, gap_starts, lemma_aligned_pairs, levenshtein, pair_cost,
    text_pair_cost, UNRELATED_TURN_COST,
};
use crate::assignment::{
    is_maximum_weight, maximum_one_to_one_weight, square_size, weights_fit,
};
use crate::normalization::{
    exact_text, is_declared_nfc, nfc_of, normalize_exact_text, normalize_text, normalized_text,
};
use crate::ordered::{holds, in_order, insert_in_order, text_before, FieldMap};
use crate::renaming::lemma_score_is_bounded;
use crate::text::{
    all_digits, ascii_alphanumeric, ascii_digit, chars_in_range, chars_of, contains_chars,
    decimal, decimal_string, find_char, is_ascii_alphanumeric_char, join, joined, lines_of,
    lower_char, occurs_at, parts_of, position_of, replace, replaced, same_chars, same_text,
    split_lines, split_parts, starts_with, starts_with_str, string_of_range, strip_leading,
    strip_trailing, texts, to_lower, trim, trim_range, trimmed, trimmed_start, without_leading,
    without_trailing,
};
use vstd::prelude::*;

verus! {

// ---------------------------------------------------------------------------
// Lines of tab-separated files
// ---------------------------------------------------------------------------

/// What is wrong with the given line, counted from one.
#[derive(Clone, Copy, Debug, PartialEq, Eq, Structural)]
pub enum TsvFault {
    MissingTab(usize),
    EmptyPart(usize),
    Duplicate(usize),
}

/// A line that holds nothing: blank, or a comment.
pub open spec fn is_ignored_line(line: Seq<char>) -> bool {
    trimmed(line).len() == 0 || starts_with(trimmed_start(line), seq!['#'])
}

/// A line without the carriage returns at its end.
pub open spec fn bare_line(line: Seq<char>) -> Seq<char> {
    without_trailing(line, '\r')
}

/// What stands before the first tab, trimmed.
pub open spec fn first_part(line: Seq<char>) -> Seq<char> {
    trimmed(line.take(position_of(line, '\t', 0)))
}

/// What stands after the first tab, trimmed.
pub open spec fn rest_part(line: Seq<char>) -> Seq<char> {
    trimmed(line.skip(position_of(line, '\t', 0) + 1))
}

pub open spec fn has_tab(line: Seq<char>) -> bool {
    position_of(line, '\t', 0) < line.len()
}

fn line_is_ignored(line: &str) -> (result: bool)
    ensures
        result == is_ignored_line(line@),
{
    let chars = chars_of(line);
    let range = trim_range(chars.as_slice(), 0, chars.len());
    assert(chars@.subrange(0, chars@.len() as int) == line@);
    proof {
        let start = trimmed_start(line@);
        assert(start == chars@.subrange(range.0 as int, chars@.len() as int));
        assert(trimmed(line@).len() == range.1 - range.0);
        if range.0 < range.1 {
            assert(start[0] == chars@[range.0 as int]);
            assert(start.subrange(0, 1) =~= seq![start[0]]);
            if start[0] == '#' {
                assert(start.subrange(0, 1) =~= seq!['#']);
            }
            if start.subrange(0, 1) == seq!['#'] {
                assert(start.subrange(0, 1)[0] == '#');
            }
        }
    }
    range.0 == range.1 || chars[range.0] == '#'
}

/// The two trimmed parts of a line around its first tab.
fn split_at_tab(line: &str) -> (parts: Option<(String, String)>)
    ensures
        match parts {
            Some(pair) => has_tab(line@) && pair.0@ == first_part(line@) && pair.1@ == rest_part(
                line@,
            ),
            None => !has_tab(line@),
        },
{
    let chars = chars_of(line);
    let tab: usize = find_char(chars.as_slice(), '\t', 0);
    if tab >= chars.len() {
        return None;
    }
    let left = trim_range(chars.as_slice(), 0, tab);
    let right = trim_range(chars.as_slice(), tab + 1, chars.len());
    assert(chars@.subrange(0, tab as int) == line@.take(tab as int));
    assert(chars@.subrange(tab + 1, chars@.len() as int) == line@.skip(tab + 1));
    Some(
        (
            string_of_range(chars.as_slice(), left.0, left.1),
            string_of_range(chars.as_slice(), right.0, right.1),
        ),
    )
}

// ---------------------------------------------------------------------------
// Fields
// ---------------------------------------------------------------------------

/// What the first `n` lines say: the fields, or the first fault.
pub open spec fn fields_of(lines: Seq<Seq<char>>, n: nat) -> Result<
    Map<Seq<char>, Seq<char>>,
    TsvFault,
>
    decreases n,
{
    if n == 0 {
        Ok(Map::empty())
    } else {
        match fields_of(lines, (n - 1) as nat) {
            Err(fault) => Err(fault),
            Ok(fields) => {
                let line = bare_line(lines[n - 1]);
                if is_ignored_line(line) {
                    Ok(fields)
                } else if !has_tab(line) {
                    Err(TsvFault::MissingTab(n as usize))
                } else if first_part(line).len() == 0 || rest_part(line).len() == 0 {
                    Err(TsvFault::EmptyPart(n as usize))
                } else if fields.contains_key(first_part(line)) {
                    Err(TsvFault::Duplicate(n as usize))
                } else {
                    Ok(fields.insert(first_part(line), rest_part(line)))
                }
            },
        }
    }
}

proof fn lemma_fields_fault(lines: Seq<Seq<char>>, n: nat, all: nat)
    requires
        n <= all,
        fields_of(lines, n) is Err,
    ensures
        fields_of(lines, all) == fields_of(lines, n),
    decreases all - n,
{
    if n < all {
        lemma_fields_fault(lines, n, (all - 1) as nat);
    }
}

/// The fields that a file of lines `key<TAB>value` holds.
pub open spec fn parsed_fields(content: Seq<char>) -> Result<
    Map<Seq<char>, Seq<char>>,
    TsvFault,
> {
    fields_of(lines_of(content), lines_of(content).len())
}

/// Reads a file of lines `key<TAB>value`.
pub fn parse_key_value_tsv(content: &str) -> (result: Result<FieldMap, TsvFault>)
    ensures
        match result {
            Ok(fields) => fields.well_formed() && parsed_fields(content@) == Ok::<
                Map<Seq<char>, Seq<char>>,
                TsvFault,
            >(fields@),
            Err(fault) => parsed_fields(content@) == Err::<Map<Seq<char>, Seq<char>>, TsvFault>(
                fault,
            ),
        },
{
    let lines = split_lines(content);
    let ghost all = lines_of(content@);
    let mut fields = FieldMap::new();
    let mut i: usize = 0;
    while i < lines.len()
        invariant
            i <= lines@.len(),
            texts(lines@) == all,
            all == lines_of(content@),
            fields.well_formed(),
            fields_of(all, i as nat) == Ok::<Map<Seq<char>, Seq<char>>, TsvFault>(fields@),
        decreases lines@.len() - i,
    {
        assert(all[i as int] == lines@[i as int]@);
        let line = strip_trailing(lines[i].as_str(), '\r');
        if !line_is_ignored(line.as_str()) {
            match split_at_tab(line.as_str()) {
                None => {
                    proof {
                        lemma_fields_fault(all, (i + 1) as nat, all.len());
                    }
                    return Err(TsvFault::MissingTab(i + 1));
                },
                Some(pair) => {
                    if pair.0.as_str().is_empty() || pair.1.as_str().is_empty() {
                        proof {
                            lemma_fields_fault(all, (i + 1) as nat, all.len());
                        }
                        return Err(TsvFault::EmptyPart(i + 1));
                    }
                    if fields.insert(pair.0.as_str(), pair.1.as_str()) {
                        proof {
                            lemma_fields_fault(all, (i + 1) as nat, all.len());
                        }
                        return Err(TsvFault::Duplicate(i + 1));
                    }
                },
            }
        }
        i += 1;
    }
    Ok(fields)
}

// ---------------------------------------------------------------------------
// Turns
// ---------------------------------------------------------------------------

/// What one speaker says without a break.
#[derive(Clone, Debug, PartialEq, Eq)]
pub struct Turn {
    pub speaker: String,
    pub text: String,
}

/// The turns by their two texts, the speaker and what is said.
pub open spec fn turn_texts(turns: Seq<Turn>) -> Seq<(Seq<char>, Seq<char>)> {
    Seq::new(turns.len(), |i: int| (turns[i].speaker@, turns[i].text@))
}

/// What the first `n` lines say: the turns, or the first fault.
pub open spec fn turns_of(lines: Seq<Seq<char>>, n: nat) -> Result<
    Seq<(Seq<char>, Seq<char>)>,
    TsvFault,
>
    decreases n,
{
    if n == 0 {
        Ok(Seq::empty())
    } else {
        match turns_of(lines, (n - 1) as nat) {
            Err(fault) => Err(fault),
            Ok(turns) => {
                let line = bare_line(lines[n - 1]);
                if is_ignored_line(line) {
                    Ok(turns)
                } else if !has_tab(line) {
                    Err(TsvFault::MissingTab(n as usize))
                } else if first_part(line).len() == 0 || rest_part(line).len() == 0 {
                    Err(TsvFault::EmptyPart(n as usize))
                } else {
                    Ok(turns.push((first_part(line), rest_part(line))))
                }
            },
        }
    }
}

proof fn lemma_turns_fault(lines: Seq<Seq<char>>, n: nat, all: nat)
    requires
        n <= all,
        turns_of(lines, n) is Err,
    ensures
        turns_of(lines, all) == turns_of(lines, n),
    decreases all - n,
{
    if n < all {
        lemma_turns_fault(lines, n, (all - 1) as nat);
    }
}

/// The turns that a file of lines `speaker<TAB>text` holds.
pub open spec fn parsed_turns(content: Seq<char>) -> Result<
    Seq<(Seq<char>, Seq<char>)>,
    TsvFault,
> {
    turns_of(lines_of(content), lines_of(content).len())
}

/// Reads a file of lines `speaker<TAB>text`.
pub fn parse_turns(content: &str) -> (result: Result<Vec<Turn>, TsvFault>)
    ensures
        match result {
            Ok(turns) => parsed_turns(content@) == Ok::<Seq<(Seq<char>, Seq<char>)>, TsvFault>(
                turn_texts(turns@),
            ),
            Err(fault) => parsed_turns(content@) == Err::<Seq<(Seq<char>, Seq<char>)>, TsvFault>(
                fault,
            ),
        },
{
    let lines = split_lines(content);
    let ghost all = lines_of(content@);
    let mut turns: Vec<Turn> = Vec::new();
    let mut i: usize = 0;
    assert(turn_texts(turns@) =~= Seq::<(Seq<char>, Seq<char>)>::empty());
    while i < lines.len()
        invariant
            i <= lines@.len(),
            texts(lines@) == all,
            all == lines_of(content@),
            turns_of(all, i as nat) == Ok::<Seq<(Seq<char>, Seq<char>)>, TsvFault>(
                turn_texts(turns@),
            ),
        decreases lines@.len() - i,
    {
        assert(all[i as int] == lines@[i as int]@);
        let line = strip_trailing(lines[i].as_str(), '\r');
        if !line_is_ignored(line.as_str()) {
            match split_at_tab(line.as_str()) {
                None => {
                    proof {
                        lemma_turns_fault(all, (i + 1) as nat, all.len());
                    }
                    return Err(TsvFault::MissingTab(i + 1));
                },
                Some(pair) => {
                    if pair.0.as_str().is_empty() || pair.1.as_str().is_empty() {
                        proof {
                            lemma_turns_fault(all, (i + 1) as nat, all.len());
                        }
                        return Err(TsvFault::EmptyPart(i + 1));
                    }
                    let ghost before = turn_texts(turns@);
                    let turn = Turn { speaker: pair.0, text: pair.1 };
                    turns.push(turn);
                    assert(turn_texts(turns@) =~= before.push(
                        (first_part(line@), rest_part(line@)),
                    ));
                },
            }
        }
        i += 1;
    }
    Ok(turns)
}

// ---------------------------------------------------------------------------
// Terms
// ---------------------------------------------------------------------------

/// A fact that a transcript must hold, in one of the given ways of writing.
#[derive(Clone, Debug)]
pub struct ExpectedTerm {
    pub category: String,
    pub id: String,
    pub variants: Vec<String>,
}

/// A term by its texts.
pub struct TermText {
    pub category: Seq<char>,
    pub id: Seq<char>,
    pub variants: Seq<Seq<char>>,
}

impl ExpectedTerm {
    pub open spec fn texts(&self) -> TermText {
        TermText { category: self.category@, id: self.id@, variants: texts(self.variants@) }
    }
}

pub open spec fn term_texts(terms: Seq<ExpectedTerm>) -> Seq<TermText> {
    Seq::new(terms.len(), |i: int| terms[i].texts())
}

/// The parts that are not blank, trimmed.
pub open spec fn filled_parts(parts: Seq<Seq<char>>) -> Seq<Seq<char>>
    decreases parts.len(),
{
    if parts.len() == 0 {
        Seq::empty()
    } else {
        let before = filled_parts(parts.drop_last());
        let part = trimmed(parts.last());
        if part.len() > 0 {
            before.push(part)
        } else {
            before
        }
    }
}

/// The position of the second tab, or the length of the line.
pub open spec fn second_tab(line: Seq<char>) -> int {
    position_of(line, '\t', position_of(line, '\t', 0) + 1)
}

/// The term that a line with two tabs writes.
pub open spec fn term_of(line: Seq<char>) -> TermText {
    TermText {
        category: first_part(line),
        id: trimmed(line.subrange(position_of(line, '\t', 0) + 1, second_tab(line))),
        variants: filled_parts(parts_of(line.skip(second_tab(line) + 1), '|')),
    }
}

pub open spec fn has_term(terms: Seq<TermText>, term: TermText) -> bool {
    exists|i: int|
        0 <= i < terms.len() && (#[trigger] terms[i]).category == term.category && terms[i].id
            == term.id
}

/// What the first `n` lines say: the terms, or the first fault.
pub open spec fn terms_of(lines: Seq<Seq<char>>, n: nat) -> Result<Seq<TermText>, TsvFault>
    decreases n,
{
    if n == 0 {
        Ok(Seq::empty())
    } else {
        match terms_of(lines, (n - 1) as nat) {
            Err(fault) => Err(fault),
            Ok(terms) => {
                let line = bare_line(lines[n - 1]);
                let term = term_of(line);
                if is_ignored_line(line) {
                    Ok(terms)
                } else if !has_tab(line) || second_tab(line) >= line.len() {
                    Err(TsvFault::MissingTab(n as usize))
                } else if term.category.len() == 0 || term.id.len() == 0 || term.variants.len()
                    == 0 {
                    Err(TsvFault::EmptyPart(n as usize))
                } else if has_term(terms, term) {
                    Err(TsvFault::Duplicate(n as usize))
                } else {
                    Ok(terms.push(term))
                }
            },
        }
    }
}

proof fn lemma_terms_fault(lines: Seq<Seq<char>>, n: nat, all: nat)
    requires
        n <= all,
        terms_of(lines, n) is Err,
    ensures
        terms_of(lines, all) == terms_of(lines, n),
    decreases all - n,
{
    if n < all {
        lemma_terms_fault(lines, n, (all - 1) as nat);
    }
}

/// The terms that a file of lines `category<TAB>id<TAB>variant|variant` holds.
pub open spec fn parsed_terms(content: Seq<char>) -> Result<Seq<TermText>, TsvFault> {
    terms_of(lines_of(content), lines_of(content).len())
}

/// The variants that a list with the separator `|` holds.
fn parse_variants(list: &str) -> (variants: Vec<String>)
    ensures
        texts(variants@) == filled_parts(parts_of(list@, '|')),
{
    let parts = split_parts(list, '|');
    let mut variants: Vec<String> = Vec::new();
    let mut i: usize = 0;
    assert(texts(variants@) =~= filled_parts(texts(parts@).take(0)));
    while i < parts.len()
        invariant
            i <= parts@.len(),
            texts(variants@) == filled_parts(texts(parts@).take(i as int)),
        decreases parts@.len() - i,
    {
        let part = trim(parts[i].as_str());
        proof {
            assert(texts(parts@).take(i + 1).drop_last() == texts(parts@).take(i as int));
            assert(texts(parts@).take(i + 1).last() == parts@[i as int]@);
        }
        let ghost before = texts(variants@);
        if !part.as_str().is_empty() {
            variants.push(part);
            assert(texts(variants@) =~= before.push(part@));
        }
        i += 1;
    }
    assert(texts(parts@).take(i as int) == texts(parts@));
    variants
}

/// Whether a term with the same category and id is among the terms.
fn term_is_known(terms: &Vec<ExpectedTerm>, category: &str, id: &str) -> (result: bool)
    ensures
        result == exists|i: int|
            0 <= i < terms@.len() && (#[trigger] terms@[i]).category@ == category@
                && terms@[i].id@ == id@,
{
    let mut i: usize = 0;
    while i < terms.len()
        invariant
            i <= terms@.len(),
            forall|k: int|
                0 <= k < i ==> !((#[trigger] terms@[k]).category@ == category@ && terms@[k].id@
                    == id@),
        decreases terms@.len() - i,
    {
        if same_text(terms[i].category.as_str(), category) && same_text(terms[i].id.as_str(), id) {
            return true;
        }
        i += 1;
    }
    false
}

/// Reads a file of lines `category<TAB>id<TAB>variant|variant`.
pub fn parse_terms(content: &str) -> (result: Result<Vec<ExpectedTerm>, TsvFault>)
    ensures
        match result {
            Ok(terms) => parsed_terms(content@) == Ok::<Seq<TermText>, TsvFault>(
                term_texts(terms@),
            ),
            Err(fault) => parsed_terms(content@) == Err::<Seq<TermText>, TsvFault>(fault),
        },
{
    let lines = split_lines(content);
    let ghost all = lines_of(content@);
    let mut terms: Vec<ExpectedTerm> = Vec::new();
    let mut i: usize = 0;
    assert(term_texts(terms@) =~= Seq::<TermText>::empty());
    while i < lines.len()
        invariant
            i <= lines@.len(),
            texts(lines@) == all,
            all == lines_of(content@),
            terms_of(all, i as nat) == Ok::<Seq<TermText>, TsvFault>(term_texts(terms@)),
        decreases lines@.len() - i,
    {
        assert(all[i as int] == lines@[i as int]@);
        let line = strip_trailing(lines[i].as_str(), '\r');
        if !line_is_ignored(line.as_str()) {
            let chars = chars_of(line.as_str());
            let first: usize = find_char(chars.as_slice(), '\t', 0);
            let second: usize = if first < chars.len() {
                find_char(chars.as_slice(), '\t', first + 1)
            } else {
                chars.len()
            };
            if second >= chars.len() {
                proof {
                    lemma_terms_fault(all, (i + 1) as nat, all.len());
                }
                return Err(TsvFault::MissingTab(i + 1));
            }
            let head = trim_range(chars.as_slice(), 0, first);
            let middle = trim_range(chars.as_slice(), first + 1, second);
            let category = string_of_range(chars.as_slice(), head.0, head.1);
            let id = string_of_range(chars.as_slice(), middle.0, middle.1);
            let tail = string_of_range(chars.as_slice(), second + 1, chars.len());
            proof {
                assert(chars@.subrange(0, first as int) == line@.take(first as int));
                assert(tail@ == line@.skip(second + 1));
            }
            let variants = parse_variants(tail.as_str());
            let ghost term = term_of(line@);
            assert(term.category == category@ && term.id == id@ && term.variants == texts(
                variants@,
            ));
            if category.as_str().is_empty() || id.as_str().is_empty() || variants.len() == 0 {
                assert(variants@.len() == texts(variants@).len());
                proof {
                    lemma_terms_fault(all, (i + 1) as nat, all.len());
                }
                return Err(TsvFault::EmptyPart(i + 1));
            }
            assert(variants@.len() == texts(variants@).len());
            let ghost before = term_texts(terms@);
            if term_is_known(&terms, category.as_str(), id.as_str()) {
                proof {
                    let k = choose|k: int|
                        0 <= k < terms@.len() && (#[trigger] terms@[k]).category@ == category@
                            && terms@[k].id@ == id@;
                    assert(before[k].category == term.category && before[k].id == term.id);
                    assert(has_term(before, term));
                    lemma_terms_fault(all, (i + 1) as nat, all.len());
                }
                return Err(TsvFault::Duplicate(i + 1));
            }
            assert(!has_term(before, term)) by {
                if has_term(before, term) {
                    let k = choose|k: int|
                        0 <= k < before.len() && (#[trigger] before[k]).category == term.category
                            && before[k].id == term.id;
                    assert(terms@[k].category@ == category@);
                }
            }
            let parsed = ExpectedTerm { category, id, variants };
            assert(parsed.texts() == term);
            terms.push(parsed);
            assert(term_texts(terms@) =~= before.push(term));
        }
        i += 1;
    }
    Ok(terms)
}

// ---------------------------------------------------------------------------
// Transcripts
// ---------------------------------------------------------------------------

/// A text without the quotes around it and the escapes in it; a text without
/// quotes around it is itself.
pub open spec fn unquoted(value: Seq<char>) -> Seq<char> {
    if value.len() >= 2 && value[0] == '"' && value.last() == '"' {
        replaced(
            replaced(value.subrange(1, value.len() - 1), seq!['\\', '"'], seq!['"']),
            seq!['\\', '\\'],
            seq!['\\'],
        )
    } else {
        value
    }
}

pub fn unquote(value: &str) -> (result: String)
    ensures
        result@ == unquoted(value@),
{
    let chars = chars_of(value);
    if chars.len() >= 2 && chars[0] == '"' && chars[chars.len() - 1] == '"' {
        let inner = string_of_range(chars.as_slice(), 1, chars.len() - 1);
        proof {
            reveal_strlit("\\\"");
            reveal_strlit("\"");
            reveal_strlit("\\\\");
            reveal_strlit("\\");
            assert("\\\""@ =~= seq!['\\', '"']);
            assert("\""@ =~= seq!['"']);
            assert("\\\\"@ =~= seq!['\\', '\\']);
            assert("\\"@ =~= seq!['\\']);
        }
        let quotes = replace(inner.as_str(), "\\\"", "\"");
        replace(quotes.as_str(), "\\\\", "\\")
    } else {
        value.to_owned()
    }
}

/// A text in which each backslash is gone and what follows it stays; a
/// backslash at the end goes.
pub open spec fn without_escapes(text: Seq<char>) -> Seq<char>
    decreases text.len(),
{
    if text.len() == 0 {
        Seq::empty()
    } else if text[0] != '\\' {
        seq![text[0]] + without_escapes(text.skip(1))
    } else if text.len() == 1 {
        Seq::empty()
    } else {
        seq![text[1]] + without_escapes(text.skip(2))
    }
}

/// The text that a line of Markdown writes.
pub open spec fn unescaped(text: Seq<char>) -> Seq<char> {
    without_escapes(
        replaced(
            replaced(replaced(text, "&amp;"@, "&"@), "&lt;"@, "<"@),
            "&gt;"@,
            ">"@,
        ),
    )
}

pub fn unescape_markdown(value: &str) -> (result: String)
    ensures
        result@ == unescaped(value@),
{
    proof {
        reveal_strlit("&amp;");
        reveal_strlit("&lt;");
        reveal_strlit("&gt;");
    }
    let step1 = replace(value, "&amp;", "&");
    let step2 = replace(step1.as_str(), "&lt;", "<");
    let step3 = replace(step2.as_str(), "&gt;", ">");
    let chars = chars_of(step3.as_str());
    let mut result = String::new();
    let mut at: usize = 0;
    assert(chars@.skip(0) == step3@);
    assert(result@ + without_escapes(step3@) == without_escapes(step3@));
    while at < chars.len()
        invariant
            at <= chars@.len(),
            result@ + without_escapes(chars@.skip(at as int)) == without_escapes(step3@),
        decreases chars@.len() - at,
    {
        let ghost rest = chars@.skip(at as int);
        let ghost before = result@;
        if chars[at] != '\\' {
            result.push(chars[at]);
            assert(rest.skip(1) == chars@.skip(at + 1));
            assert(before + without_escapes(rest) =~= result@ + without_escapes(
                chars@.skip(at + 1),
            ));
            at += 1;
        } else if chars.len() - at == 1 {
            assert(chars@.skip(at + 1).len() == 0);
            assert(before + without_escapes(rest) =~= result@ + without_escapes(
                chars@.skip(at + 1),
            ));
            at += 1;
        } else {
            result.push(chars[at + 1]);
            assert(rest.skip(2) == chars@.skip(at + 2));
            assert(before + without_escapes(rest) =~= result@ + without_escapes(
                chars@.skip(at + 2),
            ));
            at += 2;
        }
    }
    assert(without_escapes(chars@.skip(at as int)) =~= Seq::<char>::empty());
    assert(result@ + Seq::<char>::empty() =~= result@);
    result
}

/// `UNKNOWN`, or `S` and decimal digits.
pub open spec fn is_hypothesis_speaker(speaker: Seq<char>) -> bool {
    speaker == "UNKNOWN"@ || (speaker.len() >= 2 && speaker[0] == 'S' && all_digits(
        speaker.skip(1),
    ))
}

pub fn valid_hypothesis_speaker(speaker: &str) -> (result: bool)
    ensures
        result == is_hypothesis_speaker(speaker@),
{
    if same_text(speaker, "UNKNOWN") {
        return true;
    }
    let chars = chars_of(speaker);
    if chars.len() < 2 || chars[0] != 'S' {
        return false;
    }
    let mut i: usize = 1;
    while i < chars.len()
        invariant
            1 <= i <= chars@.len(),
            chars@ == speaker@,
            speaker@ != "UNKNOWN"@,
            forall|k: int| 0 <= k < i - 1 ==> '0' <= #[trigger] chars@.skip(1)[k] <= '9',
        decreases chars@.len() - i,
    {
        if !ascii_digit(chars[i]) {
            assert(chars@.skip(1)[i - 1] == chars@[i as int]);
            return false;
        }
        i += 1;
    }
    true
}

/// The position of the first colon of either width, or the length.
pub open spec fn colon_position(line: Seq<char>) -> int {
    let wide = position_of(line, '：', 0);
    let narrow = position_of(line, ':', 0);
    if wide <= narrow {
        wide
    } else {
        narrow
    }
}

/// The speaker and the text of a line `speaker: text`.
pub open spec fn speaker_turn(line: Seq<char>) -> Option<(Seq<char>, Seq<char>)> {
    let at = colon_position(line);
    if 0 <= at < line.len() && is_hypothesis_speaker(trimmed(line.take(at))) {
        Some((trimmed(line.take(at)), trimmed(line.skip(at + 1))))
    } else {
        None
    }
}

pub fn split_speaker_turn(line: &str) -> (result: Option<(String, String)>)
    ensures
        match result {
            Some(pair) => speaker_turn(line@) == Some((pair.0@, pair.1@)),
            None => speaker_turn(line@) is None,
        },
{
    let chars = chars_of(line);
    let wide: usize = find_char(chars.as_slice(), '：', 0);
    let narrow: usize = find_char(chars.as_slice(), ':', 0);
    let at: usize = if wide <= narrow {
        wide
    } else {
        narrow
    };
    if at >= chars.len() {
        return None;
    }
    let left = trim_range(chars.as_slice(), 0, at);
    let right = trim_range(chars.as_slice(), at + 1, chars.len());
    assert(chars@.subrange(0, at as int) == line@.take(at as int));
    assert(chars@.subrange(at + 1, chars@.len() as int) == line@.skip(at + 1));
    let speaker = string_of_range(chars.as_slice(), left.0, left.1);
    if !valid_hypothesis_speaker(speaker.as_str()) {
        return None;
    }
    Some((speaker, string_of_range(chars.as_slice(), right.0, right.1)))
}

/// The turns that the first `n` lines of the body of a transcript write. A
/// line without a speaker continues the turn before it.
pub open spec fn body_turns(lines: Seq<Seq<char>>, n: nat) -> Seq<(Seq<char>, Seq<char>)>
    decreases n,
{
    if n == 0 {
        Seq::empty()
    } else {
        let turns = body_turns(lines, (n - 1) as nat);
        let line = trimmed(lines[n - 1]);
        if line.len() == 0 || line[0] == '#' {
            turns
        } else {
            let plain = unescaped(line);
            match speaker_turn(plain) {
                Some(turn) => turns.push(turn),
                None => if turns.len() > 0 {
                    turns.drop_last().push(
                        (turns.last().0, turns.last().1.push(' ') + trimmed(plain)),
                    )
                } else {
                    turns.push(("UNKNOWN"@, plain))
                },
            }
        }
    }
}

fn parse_body(lines: &Vec<String>, from: usize) -> (turns: Vec<Turn>)
    requires
        from <= lines@.len(),
    ensures
        turn_texts(turns@) == body_turns(
            texts(lines@).skip(from as int),
            (lines@.len() - from) as nat,
        ),
{
    let ghost body = texts(lines@).skip(from as int);
    let mut turns: Vec<Turn> = Vec::new();
    let mut i: usize = from;
    assert(turn_texts(turns@) =~= Seq::<(Seq<char>, Seq<char>)>::empty());
    while i < lines.len()
        invariant
            from <= i <= lines@.len(),
            body == texts(lines@).skip(from as int),
            turn_texts(turns@) == body_turns(body, (i - from) as nat),
        decreases lines@.len() - i,
    {
        assert(body[i - from] == lines@[i as int]@);
        let ghost before = turn_texts(turns@);
        let chars = chars_of(lines[i].as_str());
        let range = trim_range(chars.as_slice(), 0, chars.len());
        assert(chars@.subrange(0, chars@.len() as int) == lines@[i as int]@);
        let ghost line = trimmed(lines@[i as int]@);
        assert(range.0 < range.1 ==> line[0] == chars@[range.0 as int]);
        if range.0 < range.1 && chars[range.0] != '#' {
            let text = string_of_range(chars.as_slice(), range.0, range.1);
            let plain = unescape_markdown(text.as_str());
            match split_speaker_turn(plain.as_str()) {
                Some(pair) => {
                    let turn = Turn { speaker: pair.0, text: pair.1 };
                    turns.push(turn);
                    assert(turn_texts(turns@) =~= before.push((turn.speaker@, turn.text@)));
                },
                None => {
                    match turns.pop() {
                        Some(previous) => {
                            let mut text = previous.text;
                            text.push(' ');
                            text.append(trim(plain.as_str()).as_str());
                            let turn = Turn { speaker: previous.speaker, text };
                            turns.push(turn);
                            assert(turn_texts(turns@) =~= before.drop_last().push(
                                (turn.speaker@, turn.text@),
                            ));
                        },
                        None => {
                            let turn = Turn { speaker: "UNKNOWN".to_owned(), text: plain };
                            turns.push(turn);
                            assert(turn_texts(turns@) =~= before.push((turn.speaker@, turn.text@)));
                        },
                    }
                },
            }
        }
        i += 1;
    }
    turns
}

/// Whether a line opens or closes the front matter.
pub open spec fn is_fence(line: Seq<char>) -> bool {
    trimmed(line) == "---"@
}

/// The position of the first fence from `from` on, or the number of lines.
pub open spec fn fence_position(lines: Seq<Seq<char>>, from: int) -> int
    decreases lines.len() - from,
{
    if from >= lines.len() || is_fence(lines[from]) {
        from
    } else {
        fence_position(lines, from + 1)
    }
}

/// The fields that the lines `from..to` of a front matter set.
pub open spec fn front_matter_of(lines: Seq<Seq<char>>, from: int, to: int) -> Map<
    Seq<char>,
    Seq<char>,
>
    decreases to - from,
{
    if to <= from {
        Map::empty()
    } else {
        let fields = front_matter_of(lines, from, to - 1);
        let line = lines[to - 1];
        let at = position_of(line, ':', 0);
        if 0 <= at < line.len() {
            fields.insert(trimmed(line.take(at)), unquoted(trimmed(line.skip(at + 1))))
        } else {
            fields
        }
    }
}

/// The first line without byte order marks before it, and the others.
pub open spec fn marked_lines(content: Seq<char>) -> Seq<Seq<char>> {
    let lines = lines_of(content);
    if lines.len() == 0 {
        lines
    } else {
        lines.update(0, without_leading(lines[0], '\u{feff}'))
    }
}

/// The fields of the front matter of a transcript.
pub open spec fn transcript_fields(content: Seq<char>) -> Map<Seq<char>, Seq<char>> {
    let lines = marked_lines(content);
    if lines.len() > 0 && is_fence(lines[0]) {
        front_matter_of(lines, 1, fence_position(lines, 1))
    } else {
        Map::empty()
    }
}

/// The turns of a transcript.
pub open spec fn transcript_turns(content: Seq<char>) -> Seq<(Seq<char>, Seq<char>)> {
    let lines = marked_lines(content);
    if lines.len() > 0 && is_fence(lines[0]) {
        let end = fence_position(lines, 1);
        if end < lines.len() {
            body_turns(lines.skip(end + 1), (lines.len() - end - 1) as nat)
        } else {
            Seq::empty()
        }
    } else {
        body_turns(lines, lines.len())
    }
}

/// Reads a transcript: the fields of its front matter, and its turns.
pub fn parse_spt_markdown(content: &str) -> (result: (FieldMap, Vec<Turn>))
    ensures
        result.0.well_formed(),
        result.0@ == transcript_fields(content@),
        turn_texts(result.1@) == transcript_turns(content@),
{
    let mut lines = split_lines(content);
    let mut fields = FieldMap::new();
    let ghost marked = marked_lines(content@);
    if lines.len() == 0 {
        let turns: Vec<Turn> = Vec::new();
        assert(marked.len() == texts(lines@).len());
        assert(turn_texts(turns@) =~= body_turns(marked, 0));
        return (fields, turns);
    }
    let first = strip_leading(lines[0].as_str(), '\u{feff}');
    let ghost before = texts(lines@);
    lines.set(0, first);
    assert(texts(lines@) =~= marked);
    let opening = trim(lines[0].as_str());
    assert(marked[0] == lines@[0]@);
    if !same_text(opening.as_str(), "---") {
        assert(texts(lines@).skip(0) =~= marked);
        return (fields, parse_body(&lines, 0));
    }
    let mut at: usize = 1;
    while at < lines.len()
        invariant
            1 <= at <= lines@.len(),
            texts(lines@) == marked,
            fields.well_formed(),
            fields@ == front_matter_of(marked, 1, at as int),
            fence_position(marked, at as int) == fence_position(marked, 1),
            marked == marked_lines(content@),
            marked.len() > 0,
            is_fence(marked[0]),
        decreases lines@.len() - at,
    {
        assert(marked[at as int] == lines@[at as int]@);
        let trimmed_line = trim(lines[at].as_str());
        if same_text(trimmed_line.as_str(), "---") {
            assert(texts(lines@).skip(at + 1) == marked.skip(at + 1));
            return (fields, parse_body(&lines, at + 1));
        }
        let chars = chars_of(lines[at].as_str());
        let colon: usize = find_char(chars.as_slice(), ':', 0);
        if colon < chars.len() {
            let left = trim_range(chars.as_slice(), 0, colon);
            let right = trim_range(chars.as_slice(), colon + 1, chars.len());
            assert(chars@.subrange(0, colon as int) == marked[at as int].take(colon as int));
            assert(chars@.subrange(colon + 1, chars@.len() as int) == marked[at as int].skip(
                colon + 1,
            ));
            let key = string_of_range(chars.as_slice(), left.0, left.1);
            let value = string_of_range(chars.as_slice(), right.0, right.1);
            let value = unquote(value.as_str());
            let _ = fields.insert(key.as_str(), value.as_str());
        }
        at += 1;
    }
    let turns: Vec<Turn> = Vec::new();
    assert(turn_texts(turns@) =~= Seq::<(Seq<char>, Seq<char>)>::empty());
    (fields, turns)
}

// ---------------------------------------------------------------------------
// Speakers
// ---------------------------------------------------------------------------

/// What it costs to pair two turns with the given texts.
pub open spec fn turn_cost(reference: Seq<char>, hypothesis: Seq<char>) -> u128 {
    text_pair_cost(normalized_text(reference), normalized_text(hypothesis))
}

/// What it costs to pair each two turns.
pub open spec fn turn_costs(
    reference: Seq<(Seq<char>, Seq<char>)>,
    hypothesis: Seq<(Seq<char>, Seq<char>)>,
) -> Seq<Seq<u128>> {
    Seq::new(
        reference.len(),
        |r: int|
            Seq::new(hypothesis.len(), |h: int| turn_cost(reference[r].1, hypothesis[h].1)),
    )
}

pub fn turn_substitution_cost(reference: &str, hypothesis: &str) -> (cost: u128)
    ensures
        cost == turn_cost(reference@, hypothesis@),
        cost <= UNRELATED_TURN_COST,
{
    let reference_chars = chars_of(normalize_text(reference).as_str());
    let hypothesis_chars = chars_of(normalize_text(hypothesis).as_str());
    pair_cost(reference_chars.as_slice(), hypothesis_chars.as_slice())
}

/// The pairs by their members as numbers.
pub open spec fn pair_numbers(pairs: Seq<(usize, usize)>) -> Seq<(int, int)> {
    Seq::new(pairs.len(), |k: int| (pairs[k].0 as int, pairs[k].1 as int))
}

/// The turns that belong together.
pub fn align_turns(reference: &Vec<Turn>, hypothesis: &Vec<Turn>) -> (pairs: Vec<(usize, usize)>)
    requires
        reference@.len() < usize::MAX,
        hypothesis@.len() < usize::MAX,
    ensures
        pair_numbers(pairs@) == aligned_pairs(
            turn_costs(turn_texts(reference@), turn_texts(hypothesis@)),
            reference@.len(),
            hypothesis@.len(),
        ),
{
    let mut costs: Vec<Vec<u128>> = Vec::new();
    let ghost table = turn_costs(turn_texts(reference@), turn_texts(hypothesis@));
    let mut r: usize = 0;
    while r < reference.len()
        invariant
            r <= reference@.len(),
            table == turn_costs(turn_texts(reference@), turn_texts(hypothesis@)),
            costs@.len() == r,
            forall|i: int|
                0 <= i < r ==> (#[trigger] costs@[i])@ == table[i] && costs@[i]@.len()
                    == hypothesis@.len(),
            forall|i: int, j: int|
                0 <= i < r && 0 <= j < hypothesis@.len() ==> #[trigger] costs@[i]@[j]
                    <= UNRELATED_TURN_COST,
        decreases reference@.len() - r,
    {
        let mut row: Vec<u128> = Vec::new();
        let mut h: usize = 0;
        while h < hypothesis.len()
            invariant
                r < reference@.len(),
                h <= hypothesis@.len(),
                table == turn_costs(turn_texts(reference@), turn_texts(hypothesis@)),
                row@.len() == h,
                forall|j: int| 0 <= j < h ==> #[trigger] row@[j] == table[r as int][j],
                forall|j: int| 0 <= j < h ==> #[trigger] row@[j] <= UNRELATED_TURN_COST,
            decreases hypothesis@.len() - h,
        {
            row.push(
                turn_substitution_cost(reference[r].text.as_str(), hypothesis[h].text.as_str()),
            );
            h += 1;
        }
        assert(row@ =~= table[r as int]);
        costs.push(row);
        r += 1;
    }
    assert(cost_table(costs@) =~= table);
    let pairs = align_by_costs(&costs, hypothesis.len());
    assert(pair_numbers(pairs@) =~= aligned_pairs(table, reference@.len(), hypothesis@.len()));
    pairs
}

/// The different speakers of the turns, without `UNKNOWN` where it is left
/// out, each once.
pub open spec fn is_label_list(
    labels: Seq<Seq<char>>,
    turns: Seq<(Seq<char>, Seq<char>)>,
    without_unknown: bool,
) -> bool {
    &&& labels.no_duplicates()
    &&& labels.len() <= turns.len()
    &&& forall|label: Seq<char>| #[trigger]
        labels.contains(label) <==> is_speaker_of(turns, label) && !(without_unknown && label
            == "UNKNOWN"@)
}

pub open spec fn is_speaker_of(turns: Seq<(Seq<char>, Seq<char>)>, label: Seq<char>) -> bool {
    exists|i: int| 0 <= i < turns.len() && (#[trigger] turns[i]).0 == label
}

/// The position of a label in a list of labels.
fn label_position(labels: &Vec<String>, label: &str) -> (position: Option<usize>)
    ensures
        match position {
            Some(i) => i < labels@.len() && labels@[i as int]@ == label@,
            None => !texts(labels@).contains(label@),
        },
{
    let mut i: usize = 0;
    while i < labels.len()
        invariant
            i <= labels@.len(),
            forall|k: int| 0 <= k < i ==> (#[trigger] labels@[k])@ != label@,
        decreases labels@.len() - i,
    {
        if same_text(labels[i].as_str(), label) {
            return Some(i);
        }
        i += 1;
    }
    assert(!texts(labels@).contains(label@)) by {
        if texts(labels@).contains(label@) {
            let k = texts(labels@).index_of(label@);
            assert(labels@[k]@ == label@);
        }
    }
    None
}

fn speaker_labels(turns: &Vec<Turn>, without_unknown: bool) -> (labels: Vec<String>)
    ensures
        is_label_list(texts(labels@), turn_texts(turns@), without_unknown),
{
    let mut labels: Vec<String> = Vec::new();
    let ghost all = turn_texts(turns@);
    let mut i: usize = 0;
    assert(texts(labels@) =~= Seq::<Seq<char>>::empty());
    while i < turns.len()
        invariant
            i <= turns@.len(),
            all == turn_texts(turns@),
            is_label_list(texts(labels@), all.take(i as int), without_unknown),
        decreases turns@.len() - i,
    {
        let speaker = turns[i].speaker.as_str();
        let ghost before = texts(labels@);
        let ghost seen = all.take(i as int);
        let ghost now = all.take(i + 1);
        assert(now == seen.push(all[i as int]));
        assert(all[i as int].0 == speaker@);
        assert forall|label: Seq<char>| #[trigger] is_speaker_of(now, label) <==> is_speaker_of(
            seen,
            label,
        ) || label == speaker@ by {
            if is_speaker_of(now, label) {
                let k = choose|k: int| 0 <= k < now.len() && (#[trigger] now[k]).0 == label;
                if k < i {
                    assert(seen[k].0 == label);
                }
            }
            if is_speaker_of(seen, label) {
                let k = choose|k: int| 0 <= k < seen.len() && (#[trigger] seen[k]).0 == label;
                assert(now[k].0 == label);
            }
            assert(now[i as int].0 == speaker@);
        }
        if !(without_unknown && same_text(speaker, "UNKNOWN")) {
            match label_position(&labels, speaker) {
                Some(at) => {
                    assert(before[at as int] == speaker@);
                },
                None => {
                    labels.push(turns[i].speaker.clone());
                    assert(texts(labels@) =~= before.push(speaker@));
                    assert forall|label: Seq<char>| #[trigger]
                        texts(labels@).contains(label) <==> before.contains(label) || label
                            == speaker@ by {
                        if texts(labels@).contains(label) {
                            let k = texts(labels@).index_of(label);
                            if k < before.len() {
                                assert(before[k] == label);
                            }
                        }
                        if before.contains(label) {
                            let k = before.index_of(label);
                            assert(texts(labels@)[k] == label);
                        }
                        assert(texts(labels@)[before.len() as int] == speaker@);
                    }
                },
            }
        }
        i += 1;
    }
    assert(all.take(i as int) == all);
    labels
}

/// How many of the first `n` pairs have the given speakers.
pub open spec fn pair_count(
    pairs: Seq<(int, int)>,
    n: nat,
    reference: Seq<(Seq<char>, Seq<char>)>,
    hypothesis: Seq<(Seq<char>, Seq<char>)>,
    expected: Seq<char>,
    predicted: Seq<char>,
) -> nat
    decreases n,
{
    if n == 0 {
        0
    } else {
        let before = pair_count(
            pairs,
            (n - 1) as nat,
            reference,
            hypothesis,
            expected,
            predicted,
        );
        if reference[pairs[n - 1].0].0 == expected && hypothesis[pairs[n - 1].1].0 == predicted {
            before + 1
        } else {
            before
        }
    }
}

/// The table of the numbers of pairs: a row for each speaker of the
/// hypothesis, a column for each speaker of the reference.
pub open spec fn counts_pairs(
    weights: Seq<Vec<usize>>,
    pairs: Seq<(int, int)>,
    n: nat,
    reference: Seq<(Seq<char>, Seq<char>)>,
    hypothesis: Seq<(Seq<char>, Seq<char>)>,
    expected: Seq<Seq<char>>,
    predicted: Seq<Seq<char>>,
) -> bool {
    &&& weights.len() == predicted.len()
    &&& forall|p: int| 0 <= p < predicted.len() ==> (#[trigger] weights[p])@.len() == expected.len()
    &&& forall|p: int, e: int|
        0 <= p < predicted.len() && 0 <= e < expected.len() ==> #[trigger] weights[p]@[e]
            == pair_count(pairs, n, reference, hypothesis, expected[e], predicted[p])
}

/// `best` pairs is the most that have equal speakers, over all ways to rename
/// the speakers of the hypothesis to different speakers of the reference.
pub open spec fn is_best_match(
    reference: Seq<(Seq<char>, Seq<char>)>,
    hypothesis: Seq<(Seq<char>, Seq<char>)>,
    pairs: Seq<(int, int)>,
    best: int,
) -> bool {
    exists|expected: Seq<Seq<char>>, predicted: Seq<Seq<char>>, weights: Seq<Vec<usize>>|
        {
            &&& #[trigger] is_label_list(expected, reference, false)
            &&& #[trigger] is_label_list(predicted, hypothesis, true)
            &&& #[trigger] counts_pairs(
                weights,
                pairs,
                pairs.len(),
                reference,
                hypothesis,
                expected,
                predicted,
            )
            &&& if expected.len() == 0 || predicted.len() == 0 {
                best == 0
            } else {
                is_maximum_weight(weights, square_size(weights, expected.len()), best)
            }
        }
}

proof fn lemma_pair_count_bound(
    pairs: Seq<(int, int)>,
    n: nat,
    reference: Seq<(Seq<char>, Seq<char>)>,
    hypothesis: Seq<(Seq<char>, Seq<char>)>,
    expected: Seq<char>,
    predicted: Seq<char>,
)
    ensures
        pair_count(pairs, n, reference, hypothesis, expected, predicted) <= n,
    decreases n,
{
    if n > 0 {
        lemma_pair_count_bound(
            pairs,
            (n - 1) as nat,
            reference,
            hypothesis,
            expected,
            predicted,
        );
    }
}

/// The number of turns of the two sides fits into the tables of a score.
pub open spec fn turns_fit(reference: nat, hypothesis: nat) -> bool {
    &&& (reference + 1) * (hypothesis + 1) < 0x1000_0000_0000_0000
    &&& (reference + 1) * (hypothesis + 1) <= usize::MAX
}

/// The greatest number of pairs with equal speakers, over all ways to rename
/// the speakers of the hypothesis.
pub fn match_speakers(
    reference: &Vec<Turn>,
    hypothesis: &Vec<Turn>,
    pairs: &Vec<(usize, usize)>,
) -> (best: usize)
    requires
        turns_fit(reference@.len(), hypothesis@.len()),
        pairs@.len() <= reference@.len(),
        pairs@.len() <= hypothesis@.len(),
        forall|k: int|
            0 <= k < pairs@.len() ==> (#[trigger] pairs@[k]).0 < reference@.len() && pairs@[k].1
                < hypothesis@.len(),
    ensures
        is_best_match(
            turn_texts(reference@),
            turn_texts(hypothesis@),
            pair_numbers(pairs@),
            best as int,
        ),
{
    let ghost ref_turns = turn_texts(reference@);
    let ghost hyp_turns = turn_texts(hypothesis@);
    let ghost numbers = pair_numbers(pairs@);
    let expected = speaker_labels(reference, false);
    let predicted = speaker_labels(hypothesis, true);
    let ghost expected_texts = texts(expected@);
    let ghost predicted_texts = texts(predicted@);
    let mut weights: Vec<Vec<usize>> = Vec::new();
    while weights.len() < predicted.len()
        invariant
            weights@.len() <= predicted@.len(),
            forall|p: int|
                0 <= p < weights@.len() ==> (#[trigger] weights@[p])@.len() == expected@.len(),
            forall|p: int, e: int|
                0 <= p < weights@.len() && 0 <= e < expected@.len() ==> #[trigger] weights@[p]@[e]
                    == 0,
        decreases predicted@.len() - weights@.len(),
    {
        let row: Vec<usize> = vec![0; expected.len()];
        weights.push(row);
    }
    let mut k: usize = 0;
    while k < pairs.len()
        invariant
            k <= pairs@.len(),
            ref_turns == turn_texts(reference@),
            hyp_turns == turn_texts(hypothesis@),
            numbers == pair_numbers(pairs@),
            expected_texts == texts(expected@),
            predicted_texts == texts(predicted@),
            is_label_list(expected_texts, ref_turns, false),
            is_label_list(predicted_texts, hyp_turns, true),
            forall|x: int|
                0 <= x < pairs@.len() ==> (#[trigger] pairs@[x]).0 < reference@.len() && pairs@[x].1
                    < hypothesis@.len(),
            counts_pairs(
                weights@,
                numbers,
                k as nat,
                ref_turns,
                hyp_turns,
                expected_texts,
                predicted_texts,
            ),
        decreases pairs@.len() - k,
    {
        let pair = pairs[k];
        let ghost before = weights@;
        assert(numbers[k as int] == (pair.0 as int, pair.1 as int));
        assert(ref_turns[pair.0 as int].0 == reference@[pair.0 as int].speaker@);
        assert(hyp_turns[pair.1 as int].0 == hypothesis@[pair.1 as int].speaker@);
        let ghost es = reference@[pair.0 as int].speaker@;
        let ghost ps = hypothesis@[pair.1 as int].speaker@;
        let predicted_at = label_position(&predicted, hypothesis[pair.1].speaker.as_str());
        let expected_at = label_position(&expected, reference[pair.0].speaker.as_str());
        assert(expected_texts.contains(es)) by {
            assert(ref_turns[pair.0 as int].0 == es);
            assert(is_speaker_of(ref_turns, es));
        }
        assert(expected_at is Some);
        if let (Some(p), Some(e)) = (predicted_at, expected_at) {
            proof {
                lemma_pair_count_bound(
                    numbers,
                    k as nat,
                    ref_turns,
                    hyp_turns,
                    expected_texts[e as int],
                    predicted_texts[p as int],
                );
                assert(weights@[p as int]@[e as int] == pair_count(
                    numbers,
                    k as nat,
                    ref_turns,
                    hyp_turns,
                    expected_texts[e as int],
                    predicted_texts[p as int],
                ));
            }
            let mut row: Vec<usize> = Vec::new();
            std::mem::swap(&mut row, &mut weights[p]);
            let count: usize = row[e];
            row.set(e, count + 1);
            std::mem::swap(&mut row, &mut weights[p]);
            proof {
                assert(weights@.len() == before.len());
                assert(weights@[p as int]@ == before[p as int]@.update(e as int, (count + 1) as usize));
                assert forall|p1: int, e1: int|
                    0 <= p1 < predicted_texts.len() && 0 <= e1
                        < expected_texts.len() implies #[trigger] weights@[p1]@[e1] == pair_count(
                    numbers,
                    (k + 1) as nat,
                    ref_turns,
                    hyp_turns,
                    expected_texts[e1],
                    predicted_texts[p1],
                ) by {
                    assert(before[p1]@[e1] == pair_count(
                        numbers,
                        k as nat,
                        ref_turns,
                        hyp_turns,
                        expected_texts[e1],
                        predicted_texts[p1],
                    ));
                    assert(expected_texts[e as int] == es);
                    assert(predicted_texts[p as int] == ps);
                    if p1 == p && e1 == e {
                    } else if p1 != p {
                        assert(predicted_texts[p1] != predicted_texts[p as int]);
                        assert(weights@[p1] == before[p1]);
                    } else {
                        assert(expected_texts[e1] != expected_texts[e as int]);
                    }
                }
            }
        } else {
            proof {
                assert forall|p1: int, e1: int|
                    0 <= p1 < predicted_texts.len() && 0 <= e1
                        < expected_texts.len() implies #[trigger] weights@[p1]@[e1] == pair_count(
                    numbers,
                    (k + 1) as nat,
                    ref_turns,
                    hyp_turns,
                    expected_texts[e1],
                    predicted_texts[p1],
                ) by {
                    if predicted_texts[p1] == ps {
                        assert(predicted_texts.contains(ps));
                    }
                }
            }
        }
        k += 1;
    }
    proof {
        let size = square_size(weights@, expected@.len() as nat);
        let n = reference@.len();
        let m = hypothesis@.len();
        assert forall|i: int, j: int|
            0 <= i < weights@.len() && 0 <= j < weights@[i]@.len() implies (size + 2) * (
        #[trigger] weights@[i]@[j]) < 0x1000_0000_0000_0000 && (size + 2) * weights@[i]@[j]
            <= usize::MAX by {
            let w = weights@[i]@[j] as int;
            lemma_pair_count_bound(
                numbers,
                numbers.len(),
                ref_turns,
                hyp_turns,
                expected_texts[j],
                predicted_texts[i],
            );
            assert(w <= n && w <= m);
            assert(size <= n || size <= m);
            assert((size + 2) * w <= (n + 1) * (m + 1)) by (nonlinear_arith)
                requires
                    0 <= w <= n,
                    w <= m,
                    0 <= size,
                    size <= n || size <= m,
            {
                if size <= n {
                    assert((size + 2) * w <= (n + 2) * w);
                    assert((n + 2) * w == n * w + 2 * w);
                    assert(n * w <= n * m);
                    assert((n + 1) * (m + 1) == n * m + n + m + 1);
                } else {
                    assert((size + 2) * w <= (m + 2) * w);
                    assert((m + 2) * w == m * w + 2 * w);
                    assert(m * w <= m * n);
                    assert((n + 1) * (m + 1) == n * m + n + m + 1);
                    assert(m * n == n * m);
                }
            }
        }
        assert(weights_fit(weights@, size));
        assert(n + 1 <= (n + 1) * (m + 1) && m + 1 <= (n + 1) * (m + 1)) by (nonlinear_arith)
            requires
                n >= 0,
                m >= 0,
        ;
        assert(expected_texts.len() <= n && predicted_texts.len() <= m);
    }
    let best: usize = maximum_one_to_one_weight(weights.as_slice(), expected.len());
    proof {
        assert(expected_texts.len() == expected@.len());
        assert(predicted_texts.len() == predicted@.len());
        assert(counts_pairs(
            weights@,
            numbers,
            numbers.len(),
            ref_turns,
            hyp_turns,
            expected_texts,
            predicted_texts,
        ));
        assert(is_label_list(expected_texts, ref_turns, false));
        assert(is_label_list(predicted_texts, hyp_turns, true));
    }
    best
}

/// How well the speakers of a hypothesis agree with those of the reference.
#[derive(Debug)]
pub struct SpeakerScore {
    pub correct: usize,
    pub denominator: usize,
    pub aligned_pairs: usize,
}

pub open spec fn is_speaker_score(
    reference: Seq<(Seq<char>, Seq<char>)>,
    hypothesis: Seq<(Seq<char>, Seq<char>)>,
    score: SpeakerScore,
) -> bool {
    let pairs = aligned_pairs(
        turn_costs(reference, hypothesis),
        reference.len(),
        hypothesis.len(),
    );
    &&& is_best_match(reference, hypothesis, pairs, score.correct as int)
    &&& score.denominator == if reference.len() >= hypothesis.len() {
        reference.len()
    } else {
        hypothesis.len()
    }
    &&& score.aligned_pairs == pairs.len()
}

/// How well the speakers of a hypothesis agree with those of the reference,
/// whatever their names.
pub fn score_speakers(reference: &Vec<Turn>, hypothesis: &Vec<Turn>) -> (score: SpeakerScore)
    requires
        turns_fit(reference@.len(), hypothesis@.len()),
    ensures
        is_speaker_score(turn_texts(reference@), turn_texts(hypothesis@), score),
        score.correct <= score.aligned_pairs,
        score.aligned_pairs <= reference@.len(),
        score.aligned_pairs <= hypothesis@.len(),
{
    proof {
        let n = reference@.len();
        let m = hypothesis@.len();
        assert(n + 1 <= (n + 1) * (m + 1) && m + 1 <= (n + 1) * (m + 1)) by (nonlinear_arith)
            requires
                n >= 0,
                m >= 0,
        ;
    }
    let pairs = align_turns(reference, hypothesis);
    proof {
        let costs = turn_costs(turn_texts(reference@), turn_texts(hypothesis@));
        lemma_aligned_pairs(costs, reference@.len(), hypothesis@.len());
        let numbers = pair_numbers(pairs@);
        assert forall|k: int| 0 <= k < pairs@.len() implies (#[trigger] pairs@[k]).0
            < reference@.len() && pairs@[k].1 < hypothesis@.len() by {
            assert(numbers[k] == (pairs@[k].0 as int, pairs@[k].1 as int));
        }
    }
    let correct = match_speakers(reference, hypothesis, &pairs);
    let score = SpeakerScore {
        correct,
        denominator: if reference.len() >= hypothesis.len() {
            reference.len()
        } else {
            hypothesis.len()
        },
        aligned_pairs: pairs.len(),
    };
    proof {
        lemma_score_is_bounded(turn_texts(reference@), turn_texts(hypothesis@), score);
    }
    score
}

// ---------------------------------------------------------------------------
// Terms in a transcript
// ---------------------------------------------------------------------------

/// The ways of writing that are accepted, in the form in which terms are
/// looked for.
pub open spec fn accepted_of(variants: Seq<Seq<char>>) -> Seq<Seq<char>>
    decreases variants.len(),
{
    if variants.len() == 0 {
        Seq::empty()
    } else {
        let before = accepted_of(variants.drop_last());
        let variant = exact_text(variants.last());
        if variant.len() > 0 {
            before.push(variant)
        } else {
            before
        }
    }
}

/// The texts of lists of characters.
pub open spec fn char_texts(lists: Seq<Vec<char>>) -> Seq<Seq<char>> {
    Seq::new(lists.len(), |i: int| lists[i]@)
}

/// The ways of writing a term that are accepted.
pub fn accepted_variants(term: &ExpectedTerm) -> (accepted: Vec<Vec<char>>)
    ensures
        char_texts(accepted@) == accepted_of(term.texts().variants),
{
    let mut accepted: Vec<Vec<char>> = Vec::new();
    let ghost variants = term.texts().variants;
    let mut i: usize = 0;
    assert(char_texts(accepted@) =~= accepted_of(variants.take(0)));
    while i < term.variants.len()
        invariant
            i <= term.variants@.len(),
            variants == texts(term.variants@),
            char_texts(accepted@) == accepted_of(variants.take(i as int)),
        decreases term.variants@.len() - i,
    {
        let variant = chars_of(normalize_exact_text(term.variants[i].as_str()).as_str());
        proof {
            assert(variants.take(i + 1).drop_last() == variants.take(i as int));
            assert(variants.take(i + 1).last() == term.variants@[i as int]@);
        }
        let ghost before = char_texts(accepted@);
        if variant.len() > 0 {
            accepted.push(variant);
            assert(char_texts(accepted@) =~= before.push(variant@));
        }
        i += 1;
    }
    assert(variants.take(i as int) == variants);
    accepted
}

/// One of the accepted ways of writing stands in the reference, and what the
/// hypothesis has in its place is one of the accepted ways of writing.
pub open spec fn is_term_hit(
    accepted: Seq<Seq<char>>,
    reference: Seq<char>,
    hypothesis: Seq<char>,
    starts: Seq<usize>,
    ends: Seq<usize>,
) -> bool {
    exists|a: int, at: int|
        0 <= a < accepted.len() && accepted[a].len() > 0 && #[trigger] occurs_at(
            reference,
            at,
            accepted[a],
        ) && starts[at] <= ends[at + accepted[a].len()] && accepted.contains(
            hypothesis.subrange(starts[at] as int, ends[at + accepted[a].len()] as int),
        )
}

/// Whether a text is one of a list of texts.
fn is_among(lists: &Vec<Vec<char>>, text: &Vec<char>) -> (result: bool)
    ensures
        result == char_texts(lists@).contains(text@),
{
    let mut i: usize = 0;
    while i < lists.len()
        invariant
            i <= lists@.len(),
            forall|k: int| 0 <= k < i ==> (#[trigger] lists@[k])@ != text@,
        decreases lists@.len() - i,
    {
        if same_chars(lists[i].as_slice(), text.as_slice()) {
            assert(char_texts(lists@)[i as int] == text@);
            return true;
        }
        i += 1;
    }
    assert(!char_texts(lists@).contains(text@)) by {
        if char_texts(lists@).contains(text@) {
            let k = char_texts(lists@).index_of(text@);
            assert(lists@[k]@ == text@);
        }
    }
    false
}

/// A text that is not empty stands at each of the positions.
spec fn stand_at(positions: Seq<usize>, text: Seq<char>, needle: Seq<char>) -> bool {
    forall|k: int|
        0 <= k < positions.len() ==> needle.len() > 0 && occurs_at(
            text,
            (#[trigger] positions[k]) as int,
            needle,
        )
}

/// Whether a term is hit, given the ways of writing that are accepted and the
/// gaps of the reference in the hypothesis.
pub fn variant_hit(
    accepted: &Vec<Vec<char>>,
    reference: &[char],
    hypothesis: &[char],
    starts: &Vec<usize>,
    ends: &Vec<usize>,
) -> (hit: bool)
    requires
        starts@.len() == reference@.len() + 1,
        ends@.len() == reference@.len() + 1,
        forall|k: int| 0 <= k <= reference@.len() ==> #[trigger] ends@[k] <= hypothesis@.len(),
    ensures
        hit == is_term_hit(char_texts(accepted@), reference@, hypothesis@, starts@, ends@),
{
    let ghost all = char_texts(accepted@);
    let mut a: usize = 0;
    while a < accepted.len()
        invariant
            a <= accepted@.len(),
            all == char_texts(accepted@),
            starts@.len() == reference@.len() + 1,
            ends@.len() == reference@.len() + 1,
            forall|k: int| 0 <= k <= reference@.len() ==> #[trigger] ends@[k] <= hypothesis@.len(),
            forall|x: int, at: int|
                0 <= x < a && all[x].len() > 0 && #[trigger] occurs_at(reference@, at, all[x])
                    && starts@[at] <= ends@[at + all[x].len()] ==> !all.contains(
                    hypothesis@.subrange(starts@[at] as int, ends@[at + all[x].len()] as int),
                ),
        decreases accepted@.len() - a,
    {
        let needle = accepted[a].as_slice();
        let positions = find_occurrences(reference, needle);
        assert(all[a as int] == needle@);
        assert(starts.len() == reference@.len() + 1);
        assert(positions@.len() > 0 ==> needle@.len() > 0) by {
            if positions@.len() > 0 {
                assert(occurs_at(reference@, positions@[0] as int, needle@));
            }
        }
        assert(stand_at(positions@, reference@, needle@));
        assert(stand_at(positions@, reference@, all[a as int]));
        let mut k: usize = 0;
        while k < positions.len()
            invariant
                a < accepted@.len(),
                k <= positions@.len(),
                all == char_texts(accepted@),
                all[a as int] == accepted@[a as int]@,
                starts@.len() == reference@.len() + 1,
                ends@.len() == reference@.len() + 1,
                forall|x: int|
                    0 <= x <= reference@.len() ==> #[trigger] ends@[x] <= hypothesis@.len(),
                stand_at(positions@, reference@, all[a as int]),
                forall|x: int|
                    0 <= x < k ==> {
                        let at = #[trigger] positions@[x] as int;
                        starts@[at] <= ends@[at + all[a as int].len()] ==> !all.contains(
                            hypothesis@.subrange(
                                starts@[at] as int,
                                ends@[at + all[a as int].len()] as int,
                            ),
                        )
                    },
            decreases positions@.len() - k,
        {
            let at: usize = positions[k];
            assert(occurs_at(reference@, at as int, all[a as int]));
            assert(starts.len() == reference@.len() + 1);
            let end: usize = at + accepted[a].len();
            assert(ends@[end as int] <= hypothesis@.len());
            if starts[at] <= ends[end] {
                let part = chars_in_range(hypothesis, starts[at], ends[end]);
                if is_among(accepted, &part) {
                    return true;
                }
            }
            k += 1;
        }
        assert forall|x: int, at: int|
            0 <= x < a + 1 && all[x].len() > 0 && #[trigger] occurs_at(reference@, at, all[x])
                && starts@[at] <= ends@[at + all[x].len()] implies !all.contains(
            hypothesis@.subrange(starts@[at] as int, ends@[at + all[x].len()] as int),
        ) by {
            if x == a {
                assert(positions@.contains(at as usize));
                let i = positions@.index_of(at as usize);
                assert(positions@[i] as int == at);
            }
        }
        a += 1;
    }
    false
}

/// Whether the transcript holds a term where the reference does; nothing
/// where no way of writing the term is left in the form that is looked for.
pub fn exact_term_hit(
    term: &ExpectedTerm,
    reference: &[char],
    hypothesis: &[char],
    starts: &Vec<usize>,
    ends: &Vec<usize>,
) -> (hit: Option<bool>)
    requires
        starts@.len() == reference@.len() + 1,
        ends@.len() == reference@.len() + 1,
        forall|k: int| 0 <= k <= reference@.len() ==> #[trigger] ends@[k] <= hypothesis@.len(),
    ensures
        match hit {
            Some(result) => accepted_of(term.texts().variants).len() > 0 && result == is_term_hit(
                accepted_of(term.texts().variants),
                reference@,
                hypothesis@,
                starts@,
                ends@,
            ),
            None => accepted_of(term.texts().variants).len() == 0,
        },
{
    let accepted = accepted_variants(term);
    assert(char_texts(accepted@).len() == accepted@.len());
    if accepted.len() == 0 {
        return None;
    }
    Some(variant_hit(&accepted, reference, hypothesis, starts, ends))
}

/// One of the accepted ways of writing stands in the reference.
pub open spec fn is_located(term: TermText, reference: Seq<char>) -> bool {
    exists|a: int, at: int|
        0 <= a < accepted_of(term.variants).len() && accepted_of(term.variants)[a].len() > 0
            && #[trigger] occurs_at(reference, at, accepted_of(term.variants)[a])
}

/// The first term that does not stand in the reference.
pub fn validate_term_locations(terms: &Vec<ExpectedTerm>, reference: &[char]) -> (missing: Option<
    usize,
>)
    ensures
        match missing {
            Some(i) => i < terms@.len() && !is_located(terms@[i as int].texts(), reference@)
                && forall|k: int|
                0 <= k < i ==> is_located((#[trigger] terms@[k]).texts(), reference@),
            None => forall|k: int|
                0 <= k < terms@.len() ==> is_located((#[trigger] terms@[k]).texts(), reference@),
        },
{
    let mut i: usize = 0;
    while i < terms.len()
        invariant
            i <= terms@.len(),
            forall|k: int| 0 <= k < i ==> is_located((#[trigger] terms@[k]).texts(), reference@),
        decreases terms@.len() - i,
    {
        let accepted = accepted_variants(&terms[i]);
        let ghost all = char_texts(accepted@);
        let mut located: bool = false;
        let mut a: usize = 0;
        while a < accepted.len()
            invariant
                a <= accepted@.len(),
                all == char_texts(accepted@),
                located == exists|x: int, at: int|
                    0 <= x < a && all[x].len() > 0 && #[trigger] occurs_at(reference@, at, all[x]),
            decreases accepted@.len() - a,
        {
            assert(all[a as int] == accepted@[a as int]@);
            if accepted[a].len() > 0 && contains_chars(reference, accepted[a].as_slice()) {
                proof {
                    let at = choose|at: int| #[trigger] occurs_at(reference@, at, all[a as int]);
                    assert(occurs_at(reference@, at, all[a as int]));
                }
                located = true;
            }
            a += 1;
        }
        if !located {
            return Some(i);
        }
        i += 1;
    }
    None
}

// ---------------------------------------------------------------------------
// Metrics
// ---------------------------------------------------------------------------

/// The value of a metric. Ratios are kept as whole numbers.
#[derive(Debug)]
pub enum MetricValue {
    Text(String),
    /// The first number divided by the second.
    Ratio(usize, usize),
    /// One minus the first number divided by the second.
    Complement(usize, usize),
    /// The mean of the first numbers divided by the second.
    Mean(Vec<(usize, usize)>),
}

/// A line of the report.
#[derive(Debug)]
pub struct Metric {
    pub name: String,
    pub value: MetricValue,
}

/// The value of a metric by its texts and numbers.
pub enum MetricText {
    Text(Seq<char>),
    Ratio(nat, nat),
    Complement(nat, nat),
    Mean(Seq<(nat, nat)>),
}

pub open spec fn ratio_numbers(ratios: Seq<(usize, usize)>) -> Seq<(nat, nat)> {
    Seq::new(ratios.len(), |i: int| (ratios[i].0 as nat, ratios[i].1 as nat))
}

impl MetricValue {
    pub open spec fn text(&self) -> MetricText {
        match self {
            MetricValue::Text(text) => MetricText::Text(text@),
            MetricValue::Ratio(a, b) => MetricText::Ratio(*a as nat, *b as nat),
            MetricValue::Complement(a, b) => MetricText::Complement(*a as nat, *b as nat),
            MetricValue::Mean(ratios) => MetricText::Mean(ratio_numbers(ratios@)),
        }
    }
}

pub open spec fn metrics_of(report: Seq<Metric>) -> Seq<(Seq<char>, MetricText)> {
    Seq::new(report.len(), |i: int| (report[i].name@, report[i].value.text()))
}

fn push_metric(report: &mut Vec<Metric>, name: &str, value: MetricValue)
    ensures
        metrics_of(final(report)@) == metrics_of(old(report)@).push((name@, value.text())),
{
    let ghost before = report@;
    report.push(Metric { name: name.to_owned(), value });
    assert(metrics_of(report@) =~= metrics_of(before).push((name@, value.text())));
}

fn push_field(report: &mut Vec<Metric>, name: &str, value: &str)
    ensures
        metrics_of(final(report)@) == metrics_of(old(report)@).push(
            (name@, MetricText::Text(value@)),
        ),
{
    push_metric(report, name, MetricValue::Text(value.to_owned()));
}

fn push_count(report: &mut Vec<Metric>, name: &str, value: usize)
    ensures
        metrics_of(final(report)@) == metrics_of(old(report)@).push(
            (name@, MetricText::Text(decimal(value as nat))),
        ),
{
    push_metric(report, name, MetricValue::Text(decimal_string(value as u64)));
}

/// The value of a field, or `NA`.
pub open spec fn field_value(fields: Map<Seq<char>, Seq<char>>, name: Seq<char>) -> Seq<char> {
    if fields.contains_key(name) {
        fields[name]
    } else {
        "NA"@
    }
}

pub fn field_or_na<'a>(fields: &'a FieldMap, key: &str) -> (value: &'a str)
    requires
        fields.well_formed(),
    ensures
        value@ == field_value(fields@, key@),
{
    match fields.get(key) {
        Some(value) => value,
        None => "NA",
    }
}

/// The value of a field of the first map, or of the second, or `NA`.
pub open spec fn preferred_value(
    preferred: Map<Seq<char>, Seq<char>>,
    fallback: Map<Seq<char>, Seq<char>>,
    preferred_name: Seq<char>,
    fallback_name: Seq<char>,
) -> Seq<char> {
    if preferred.contains_key(preferred_name) {
        preferred[preferred_name]
    } else {
        field_value(fallback, fallback_name)
    }
}

pub fn first_field<'a>(
    preferred: &'a FieldMap,
    fallback: &'a FieldMap,
    preferred_key: &str,
    fallback_key: &str,
) -> (value: &'a str)
    requires
        preferred.well_formed(),
        fallback.well_formed(),
    ensures
        value@ == preferred_value(preferred@, fallback@, preferred_key@, fallback_key@),
{
    match preferred.get(preferred_key) {
        Some(value) => value,
        None => field_or_na(fallback, fallback_key),
    }
}

/// A category as a name: its letters and digits in lower case, with one
/// underscore for each run of other characters between them.
pub open spec fn squeezed(category: Seq<char>) -> Seq<char>
    decreases category.len(),
{
    if category.len() == 0 {
        Seq::empty()
    } else {
        let before = squeezed(category.drop_last());
        let c = category.last();
        if is_ascii_alphanumeric_char(c) {
            before.push(lower_char(c))
        } else if category.len() == 1 || is_ascii_alphanumeric_char(category[category.len() - 2]) {
            before.push('_')
        } else {
            before
        }
    }
}

pub open spec fn category_key(category: Seq<char>) -> Seq<char> {
    without_trailing(without_leading(squeezed(category), '_'), '_')
}

pub fn metric_key(category: &str) -> (key: String)
    ensures
        key@ == category_key(category@),
{
    let chars = chars_of(category);
    let mut key = String::new();
    let mut previous_underscore: bool = false;
    let mut i: usize = 0;
    while i < chars.len()
        invariant
            i <= chars@.len(),
            key@ == squeezed(chars@.take(i as int)),
            previous_underscore == (i > 0 && !is_ascii_alphanumeric_char(chars@[i - 1])),
        decreases chars@.len() - i,
    {
        let ghost now = chars@.take(i + 1);
        assert(now.drop_last() == chars@.take(i as int));
        assert(i > 0 ==> now[now.len() - 2] == chars@[i - 1]);
        if ascii_alphanumeric(chars[i]) {
            key.push(to_lower(chars[i]));
            previous_underscore = false;
        } else {
            if !previous_underscore {
                key.push('_');
            }
            previous_underscore = true;
        }
        i += 1;
    }
    assert(chars@.take(i as int) == category@);
    strip_trailing(strip_leading(key.as_str(), '_').as_str(), '_')
}

/// The categories that every report has.
pub open spec fn is_required_category(category: Seq<char>) -> bool {
    category == "number"@ || category == "proper_name"@ || category == "negation"@ || category
        == "condition"@
}

/// The categories of a report, in order, each once.
pub open spec fn is_category_list(categories: Seq<Seq<char>>, terms: Seq<TermText>) -> bool {
    &&& forall|i: int, j: int|
        0 <= i < j < categories.len() ==> text_before(
            #[trigger] categories[i],
            #[trigger] categories[j],
        )
    &&& forall|category: Seq<char>| #[trigger]
        categories.contains(category) <==> is_required_category(category) || has_category(
            terms,
            category,
        )
}

pub open spec fn has_category(terms: Seq<TermText>, category: Seq<char>) -> bool {
    exists|i: int| 0 <= i < terms.len() && (#[trigger] terms[i]).category == category
}

proof fn lemma_holds_contains(items: Seq<String>)
    ensures
        forall|text: Seq<char>| #[trigger] texts(items).contains(text) <==> holds(items, text),
{
    assert forall|text: Seq<char>| #[trigger] texts(items).contains(text) <==> holds(
        items,
        text,
    ) by {
        if texts(items).contains(text) {
            let i = texts(items).index_of(text);
            assert(items[i]@ == text);
        }
        if holds(items, text) {
            let i = choose|i: int| 0 <= i < items.len() && #[trigger] items[i]@ == text;
            assert(texts(items)[i] == text);
        }
    }
}

pub fn required_and_present_categories(terms: &Vec<ExpectedTerm>) -> (categories: Vec<String>)
    ensures
        is_category_list(texts(categories@), term_texts(terms@)),
{
    let mut categories: Vec<String> = Vec::new();
    let ghost all = term_texts(terms@);
    insert_in_order(&mut categories, "number");
    insert_in_order(&mut categories, "proper_name");
    insert_in_order(&mut categories, "negation");
    insert_in_order(&mut categories, "condition");
    let mut i: usize = 0;
    assert forall|category: Seq<char>| #[trigger] holds(categories@, category)
        <==> is_required_category(category) || has_category(all.take(0), category) by {}
    while i < terms.len()
        invariant
            i <= terms@.len(),
            all == term_texts(terms@),
            in_order(categories@),
            forall|category: Seq<char>| #[trigger]
                holds(categories@, category) <==> is_required_category(category) || has_category(
                    all.take(i as int),
                    category,
                ),
        decreases terms@.len() - i,
    {
        let ghost before = categories@;
        insert_in_order(&mut categories, terms[i].category.as_str());
        assert forall|category: Seq<char>| #[trigger] holds(categories@, category)
            <==> is_required_category(category) || has_category(all.take(i + 1), category) by {
            let now = all.take(i + 1);
            let seen = all.take(i as int);
            assert(now[i as int].category == terms@[i as int].category@);
            if has_category(now, category) {
                let k = choose|k: int|
                    0 <= k < now.len() && (#[trigger] now[k]).category == category;
                if k < i {
                    assert(seen[k].category == category);
                }
            }
            if has_category(seen, category) {
                let k = choose|k: int|
                    0 <= k < seen.len() && (#[trigger] seen[k]).category == category;
                assert(now[k].category == category);
            }
            assert(holds(categories@, category) <==> holds(before, category) || category
                == terms@[i as int].category@);
        }
        i += 1;
    }
    proof {
        assert(all.take(i as int) == all);
        lemma_holds_contains(categories@);
        let list = texts(categories@);
        assert forall|a: int, b: int| 0 <= a < b < list.len() implies text_before(
            #[trigger] list[a],
            #[trigger] list[b],
        ) by {
            assert(text_before(categories@[a]@, categories@[b]@));
        }
    }
    categories
}

/// What is looked up of each term: whether it is hit.
pub open spec fn term_is_hit(term: TermText, reference: Seq<char>, hypothesis: Seq<char>) -> bool {
    is_term_hit(
        accepted_of(term.variants),
        reference,
        hypothesis,
        gap_starts(reference, hypothesis),
        gap_ends(reference, hypothesis),
    )
}

/// How many of the first `n` terms are of a category.
pub open spec fn category_total(terms: Seq<TermText>, n: nat, category: Seq<char>) -> nat
    decreases n,
{
    if n == 0 {
        0
    } else {
        category_total(terms, (n - 1) as nat, category) + if terms[n - 1].category == category {
            1nat
        } else {
            0
        }
    }
}

/// How many of the first `n` terms are of a category and hit.
pub open spec fn category_hits(
    terms: Seq<TermText>,
    n: nat,
    category: Seq<char>,
    reference: Seq<char>,
    hypothesis: Seq<char>,
) -> nat
    decreases n,
{
    if n == 0 {
        0
    } else {
        category_hits(terms, (n - 1) as nat, category, reference, hypothesis) + if terms[n
            - 1].category == category && term_is_hit(terms[n - 1], reference, hypothesis) {
            1nat
        } else {
            0
        }
    }
}

/// The ids of the first `n` terms that are of a category and not hit.
pub open spec fn missed_ids(
    terms: Seq<TermText>,
    n: nat,
    category: Seq<char>,
    reference: Seq<char>,
    hypothesis: Seq<char>,
) -> Seq<Seq<char>>
    decreases n,
{
    if n == 0 {
        Seq::empty()
    } else {
        let before = missed_ids(terms, (n - 1) as nat, category, reference, hypothesis);
        if terms[n - 1].category == category && !term_is_hit(
            terms[n - 1],
            reference,
            hypothesis,
        ) {
            before.push(terms[n - 1].id)
        } else {
            before
        }
    }
}

/// The metrics of one category of a transcript.
pub open spec fn with_category(
    metrics: Seq<(Seq<char>, MetricText)>,
    terms: Seq<TermText>,
    category: Seq<char>,
    reference: Seq<char>,
    hypothesis: Seq<char>,
) -> Seq<(Seq<char>, MetricText)> {
    let key = category_key(category);
    let total = category_total(terms, terms.len(), category);
    let hits = category_hits(terms, terms.len(), category, reference, hypothesis);
    let missed = missed_ids(terms, terms.len(), category, reference, hypothesis);
    metrics.push((key + "_exact_hits"@, MetricText::Text(decimal(hits)))).push(
        (key + "_exact_total"@, MetricText::Text(decimal(total))),
    ).push(
        (
            key + "_exact_recall"@,
            if total == 0 {
                MetricText::Text("NA"@)
            } else {
                MetricText::Ratio(hits, total)
            },
        ),
    ).push(
        (
            key + "_missed_ids"@,
            MetricText::Text(
                if missed.len() == 0 {
                    "[]"@
                } else {
                    joined(missed, ","@)
                },
            ),
        ),
    )
}

pub open spec fn with_categories(
    metrics: Seq<(Seq<char>, MetricText)>,
    terms: Seq<TermText>,
    categories: Seq<Seq<char>>,
    n: nat,
    reference: Seq<char>,
    hypothesis: Seq<char>,
) -> Seq<(Seq<char>, MetricText)>
    decreases n,
{
    if n == 0 {
        metrics
    } else {
        with_category(
            with_categories(metrics, terms, categories, (n - 1) as nat, reference, hypothesis),
            terms,
            categories[n - 1],
            reference,
            hypothesis,
        )
    }
}

/// The shares of terms that are hit, of the categories that have terms.
pub open spec fn category_ratios(
    terms: Seq<TermText>,
    categories: Seq<Seq<char>>,
    n: nat,
    reference: Seq<char>,
    hypothesis: Seq<char>,
) -> Seq<(nat, nat)>
    decreases n,
{
    if n == 0 {
        Seq::empty()
    } else {
        let before = category_ratios(terms, categories, (n - 1) as nat, reference, hypothesis);
        let total = category_total(terms, terms.len(), categories[n - 1]);
        if total == 0 {
            before
        } else {
            before.push(
                (
                    category_hits(
                        terms,
                        terms.len(),
                        categories[n - 1],
                        reference,
                        hypothesis,
                    ),
                    total,
                ),
            )
        }
    }
}

/// The metrics of the terms of a transcript.
pub open spec fn with_term_metrics(
    metrics: Seq<(Seq<char>, MetricText)>,
    terms: Seq<TermText>,
    categories: Seq<Seq<char>>,
    reference: Seq<char>,
    hypothesis: Seq<char>,
) -> Seq<(Seq<char>, MetricText)> {
    let ratios = category_ratios(terms, categories, categories.len(), reference, hypothesis);
    with_categories(
        metrics,
        terms,
        categories,
        categories.len(),
        reference,
        hypothesis,
    ).push(
        (
            "term_category_macro_exact_recall"@,
            if ratios.len() == 0 {
                MetricText::Text("NA"@)
            } else {
                MetricText::Mean(ratios)
            },
        ),
    )
}

fn with_suffix(key: &String, suffix: &str) -> (name: String)
    ensures
        name@ == key@ + suffix@,
{
    let mut name = key.clone();
    name.append(suffix);
    name
}

proof fn lemma_category_bounds(
    terms: Seq<TermText>,
    n: nat,
    category: Seq<char>,
    reference: Seq<char>,
    hypothesis: Seq<char>,
)
    ensures
        category_total(terms, n, category) <= n,
        category_hits(terms, n, category, reference, hypothesis) <= n,
    decreases n,
{
    if n > 0 {
        lemma_category_bounds(terms, (n - 1) as nat, category, reference, hypothesis);
    }
}

/// Adds the metrics of the terms of a transcript, both texts in the form in
/// which terms are looked for.
pub fn append_term_metrics(
    report: &mut Vec<Metric>,
    terms: &Vec<ExpectedTerm>,
    reference: &[char],
    hypothesis: &[char],
)
    requires
        reference@.len() < usize::MAX,
        hypothesis@.len() < usize::MAX,
    ensures
        exists|categories: Seq<Seq<char>>|
            is_category_list(categories, term_texts(terms@)) && metrics_of(final(report)@)
                == #[trigger] with_term_metrics(
                metrics_of(old(report)@),
                term_texts(terms@),
                categories,
                reference@,
                hypothesis@,
            ),
{
    let gaps = character_alignment_gaps(reference, hypothesis);
    let ghost all = term_texts(terms@);
    let ghost base = metrics_of(report@);
    let categories = required_and_present_categories(terms);
    let ghost list = texts(categories@);
    let mut ratios: Vec<(usize, usize)> = Vec::new();
    let mut c: usize = 0;
    assert(ratio_numbers(ratios@) =~= Seq::<(nat, nat)>::empty());
    while c < categories.len()
        invariant
            c <= categories@.len(),
            all == term_texts(terms@),
            list == texts(categories@),
            gaps.0@ == gap_starts(reference@, hypothesis@),
            gaps.1@ == gap_ends(reference@, hypothesis@),
            forall|k: int|
                0 <= k <= reference@.len() ==> gaps.0@[k] <= #[trigger] gaps.1@[k]
                    <= hypothesis@.len(),
            metrics_of(report@) == with_categories(
                base,
                all,
                list,
                c as nat,
                reference@,
                hypothesis@,
            ),
            ratio_numbers(ratios@) == category_ratios(
                all,
                list,
                c as nat,
                reference@,
                hypothesis@,
            ),
        decreases categories@.len() - c,
    {
        let category = categories[c].as_str();
        assert(list[c as int] == category@);
        let mut missed: Vec<String> = Vec::new();
        let mut hits: usize = 0;
        let mut total: usize = 0;
        let mut i: usize = 0;
        assert(texts(missed@) =~= Seq::<Seq<char>>::empty());
        while i < terms.len()
            invariant
                i <= terms@.len(),
                all == term_texts(terms@),
                gaps.0@ == gap_starts(reference@, hypothesis@),
                gaps.1@ == gap_ends(reference@, hypothesis@),
                forall|k: int|
                    0 <= k <= reference@.len() ==> gaps.0@[k] <= #[trigger] gaps.1@[k]
                        <= hypothesis@.len(),
                total == category_total(all, i as nat, category@),
                hits == category_hits(all, i as nat, category@, reference@, hypothesis@),
                texts(missed@) == missed_ids(
                    all,
                    i as nat,
                    category@,
                    reference@,
                    hypothesis@,
                ),
            decreases terms@.len() - i,
        {
            proof {
                lemma_category_bounds(all, i as nat, category@, reference@, hypothesis@);
            }
            assert(all[i as int] == terms@[i as int].texts());
            if same_text(terms[i].category.as_str(), category) {
                total += 1;
                let accepted = accepted_variants(&terms[i]);
                let hit: bool = variant_hit(&accepted, reference, hypothesis, &gaps.0, &gaps.1);
                assert(hit == term_is_hit(all[i as int], reference@, hypothesis@));
                let ghost before = texts(missed@);
                if hit {
                    hits += 1;
                } else {
                    missed.push(terms[i].id.clone());
                    assert(texts(missed@) =~= before.push(all[i as int].id));
                }
            }
            i += 1;
        }
        let key = metric_key(category);
        push_count(report, with_suffix(&key, "_exact_hits").as_str(), hits);
        push_count(report, with_suffix(&key, "_exact_total").as_str(), total);
        let recall_name = with_suffix(&key, "_exact_recall");
        let ghost before = ratio_numbers(ratios@);
        if total == 0 {
            push_field(report, recall_name.as_str(), "NA");
        } else {
            push_metric(report, recall_name.as_str(), MetricValue::Ratio(hits, total));
            ratios.push((hits, total));
            assert(ratio_numbers(ratios@) =~= before.push((hits as nat, total as nat)));
        }
        let missed_name = with_suffix(&key, "_missed_ids");
        assert(texts(missed@).len() == missed@.len());
        if missed.len() == 0 {
            push_field(report, missed_name.as_str(), "[]");
        } else {
            push_field(report, missed_name.as_str(), join(missed.as_slice(), ",").as_str());
        }
        c += 1;
    }
    assert(list.len() == categories@.len());
    assert(ratio_numbers(ratios@).len() == ratios@.len());
    if ratios.len() == 0 {
        push_field(report, "term_category_macro_exact_recall", "NA");
    } else {
        push_metric(report, "term_category_macro_exact_recall", MetricValue::Mean(ratios));
    }
    proof {
        assert(metrics_of(report@) == with_term_metrics(base, all, list, reference@, hypothesis@));
    }
}

/// The metrics of the terms where there is no transcript.
pub open spec fn with_unavailable_categories(
    metrics: Seq<(Seq<char>, MetricText)>,
    terms: Seq<TermText>,
    categories: Seq<Seq<char>>,
    n: nat,
) -> Seq<(Seq<char>, MetricText)>
    decreases n,
{
    if n == 0 {
        metrics
    } else {
        let key = category_key(categories[n - 1]);
        let total = category_total(terms, terms.len(), categories[n - 1]);
        with_unavailable_categories(metrics, terms, categories, (n - 1) as nat).push(
            (key + "_exact_hits"@, MetricText::Text("NA"@)),
        ).push((key + "_exact_total"@, MetricText::Text(decimal(total)))).push(
            (key + "_exact_recall"@, MetricText::Text("NA"@)),
        ).push((key + "_missed_ids"@, MetricText::Text("NA"@)))
    }
}

pub open spec fn with_unavailable_terms(
    metrics: Seq<(Seq<char>, MetricText)>,
    terms: Seq<TermText>,
    categories: Seq<Seq<char>>,
) -> Seq<(Seq<char>, MetricText)> {
    with_unavailable_categories(metrics, terms, categories, categories.len()).push(
        ("term_category_macro_exact_recall"@, MetricText::Text("NA"@)),
    )
}

/// Adds the metrics of the terms where there is no transcript.
pub fn append_unavailable_term_metrics(report: &mut Vec<Metric>, terms: &Vec<ExpectedTerm>)
    ensures
        exists|categories: Seq<Seq<char>>|
            is_category_list(categories, term_texts(terms@)) && metrics_of(final(report)@)
                == #[trigger] with_unavailable_terms(
                metrics_of(old(report)@),
                term_texts(terms@),
                categories,
            ),
{
    let ghost all = term_texts(terms@);
    let ghost base = metrics_of(report@);
    let categories = required_and_present_categories(terms);
    let ghost list = texts(categories@);
    let mut c: usize = 0;
    while c < categories.len()
        invariant
            c <= categories@.len(),
            all == term_texts(terms@),
            list == texts(categories@),
            metrics_of(report@) == with_unavailable_categories(base, all, list, c as nat),
        decreases categories@.len() - c,
    {
        let category = categories[c].as_str();
        assert(list[c as int] == category@);
        let mut total: usize = 0;
        let mut i: usize = 0;
        while i < terms.len()
            invariant
                i <= terms@.len(),
                all == term_texts(terms@),
                total == category_total(all, i as nat, category@),
            decreases terms@.len() - i,
        {
            proof {
                lemma_category_bounds(all, i as nat, category@, Seq::empty(), Seq::empty());
            }
            assert(all[i as int] == terms@[i as int].texts());
            if same_text(terms[i].category.as_str(), category) {
                total += 1;
            }
            i += 1;
        }
        let key = metric_key(category);
        push_field(report, with_suffix(&key, "_exact_hits").as_str(), "NA");
        push_count(report, with_suffix(&key, "_exact_total").as_str(), total);
        push_field(report, with_suffix(&key, "_exact_recall").as_str(), "NA");
        push_field(report, with_suffix(&key, "_missed_ids").as_str(), "NA");
        c += 1;
    }
    assert(list.len() == categories@.len());
    push_field(report, "term_category_macro_exact_recall", "NA");
    proof {
        assert(metrics_of(report@) == with_unavailable_terms(base, all, list));
    }
}

// ---------------------------------------------------------------------------
// The report
// ---------------------------------------------------------------------------

/// A field that the description of a case must have.
#[derive(Clone, Copy, Debug, PartialEq, Eq, Structural)]
pub enum CaseField {
    CaseId,
    Language,
    UnicodeNormalization,
}

/// Why a case cannot be evaluated.
#[derive(Clone, Copy, Debug, PartialEq, Eq, Structural)]
pub enum EvaluationError {
    CaseFile(TsvFault),
    MissingCaseField(CaseField),
    UnsupportedLanguage,
    WrongNormalization,
    CaseFieldNotNfc,
    TurnsFile(TsvFault),
    NoReferenceTurn,
    TermsFile(TsvFault),
    TurnSpeakerNotNfc(usize),
    TurnTextNotNfc(usize),
    TermCategoryNotNfc(usize),
    TermIdNotNfc(usize),
    TermVariantNotNfc(usize),
    RunFile(TsvFault),
    SuccessWithoutTranscript,
    EmptyReference,
    TermNotLocated(usize),
    /// The texts or the numbers of turns exceed what the tables can hold.
    TooLarge,
}

pub open spec fn is_nfc_text(text: Seq<char>) -> bool {
    nfc_of(text) == text
}

/// The first of the turns `n..` that is not in Normalization Form C.
pub open spec fn turn_nfc_fault(turns: Seq<(Seq<char>, Seq<char>)>, n: int) -> Option<
    EvaluationError,
>
    decreases turns.len() - n,
{
    if n >= turns.len() {
        None
    } else if !is_nfc_text(turns[n].0) {
        Some(EvaluationError::TurnSpeakerNotNfc(n as usize))
    } else if !is_nfc_text(turns[n].1) {
        Some(EvaluationError::TurnTextNotNfc(n as usize))
    } else {
        turn_nfc_fault(turns, n + 1)
    }
}

pub open spec fn variants_are_nfc(variants: Seq<Seq<char>>) -> bool {
    forall|i: int| 0 <= i < variants.len() ==> is_nfc_text(#[trigger] variants[i])
}

/// The first of the terms `n..` that is not in Normalization Form C.
pub open spec fn term_nfc_fault(terms: Seq<TermText>, n: int) -> Option<EvaluationError>
    decreases terms.len() - n,
{
    if n >= terms.len() {
        None
    } else if !is_nfc_text(terms[n].category) {
        Some(EvaluationError::TermCategoryNotNfc(n as usize))
    } else if !is_nfc_text(terms[n].id) {
        Some(EvaluationError::TermIdNotNfc(n as usize))
    } else if !variants_are_nfc(terms[n].variants) {
        Some(EvaluationError::TermVariantNotNfc(n as usize))
    } else {
        term_nfc_fault(terms, n + 1)
    }
}

fn check_turns_nfc(turns: &Vec<Turn>) -> (fault: Option<EvaluationError>)
    ensures
        fault == turn_nfc_fault(turn_texts(turns@), 0),
{
    let ghost all = turn_texts(turns@);
    let mut i: usize = 0;
    while i < turns.len()
        invariant
            i <= turns@.len(),
            all == turn_texts(turns@),
            turn_nfc_fault(all, i as int) == turn_nfc_fault(all, 0),
        decreases turns@.len() - i,
    {
        assert(all[i as int] == (turns@[i as int].speaker@, turns@[i as int].text@));
        if !is_declared_nfc(turns[i].speaker.as_str()) {
            return Some(EvaluationError::TurnSpeakerNotNfc(i));
        }
        if !is_declared_nfc(turns[i].text.as_str()) {
            return Some(EvaluationError::TurnTextNotNfc(i));
        }
        i += 1;
    }
    None
}

fn check_terms_nfc(terms: &Vec<ExpectedTerm>) -> (fault: Option<EvaluationError>)
    ensures
        fault == term_nfc_fault(term_texts(terms@), 0),
{
    let ghost all = term_texts(terms@);
    let mut i: usize = 0;
    while i < terms.len()
        invariant
            i <= terms@.len(),
            all == term_texts(terms@),
            term_nfc_fault(all, i as int) == term_nfc_fault(all, 0),
        decreases terms@.len() - i,
    {
        assert(all[i as int] == terms@[i as int].texts());
        if !is_declared_nfc(terms[i].category.as_str()) {
            return Some(EvaluationError::TermCategoryNotNfc(i));
        }
        if !is_declared_nfc(terms[i].id.as_str()) {
            return Some(EvaluationError::TermIdNotNfc(i));
        }
        let mut v: usize = 0;
        while v < terms[i].variants.len()
            invariant
                i < terms@.len(),
                all == term_texts(terms@),
                all[i as int] == terms@[i as int].texts(),
                v <= terms@[i as int].variants@.len(),
                is_nfc_text(all[i as int].category),
                is_nfc_text(all[i as int].id),
                term_nfc_fault(all, i as int) == term_nfc_fault(all, 0),
                forall|k: int|
                    0 <= k < v ==> is_nfc_text(#[trigger] all[i as int].variants[k]),
            decreases terms@[i as int].variants@.len() - v,
        {
            assert(all[i as int].variants[v as int] == terms@[i as int].variants@[v as int]@);
            if !is_declared_nfc(terms[i].variants[v].as_str()) {
                assert(!is_nfc_text(all[i as int].variants[v as int]));
                return Some(EvaluationError::TermVariantNotNfc(i));
            }
            v += 1;
        }
        assert(variants_are_nfc(all[i as int].variants));
        i += 1;
    }
    None
}

pub open spec fn values_are_nfc(fields: Map<Seq<char>, Seq<char>>) -> bool {
    forall|key: Seq<char>| #[trigger] fields.contains_key(key) ==> is_nfc_text(fields[key])
}

/// The first field, in the order of the names, whose value is not in
/// Normalization Form C.
pub fn first_field_not_nfc(fields: &FieldMap) -> (found: Option<usize>)
    requires
        fields.well_formed(),
    ensures
        match found {
            Some(i) => i < fields.entries@.len() && !is_nfc_text(fields.entries@[i as int].1@)
                && !values_are_nfc(fields@) && forall|k: int|
                0 <= k < i ==> is_nfc_text((#[trigger] fields.entries@[k]).1@),
            None => values_are_nfc(fields@),
        },
{
    let mut i: usize = 0;
    while i < fields.entries.len()
        invariant
            i <= fields.entries@.len(),
            fields.well_formed(),
            forall|k: int| 0 <= k < i ==> is_nfc_text((#[trigger] fields.entries@[k]).1@),
        decreases fields.entries@.len() - i,
    {
        if !is_declared_nfc(fields.entries[i].1.as_str()) {
            proof {
                fields.lemma_entry(i as int);
            }
            return Some(i);
        }
        i += 1;
    }
    assert forall|key: Seq<char>| #[trigger] fields@.contains_key(key) implies is_nfc_text(
        fields@[key],
    ) by {
        let k = choose|k: int|
            0 <= k < fields.entries@.len() && #[trigger] fields.entries@[k].0@ == key;
        fields.lemma_entry(k);
    }
    None
}

/// The texts of the turns put together.
pub open spec fn whole_text(turns: Seq<(Seq<char>, Seq<char>)>) -> Seq<char>
    decreases turns.len(),
{
    if turns.len() == 0 {
        Seq::empty()
    } else {
        whole_text(turns.drop_last()) + turns.last().1
    }
}

pub fn join_texts(turns: &Vec<Turn>) -> (text: String)
    ensures
        text@ == whole_text(turn_texts(turns@)),
{
    let ghost all = turn_texts(turns@);
    let mut text = String::new();
    let mut i: usize = 0;
    while i < turns.len()
        invariant
            i <= turns@.len(),
            all == turn_texts(turns@),
            text@ == whole_text(all.take(i as int)),
        decreases turns@.len() - i,
    {
        assert(all.take(i + 1).drop_last() == all.take(i as int));
        assert(all.take(i + 1).last().1 == turns@[i as int].text@);
        text.append(turns[i].text.as_str());
        i += 1;
    }
    assert(all.take(i as int) == all);
    text
}

/// The status of a run: as it is recorded, else by whether there is a
/// transcript.
pub open spec fn run_status(run: Map<Seq<char>, Seq<char>>, has_transcript: bool) -> Seq<char> {
    if run.contains_key("status"@) {
        run["status"@]
    } else if has_transcript {
        "success"@
    } else {
        "failure"@
    }
}

/// The fields that describe the case and the run.
pub open spec fn header_metrics(
    case: Map<Seq<char>, Seq<char>>,
    run: Map<Seq<char>, Seq<char>>,
    front: Map<Seq<char>, Seq<char>>,
    has_transcript: bool,
) -> Seq<(Seq<char>, MetricText)> {
    let status = run_status(run, has_transcript);
    Seq::<(Seq<char>, MetricText)>::empty().push(("benchmark_schema"@, MetricText::Text("1"@))).push(
        ("case_id"@, MetricText::Text(case["case_id"@])),
    ).push(("language"@, MetricText::Text(case["language"@]))).push(
        ("unicode_normalization"@, MetricText::Text(case["unicode_normalization"@])),
    ).push(("run_id"@, MetricText::Text(field_value(run, "run_id"@)))).push(
        ("run_status"@, MetricText::Text(status)),
    ).push(
        (
            "failed"@,
            MetricText::Text(
                if status != "success"@ {
                    "true"@
                } else {
                    "false"@
                },
            ),
        ),
    ).push(("failure_kind"@, MetricText::Text(field_value(run, "failure_kind"@)))).push(
        ("exit_code"@, MetricText::Text(field_value(run, "exit_code"@))),
    ).push(("elapsed_ms"@, MetricText::Text(field_value(run, "elapsed_ms"@)))).push(
        ("http_attempts"@, MetricText::Text(field_value(run, "http_attempts"@))),
    ).push(
        (
            "accounted_model_responses"@,
            MetricText::Text(
                preferred_value(run, front, "model_responses"@, "accounted_model_responses"@),
            ),
        ),
    ).push(
        (
            "reported_accounted_cost_usd"@,
            MetricText::Text(
                preferred_value(run, front, "cost_usd"@, "reported_accounted_cost_usd"@),
            ),
        ),
    ).push(
        (
            "model_requested"@,
            MetricText::Text(preferred_value(run, front, "model"@, "model_requested"@)),
        ),
    ).push(
        (
            "quality_model_requested"@,
            MetricText::Text(
                preferred_value(
                    run,
                    front,
                    "quality_model"@,
                    "quality_review_model_requested"@,
                ),
            ),
        ),
    ).push(
        (
            "provider_requested"@,
            MetricText::Text(preferred_value(run, front, "provider"@, "asr_provider_expected"@)),
        ),
    ).push(
        (
            "transcript_mode"@,
            MetricText::Text(preferred_value(run, front, "mode"@, "transcript_mode"@)),
        ),
    )
}

fn append_header(
    report: &mut Vec<Metric>,
    case: &FieldMap,
    run: &FieldMap,
    front: &FieldMap,
    has_transcript: bool,
)
    requires
        old(report)@.len() == 0,
        case.well_formed(),
        run.well_formed(),
        front.well_formed(),
        case@.contains_key("case_id"@),
        case@.contains_key("language"@),
        case@.contains_key("unicode_normalization"@),
    ensures
        metrics_of(final(report)@) == header_metrics(case@, run@, front@, has_transcript),
{
    assert(metrics_of(report@) =~= Seq::<(Seq<char>, MetricText)>::empty());
    let status = match run.get("status") {
        Some(value) => value,
        None => if has_transcript {
            "success"
        } else {
            "failure"
        },
    };
    push_field(report, "benchmark_schema", "1");
    push_field(report, "case_id", field_or_na(case, "case_id"));
    push_field(report, "language", field_or_na(case, "language"));
    push_field(report, "unicode_normalization", field_or_na(case, "unicode_normalization"));
    push_field(report, "run_id", field_or_na(run, "run_id"));
    push_field(report, "run_status", status);
    let failed = if same_text(status, "success") {
        "false"
    } else {
        "true"
    };
    push_field(report, "failed", failed);
    push_field(report, "failure_kind", field_or_na(run, "failure_kind"));
    push_field(report, "exit_code", field_or_na(run, "exit_code"));
    push_field(report, "elapsed_ms", field_or_na(run, "elapsed_ms"));
    push_field(report, "http_attempts", field_or_na(run, "http_attempts"));
    push_field(
        report,
        "accounted_model_responses",
        first_field(run, front, "model_responses", "accounted_model_responses"),
    );
    push_field(
        report,
        "reported_accounted_cost_usd",
        first_field(run, front, "cost_usd", "reported_accounted_cost_usd"),
    );
    push_field(
        report,
        "model_requested",
        first_field(run, front, "model", "model_requested"),
    );
    push_field(
        report,
        "quality_model_requested",
        first_field(run, front, "quality_model", "quality_review_model_requested"),
    );
    push_field(
        report,
        "provider_requested",
        first_field(run, front, "provider", "asr_provider_expected"),
    );
    push_field(
        report,
        "transcript_mode",
        first_field(run, front, "mode", "transcript_mode"),
    );
}

/// The metrics of the speakers of a transcript.
pub open spec fn with_speaker_metrics(
    metrics: Seq<(Seq<char>, MetricText)>,
    hypothesis_turns: nat,
    score: SpeakerScore,
) -> Seq<(Seq<char>, MetricText)> {
    let denominator = if score.denominator == 0 {
        1nat
    } else {
        score.denominator as nat
    };
    metrics.push(("hypothesis_turns"@, MetricText::Text(decimal(hypothesis_turns)))).push(
        (
            "speaker_aligned_turn_pairs"@,
            MetricText::Text(decimal(score.aligned_pairs as nat)),
        ),
    ).push(("speaker_turn_alignment_max_cer"@, MetricText::Text("0.600000"@))).push(
        ("speaker_turn_correct"@, MetricText::Text(decimal(score.correct as nat))),
    ).push(
        ("speaker_turn_denominator"@, MetricText::Text(decimal(score.denominator as nat))),
    ).push(
        (
            "speaker_permutation_invariant_turn_accuracy"@,
            MetricText::Ratio(score.correct as nat, denominator),
        ),
    ).push(
        ("speaker_turn_error_rate"@, MetricText::Complement(score.correct as nat, denominator)),
    )
}

/// The metrics of a transcript: its characters, its terms and its speakers.
pub open spec fn is_transcript_report(
    metrics: Seq<(Seq<char>, MetricText)>,
    base: Seq<(Seq<char>, MetricText)>,
    reference: Seq<(Seq<char>, Seq<char>)>,
    terms: Seq<TermText>,
    hypothesis: Seq<(Seq<char>, Seq<char>)>,
) -> bool {
    let expected = normalized_text(whole_text(reference));
    let found = normalized_text(whole_text(hypothesis));
    let errors = edit_distance(expected, found);
    let characters = base.push(
        ("hypothesis_characters"@, MetricText::Text(decimal(found.len()))),
    ).push(("character_errors"@, MetricText::Text(decimal(errors)))).push(
        ("cer"@, MetricText::Ratio(errors, expected.len())),
    );
    exists|categories: Seq<Seq<char>>, score: SpeakerScore|
        #![trigger is_category_list(categories, terms), is_speaker_score(reference, hypothesis, score)]
        {
            &&& is_category_list(categories, terms)
            &&& is_speaker_score(reference, hypothesis, score)
            &&& metrics == with_speaker_metrics(
                with_term_metrics(
                    characters,
                    terms,
                    categories,
                    exact_text(whole_text(reference)),
                    exact_text(whole_text(hypothesis)),
                ),
                hypothesis.len(),
                score,
            )
        }
}

/// The metrics of a run that left no transcript.
pub open spec fn is_failure_report(
    metrics: Seq<(Seq<char>, MetricText)>,
    base: Seq<(Seq<char>, MetricText)>,
    reference_turns: nat,
    terms: Seq<TermText>,
) -> bool {
    let characters = base.push(("hypothesis_characters"@, MetricText::Text("NA"@))).push(
        ("character_errors"@, MetricText::Text("NA"@)),
    ).push(("cer"@, MetricText::Text("NA"@)));
    exists|categories: Seq<Seq<char>>| #[trigger]
        is_category_list(categories, terms) && metrics == with_unavailable_terms(
            characters,
            terms,
            categories,
        ).push(("hypothesis_turns"@, MetricText::Text("NA"@))).push(
            ("speaker_aligned_turn_pairs"@, MetricText::Text("NA"@)),
        ).push(("speaker_turn_alignment_max_cer"@, MetricText::Text("0.600000"@))).push(
            ("speaker_turn_correct"@, MetricText::Text("NA"@)),
        ).push(
            ("speaker_turn_denominator"@, MetricText::Text(decimal(reference_turns))),
        ).push(
            ("speaker_permutation_invariant_turn_accuracy"@, MetricText::Text("NA"@)),
        ).push(("speaker_turn_error_rate"@, MetricText::Text("NA"@)))
}

/// The fields of an optional file; a file that is not there has none.
pub open spec fn optional_fields(content: Option<Seq<char>>) -> Result<
    Map<Seq<char>, Seq<char>>,
    TsvFault,
> {
    match content {
        Some(text) => parsed_fields(text),
        None => Ok(Map::empty()),
    }
}

/// Whether the texts and the numbers of turns fit into the tables.
pub open spec fn report_fits(
    reference: Seq<(Seq<char>, Seq<char>)>,
    hypothesis: Seq<(Seq<char>, Seq<char>)>,
) -> bool {
    &&& exact_text(whole_text(reference)).len() < usize::MAX
    &&& exact_text(whole_text(hypothesis)).len() < usize::MAX
    &&& turns_fit(reference.len(), hypothesis.len())
}

/// The first reason, in the order of the checks, why a case cannot be
/// evaluated.
pub open spec fn evaluation_fault(
    case_content: Seq<char>,
    turns_content: Seq<char>,
    terms_content: Seq<char>,
    run_content: Option<Seq<char>>,
    transcript: Option<Seq<char>>,
) -> Option<EvaluationError> {
    match parsed_fields(case_content) {
        Err(fault) => Some(EvaluationError::CaseFile(fault)),
        Ok(case) => if !case.contains_key("case_id"@) {
            Some(EvaluationError::MissingCaseField(CaseField::CaseId))
        } else if !case.contains_key("language"@) {
            Some(EvaluationError::MissingCaseField(CaseField::Language))
        } else if !starts_with(case["language"@], "zh-"@) {
            Some(EvaluationError::UnsupportedLanguage)
        } else if !case.contains_key("unicode_normalization"@) {
            Some(EvaluationError::MissingCaseField(CaseField::UnicodeNormalization))
        } else if case["unicode_normalization"@] != "NFC"@ {
            Some(EvaluationError::WrongNormalization)
        } else if !values_are_nfc(case) {
            Some(EvaluationError::CaseFieldNotNfc)
        } else {
            match parsed_turns(turns_content) {
                Err(fault) => Some(EvaluationError::TurnsFile(fault)),
                Ok(reference) => if reference.len() == 0 {
                    Some(EvaluationError::NoReferenceTurn)
                } else {
                    match parsed_terms(terms_content) {
                        Err(fault) => Some(EvaluationError::TermsFile(fault)),
                        Ok(terms) => content_fault(
                            reference,
                            terms,
                            run_content,
                            transcript,
                        ),
                    }
                },
            }
        },
    }
}

/// The first reason why parsed files cannot be evaluated.
pub open spec fn content_fault(
    reference: Seq<(Seq<char>, Seq<char>)>,
    terms: Seq<TermText>,
    run_content: Option<Seq<char>>,
    transcript: Option<Seq<char>>,
) -> Option<EvaluationError> {
    if turn_nfc_fault(reference, 0) is Some {
        turn_nfc_fault(reference, 0)
    } else if term_nfc_fault(terms, 0) is Some {
        term_nfc_fault(terms, 0)
    } else {
        match optional_fields(run_content) {
            Err(fault) => Some(EvaluationError::RunFile(fault)),
            Ok(run) => if run_status(run, transcript is Some) == "success"@ && transcript is None {
                Some(EvaluationError::SuccessWithoutTranscript)
            } else if normalized_text(whole_text(reference)).len() == 0 {
                Some(EvaluationError::EmptyReference)
            } else {
                match location_fault(terms, exact_text(whole_text(reference)), 0) {
                    Some(fault) => Some(fault),
                    None => match transcript {
                        Some(text) => if !report_fits(reference, transcript_turns(text)) {
                            Some(EvaluationError::TooLarge)
                        } else {
                            None
                        },
                        None => None,
                    },
                }
            },
        }
    }
}

/// The first of the terms `n..` that does not stand in the reference.
pub open spec fn location_fault(terms: Seq<TermText>, reference: Seq<char>, n: int) -> Option<
    EvaluationError,
>
    decreases terms.len() - n,
{
    if n >= terms.len() {
        None
    } else if !is_located(terms[n], reference) {
        Some(EvaluationError::TermNotLocated(n as usize))
    } else {
        location_fault(terms, reference, n + 1)
    }
}

proof fn lemma_location_fault(terms: Seq<TermText>, reference: Seq<char>, n: int, at: int)
    requires
        0 <= n <= at <= terms.len(),
        forall|k: int| n <= k < at ==> is_located(#[trigger] terms[k], reference),
        at < terms.len() ==> !is_located(terms[at], reference),
    ensures
        location_fault(terms, reference, n) == if at < terms.len() {
            Some(EvaluationError::TermNotLocated(at as usize))
        } else {
            None
        },
    decreases at - n,
{
    if n < at {
        lemma_location_fault(terms, reference, n + 1, at);
    }
}

/// The report of a case that can be evaluated.
pub open spec fn is_evaluation(
    metrics: Seq<(Seq<char>, MetricText)>,
    case: Map<Seq<char>, Seq<char>>,
    reference: Seq<(Seq<char>, Seq<char>)>,
    terms: Seq<TermText>,
    run: Map<Seq<char>, Seq<char>>,
    transcript: Option<Seq<char>>,
) -> bool {
    let front = match transcript {
        Some(text) => transcript_fields(text),
        None => Map::empty(),
    };
    let base = header_metrics(case, run, front, transcript is Some).push(
        (
            "reference_characters"@,
            MetricText::Text(decimal(normalized_text(whole_text(reference)).len())),
        ),
    ).push(("reference_turns"@, MetricText::Text(decimal(reference.len()))));
    match transcript {
        Some(text) => is_transcript_report(
            metrics,
            base,
            reference,
            terms,
            transcript_turns(text),
        ),
        None => is_failure_report(metrics, base, reference.len(), terms),
    }
}

/// The text of an optional string.
pub open spec fn optional_text(text: Option<&str>) -> Option<Seq<char>> {
    match text {
        Some(value) => Some(value@),
        None => None,
    }
}

/// Whether the numbers of turns of the two sides fit into the tables.
fn turn_counts_fit(reference: usize, hypothesis: usize) -> (result: bool)
    ensures
        result == turns_fit(reference as nat, hypothesis as nat),
{
    let a: u128 = reference as u128 + 1;
    let b: u128 = hypothesis as u128 + 1;
    let limit: u128 = if usize::MAX as u128 <= 0x0fff_ffff_ffff_ffff {
        usize::MAX as u128
    } else {
        0x0fff_ffff_ffff_ffff
    };
    proof {
        assert((a <= limit / b) == (a * b <= limit)) by (nonlinear_arith)
            requires
                b > 0,
                a > 0,
                limit >= 0,
        ;
    }
    a <= limit / b
}

/// Appends the metrics of a transcript to the description of its case.
fn append_transcript(
    report: &mut Vec<Metric>,
    reference: &Vec<Turn>,
    terms: &Vec<ExpectedTerm>,
    hypothesis: &Vec<Turn>,
)
    requires
        report_fits(turn_texts(reference@), turn_texts(hypothesis@)),
    ensures
        is_transcript_report(
            metrics_of(final(report)@),
            metrics_of(old(report)@),
            turn_texts(reference@),
            term_texts(terms@),
            turn_texts(hypothesis@),
        ),
{
    let ghost base = metrics_of(report@);
    let reference_text = join_texts(reference);
    let hypothesis_text = join_texts(hypothesis);
    let expected = chars_of(normalize_text(reference_text.as_str()).as_str());
    let found = chars_of(normalize_text(hypothesis_text.as_str()).as_str());
    let errors: usize = levenshtein(expected.as_slice(), found.as_slice());
    push_count(report, "hypothesis_characters", found.len());
    push_count(report, "character_errors", errors);
    push_metric(report, "cer", MetricValue::Ratio(errors, expected.len()));
    let ghost characters = metrics_of(report@);
    let exact_reference = chars_of(normalize_exact_text(reference_text.as_str()).as_str());
    let exact_hypothesis = chars_of(normalize_exact_text(hypothesis_text.as_str()).as_str());
    append_term_metrics(report, terms, exact_reference.as_slice(), exact_hypothesis.as_slice());
    let ghost with_terms = metrics_of(report@);
    let ghost categories = choose|categories: Seq<Seq<char>>|
        is_category_list(categories, term_texts(terms@)) && with_terms
            == #[trigger] with_term_metrics(
            characters,
            term_texts(terms@),
            categories,
            exact_reference@,
            exact_hypothesis@,
        );
    let score = score_speakers(reference, hypothesis);
    push_count(report, "hypothesis_turns", hypothesis.len());
    push_count(report, "speaker_aligned_turn_pairs", score.aligned_pairs);
    push_field(report, "speaker_turn_alignment_max_cer", "0.600000");
    push_count(report, "speaker_turn_correct", score.correct);
    push_count(report, "speaker_turn_denominator", score.denominator);
    let denominator: usize = if score.denominator == 0 {
        1
    } else {
        score.denominator
    };
    push_metric(
        report,
        "speaker_permutation_invariant_turn_accuracy",
        MetricValue::Ratio(score.correct, denominator),
    );
    push_metric(
        report,
        "speaker_turn_error_rate",
        MetricValue::Complement(score.correct, denominator),
    );
    proof {
        assert(is_category_list(categories, term_texts(terms@)));
        assert(is_speaker_score(turn_texts(reference@), turn_texts(hypothesis@), score));
        assert(metrics_of(report@) == with_speaker_metrics(with_terms, hypothesis@.len(), score));
    }
}

/// Appends what is known of a run that left no transcript.
fn append_failure(report: &mut Vec<Metric>, reference_turns: usize, terms: &Vec<ExpectedTerm>)
    ensures
        is_failure_report(
            metrics_of(final(report)@),
            metrics_of(old(report)@),
            reference_turns as nat,
            term_texts(terms@),
        ),
{
    push_field(report, "hypothesis_characters", "NA");
    push_field(report, "character_errors", "NA");
    push_field(report, "cer", "NA");
    let ghost characters = metrics_of(report@);
    append_unavailable_term_metrics(report, terms);
    let ghost with_terms = metrics_of(report@);
    let ghost categories = choose|categories: Seq<Seq<char>>|
        is_category_list(categories, term_texts(terms@)) && with_terms
            == #[trigger] with_unavailable_terms(characters, term_texts(terms@), categories);
    push_field(report, "hypothesis_turns", "NA");
    push_field(report, "speaker_aligned_turn_pairs", "NA");
    push_field(report, "speaker_turn_alignment_max_cer", "0.600000");
    push_field(report, "speaker_turn_correct", "NA");
    push_count(report, "speaker_turn_denominator", reference_turns);
    push_field(report, "speaker_permutation_invariant_turn_accuracy", "NA");
    push_field(report, "speaker_turn_error_rate", "NA");
    assert(is_category_list(categories, term_texts(terms@)));
}

/// Evaluates a transcript, or the run that left none, against a case, given
/// the contents of the files.
pub fn evaluate(
    case_content: &str,
    turns_content: &str,
    terms_content: &str,
    run_content: Option<&str>,
    transcript: Option<&str>,
) -> (result: Result<Vec<Metric>, EvaluationError>)
    ensures
        match result {
            Err(error) => evaluation_fault(
                case_content@,
                turns_content@,
                terms_content@,
                optional_text(run_content),
                optional_text(transcript),
            ) == Some(error),
            Ok(report) => evaluation_fault(
                case_content@,
                turns_content@,
                terms_content@,
                optional_text(run_content),
                optional_text(transcript),
            ) is None && is_evaluation(
                metrics_of(report@),
                parsed_fields(case_content@)->Ok_0,
                parsed_turns(turns_content@)->Ok_0,
                parsed_terms(terms_content@)->Ok_0,
                optional_fields(optional_text(run_content))->Ok_0,
                optional_text(transcript),
            ),
        },
{
    let case = match parse_key_value_tsv(case_content) {
        Ok(fields) => fields,
        Err(fault) => {
            return Err(EvaluationError::CaseFile(fault));
        },
    };
    if case.get("case_id").is_none() {
        return Err(EvaluationError::MissingCaseField(CaseField::CaseId));
    }
    match case.get("language") {
        None => {
            return Err(EvaluationError::MissingCaseField(CaseField::Language));
        },
        Some(language) => {
            if !starts_with_str(language, "zh-") {
                return Err(EvaluationError::UnsupportedLanguage);
            }
        },
    }
    match case.get("unicode_normalization") {
        None => {
            return Err(EvaluationError::MissingCaseField(CaseField::UnicodeNormalization));
        },
        Some(form) => {
            if !same_text(form, "NFC") {
                return Err(EvaluationError::WrongNormalization);
            }
        },
    }
    if first_field_not_nfc(&case).is_some() {
        return Err(EvaluationError::CaseFieldNotNfc);
    }
    let reference = match parse_turns(turns_content) {
        Ok(turns) => turns,
        Err(fault) => {
            return Err(EvaluationError::TurnsFile(fault));
        },
    };
    let ghost ref_turns = turn_texts(reference@);
    assert(ref_turns.len() == reference@.len());
    if reference.len() == 0 {
        return Err(EvaluationError::NoReferenceTurn);
    }
    let terms = match parse_terms(terms_content) {
        Ok(terms) => terms,
        Err(fault) => {
            return Err(EvaluationError::TermsFile(fault));
        },
    };
    let ghost all_terms = term_texts(terms@);
    match check_turns_nfc(&reference) {
        Some(fault) => {
            return Err(fault);
        },
        None => {},
    }
    match check_terms_nfc(&terms) {
        Some(fault) => {
            return Err(fault);
        },
        None => {},
    }
    let run = match run_content {
        Some(content) => match parse_key_value_tsv(content) {
            Ok(fields) => fields,
            Err(fault) => {
                return Err(EvaluationError::RunFile(fault));
            },
        },
        None => FieldMap::new(),
    };
    let succeeded: bool = match run.get("status") {
        Some(status) => same_text(status, "success"),
        None => transcript.is_some(),
    };
    proof {
        reveal_strlit("success");
        reveal_strlit("failure");
        assert("success"@[0] != "failure"@[0]);
        assert(succeeded == (run_status(run@, transcript is Some) == "success"@));
    }
    if succeeded && transcript.is_none() {
        return Err(EvaluationError::SuccessWithoutTranscript);
    }
    let reference_text = join_texts(&reference);
    let normalized_reference = normalize_text(reference_text.as_str());
    if normalized_reference.as_str().is_empty() {
        return Err(EvaluationError::EmptyReference);
    }
    let exact_reference = chars_of(normalize_exact_text(reference_text.as_str()).as_str());
    let missing = validate_term_locations(&terms, exact_reference.as_slice());
    proof {
        let at = match missing {
            Some(i) => i as int,
            None => all_terms.len() as int,
        };
        assert forall|k: int| 0 <= k < at implies is_located(
            #[trigger] all_terms[k],
            exact_reference@,
        ) by {
            assert(all_terms[k] == terms@[k].texts());
        }
        if at < all_terms.len() {
            assert(all_terms[at] == terms@[at].texts());
        }
        lemma_location_fault(all_terms, exact_reference@, 0, at);
    }
    match missing {
        Some(i) => {
            return Err(EvaluationError::TermNotLocated(i));
        },
        None => {},
    }
    let mut report: Vec<Metric> = Vec::new();
    let count: usize = chars_of(normalized_reference.as_str()).len();
    match transcript {
        Some(content) => {
            let parsed = parse_spt_markdown(content);
            let front = parsed.0;
            let hypothesis = parsed.1;
            let exact_hypothesis = chars_of(
                normalize_exact_text(join_texts(&hypothesis).as_str()).as_str(),
            );
            assert(turn_texts(hypothesis@).len() == hypothesis@.len());
            if exact_reference.len() == usize::MAX || exact_hypothesis.len() == usize::MAX
                || !turn_counts_fit(reference.len(), hypothesis.len()) {
                return Err(EvaluationError::TooLarge);
            }
            append_header(&mut report, &case, &run, &front, true);
            push_count(&mut report, "reference_characters", count);
            push_count(&mut report, "reference_turns", reference.len());
            append_transcript(&mut report, &reference, &terms, &hypothesis);
        },
        None => {
            let front = FieldMap::new();
            append_header(&mut report, &case, &run, &front, false);
            push_count(&mut report, "reference_characters", count);
            push_count(&mut report, "reference_turns", reference.len());
            append_failure(&mut report, reference.len(), &terms);
        },
    }
    Ok(report)
}

/// A text with spaces in place of tabs and line ends.
pub open spec fn sanitized(text: Seq<char>) -> Seq<char> {
    Seq::new(
        text.len(),
        |i: int|
            if text[i] == '\t' || text[i] == '\n' || text[i] == '\r' {
                ' '
            } else {
                text[i]
            },
    )
}

pub fn sanitize_tsv(value: &str) -> (result: String)
    ensures
        result@ == sanitized(value@),
{
    let chars = chars_of(value);
    let mut result = String::new();
    let mut i: usize = 0;
    while i < chars.len()
        invariant
            i <= chars@.len(),
            chars@ == value@,
            result@ == sanitized(value@).take(i as int),
        decreases chars@.len() - i,
    {
        let c = chars[i];
        if c == '\t' || c == '\n' || c == '\r' {
            result.push(' ');
        } else {
            result.push(c);
        }
        i += 1;
    }
    result
}

/// The lines of a report, each a name, a tab and a value.
pub open spec fn report_lines(fields: Seq<(Seq<char>, Seq<char>)>) -> Seq<char>
    decreases fields.len(),
{
    if fields.len() == 0 {
        "metric\tvalue\n"@
    } else {
        (report_lines(fields.drop_last()) + sanitized(fields.last().0)).push('\t') + sanitized(
            fields.last().1,
        ) + seq!['\n']
    }
}

pub open spec fn field_texts(fields: Seq<(String, String)>) -> Seq<(Seq<char>, Seq<char>)> {
    Seq::new(fields.len(), |i: int| (fields[i].0@, fields[i].1@))
}

/// Writes the report, given its names and the texts of its values.
pub fn render_report(fields: &Vec<(String, String)>) -> (output: String)
    ensures
        output@ == report_lines(field_texts(fields@)),
{
    let ghost all = field_texts(fields@);
    let mut output = "metric\tvalue\n".to_owned();
    let mut i: usize = 0;
    while i < fields.len()
        invariant
            i <= fields@.len(),
            all == field_texts(fields@),
            output@ == report_lines(all.take(i as int)),
        decreases fields@.len() - i,
    {
        proof {
            assert(all.take(i + 1).drop_last() == all.take(i as int));
            assert(all.take(i + 1).last() == (fields@[i as int].0@, fields@[i as int].1@));
        }
        output.append(sanitize_tsv(fields[i].0.as_str()).as_str());
        output.push('\t');
        output.append(sanitize_tsv(fields[i].1.as_str()).as_str());
        output.push('\n');
        assert(output@ =~= report_lines(all.take(i + 1)));
        i += 1;
    }
    assert(all.take(i as int) == all);
    output
}

} // verus!
