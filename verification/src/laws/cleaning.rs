//! What the cleanup of a text changes and what it leaves.
use vstd::prelude::*;
use crate::cleanup::{
    after_spaces, before_spaces, cleaned, drops_space, fullwidth_of, in_address, in_code,
    in_literal, in_literal_of, is_address, is_protected, literal_end, literal_marks, mark_at,
    sounds_disfluent, takes_fullwidth, token_end, without_spaces,
};
use crate::text::{
    char_is_numeric, contains_text, is_white_space, lemma_position_of, lowercased, occurs_at,
    starts_with,
};

verus! {

// ---------------------------------------------------------------------------
// What is left
// ---------------------------------------------------------------------------

proof fn lemma_cleaned_segment(text: Seq<char>, from: nat, to: nat)
    requires
        from <= to <= text.len(),
        forall|k: int| from <= k < to ==> !#[trigger] drops_space(text, k),
    ensures
        cleaned(text, to) == cleaned(text, from) + Seq::new(
            (to - from) as nat,
            |k: int| mark_at(text, from + k),
        ),
    decreases to - from,
{
    if from < to {
        lemma_cleaned_segment(text, from, (to - 1) as nat);
        assert(!drops_space(text, to - 1));
    }
    assert(cleaned(text, to) =~= cleaned(text, from) + Seq::new(
        (to - from) as nat,
        |k: int| mark_at(text, from + k),
    ));
}

proof fn lemma_cleaned_grows(text: Seq<char>, from: nat, to: nat)
    requires
        from <= to <= text.len(),
    ensures
        cleaned(text, from).len() <= cleaned(text, to).len(),
        cleaned(text, to).take(cleaned(text, from).len() as int) == cleaned(text, from),
    decreases to - from,
{
    if from < to {
        lemma_cleaned_grows(text, from, (to - 1) as nat);
    }
    assert(cleaned(text, to).take(cleaned(text, from).len() as int) =~= cleaned(text, from));
}

/// What is protected from `from` to `to` stands in the text after the cleanup
/// too.
pub proof fn lemma_protected_is_left(text: Seq<char>, from: int, to: int)
    requires
        0 <= from <= to <= text.len(),
        forall|k: int| from <= k < to ==> #[trigger] is_protected(text, k),
    ensures
        contains_text(cleaned(text, text.len()), text.subrange(from, to)),
{
    assert forall|k: int| from <= k < to implies !#[trigger] drops_space(text, k) by {
        assert(is_protected(text, k));
    }
    lemma_cleaned_segment(text, from as nat, to as nat);
    lemma_cleaned_grows(text, to as nat, text.len());
    let whole = cleaned(text, text.len());
    let at = cleaned(text, from as nat).len() as int;
    let middle = text.subrange(from, to);
    assert forall|k: int| 0 <= k < to - from implies whole[at + k] == middle[k] by {
        assert(is_protected(text, from + k));
        assert(cleaned(text, to as nat)[at + k] == mark_at(text, from + k));
        assert(whole.take(cleaned(text, to as nat).len() as int)[at + k] == whole[at + k]);
    }
    assert(whole.subrange(at, at + middle.len()) =~= middle);
    assert(occurs_at(whole, at, middle));
}

/// The pairs of marks that keep what stands between them.
pub open spec fn keeps_between(opening: char, closing: char) -> bool {
    (opening == '"' && closing == '"') || (opening == '“' && closing == '”') || (opening == '‘'
        && closing == '’') || (opening == '《' && closing == '》') || (opening == '〈' && closing
        == '〉') || (opening == '「' && closing == '」') || (opening == '『' && closing == '』') || (
    opening == '(' && closing == ')') || (opening == '（' && closing == '）') || (opening == '['
        && closing == ']') || (opening == '【' && closing == '】') || (opening == '{' && closing
        == '}') || (opening == '｛' && closing == '｝')
}

proof fn lemma_pair_listed(opening: char, closing: char) -> (n: int)
    requires
        keeps_between(opening, closing),
    ensures
        0 <= n < literal_marks().len(),
        literal_marks()[n] == (opening, closing),
{
    let marks = literal_marks();
    assert(marks[0] == ('"', '"'));
    assert(marks[1] == ('“', '”'));
    assert(marks[2] == ('‘', '’'));
    assert(marks[3] == ('《', '》'));
    assert(marks[4] == ('〈', '〉'));
    assert(marks[5] == ('「', '」'));
    assert(marks[6] == ('『', '』'));
    assert(marks[7] == ('(', ')'));
    assert(marks[8] == ('（', '）'));
    assert(marks[9] == ('[', ']'));
    assert(marks[10] == ('【', '】'));
    assert(marks[11] == ('{', '}'));
    assert(marks[12] == ('｛', '｝'));
    choose|n: int| 0 <= n < marks.len() && #[trigger] marks[n] == (opening, closing)
}

proof fn lemma_literal_of_pair(text: Seq<char>, from: int, n: int, i: int)
    requires
        0 <= from <= n < literal_marks().len(),
        in_literal(text, literal_marks()[n].0, literal_marks()[n].1, 0, i),
    ensures
        in_literal_of(text, from, i),
    decreases n - from,
{
    if from < n {
        lemma_literal_of_pair(text, from + 1, n, i);
    }
}

/// What stands between the first opening mark of a pair and the closing mark
/// behind it is left as it is, with the two marks.
pub proof fn lemma_between_marks_is_left(
    before: Seq<char>,
    opening: char,
    middle: Seq<char>,
    closing: char,
    behind: Seq<char>,
)
    requires
        keeps_between(opening, closing),
        !before.contains(opening),
        !middle.contains(closing),
    ensures
        contains_text(
            cleaned(
                before + seq![opening] + middle + seq![closing] + behind,
                (before + seq![opening] + middle + seq![closing] + behind).len(),
            ),
            seq![opening] + middle + seq![closing],
        ),
{
    let text = before + seq![opening] + middle + seq![closing] + behind;
    let a = before.len() as int;
    let b = a + 1 + middle.len();
    assert forall|k: int| 0 <= k < a implies #[trigger] text[k] != opening by {
        assert(text[k] == before[k]);
        assert(before.contains(before[k]));
    }
    assert(text[a] == opening);
    assert forall|k: int| a + 1 <= k < b implies #[trigger] text[k] != closing by {
        assert(text[k] == middle[k - a - 1]);
        assert(middle.contains(middle[k - a - 1]));
    }
    assert(text[b] == closing);
    lemma_position_of(text, opening, 0, a);
    lemma_position_of(text, closing, a + 1, b);
    let n = lemma_pair_listed(opening, closing);
    assert forall|k: int| a <= k < b + 1 implies #[trigger] is_protected(text, k) by {
        assert(literal_end(text, closing, a) == b + 1);
        assert(in_literal(text, opening, closing, 0, k));
        lemma_literal_of_pair(text, 0, n, k);
    }
    lemma_protected_is_left(text, a, b + 1);
    assert(text.subrange(a, b + 1) =~= seq![opening] + middle + seq![closing]);
}

proof fn lemma_token_reaches(text: Seq<char>, from: int, end: int)
    requires
        0 <= from <= end <= text.len(),
        forall|k: int| from <= k < end ==> !is_white_space(#[trigger] text[k]),
        end < text.len() ==> is_white_space(text[end]),
    ensures
        token_end(text, from) == end,
    decreases end - from,
{
    if from < end {
        lemma_token_reaches(text, from + 1, end);
    }
}

proof fn lemma_token_stops(text: Seq<char>, from: int, stop: int)
    requires
        0 <= from <= stop < text.len(),
        is_white_space(text[stop]),
    ensures
        from <= token_end(text, from) <= stop,
        !is_white_space(text[from]) ==> from < token_end(text, from),
    decreases stop - from,
{
    if from < stop && !is_white_space(text[from]) {
        lemma_token_stops(text, from + 1, stop);
    }
}

proof fn lemma_in_token(text: Seq<char>, from: int, a: int, end: int, i: int)
    requires
        0 <= from <= a <= i < end <= text.len(),
        a > 0 ==> is_white_space(text[a - 1]),
        forall|k: int| a <= k < end ==> !is_white_space(#[trigger] text[k]),
        end < text.len() ==> is_white_space(text[end]),
        is_address(text.subrange(a, end)),
    ensures
        in_address(text, from, i),
    decreases a - from,
{
    if from == a {
        lemma_token_reaches(text, a, end);
    } else if is_white_space(text[from]) {
        lemma_in_token(text, from + 1, a, end, i);
    } else {
        lemma_token_stops(text, from, a - 1);
        lemma_in_token(text, token_end(text, from), a, end, i);
    }
}

/// A web or mail address, which white space sets apart, is left as it is.
pub proof fn lemma_address_is_left(text: Seq<char>, a: int, end: int)
    requires
        0 <= a < end <= text.len(),
        a > 0 ==> is_white_space(text[a - 1]),
        forall|k: int| a <= k < end ==> !is_white_space(#[trigger] text[k]),
        end < text.len() ==> is_white_space(text[end]),
        contains_text(text.subrange(a, end), "://"@) || contains_text(text.subrange(a, end), "@"@)
            || starts_with(text.subrange(a, end), "www."@) || starts_with(
            text.subrange(a, end),
            "WWW."@,
        ),
    ensures
        contains_text(cleaned(text, text.len()), text.subrange(a, end)),
{
    let token = text.subrange(a, end);
    if starts_with(token, "www."@) || starts_with(token, "WWW."@) {
        reveal_strlit("www.");
        reveal_strlit("WWW.");
        let small = lowercased(token);
        assert forall|k: int| 0 <= k < 4 implies small[k] == "www."@[k] by {
            assert(token.take(4)[k] == token[k]);
        }
        assert(small.take(4) =~= "www."@);
    }
    assert(is_address(token));
    assert forall|k: int| a <= k < end implies #[trigger] is_protected(text, k) by {
        lemma_in_token(text, 0, a, end, k);
    }
    lemma_protected_is_left(text, a, end);
}

// ---------------------------------------------------------------------------
// What is changed
// ---------------------------------------------------------------------------

/// The wide form of a mark.
pub open spec fn is_wide_form(narrow: char, wide: char) -> bool {
    (narrow == ',' && wide == '，') || (narrow == '?' && wide == '？') || (narrow == '!' && wide
        == '！') || (narrow == ';' && wide == '；') || (narrow == ':' && wide == '：')
}

pub open spec fn is_narrow_mark(c: char) -> bool {
    c == ',' || c == '?' || c == '!' || c == ';' || c == ':'
}

/// An ideograph of the basic block.
pub open spec fn is_word(c: char) -> bool {
    0x4e00 <= c as u32 <= 0x9fff
}

/// A text of words and narrow marks alone.
pub open spec fn is_plain_chinese(text: Seq<char>) -> bool {
    forall|i: int|
        0 <= i < text.len() ==> is_word(#[trigger] text[i]) || is_narrow_mark(text[i])
}

proof fn lemma_no_code(text: Seq<char>, from: int, i: int)
    requires
        is_plain_chinese(text),
    ensures
        !in_code(text, from, i),
    decreases text.len() - from,
{
    if 0 <= from < text.len() {
        assert(is_word(text[from]) || is_narrow_mark(text[from]));
        lemma_no_code(text, from + 1, i);
    }
}

proof fn lemma_no_literal(text: Seq<char>, n: int, i: int)
    requires
        is_plain_chinese(text),
        n >= 0,
    ensures
        !in_literal_of(text, n, i),
    decreases literal_marks().len() - n,
{
    if n < literal_marks().len() {
        let opening = literal_marks()[n].0;
        assert(literal_marks().len() == 13);
        assert(!is_word(opening) && !is_narrow_mark(opening));
        assert forall|k: int| 0 <= k < text.len() implies #[trigger] text[k] != opening by {
            assert(is_word(text[k]) || is_narrow_mark(text[k]));
        }
        lemma_position_of(text, opening, 0, text.len() as int);
        lemma_no_literal(text, n + 1, i);
    }
}

proof fn lemma_token_bounds(text: Seq<char>, from: int)
    requires
        0 <= from <= text.len(),
    ensures
        from <= token_end(text, from) <= text.len(),
    decreases text.len() - from,
{
    if from < text.len() && !is_white_space(text[from]) {
        lemma_token_bounds(text, from + 1);
    }
}

proof fn lemma_no_address(text: Seq<char>, from: int, i: int)
    requires
        is_plain_chinese(text),
        0 <= from,
    ensures
        !in_address(text, from, i),
    decreases text.len() - from,
{
    if from < text.len() {
        assert(is_word(text[from]) || is_narrow_mark(text[from]));
        assert(!is_white_space(text[from]));
        let end = token_end(text, from);
        lemma_token_bounds(text, from);
        lemma_token_bounds(text, from + 1);
        let token = text.subrange(from, end);
        reveal_strlit("://");
        reveal_strlit("@");
        reveal_strlit("www.");
        assert forall|k: int| 0 <= k < token.len() implies is_word(#[trigger] token[k])
            || is_narrow_mark(token[k]) by {
            assert(token[k] == text[from + k]);
        }
        if contains_text(token, "://"@) {
            let at = choose|at: int| #[trigger] occurs_at(token, at, "://"@);
            assert(token.subrange(at, at + 3)[1] == '/');
            assert(token[at + 1] == '/');
        }
        if contains_text(token, "@"@) {
            let at = choose|at: int| #[trigger] occurs_at(token, at, "@"@);
            assert(token.subrange(at, at + 1)[0] == '@');
            assert(token[at] == '@');
        }
        if starts_with(lowercased(token), "www."@) {
            assert(lowercased(token).take(4)[0] == 'w');
            assert(lowercased(token)[0] == 'w');
            assert(is_word(token[0]) || is_narrow_mark(token[0]));
        }
        lemma_no_address(text, end, i);
    }
}

proof fn lemma_none_before(text: Seq<char>, i: int)
    requires
        is_plain_chinese(text),
        0 <= i <= text.len(),
    ensures
        before_spaces(text, i) == i - 1,
        after_spaces(text, i) == i,
{
    if i > 0 {
        assert(is_word(text[i - 1]) || is_narrow_mark(text[i - 1]));
    }
    if i < text.len() {
        assert(is_word(text[i]) || is_narrow_mark(text[i]));
    }
}

/// In a text of Chinese words and narrow marks, every mark beside a word takes
/// its wide form, where it does not stand between digits, every word stays, and
/// nothing is left out.
pub proof fn lemma_marks_become_wide(text: Seq<char>, i: int)
    requires
        is_plain_chinese(text),
        0 <= i < text.len(),
    ensures
        cleaned(text, text.len()).len() == text.len(),
        is_word(text[i]) ==> cleaned(text, text.len())[i] == text[i],
        is_narrow_mark(text[i]) && (0 < i && is_word(text[i - 1]) || i + 1 < text.len() && is_word(
            text[i + 1],
        )) && !(0 < i && i + 1 < text.len() && char_is_numeric(text[i - 1]) && char_is_numeric(
            text[i + 1],
        )) ==> is_wide_form(text[i], cleaned(text, text.len())[i]),
{
    assert forall|k: int| 0 <= k < text.len() implies !#[trigger] drops_space(text, k) by {
        assert(is_word(text[k]) || is_narrow_mark(text[k]));
    }
    lemma_cleaned_segment(text, 0, text.len());
    assert(cleaned(text, text.len())[i] == mark_at(text, i));
    assert(is_word(text[i]) || is_narrow_mark(text[i]));
    lemma_no_code(text, 0, i);
    lemma_no_literal(text, 0, i);
    lemma_no_address(text, 0, i);
    lemma_none_before(text, i);
    lemma_none_before(text, i + 1);
    if 0 < i {
        assert(is_word(text[i - 1]) || is_narrow_mark(text[i - 1]));
        assert(!is_white_space(text[i - 1]));
        if is_word(text[i - 1]) {
            assert(fullwidth_of(text[i - 1]) is None);
            assert(!takes_fullwidth(text, i - 1));
        }
    }
    if i + 1 < text.len() {
        assert(is_word(text[i + 1]) || is_narrow_mark(text[i + 1]));
        assert(!is_white_space(text[i + 1]));
    }
}

/// A single space beside a Chinese mark is left out, and spaces nowhere else:
/// two together stay, and so does one between other characters.
pub proof fn lemma_spaces_left_out(text: Seq<char>, i: int)
    requires
        0 < i,
        i + 1 < text.len(),
        text[i] == ' ',
        !is_protected(text, i),
        !is_narrow_mark(text[i - 1]),
        !is_narrow_mark(text[i + 1]),
    ensures
        text[i - 1] != ' ' && text[i + 1] != ' ' ==> (drops_space(text, i) <==> ends_phrase(
            text[i - 1],
        ) || ends_phrase(text[i + 1])),
        text[i - 1] == ' ' && !is_protected(text, i - 1) ==> !drops_space(text, i),
        text[i + 1] == ' ' && !is_protected(text, i + 1) ==> !drops_space(text, i),
{
    assert(fullwidth_of(text[i - 1]) is None);
    assert(fullwidth_of(text[i + 1]) is None);
    if text[i - 1] != ' ' && text[i + 1] != ' ' {
        assert(before_spaces(text, i) == i - 1);
        assert(after_spaces(text, i + 1) == i + 1);
        assert(mark_at(text, i - 1) == text[i - 1]);
        assert(mark_at(text, i + 1) == text[i + 1]);
    }
}

/// The Chinese marks beside which no space stands.
pub open spec fn ends_phrase(c: char) -> bool {
    c == '，' || c == '。' || c == '！' || c == '？' || c == '；' || c == '：' || c == '、' || c
        == '”' || c == '’' || c == '》' || c == '）' || c == '】'
}

// ---------------------------------------------------------------------------
// Hesitation
// ---------------------------------------------------------------------------

proof fn lemma_spaces_aside(left: Seq<char>, right: Seq<char>, n: nat)
    requires
        n <= right.len(),
    ensures
        without_spaces(left + right, left.len() + n) == without_spaces(left, left.len())
            + without_spaces(right, n),
    decreases n,
{
    let text = left + right;
    if n == 0 {
        lemma_same_start(text, left, left.len());
        assert(without_spaces(left, left.len()) + without_spaces(right, 0) =~= without_spaces(
            left,
            left.len(),
        ));
    } else {
        lemma_spaces_aside(left, right, (n - 1) as nat);
        assert(text[left.len() + n - 1] == right[n - 1]);
        assert(without_spaces(text, left.len() + n) =~= without_spaces(left, left.len())
            + without_spaces(right, n));
    }
}

proof fn lemma_same_start(text: Seq<char>, left: Seq<char>, n: nat)
    requires
        n <= left.len() <= text.len(),
        forall|i: int| 0 <= i < left.len() ==> text[i] == #[trigger] left[i],
    ensures
        without_spaces(text, n) == without_spaces(left, n),
    decreases n,
{
    if n > 0 {
        lemma_same_start(text, left, (n - 1) as nat);
        assert(text[n - 1] == left[n - 1]);
    }
}

proof fn lemma_solid(text: Seq<char>, n: nat)
    requires
        n <= text.len(),
        forall|i: int| 0 <= i < n ==> !is_white_space(#[trigger] text[i]),
    ensures
        without_spaces(text, n) == text.take(n as int),
    decreases n,
{
    if n > 0 {
        lemma_solid(text, (n - 1) as nat);
        assert(!is_white_space(text[n - 1]));
    }
    assert(without_spaces(text, n) =~= text.take(n as int));
}

/// The words that show that a speaker hesitates.
pub open spec fn shows_hesitation(word: Seq<char>) -> bool {
    word == "嗯"@ || word == "呃"@ || word == "我我"@ || word == "你你"@ || word == "然后然后"@ || word
        == "但是但是"@ || word == "所以所以"@ || word == "Sorry,Sorry"@ || word == "sorry,sorry"@
}

/// A text that holds such a word, in one piece or with white space between its
/// characters, is said to hesitate.
pub proof fn lemma_hesitation_is_heard(before: Seq<char>, spread: Seq<char>, behind: Seq<char>)
    requires
        shows_hesitation(without_spaces(spread, spread.len())),
    ensures
        sounds_disfluent(before + spread + behind),
{
    let text = before + spread + behind;
    lemma_spaces_aside(before, spread, spread.len());
    lemma_spaces_aside(before + spread, behind, behind.len());
    let compact = without_spaces(text, text.len());
    let word = without_spaces(spread, spread.len());
    let at = without_spaces(before, before.len()).len() as int;
    assert(compact.subrange(at, at + word.len()) =~= word);
    assert(occurs_at(compact, at, word));
    assert(contains_text(compact, word));
}

/// A word without white space is itself.
pub proof fn lemma_word_in_one_piece(word: Seq<char>)
    requires
        forall|i: int| 0 <= i < word.len() ==> !is_white_space(#[trigger] word[i]),
    ensures
        without_spaces(word, word.len()) == word,
{
    lemma_solid(word, word.len());
    assert(word.take(word.len() as int) =~= word);
}

} // verus!
