//! What counts when errors are counted.
use vstd::prelude::*;
use crate::alignment::{edit_distance, lemma_edit_distance_zero, prefix_distance};
use crate::normalization::{folded_letters, folded_marks, lowercase_of};
use crate::text::{char_is_alphabetic, char_is_numeric, is_white_space};

verus! {

/// A character that is no full-width form and no ideographic space.
pub open spec fn is_narrow(c: char) -> bool {
    c != '\u{3000}' && !('\u{ff01}' <= c <= '\u{ff5e}')
}

/// A letter or a digit.
pub open spec fn counts(c: char) -> bool {
    char_is_alphabetic(c) || char_is_numeric(c)
}

/// What is counted of two texts put together is what is counted of each.
pub proof fn lemma_counted_together(left: Seq<char>, right: Seq<char>)
    ensures
        folded_letters(left + right) == folded_letters(left) + folded_letters(right),
    decreases right.len(),
{
    let whole = left + right;
    if right.len() == 0 {
        assert(whole =~= left);
    } else {
        lemma_counted_together(left, right.drop_last());
        assert(whole.drop_last() =~= left + right.drop_last());
        assert(whole.last() == right.last());
    }
    assert(folded_letters(whole) =~= folded_letters(left) + folded_letters(right));
}

/// Of a single character: a letter or a digit counts in lower case, and nothing
/// else counts. A full-width form counts as the character that it is a form of.
pub proof fn lemma_counted_character(c: char)
    ensures
        is_narrow(c) && counts(c) ==> folded_letters(seq![c]) == lowercase_of(c),
        is_narrow(c) && !counts(c) ==> folded_letters(seq![c]).len() == 0,
        forall|d: int|
            0 <= d <= 93 && c == (0xff01 + d) as char ==> folded_letters(seq![c])
                == #[trigger] folded_letters(seq![(0x21 + d) as char]),
        c == '\u{3000}' ==> folded_letters(seq![c]) == folded_letters(seq![' ']),
{
    let one = seq![c];
    assert(one.drop_last() =~= Seq::empty());
    assert(folded_letters(Seq::<char>::empty()) =~= Seq::empty());
    assert(Seq::<char>::empty() + lowercase_of(c) =~= lowercase_of(c));
    assert(folded_letters(one) == (if counts(crate::normalization::narrowed(c)) {
        folded_letters(one.drop_last()) + lowercase_of(crate::normalization::narrowed(c))
    } else {
        folded_letters(one.drop_last())
    }));
    assert forall|d: int| 0 <= d <= 93 && c == (0xff01 + d) as char implies folded_letters(seq![c])
        == #[trigger] folded_letters(seq![(0x21 + d) as char]) by {
        let plain = seq![(0x21 + d) as char];
        assert(plain.drop_last() =~= Seq::empty());
        assert(crate::normalization::narrowed(c) == (0x21 + d) as char);
    }
    let space = seq![' '];
    assert(space.drop_last() =~= Seq::empty());
}

/// A text of letters and digits in lower case counts as it stands: none is left
/// out, whatever letter or digit it is.
pub proof fn lemma_letters_and_digits_stay(text: Seq<char>)
    requires
        forall|i: int|
            0 <= i < text.len() ==> is_narrow(#[trigger] text[i]) && counts(text[i])
                && lowercase_of(text[i]) == seq![text[i]],
    ensures
        folded_letters(text) == text,
    decreases text.len(),
{
    if text.len() > 0 {
        let most = text.drop_last();
        assert forall|i: int| 0 <= i < most.len() implies is_narrow(#[trigger] most[i]) && counts(
            most[i],
        ) && lowercase_of(most[i]) == seq![most[i]] by {
            assert(most[i] == text[i]);
        }
        lemma_letters_and_digits_stay(most);
        let c = text[text.len() - 1];
        assert(is_narrow(c) && counts(c));
        assert(folded_letters(text) =~= text);
    } else {
        assert(folded_letters(text) =~= text);
    }
}

/// There are at least as many characters to count as a text has letters and
/// digits.
pub proof fn lemma_every_letter_counts(text: Seq<char>)
    requires
        forall|i: int|
            0 <= i < text.len() && counts(#[trigger] text[i]) ==> is_narrow(text[i])
                && lowercase_of(text[i]).len() > 0,
    ensures
        folded_letters(text).len() >= text.filter(|c: char| counts(c)).len(),
    decreases text.len(),
{
    reveal(Seq::filter);
    let pred = |c: char| counts(c);
    if text.len() > 0 {
        let most = text.drop_last();
        assert forall|i: int| 0 <= i < most.len() && counts(#[trigger] most[i]) implies is_narrow(
            most[i],
        ) && lowercase_of(most[i]).len() > 0 by {
            assert(most[i] == text[i]);
        }
        lemma_every_letter_counts(most);
        let c = text[text.len() - 1];
        lemma_counted_together(most, seq![c]);
        lemma_counted_character(c);
        assert(most + seq![c] =~= text);
    }
}

/// In the exact form everything but white space stays: the forms of two texts
/// put together are put together, white space alone is nothing, and any other
/// character is its lower case.
pub proof fn lemma_exact_form(left: Seq<char>, right: Seq<char>, c: char)
    ensures
        folded_marks(left + right) == folded_marks(left) + folded_marks(right),
        is_white_space(c) ==> folded_marks(seq![c]).len() == 0,
        is_narrow(c) && !is_white_space(c) ==> folded_marks(seq![c]) == lowercase_of(c),
    decreases right.len(),
{
    let whole = left + right;
    if right.len() == 0 {
        assert(whole =~= left);
    } else {
        lemma_exact_form(left, right.drop_last(), c);
        assert(whole.drop_last() =~= left + right.drop_last());
        assert(whole.last() == right.last());
    }
    assert(folded_marks(whole) =~= folded_marks(left) + folded_marks(right));
    let one = seq![c];
    assert(one.drop_last() =~= Seq::empty());
    assert(folded_marks(Seq::<char>::empty()) =~= Seq::empty());
    assert(Seq::<char>::empty() + lowercase_of(c) =~= lowercase_of(c));
}

// ---------------------------------------------------------------------------
// Errors
// ---------------------------------------------------------------------------

proof fn lemma_same_prefix(a: Seq<char>, b: Seq<char>, k: nat)
    requires
        k <= a.len(),
        k <= b.len(),
        forall|i: int| 0 <= i < k ==> #[trigger] a[i] == b[i],
    ensures
        prefix_distance(a, b, k, k) == 0,
    decreases k,
{
    if k > 0 {
        lemma_same_prefix(a, b, (k - 1) as nat);
        assert(a[k - 1] == b[k - 1]);
    }
}

proof fn lemma_same_behind(a: Seq<char>, b: Seq<char>, i: nat, j: nat, more: nat)
    requires
        i + more <= a.len(),
        j + more <= b.len(),
        prefix_distance(a, b, i, j) <= 1,
        forall|k: int| 0 <= k < more ==> #[trigger] a[i + k] == b[j + k],
    ensures
        prefix_distance(a, b, i + more, j + more) <= 1,
    decreases more,
{
    if more > 0 {
        lemma_same_behind(a, b, i, j, (more - 1) as nat);
        assert(a[i + (more - 1)] == b[j + (more - 1)]);
    }
}

/// A character that became another one is one error, and so are one that is
/// missing and one too many. No error is counted between equal texts only.
pub proof fn lemma_one_error(before: Seq<char>, x: char, y: char, behind: Seq<char>)
    ensures
        x != y ==> edit_distance(before + seq![x] + behind, before + seq![y] + behind) == 1,
        edit_distance(before + seq![x] + behind, before + behind) == 1,
        edit_distance(before + behind, before + seq![x] + behind) == 1,
{
    let one = before + seq![x] + behind;
    let other = before + seq![y] + behind;
    let short = before + behind;
    let k = before.len();
    let more = behind.len();
    if x != y {
        assert(one != other) by {
            assert(one[k as int] == x);
            assert(other[k as int] == y);
        }
        lemma_edit_distance_zero(one, other);
        lemma_same_prefix(one, other, k);
        assert(prefix_distance(one, other, k + 1, k + 1) <= 1);
        assert forall|i: int| 0 <= i < more implies #[trigger] one[(k + 1) as nat + i] == other[(k
            + 1) as nat + i] by {}
        lemma_same_behind(one, other, k + 1, k + 1, more);
    }
    assert(one.len() != short.len());
    lemma_edit_distance_zero(one, short);
    lemma_edit_distance_zero(short, one);
    lemma_same_prefix(one, short, k);
    lemma_same_prefix(short, one, k);
    lemma_one_more(one, short, k);
    lemma_one_more(short, one, k);
    assert forall|i: int| 0 <= i < more implies #[trigger] one[(k + 1) as nat + i] == short[k
        + i] by {}
    assert forall|i: int| 0 <= i < more implies #[trigger] short[k + i] == one[(k + 1) as nat
        + i] by {}
    lemma_same_behind(one, short, k + 1, k, more);
    lemma_same_behind(short, one, k, k + 1, more);
}

proof fn lemma_one_more(a: Seq<char>, b: Seq<char>, k: nat)
    requires
        prefix_distance(a, b, k, k) == 0,
    ensures
        prefix_distance(a, b, k + 1, k) <= 1,
        prefix_distance(a, b, k, k + 1) <= 1,
{
}

/// Two texts of letters and digits that differ in one of them, a digit as well
/// as a letter, have an error.
pub proof fn lemma_wrong_digit_is_an_error(before: Seq<char>, x: char, y: char, behind: Seq<char>)
    requires
        x != y,
        is_narrow(x) && counts(x) && lowercase_of(x) == seq![x],
        is_narrow(y) && counts(y) && lowercase_of(y) == seq![y],
    ensures
        edit_distance(
            folded_letters(before + seq![x] + behind),
            folded_letters(before + seq![y] + behind),
        ) == 1,
{
    lemma_counted_together(before + seq![x], behind);
    lemma_counted_together(before, seq![x]);
    lemma_counted_together(before + seq![y], behind);
    lemma_counted_together(before, seq![y]);
    lemma_counted_character(x);
    lemma_counted_character(y);
    lemma_one_error(folded_letters(before), x, y, folded_letters(behind));
}

} // verus!
