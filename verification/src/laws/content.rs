//! What two recognitions of the same sound are compared by.
use vstd::prelude::*;
use crate::asr::{
    content_char, content_of, content_until, is_content, is_ignorable, is_solid, solid_before,
    solid_from,
};
use crate::text::{char_is_alphabetic, char_is_numeric, is_white_space};

verus! {

/// The marks that may be left out.
pub open spec fn is_listed_mark(c: char) -> bool {
    c == ',' || c == '，' || c == '.' || c == '。' || c == '!' || c == '！' || c == '?' || c == '？' || c
        == ';' || c == '；' || c == ':' || c == '：' || c == '、' || c == '…' || c == '"' || c == '\''
        || c == '“' || c == '”' || c == '‘' || c == '’'
}

/// A character that says something wherever it stands.
pub open spec fn always_counts(c: char) -> bool {
    !is_white_space(c) && !is_listed_mark(c)
}

proof fn lemma_kept_until(text: Seq<char>, n: nat)
    requires
        n <= text.len(),
    ensures
        content_until(text, n).filter(|c: char| always_counts(c)) == text.take(n as int).filter(
            |c: char| always_counts(c),
        ),
    decreases n,
{
    reveal(Seq::filter);
    let pred = |c: char| always_counts(c);
    if n > 0 {
        lemma_kept_until(text, (n - 1) as nat);
        let before = content_until(text, (n - 1) as nat);
        let now = content_until(text, n);
        let c = text[n - 1];
        assert(text.take(n as int).drop_last() =~= text.take(n - 1));
        assert(text.take(n as int).last() == c);
        assert(!always_counts(' '));
        if is_content(text, n - 1) {
            assert(now.drop_last() =~= before);
        }
        assert(now.filter(pred) =~= text.take(n as int).filter(pred));
    } else {
        assert(content_until(text, n).filter(pred) =~= text.take(0).filter(pred));
    }
}

/// The content of a text keeps, in their order, all characters that are neither
/// white space nor one of twenty marks of punctuation: every letter, every
/// digit, every sign.
pub proof fn lemma_content_keeps(text: Seq<char>)
    ensures
        content_of(text).filter(|c: char| always_counts(c)) == text.filter(
            |c: char| always_counts(c),
        ),
{
    lemma_kept_until(text, text.len());
    assert(text.take(text.len() as int) =~= text);
}

/// Texts with the same content have the same letters, digits and signs in the
/// same order: one that is missing or another one is a difference.
pub proof fn lemma_same_content_same_letters(left: Seq<char>, right: Seq<char>)
    requires
        content_of(left) == content_of(right),
    ensures
        left.filter(|c: char| always_counts(c)) == right.filter(|c: char| always_counts(c)),
{
    lemma_content_keeps(left);
    lemma_content_keeps(right);
}

proof fn lemma_count_until(text: Seq<char>, c: char, n: nat)
    requires
        c != ' ',
        n <= text.len(),
    ensures
        content_until(text, n).filter(|x: char| x == c).len() <= text.take(n as int).filter(
            |x: char| x == c,
        ).len(),
    decreases n,
{
    reveal(Seq::filter);
    if n > 0 {
        lemma_count_until(text, c, (n - 1) as nat);
        let before = content_until(text, (n - 1) as nat);
        assert(text.take(n as int).drop_last() =~= text.take(n - 1));
        assert(text.take(n as int).last() == text[n - 1]);
        if is_content(text, n - 1) {
            assert(content_until(text, n).drop_last() =~= before);
        }
    }
}

/// Nothing is added to a text but spaces: no character stands in its content
/// more often than in the text.
pub proof fn lemma_content_adds_nothing(text: Seq<char>, c: char)
    requires
        c != ' ',
    ensures
        content_of(text).filter(|x: char| x == c).len() <= text.filter(|x: char| x == c).len(),
{
    lemma_count_until(text, c, text.len());
    assert(text.take(text.len() as int) =~= text);
}

/// A Han character of the common blocks that is no sign for a number.
pub open spec fn is_plain_han(c: char) -> bool {
    (0x4e00 <= c as u32 <= 0x9fff || 0x3400 <= c as u32 <= 0x4dbf) && !char_is_numeric(c)
}

proof fn lemma_content_around(text: Seq<char>, from: int, to: int, gap: Seq<char>, n: nat)
    requires
        0 <= from < to <= text.len(),
        n <= text.len(),
        forall|i: int|
            0 <= i < text.len() && !(from <= i < to) ==> is_content(text, i) && content_char(
                text,
                i,
            ) == #[trigger] text[i],
        forall|i: int| from < i < to ==> !is_content(text, i),
        gap == (if is_content(text, from) {
            seq![content_char(text, from)]
        } else {
            Seq::empty()
        }),
    ensures
        content_until(text, n) == (if n <= from {
            text.take(n as int)
        } else if n <= to {
            text.take(from) + gap
        } else {
            text.take(from) + gap + text.subrange(to, n as int)
        }),
    decreases n,
{
    if n > 0 {
        lemma_content_around(text, from, to, gap, (n - 1) as nat);
        let i = n - 1;
        let c = text[i];
        if i < from {
            assert(content_until(text, n) =~= text.take(n as int));
        } else if i == from {
            assert(content_until(text, n) =~= text.take(from) + gap);
        } else if i < to {
            assert(!is_content(text, i));
        } else {
            assert(is_content(text, i));
            assert(content_until(text, n) =~= text.take(from) + gap + text.subrange(to, n as int));
        }
    } else {
        assert(content_until(text, n) =~= text.take(0));
    }
}

/// A mark between Han characters is left out.
pub proof fn lemma_mark_is_left_out(before: Seq<char>, mark: char, behind: Seq<char>)
    requires
        is_listed_mark(mark),
        forall|i: int| 0 <= i < before.len() ==> is_plain_han(#[trigger] before[i]),
        forall|i: int| 0 <= i < behind.len() ==> is_plain_han(#[trigger] behind[i]),
    ensures
        content_of(before + seq![mark] + behind) == before + behind,
{
    let text = before + seq![mark] + behind;
    let at = before.len() as int;
    assert(text[at] == mark);
    assert forall|i: int| 0 <= i < text.len() && !(at <= i < at + 1) implies is_content(text, i)
        && content_char(text, i) == #[trigger] text[i] by {
        if i < at {
            assert(text[i] == before[i]);
        } else {
            assert(text[i] == behind[i - at - 1]);
        }
    }
    if at > 0 {
        assert(text[at - 1] == before[at - 1]);
        assert(is_plain_han(before[at - 1]));
    }
    if behind.len() > 0 {
        assert(text[at + 1] == behind[0]);
        assert(is_plain_han(behind[0]));
    }
    assert(is_ignorable(text, at));
    lemma_content_around(text, at, at + 1, Seq::empty(), text.len());
    if behind.len() > 0 {
        assert(text.subrange(at + 1, text.len() as int) =~= behind);
    }
    assert(content_of(text) =~= before + behind);
}

/// A mark between two signs for numbers is kept: a point, a comma or a colon in
/// a number says something.
pub proof fn lemma_mark_in_number_is_kept(text: Seq<char>, at: int)
    requires
        0 < at < text.len() - 1,
        text[at] == ',' || text[at] == '，' || text[at] == '.' || text[at] == ':' || text[at] == '：'
            || text[at] == '!' || text[at] == '！' || text[at] == '?' || text[at] == '？' || text[at]
            == ';' || text[at] == '；' || text[at] == '\'' || text[at] == '’',
        char_is_numeric(text[at - 1]),
        char_is_numeric(text[at + 1]),
    ensures
        content_of(text).contains(text[at]),
{
    assert(is_content(text, at));
    lemma_content_holds(text, at, text.len());
}

/// A point in front of a sign for a number is kept.
pub proof fn lemma_leading_point_is_kept(text: Seq<char>, at: int)
    requires
        0 <= at < text.len() - 1,
        text[at] == '.',
        char_is_numeric(text[at + 1]),
    ensures
        content_of(text).contains('.'),
{
    assert(is_content(text, at));
    lemma_content_holds(text, at, text.len());
}

proof fn lemma_content_holds(text: Seq<char>, at: int, n: nat)
    requires
        0 <= at < n <= text.len(),
        is_content(text, at),
    ensures
        content_until(text, n).contains(content_char(text, at)),
    decreases n,
{
    let before = content_until(text, (n - 1) as nat);
    let now = content_until(text, n);
    if at == n - 1 {
        assert(now[before.len() as int] == content_char(text, at));
    } else {
        lemma_content_holds(text, at, (n - 1) as nat);
        let k = before.index_of(content_char(text, at));
        assert(now[k] == before[k]);
    }
}

proof fn lemma_solid_behind(text: Seq<char>, from: int, to: int)
    requires
        0 <= from <= to < text.len(),
        forall|i: int| from <= i < to ==> is_white_space(#[trigger] text[i]),
        is_solid(text, to),
    ensures
        solid_from(text, from) == to,
    decreases to - from,
{
    if from < to {
        assert(is_white_space(text[from]));
        lemma_solid_behind(text, from + 1, to);
    }
}

/// White space between two Han characters is left out, and between two letters
/// of which one is no Han character it is one space, however much there is.
pub proof fn lemma_white_space(before: Seq<char>, space: Seq<char>, behind: Seq<char>)
    requires
        before.len() > 0,
        space.len() > 0,
        behind.len() > 0,
        forall|i: int|
            0 <= i < before.len() ==> always_counts(#[trigger] before[i]),
        forall|i: int| 0 <= i < space.len() ==> is_white_space(#[trigger] space[i]),
        forall|i: int|
            0 <= i < behind.len() ==> always_counts(#[trigger] behind[i]),
    ensures
        is_plain_han(before.last()) && is_plain_han(behind[0]) ==> content_of(
            before + space + behind,
        ) == before + behind,
        (char_is_alphabetic(before.last()) || char_is_numeric(before.last())) && (
        char_is_alphabetic(behind[0]) || char_is_numeric(behind[0])) && ((before.last() as u32)
            < 0x3400 || (behind[0] as u32) < 0x3400) ==> content_of(before + space + behind)
            == before + seq![' '] + behind,
{
    let text = before + space + behind;
    let from = before.len() as int;
    let to = from + space.len();
    assert(text[from - 1] == before[from - 1]);
    assert(text[from] == space[0]);
    assert(text[to] == behind[0]);
    assert(always_counts(before[from - 1]) && always_counts(behind[0]));
    assert forall|i: int| 0 <= i < text.len() && !(from <= i < to) implies is_content(text, i)
        && content_char(text, i) == #[trigger] text[i] by {
        if i < from {
            assert(text[i] == before[i]);
        } else {
            assert(text[i] == behind[i - to]);
        }
    }
    assert forall|i: int| from <= i < to implies is_white_space(#[trigger] text[i]) by {
        assert(text[i] == space[i - from]);
    }
    assert forall|i: int| from < i < to implies !is_content(text, i) by {
        assert(is_white_space(text[i]));
        assert(is_white_space(text[i - 1]));
    }
    assert(is_solid(text, from - 1));
    assert(is_solid(text, to));
    assert(solid_before(text, from) == from - 1);
    lemma_solid_behind(text, from + 1, to);
    let gap = if is_content(text, from) {
        seq![' ']
    } else {
        Seq::empty()
    };
    assert(is_white_space(text[from]));
    lemma_content_around(text, from, to, gap, text.len());
    assert(text.take(from) =~= before);
    assert(text.subrange(to, text.len() as int) =~= behind);
    assert(before + Seq::<char>::empty() + behind =~= before + behind);
}

} // verus!
