//! Presentation-only cleanup of recognised text: ASCII punctuation between
//! Chinese words takes its full-width form and loses the space beside it. No
//! word is inserted, replaced or removed.
use vstd::prelude::*;
use vstd::utf8::{encode_scalar, encode_utf8};
use crate::chinese::{backtick_run_end, closing_run_end, skip_backticks};
use crate::text::{
    ascii_alphanumeric, ascii_lowercase, byte_len, bytes_in, chars_of, contains_str, contains_text,
    find_char, is_ascii_alphanumeric_char, is_white_space, lowercased, position_of, same_text,
    starts_with, starts_with_str, string_of_range,
};
use crate::text::char_is_numeric;

verus! {

pub const CODE_CHINESE_PUNCTUATION_NORMALIZED: &'static str =
    "quality_cleanup_chinese_punctuation_normalized";

pub const CODE_POSSIBLE_DISFLUENCY_PRESERVED: &'static str =
    "quality_cleanup_signal_possible_disfluency_preserved";

pub const CODE_CLEANUP_REVERTED: &'static str = "quality_cleanup_reverted";

// ---------------------------------------------------------------------------
// Text that is left as it is
// ---------------------------------------------------------------------------

/// Position `i` stands in a code span that starts at or behind `from`.
pub open spec fn in_code(text: Seq<char>, from: int, i: int) -> bool
    decreases text.len() - from,
{
    if from < 0 || from >= text.len() {
        false
    } else if text[from] != '`' {
        in_code(text, from + 1, i)
    } else {
        let open_end = backtick_run_end(text, from);
        let end = closing_run_end(text, open_end, open_end - from);
        if end <= from || end > text.len() {
            false
        } else {
            from <= i < end || in_code(text, end, i)
        }
    }
}

/// Where a literal ends that is opened at `open`: behind the closing mark, or
/// at the end of the text.
pub open spec fn literal_end(text: Seq<char>, closing: char, open: int) -> int {
    let close = position_of(text, closing, open + 1);
    if close >= text.len() {
        text.len() as int
    } else {
        close + 1
    }
}

/// Position `i` stands in a literal between a pair of marks that is opened at
/// or behind `from`.
pub open spec fn in_literal(text: Seq<char>, opening: char, closing: char, from: int, i: int) -> bool
    decreases text.len() - from,
{
    let open = position_of(text, opening, from);
    let end = literal_end(text, closing, open);
    if from < 0 || open < from || open >= text.len() || end <= open {
        false
    } else {
        open <= i < end || in_literal(text, opening, closing, end, i)
    }
}

/// The pairs of marks that what stands between them is left as it is.
pub open spec fn literal_marks() -> Seq<(char, char)> {
    seq![
        ('"', '"'),
        ('“', '”'),
        ('‘', '’'),
        ('《', '》'),
        ('〈', '〉'),
        ('「', '」'),
        ('『', '』'),
        ('(', ')'),
        ('（', '）'),
        ('[', ']'),
        ('【', '】'),
        ('{', '}'),
        ('｛', '｝'),
    ]
}

/// Position `i` stands in a literal between one of the pairs of marks from
/// `n` on.
pub open spec fn in_literal_of(text: Seq<char>, n: int, i: int) -> bool
    decreases literal_marks().len() - n,
{
    if n < 0 || n >= literal_marks().len() {
        false
    } else {
        in_literal(text, literal_marks()[n].0, literal_marks()[n].1, 0, i) || in_literal_of(
            text,
            n + 1,
            i,
        )
    }
}

/// Where the run without white space ends that position `from` stands in.
pub open spec fn token_end(text: Seq<char>, from: int) -> int
    decreases text.len() - from,
{
    if 0 <= from < text.len() && !is_white_space(text[from]) {
        token_end(text, from + 1)
    } else {
        from
    }
}

/// A web or mail address.
pub open spec fn is_address(token: Seq<char>) -> bool {
    contains_text(token, "://"@) || starts_with(lowercased(token), "www."@) || contains_text(
        token,
        "@"@,
    )
}

/// Position `i` stands in an address that starts at or behind `from`.
pub open spec fn in_address(text: Seq<char>, from: int, i: int) -> bool
    decreases text.len() - from,
{
    if from < 0 || from >= text.len() {
        false
    } else if is_white_space(text[from]) {
        in_address(text, from + 1, i)
    } else {
        let end = token_end(text, from);
        if end <= from || end > text.len() {
            false
        } else {
            (from <= i < end && is_address(text.subrange(from, end))) || in_address(text, end, i)
        }
    }
}

/// Code, literals and addresses are left as they are.
pub open spec fn is_protected(text: Seq<char>, i: int) -> bool {
    in_code(text, 0, i) || in_literal_of(text, 0, i) || in_address(text, 0, i)
}

/// Either of two marks.
spec fn either(left: bool, right: bool) -> bool {
    left || right
}

fn mark_protected(mask: &mut Vec<bool>, start: usize, end: usize)
    requires
        start <= end <= old(mask)@.len(),
    ensures
        final(mask)@.len() == old(mask)@.len(),
        forall|k: int|
            0 <= k < old(mask)@.len() ==> #[trigger] final(mask)@[k] == (old(mask)@[k] || start <= k
                < end),
{
    let ghost before = mask@;
    let mut i: usize = start;
    while i < end
        invariant
            start <= i <= end <= mask@.len(),
            mask@.len() == before.len(),
            forall|k: int|
                0 <= k < before.len() ==> #[trigger] mask@[k] == (before[k] || start <= k < i),
        decreases end - i,
    {
        mask.set(i, true);
        i += 1;
    }
}

fn protect_inline_code(chars: &[char], mask: &mut Vec<bool>)
    requires
        old(mask)@.len() == chars@.len(),
    ensures
        final(mask)@.len() == chars@.len(),
        forall|k: int|
            0 <= k < chars@.len() ==> #[trigger] final(mask)@[k] == (old(mask)@[k] || in_code(
                chars@,
                0,
                k,
            )),
{
    let ghost before = mask@;
    let mut cursor: usize = 0;
    while cursor < chars.len()
        invariant
            cursor <= chars@.len(),
            mask@.len() == chars@.len(),
            before.len() == chars@.len(),
            forall|k: int|
                #![trigger mask@[k]]
                0 <= k < chars@.len() ==> either(mask@[k], in_code(chars@, cursor as int, k)) == either(before[k], in_code(chars@, 0, k)),
        decreases chars@.len() - cursor,
    {
        if chars[cursor] != '`' {
            cursor += 1;
        } else {
            let start: usize = cursor;
            let open_end: usize = skip_backticks(chars, cursor);
            let count: usize = open_end - start;
            let mut search: usize = open_end;
            let mut end: usize = chars.len();
            let mut found: bool = false;
            while search < chars.len() && !found
                invariant
                    start < open_end <= search <= chars@.len(),
                    end <= chars@.len(),
                    count == open_end - start,
                    found ==> end == closing_run_end(chars@, open_end as int, count as int)
                        && open_end < end,
                    !found ==> end == chars@.len() && closing_run_end(
                        chars@,
                        search as int,
                        count as int,
                    ) == closing_run_end(chars@, open_end as int, count as int),
                decreases chars@.len() - search,
            {
                if chars[search] != '`' {
                    search += 1;
                } else {
                    let run_start: usize = search;
                    search = skip_backticks(chars, run_start);
                    if search - run_start == count {
                        end = search;
                        found = true;
                    }
                }
            }
            let ghost prior = mask@;
            mark_protected(mask, start, end);
            assert forall|k: int|
                #![trigger mask@[k]]
                0 <= k < chars@.len() implies either(mask@[k], in_code(
                chars@,
                end as int,
                k,
            )) == either(before[k], in_code(chars@, 0, k)) by {
                assert(mask@[k] == either(prior[k], start <= k < end));
                assert(in_code(chars@, start as int, k) == (start <= k < end || in_code(
                    chars@,
                    end as int,
                    k,
                )));
            }
            cursor = end;
        }
    }
}

fn protect_literals(chars: &[char], opening: char, closing: char, mask: &mut Vec<bool>)
    requires
        old(mask)@.len() == chars@.len(),
    ensures
        final(mask)@.len() == chars@.len(),
        forall|k: int|
            0 <= k < chars@.len() ==> #[trigger] final(mask)@[k] == (old(mask)@[k] || in_literal(
                chars@,
                opening,
                closing,
                0,
                k,
            )),
{
    let ghost before = mask@;
    let mut cursor: usize = 0;
    let mut more: bool = true;
    while more
        invariant
            cursor <= chars@.len(),
            mask@.len() == chars@.len(),
            before.len() == chars@.len(),
            more ==> forall|k: int|
                #![trigger mask@[k]]
                0 <= k < chars@.len() ==> either(mask@[k], in_literal(
                    chars@,
                    opening,
                    closing,
                    cursor as int,
                    k,
                )) == either(before[k], in_literal(chars@, opening, closing, 0, k)),
            !more ==> forall|k: int|
                0 <= k < chars@.len() ==> #[trigger] mask@[k] == (before[k] || in_literal(
                    chars@,
                    opening,
                    closing,
                    0,
                    k,
                )),
        decreases chars@.len() - cursor + (if more {
            1int
        } else {
            0
        }),
    {
        let start: usize = find_char(chars, opening, cursor);
        if start == chars.len() {
            more = false;
        } else {
            let close: usize = find_char(chars, closing, start + 1);
            let end: usize = if close == chars.len() {
                close
            } else {
                close + 1
            };
            let ghost prior = mask@;
            let ghost from = cursor as int;
            mark_protected(mask, start, end);
            assert forall|k: int|
                #![trigger mask@[k]]
                0 <= k < chars@.len() implies either(mask@[k], in_literal(
                chars@,
                opening,
                closing,
                end as int,
                k,
            )) == either(before[k], in_literal(chars@, opening, closing, 0, k)) by {
                assert(mask@[k] == either(prior[k], start <= k < end));
                assert(in_literal(chars@, opening, closing, from, k) == (start <= k < end
                    || in_literal(chars@, opening, closing, end as int, k)));
            }
            cursor = end;
        }
    }
}

fn protect_paired_literals(chars: &[char], mask: &mut Vec<bool>)
    requires
        old(mask)@.len() == chars@.len(),
    ensures
        final(mask)@.len() == chars@.len(),
        forall|k: int|
            0 <= k < chars@.len() ==> #[trigger] final(mask)@[k] == (old(mask)@[k] || in_literal_of(
                chars@,
                0,
                k,
            )),
{
    let ghost before = mask@;
    let marks: [(char, char); 13] = [
        ('"', '"'),
        ('“', '”'),
        ('‘', '’'),
        ('《', '》'),
        ('〈', '〉'),
        ('「', '」'),
        ('『', '』'),
        ('(', ')'),
        ('（', '）'),
        ('[', ']'),
        ('【', '】'),
        ('{', '}'),
        ('｛', '｝'),
    ];
    assert(marks@ =~= literal_marks());
    let mut n: usize = 0;
    while n < 13
        invariant
            n <= 13,
            marks@ == literal_marks(),
            mask@.len() == chars@.len(),
            before.len() == chars@.len(),
            forall|k: int|
                #![trigger mask@[k]]
                0 <= k < chars@.len() ==> either(mask@[k], in_literal_of(
                    chars@,
                    n as int,
                    k,
                )) == either(before[k], in_literal_of(chars@, 0, k)),
        decreases 13 - n,
    {
        let pair: (char, char) = marks[n];
        let ghost prior = mask@;
        protect_literals(chars, pair.0, pair.1, mask);
        assert forall|k: int|
                #![trigger mask@[k]]
                0 <= k < chars@.len() implies either(mask@[k], in_literal_of(
            chars@,
            n + 1,
            k,
        )) == either(before[k], in_literal_of(chars@, 0, k)) by {
            assert(mask@[k] == either(prior[k], in_literal(chars@, pair.0, pair.1, 0, k)));
        }
        n += 1;
    }
}

fn protect_address_tokens(chars: &[char], mask: &mut Vec<bool>)
    requires
        old(mask)@.len() == chars@.len(),
    ensures
        final(mask)@.len() == chars@.len(),
        forall|k: int|
            0 <= k < chars@.len() ==> #[trigger] final(mask)@[k] == (old(mask)@[k] || in_address(
                chars@,
                0,
                k,
            )),
{
    let ghost before = mask@;
    let mut cursor: usize = 0;
    while cursor < chars.len()
        invariant
            cursor <= chars@.len(),
            mask@.len() == chars@.len(),
            before.len() == chars@.len(),
            forall|k: int|
                #![trigger mask@[k]]
                0 <= k < chars@.len() ==> either(mask@[k], in_address(
                    chars@,
                    cursor as int,
                    k,
                )) == either(before[k], in_address(chars@, 0, k)),
        decreases chars@.len() - cursor,
    {
        if chars[cursor].is_whitespace() {
            cursor += 1;
        } else {
            let start: usize = cursor;
            let mut end: usize = cursor + 1;
            while end < chars.len() && !chars[end].is_whitespace()
                invariant
                    start < end <= chars@.len(),
                    token_end(chars@, end as int) == token_end(chars@, start as int),
                decreases chars@.len() - end,
            {
                end += 1;
            }
            let token = string_of_range(chars, start, end);
            let lower = ascii_lowercase(token.as_str());
            let address = contains_str(token.as_str(), "://") || starts_with_str(
                lower.as_str(),
                "www.",
            ) || contains_str(token.as_str(), "@");
            let ghost prior = mask@;
            if address {
                mark_protected(mask, start, end);
            }
            assert forall|k: int|
                #![trigger mask@[k]]
                0 <= k < chars@.len() implies either(mask@[k], in_address(
                chars@,
                end as int,
                k,
            )) == either(before[k], in_address(chars@, 0, k)) by {
                assert(mask@[k] == either(prior[k], (address && start <= k < end)));
            }
            cursor = end;
        }
    }
}

/// Marks the characters that are left as they are.
pub fn protected_mask(chars: &[char]) -> (mask: Vec<bool>)
    ensures
        mask@.len() == chars@.len(),
        forall|k: int| 0 <= k < chars@.len() ==> #[trigger] mask@[k] == is_protected(chars@, k),
{
    let mut mask: Vec<bool> = vec![false; chars.len()];
    protect_inline_code(chars, &mut mask);
    protect_paired_literals(chars, &mut mask);
    protect_address_tokens(chars, &mut mask);
    mask
}

// ---------------------------------------------------------------------------
// Which characters change
// ---------------------------------------------------------------------------

/// The full-width form of a mark that is written so between Chinese words.
pub open spec fn fullwidth_of(c: char) -> Option<char> {
    if c == ',' {
        Some('，')
    } else if c == '?' {
        Some('？')
    } else if c == '!' {
        Some('！')
    } else if c == ';' {
        Some('；')
    } else if c == ':' {
        Some('：')
    } else {
        None
    }
}

pub fn fullwidth_punctuation(character: char) -> (result: Option<char>)
    ensures
        result == fullwidth_of(character),
{
    if character == ',' {
        Some('，')
    } else if character == '?' {
        Some('？')
    } else if character == '!' {
        Some('！')
    } else if character == ';' {
        Some('；')
    } else if character == ':' {
        Some('：')
    } else {
        None
    }
}

/// Han characters, with the supplementary ideographs up to the compatibility
/// ones.
pub open spec fn is_han_letter(c: char) -> bool {
    let v = c as u32;
    ||| 0x3400 <= v <= 0x4dbf
    ||| 0x4e00 <= v <= 0x9fff
    ||| 0xf900 <= v <= 0xfaff
    ||| 0x20000 <= v <= 0x2fa1f
    ||| 0x30000 <= v <= 0x323af
}

fn is_han(character: char) -> (result: bool)
    ensures
        result == is_han_letter(character),
{
    let v: u32 = character as u32;
    (0x3400 <= v && v <= 0x4dbf) || (0x4e00 <= v && v <= 0x9fff) || (0xf900 <= v && v <= 0xfaff)
        || (0x20000 <= v && v <= 0x2fa1f) || (0x30000 <= v && v <= 0x323af)
}

pub open spec fn is_chinese_mark(c: char) -> bool {
    c == '，' || c == '。' || c == '！' || c == '？' || c == '；' || c == '：' || c == '、' || c
        == '”' || c == '’' || c == '》' || c == '）' || c == '】'
}

fn is_chinese_punctuation(character: char) -> (result: bool)
    ensures
        result == is_chinese_mark(character),
{
    character == '，' || character == '。' || character == '！' || character == '？' || character
        == '；' || character == '：' || character == '、' || character == '”' || character == '’'
        || character == '》' || character == '）' || character == '】'
}

pub open spec fn is_compact(c: char) -> bool {
    is_han_letter(c) || is_chinese_mark(c)
}

/// The nearest position before `i` that holds no space, or -1.
pub open spec fn before_spaces(text: Seq<char>, i: int) -> int
    decreases i,
{
    if i <= 0 {
        -1
    } else if i <= text.len() && text[i - 1] != ' ' {
        i - 1
    } else {
        before_spaces(text, i - 1)
    }
}

/// The nearest position from `i` on that holds no space, or the length.
pub open spec fn after_spaces(text: Seq<char>, i: int) -> int
    decreases text.len() - i,
{
    if i >= text.len() {
        text.len() as int
    } else if text[i] != ' ' {
        i
    } else {
        after_spaces(text, i + 1)
    }
}

/// White space that gives a text its form stands beside position `i`: a break
/// or a tab next to it, or more than one space on a side.
pub open spec fn has_structure_beside(text: Seq<char>, i: int) -> bool {
    ||| i > 0 && is_white_space(text[i - 1]) && text[i - 1] != ' '
    ||| i + 1 < text.len() && is_white_space(text[i + 1]) && text[i + 1] != ' '
    ||| i - 1 - before_spaces(text, i) > 1
    ||| after_spaces(text, i + 1) - (i + 1) > 1
}

/// The mark at position `i` belongs to a number, a time or a name in ASCII.
pub open spec fn is_ascii_structure(text: Seq<char>, i: int) -> bool {
    0 < i && i + 1 < text.len() && ((is_ascii_alphanumeric_char(text[i - 1])
        && is_ascii_alphanumeric_char(text[i + 1])) || ((text[i] == ',' || text[i] == ':' || text[i]
        == ';') && char_is_numeric(text[i - 1]) && char_is_numeric(text[i + 1])))
}

/// The mark at position `i` takes its full-width form: it is not protected, a
/// Chinese word or mark is its neighbour, and no structure is broken by it. On
/// its left a neighbour counts as it is after the cleanup.
pub open spec fn takes_fullwidth(text: Seq<char>, i: int) -> bool
    decreases i,
{
    0 <= i < text.len() && !is_protected(text, i) && fullwidth_of(text[i]) is Some && ({
        let left = before_spaces(text, i);
        let right = after_spaces(text, i + 1);
        (0 <= left < i && is_compact(
            if takes_fullwidth(text, left) {
                fullwidth_of(text[left])->0
            } else {
                text[left]
            },
        )) || (right < text.len() && is_compact(text[right]))
    }) && !has_structure_beside(text, i) && !is_ascii_structure(text, i)
}

/// The character at position `i` after the cleanup of marks.
pub open spec fn mark_at(text: Seq<char>, i: int) -> char {
    if takes_fullwidth(text, i) {
        fullwidth_of(text[i])->0
    } else {
        text[i]
    }
}

pub open spec fn is_loose_space(text: Seq<char>, i: int) -> bool {
    0 <= i < text.len() && text[i] == ' ' && !is_protected(text, i)
}

/// The space at position `i` is left out: it stands alone, beside a Chinese
/// mark.
pub open spec fn drops_space(text: Seq<char>, i: int) -> bool {
    &&& is_loose_space(text, i)
    &&& !is_loose_space(text, i - 1)
    &&& !is_loose_space(text, i + 1)
    &&& ({
        let left = before_spaces(text, i);
        let right = after_spaces(text, i + 1);
        (left >= 0 && is_chinese_mark(mark_at(text, left))) || (right < text.len()
            && is_chinese_mark(mark_at(text, right)))
    })
}

/// The first `n` characters of a text after the cleanup.
pub open spec fn cleaned(text: Seq<char>, n: nat) -> Seq<char>
    decreases n,
{
    if n == 0 {
        Seq::empty()
    } else {
        let before = cleaned(text, (n - 1) as nat);
        if drops_space(text, n - 1) {
            before
        } else {
            before.push(mark_at(text, n - 1))
        }
    }
}

/// How many of the first `n` marks take their full-width form.
pub open spec fn fullwidth_count(text: Seq<char>, n: nat) -> nat
    decreases n,
{
    if n == 0 {
        0
    } else {
        fullwidth_count(text, (n - 1) as nat) + (if takes_fullwidth(text, n - 1) {
            1nat
        } else {
            0
        })
    }
}

/// How many of the first `n` characters are spaces that are left out.
pub open spec fn dropped_count(text: Seq<char>, n: nat) -> nat
    decreases n,
{
    if n == 0 {
        0
    } else {
        dropped_count(text, (n - 1) as nat) + (if drops_space(text, n - 1) {
            1nat
        } else {
            0
        })
    }
}

// ---------------------------------------------------------------------------
// What the cleanup keeps
// ---------------------------------------------------------------------------

/// A mark without regard to its width.
pub open spec fn narrow_mark(c: char) -> char {
    if c == '，' {
        ','
    } else if c == '？' {
        '?'
    } else if c == '！' {
        '!'
    } else if c == '；' {
        ';'
    } else if c == '：' {
        ':'
    } else {
        c
    }
}

/// What a text says: its characters without spaces and without regard to the
/// width of marks.
pub open spec fn lexical_of(text: Seq<char>) -> Seq<char>
    decreases text.len(),
{
    if text.len() == 0 {
        Seq::empty()
    } else {
        let before = lexical_of(text.drop_last());
        if text.last() == ' ' {
            before
        } else {
            before.push(narrow_mark(text.last()))
        }
    }
}

fn lexical_projection(text: &str) -> (result: String)
    ensures
        result@ == lexical_of(text@),
{
    let chars = chars_of(text);
    let mut result = String::new();
    let mut i: usize = 0;
    assert(chars@.take(0) =~= Seq::<char>::empty());
    while i < chars.len()
        invariant
            i <= chars@.len(),
            result@ == lexical_of(chars@.take(i as int)),
        decreases chars@.len() - i,
    {
        let c: char = chars[i];
        assert(chars@.take(i + 1).drop_last() =~= chars@.take(i as int));
        if c != ' ' {
            let narrow: char = if c == '，' {
                ','
            } else if c == '？' {
                '?'
            } else if c == '！' {
                '!'
            } else if c == '；' {
                ';'
            } else if c == '：' {
                ':'
            } else {
                c
            };
            result.push(narrow);
        }
        i += 1;
    }
    assert(chars@.take(i as int) =~= chars@);
    result
}

proof fn lemma_lexical_prefix(text: Seq<char>, n: nat)
    requires
        n <= text.len(),
    ensures
        lexical_of(cleaned(text, n)) == lexical_of(text.take(n as int)),
        cleaned(text, n).len() <= n,
    decreases n,
{
    if n > 0 {
        lemma_lexical_prefix(text, (n - 1) as nat);
        let before = cleaned(text, (n - 1) as nat);
        assert(text.take(n as int).drop_last() =~= text.take(n - 1));
        assert(before.push(mark_at(text, n - 1)).drop_last() =~= before);
    } else {
        assert(text.take(0) =~= Seq::<char>::empty());
    }
}

/// The cleanup keeps what a text says: no character is inserted, replaced or
/// removed but for the width of marks and spaces.
pub proof fn lemma_cleanup_keeps_words(text: Seq<char>)
    ensures
        lexical_of(cleaned(text, text.len())) == lexical_of(text),
        cleaned(text, text.len()).len() <= text.len(),
{
    lemma_lexical_prefix(text, text.len());
    assert(text.take(text.len() as int) =~= text);
}

/// A protected character stays, as it is; and so does every letter, digit or
/// other character that is neither a space nor one of the five marks.
pub proof fn lemma_cleanup_keeps_protected(text: Seq<char>, i: int)
    requires
        0 <= i < text.len(),
        is_protected(text, i) || (text[i] != ' ' && fullwidth_of(text[i]) is None),
    ensures
        !drops_space(text, i),
        mark_at(text, i) == text[i],
{
}

proof fn lemma_byte_len_push(text: Seq<char>, c: char)
    ensures
        byte_len(text.push(c)) == byte_len(text) + encode_scalar(c as u32).len(),
    decreases text.len(),
{
    if text.len() == 0 {
        assert(text.push(c).drop_first() =~= Seq::<char>::empty());
        assert(encode_utf8(Seq::<char>::empty()).len() == 0);
    } else {
        lemma_byte_len_push(text.drop_first(), c);
        assert(text.push(c).drop_first() =~= text.drop_first().push(c));
    }
}

proof fn lemma_cleaned_bytes(text: Seq<char>, n: nat)
    requires
        n <= text.len(),
    ensures
        byte_len(cleaned(text, n)) <= byte_len(text.take(n as int)) + 2 * n,
    decreases n,
{
    if n > 0 {
        lemma_cleaned_bytes(text, (n - 1) as nat);
        lemma_byte_len_push(text.take(n - 1), text[n - 1]);
        assert(text.take(n as int) =~= text.take(n - 1).push(text[n - 1]));
        lemma_byte_len_push(cleaned(text, (n - 1) as nat), mark_at(text, n - 1));
    } else {
        assert(text.take(0) =~= Seq::<char>::empty());
    }
}

// ---------------------------------------------------------------------------
// Results
// ---------------------------------------------------------------------------

/// Counts the changes that a cleanup made.
#[derive(Clone, Copy, Debug, PartialEq, Eq, Structural)]
pub struct CleanupStats {
    pub punctuation_replacements: usize,
    pub punctuation_spaces_removed: usize,
}

impl Default for CleanupStats {
    fn default() -> (stats: Self)
        ensures
            stats.punctuation_replacements == 0,
            stats.punctuation_spaces_removed == 0,
    {
        CleanupStats { punctuation_replacements: 0, punctuation_spaces_removed: 0 }
    }
}

impl CleanupStats {
    /// How many changes there are, or the largest number where there are more.
    pub fn operation_count(self) -> (count: usize)
        ensures
            count as int == (if self.punctuation_replacements + self.punctuation_spaces_removed
                <= usize::MAX {
                self.punctuation_replacements + self.punctuation_spaces_removed
            } else {
                usize::MAX as int
            }),
    {
        self.punctuation_replacements.saturating_add(self.punctuation_spaces_removed)
    }

    pub open spec fn none(self) -> bool {
        self.punctuation_replacements == 0 && self.punctuation_spaces_removed == 0
    }

    pub fn is_empty(self) -> (result: bool)
        ensures
            result == self.none(),
    {
        self.punctuation_replacements == 0 && self.punctuation_spaces_removed == 0
    }
}

/// Why a cleanup is thrown away.
#[derive(Clone, Copy, Debug, PartialEq, Eq, Structural)]
pub enum CleanupRejection {
    UnauthorizedCharacterChange,
    ProtectedTextChanged,
    PathologicalExpansion,
}

impl CleanupRejection {
    pub open spec fn message_text(self) -> Seq<char> {
        match self {
            CleanupRejection::UnauthorizedCharacterChange => "清稿包含未授权的字符变化"@,
            CleanupRejection::ProtectedTextChanged => "清稿试图修改受保护文本"@,
            CleanupRejection::PathologicalExpansion => "清稿结果发生非预期膨胀"@,
        }
    }

    pub fn message(self) -> (text: &'static str)
        ensures
            text@ == self.message_text(),
    {
        match self {
            CleanupRejection::UnauthorizedCharacterChange => "清稿包含未授权的字符变化",
            CleanupRejection::ProtectedTextChanged => "清稿试图修改受保护文本",
            CleanupRejection::PathologicalExpansion => "清稿结果发生非预期膨胀",
        }
    }
}

pub struct CleanupResult {
    pub text: String,
    pub stats: CleanupStats,
    pub codes: Vec<&'static str>,
    pub rejection: Option<CleanupRejection>,
}

impl CleanupResult {
    pub fn changed(&self) -> (result: bool)
        ensures
            result == (!self.stats.none() && self.rejection is None),
    {
        !self.stats.is_empty() && self.rejection.is_none()
    }

    pub fn reverted(&self) -> (result: bool)
        ensures
            result == self.rejection is Some,
    {
        self.rejection.is_some()
    }
}

/// A character of the text, with what the cleanup makes of it.
#[derive(Clone, Copy, Debug)]
pub struct TrackedCharacter {
    pub original: char,
    pub current: char,
    pub protected: bool,
    pub remove_space: bool,
    pub replace_punctuation: bool,
}

impl TrackedCharacter {
    fn unchanged(character: char, protected: bool) -> (item: Self)
        ensures
            item.original == character,
            item.current == character,
            item.protected == protected,
            !item.remove_space,
            !item.replace_punctuation,
    {
        TrackedCharacter {
            original: character,
            current: character,
            protected,
            remove_space: false,
            replace_punctuation: false,
        }
    }
}

// ---------------------------------------------------------------------------
// Audit
// ---------------------------------------------------------------------------

/// Why the change of one character is not allowed.
pub open spec fn character_fault(item: TrackedCharacter) -> Option<CleanupRejection> {
    if item.protected && (item.current != item.original || item.remove_space
        || item.replace_punctuation) {
        Some(CleanupRejection::ProtectedTextChanged)
    } else if (item.remove_space && item.original != ' ') || (item.replace_punctuation
        && fullwidth_of(item.original) != Some(item.current)) || (!item.replace_punctuation
        && item.current != item.original) {
        Some(CleanupRejection::UnauthorizedCharacterChange)
    } else {
        None
    }
}

/// The first of the changes from `n` on that is not allowed.
pub open spec fn characters_fault(items: Seq<TrackedCharacter>, n: int) -> Option<
    CleanupRejection,
>
    decreases items.len() - n,
{
    if n < 0 || n >= items.len() {
        None
    } else if character_fault(items[n]) is Some {
        character_fault(items[n])
    } else {
        characters_fault(items, n + 1)
    }
}

/// Why a cleanup is thrown away: it grew, it changed a character that it may
/// not change, or it says something else.
pub open spec fn audit_fault(
    input: Seq<char>,
    items: Seq<TrackedCharacter>,
    output: Seq<char>,
) -> Option<CleanupRejection> {
    if output.len() > input.len() || byte_len(output) > byte_len(input) + 2 * items.len() {
        Some(CleanupRejection::PathologicalExpansion)
    } else if characters_fault(items, 0) is Some {
        characters_fault(items, 0)
    } else if lexical_of(input) != lexical_of(output) {
        Some(CleanupRejection::UnauthorizedCharacterChange)
    } else {
        None
    }
}

/// Checks that a cleanup changed nothing but what it may change.
pub fn audit_cleanup(input: &str, items: &Vec<TrackedCharacter>, output: &str) -> (result: Result<
    (),
    CleanupRejection,
>)
    ensures
        match result {
            Ok(_) => audit_fault(input@, items@, output@) is None,
            Err(rejection) => audit_fault(input@, items@, output@) == Some(rejection),
        },
{
    let input_chars = chars_of(input);
    let output_chars = chars_of(output);
    if output_chars.len() > input_chars.len() {
        return Err(CleanupRejection::PathologicalExpansion);
    }
    let limit: usize = bytes_in(input).saturating_add(items.len()).saturating_add(items.len());
    if bytes_in(output) > limit {
        return Err(CleanupRejection::PathologicalExpansion);
    }
    let mut i: usize = 0;
    while i < items.len()
        invariant
            i <= items@.len(),
            characters_fault(items@, i as int) == characters_fault(items@, 0),
            !(output@.len() > input@.len() || byte_len(output@) > byte_len(input@) + 2
                * items@.len()),
        decreases items@.len() - i,
    {
        let item: TrackedCharacter = items[i];
        if item.protected && (item.current != item.original || item.remove_space
            || item.replace_punctuation) {
            return Err(CleanupRejection::ProtectedTextChanged);
        }
        if item.remove_space && item.original != ' ' {
            return Err(CleanupRejection::UnauthorizedCharacterChange);
        }
        let full: Option<char> = fullwidth_punctuation(item.original);
        let replaced: bool = match full {
            Some(c) => c == item.current,
            None => false,
        };
        if item.replace_punctuation && !replaced {
            return Err(CleanupRejection::UnauthorizedCharacterChange);
        }
        if !item.replace_punctuation && item.current != item.original {
            return Err(CleanupRejection::UnauthorizedCharacterChange);
        }
        i += 1;
    }
    let said = lexical_projection(input);
    let says = lexical_projection(output);
    if !same_text(said.as_str(), says.as_str()) {
        return Err(CleanupRejection::UnauthorizedCharacterChange);
    }
    Ok(())
}

// ---------------------------------------------------------------------------
// Cleanup
// ---------------------------------------------------------------------------

/// The characters of a text as the cleanup finds them.
pub open spec fn is_start_of(items: Seq<TrackedCharacter>, text: Seq<char>) -> bool {
    &&& items.len() == text.len()
    &&& forall|k: int|
        0 <= k < text.len() ==> {
            let item = #[trigger] items[k];
            item.original == text[k] && item.protected == is_protected(text, k)
        }
}

/// What stands at position `k` after the first `n` marks were looked at.
pub open spec fn mark_after(text: Seq<char>, n: int, k: int) -> char {
    if k < n {
        mark_at(text, k)
    } else {
        text[k]
    }
}

fn active_before(items: &Vec<TrackedCharacter>, index: usize, Ghost(text): Ghost<Seq<char>>) -> (result:
    Option<usize>)
    requires
        is_start_of(items@, text),
        index <= items@.len(),
    ensures
        match result {
            Some(at) => before_spaces(text, index as int) == at && at < index,
            None => before_spaces(text, index as int) == -1,
        },
{
    let mut at: usize = index;
    while at > 0
        invariant
            at <= index <= items@.len(),
            is_start_of(items@, text),
            before_spaces(text, at as int) == before_spaces(text, index as int),
        decreases at,
    {
        if items[at - 1].original != ' ' {
            return Some(at - 1);
        }
        at -= 1;
    }
    None
}

fn active_after(items: &Vec<TrackedCharacter>, index: usize, Ghost(text): Ghost<Seq<char>>) -> (result:
    Option<usize>)
    requires
        is_start_of(items@, text),
        index <= items@.len(),
    ensures
        match result {
            Some(at) => after_spaces(text, index as int) == at && index <= at < items@.len(),
            None => after_spaces(text, index as int) == text.len(),
        },
{
    let mut at: usize = index;
    while at < items.len()
        invariant
            index <= at <= items@.len(),
            is_start_of(items@, text),
            after_spaces(text, at as int) == after_spaces(text, index as int),
        decreases items@.len() - at,
    {
        if items[at].original != ' ' {
            return Some(at);
        }
        at += 1;
    }
    None
}

fn has_structural_space_run_around(
    items: &Vec<TrackedCharacter>,
    index: usize,
    Ghost(text): Ghost<Seq<char>>,
) -> (result: bool)
    requires
        is_start_of(items@, text),
        index < items@.len(),
    ensures
        result == has_structure_beside(text, index as int),
{
    assert(items.len() == items@.len());
    if index > 0 {
        let left: char = items[index - 1].original;
        if left.is_whitespace() && left != ' ' {
            return true;
        }
    }
    if index + 1 < items.len() {
        let right: char = items[index + 1].original;
        if right.is_whitespace() && right != ' ' {
            return true;
        }
    }
    let left_spaces: usize = match active_before(items, index, Ghost(text)) {
        Some(at) => index - 1 - at,
        None => index,
    };
    let right_spaces: usize = match active_after(items, index + 1, Ghost(text)) {
        Some(at) => at - (index + 1),
        None => items.len() - (index + 1),
    };
    left_spaces > 1 || right_spaces > 1
}

fn is_preserved_ascii_structure(
    items: &Vec<TrackedCharacter>,
    index: usize,
    Ghost(text): Ghost<Seq<char>>,
) -> (result: bool)
    requires
        is_start_of(items@, text),
        index < items@.len(),
    ensures
        result == is_ascii_structure(text, index as int),
{
    assert(items.len() == items@.len());
    if index == 0 || index + 1 >= items.len() {
        return false;
    }
    let left: char = items[index - 1].original;
    let right: char = items[index + 1].original;
    let mark: char = items[index].original;
    (ascii_alphanumeric(left) && ascii_alphanumeric(right)) || ((mark == ',' || mark == ':' || mark
        == ';') && left.is_numeric() && right.is_numeric())
}

fn has_chinese_context(
    items: &Vec<TrackedCharacter>,
    index: usize,
    Ghost(text): Ghost<Seq<char>>,
) -> (result: bool)
    requires
        is_start_of(items@, text),
        index < items@.len(),
        forall|k: int|
            0 <= k < text.len() ==> (#[trigger] items@[k]).current == mark_after(
                text,
                index as int,
                k,
            ),
    ensures
        result == ({
            let left = before_spaces(text, index as int);
            let right = after_spaces(text, index + 1);
            (0 <= left < index && is_compact(mark_at(text, left))) || (right < text.len()
                && is_compact(text[right]))
        }),
{
    assert(items.len() == items@.len());
    if let Some(at) = active_before(items, index, Ghost(text)) {
        let c: char = items[at].current;
        if is_han(c) || is_chinese_punctuation(c) {
            return true;
        }
    }
    if let Some(at) = active_after(items, index + 1, Ghost(text)) {
        let c: char = items[at].current;
        if is_han(c) || is_chinese_punctuation(c) {
            return true;
        }
    }
    false
}

/// What the cleanup makes of each character of a text.
pub open spec fn is_marked(items: Seq<TrackedCharacter>, text: Seq<char>) -> bool {
    &&& is_start_of(items, text)
    &&& forall|k: int|
        0 <= k < text.len() ==> {
            let item = #[trigger] items[k];
            item.current == mark_at(text, k) && item.replace_punctuation == takes_fullwidth(text, k)
        }
}

fn track(source: &[char], mask: &Vec<bool>) -> (items: Vec<TrackedCharacter>)
    requires
        mask@.len() == source@.len(),
    ensures
        items@.len() == source@.len(),
        forall|k: int|
            0 <= k < source@.len() ==> {
                let item = #[trigger] items@[k];
                item.original == source@[k] && item.protected == mask@[k] && item.current
                    == source@[k] && !item.remove_space && !item.replace_punctuation
            },
{
    let mut items: Vec<TrackedCharacter> = Vec::new();
    let mut i: usize = 0;
    while i < source.len()
        invariant
            i <= source@.len(),
            mask@.len() == source@.len(),
            items@.len() == i,
            forall|k: int|
                0 <= k < i ==> {
                    let item = #[trigger] items@[k];
                    item.original == source@[k] && item.protected == mask@[k] && item.current
                        == source@[k] && !item.remove_space && !item.replace_punctuation
                },
        decreases source@.len() - i,
    {
        items.push(TrackedCharacter::unchanged(source[i], mask[i]));
        i += 1;
    }
    items
}

fn widen_marks(text: &str) -> (result: (Vec<TrackedCharacter>, usize))
    ensures
        is_marked(result.0@, text@),
        forall|k: int| 0 <= k < text@.len() ==> !(#[trigger] result.0@[k]).remove_space,
        result.1 == fullwidth_count(text@, text@.len()),
{
    let source = chars_of(text);
    let mask = protected_mask(source.as_slice());
    let mut items = track(source.as_slice(), &mask);
    let mut count: usize = 0;
    let mut index: usize = 0;
    while index < items.len()
        invariant
            index <= items@.len(),
            count <= index,
            count == fullwidth_count(text@, index as nat),
            is_start_of(items@, text@),
            forall|k: int|
                0 <= k < text@.len() ==> {
                    let item = #[trigger] items@[k];
                    item.current == mark_after(text@, index as int, k) && !item.remove_space
                        && item.replace_punctuation == (k < index && takes_fullwidth(text@, k))
                },
        decreases items@.len() - index,
    {
        let mut item: TrackedCharacter = items[index];
        if !item.protected {
            if let Some(full) = fullwidth_punctuation(item.original) {
                if has_chinese_context(&items, index, Ghost(text@))
                    && !has_structural_space_run_around(&items, index, Ghost(text@))
                    && !is_preserved_ascii_structure(&items, index, Ghost(text@)) {
                    item.current = full;
                    item.replace_punctuation = true;
                    items.set(index, item);
                    count += 1;
                }
            }
        }
        index += 1;
    }
    (items, count)
}

fn drop_spaces(items: &mut Vec<TrackedCharacter>, Ghost(text): Ghost<Seq<char>>) -> (count: usize)
    requires
        is_marked(old(items)@, text),
        forall|k: int| 0 <= k < text.len() ==> !(#[trigger] old(items)@[k]).remove_space,
    ensures
        is_marked(final(items)@, text),
        forall|k: int|
            0 <= k < text.len() ==> (#[trigger] final(items)@[k]).remove_space == drops_space(
                text,
                k,
            ),
        count == dropped_count(text, text.len()),
{
    let mut count: usize = 0;
    let mut index: usize = 0;
    while index < items.len()
        invariant
            index <= items@.len(),
            count <= index,
            is_marked(items@, text),
            count == dropped_count(text, index as nat),
            !is_loose_space(text, index - 1) || !is_loose_space(text, index as int),
            forall|k: int|
                0 <= k < text.len() ==> (#[trigger] items@[k]).remove_space == (k < index
                    && drops_space(text, k)),
        decreases items@.len() - index,
    {
        assert(items@[index as int].original == text[index as int]);
        if items[index].original != ' ' || items[index].protected {
            index += 1;
        } else {
            let start: usize = index;
            index += 1;
            while index < items.len() && items[index].original == ' ' && !items[index].protected
                invariant
                    start < index <= items@.len(),
                    is_marked(items@, text),
                    is_loose_space(text, start as int),
                    !is_loose_space(text, start - 1),
                    index > start + 1 ==> !drops_space(text, start as int),
                    forall|k: int| start <= k < index ==> #[trigger] is_loose_space(text, k),
                    forall|k: int| start < k < index ==> !#[trigger] drops_space(text, k),
                    index == start + 1 ==> dropped_count(text, start as nat) == count,
                    index > start + 1 ==> dropped_count(text, index as nat) == count,
                decreases items@.len() - index,
            {
                assert(is_loose_space(text, index as int));
                assert(is_loose_space(text, index - 1));
                assert(!drops_space(text, index - 1));
                assert(!drops_space(text, index as int));
                index += 1;
                proof {
                    reveal_with_fuel(dropped_count, 3);
                }
            }
            assert(!is_loose_space(text, index as int)) by {
                if index < text.len() {
                    assert(items@[index as int].original == text[index as int]);
                }
            }
            if index - start == 1 {
                let left: bool = match active_before(items, start, Ghost(text)) {
                    Some(at) => is_chinese_punctuation(items[at].current),
                    None => false,
                };
                let right: bool = match active_after(items, index, Ghost(text)) {
                    Some(at) => is_chinese_punctuation(items[at].current),
                    None => false,
                };
                if left || right {
                    let mut item: TrackedCharacter = items[start];
                    item.remove_space = true;
                    items.set(start, item);
                    count += 1;
                }
            }
        }
    }
    count
}

/// The text without white space.
pub open spec fn without_spaces(text: Seq<char>, n: nat) -> Seq<char>
    decreases n,
{
    if n == 0 {
        Seq::empty()
    } else {
        let before = without_spaces(text, (n - 1) as nat);
        if is_white_space(text[n - 1]) {
            before
        } else {
            before.push(text[n - 1])
        }
    }
}

/// A text holds a filler or a repeated word, white space aside.
pub open spec fn sounds_disfluent(text: Seq<char>) -> bool {
    let compact = without_spaces(text, text.len());
    ||| contains_text(compact, "嗯"@)
    ||| contains_text(compact, "呃"@)
    ||| contains_text(compact, "我我"@)
    ||| contains_text(compact, "你你"@)
    ||| contains_text(compact, "然后然后"@)
    ||| contains_text(compact, "但是但是"@)
    ||| contains_text(compact, "所以所以"@)
    ||| contains_text(compact, "Sorry,Sorry"@)
    ||| contains_text(compact, "sorry,sorry"@)
}

fn has_possible_disfluency(text: &str) -> (result: bool)
    ensures
        result == sounds_disfluent(text@),
{
    let chars = chars_of(text);
    let mut compact = String::new();
    let mut i: usize = 0;
    while i < chars.len()
        invariant
            i <= chars@.len(),
            chars@ == text@,
            compact@ == without_spaces(text@, i as nat),
        decreases chars@.len() - i,
    {
        if !chars[i].is_whitespace() {
            compact.push(chars[i]);
        }
        i += 1;
    }
    let found = compact.as_str();
    contains_str(found, "嗯") || contains_str(found, "呃") || contains_str(found, "我我")
        || contains_str(found, "你你") || contains_str(found, "然后然后") || contains_str(
        found,
        "但是但是",
    ) || contains_str(found, "所以所以") || contains_str(found, "Sorry,Sorry") || contains_str(
        found,
        "sorry,sorry",
    )
}

/// The codes that a cleanup of a text reports.
pub open spec fn cleanup_codes(text: Seq<char>) -> Seq<Seq<char>> {
    let changed = fullwidth_count(text, text.len()) + dropped_count(text, text.len()) > 0;
    (if changed {
        seq![CODE_CHINESE_PUNCTUATION_NORMALIZED@]
    } else {
        seq![]
    }) + (if sounds_disfluent(text) {
        seq![CODE_POSSIBLE_DISFLUENCY_PRESERVED@]
    } else {
        seq![]
    })
}

pub open spec fn code_texts(codes: Seq<&'static str>) -> Seq<Seq<char>> {
    Seq::new(codes.len(), |k: int| codes[k]@)
}

/// What a cleanup of a text gives back.
pub open spec fn is_cleanup_of(result: CleanupResult, text: Seq<char>) -> bool {
    &&& result.text@ == cleaned(text, text.len())
    &&& result.stats.punctuation_replacements == fullwidth_count(text, text.len())
    &&& result.stats.punctuation_spaces_removed == dropped_count(text, text.len())
    &&& code_texts(result.codes@) == cleanup_codes(text)
    &&& result.rejection is None
}

proof fn lemma_audit_passes(text: Seq<char>, items: Seq<TrackedCharacter>, n: int)
    requires
        is_marked(items, text),
        0 <= n <= items.len(),
        forall|k: int|
            0 <= k < text.len() ==> (#[trigger] items[k]).remove_space == drops_space(text, k),
    ensures
        characters_fault(items, n) is None,
    decreases items.len() - n,
{
    if n < items.len() {
        assert(items[n].original == text[n]);
        lemma_audit_passes(text, items, n + 1);
    }
}

/// Cleans a text up. Every text passes the audit.
pub fn try_cleanup_quality_text(text: &str) -> (result: Result<CleanupResult, CleanupRejection>)
    ensures
        result is Ok,
        is_cleanup_of(result->Ok_0, text@),
{
    let (mut items, replacements) = widen_marks(text);
    let removed: usize = drop_spaces(&mut items, Ghost(text@));
    let stats = CleanupStats {
        punctuation_replacements: replacements,
        punctuation_spaces_removed: removed,
    };
    let mut output = String::new();
    let mut i: usize = 0;
    while i < items.len()
        invariant
            i <= items@.len(),
            is_marked(items@, text@),
            forall|k: int|
                0 <= k < text@.len() ==> (#[trigger] items@[k]).remove_space == drops_space(
                    text@,
                    k,
                ),
            output@ == cleaned(text@, i as nat),
        decreases items@.len() - i,
    {
        if !items[i].remove_space {
            output.push(items[i].current);
        }
        i += 1;
    }
    proof {
        lemma_cleanup_keeps_words(text@);
        lemma_cleaned_bytes(text@, text@.len());
        assert(text@.take(text@.len() as int) =~= text@);
        lemma_audit_passes(text@, items@, 0);
    }
    if let Err(rejection) = audit_cleanup(text, &items, output.as_str()) {
        return Err(rejection);
    }
    let mut codes: Vec<&'static str> = Vec::new();
    if !stats.is_empty() {
        codes.push(CODE_CHINESE_PUNCTUATION_NORMALIZED);
    }
    if has_possible_disfluency(text) {
        codes.push(CODE_POSSIBLE_DISFLUENCY_PRESERVED);
    }
    assert(code_texts(codes@) =~= cleanup_codes(text@));
    Ok(CleanupResult { text: output, stats, codes, rejection: None })
}

/// Cleans a text up for reading. Spoken words, fillers, repetitions, names and
/// numbers stay; what may be a disfluency is reported and kept.
pub fn cleanup_quality_text(text: &str) -> (result: CleanupResult)
    ensures
        is_cleanup_of(result, text@),
{
    match try_cleanup_quality_text(text) {
        Ok(result) => result,
        Err(rejection) => {
            let mut codes: Vec<&'static str> = Vec::new();
            codes.push(CODE_CLEANUP_REVERTED);
            CleanupResult {
                text: text.to_owned(),
                stats: CleanupStats::default(),
                codes,
                rejection: Some(rejection),
            }
        },
    }
}

} // verus!
