//! Which marks of a recognized text carry meaning, and which scripts it is
//! written in.
use vstd::prelude::*;
use crate::asr::{is_content, solid_before, solid_from};
use crate::chinese::{has_han, has_kana, is_kept_whole};
use crate::text::{char_is_alphabetic, char_is_numeric, is_white_space};

verus! {

// ---------------------------------------------------------------------------
// Marks
// ---------------------------------------------------------------------------

/// The marks that part sentences, words or numbers.
pub open spec fn may_part(c: char) -> bool {
    c == ',' || c == '，' || c == '.' || c == ':' || c == '：' || c == '!' || c == '！' || c == '?' || c
        == '？' || c == ';' || c == '；' || c == '\'' || c == '’'
}

/// The marks that never mean anything by themselves.
pub open spec fn only_shows(c: char) -> bool {
    c == '。' || c == '、' || c == '…' || c == '"' || c == '“' || c == '”' || c == '‘'
}

/// The characters of addresses, file names and code.
pub open spec fn is_of_token(c: char) -> bool {
    ('a' <= c <= 'z') || ('A' <= c <= 'Z') || ('0' <= c <= '9') || c == '/' || c == '@' || c == '_'
        || c == '-' || c == '+' || c == '=' || c == '%' || c == '&' || c == '#' || c == '~'
}

/// A character of one of the blocks of Han.
pub open spec fn is_of_han(c: char) -> bool {
    (0x3400 <= c as u32 <= 0x4dbf) || (0x4e00 <= c as u32 <= 0x9fff) || (0xf900 <= c as u32
        <= 0xfaff) || (0x20000 <= c as u32 <= 0x2ebef) || (0x30000 <= c as u32 <= 0x323af)
}

/// A full stop, a list comma, an ellipsis and a quote never belong to the
/// content; a mark that parts does between two characters of a token, between
/// two digits, and within a word.
pub proof fn lemma_marks_with_meaning(text: Seq<char>, i: int)
    requires
        0 <= i < text.len(),
    ensures
        only_shows(text[i]) ==> !is_content(text, i),
        may_part(text[i]) && 0 < i && i + 1 < text.len() && is_of_token(text[i - 1]) && is_of_token(
            text[i + 1],
        ) ==> is_content(text, i),
        may_part(text[i]) && 0 < i && i + 1 < text.len() && char_is_numeric(text[i - 1])
            && char_is_numeric(text[i + 1]) ==> is_content(text, i),
        text[i] == '.' && i + 1 < text.len() && char_is_numeric(text[i + 1]) ==> is_content(
            text,
            i,
        ),
        text[i] == ':' && (0 < i && text[i - 1] == ':' || i + 1 < text.len() && text[i + 1] == ':')
            ==> is_content(text, i),
        (text[i] == '\'' || text[i] == '’') && 0 < i && i + 1 < text.len() && char_is_alphabetic(
            text[i - 1],
        ) && char_is_alphabetic(text[i + 1]) && !is_of_han(text[i - 1]) && !is_of_han(text[i + 1])
            ==> is_content(text, i),
{
}

/// A mark that parts means nothing at the start or the end of a text, or beside
/// a character that is neither a digit nor one of a token, unless it stands in
/// a word, before a digit, or in a run of colons.
pub proof fn lemma_marks_without_meaning(text: Seq<char>, i: int)
    requires
        0 <= i < text.len(),
        may_part(text[i]),
        text[i] != '.' || i + 1 == text.len() || !char_is_numeric(text[i + 1]),
        text[i] != ':' || !(0 < i && text[i - 1] == ':') && !(i + 1 < text.len() && text[i + 1]
            == ':'),
        (text[i] != '\'' && text[i] != '’') || i == 0 || i + 1 == text.len()
            || !char_is_alphabetic(text[i - 1]) || !char_is_alphabetic(text[i + 1]) || is_of_han(
            text[i - 1],
        ) || is_of_han(text[i + 1]),
        i == 0 || i + 1 == text.len() || !is_of_token(text[i - 1]) && !char_is_numeric(text[i - 1])
            || !is_of_token(text[i + 1]) && !char_is_numeric(text[i + 1]),
    ensures
        !is_content(text, i),
{
}

/// Any character but white space and these marks belongs to the content.
pub proof fn lemma_other_characters(text: Seq<char>, i: int)
    requires
        0 <= i < text.len(),
        !is_white_space(text[i]),
        !may_part(text[i]),
        !only_shows(text[i]),
    ensures
        is_content(text, i),
{
}

/// A space between two letters or digits belongs to the content, unless both
/// are Han characters; and a second one beside it does not.
pub proof fn lemma_spaces_between_words(text: Seq<char>, i: int)
    requires
        0 < i,
        i + 1 < text.len(),
        is_white_space(text[i]),
        char_is_alphabetic(text[i - 1]) || char_is_numeric(text[i - 1]),
        char_is_alphabetic(text[i + 1]) || char_is_numeric(text[i + 1]),
        !is_white_space(text[i - 1]) && !may_part(text[i - 1]) && !only_shows(text[i - 1]),
        !is_white_space(text[i + 1]) && !may_part(text[i + 1]) && !only_shows(text[i + 1]),
    ensures
        is_content(text, i) <==> !(is_of_han(text[i - 1]) && is_of_han(text[i + 1])),
{
    lemma_other_characters(text, i - 1);
    lemma_other_characters(text, i + 1);
    assert(solid_before(text, i) == i - 1);
    assert(solid_from(text, i + 1) == i + 1);
}

/// A space behind another one never belongs to the content.
pub proof fn lemma_second_space(text: Seq<char>, i: int)
    requires
        0 < i < text.len(),
        is_white_space(text[i]),
        is_white_space(text[i - 1]),
    ensures
        !is_content(text, i),
{
}

// ---------------------------------------------------------------------------
// Scripts
// ---------------------------------------------------------------------------

/// A character of one of the blocks of kana; the middle dot is none.
pub open spec fn is_of_kana(c: char) -> bool {
    c as u32 != 0x30fb && ((0x3040 <= c as u32 <= 0x30ff) || (0x31f0 <= c as u32 <= 0x31ff) || (0xff65
        <= c as u32 <= 0xff9f) || (0x1aff0 <= c as u32 <= 0x1afff) || (0x1b000 <= c as u32
        <= 0x1b16f))
}

/// A text is kept as it stands exactly where it has no Han character, or has
/// kana.
pub proof fn lemma_scripts(text: Seq<char>)
    ensures
        is_kept_whole(text) <==> (forall|i: int|
            0 <= i < text.len() ==> !is_of_han(#[trigger] text[i])) || exists|i: int|
            0 <= i < text.len() && is_of_kana(#[trigger] text[i]),
{
    if has_han(text) {
        let i = choose|i: int| 0 <= i < text.len() && crate::chinese::is_han_char(#[trigger] text[i]);
        assert(is_of_han(text[i]));
    } else {
        assert forall|i: int| 0 <= i < text.len() implies !is_of_han(#[trigger] text[i]) by {
            assert(!crate::chinese::is_han_char(text[i]));
        }
    }
    if has_kana(text) {
        let i = choose|i: int|
            0 <= i < text.len() && crate::chinese::is_kana_char(#[trigger] text[i]);
        assert(is_of_kana(text[i]));
    } else {
        assert forall|i: int| 0 <= i < text.len() implies !is_of_kana(#[trigger] text[i]) by {
            assert(!crate::chinese::is_kana_char(text[i]));
        }
    }
}

} // verus!
