//! Normal forms of text in which a hypothesis is compared with a reference.
use crate::text::{
    char_is_alphabetic, char_is_numeric, chars_of, fault_of, is_white_space, text2,
};
use unicode_normalization::UnicodeNormalization;
use vstd::prelude::*;

verus! {

/// The Unicode Normalization Form C of a text.
pub uninterp spec fn nfc_of(text: Seq<char>) -> Seq<char>;

/// The lower case of a character.
pub uninterp spec fn lowercase_of(c: char) -> Seq<char>;

/// `UnicodeNormalization::nfc` of the crate `unicode_normalization`, with its
/// characters put together: a function of the text alone.
#[verifier::external_body]
fn nfc(text: &str) -> (normal: String)
    ensures
        normal@ == nfc_of(text@),
{
    text.nfc().collect()
}

/// `is_nfc` of the crate `unicode_normalization`: whether the text is its own
/// Normalization Form C.
#[verifier::external_body]
fn is_nfc(text: &str) -> (result: bool)
    ensures
        result == (nfc_of(text@) == text@),
{
    unicode_normalization::is_nfc(text)
}

/// `char::to_lowercase`, with its characters put together: a function of the
/// character alone.
#[verifier::external_body]
fn lowercase(c: char) -> (lower: String)
    ensures
        lower@ == lowercase_of(c),
{
    c.to_lowercase().collect()
}

/// A full-width form of an ASCII character as that character, the ideographic
/// space as a space, and any other character itself.
pub open spec fn narrowed(c: char) -> char {
    if '\u{ff01}' <= c <= '\u{ff5e}' {
        (c as u32 - 0xfee0) as char
    } else if c == '\u{3000}' {
        ' '
    } else {
        c
    }
}

pub fn normalize_width(character: char) -> (result: char)
    ensures
        result == narrowed(character),
{
    if '\u{ff01}' <= character && character <= '\u{ff5e}' {
        let code: u8 = (character as u32 - 0xfee0) as u8;
        code as char
    } else if character == '\u{3000}' {
        ' '
    } else {
        character
    }
}

/// The letters and digits of a text, narrowed and in lower case.
pub open spec fn folded_letters(text: Seq<char>) -> Seq<char>
    decreases text.len(),
{
    if text.len() == 0 {
        Seq::empty()
    } else {
        let c = narrowed(text.last());
        let before = folded_letters(text.drop_last());
        if char_is_alphabetic(c) || char_is_numeric(c) {
            before + lowercase_of(c)
        } else {
            before
        }
    }
}

/// The characters of a text that are not white space, narrowed and in lower
/// case.
pub open spec fn folded_marks(text: Seq<char>) -> Seq<char>
    decreases text.len(),
{
    if text.len() == 0 {
        Seq::empty()
    } else {
        let c = narrowed(text.last());
        let before = folded_marks(text.drop_last());
        if is_white_space(c) {
            before
        } else {
            before + lowercase_of(c)
        }
    }
}

pub fn fold_letters(text: &str) -> (result: String)
    ensures
        result@ == folded_letters(text@),
{
    let chars = chars_of(text);
    let mut result = String::new();
    let mut i: usize = 0;
    while i < chars.len()
        invariant
            i <= chars@.len(),
            result@ == folded_letters(chars@.take(i as int)),
        decreases chars@.len() - i,
    {
        assert(chars@.take(i + 1).drop_last() == chars@.take(i as int));
        let c = normalize_width(chars[i]);
        if c.is_alphanumeric() {
            result.append(lowercase(c).as_str());
        }
        i += 1;
    }
    assert(chars@.take(i as int) == text@);
    result
}

pub fn fold_marks(text: &str) -> (result: String)
    ensures
        result@ == folded_marks(text@),
{
    let chars = chars_of(text);
    let mut result = String::new();
    let mut i: usize = 0;
    while i < chars.len()
        invariant
            i <= chars@.len(),
            result@ == folded_marks(chars@.take(i as int)),
        decreases chars@.len() - i,
    {
        assert(chars@.take(i + 1).drop_last() == chars@.take(i as int));
        let c = normalize_width(chars[i]);
        if !c.is_whitespace() {
            result.append(lowercase(c).as_str());
        }
        i += 1;
    }
    assert(chars@.take(i as int) == text@);
    result
}

/// The form in which character errors are counted.
pub open spec fn normalized_text(text: Seq<char>) -> Seq<char> {
    nfc_of(folded_letters(nfc_of(text)))
}

/// The form in which terms are looked for.
pub open spec fn exact_text(text: Seq<char>) -> Seq<char> {
    nfc_of(folded_marks(nfc_of(text)))
}

pub fn normalize_text(value: &str) -> (result: String)
    ensures
        result@ == normalized_text(value@),
{
    nfc(fold_letters(nfc(value).as_str()).as_str())
}

pub fn normalize_exact_text(value: &str) -> (result: String)
    ensures
        result@ == exact_text(value@),
{
    nfc(fold_marks(nfc(value).as_str()).as_str())
}

/// Whether a text is in Normalization Form C.
pub fn is_declared_nfc(value: &str) -> (result: bool)
    ensures
        result == (nfc_of(value@) == value@),
{
    is_nfc(value)
}

/// Checks that a text is in the form that its case declares.
pub fn ensure_declared_nfc(source: &str, value: &str) -> (result: Result<(), String>)
    ensures
        fault_of(result) == (if nfc_of(value@) != value@ {
            Some(
                source@ + " 与 case.tsv 声明的 NFC 不一致；请先将内容规范化为 Unicode NFC"@,
            )
        } else {
            None
        }),
{
    if !is_declared_nfc(value) {
        return Err(
            text2(source, " 与 case.tsv 声明的 NFC 不一致；请先将内容规范化为 Unicode NFC"),
        );
    }
    Ok(())
}

/// Checks that there is something to count errors against.
pub fn ensure_nonempty_normalized_reference(normalized_reference: &str) -> (result: Result<
    (),
    String,
>)
    ensures
        fault_of(result) == (if normalized_reference@.len() == 0 {
            Some("参考文字删除空白、标点和符号后为空，CER 没有合法分母"@)
        } else {
            None
        }),
{
    if chars_of(normalized_reference).len() == 0 {
        return Err("参考文字删除空白、标点和符号后为空，CER 没有合法分母".to_owned());
    }
    Ok(())
}

} // verus!
