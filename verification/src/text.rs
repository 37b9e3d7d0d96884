//! Text as a sequence of characters: the operations on strings that the rest
//! of the library is written in.
use vstd::prelude::*;
use vstd::utf8::encode_utf8;

verus! {

// ---------------------------------------------------------------------------
// Character classes
// ---------------------------------------------------------------------------

/// The code points with the Unicode property `White_Space`.
pub open spec fn is_white_space(c: char) -> bool {
    let v = c as u32;
    ||| 0x09 <= v <= 0x0d
    ||| v == 0x20
    ||| v == 0x85
    ||| v == 0xa0
    ||| v == 0x1680
    ||| 0x2000 <= v <= 0x200a
    ||| v == 0x2028
    ||| v == 0x2029
    ||| v == 0x202f
    ||| v == 0x205f
    ||| v == 0x3000
}

/// The code points of the general category `Cc`.
pub open spec fn is_control_code(c: char) -> bool {
    let v = c as u32;
    v <= 0x1f || 0x7f <= v <= 0x9f
}

/// The digits among the characters of ASCII.
pub open spec fn is_digit_code(c: char) -> bool {
    0x30 <= c as u32 <= 0x39
}

/// The letters among the characters of ASCII.
pub open spec fn is_letter_code(c: char) -> bool {
    0x41 <= c as u32 <= 0x5a || 0x61 <= c as u32 <= 0x7a
}

/// What `char::is_numeric` says of a character.
pub uninterp spec fn char_is_numeric(c: char) -> bool;

/// What `char::is_alphabetic` says of a character.
pub uninterp spec fn char_is_alphabetic(c: char) -> bool;

/// `char::is_whitespace`: true of the characters with the Unicode property
/// `White_Space` and of no other.
pub assume_specification[ char::is_whitespace ](c: char) -> (result: bool)
    ensures
        result == is_white_space(c),
;

/// `char::is_control`: true of the characters of the general category `Cc`
/// and of no other.
pub assume_specification[ char::is_control ](c: char) -> (result: bool)
    ensures
        result == is_control_code(c),
;

/// `char::is_numeric`: a function of the character alone; in ASCII, true of the
/// digits and of no other.
pub assume_specification[ char::is_numeric ](c: char) -> (result: bool)
    ensures
        result == char_is_numeric(c),
        0x7f >= c as u32 ==> result == is_digit_code(c),
;

/// `char::is_alphabetic`: a function of the character alone; in ASCII, true of
/// the letters and of no other.
pub assume_specification[ char::is_alphabetic ](c: char) -> (result: bool)
    ensures
        result == char_is_alphabetic(c),
        0x7f >= c as u32 ==> result == is_letter_code(c),
;

/// `char::is_alphanumeric`: alphabetic or numeric; in ASCII, true of the letters
/// and the digits and of no other.
pub assume_specification[ char::is_alphanumeric ](c: char) -> (result: bool)
    ensures
        result == (char_is_alphabetic(c) || char_is_numeric(c)),
        0x7f >= c as u32 ==> result == (is_letter_code(c) || is_digit_code(c)),
;

/// `String::push`: the character is added at the end.
pub assume_specification[ String::push ](text: &mut String, c: char)
    ensures
        final(text)@ == old(text)@.push(c),
;

pub open spec fn is_ascii_digit_char(c: char) -> bool {
    '0' <= c <= '9'
}

pub open spec fn is_ascii_lower_char(c: char) -> bool {
    'a' <= c <= 'z'
}

pub open spec fn is_ascii_upper_char(c: char) -> bool {
    'A' <= c <= 'Z'
}

pub open spec fn is_ascii_alphanumeric_char(c: char) -> bool {
    is_ascii_digit_char(c) || is_ascii_lower_char(c) || is_ascii_upper_char(c)
}

pub fn ascii_digit(c: char) -> (result: bool)
    ensures
        result == is_ascii_digit_char(c),
{
    '0' <= c && c <= '9'
}

pub fn ascii_alphanumeric(c: char) -> (result: bool)
    ensures
        result == is_ascii_alphanumeric_char(c),
{
    ('0' <= c && c <= '9') || ('a' <= c && c <= 'z') || ('A' <= c && c <= 'Z')
}

/// An ASCII capital letter as its small letter; any other character itself.
pub open spec fn lower_char(c: char) -> char {
    if is_ascii_upper_char(c) {
        (c as u32 + 32) as char
    } else {
        c
    }
}

pub fn to_lower(c: char) -> (lower: char)
    ensures
        lower == lower_char(c),
{
    if 'A' <= c && c <= 'Z' {
        let code: u8 = c as u8;
        let small: u8 = code + 32;
        small as char
    } else {
        c
    }
}

// ---------------------------------------------------------------------------
// Strings and their characters
// ---------------------------------------------------------------------------

/// The number of bytes of a text in UTF-8.
pub open spec fn byte_len(text: Seq<char>) -> nat {
    encode_utf8(text).len()
}

/// The number of bytes of a string.
pub fn bytes_in(text: &str) -> (count: usize)
    ensures
        count == byte_len(text@),
{
    text.as_bytes().len()
}

/// The characters of a string.
pub fn chars_of(text: &str) -> (chars: Vec<char>)
    ensures
        chars@ == text@,
{
    let mut chars: Vec<char> = Vec::new();
    for c in iter: text.chars()
        invariant
            chars@ == text@.take(iter.index()),
            iter.seq() == text@,
    {
        chars.push(c);
    }
    chars
}

/// The string that holds the characters `start..end`.
pub fn string_of_range(chars: &[char], start: usize, end: usize) -> (text: String)
    requires
        start <= end <= chars@.len(),
    ensures
        text@ == chars@.subrange(start as int, end as int),
{
    let mut text = String::new();
    let mut i: usize = start;
    while i < end
        invariant
            start <= i <= end <= chars.len(),
            text@ == chars@.subrange(start as int, i as int),
        decreases end - i,
    {
        text.push(chars[i]);
        i += 1;
        assert(chars@.subrange(start as int, i as int) == chars@.subrange(
            start as int,
            i - 1,
        ).push(chars@[i - 1]));
    }
    text
}

/// The string that holds the given characters.
pub fn string_of(chars: &[char]) -> (text: String)
    ensures
        text@ == chars@,
{
    let text = string_of_range(chars, 0, chars.len());
    assert(chars@.subrange(0, chars@.len() as int) == chars@);
    text
}

/// The characters `start..end`.
pub fn chars_in_range(chars: &[char], start: usize, end: usize) -> (part: Vec<char>)
    requires
        start <= end <= chars@.len(),
    ensures
        part@ == chars@.subrange(start as int, end as int),
{
    let mut part: Vec<char> = Vec::new();
    let mut i: usize = start;
    while i < end
        invariant
            start <= i <= end <= chars.len(),
            part@ == chars@.subrange(start as int, i as int),
        decreases end - i,
    {
        part.push(chars[i]);
        i += 1;
        assert(chars@.subrange(start as int, i as int) == chars@.subrange(
            start as int,
            i - 1,
        ).push(chars@[i - 1]));
    }
    part
}

/// Adds the characters `start..end` to a string.
pub fn append_range(text: &mut String, chars: &[char], start: usize, end: usize)
    requires
        start <= end <= chars@.len(),
    ensures
        final(text)@ == old(text)@ + chars@.subrange(start as int, end as int),
{
    let part = string_of_range(chars, start, end);
    text.append(part.as_str());
}

/// Whether two strings hold the same text.
pub fn same_text(left: &str, right: &str) -> (result: bool)
    ensures
        result == (left@ == right@),
{
    left.to_owned() == right.to_owned()
}

/// Whether two character sequences are the same.
pub fn same_chars(left: &[char], right: &[char]) -> (result: bool)
    ensures
        result == (left@ == right@),
{
    if left.len() != right.len() {
        return false;
    }
    let mut i: usize = 0;
    while i < left.len()
        invariant
            i <= left.len(),
            left.len() == right.len(),
            forall|k: int| 0 <= k < i ==> left@[k] == right@[k],
        decreases left.len() - i,
    {
        if left[i] != right[i] {
            assert(left@[i as int] != right@[i as int]);
            return false;
        }
        i += 1;
    }
    assert(left@ =~= right@);
    true
}

// ---------------------------------------------------------------------------
// Occurrences
// ---------------------------------------------------------------------------

/// `needle` stands in `text` from position `at` on.
pub open spec fn occurs_at(text: Seq<char>, at: int, needle: Seq<char>) -> bool {
    &&& 0 <= at
    &&& at + needle.len() <= text.len()
    &&& text.subrange(at, at + needle.len()) == needle
}

/// `needle` stands somewhere in `text`.
pub open spec fn contains_text(text: Seq<char>, needle: Seq<char>) -> bool {
    exists|at: int| #[trigger] occurs_at(text, at, needle)
}

pub open spec fn starts_with(text: Seq<char>, prefix: Seq<char>) -> bool {
    occurs_at(text, 0, prefix)
}

/// Whether `needle` stands in `text` from position `at` on.
pub fn occurs_here(text: &[char], at: usize, needle: &[char]) -> (result: bool)
    ensures
        result == occurs_at(text@, at as int, needle@),
{
    if at > text.len() || text.len() - at < needle.len() {
        return false;
    }
    let mut i: usize = 0;
    while i < needle.len()
        invariant
            i <= needle.len(),
            at + needle.len() <= text.len(),
            forall|k: int| 0 <= k < i ==> text@[at + k] == needle@[k],
        decreases needle.len() - i,
    {
        if text[at + i] != needle[i] {
            assert(text@.subrange(at as int, at + needle@.len())[i as int] != needle@[i as int]);
            return false;
        }
        i += 1;
    }
    assert(text@.subrange(at as int, at + needle@.len()) =~= needle@);
    true
}

/// Whether `needle` stands somewhere in `text`.
pub fn contains_chars(text: &[char], needle: &[char]) -> (result: bool)
    ensures
        result == contains_text(text@, needle@),
{
    let mut at: usize = 0;
    while at <= text.len()
        invariant
            at <= text.len() + 1,
            forall|k: int| 0 <= k < at ==> !#[trigger] occurs_at(text@, k, needle@),
        decreases text.len() + 1 - at,
    {
        if occurs_here(text, at, needle) {
            return true;
        }
        if at == text.len() {
            assert forall|k: int| !#[trigger] occurs_at(text@, k, needle@) by {
                if k <= at {
                    assert(k == at || k < at);
                }
            }
            return false;
        }
        at += 1;
    }
    false
}

pub fn contains_str(text: &str, needle: &str) -> (result: bool)
    ensures
        result == contains_text(text@, needle@),
{
    let text = chars_of(text);
    let needle = chars_of(needle);
    contains_chars(text.as_slice(), needle.as_slice())
}

pub fn starts_with_str(text: &str, prefix: &str) -> (result: bool)
    ensures
        result == starts_with(text@, prefix@),
{
    let text = chars_of(text);
    let prefix = chars_of(prefix);
    occurs_here(text.as_slice(), 0, prefix.as_slice())
}

// ---------------------------------------------------------------------------
// Trimming, case and words
// ---------------------------------------------------------------------------

pub open spec fn trimmed_start(text: Seq<char>) -> Seq<char>
    decreases text.len(),
{
    if text.len() > 0 && is_white_space(text[0]) {
        trimmed_start(text.drop_first())
    } else {
        text
    }
}

pub open spec fn trimmed_end(text: Seq<char>) -> Seq<char>
    decreases text.len(),
{
    if text.len() > 0 && is_white_space(text.last()) {
        trimmed_end(text.drop_last())
    } else {
        text
    }
}

/// A text without the white space at its two ends.
pub open spec fn trimmed(text: Seq<char>) -> Seq<char> {
    trimmed_end(trimmed_start(text))
}

/// The range that is left of `start..end` without white space at its ends.
pub fn trim_range(chars: &[char], start: usize, end: usize) -> (range: (usize, usize))
    requires
        start <= end <= chars@.len(),
    ensures
        start <= range.0 <= range.1 <= end,
        chars@.subrange(range.0 as int, range.1 as int) == trimmed(
            chars@.subrange(start as int, end as int),
        ),
        chars@.subrange(range.0 as int, end as int) == trimmed_start(
            chars@.subrange(start as int, end as int),
        ),
{
    let mut from: usize = start;
    let ghost whole = chars@.subrange(start as int, end as int);
    while from < end && chars[from].is_whitespace()
        invariant
            start <= from <= end <= chars@.len(),
            trimmed_start(chars@.subrange(from as int, end as int)) == trimmed_start(whole),
        decreases end - from,
    {
        assert(chars@.subrange(from as int, end as int).drop_first() == chars@.subrange(
            from + 1,
            end as int,
        ));
        from += 1;
    }
    let ghost inner = chars@.subrange(from as int, end as int);
    assert(trimmed_start(whole) == inner);
    let mut to: usize = end;
    while from < to && chars[to - 1].is_whitespace()
        invariant
            start <= from <= to <= end <= chars@.len(),
            trimmed_end(chars@.subrange(from as int, to as int)) == trimmed_end(inner),
        decreases to - from,
    {
        assert(chars@.subrange(from as int, to as int).drop_last() == chars@.subrange(
            from as int,
            to - 1,
        ));
        to -= 1;
    }
    (from, to)
}

/// A string without the white space at its two ends.
pub fn trim(text: &str) -> (result: String)
    ensures
        result@ == trimmed(text@),
{
    let chars = chars_of(text);
    let range = trim_range(chars.as_slice(), 0, chars.len());
    assert(chars@.subrange(0, chars@.len() as int) == text@);
    string_of_range(chars.as_slice(), range.0, range.1)
}

/// A text has nothing left after trimming exactly when it is all white space.
pub proof fn lemma_trimmed_empty(text: Seq<char>)
    ensures
        trimmed(text).len() == 0 <==> forall|i: int|
            0 <= i < text.len() ==> is_white_space(#[trigger] text[i]),
{
    lemma_trimmed_start_suffix(text);
    let rest = trimmed_start(text);
    lemma_trimmed_end_prefix(rest);
    let n = text.len() - rest.len();
    if rest.len() > 0 {
        assert(!is_white_space(text[n]));
        let kept = trimmed_end(rest);
        if kept.len() == 0 {
            assert(is_white_space(rest[0]));
        }
    } else {
        assert(trimmed_end(rest) == rest);
    }
}

/// What trimming at the start removes is white space, and what is left does
/// not start with white space.
pub proof fn lemma_trimmed_start_suffix(text: Seq<char>)
    ensures
        trimmed_start(text).len() <= text.len(),
        trimmed_start(text) == text.skip(text.len() - trimmed_start(text).len()),
        forall|i: int|
            0 <= i < text.len() - trimmed_start(text).len() ==> is_white_space(#[trigger] text[i]),
        trimmed_start(text).len() > 0 ==> !is_white_space(trimmed_start(text)[0]),
    decreases text.len(),
{
    if text.len() > 0 && is_white_space(text[0]) {
        let rest = text.drop_first();
        lemma_trimmed_start_suffix(rest);
        let left = trimmed_start(rest);
        assert(left == text.skip(text.len() - left.len()));
        assert forall|i: int| 0 <= i < text.len() - left.len() implies is_white_space(
            #[trigger] text[i],
        ) by {
            if i > 0 {
                assert(rest[i - 1] == text[i]);
            }
        }
    } else {
        assert(text == text.skip(0));
    }
}

/// What trimming at the end removes is white space, and what is left does not
/// end with white space.
pub proof fn lemma_trimmed_end_prefix(text: Seq<char>)
    ensures
        trimmed_end(text).len() <= text.len(),
        trimmed_end(text) == text.take(trimmed_end(text).len() as int),
        forall|i: int|
            trimmed_end(text).len() <= i < text.len() ==> is_white_space(#[trigger] text[i]),
        trimmed_end(text).len() > 0 ==> !is_white_space(trimmed_end(text).last()),
    decreases text.len(),
{
    if text.len() > 0 && is_white_space(text.last()) {
        let rest = text.drop_last();
        lemma_trimmed_end_prefix(rest);
        let left = trimmed_end(rest);
        assert(left == text.take(left.len() as int));
        assert forall|i: int| left.len() <= i < text.len() implies is_white_space(
            #[trigger] text[i],
        ) by {
            if i < text.len() - 1 {
                assert(rest[i] == text[i]);
            }
        }
    } else {
        assert(text == text.take(text.len() as int));
    }
}

/// Whether a text holds nothing but white space.
pub fn is_blank(text: &str) -> (result: bool)
    ensures
        result == (trimmed(text@).len() == 0),
{
    trim(text).as_str().is_empty()
}

/// A text with its ASCII capital letters made small.
pub open spec fn lowercased(text: Seq<char>) -> Seq<char> {
    Seq::new(text.len(), |i: int| lower_char(text[i]))
}

/// A string with its ASCII capital letters made small.
pub fn ascii_lowercase(text: &str) -> (lower: String)
    ensures
        lower@ == lowercased(text@),
{
    let chars = chars_of(text);
    let mut lower = String::new();
    let mut i: usize = 0;
    while i < chars.len()
        invariant
            i <= chars.len(),
            chars@ == text@,
            lower@ == lowercased(text@).take(i as int),
        decreases chars.len() - i,
    {
        lower.push(to_lower(chars[i]));
        i += 1;
    }
    lower
}

/// The maximal runs of characters that are not white space, in order.
pub open spec fn words(text: Seq<char>) -> Seq<Seq<char>>
    decreases text.len(),
{
    if text.len() == 0 {
        Seq::empty()
    } else if is_white_space(text[0]) {
        words(text.drop_first())
    } else {
        let n = word_len(text);
        if 0 < n <= text.len() {
            seq![text.take(n)] + words(text.skip(n))
        } else {
            Seq::empty()
        }
    }
}

/// The length of the run without white space that a text starts with.
pub open spec fn word_len(text: Seq<char>) -> int
    decreases text.len(),
{
    if text.len() > 0 && !is_white_space(text[0]) {
        1 + word_len(text.drop_first())
    } else {
        0
    }
}

pub proof fn lemma_word_len(text: Seq<char>, n: int)
    requires
        0 <= n <= text.len(),
        forall|i: int| 0 <= i < n ==> !is_white_space(#[trigger] text[i]),
        n < text.len() ==> is_white_space(text[n]),
    ensures
        word_len(text) == n,
    decreases text.len(),
{
    if n > 0 {
        let rest = text.drop_first();
        assert forall|i: int| 0 <= i < n - 1 implies !is_white_space(#[trigger] rest[i]) by {
            assert(rest[i] == text[i + 1]);
        }
        lemma_word_len(rest, n - 1);
    }
}

/// The words of a string.
pub fn split_words(text: &str) -> (parts: Vec<Vec<char>>)
    ensures
        parts@.len() == words(text@).len(),
        forall|i: int| 0 <= i < parts@.len() ==> (#[trigger] parts@[i])@ == words(text@)[i],
{
    let chars = chars_of(text);
    let mut parts: Vec<Vec<char>> = Vec::new();
    let mut at: usize = 0;
    assert(chars@.skip(0) == text@);
    while at < chars.len()
        invariant
            at <= chars.len(),
            chars@ == text@,
            words(text@).len() == parts@.len() + words(chars@.skip(at as int)).len(),
            forall|i: int| 0 <= i < parts@.len() ==> (#[trigger] parts@[i])@ == words(text@)[i],
            forall|i: int|
                0 <= i < words(chars@.skip(at as int)).len() ==> words(text@)[parts@.len() + i]
                    == #[trigger] words(chars@.skip(at as int))[i],
        decreases chars.len() - at,
    {
        let ghost rest = chars@.skip(at as int);
        if chars[at].is_whitespace() {
            assert(rest.drop_first() == chars@.skip(at + 1));
            at += 1;
        } else {
            let mut end: usize = at + 1;
            while end < chars.len() && !chars[end].is_whitespace()
                invariant
                    at < end <= chars.len(),
                    forall|k: int| at <= k < end ==> !is_white_space(#[trigger] chars@[k]),
                decreases chars.len() - end,
            {
                end += 1;
            }
            proof {
                let n = end - at;
                assert forall|i: int| 0 <= i < n implies !is_white_space(#[trigger] rest[i]) by {
                    assert(rest[i] == chars@[at + i]);
                }
                lemma_word_len(rest, n);
                assert(rest.skip(n) == chars@.skip(end as int));
                assert(rest.take(n) == chars@.subrange(at as int, end as int));
                assert(words(rest) == seq![rest.take(n)] + words(rest.skip(n)));
                assert(words(rest)[0] == rest.take(n));
                assert forall|i: int| 0 <= i < words(chars@.skip(end as int)).len() implies words(
                    text@,
                )[parts@.len() + 1 + i] == #[trigger] words(chars@.skip(end as int))[i] by {
                    assert(words(rest)[i + 1] == words(rest.skip(n))[i]);
                }
            }
            parts.push(chars_in_range(chars.as_slice(), at, end));
            at = end;
        }
    }
    parts
}

/// Parts put together with a separator between each two.
pub open spec fn joined(parts: Seq<Seq<char>>, separator: Seq<char>) -> Seq<char>
    decreases parts.len(),
{
    if parts.len() == 0 {
        Seq::empty()
    } else if parts.len() == 1 {
        parts[0]
    } else {
        joined(parts.drop_last(), separator) + separator + parts.last()
    }
}

/// The texts of a list of strings.
pub open spec fn texts(strings: Seq<String>) -> Seq<Seq<char>> {
    Seq::new(strings.len(), |i: int| strings[i]@)
}

/// Strings put together with a separator between each two.
pub fn join(parts: &[String], separator: &str) -> (text: String)
    ensures
        text@ == joined(texts(parts@), separator@),
{
    let mut text = String::new();
    let mut i: usize = 0;
    while i < parts.len()
        invariant
            i <= parts.len(),
            text@ == joined(texts(parts@).take(i as int), separator@),
        decreases parts.len() - i,
    {
        let ghost before = texts(parts@).take(i as int);
        if i > 0 {
            text.append(separator);
        }
        text.append(parts[i].as_str());
        assert(texts(parts@).take(i + 1).drop_last() == before);
        assert(texts(parts@).take(i + 1).last() == parts@[i as int]@);
        assert(text@ == joined(texts(parts@).take(i + 1), separator@));
        i += 1;
    }
    assert(texts(parts@).take(i as int) == texts(parts@));
    text
}

/// The words of a text with one space between each two.
pub open spec fn single_spaced(text: Seq<char>) -> Seq<char> {
    joined(words(text), seq![' '])
}

/// The words of a string with one space between each two.
pub fn single_space(text: &str) -> (result: String)
    ensures
        result@ == single_spaced(text@),
{
    let parts = split_words(text);
    let mut result = String::new();
    let mut i: usize = 0;
    while i < parts.len()
        invariant
            i <= parts.len(),
            parts@.len() == words(text@).len(),
            forall|k: int| 0 <= k < parts@.len() ==> (#[trigger] parts@[k])@ == words(text@)[k],
            result@ == joined(words(text@).take(i as int), seq![' ']),
        decreases parts.len() - i,
    {
        let ghost before = words(text@).take(i as int);
        if i > 0 {
            result.push(' ');
        }
        append_range(&mut result, parts[i].as_slice(), 0, parts[i].len());
        proof {
            let part = parts@[i as int]@;
            assert(part.subrange(0, part.len() as int) == part);
            assert(words(text@).take(i + 1).drop_last() == before);
            assert(words(text@).take(i + 1).last() == part);
            if i > 0 {
                assert(joined(before, seq![' ']).push(' ') == joined(before, seq![' ']) + seq![' ']);
            }
            assert(result@ == joined(words(text@).take(i + 1), seq![' ']));
        }
        i += 1;
    }
    assert(words(text@).take(i as int) == words(text@));
    result
}

// ---------------------------------------------------------------------------
// Numbers
// ---------------------------------------------------------------------------

/// The decimal digit `0..=9` as a character.
pub open spec fn digit_char(d: int) -> char {
    (48 + d) as char
}

/// A number in decimal, without leading zeros.
pub open spec fn decimal(n: nat) -> Seq<char>
    decreases n,
{
    if n < 10 {
        seq![digit_char(n as int)]
    } else {
        decimal(n / 10).push(digit_char((n % 10) as int))
    }
}

/// A number in decimal, without leading zeros.
pub fn decimal_string(n: u64) -> (text: String)
    ensures
        text@ == decimal(n as nat),
    decreases n,
{
    let mut text = if n < 10 {
        String::new()
    } else {
        decimal_string(n / 10)
    };
    let digit: u8 = 48 + (n % 10) as u8;
    text.push(digit as char);
    assert(n < 10 ==> text@ =~= decimal(n as nat));
    text
}

/// A number in decimal with zeros in front, up to a width.
pub open spec fn padded_decimal(n: nat, width: nat) -> Seq<char> {
    let digits = decimal(n);
    if digits.len() < width {
        Seq::new((width - digits.len()) as nat, |i: int| '0') + digits
    } else {
        digits
    }
}

/// A number in decimal with zeros in front, up to a width.
pub fn padded_decimal_string(n: u64, width: usize) -> (text: String)
    ensures
        text@ == padded_decimal(n as nat, width as nat),
{
    let digits = decimal_string(n);
    let count = chars_of(digits.as_str()).len();
    let mut text = String::new();
    let mut i: usize = count;
    while i < width
        invariant
            count == decimal(n as nat).len(),
            count <= i,
            i <= width || i == count,
            text@ == Seq::new((i - count) as nat, |k: int| '0'),
        decreases width - i,
    {
        text.push('0');
        i += 1;
        assert(text@ =~= Seq::new((i - count) as nat, |k: int| '0'));
    }
    text.append(digits.as_str());
    assert(text@ =~= padded_decimal(n as nat, width as nat));
    text
}

/// Whether every character is an ASCII decimal digit.
pub open spec fn all_digits(text: Seq<char>) -> bool {
    forall|i: int| 0 <= i < text.len() ==> is_ascii_digit_char(#[trigger] text[i])
}

/// The number that a sequence of decimal digits writes.
pub open spec fn digits_value(text: Seq<char>) -> nat
    decreases text.len(),
{
    if text.len() == 0 {
        0
    } else {
        digits_value(text.drop_last()) * 10 + (text.last() as u32 - 48) as nat
    }
}

/// The value of a prefix of digits is at most that of the whole.
pub proof fn lemma_digits_value_prefix(text: Seq<char>, n: int)
    requires
        0 <= n <= text.len(),
        all_digits(text),
    ensures
        digits_value(text.take(n)) <= digits_value(text),
    decreases text.len(),
{
    if n < text.len() {
        let shorter = text.drop_last();
        assert(all_digits(shorter));
        lemma_digits_value_prefix(shorter, n);
        assert(shorter.take(n) == text.take(n));
    } else {
        assert(text.take(n) == text);
    }
}

/// The value of decimal digits, or nothing where there is none, where a
/// character is no digit, or where the value exceeds `u64`.
pub fn parse_digits(chars: &[char]) -> (value: Option<u64>)
    ensures
        match value {
            Some(n) => chars@.len() > 0 && all_digits(chars@) && n == digits_value(chars@),
            None => chars@.len() == 0 || !all_digits(chars@) || digits_value(chars@) > u64::MAX,
        },
{
    if chars.len() == 0 {
        return None;
    }
    let mut k: usize = 0;
    while k < chars.len()
        invariant
            k <= chars.len(),
            forall|i: int| 0 <= i < k ==> is_ascii_digit_char(#[trigger] chars@[i]),
        decreases chars.len() - k,
    {
        if !ascii_digit(chars[k]) {
            assert(!is_ascii_digit_char(chars@[k as int]));
            return None;
        }
        k += 1;
    }
    let mut value: u64 = 0;
    let mut i: usize = 0;
    while i < chars.len()
        invariant
            i <= chars.len(),
            all_digits(chars@),
            value == digits_value(chars@.take(i as int)),
        decreases chars.len() - i,
    {
        let digit: u64 = (chars[i] as u32 - 48) as u64;
        proof {
            assert(chars@.take(i + 1).drop_last() == chars@.take(i as int));
            lemma_digits_value_prefix(chars@, i + 1);
        }
        if value > (u64::MAX - digit) / 10 {
            return None;
        }
        value = value * 10 + digit;
        i += 1;
    }
    assert(chars@.take(i as int) == chars@);
    Some(value)
}

/// Reading the decimal digits of a number gives the number back.
pub proof fn lemma_decimal_round_trip(n: nat)
    ensures
        decimal(n).len() > 0,
        all_digits(decimal(n)),
        digits_value(decimal(n)) == n,
    decreases n,
{
    let text = decimal(n);
    if n < 10 {
        assert(text.drop_last() == Seq::<char>::empty());
        assert(digits_value(text.drop_last()) == 0);
    } else {
        lemma_decimal_round_trip(n / 10);
        assert(text.drop_last() == decimal(n / 10));
        assert forall|i: int| 0 <= i < text.len() implies is_ascii_digit_char(
            #[trigger] text[i],
        ) by {
            if i < text.len() - 1 {
                assert(text[i] == decimal(n / 10)[i]);
            }
        }
    }
}

// ---------------------------------------------------------------------------
// Lines, parts and replacement
// ---------------------------------------------------------------------------

/// The first position of a character from `from` on, or the length of the
/// text where there is none.
pub open spec fn position_of(text: Seq<char>, c: char, from: int) -> int
    decreases text.len() - from,
{
    if from >= text.len() {
        text.len() as int
    } else if text[from] == c {
        from
    } else {
        position_of(text, c, from + 1)
    }
}

pub proof fn lemma_position_of(text: Seq<char>, c: char, from: int, at: int)
    requires
        0 <= from <= at <= text.len(),
        forall|k: int| from <= k < at ==> #[trigger] text[k] != c,
        at < text.len() ==> text[at] == c,
    ensures
        position_of(text, c, from) == at,
    decreases text.len() - from,
{
    if from < at {
        lemma_position_of(text, c, from + 1, at);
    }
}

/// The first position of a character from `from` on.
pub fn find_char(chars: &[char], c: char, from: usize) -> (at: usize)
    requires
        from <= chars@.len(),
    ensures
        at == position_of(chars@, c, from as int),
        from <= at <= chars@.len(),
        forall|k: int| from <= k < at ==> #[trigger] chars@[k] != c,
        at < chars@.len() ==> chars@[at as int] == c,
{
    let mut at: usize = from;
    while at < chars.len() && chars[at] != c
        invariant
            from <= at <= chars@.len(),
            forall|k: int| from <= k < at ==> #[trigger] chars@[k] != c,
        decreases chars@.len() - at,
    {
        at += 1;
    }
    proof {
        lemma_position_of(chars@, c, from as int, at as int);
    }
    at
}

/// A text without the characters `c` that it starts with.
pub open spec fn without_leading(text: Seq<char>, c: char) -> Seq<char>
    decreases text.len(),
{
    if text.len() > 0 && text[0] == c {
        without_leading(text.drop_first(), c)
    } else {
        text
    }
}

/// A text without the characters `c` that it ends with.
pub open spec fn without_trailing(text: Seq<char>, c: char) -> Seq<char>
    decreases text.len(),
{
    if text.len() > 0 && text.last() == c {
        without_trailing(text.drop_last(), c)
    } else {
        text
    }
}

pub fn strip_leading(text: &str, c: char) -> (result: String)
    ensures
        result@ == without_leading(text@, c),
{
    let chars = chars_of(text);
    let mut from: usize = 0;
    assert(chars@.skip(0) == text@);
    while from < chars.len() && chars[from] == c
        invariant
            from <= chars@.len(),
            without_leading(chars@.skip(from as int), c) == without_leading(text@, c),
        decreases chars@.len() - from,
    {
        assert(chars@.skip(from as int).drop_first() == chars@.skip(from + 1));
        from += 1;
    }
    assert(chars@.skip(from as int) == chars@.subrange(from as int, chars@.len() as int));
    string_of_range(chars.as_slice(), from, chars.len())
}

pub fn strip_trailing(text: &str, c: char) -> (result: String)
    ensures
        result@ == without_trailing(text@, c),
{
    let chars = chars_of(text);
    let mut to: usize = chars.len();
    assert(chars@.take(chars@.len() as int) == text@);
    while to > 0 && chars[to - 1] == c
        invariant
            to <= chars@.len(),
            without_trailing(chars@.take(to as int), c) == without_trailing(text@, c),
        decreases to,
    {
        assert(chars@.take(to as int).drop_last() == chars@.take(to - 1));
        to -= 1;
    }
    assert(chars@.take(to as int) == chars@.subrange(0, to as int));
    string_of_range(chars.as_slice(), 0, to)
}

/// The lines of a text: each ends with a line feed, which a carriage return
/// may precede; what follows the last line feed is a line unless it is empty.
pub open spec fn lines_of(text: Seq<char>) -> Seq<Seq<char>>
    decreases text.len(),
{
    if text.len() == 0 {
        Seq::empty()
    } else {
        let end = position_of(text, '\n', 0);
        if 0 <= end < text.len() {
            let line = if end > 0 && text[end - 1] == '\r' {
                text.take(end - 1)
            } else {
                text.take(end)
            };
            seq![line] + lines_of(text.skip(end + 1))
        } else {
            seq![text]
        }
    }
}

proof fn lemma_position_of_skip(text: Seq<char>, c: char, from: int, at: int)
    requires
        0 <= from <= at <= text.len(),
        forall|k: int| from <= k < at ==> #[trigger] text[k] != c,
        at < text.len() ==> text[at] == c,
    ensures
        position_of(text.skip(from), c, 0) == at - from,
{
    let rest = text.skip(from);
    assert forall|k: int| 0 <= k < at - from implies #[trigger] rest[k] != c by {
        assert(rest[k] == text[from + k]);
    }
    lemma_position_of(rest, c, 0, at - from);
}

/// The lines of a string.
pub fn split_lines(text: &str) -> (lines: Vec<String>)
    ensures
        texts(lines@) == lines_of(text@),
{
    let chars = chars_of(text);
    let mut lines: Vec<String> = Vec::new();
    let mut at: usize = 0;
    assert(chars@.skip(0) == text@);
    assert(texts(lines@) + lines_of(text@) == lines_of(text@));
    while at < chars.len()
        invariant
            at <= chars@.len(),
            chars@ == text@,
            texts(lines@) + lines_of(chars@.skip(at as int)) == lines_of(text@),
        decreases chars@.len() - at,
    {
        let ghost rest = chars@.skip(at as int);
        let end: usize = find_char(chars.as_slice(), '\n', at);
        proof {
            lemma_position_of_skip(chars@, '\n', at as int, end as int);
        }
        let ghost before = texts(lines@);
        if end < chars.len() {
            let stop: usize = if end > at && chars[end - 1] == '\r' {
                end - 1
            } else {
                end
            };
            let line = string_of_range(chars.as_slice(), at, stop);
            lines.push(line);
            proof {
                assert(rest.take(stop - at) == chars@.subrange(at as int, stop as int));
                assert(rest.skip(end - at + 1) == chars@.skip(end + 1));
                if end > at {
                    assert(rest[end - at - 1] == chars@[end - 1]);
                }
                assert(texts(lines@) =~= before.push(line@));
                assert(lines_of(rest) == seq![line@] + lines_of(chars@.skip(end + 1)));
                assert(before + lines_of(rest) =~= texts(lines@) + lines_of(chars@.skip(end + 1)));
            }
            at = end + 1;
        } else {
            let line = string_of_range(chars.as_slice(), at, chars.len());
            lines.push(line);
            proof {
                assert(rest == chars@.subrange(at as int, chars@.len() as int));
                assert(texts(lines@) =~= before.push(line@));
                assert(lines_of(rest) == seq![rest]);
                assert(chars@.skip(chars@.len() as int).len() == 0);
                assert(lines_of(chars@.skip(chars@.len() as int)) == Seq::<Seq<char>>::empty());
                assert(before + lines_of(rest) =~= texts(lines@) + lines_of(
                    chars@.skip(chars@.len() as int),
                ));
            }
            at = chars.len();
        }
    }
    assert(lines_of(chars@.skip(at as int)) == Seq::<Seq<char>>::empty());
    assert(texts(lines@) + Seq::<Seq<char>>::empty() =~= texts(lines@));
    lines
}

/// The parts of a text between the characters `c`.
pub open spec fn parts_of(text: Seq<char>, c: char) -> Seq<Seq<char>>
    decreases text.len(),
{
    let end = position_of(text, c, 0);
    if 0 <= end < text.len() {
        seq![text.take(end)] + parts_of(text.skip(end + 1), c)
    } else {
        seq![text]
    }
}

/// The parts of a text between the characters `c`.
pub fn split_parts(text: &str, c: char) -> (parts: Vec<String>)
    ensures
        texts(parts@) == parts_of(text@, c),
{
    let chars = chars_of(text);
    let mut parts: Vec<String> = Vec::new();
    let mut at: usize = 0;
    assert(chars@.skip(0) == text@);
    assert(texts(parts@) + parts_of(text@, c) == parts_of(text@, c));
    loop
        invariant
            at <= chars@.len(),
            chars@ == text@,
            texts(parts@) + parts_of(chars@.skip(at as int), c) == parts_of(text@, c),
        decreases chars@.len() - at,
    {
        let ghost rest = chars@.skip(at as int);
        let end: usize = find_char(chars.as_slice(), c, at);
        proof {
            lemma_position_of_skip(chars@, c, at as int, end as int);
        }
        let ghost before = texts(parts@);
        let part = string_of_range(chars.as_slice(), at, end);
        parts.push(part);
        assert(texts(parts@) =~= before.push(part@));
        if end < chars.len() {
            proof {
                assert(rest.take(end - at) == part@);
                assert(rest.skip(end - at + 1) == chars@.skip(end + 1));
                assert(before + parts_of(rest, c) =~= texts(parts@) + parts_of(
                    chars@.skip(end + 1),
                    c,
                ));
            }
            at = end + 1;
        } else {
            proof {
                assert(rest == part@);
                assert(parts_of(rest, c) == seq![rest]);
                assert(before + parts_of(rest, c) =~= texts(parts@));
            }
            return parts;
        }
    }
}

/// A text in which each occurrence of `from`, found from the left, has become
/// `to`.
pub open spec fn replaced(text: Seq<char>, from: Seq<char>, to: Seq<char>) -> Seq<char>
    decreases text.len(),
{
    if text.len() == 0 || from.len() == 0 {
        text
    } else if starts_with(text, from) {
        to + replaced(text.skip(from.len() as int), from, to)
    } else {
        seq![text[0]] + replaced(text.drop_first(), from, to)
    }
}

pub fn replace(text: &str, from: &str, to: &str) -> (result: String)
    requires
        from@.len() > 0,
    ensures
        result@ == replaced(text@, from@, to@),
{
    let chars = chars_of(text);
    let from_chars = chars_of(from);
    let mut result = String::new();
    let mut at: usize = 0;
    assert(chars@.skip(0) == text@);
    assert(result@ + replaced(text@, from@, to@) == replaced(text@, from@, to@));
    while at < chars.len()
        invariant
            at <= chars@.len(),
            chars@ == text@,
            from_chars@ == from@,
            from@.len() > 0,
            result@ + replaced(chars@.skip(at as int), from@, to@) == replaced(text@, from@, to@),
        decreases chars@.len() - at,
    {
        let ghost rest = chars@.skip(at as int);
        let ghost before = result@;
        if occurs_here(chars.as_slice(), at, from_chars.as_slice()) {
            result.append(to);
            proof {
                assert(rest.subrange(0, from@.len() as int) == chars@.subrange(
                    at as int,
                    at + from@.len(),
                ));
                assert(rest.skip(from@.len() as int) == chars@.skip(at + from@.len()));
                assert(before + replaced(rest, from@, to@) =~= result@ + replaced(
                    chars@.skip(at + from@.len()),
                    from@,
                    to@,
                ));
            }
            at += from_chars.len();
        } else {
            result.push(chars[at]);
            proof {
                assert(!starts_with(rest, from@)) by {
                    if starts_with(rest, from@) {
                        assert(rest.subrange(0, from@.len() as int) == chars@.subrange(
                            at as int,
                            at + from@.len(),
                        ));
                    }
                }
                assert(rest.drop_first() == chars@.skip(at + 1));
                assert(before + replaced(rest, from@, to@) =~= result@ + replaced(
                    chars@.skip(at + 1),
                    from@,
                    to@,
                ));
            }
            at += 1;
        }
    }
    assert(chars@.skip(at as int).len() == 0);
    assert(replaced(chars@.skip(at as int), from@, to@) =~= Seq::<char>::empty());
    assert(result@ + Seq::<char>::empty() =~= result@);
    result
}

// ---------------------------------------------------------------------------
// Putting texts together
// ---------------------------------------------------------------------------

pub fn text2(a: &str, b: &str) -> (text: String)
    ensures
        text@ == a@ + b@,
{
    let mut text = a.to_owned();
    text.append(b);
    text
}

pub fn text3(a: &str, b: &str, c: &str) -> (text: String)
    ensures
        text@ == a@ + b@ + c@,
{
    let mut text = text2(a, b);
    text.append(c);
    text
}

pub fn text4(a: &str, b: &str, c: &str, d: &str) -> (text: String)
    ensures
        text@ == a@ + b@ + c@ + d@,
{
    let mut text = text3(a, b, c);
    text.append(d);
    text
}

pub fn text5(a: &str, b: &str, c: &str, d: &str, e: &str) -> (text: String)
    ensures
        text@ == a@ + b@ + c@ + d@ + e@,
{
    let mut text = text4(a, b, c, d);
    text.append(e);
    text
}

/// A text that may be absent.
pub open spec fn optional_text(text: Option<String>) -> Option<Seq<char>> {
    match text {
        Some(found) => Some(found@),
        None => None,
    }
}

/// A text that may be absent.
pub open spec fn optional_str(text: Option<&str>) -> Option<Seq<char>> {
    match text {
        Some(found) => Some(found@),
        None => None,
    }
}

/// A text that may be absent, borrowed.
pub fn as_optional(text: &Option<String>) -> (result: Option<&str>)
    ensures
        optional_str(result) == optional_text(*text),
{
    match text {
        Some(found) => Some(found.as_str()),
        None => None,
    }
}

/// The copy of a text that may be absent.
pub fn clone_optional(text: &Option<String>) -> (result: Option<String>)
    ensures
        optional_text(result) == optional_text(*text),
{
    match text {
        Some(found) => Some(found.clone()),
        None => None,
    }
}

/// The first `max` characters of a text without the white space around it,
/// with a mark where there are more.
pub open spec fn bounded_text(text: Seq<char>, max: nat) -> Seq<char> {
    let inner = trimmed(text);
    if inner.len() > max {
        inner.take(max as int) + "…"@
    } else {
        inner
    }
}

pub fn bounded(text: &str, max_chars: usize) -> (result: String)
    ensures
        result@ == bounded_text(text@, max_chars as nat),
{
    let inner = trim(text);
    let chars = chars_of(inner.as_str());
    if chars.len() > max_chars {
        let mut result = string_of_range(chars.as_slice(), 0, max_chars);
        result.append("…");
        assert(inner@.subrange(0, max_chars as int) =~= inner@.take(max_chars as int));
        result
    } else {
        inner
    }
}

/// The message of a check that failed.
pub open spec fn fault_of(result: Result<(), String>) -> Option<Seq<char>> {
    match result {
        Ok(_) => None,
        Err(message) => Some(message@),
    }
}

/// The first of two messages.
pub open spec fn first_fault(first: Option<Seq<char>>, second: Option<Seq<char>>) -> Option<
    Seq<char>,
> {
    if first is Some {
        first
    } else {
        second
    }
}

/// The text of bytes, with a replacement character for what is no UTF-8.
pub uninterp spec fn lossy_text_of(bytes: Seq<u8>) -> Seq<char>;

/// `String::from_utf8_lossy`: a function of the bytes.
#[verifier::external_body]
pub(crate) fn lossy_text(bytes: &[u8]) -> (text: String)
    ensures
        text@ == lossy_text_of(bytes@),
{
    String::from_utf8_lossy(bytes).into_owned()
}

} // verus!
