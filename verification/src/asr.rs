//! Recognized text: what counts as its content, how two recognitions are
//! compared, and how the text is put back into turns that were cut from it.
use crate::chinese::{
    has_vanishing_run, is_han, is_han_char, is_kept_whole, normalize_to_simplified, projected,
    protected_spans, ChineseError, MAX_PROTECTED_SPANS,
};
use crate::speaker::labels::lemma_digits_of_word;
use crate::speaker::{LocalSpeakerTurn, LocalTranscript};
use crate::text::{
    ascii_alphanumeric, byte_len, bytes_in, char_is_alphabetic, char_is_numeric, chars_of,
    contains_text, decimal, decimal_string, is_ascii_alphanumeric_char, is_blank, is_white_space,
    occurs_at, same_text,
    string_of_range, texts, trimmed,
};
use vstd::prelude::*;

verus! {

/// The greatest number of characters of a description of a difference.
pub const MAX_DIFFERENCE_SUMMARY_CHARS: usize = 320;

// ---------------------------------------------------------------------------
// Content
// ---------------------------------------------------------------------------

pub open spec fn is_token_neighbor(c: char) -> bool {
    is_ascii_alphanumeric_char(c) || c == '/' || c == '@' || c == '_' || c == '-' || c == '+' || c
        == '=' || c == '%' || c == '&' || c == '#' || c == '~'
}

fn is_ascii_token_neighbor(c: char) -> (result: bool)
    ensures
        result == is_token_neighbor(c),
{
    ascii_alphanumeric(c) || c == '/' || c == '@' || c == '_' || c == '-' || c == '+' || c == '='
        || c == '%' || c == '&' || c == '#' || c == '~'
}

/// A mark that may carry meaning between two characters.
pub open spec fn is_separator_mark(c: char) -> bool {
    c == ',' || c == '，' || c == '.' || c == ':' || c == '：' || c == '!' || c == '！' || c == '?' || c
        == '？' || c == ';' || c == '；' || c == '\'' || c == '’'
}

fn separator_mark(c: char) -> (result: bool)
    ensures
        result == is_separator_mark(c),
{
    c == ',' || c == '，' || c == '.' || c == ':' || c == '：' || c == '!' || c == '！' || c == '?' || c
        == '？' || c == ';' || c == '；' || c == '\'' || c == '’'
}

/// A mark of punctuation that serves presentation.
pub open spec fn is_presentation_mark(c: char) -> bool {
    is_separator_mark(c) || c == '。' || c == '、' || c == '…' || c == '"' || c == '“' || c == '”' || c
        == '‘'
}

fn presentation_mark(c: char) -> (result: bool)
    ensures
        result == is_presentation_mark(c),
{
    separator_mark(c) || c == '。' || c == '、' || c == '…' || c == '"' || c == '“' || c == '”' || c
        == '‘'
}

/// Whether the mark at `i` carries meaning: before a number, in a run of
/// colons, between numbers, within a word, between tokens, or in `://`.
pub open spec fn is_semantic_separator(text: Seq<char>, i: int) -> bool {
    let mark = text[i];
    let has_previous = i > 0;
    let has_next = i + 1 < text.len();
    let previous = text[i - 1];
    let next = text[i + 1];
    ||| mark == '.' && has_next && char_is_numeric(next)
    ||| mark == ':' && ((has_previous && previous == ':') || (has_next && next == ':'))
    ||| has_previous && has_next && char_is_numeric(previous) && char_is_numeric(next)
    ||| has_previous && has_next && (mark == '\'' || mark == '’') && char_is_alphabetic(previous)
        && char_is_alphabetic(next) && !is_han_char(previous) && !is_han_char(next)
    ||| has_previous && has_next && is_separator_mark(mark) && is_token_neighbor(previous)
        && is_token_neighbor(next)
    ||| has_previous && has_next && mark == ':' && is_ascii_alphanumeric_char(previous) && next
        == '/' && i + 2 < text.len() && text[i + 2] == '/'
}

/// Whether the character at `i` is punctuation without meaning.
pub open spec fn is_ignorable(text: Seq<char>, i: int) -> bool {
    is_presentation_mark(text[i]) && !(is_separator_mark(text[i]) && is_semantic_separator(text, i))
}

/// Whether the character at `i` is neither white space nor punctuation
/// without meaning.
pub open spec fn is_solid(text: Seq<char>, i: int) -> bool {
    !is_white_space(text[i]) && !is_ignorable(text, i)
}

/// The position of the last solid character before `i`, or `-1`.
pub open spec fn solid_before(text: Seq<char>, i: int) -> int
    decreases i,
{
    if i <= 0 {
        -1
    } else if is_solid(text, i - 1) {
        i - 1
    } else {
        solid_before(text, i - 1)
    }
}

/// The position of the first solid character from `i` on, or the length.
pub open spec fn solid_from(text: Seq<char>, i: int) -> int
    decreases text.len() - i,
{
    if i >= text.len() || is_solid(text, i) {
        i
    } else {
        solid_from(text, i + 1)
    }
}

/// Whether the white space at `i` parts two words: it starts a run of white
/// space between two letters or digits that are not both Han characters.
pub open spec fn is_word_gap(text: Seq<char>, i: int) -> bool {
    let before = solid_before(text, i);
    let after = solid_from(text, i + 1);
    &&& is_white_space(text[i])
    &&& !(i > 0 && is_white_space(text[i - 1]))
    &&& before >= 0
    &&& after < text.len()
    &&& char_is_alphabetic(text[before]) || char_is_numeric(text[before])
    &&& char_is_alphabetic(text[after]) || char_is_numeric(text[after])
    &&& !(is_han_char(text[before]) && is_han_char(text[after]))
}

/// Whether the character at `i` belongs to the content of a text.
pub open spec fn is_content(text: Seq<char>, i: int) -> bool {
    if is_white_space(text[i]) {
        is_word_gap(text, i)
    } else {
        !is_ignorable(text, i)
    }
}

/// The character at `i` as it stands in the content: any white space as one
/// space.
pub open spec fn content_char(text: Seq<char>, i: int) -> char {
    if is_white_space(text[i]) {
        ' '
    } else {
        text[i]
    }
}

/// The content of the first `n` characters of a text.
pub open spec fn content_until(text: Seq<char>, n: nat) -> Seq<char>
    decreases n,
{
    if n == 0 {
        Seq::empty()
    } else {
        let before = content_until(text, (n - 1) as nat);
        if is_content(text, n - 1) {
            before.push(content_char(text, n - 1))
        } else {
            before
        }
    }
}

/// The content of a text: without white space that parts no words and without
/// punctuation that carries no meaning.
pub open spec fn content_of(text: Seq<char>) -> Seq<char> {
    content_until(text, text.len())
}

fn semantic_separator(chars: &[char], i: usize) -> (result: bool)
    requires
        i < chars@.len(),
    ensures
        result == is_semantic_separator(chars@, i as int),
{
    let mark = chars[i];
    let has_next: bool = chars.len() - i > 1;
    if mark == '.' && has_next && chars[i + 1].is_numeric() {
        return true;
    }
    if mark == ':' && ((i > 0 && chars[i - 1] == ':') || (has_next && chars[i + 1] == ':')) {
        return true;
    }
    if i == 0 || !has_next {
        return false;
    }
    let previous = chars[i - 1];
    let next = chars[i + 1];
    if previous.is_numeric() && next.is_numeric() {
        return true;
    }
    if (mark == '\'' || mark == '’') && previous.is_alphabetic() && next.is_alphabetic() && !is_han(
        previous,
    ) && !is_han(next) {
        return true;
    }
    if separator_mark(mark) && is_ascii_token_neighbor(previous) && is_ascii_token_neighbor(next) {
        return true;
    }
    mark == ':' && ascii_alphanumeric(previous) && next == '/' && chars.len() - i > 2 && chars[i
        + 2] == '/'
}

fn is_ignorable_presentation_punctuation(chars: &[char], i: usize) -> (result: bool)
    requires
        i < chars@.len(),
    ensures
        result == is_ignorable(chars@, i as int),
{
    let c = chars[i];
    presentation_mark(c) && !(separator_mark(c) && semantic_separator(chars, i))
}

fn is_semantic_whitespace(chars: &[char], i: usize) -> (result: bool)
    requires
        i < chars@.len(),
    ensures
        result == is_word_gap(chars@, i as int),
{
    if !chars[i].is_whitespace() || (i > 0 && chars[i - 1].is_whitespace()) {
        return false;
    }
    let mut before: usize = i;
    while before > 0 && (chars[before - 1].is_whitespace() || is_ignorable_presentation_punctuation(
        chars,
        before - 1,
    ))
        invariant
            before <= i < chars@.len(),
            solid_before(chars@, before as int) == solid_before(chars@, i as int),
        decreases before,
    {
        before -= 1;
    }
    if before == 0 {
        return false;
    }
    let mut after: usize = i + 1;
    while after < chars.len() && (chars[after].is_whitespace()
        || is_ignorable_presentation_punctuation(chars, after))
        invariant
            i < after <= chars@.len(),
            solid_from(chars@, after as int) == solid_from(chars@, i + 1),
        decreases chars@.len() - after,
    {
        after += 1;
    }
    if after == chars.len() {
        return false;
    }
    let left = chars[before - 1];
    let right = chars[after];
    left.is_alphanumeric() && right.is_alphanumeric() && !(is_han(left) && is_han(right))
}

fn belongs_to_content(chars: &[char], i: usize) -> (result: bool)
    requires
        i < chars@.len(),
    ensures
        result == is_content(chars@, i as int),
{
    if chars[i].is_whitespace() {
        is_semantic_whitespace(chars, i)
    } else {
        !is_ignorable_presentation_punctuation(chars, i)
    }
}

/// The content of a text, which is what recognitions are compared by.
pub fn canonical_content(text: &str) -> (content: String)
    ensures
        content@ == content_of(text@),
{
    let chars = chars_of(text);
    let mut content = String::new();
    let mut i: usize = 0;
    while i < chars.len()
        invariant
            i <= chars@.len(),
            chars@ == text@,
            content@ == content_until(text@, i as nat),
        decreases chars@.len() - i,
    {
        if belongs_to_content(chars.as_slice(), i) {
            if chars[i].is_whitespace() {
                content.push(' ');
            } else {
                content.push(chars[i]);
            }
        }
        i += 1;
    }
    content
}

// ---------------------------------------------------------------------------
// Checked texts
// ---------------------------------------------------------------------------

/// Why a text is not taken.
#[derive(Clone, Copy, Debug, PartialEq, Eq, Structural)]
pub enum TextFault {
    Blank,
    TooLong,
    Nul,
    ReplacementCharacter,
}

pub open spec fn has_char(text: Seq<char>, c: char) -> bool {
    exists|i: int| 0 <= i < text.len() && #[trigger] text[i] == c
}

/// Why a text is not taken, by the first rule that it breaks.
pub open spec fn text_fault(text: Seq<char>, max_bytes: nat) -> Option<TextFault> {
    if trimmed(text).len() == 0 {
        Some(TextFault::Blank)
    } else if byte_len(text) > max_bytes {
        Some(TextFault::TooLong)
    } else if has_char(text, '\0') {
        Some(TextFault::Nul)
    } else if has_char(text, '\u{fffd}') {
        Some(TextFault::ReplacementCharacter)
    } else {
        None
    }
}

fn holds_char(text: &str, c: char) -> (result: bool)
    ensures
        result == has_char(text@, c),
{
    let chars = chars_of(text);
    let at: usize = crate::text::find_char(chars.as_slice(), c, 0);
    at < chars.len()
}

/// Checks that a text is not blank, not too long, and without characters that
/// stand for a failure.
pub fn validate_text_boundary(text: &str, max_bytes: usize) -> (fault: Option<TextFault>)
    ensures
        fault == text_fault(text@, max_bytes as nat),
{
    if is_blank(text) {
        return Some(TextFault::Blank);
    }
    if bytes_in(text) > max_bytes {
        return Some(TextFault::TooLong);
    }
    if holds_char(text, '\0') {
        return Some(TextFault::Nul);
    }
    if holds_char(text, '\u{fffd}') {
        return Some(TextFault::ReplacementCharacter);
    }
    None
}

/// Recognized text that was checked, and the form in which it is shown.
#[derive(Debug, PartialEq, Eq)]
pub struct NormalizedAsrText {
    source_text: String,
    text: String,
}

/// Why recognized text is not taken.
#[derive(Debug)]
pub enum AsrError {
    ZeroLimit,
    /// The text as it was recognized.
    Source(TextFault),
    /// The text could not be brought into the form in which it is shown.
    Conversion(ChineseError),
    /// The text as it is shown.
    Shown(TextFault),
    NoContent,
}

/// Why a text that was brought into the form in which it is shown is not
/// taken.
pub open spec fn shown_fault(shown: Seq<char>, max_bytes: nat) -> Option<AsrError> {
    if text_fault(shown, max_bytes) is Some {
        Some(AsrError::Shown(text_fault(shown, max_bytes)->0))
    } else if content_of(shown).len() == 0 {
        Some(AsrError::NoContent)
    } else {
        None
    }
}

/// The form in which a recognized text is shown.
pub open spec fn shown_of(source: Seq<char>) -> Seq<char> {
    if is_kept_whole(source) {
        source
    } else {
        projected(source)
    }
}

/// Why a recognized text is not taken, where the converter does its work.
pub open spec fn asr_fault(text: Seq<char>, max_bytes: nat) -> Option<AsrError> {
    if max_bytes == 0 {
        Some(AsrError::ZeroLimit)
    } else if text_fault(text, max_bytes) is Some {
        Some(AsrError::Source(text_fault(text, max_bytes)->0))
    } else if !is_kept_whole(text) && protected_spans(text).len() > MAX_PROTECTED_SPANS {
        Some(AsrError::Conversion(ChineseError::TooManySpans))
    } else if !is_kept_whole(text) && has_vanishing_run(text) {
        Some(AsrError::Conversion(ChineseError::EmptySegment))
    } else {
        shown_fault(shown_of(text), max_bytes)
    }
}

/// An error in which the converter itself failed.
pub open spec fn is_converter_failure(error: AsrError) -> bool {
    error matches AsrError::Conversion(cause) && (cause is Unavailable || cause is Failed)
}

/// A text that is handed to the converter.
pub open spec fn is_converted(text: Seq<char>, max_bytes: nat) -> bool {
    max_bytes > 0 && text_fault(text, max_bytes) is None && !is_kept_whole(text)
        && protected_spans(text).len() <= MAX_PROTECTED_SPANS
}

/// What an error says of a recognized text that is not taken.
pub open spec fn is_asr_error(text: Seq<char>, max_bytes: nat, error: AsrError) -> bool {
    if is_converter_failure(error) {
        is_converted(text, max_bytes)
    } else {
        asr_fault(text, max_bytes) == Some(error)
    }
}

impl NormalizedAsrText {
    /// The text as it was recognized.
    pub closed spec fn source(&self) -> Seq<char> {
        self.source_text@
    }

    /// The text as it is shown.
    pub closed spec fn shown(&self) -> Seq<char> {
        self.text@
    }

    pub fn source_as_str(&self) -> (text: &str)
        ensures
            text@ == self.source(),
    {
        self.source_text.as_str()
    }

    pub fn as_str(&self) -> (text: &str)
        ensures
            text@ == self.shown(),
    {
        self.text.as_str()
    }

    pub fn into_string(self) -> (text: String)
        ensures
            text@ == self.shown(),
    {
        self.text
    }

    pub fn canonical_content(&self) -> (content: String)
        ensures
            content@ == content_of(self.shown()),
    {
        canonical_content(self.text.as_str())
    }

    fn source_canonical_content(&self) -> (content: String)
        ensures
            content@ == content_of(self.source()),
    {
        canonical_content(self.source_text.as_str())
    }
}

/// Takes recognized text together with the form in which it is shown.
pub fn accept_shown_text(text: &str, shown: String, max_bytes: usize) -> (result: Result<
    NormalizedAsrText,
    AsrError,
>)
    ensures
        match result {
            Ok(accepted) => shown_fault(shown@, max_bytes as nat) is None && accepted.source()
                == text@ && accepted.shown() == shown@,
            Err(error) => shown_fault(shown@, max_bytes as nat) == Some(error),
        },
{
    if let Some(fault) = validate_text_boundary(shown.as_str(), max_bytes) {
        return Err(AsrError::Shown(fault));
    }
    if canonical_content(shown.as_str()).as_str().is_empty() {
        return Err(AsrError::NoContent);
    }
    Ok(NormalizedAsrText { source_text: text.to_owned(), text: shown })
}

/// Checks recognized text and brings it into the form in which it is shown.
pub fn validate_and_normalize_text(text: &str, max_bytes: usize) -> (result: Result<
    NormalizedAsrText,
    AsrError,
>)
    ensures
        match result {
            Ok(accepted) => asr_fault(text@, max_bytes as nat) is None && accepted.source()
                == text@ && accepted.shown() == shown_of(text@),
            Err(error) => is_asr_error(text@, max_bytes as nat, error),
        },
{
    if max_bytes == 0 {
        return Err(AsrError::ZeroLimit);
    }
    if let Some(fault) = validate_text_boundary(text, max_bytes) {
        return Err(AsrError::Source(fault));
    }
    match normalize_to_simplified(text) {
        Ok(shown) => accept_shown_text(text, shown, max_bytes),
        Err(error) => Err(AsrError::Conversion(error)),
    }
}

// ---------------------------------------------------------------------------
// Comparison
// ---------------------------------------------------------------------------

/// What a comparison of two recognitions says: that their contents are equal,
/// which does not make them true, or that they differ.
#[derive(Clone, Copy, Debug, PartialEq, Eq, Structural)]
pub enum AsrComparisonStatus {
    ExactConsensus,
    Disagreement,
}

impl AsrComparisonStatus {
    pub open spec fn text(self) -> Seq<char> {
        match self {
            AsrComparisonStatus::ExactConsensus => "exact_consensus"@,
            AsrComparisonStatus::Disagreement => "disagreement"@,
        }
    }

    pub fn as_str(self) -> (name: &'static str)
        ensures
            name@ == self.text(),
    {
        match self {
            AsrComparisonStatus::ExactConsensus => "exact_consensus",
            AsrComparisonStatus::Disagreement => "disagreement",
        }
    }
}

/// Two recognitions of the same audio and what their comparison says.
#[derive(Debug, PartialEq, Eq)]
pub struct AsrTextComparison {
    pub status: AsrComparisonStatus,
    pub primary: NormalizedAsrText,
    pub quality_verifier: NormalizedAsrText,
    pub difference_summary: Option<String>,
}

impl AsrTextComparison {
    pub fn is_exact_consensus(&self) -> (result: bool)
        ensures
            result == (self.status == AsrComparisonStatus::ExactConsensus),
    {
        match self.status {
            AsrComparisonStatus::ExactConsensus => true,
            AsrComparisonStatus::Disagreement => false,
        }
    }
}

/// A digit of a number to the base 16.
pub open spec fn hex_digit(n: int) -> char {
    if n < 10 {
        ('0' as int + n) as char
    } else {
        ('a' as int + (n - 10)) as char
    }
}

/// A character in a string of JSON.
pub open spec fn json_char(c: char) -> Seq<char> {
    if c == '"' || c == '\\' {
        seq!['\\', c]
    } else if c == '\u{8}' {
        seq!['\\', 'b']
    } else if c == '\t' {
        seq!['\\', 't']
    } else if c == '\n' {
        seq!['\\', 'n']
    } else if c == '\u{c}' {
        seq!['\\', 'f']
    } else if c == '\r' {
        seq!['\\', 'r']
    } else if 0x20 > c as int {
        seq!['\\', 'u', '0', '0', hex_digit(c as int / 16), hex_digit(c as int % 16)]
    } else {
        seq![c]
    }
}

pub open spec fn json_chars(text: Seq<char>) -> Seq<char>
    decreases text.len(),
{
    if text.len() == 0 {
        Seq::empty()
    } else {
        json_chars(text.drop_last()) + json_char(text.last())
    }
}

/// A text as a string of JSON, with its quotes.
pub open spec fn json_quoted(text: Seq<char>) -> Seq<char> {
    seq!['"'] + json_chars(text) + seq!['"']
}

/// `serde_json::to_string` of a string: it is written in quotes; quotes,
/// backslashes and the control characters below the space are escaped, by a
/// letter where JSON has one and else by their number, and all other characters
/// stay. Writing into memory does not fail.
#[verifier::external_body]
pub(crate) fn json_string(text: &str) -> (json: Option<String>)
    ensures
        json is Some,
        (json->0)@ == json_quoted(text@),
{
    serde_json::to_string(text).ok()
}

/// The first position at which two texts differ, from `from` on, or the
/// length of the shorter one.
pub open spec fn first_difference(a: Seq<char>, b: Seq<char>, from: int) -> int
    decreases a.len() - from,
{
    if from >= a.len() || from >= b.len() || a[from] != b[from] {
        from
    } else {
        first_difference(a, b, from + 1)
    }
}

/// The characters around a position, with marks where more was left out.
pub open spec fn context_of(text: Seq<char>, at: int) -> Seq<char> {
    let start = if at > 16 {
        at - 16
    } else {
        0
    };
    let end = if at + 32 < text.len() {
        at + 32
    } else {
        text.len() as int
    };
    let head = if start > 0 {
        seq!['…']
    } else {
        Seq::empty()
    };
    let middle = head + text.subrange(start, end);
    if end < text.len() {
        middle.push('…')
    } else {
        middle
    }
}

/// A text, or its beginning with a mark where it is longer than `maximum`.
pub open spec fn shortened(text: Seq<char>, maximum: nat) -> Seq<char> {
    if text.len() <= maximum {
        text
    } else if maximum == 0 {
        Seq::empty()
    } else {
        text.take(maximum - 1).push('…')
    }
}

fn difference_context(chars: &[char], at: usize) -> (context: String)
    requires
        at <= chars@.len(),
    ensures
        context@ == context_of(chars@, at as int),
{
    let start: usize = if at > 16 {
        at - 16
    } else {
        0
    };
    let end: usize = if chars.len() - at > 32 {
        at + 32
    } else {
        chars.len()
    };
    let mut context = String::new();
    if start > 0 {
        context.push('…');
        assert(context@ =~= seq!['…']);
    }
    crate::text::append_range(&mut context, chars, start, end);
    if end < chars.len() {
        context.push('…');
    }
    context
}

/// A text, or its beginning with a mark where it is longer than `maximum`.
pub fn bounded_chars(text: &str, maximum: usize) -> (result: String)
    ensures
        result@ == shortened(text@, maximum as nat),
        result@.len() <= maximum,
{
    let chars = chars_of(text);
    if chars.len() <= maximum {
        return text.to_owned();
    }
    if maximum == 0 {
        return String::new();
    }
    let mut result = string_of_range(chars.as_slice(), 0, maximum - 1);
    assert(chars@.subrange(0, maximum - 1) == text@.take(maximum - 1));
    result.push('…');
    result
}

/// The description of a difference, given the two contexts in quotes.
pub open spec fn difference_text(
    primary: Seq<char>,
    verifier: Seq<char>,
    primary_context: Seq<char>,
    verifier_context: Seq<char>,
) -> Seq<char> {
    let at = first_difference(primary, verifier, 0);
    shortened(
        "canonical disagreement at char "@ + decimal(at as nat) + "; primary_chars="@ + decimal(
            primary.len(),
        ) + "; verifier_chars="@ + decimal(verifier.len()) + "; primary_context="@
            + primary_context + "; verifier_context="@ + verifier_context,
        MAX_DIFFERENCE_SUMMARY_CHARS as nat,
    )
}

/// The description of a difference.
pub open spec fn difference_summary_of(primary: Seq<char>, verifier: Seq<char>) -> Seq<char> {
    let at = first_difference(primary, verifier, 0);
    difference_text(
        primary,
        verifier,
        json_quoted(context_of(primary, at)),
        json_quoted(context_of(verifier, at)),
    )
}

fn find_difference(a: &[char], b: &[char]) -> (at: usize)
    ensures
        at == first_difference(a@, b@, 0),
        at <= a@.len(),
        at <= b@.len(),
{
    let mut at: usize = 0;
    while at < a.len() && at < b.len() && a[at] == b[at]
        invariant
            at <= a@.len(),
            at <= b@.len(),
            first_difference(a@, b@, at as int) == first_difference(a@, b@, 0),
        decreases a@.len() - at,
    {
        at += 1;
    }
    at
}

/// Describes a difference, given the two contexts in quotes.
pub fn describe_difference(
    primary: &str,
    verifier: &str,
    primary_context: &str,
    verifier_context: &str,
) -> (summary: String)
    ensures
        summary@ == difference_text(primary@, verifier@, primary_context@, verifier_context@),
        summary@.len() <= MAX_DIFFERENCE_SUMMARY_CHARS,
{
    let primary_chars = chars_of(primary);
    let verifier_chars = chars_of(verifier);
    let at: usize = find_difference(primary_chars.as_slice(), verifier_chars.as_slice());
    let mut text = "canonical disagreement at char ".to_owned();
    text.append(decimal_string(at as u64).as_str());
    text.append("; primary_chars=");
    text.append(decimal_string(primary_chars.len() as u64).as_str());
    text.append("; verifier_chars=");
    text.append(decimal_string(verifier_chars.len() as u64).as_str());
    text.append("; primary_context=");
    text.append(primary_context);
    text.append("; verifier_context=");
    text.append(verifier_context);
    bounded_chars(text.as_str(), MAX_DIFFERENCE_SUMMARY_CHARS)
}

fn quoted(text: &str) -> (json: String)
    ensures
        json@ == json_quoted(text@),
{
    match json_string(text) {
        Some(json) => json,
        None => "\"<unavailable>\"".to_owned(),
    }
}

fn bounded_difference_summary(primary: &str, verifier: &str) -> (summary: String)
    ensures
        summary@ == difference_summary_of(primary@, verifier@),
        summary@.len() <= MAX_DIFFERENCE_SUMMARY_CHARS,
{
    let primary_chars = chars_of(primary);
    let verifier_chars = chars_of(verifier);
    let at: usize = find_difference(primary_chars.as_slice(), verifier_chars.as_slice());
    let primary_context = quoted(difference_context(primary_chars.as_slice(), at).as_str());
    let verifier_context = quoted(difference_context(verifier_chars.as_slice(), at).as_str());
    describe_difference(primary, verifier, primary_context.as_str(), verifier_context.as_str())
}

/// Compares two recognitions by the contents of what was recognized, before
/// it was brought into the form in which it is shown.
pub fn compare_normalized_texts(
    primary: NormalizedAsrText,
    quality_verifier: NormalizedAsrText,
) -> (comparison: AsrTextComparison)
    ensures
        comparison.primary == primary,
        comparison.quality_verifier == quality_verifier,
        comparison.status == AsrComparisonStatus::ExactConsensus <==> content_of(primary.source())
            == content_of(quality_verifier.source()),
        match comparison.difference_summary {
            Some(summary) => comparison.status == AsrComparisonStatus::Disagreement && summary@
                == difference_summary_of(
                content_of(primary.source()),
                content_of(quality_verifier.source()),
            ) && summary@.len() <= MAX_DIFFERENCE_SUMMARY_CHARS,
            None => comparison.status == AsrComparisonStatus::ExactConsensus,
        },
{
    let primary_content = primary.source_canonical_content();
    let verifier_content = quality_verifier.source_canonical_content();
    if same_text(primary_content.as_str(), verifier_content.as_str()) {
        AsrTextComparison {
            status: AsrComparisonStatus::ExactConsensus,
            primary,
            quality_verifier,
            difference_summary: None,
        }
    } else {
        let summary = bounded_difference_summary(
            primary_content.as_str(),
            verifier_content.as_str(),
        );
        AsrTextComparison {
            status: AsrComparisonStatus::Disagreement,
            primary,
            quality_verifier,
            difference_summary: Some(summary),
        }
    }
}

/// Every character of a text stands for itself in a string of JSON.
pub open spec fn is_json_plain(text: Seq<char>) -> bool {
    forall|i: int| 0 <= i < text.len() ==> json_char(#[trigger] text[i]) == seq![text[i]]
}

proof fn lemma_json_plain(text: Seq<char>)
    requires
        is_json_plain(text),
    ensures
        json_chars(text) == text,
    decreases text.len(),
{
    if text.len() > 0 {
        let most = text.drop_last();
        assert forall|i: int| 0 <= i < most.len() implies json_char(#[trigger] most[i])
            == seq![most[i]] by {
            assert(most[i] == text[i]);
        }
        lemma_json_plain(most);
        assert(json_char(text[text.len() - 1]) == seq![text.last()]);
        assert(json_chars(text) =~= text);
    } else {
        assert(json_chars(text) =~= text);
    }
}

proof fn lemma_context_plain(text: Seq<char>, at: int)
    requires
        0 <= at <= text.len(),
        is_json_plain(text),
    ensures
        json_quoted(context_of(text, at)) == seq!['"'] + context_of(text, at) + seq!['"'],
        json_quoted(context_of(text, at)).len() <= 52,
        text.len() <= 16 ==> context_of(text, at) == text,
{
    let context = context_of(text, at);
    assert forall|i: int| 0 <= i < context.len() implies json_char(#[trigger] context[i])
        == seq![context[i]] by {
        let start = if at > 16 { at - 16 } else { 0 };
        let head: int = if start > 0 { 1 } else { 0 };
        if context[i] != '…' {
            assert(context[i] == text[start + i - head]);
        }
    }
    lemma_json_plain(context);
    if text.len() <= 16 {
        assert(context =~= text);
    }
}

proof fn lemma_first_difference(a: Seq<char>, b: Seq<char>, from: int)
    requires
        0 <= from <= a.len(),
        from <= b.len(),
    ensures
        from <= first_difference(a, b, from) <= a.len(),
        first_difference(a, b, from) <= b.len(),
    decreases a.len() - from,
{
    if from < a.len() && from < b.len() && a[from] == b[from] {
        lemma_first_difference(a, b, from + 1);
    }
}

/// The description of a difference shows, in quotes, what stands around it in
/// both contents; contents of up to sixteen characters are shown whole. (Where
/// characters have to be escaped, the description may be cut.)
pub proof fn lemma_difference_is_shown(primary: Seq<char>, verifier: Seq<char>)
    requires
        primary.len() <= u64::MAX,
        verifier.len() <= u64::MAX,
        is_json_plain(primary),
        is_json_plain(verifier),
    ensures
        ({
            let at = first_difference(primary, verifier, 0);
            let summary = difference_summary_of(primary, verifier);
            &&& contains_text(summary, seq!['"'] + context_of(primary, at) + seq!['"'])
            &&& contains_text(summary, seq!['"'] + context_of(verifier, at) + seq!['"'])
            &&& primary.len() <= 16 ==> context_of(primary, at) == primary
            &&& verifier.len() <= 16 ==> context_of(verifier, at) == verifier
        }),
{
    let at = first_difference(primary, verifier, 0);
    lemma_first_difference(primary, verifier, 0);
    lemma_context_plain(primary, at);
    lemma_context_plain(verifier, at);
    lemma_digits_of_word(at as nat);
    lemma_digits_of_word(primary.len());
    lemma_digits_of_word(verifier.len());
    reveal_strlit("canonical disagreement at char ");
    reveal_strlit("; primary_chars=");
    reveal_strlit("; verifier_chars=");
    reveal_strlit("; primary_context=");
    reveal_strlit("; verifier_context=");
    let first = json_quoted(context_of(primary, at));
    let second = json_quoted(context_of(verifier, at));
    let head = "canonical disagreement at char "@ + decimal(at as nat) + "; primary_chars="@
        + decimal(primary.len()) + "; verifier_chars="@ + decimal(verifier.len())
        + "; primary_context="@;
    let whole = head + first + "; verifier_context="@ + second;
    let summary = difference_summary_of(primary, verifier);
    assert(summary == whole);
    let start = head.len() as int;
    let next = start + first.len() + "; verifier_context="@.len();
    assert(summary.subrange(start, start + first.len()) =~= first);
    assert(summary.subrange(next, next + second.len()) =~= second);
    assert(occurs_at(summary, start, first));
    assert(occurs_at(summary, next, second));
}

/// Which of two recognitions is not taken, and why.
#[derive(Debug)]
pub enum ComparisonError {
    Primary(AsrError),
    QualityVerifier(AsrError),
}

/// Checks two recognitions and compares them.
pub fn compare_primary_and_quality_verifier(
    primary: &str,
    quality_verifier: &str,
    max_bytes_per_text: usize,
) -> (result: Result<AsrTextComparison, ComparisonError>)
    ensures
        match result {
            Ok(comparison) => {
                let left = content_of(primary@);
                let right = content_of(quality_verifier@);
                &&& asr_fault(primary@, max_bytes_per_text as nat) is None
                &&& asr_fault(quality_verifier@, max_bytes_per_text as nat) is None
                &&& comparison.primary.source() == primary@
                &&& comparison.primary.shown() == shown_of(primary@)
                &&& comparison.quality_verifier.source() == quality_verifier@
                &&& comparison.quality_verifier.shown() == shown_of(quality_verifier@)
                &&& comparison.status == AsrComparisonStatus::ExactConsensus <==> left == right
                &&& match comparison.difference_summary {
                    Some(summary) => left != right && summary@ == difference_summary_of(
                        left,
                        right,
                    ),
                    None => left == right,
                }
            },
            Err(ComparisonError::Primary(error)) => is_asr_error(
                primary@,
                max_bytes_per_text as nat,
                error,
            ),
            Err(ComparisonError::QualityVerifier(error)) => asr_fault(
                primary@,
                max_bytes_per_text as nat,
            ) is None && is_asr_error(quality_verifier@, max_bytes_per_text as nat, error),
        },
{
    let primary_text = match validate_and_normalize_text(primary, max_bytes_per_text) {
        Ok(text) => text,
        Err(error) => {
            return Err(ComparisonError::Primary(error));
        },
    };
    let verifier_text = match validate_and_normalize_text(quality_verifier, max_bytes_per_text) {
        Ok(text) => text,
        Err(error) => {
            return Err(ComparisonError::QualityVerifier(error));
        },
    };
    Ok(compare_normalized_texts(primary_text, verifier_text))
}

// ---------------------------------------------------------------------------
// Turns that were cut from a text
// ---------------------------------------------------------------------------

/// A transcript of one turn without a speaker that holds the whole text, for
/// audio whose turns are not known.
pub fn build_primary_fallback_transcript(primary: &NormalizedAsrText, duration_ms: u64) -> (result:
    Result<LocalTranscript, String>)
    ensures
        match result {
            Ok(transcript) => duration_ms > 0 && transcript.has_speech
                && transcript.activity_ranges is None && transcript.turns@.len() == 1 && ({
                let turn = transcript.turns@[0];
                turn.local_speaker_id@ == "UNKNOWN"@ && turn.start_ms == 0 && turn.end_ms
                    == duration_ms && turn.text@ == primary.shown() && !turn.clean_reference
            }),
            Err(message) => duration_ms == 0 && message@
                == "无法为 0 ms 音频构造 ASR fallback turn"@,
        },
{
    if duration_ms == 0 {
        return Err("无法为 0 ms 音频构造 ASR fallback turn".to_owned());
    }
    let turn = LocalSpeakerTurn {
        local_speaker_id: "UNKNOWN".to_owned(),
        start_ms: 0,
        end_ms: duration_ms,
        text: primary.as_str().to_owned(),
        clean_reference: false,
    };
    let mut turns: Vec<LocalSpeakerTurn> = Vec::new();
    turns.push(turn);
    Ok(LocalTranscript { has_speech: true, turns, activity_ranges: None })
}

/// Why turns are not taken as a division of a text.
#[derive(Debug)]
pub enum AlignmentError {
    ZeroLimit,
    NoTurns,
    JoinedTooLong,
    Turn(usize, TextFault),
    Joined(AsrError),
    LengthChanged,
    EmptyTurn(usize),
    /// The content is not that of the text; the words describe the difference.
    Rewritten(String),
}

/// The number of bytes of the first `n` turns.
pub open spec fn turn_bytes(turns: Seq<LocalSpeakerTurn>, n: nat) -> nat
    decreases n,
{
    if n == 0 {
        0
    } else {
        turn_bytes(turns, (n - 1) as nat) + byte_len(turns[n - 1].text@)
    }
}

/// The texts of the first `n` turns put together.
pub open spec fn turns_text(turns: Seq<LocalSpeakerTurn>, n: nat) -> Seq<char>
    decreases n,
{
    if n == 0 {
        Seq::empty()
    } else {
        turns_text(turns, (n - 1) as nat) + turns[n - 1].text@
    }
}

/// The first of the turns `n..` whose text is not taken.
pub open spec fn turn_fault(turns: Seq<LocalSpeakerTurn>, max_bytes: nat, n: int) -> Option<
    AlignmentError,
>
    decreases turns.len() - n,
{
    if n >= turns.len() {
        None
    } else if text_fault(turns[n].text@, max_bytes) is Some {
        Some(AlignmentError::Turn(n as usize, text_fault(turns[n].text@, max_bytes)->0))
    } else {
        turn_fault(turns, max_bytes, n + 1)
    }
}

proof fn lemma_turn_fault(turns: Seq<LocalSpeakerTurn>, max_bytes: nat, n: int)
    ensures
        turn_fault(turns, max_bytes, n) is Some ==> turn_fault(turns, max_bytes, n)->0 is Turn,
    decreases turns.len() - n,
{
    if n < turns.len() {
        lemma_turn_fault(turns, max_bytes, n + 1);
    }
}

/// Why turns are not taken, before their text is looked at as a whole.
pub open spec fn turns_fault(turns: Seq<LocalSpeakerTurn>, max_bytes: nat) -> Option<
    AlignmentError,
> {
    if max_bytes == 0 {
        Some(AlignmentError::ZeroLimit)
    } else if turns.len() == 0 {
        Some(AlignmentError::NoTurns)
    } else if turn_bytes(turns, turns.len()) > max_bytes {
        Some(AlignmentError::JoinedTooLong)
    } else {
        turn_fault(turns, max_bytes, 0)
    }
}

proof fn lemma_turn_bytes_grow(turns: Seq<LocalSpeakerTurn>, n: nat, m: nat)
    requires
        n <= m,
    ensures
        turn_bytes(turns, n) <= turn_bytes(turns, m),
    decreases m - n,
{
    if n < m {
        lemma_turn_bytes_grow(turns, n, (m - 1) as nat);
    }
}

/// Checks the turns one by one and puts their texts together.
pub fn join_turns(turns: &Vec<LocalSpeakerTurn>, max_bytes: usize) -> (result: Result<
    String,
    AlignmentError,
>)
    ensures
        match result {
            Ok(text) => turns_fault(turns@, max_bytes as nat) is None && text@ == turns_text(
                turns@,
                turns@.len(),
            ),
            Err(error) => turns_fault(turns@, max_bytes as nat) == Some(error),
        },
{
    if max_bytes == 0 {
        return Err(AlignmentError::ZeroLimit);
    }
    if turns.len() == 0 {
        return Err(AlignmentError::NoTurns);
    }
    let mut total: usize = 0;
    let mut i: usize = 0;
    while i < turns.len()
        invariant
            i <= turns@.len(),
            max_bytes > 0,
            turns@.len() > 0,
            total == turn_bytes(turns@, i as nat),
            total <= max_bytes,
        decreases turns@.len() - i,
    {
        let bytes: usize = bytes_in(turns[i].text.as_str());
        proof {
            lemma_turn_bytes_grow(turns@, (i + 1) as nat, turns@.len());
        }
        if bytes > max_bytes - total {
            return Err(AlignmentError::JoinedTooLong);
        }
        total = total + bytes;
        i += 1;
    }
    let mut text = String::new();
    let mut k: usize = 0;
    while k < turns.len()
        invariant
            k <= turns@.len(),
            max_bytes > 0,
            turns@.len() > 0,
            turn_bytes(turns@, turns@.len()) <= max_bytes,
            turn_fault(turns@, max_bytes as nat, k as int) == turn_fault(
                turns@,
                max_bytes as nat,
                0,
            ),
            text@ == turns_text(turns@, k as nat),
        decreases turns@.len() - k,
    {
        if let Some(fault) = validate_text_boundary(turns[k].text.as_str(), max_bytes) {
            return Err(AlignmentError::Turn(k, fault));
        }
        text.append(turns[k].text.as_str());
        k += 1;
    }
    Ok(text)
}

/// How many characters of the content the turn `k` has, where the turns
/// together have the given text.
pub open spec fn turn_content_count(turns: Seq<LocalSpeakerTurn>, text: Seq<char>, k: nat) -> int {
    content_until(text, turns_text(turns, k + 1).len()).len() - content_until(
        text,
        turns_text(turns, k).len(),
    ).len()
}

/// Why the turns are no division of a text into parts with content.
pub open spec fn division_fault(turns: Seq<LocalSpeakerTurn>, text: Seq<char>, n: int) -> Option<
    AlignmentError,
>
    decreases turns.len() - n,
{
    if n >= turns.len() {
        None
    } else if turn_content_count(turns, text, n as nat) == 0 {
        Some(AlignmentError::EmptyTurn(n as usize))
    } else {
        division_fault(turns, text, n + 1)
    }
}

pub open spec fn are_content_counts(
    counts: Seq<usize>,
    turns: Seq<LocalSpeakerTurn>,
    text: Seq<char>,
) -> bool {
    &&& counts.len() == turns.len()
    &&& forall|k: int|
        0 <= k < turns.len() ==> #[trigger] counts[k] == turn_content_count(turns, text, k as nat)
}

proof fn lemma_turns_text_grows(turns: Seq<LocalSpeakerTurn>, n: nat, m: nat)
    requires
        n <= m,
    ensures
        turns_text(turns, n).len() <= turns_text(turns, m).len(),
    decreases m - n,
{
    if n < m {
        lemma_turns_text_grows(turns, n, (m - 1) as nat);
    }
}

/// Counts the characters of the content that each turn has, where the turns
/// together have the given text.
pub fn count_turn_contents(turns: &Vec<LocalSpeakerTurn>, text: &str) -> (result: Result<
    Vec<usize>,
    AlignmentError,
>)
    ensures
        match result {
            Ok(counts) => text@.len() == turns_text(turns@, turns@.len()).len() && division_fault(
                turns@,
                text@,
                0,
            ) is None && are_content_counts(counts@, turns@, text@),
            Err(AlignmentError::LengthChanged) => text@.len() != turns_text(
                turns@,
                turns@.len(),
            ).len(),
            Err(AlignmentError::EmptyTurn(index)) => text@.len() == turns_text(
                turns@,
                turns@.len(),
            ).len() && division_fault(turns@, text@, 0) == Some(AlignmentError::EmptyTurn(index)),
            Err(_) => false,
        },
{
    let chars = chars_of(text);
    let mut counts: Vec<usize> = Vec::new();
    let mut at: usize = 0;
    let mut k: usize = 0;
    while k < turns.len()
        invariant
            k <= turns@.len(),
            chars@ == text@,
            at <= chars@.len(),
            at == turns_text(turns@, k as nat).len(),
            counts@.len() == k,
            forall|x: int|
                0 <= x < k ==> #[trigger] counts@[x] == turn_content_count(turns@, text@, x as nat),
        decreases turns@.len() - k,
    {
        let length: usize = chars_of(turns[k].text.as_str()).len();
        proof {
            lemma_turns_text_grows(turns@, (k + 1) as nat, turns@.len());
        }
        if chars.len() - at < length {
            return Err(AlignmentError::LengthChanged);
        }
        let end: usize = at + length;
        let mut count: usize = 0;
        let mut i: usize = at;
        while i < end
            invariant
                at <= i <= end <= chars@.len(),
                chars@ == text@,
                count <= i - at,
                count == content_until(text@, i as nat).len() - content_until(
                    text@,
                    at as nat,
                ).len(),
            decreases end - i,
        {
            if belongs_to_content(chars.as_slice(), i) {
                count += 1;
            }
            i += 1;
        }
        counts.push(count);
        at = end;
        k += 1;
    }
    if at != chars.len() {
        return Err(AlignmentError::LengthChanged);
    }
    let mut n: usize = 0;
    while n < counts.len()
        invariant
            n <= counts@.len(),
            are_content_counts(counts@, turns@, text@),
            text@.len() == turns_text(turns@, turns@.len()).len(),
            division_fault(turns@, text@, n as int) == division_fault(turns@, text@, 0),
        decreases counts@.len() - n,
    {
        if counts[n] == 0 {
            return Err(AlignmentError::EmptyTurn(n));
        }
        n += 1;
    }
    Ok(counts)
}

/// The error of turns that are not taken as a division of a text.
pub ghost enum AlignmentFault {
    ZeroLimit,
    NoTurns,
    JoinedTooLong,
    Turn(usize, TextFault),
    Joined(AsrError),
    LengthChanged,
    EmptyTurn(usize),
    Rewritten(Seq<char>),
}

impl View for AlignmentError {
    type V = AlignmentFault;

    open spec fn view(&self) -> AlignmentFault {
        match *self {
            AlignmentError::ZeroLimit => AlignmentFault::ZeroLimit,
            AlignmentError::NoTurns => AlignmentFault::NoTurns,
            AlignmentError::JoinedTooLong => AlignmentFault::JoinedTooLong,
            AlignmentError::Turn(k, fault) => AlignmentFault::Turn(k, fault),
            AlignmentError::Joined(error) => AlignmentFault::Joined(error),
            AlignmentError::LengthChanged => AlignmentFault::LengthChanged,
            AlignmentError::EmptyTurn(k) => AlignmentFault::EmptyTurn(k),
            AlignmentError::Rewritten(summary) => AlignmentFault::Rewritten(summary@),
        }
    }
}

/// Why turns are not taken as a division of a text, where the converter does
/// its work.
pub open spec fn alignment_fault(
    turns: Seq<LocalSpeakerTurn>,
    primary: Seq<char>,
    max_bytes: nat,
) -> Option<AlignmentFault> {
    let joined = turns_text(turns, turns.len());
    let shown = shown_of(joined);
    if turns_fault(turns, max_bytes) is Some {
        Some((turns_fault(turns, max_bytes)->0)@)
    } else if asr_fault(joined, max_bytes) is Some {
        Some(AlignmentFault::Joined(asr_fault(joined, max_bytes)->0))
    } else if shown.len() != joined.len() {
        Some(AlignmentFault::LengthChanged)
    } else if division_fault(turns, shown, 0) is Some {
        Some((division_fault(turns, shown, 0)->0)@)
    } else if content_of(shown) != content_of(primary) {
        Some(
            AlignmentFault::Rewritten(
                difference_summary_of(content_of(primary), content_of(shown)),
            ),
        )
    } else {
        None
    }
}

/// An error in which the converter itself failed.
pub open spec fn is_alignment_failure(error: AlignmentError) -> bool {
    error matches AlignmentError::Joined(cause) && is_converter_failure(cause)
}

/// What an error says of turns that are not taken.
pub open spec fn is_alignment_error(
    turns: Seq<LocalSpeakerTurn>,
    primary: Seq<char>,
    max_bytes: nat,
    error: AlignmentError,
) -> bool {
    if is_alignment_failure(error) {
        turns_fault(turns, max_bytes) is None && is_converted(
            turns_text(turns, turns.len()),
            max_bytes,
        )
    } else {
        alignment_fault(turns, primary, max_bytes) == Some(error@)
    }
}

/// The counts of the content of turns.
pub open spec fn are_turn_counts(counts: Seq<usize>, turns: Seq<LocalSpeakerTurn>) -> bool {
    are_content_counts(counts, turns, shown_of(turns_text(turns, turns.len())))
}

/// What a check of turns against a text says.
pub open spec fn is_checked(
    turns: Seq<LocalSpeakerTurn>,
    primary: Seq<char>,
    max_bytes: nat,
    result: Result<(), AlignmentError>,
) -> bool {
    match result {
        Ok(_) => alignment_fault(turns, primary, max_bytes) is None,
        Err(error) => is_alignment_error(turns, primary, max_bytes, error),
    }
}

/// Checks that turns have the content of a text and counts the content of
/// each.
fn aligned_turn_canonical_counts(
    turns: &Vec<LocalSpeakerTurn>,
    primary: &NormalizedAsrText,
    max_joined_bytes: usize,
) -> (result: Result<Vec<usize>, AlignmentError>)
    ensures
        match result {
            Ok(counts) => alignment_fault(turns@, primary.shown(), max_joined_bytes as nat) is None
                && are_turn_counts(counts@, turns@),
            Err(error) => is_alignment_error(
                turns@,
                primary.shown(),
                max_joined_bytes as nat,
                error,
            ),
        },
{
    proof {
        lemma_turn_fault(turns@, max_joined_bytes as nat, 0);
    }
    let joined = match join_turns(turns, max_joined_bytes) {
        Ok(text) => text,
        Err(error) => {
            return Err(error);
        },
    };
    let normalized = match validate_and_normalize_text(joined.as_str(), max_joined_bytes) {
        Ok(text) => text,
        Err(error) => {
            return Err(AlignmentError::Joined(error));
        },
    };
    let counts = match count_turn_contents(turns, normalized.as_str()) {
        Ok(counts) => counts,
        Err(error) => {
            return Err(error);
        },
    };
    let expected = primary.canonical_content();
    let found = normalized.canonical_content();
    if !same_text(expected.as_str(), found.as_str()) {
        let summary = bounded_difference_summary(expected.as_str(), found.as_str());
        return Err(AlignmentError::Rewritten(summary));
    }
    Ok(counts)
}

/// Checks that turns have the content of a text: that only the division and
/// the speakers were added, and no word was changed.
pub fn validate_aligned_turns_against_primary(
    turns: &Vec<LocalSpeakerTurn>,
    primary: &NormalizedAsrText,
    max_joined_bytes: usize,
) -> (result: Result<(), AlignmentError>)
    ensures
        is_checked(turns@, primary.shown(), max_joined_bytes as nat, result),
{
    match aligned_turn_canonical_counts(turns, primary, max_joined_bytes) {
        Ok(_) => Ok(()),
        Err(error) => Err(error),
    }
}

// ---------------------------------------------------------------------------
// Putting a text back
// ---------------------------------------------------------------------------

/// The positions of the characters of the content among the first `n`
/// characters of a text.
pub open spec fn content_positions(text: Seq<char>, n: nat) -> Seq<int>
    decreases n,
{
    if n == 0 {
        Seq::empty()
    } else {
        let before = content_positions(text, (n - 1) as nat);
        if is_content(text, n - 1) {
            before.push(n - 1)
        } else {
            before
        }
    }
}

/// The sum of the first `n` counts.
pub open spec fn counts_sum(counts: Seq<usize>, n: nat) -> nat
    decreases n,
{
    if n == 0 {
        0
    } else {
        counts_sum(counts, (n - 1) as nat) + counts[n - 1] as nat
    }
}

/// Where the part `k` of a text starts that is cut by counts of its content:
/// at the first character of the content that the parts before do not have.
pub open spec fn cut_position(text: Seq<char>, counts: Seq<usize>, k: nat) -> int {
    if k == 0 {
        0
    } else if k >= counts.len() {
        text.len() as int
    } else {
        content_positions(text, text.len())[counts_sum(counts, k) as int]
    }
}

/// The parts of a text that is cut by counts of its content.
pub open spec fn cut_texts(text: Seq<char>, counts: Seq<usize>) -> Seq<Seq<char>> {
    Seq::new(
        counts.len(),
        |k: int|
            text.subrange(
                cut_position(text, counts, k as nat),
                cut_position(text, counts, (k + 1) as nat),
            ),
    )
}

/// Counts that are all positive and together the number of characters of the
/// content of a text.
pub open spec fn counts_fit(text: Seq<char>, counts: Seq<usize>) -> bool {
    &&& counts.len() > 0
    &&& forall|k: int| 0 <= k < counts.len() ==> #[trigger] counts[k] > 0
    &&& counts_sum(counts, counts.len()) == content_of(text).len()
}

pub(crate) proof fn lemma_content_positions(text: Seq<char>, n: nat)
    requires
        n <= text.len(),
    ensures
        content_positions(text, n).len() == content_until(text, n).len(),
        forall|j: int|
            0 <= j < content_positions(text, n).len() ==> 0 <= #[trigger] content_positions(
                text,
                n,
            )[j] < n,
        forall|i: int, j: int|
            0 <= i < j < content_positions(text, n).len() ==> #[trigger] content_positions(
                text,
                n,
            )[i] < #[trigger] content_positions(text, n)[j],
    decreases n,
{
    if n > 0 {
        lemma_content_positions(text, (n - 1) as nat);
    }
}

pub(crate) proof fn lemma_counts_sum(counts: Seq<usize>, n: nat, m: nat)
    requires
        n <= m <= counts.len(),
        forall|k: int| 0 <= k < counts.len() ==> #[trigger] counts[k] > 0,
    ensures
        counts_sum(counts, n) <= counts_sum(counts, m),
        n < m ==> counts_sum(counts, n) < counts_sum(counts, m),
    decreases m - n,
{
    if n < m {
        lemma_counts_sum(counts, n, (m - 1) as nat);
    }
}

/// Each part starts where the one before ends, and none starts before it.
pub(crate) proof fn lemma_cut_order(text: Seq<char>, counts: Seq<usize>, k: nat)
    requires
        counts_fit(text, counts),
        k < counts.len(),
    ensures
        0 <= cut_position(text, counts, k) <= cut_position(text, counts, k + 1) <= text.len(),
{
    lemma_content_positions(text, text.len());
    lemma_counts_sum(counts, k, counts.len());
    lemma_counts_sum(counts, k, k + 1);
    if k + 1 < counts.len() {
        lemma_counts_sum(counts, k + 1, counts.len());
    }
}

/// The texts put together.
pub open spec fn put_together(parts: Seq<Seq<char>>, n: nat) -> Seq<char>
    decreases n,
{
    if n == 0 {
        Seq::empty()
    } else {
        put_together(parts, (n - 1) as nat) + parts[n - 1]
    }
}

proof fn lemma_cut_prefix(text: Seq<char>, counts: Seq<usize>, n: nat)
    requires
        counts_fit(text, counts),
        n <= counts.len(),
    ensures
        0 <= cut_position(text, counts, n) <= text.len(),
        put_together(cut_texts(text, counts), n) == text.take(cut_position(text, counts, n)),
    decreases n,
{
    if n > 0 {
        lemma_cut_prefix(text, counts, (n - 1) as nat);
        lemma_cut_order(text, counts, (n - 1) as nat);
        let from = cut_position(text, counts, (n - 1) as nat);
        let to = cut_position(text, counts, n);
        assert(text.take(from) + text.subrange(from, to) =~= text.take(to));
    } else {
        assert(text.take(0) =~= Seq::<char>::empty());
    }
}

/// The parts of a text that is cut by counts of its content, put together,
/// are the text: every character stands in exactly one part.
pub proof fn lemma_cut_texts_rebuild(text: Seq<char>, counts: Seq<usize>)
    requires
        counts_fit(text, counts),
    ensures
        put_together(cut_texts(text, counts), counts.len()) == text,
{
    lemma_cut_prefix(text, counts, counts.len());
    assert(text.take(text.len() as int) == text);
}

/// Cuts a text by counts of its content.
pub fn split_at_counts(text: &str, counts: &Vec<usize>) -> (parts: Vec<String>)
    requires
        counts_fit(text@, counts@),
    ensures
        texts(parts@) == cut_texts(text@, counts@),
        parts@.len() == counts@.len(),
{
    let chars = chars_of(text);
    let mut positions: Vec<usize> = Vec::new();
    let mut i: usize = 0;
    let ghost all = content_positions(text@, text@.len());
    while i < chars.len()
        invariant
            i <= chars@.len(),
            chars@ == text@,
            positions@.len() == content_positions(text@, i as nat).len(),
            forall|j: int|
                0 <= j < positions@.len() ==> #[trigger] positions@[j] == content_positions(
                    text@,
                    i as nat,
                )[j],
        decreases chars@.len() - i,
    {
        if belongs_to_content(chars.as_slice(), i) {
            positions.push(i);
        }
        i += 1;
    }
    let mut parts: Vec<String> = Vec::new();
    let mut start: usize = 0;
    let mut consumed: usize = 0;
    let mut k: usize = 0;
    assert(texts(parts@) =~= cut_texts(text@, counts@).take(0));
    proof {
        lemma_content_positions(text@, text@.len());
    }
    while k < counts.len()
        invariant
            k <= counts@.len(),
            chars@ == text@,
            counts_fit(text@, counts@),
            all == content_positions(text@, text@.len()),
            all.len() == content_of(text@).len(),
            positions@.len() == all.len(),
            forall|j: int| 0 <= j < positions@.len() ==> #[trigger] positions@[j] == all[j],
            start == cut_position(text@, counts@, k as nat),
            consumed == counts_sum(counts@, k as nat),
            texts(parts@) == cut_texts(text@, counts@).take(k as int),
            parts@.len() == k,
        decreases counts@.len() - k,
    {
        proof {
            lemma_cut_order(text@, counts@, k as nat);
            lemma_counts_sum(counts@, (k + 1) as nat, counts@.len());
            if k + 1 < counts@.len() {
                lemma_counts_sum(counts@, (k + 1) as nat, counts@.len());
            }
            assert(positions.len() == all.len());
        }
        consumed = consumed + counts[k];
        let end: usize = if k + 1 == counts.len() {
            chars.len()
        } else {
            positions[consumed]
        };
        assert(end == cut_position(text@, counts@, (k + 1) as nat));
        let ghost before = texts(parts@);
        let part = string_of_range(chars.as_slice(), start, end);
        parts.push(part);
        assert(texts(parts@) =~= before.push(part@));
        assert(cut_texts(text@, counts@).take(k + 1) =~= cut_texts(text@, counts@).take(
            k as int,
        ).push(part@));
        start = end;
        k += 1;
    }
    assert(cut_texts(text@, counts@).take(k as int) == cut_texts(text@, counts@));
    parts
}

/// Turns that differ from others only in their texts.
pub open spec fn retexted(
    before: Seq<LocalSpeakerTurn>,
    after: Seq<LocalSpeakerTurn>,
    parts: Seq<Seq<char>>,
) -> bool {
    &&& after.len() == before.len()
    &&& parts.len() == before.len()
    &&& forall|k: int|
        0 <= k < before.len() ==> {
            let turn = #[trigger] after[k];
            turn.local_speaker_id == before[k].local_speaker_id && turn.start_ms
                == before[k].start_ms && turn.end_ms == before[k].end_ms && turn.clean_reference
                == before[k].clean_reference && turn.text@ == parts[k]
        }
}

proof fn lemma_counts_of_turns(
    turns: Seq<LocalSpeakerTurn>,
    shown: Seq<char>,
    counts: Seq<usize>,
    n: nat,
)
    requires
        are_content_counts(counts, turns, shown),
        n <= turns.len(),
    ensures
        counts_sum(counts, n) == content_until(shown, turns_text(turns, n).len()).len(),
    decreases n,
{
    if n > 0 {
        lemma_counts_of_turns(turns, shown, counts, (n - 1) as nat);
        lemma_turns_text_grows(turns, (n - 1) as nat, n);
        assert(counts[n - 1] == turn_content_count(turns, shown, (n - 1) as nat));
    }
}

proof fn lemma_counts_fit(
    turns: Seq<LocalSpeakerTurn>,
    primary: Seq<char>,
    max_bytes: nat,
    counts: Seq<usize>,
)
    requires
        alignment_fault(turns, primary, max_bytes) is None,
        are_turn_counts(counts, turns),
    ensures
        counts_fit(primary, counts),
{
    let shown = shown_of(turns_text(turns, turns.len()));
    lemma_counts_of_turns(turns, shown, counts, turns.len());
    lemma_division(turns, shown, 0);
    assert forall|k: int| 0 <= k < counts.len() implies #[trigger] counts[k] > 0 by {
        assert(counts[k] == turn_content_count(turns, shown, k as nat));
    }
}

proof fn lemma_division(turns: Seq<LocalSpeakerTurn>, shown: Seq<char>, n: int)
    requires
        0 <= n <= turns.len(),
        division_fault(turns, shown, n) is None,
    ensures
        forall|k: int|
            n <= k < turns.len() ==> #[trigger] turn_content_count(turns, shown, k as nat) != 0,
    decreases turns.len() - n,
{
    if n < turns.len() {
        lemma_division(turns, shown, n + 1);
    }
}

/// What becomes of turns that a text is put back into.
pub open spec fn is_restored(
    before: Seq<LocalSpeakerTurn>,
    after: Seq<LocalSpeakerTurn>,
    primary: Seq<char>,
    max_bytes: nat,
    result: Result<(), AlignmentError>,
) -> bool {
    match result {
        Ok(_) => alignment_fault(before, primary, max_bytes) is None && exists|counts: Seq<usize>|
            {
                &&& #[trigger] are_turn_counts(counts, before)
                &&& counts_fit(primary, counts)
                &&& retexted(before, after, cut_texts(primary, counts))
            },
        Err(error) => after == before && is_alignment_error(before, primary, max_bytes, error),
    }
}

/// Puts a text back into turns that were cut from it: each turn keeps its
/// speaker and its times and gets its part of the text, and the parts together
/// are the text. Where the turns do not have the content of the text, they
/// stay as they are.
pub fn restore_primary_text_to_aligned_turns(
    turns: &mut Vec<LocalSpeakerTurn>,
    primary: &NormalizedAsrText,
    max_joined_bytes: usize,
) -> (result: Result<(), AlignmentError>)
    ensures
        is_restored(
            old(turns)@,
            final(turns)@,
            primary.shown(),
            max_joined_bytes as nat,
            result,
        ),
{
    let ghost before = turns@;
    let counts = match aligned_turn_canonical_counts(turns, primary, max_joined_bytes) {
        Ok(counts) => counts,
        Err(error) => {
            return Err(error);
        },
    };
    proof {
        lemma_counts_fit(before, primary.shown(), max_joined_bytes as nat, counts@);
    }
    let mut parts = split_at_counts(primary.as_str(), &counts);
    let ghost all = cut_texts(primary.shown(), counts@);
    let mut k: usize = 0;
    while k < turns.len()
        invariant
            k <= turns@.len(),
            turns@.len() == before.len(),
            parts@.len() == before.len(),
            all.len() == before.len(),
            forall|x: int| k <= x < before.len() ==> #[trigger] parts@[x]@ == all[x],
            forall|x: int| k <= x < before.len() ==> #[trigger] turns@[x] == before[x],
            forall|x: int|
                0 <= x < k ==> {
                    let turn = #[trigger] turns@[x];
                    turn.local_speaker_id == before[x].local_speaker_id && turn.start_ms
                        == before[x].start_ms && turn.end_ms == before[x].end_ms
                        && turn.clean_reference == before[x].clean_reference && turn.text@ == all[x]
                },
        decreases turns@.len() - k,
    {
        let mut text = String::new();
        std::mem::swap(&mut text, &mut parts[k]);
        std::mem::swap(&mut text, &mut turns[k].text);
        k += 1;
    }
    assert(retexted(before, turns@, all));
    Ok(())
}

/// Checks the turns of a transcript against a text.
pub fn validate_aligned_transcript_against_primary(
    transcript: &LocalTranscript,
    primary: &NormalizedAsrText,
    max_joined_bytes: usize,
) -> (result: Result<(), AlignmentError>)
    ensures
        is_checked(transcript.turns@, primary.shown(), max_joined_bytes as nat, result),
{
    validate_aligned_turns_against_primary(&transcript.turns, primary, max_joined_bytes)
}

/// Puts a text back into the turns of a transcript.
pub fn restore_primary_text_to_aligned_transcript(
    transcript: &mut LocalTranscript,
    primary: &NormalizedAsrText,
    max_joined_bytes: usize,
) -> (result: Result<(), AlignmentError>)
    ensures
        final(transcript).has_speech == old(transcript).has_speech,
        final(transcript).activity_ranges == old(transcript).activity_ranges,
        is_restored(
            old(transcript).turns@,
            final(transcript).turns@,
            primary.shown(),
            max_joined_bytes as nat,
            result,
        ),
{
    restore_primary_text_to_aligned_turns(&mut transcript.turns, primary, max_joined_bytes)
}

/// A result that does not come from a failure of the converter itself.
pub open spec fn is_decided(result: Result<(), AlignmentError>) -> bool {
    match result {
        Ok(_) => true,
        Err(error) => !is_alignment_failure(error),
    }
}

/// Turns are restored exactly where the check takes them, and where they are
/// not, none of them changes; unless the converter itself fails in one of the
/// two calls.
pub proof fn lemma_check_and_restore_agree(
    before: Seq<LocalSpeakerTurn>,
    after: Seq<LocalSpeakerTurn>,
    primary: Seq<char>,
    max_bytes: nat,
    checked: Result<(), AlignmentError>,
    restored: Result<(), AlignmentError>,
)
    requires
        is_checked(before, primary, max_bytes, checked),
        is_restored(before, after, primary, max_bytes, restored),
        is_decided(checked),
        is_decided(restored),
    ensures
        checked is Ok <==> restored is Ok,
        checked is Err ==> (checked->Err_0)@ == (restored->Err_0)@,
        restored is Err ==> after == before,
{
}

/// Whatever way the same turns are restored, in a list or in a transcript, the
/// outcome is the same; unless the converter itself fails in one of the two
/// calls.
pub proof fn lemma_restores_agree(
    before: Seq<LocalSpeakerTurn>,
    first: Seq<LocalSpeakerTurn>,
    second: Seq<LocalSpeakerTurn>,
    primary: Seq<char>,
    max_bytes: nat,
    first_result: Result<(), AlignmentError>,
    second_result: Result<(), AlignmentError>,
)
    requires
        is_restored(before, first, primary, max_bytes, first_result),
        is_restored(before, second, primary, max_bytes, second_result),
        is_decided(first_result),
        is_decided(second_result),
    ensures
        first_result is Ok <==> second_result is Ok,
        first.len() == second.len(),
        forall|k: int|
            0 <= k < first.len() ==> {
                let turn = #[trigger] first[k];
                turn.local_speaker_id == second[k].local_speaker_id && turn.start_ms
                    == second[k].start_ms && turn.end_ms == second[k].end_ms
                    && turn.clean_reference == second[k].clean_reference && turn.text@
                    == second[k].text@
            },
{
    if first_result is Ok {
        let left = choose|counts: Seq<usize>|
            {
                &&& #[trigger] are_turn_counts(counts, before)
                &&& counts_fit(primary, counts)
                &&& retexted(before, first, cut_texts(primary, counts))
            };
        let right = choose|counts: Seq<usize>|
            {
                &&& #[trigger] are_turn_counts(counts, before)
                &&& counts_fit(primary, counts)
                &&& retexted(before, second, cut_texts(primary, counts))
            };
        assert forall|k: int| 0 <= k < left.len() implies left[k] == right[k] by {
            assert(left[k] == turn_content_count(
                before,
                shown_of(turns_text(before, before.len())),
                k as nat,
            ));
        }
        assert(left =~= right);
        assert forall|k: int| 0 <= k < first.len() implies ({
            let turn = #[trigger] first[k];
            turn.local_speaker_id == second[k].local_speaker_id && turn.start_ms
                == second[k].start_ms && turn.end_ms == second[k].end_ms && turn.clean_reference
                == second[k].clean_reference && turn.text@ == second[k].text@
        }) by {
            assert(second[k].text@ == cut_texts(primary, right)[k]);
        }
    }
}

/// Turns that a text was put back into hold together exactly the text.
pub proof fn lemma_restored_text(
    before: Seq<LocalSpeakerTurn>,
    after: Seq<LocalSpeakerTurn>,
    primary: Seq<char>,
    counts: Seq<usize>,
)
    requires
        counts_fit(primary, counts),
        retexted(before, after, cut_texts(primary, counts)),
    ensures
        turns_text(after, after.len()) == primary,
{
    lemma_cut_texts_rebuild(primary, counts);
    lemma_turns_put_together(after, cut_texts(primary, counts), after.len());
}

proof fn lemma_turns_put_together(
    turns: Seq<LocalSpeakerTurn>,
    parts: Seq<Seq<char>>,
    n: nat,
)
    requires
        n <= turns.len(),
        turns.len() == parts.len(),
        forall|k: int| 0 <= k < turns.len() ==> (#[trigger] turns[k]).text@ == parts[k],
    ensures
        turns_text(turns, n) == put_together(parts, n),
    decreases n,
{
    if n > 0 {
        lemma_turns_put_together(turns, parts, (n - 1) as nat);
        assert(turns[n - 1].text@ == parts[n - 1]);
    }
}

} // verus!
