//! Simplified Chinese for display: which parts of a text are left as they
//! are, and how the others are converted.
use crate::text::{
    ascii_alphanumeric, chars_of, find_char, is_ascii_alphanumeric_char, is_white_space, occurs_at,
    occurs_here, position_of, string_of_range, texts,
};
use opencc_fmmseg::OpenCC;
use vstd::prelude::*;

verus! {

/// The greatest number of parts of a text that are left as they are.
pub const MAX_PROTECTED_SPANS: usize = 4_096;

// ---------------------------------------------------------------------------
// Characters
// ---------------------------------------------------------------------------

pub open spec fn is_han_char(c: char) -> bool {
    let v = c as u32;
    ||| 0x3400 <= v <= 0x4DBF
    ||| 0x4E00 <= v <= 0x9FFF
    ||| 0xF900 <= v <= 0xFAFF
    ||| 0x20000 <= v <= 0x2EBEF
    ||| 0x30000 <= v <= 0x323AF
}

pub open spec fn is_kana_char(c: char) -> bool {
    let v = c as u32;
    v != 0x30FB && (0x3040 <= v <= 0x30FF || 0x31F0 <= v <= 0x31FF || 0xFF65 <= v <= 0xFF9F
        || 0x1AFF0 <= v <= 0x1AFFF || 0x1B000 <= v <= 0x1B0FF || 0x1B100 <= v <= 0x1B12F || 0x1B130
        <= v <= 0x1B16F)
}

pub fn is_han(character: char) -> (result: bool)
    ensures
        result == is_han_char(character),
{
    let v: u32 = character as u32;
    (0x3400 <= v && v <= 0x4DBF) || (0x4E00 <= v && v <= 0x9FFF) || (0xF900 <= v && v <= 0xFAFF)
        || (0x20000 <= v && v <= 0x2EBEF) || (0x30000 <= v && v <= 0x323AF)
}

pub fn is_kana(character: char) -> (result: bool)
    ensures
        result == is_kana_char(character),
{
    let v: u32 = character as u32;
    v != 0x30FB && ((0x3040 <= v && v <= 0x30FF) || (0x31F0 <= v && v <= 0x31FF) || (0xFF65 <= v
        && v <= 0xFF9F) || (0x1AFF0 <= v && v <= 0x1AFFF) || (0x1B000 <= v && v <= 0x1B0FF) || (
    0x1B100 <= v && v <= 0x1B12F) || (0x1B130 <= v && v <= 0x1B16F))
}

pub open spec fn is_quote_mark(c: char) -> bool {
    c == '“' || c == '”' || c == '‘' || c == '’' || c == '「' || c == '」' || c == '『' || c == '』'
        || c == '《' || c == '》' || c == '〈' || c == '〉'
}

fn quote_mark(c: char) -> (result: bool)
    ensures
        result == is_quote_mark(c),
{
    c == '“' || c == '”' || c == '‘' || c == '’' || c == '「' || c == '」' || c == '『' || c == '』'
        || c == '《' || c == '》' || c == '〈' || c == '〉'
}

/// A character that ends a web address.
pub open spec fn ends_url(c: char) -> bool {
    is_white_space(c) || is_quote_mark(c) || c == ',' || c == '，' || c == '。' || c == ';' || c == '；'
        || c == '！' || c == '？' || c == '、' || c == '<' || c == '>' || c == '"' || c == '\'' || c
        == '`' || c == ')' || c == '）' || c == ']' || c == '】'
}

fn is_url_terminator(c: char) -> (result: bool)
    ensures
        result == ends_url(c),
{
    c.is_whitespace() || quote_mark(c) || c == ',' || c == '，' || c == '。' || c == ';' || c == '；'
        || c == '！' || c == '？' || c == '、' || c == '<' || c == '>' || c == '"' || c == '\'' || c
        == '`' || c == ')' || c == '）' || c == ']' || c == '】'
}

/// A character of the name before the `@` of a mail address.
pub open spec fn is_email_local_char(c: char) -> bool {
    is_ascii_alphanumeric_char(c) || c == '.' || c == '!' || c == '#' || c == '$' || c == '%' || c
        == '&' || c == '\'' || c == '*' || c == '+' || c == '-' || c == '/' || c == '=' || c == '?'
        || c == '^' || c == '_' || c == '`' || c == '{' || c == '|' || c == '}' || c == '~'
}

fn email_local(c: char) -> (result: bool)
    ensures
        result == is_email_local_char(c),
{
    ascii_alphanumeric(c) || c == '.' || c == '!' || c == '#' || c == '$' || c == '%' || c == '&'
        || c == '\'' || c == '*' || c == '+' || c == '-' || c == '/' || c == '=' || c == '?' || c
        == '^' || c == '_' || c == '`' || c == '{' || c == '|' || c == '}' || c == '~'
}

/// A character of the domain behind the `@` of a mail address.
pub open spec fn is_email_domain_char(c: char) -> bool {
    is_ascii_alphanumeric_char(c) || c == '.' || c == '-' || c == '_'
}

fn email_domain(c: char) -> (result: bool)
    ensures
        result == is_email_domain_char(c),
{
    ascii_alphanumeric(c) || c == '.' || c == '-' || c == '_'
}

/// A character that ends the value of a fact.
pub open spec fn ends_fact(c: char) -> bool {
    c == ',' || c == '，' || c == '.' || c == '。' || c == ';' || c == '；' || c == '!' || c == '！' || c
        == '?' || c == '？' || c == '、' || c == '\n' || c == '\r' || c == '\t'
}

fn is_fact_value_terminator(c: char) -> (result: bool)
    ensures
        result == ends_fact(c),
{
    c == ',' || c == '，' || c == '.' || c == '。' || c == ';' || c == '；' || c == '!' || c == '！' || c
        == '?' || c == '？' || c == '、' || c == '\n' || c == '\r' || c == '\t'
}

/// A character between which a designation stands.
pub open spec fn bounds_designation(c: char) -> bool {
    is_white_space(c) || ends_fact(c) || is_quote_mark(c) || c == ':' || c == '：' || c == '(' || c
        == ')' || c == '（' || c == '）' || c == '[' || c == ']' || c == '【' || c == '】'
}

fn is_designation_boundary(c: char) -> (result: bool)
    ensures
        result == bounds_designation(c),
{
    c.is_whitespace() || is_fact_value_terminator(c) || quote_mark(c) || c == ':' || c == '：' || c
        == '(' || c == ')' || c == '（' || c == '）' || c == '[' || c == ']' || c == '【' || c == '】'
}

pub open spec fn has_han(text: Seq<char>) -> bool {
    exists|i: int| 0 <= i < text.len() && is_han_char(#[trigger] text[i])
}

pub open spec fn has_kana(text: Seq<char>) -> bool {
    exists|i: int| 0 <= i < text.len() && is_kana_char(#[trigger] text[i])
}

fn range_has_han(chars: &[char], start: usize, end: usize) -> (result: bool)
    requires
        start <= end <= chars@.len(),
    ensures
        result == has_han(chars@.subrange(start as int, end as int)),
{
    let mut i: usize = start;
    while i < end
        invariant
            start <= i <= end <= chars@.len(),
            forall|k: int| start <= k < i ==> !is_han_char(#[trigger] chars@[k]),
        decreases end - i,
    {
        if is_han(chars[i]) {
            assert(is_han_char(chars@.subrange(start as int, end as int)[i - start]));
            return true;
        }
        i += 1;
    }
    false
}

fn any_kana(chars: &[char]) -> (result: bool)
    ensures
        result == has_kana(chars@),
{
    let mut i: usize = 0;
    while i < chars.len()
        invariant
            i <= chars@.len(),
            forall|k: int| 0 <= k < i ==> !is_kana_char(#[trigger] chars@[k]),
        decreases chars@.len() - i,
    {
        if is_kana(chars[i]) {
            return true;
        }
        i += 1;
    }
    false
}

// ---------------------------------------------------------------------------
// Parts that are left as they are
// ---------------------------------------------------------------------------

/// The end of the run of backticks that starts at `from`.
pub open spec fn backtick_run_end(text: Seq<char>, from: int) -> int
    decreases text.len() - from,
{
    if 0 <= from < text.len() && text[from] == '`' {
        backtick_run_end(text, from + 1)
    } else {
        from
    }
}

/// The end of the first run of exactly `count` backticks from `from` on, or
/// the length of the text.
pub open spec fn closing_run_end(text: Seq<char>, from: int, count: int) -> int
    decreases text.len() - from,
{
    if from >= text.len() {
        text.len() as int
    } else if text[from] != '`' {
        closing_run_end(text, from + 1, count)
    } else {
        let end = backtick_run_end(text, from);
        if end - from == count || end <= from || end > text.len() {
            end
        } else {
            closing_run_end(text, end, count)
        }
    }
}

/// The parts in backticks, with the backticks; a part without its closing
/// backticks reaches to the end.
pub open spec fn code_spans(text: Seq<char>, from: int) -> Seq<(int, int)>
    decreases text.len() - from,
{
    if from >= text.len() {
        Seq::empty()
    } else if text[from] != '`' {
        code_spans(text, from + 1)
    } else {
        let open_end = backtick_run_end(text, from);
        let end = closing_run_end(text, open_end, open_end - from);
        if end <= from || end > text.len() {
            Seq::empty()
        } else {
            seq![(from, end)] + code_spans(text, end)
        }
    }
}

/// What stands between a pair of quotes, from `from` on.
pub open spec fn quote_spans(text: Seq<char>, opening: char, closing: char, from: int) -> Seq<
    (int, int),
>
    decreases text.len() - from,
{
    let open = position_of(text, opening, from);
    let close = position_of(text, closing, open + 1);
    if from < 0 || open < from || open >= text.len() || close <= open || close >= text.len() {
        Seq::empty()
    } else if open + 1 < close {
        seq![(open + 1, close)] + quote_spans(text, opening, closing, close + 1)
    } else {
        quote_spans(text, opening, closing, close + 1)
    }
}

/// The first position from `from` on that ends a web address, or the length.
pub open spec fn url_end(text: Seq<char>, from: int) -> int
    decreases text.len() - from,
{
    if from >= text.len() || ends_url(text[from]) {
        from
    } else {
        url_end(text, from + 1)
    }
}

/// The web addresses with a prefix that start at `from` or behind it.
pub open spec fn url_spans(text: Seq<char>, prefix: Seq<char>, from: int) -> Seq<(int, int)>
    decreases text.len() - from,
{
    if from >= text.len() {
        Seq::empty()
    } else {
        let content = from + prefix.len();
        let rest = url_spans(text, prefix, from + 1);
        if occurs_at(text, from, prefix) && url_end(text, content) > content {
            seq![(from, url_end(text, content))] + rest
        } else {
            rest
        }
    }
}

/// Where the name before an `@` starts.
pub open spec fn email_start(text: Seq<char>, at: int) -> int
    decreases at,
{
    if 0 < at <= text.len() && is_email_local_char(text[at - 1]) {
        email_start(text, at - 1)
    } else {
        at
    }
}

/// Where the domain that starts at `from` ends.
pub open spec fn email_end(text: Seq<char>, from: int) -> int
    decreases text.len() - from,
{
    if 0 <= from < text.len() && is_email_domain_char(text[from]) {
        email_end(text, from + 1)
    } else {
        from
    }
}

/// The mail addresses whose `@` stands at `from` or behind it.
pub open spec fn email_spans(text: Seq<char>, from: int) -> Seq<(int, int)>
    decreases text.len() - from,
{
    if from >= text.len() {
        Seq::empty()
    } else {
        let rest = email_spans(text, from + 1);
        if text[from] == '@' && is_email_at(text, from) {
            seq![(email_start(text, from), email_end(text, from + 1))] + rest
        } else {
            rest
        }
    }
}

/// An `@` with a name before it and a domain behind it that holds a letter or
/// a digit.
pub open spec fn is_email_at(text: Seq<char>, at: int) -> bool {
    &&& email_start(text, at) < at
    &&& email_end(text, at + 1) > at + 1
    &&& exists|k: int|
        at + 1 <= k < email_end(text, at + 1) && is_ascii_alphanumeric_char(#[trigger] text[k])
}

/// The first position from `from` on without white space, or the length.
pub open spec fn space_end(text: Seq<char>, from: int) -> int
    decreases text.len() - from,
{
    if 0 <= from < text.len() && is_white_space(text[from]) {
        space_end(text, from + 1)
    } else {
        from
    }
}

/// The first position from `from` on that ends the value of a fact, or the
/// length.
pub open spec fn fact_end(text: Seq<char>, from: int) -> int
    decreases text.len() - from,
{
    if from >= text.len() || ends_fact(text[from]) {
        from
    } else {
        fact_end(text, from + 1)
    }
}

/// The words that may stand between the name of a fact and its value.
pub open spec fn connectors() -> Seq<Seq<char>> {
    seq![
        seq!['称', '为'],
        seq!['称', '為'],
        seq!['稱', '为'],
        seq!['稱', '為'],
        seq!['：'],
        seq![':'],
        seq!['='],
        seq!['是'],
        seq!['为'],
        seq!['為'],
        seq!['叫'],
    ]
}

/// The length of the first of the connectors `n..` that stands at `at`.
pub open spec fn connector_len(text: Seq<char>, at: int, n: int) -> nat
    decreases connectors().len() - n,
{
    if n < 0 || n >= connectors().len() {
        0
    } else if occurs_at(text, at, connectors()[n]) {
        connectors()[n].len()
    } else {
        connector_len(text, at, n + 1)
    }
}

/// Where the value of a fact whose name ends at `after` starts.
pub open spec fn fact_start(text: Seq<char>, after: int) -> int {
    let first = space_end(text, after);
    let len = connector_len(text, first, 0);
    if len == 0 {
        first
    } else {
        space_end(text, first + len)
    }
}

/// The values of the facts with a name that stands at `from` or behind it.
pub open spec fn fact_spans(text: Seq<char>, label: Seq<char>, from: int) -> Seq<(int, int)>
    decreases text.len() - from,
{
    if from >= text.len() {
        Seq::empty()
    } else {
        let rest = fact_spans(text, label, from + 1);
        let start = fact_start(text, from + label.len());
        if occurs_at(text, from, label) && start < fact_end(text, start) {
            seq![(start, fact_end(text, start))] + rest
        } else {
            rest
        }
    }
}

/// Where the clause that ends at `at` starts.
pub open spec fn clause_start(text: Seq<char>, at: int) -> int
    decreases at,
{
    if 0 < at <= text.len() && !bounds_designation(text[at - 1]) {
        clause_start(text, at - 1)
    } else {
        at
    }
}

/// At `at` stands `的`, behind it a character and the end of a clause, and
/// that character stands in the clause before.
pub open spec fn designates(text: Seq<char>, at: int) -> bool {
    &&& 0 <= at
    &&& at + 1 < text.len()
    &&& text[at] == '的'
    &&& is_han_char(text[at + 1])
    &&& at + 2 < text.len() ==> bounds_designation(text[at + 2])
    &&& exists|k: int| clause_start(text, at) <= k < at && #[trigger] text[k] == text[at + 1]
}

/// The places `from..to` that hold a character.
pub open spec fn places_of(text: Seq<char>, c: char, from: int, to: int) -> Seq<(int, int)>
    decreases to - from,
{
    if from >= to {
        Seq::empty()
    } else {
        let rest = places_of(text, c, from + 1, to);
        if text[from] == c {
            seq![(from, from + 1)] + rest
        } else {
            rest
        }
    }
}

/// The characters that are named by the words around a `的` at `from` or
/// behind it.
pub open spec fn designation_spans(text: Seq<char>, from: int) -> Seq<(int, int)>
    decreases text.len() - from,
{
    if from >= text.len() {
        Seq::empty()
    } else {
        let rest = designation_spans(text, from + 1);
        if designates(text, from) {
            places_of(text, text[from + 1], clause_start(text, from), from) + (seq![
                (from + 1, from + 2),
            ] + rest)
        } else {
            rest
        }
    }
}

/// The pairs of quotes.
pub open spec fn quote_pairs() -> Seq<(char, char)> {
    seq![
        ('“', '”'),
        ('‘', '’'),
        ('「', '」'),
        ('『', '』'),
        ('《', '》'),
        ('〈', '〉'),
        ('"', '"'),
    ]
}

/// What stands between the first `n` pairs of quotes.
pub open spec fn all_quote_spans(text: Seq<char>, n: nat) -> Seq<(int, int)>
    decreases n,
{
    if n == 0 {
        Seq::empty()
    } else {
        all_quote_spans(text, (n - 1) as nat) + quote_spans(
            text,
            quote_pairs()[n - 1].0,
            quote_pairs()[n - 1].1,
            0,
        )
    }
}

/// The web addresses with one of the three prefixes.
pub open spec fn all_url_spans(text: Seq<char>) -> Seq<(int, int)> {
    url_spans(text, "https://"@, 0) + url_spans(text, "http://"@, 0) + url_spans(text, "www."@, 0)
}

/// The names of facts.
pub open spec fn fact_labels() -> Seq<Seq<char>> {
    seq![
        "项目代号"@,
        "项目代號"@,
        "項目代号"@,
        "項目代號"@,
        "代号"@,
        "代號"@,
        "名称"@,
        "名稱"@,
        "姓名"@,
        "名字"@,
        "公司名"@,
        "品牌"@,
        "机构"@,
        "機構"@,
        "学校"@,
        "學校"@,
        "型号"@,
        "型號"@,
        "编号"@,
        "編號"@,
        "账号"@,
        "帐号"@,
        "帳号"@,
        "账號"@,
        "帳號"@,
    ]
}

/// The values of the facts with one of the first `n` names.
pub open spec fn all_fact_spans(text: Seq<char>, n: nat) -> Seq<(int, int)>
    decreases n,
{
    if n == 0 {
        Seq::empty()
    } else {
        all_fact_spans(text, (n - 1) as nat) + fact_spans(text, fact_labels()[n - 1], 0)
    }
}

/// All parts of a text that are left as they are.
pub open spec fn protected_spans(text: Seq<char>) -> Seq<(int, int)> {
    code_spans(text, 0) + all_quote_spans(text, quote_pairs().len()) + all_url_spans(text)
        + email_spans(text, 0) + all_fact_spans(text, fact_labels().len()) + designation_spans(
        text,
        0,
    )
}

/// Whether a place lies in one of the parts.
pub open spec fn covers(spans: Seq<(int, int)>, place: int) -> bool {
    exists|k: int| 0 <= k < spans.len() && (#[trigger] spans[k]).0 <= place < spans[k].1
}

/// Whether a place of a text is left as it is.
pub open spec fn is_protected(text: Seq<char>, place: int) -> bool {
    covers(protected_spans(text), place)
}

// ---------------------------------------------------------------------------
// Finding the parts
// ---------------------------------------------------------------------------

/// The parts as numbers.
pub open spec fn span_numbers(spans: Seq<(usize, usize)>) -> Seq<(int, int)> {
    Seq::new(spans.len(), |k: int| (spans[k].0 as int, spans[k].1 as int))
}

/// What adding more parts does: all are added, or there are too many.
spec fn added(
    before: Seq<(usize, usize)>,
    after: Seq<(usize, usize)>,
    more: Seq<(int, int)>,
    complete: bool,
) -> bool {
    &&& after.len() <= MAX_PROTECTED_SPANS
    &&& complete ==> span_numbers(after) == span_numbers(before) + more
    &&& !complete ==> before.len() + more.len() > MAX_PROTECTED_SPANS
}

/// Adds a part that is not empty; false where there are too many.
fn push_protected_span(spans: &mut Vec<(usize, usize)>, start: usize, end: usize) -> (complete: bool)
    requires
        old(spans)@.len() <= MAX_PROTECTED_SPANS,
        start < end,
    ensures
        added(old(spans)@, final(spans)@, seq![(start as int, end as int)], complete),
        !complete ==> final(spans)@ == old(spans)@ && old(spans)@.len() == MAX_PROTECTED_SPANS,
{
    if spans.len() >= MAX_PROTECTED_SPANS {
        return false;
    }
    let ghost before = spans@;
    spans.push((start, end));
    assert(span_numbers(spans@) =~= span_numbers(before) + seq![(start as int, end as int)]);
    true
}

/// Where the run of backticks that starts at `from` ends.
pub(crate) fn skip_backticks(chars: &[char], from: usize) -> (end: usize)
    requires
        from <= chars@.len(),
    ensures
        end == backtick_run_end(chars@, from as int),
        from <= end <= chars@.len(),
        from < chars@.len() && chars@[from as int] == '`' ==> from < end,
{
    let mut end: usize = from;
    while end < chars.len() && chars[end] == '`'
        invariant
            from <= end <= chars@.len(),
            backtick_run_end(chars@, end as int) == backtick_run_end(chars@, from as int),
            from < chars@.len() && chars@[from as int] == '`' && end == from ==> chars@[end as int]
                == '`',
        decreases chars@.len() - end,
    {
        end += 1;
    }
    end
}

fn protect_inline_code(chars: &[char], spans: &mut Vec<(usize, usize)>) -> (complete: bool)
    requires
        old(spans)@.len() <= MAX_PROTECTED_SPANS,
    ensures
        added(old(spans)@, final(spans)@, code_spans(chars@, 0), complete),
{
    let ghost base = span_numbers(spans@);
    let ghost all = code_spans(chars@, 0);
    let mut cursor: usize = 0;
    while cursor < chars.len()
        invariant
            cursor <= chars@.len(),
            spans@.len() <= MAX_PROTECTED_SPANS,
            base == span_numbers(old(spans)@),
            all == code_spans(chars@, 0),
            span_numbers(spans@) + code_spans(chars@, cursor as int) == base + all,
        decreases chars@.len() - cursor,
    {
        if chars[cursor] != '`' {
            cursor += 1;
        } else {
            let start: usize = cursor;
            let open_end: usize = skip_backticks(chars, cursor);
            let count: usize = open_end - start;
            let mut search: usize = open_end;
            let mut end: usize = chars.len();
            let mut found: bool = false;
            while search < chars.len() && !found
                invariant
                    start < open_end <= search <= chars@.len(),
                    end <= chars@.len(),
                    count == open_end - start,
                    found ==> end == closing_run_end(chars@, open_end as int, count as int)
                        && open_end < end,
                    !found ==> end == chars@.len() && closing_run_end(
                        chars@,
                        search as int,
                        count as int,
                    ) == closing_run_end(chars@, open_end as int, count as int),
                decreases chars@.len() - search,
            {
                if chars[search] != '`' {
                    search += 1;
                } else {
                    let run_start: usize = search;
                    search = skip_backticks(chars, run_start);
                    if search - run_start == count {
                        end = search;
                        found = true;
                    }
                }
            }
            let ghost before = span_numbers(spans@);
            let ghost rest = code_spans(chars@, end as int);
            assert(code_spans(chars@, start as int) == seq![(start as int, end as int)] + rest);
            if !push_protected_span(spans, start, end) {
                assert((base + all).len() == before.len() + 1 + rest.len());
                assert(span_numbers(old(spans)@).len() == old(spans)@.len());
                return false;
            }
            assert(span_numbers(spans@) + rest =~= before + (seq![(start as int, end as int)]
                + rest));
            cursor = end;
        }
    }
    assert(span_numbers(spans@) + code_spans(chars@, cursor as int) =~= span_numbers(spans@));
    true
}

fn protect_quotes(
    chars: &[char],
    opening: char,
    closing: char,
    spans: &mut Vec<(usize, usize)>,
) -> (complete: bool)
    requires
        old(spans)@.len() <= MAX_PROTECTED_SPANS,
    ensures
        added(old(spans)@, final(spans)@, quote_spans(chars@, opening, closing, 0), complete),
{
    let ghost base = span_numbers(spans@);
    let ghost all = quote_spans(chars@, opening, closing, 0);
    let mut cursor: usize = 0;
    while cursor < chars.len()
        invariant
            cursor <= chars@.len(),
            spans@.len() <= MAX_PROTECTED_SPANS,
            base == span_numbers(old(spans)@),
            all == quote_spans(chars@, opening, closing, 0),
            span_numbers(spans@) + quote_spans(chars@, opening, closing, cursor as int) == base
                + all,
        decreases chars@.len() - cursor,
    {
        let open: usize = find_char(chars, opening, cursor);
        let close: usize = if open < chars.len() {
            find_char(chars, closing, open + 1)
        } else {
            chars.len()
        };
        if close >= chars.len() {
            assert(quote_spans(chars@, opening, closing, cursor as int) =~= Seq::<
                (int, int),
            >::empty());
            assert(span_numbers(spans@) + Seq::<(int, int)>::empty() =~= span_numbers(spans@));
            return true;
        }
        let ghost before = span_numbers(spans@);
        let ghost rest = quote_spans(chars@, opening, closing, close + 1);
        if open + 1 < close {
            if !push_protected_span(spans, open + 1, close) {
                assert((base + all).len() == before.len() + 1 + rest.len());
                assert(span_numbers(old(spans)@).len() == old(spans)@.len());
                return false;
            }
            assert(span_numbers(spans@) + rest =~= before + (seq![(open + 1, close as int)]
                + rest));
        }
        cursor = close + 1;
    }
    assert(quote_spans(chars@, opening, closing, cursor as int) =~= Seq::<(int, int)>::empty());
    assert(span_numbers(spans@) + Seq::<(int, int)>::empty() =~= span_numbers(spans@));
    true
}

fn protect_quoted_text(chars: &[char], spans: &mut Vec<(usize, usize)>) -> (complete: bool)
    requires
        old(spans)@.len() <= MAX_PROTECTED_SPANS,
    ensures
        added(
            old(spans)@,
            final(spans)@,
            all_quote_spans(chars@, quote_pairs().len()),
            complete,
        ),
{
    let pairs: [(char, char); 7] = [
        ('“', '”'),
        ('‘', '’'),
        ('「', '」'),
        ('『', '』'),
        ('《', '》'),
        ('〈', '〉'),
        ('"', '"'),
    ];
    assert(pairs@ =~= quote_pairs());
    let ghost base = span_numbers(spans@);
    let ghost count = old(spans)@.len();
    let mut i: usize = 0;
    assert(base + all_quote_spans(chars@, 0) =~= base);
    while i < 7
        invariant
            i <= 7,
            pairs@ == quote_pairs(),
            quote_pairs().len() == 7,
            spans@.len() <= MAX_PROTECTED_SPANS,
            base == span_numbers(old(spans)@),
            span_numbers(spans@) == base + all_quote_spans(chars@, i as nat),
        decreases 7 - i,
    {
        let pair = pairs[i];
        let ghost before = spans@;
        let ghost more = quote_spans(chars@, pair.0, pair.1, 0);
        if !protect_quotes(chars, pair.0, pair.1, spans) {
            proof {
                lemma_quote_spans_grow(chars@, (i + 1) as nat, 7);
                assert(all_quote_spans(chars@, (i + 1) as nat) == all_quote_spans(
                    chars@,
                    i as nat,
                ) + more);
                assert(span_numbers(before).len() == before.len());
            }
            return false;
        }
        assert(base + all_quote_spans(chars@, i as nat) + more =~= base + all_quote_spans(
            chars@,
            (i + 1) as nat,
        ));
        i += 1;
    }
    true
}

proof fn lemma_quote_spans_grow(text: Seq<char>, n: nat, m: nat)
    requires
        n <= m,
    ensures
        all_quote_spans(text, n).len() <= all_quote_spans(text, m).len(),
    decreases m - n,
{
    if n < m {
        lemma_quote_spans_grow(text, n, (m - 1) as nat);
    }
}

/// Where the web address whose content starts at `from` ends.
fn find_url_end(chars: &[char], from: usize) -> (end: usize)
    requires
        from <= chars@.len(),
    ensures
        end == url_end(chars@, from as int),
        from <= end <= chars@.len(),
{
    let mut end: usize = from;
    while end < chars.len() && !is_url_terminator(chars[end])
        invariant
            from <= end <= chars@.len(),
            url_end(chars@, end as int) == url_end(chars@, from as int),
        decreases chars@.len() - end,
    {
        end += 1;
    }
    end
}

fn protect_urls_with(chars: &[char], prefix: &str, spans: &mut Vec<(usize, usize)>) -> (complete: bool)
    requires
        old(spans)@.len() <= MAX_PROTECTED_SPANS,
    ensures
        added(old(spans)@, final(spans)@, url_spans(chars@, prefix@, 0), complete),
{
    let prefix_chars = chars_of(prefix);
    let ghost base = span_numbers(spans@);
    let ghost all = url_spans(chars@, prefix@, 0);
    let mut start: usize = 0;
    while start < chars.len()
        invariant
            start <= chars@.len(),
            prefix_chars@ == prefix@,
            spans@.len() <= MAX_PROTECTED_SPANS,
            base == span_numbers(old(spans)@),
            all == url_spans(chars@, prefix@, 0),
            span_numbers(spans@) + url_spans(chars@, prefix@, start as int) == base + all,
        decreases chars@.len() - start,
    {
        let ghost rest = url_spans(chars@, prefix@, start + 1);
        if occurs_here(chars, start, prefix_chars.as_slice()) {
            let content: usize = start + prefix_chars.len();
            let end: usize = find_url_end(chars, content);
            if end > content {
                let ghost before = span_numbers(spans@);
                if !push_protected_span(spans, start, end) {
                    assert((base + all).len() == before.len() + 1 + rest.len());
                assert(span_numbers(old(spans)@).len() == old(spans)@.len());
                    return false;
                }
                assert(span_numbers(spans@) + rest =~= before + (seq![(start as int, end as int)]
                    + rest));
            }
        }
        start += 1;
    }
    assert(span_numbers(spans@) + url_spans(chars@, prefix@, start as int) =~= span_numbers(
        spans@,
    ));
    true
}

fn protect_urls(chars: &[char], spans: &mut Vec<(usize, usize)>) -> (complete: bool)
    requires
        old(spans)@.len() <= MAX_PROTECTED_SPANS,
    ensures
        added(old(spans)@, final(spans)@, all_url_spans(chars@), complete),
{
    let ghost base = span_numbers(spans@);
    let ghost first = url_spans(chars@, "https://"@, 0);
    let ghost second = url_spans(chars@, "http://"@, 0);
    let ghost third = url_spans(chars@, "www."@, 0);
    if !protect_urls_with(chars, "https://", spans) {
        return false;
    }
    assert(spans@.len() == span_numbers(spans@).len());
    if !protect_urls_with(chars, "http://", spans) {
        return false;
    }
    assert(spans@.len() == span_numbers(spans@).len());
    if !protect_urls_with(chars, "www.", spans) {
        return false;
    }
    assert(base + first + second + third =~= base + all_url_spans(chars@));
    true
}

/// Whether the places `from..to` hold a letter or a digit.
fn range_has_alphanumeric(chars: &[char], from: usize, to: usize) -> (result: bool)
    requires
        from <= to <= chars@.len(),
    ensures
        result == exists|k: int| from <= k < to && is_ascii_alphanumeric_char(#[trigger] chars@[k]),
{
    let mut i: usize = from;
    while i < to
        invariant
            from <= i <= to <= chars@.len(),
            forall|k: int| from <= k < i ==> !is_ascii_alphanumeric_char(#[trigger] chars@[k]),
        decreases to - i,
    {
        if ascii_alphanumeric(chars[i]) {
            return true;
        }
        i += 1;
    }
    false
}

fn protect_emails(chars: &[char], spans: &mut Vec<(usize, usize)>) -> (complete: bool)
    requires
        old(spans)@.len() <= MAX_PROTECTED_SPANS,
    ensures
        added(old(spans)@, final(spans)@, email_spans(chars@, 0), complete),
{
    let ghost base = span_numbers(spans@);
    let ghost all = email_spans(chars@, 0);
    let mut at: usize = 0;
    while at < chars.len()
        invariant
            at <= chars@.len(),
            spans@.len() <= MAX_PROTECTED_SPANS,
            base == span_numbers(old(spans)@),
            all == email_spans(chars@, 0),
            span_numbers(spans@) + email_spans(chars@, at as int) == base + all,
        decreases chars@.len() - at,
    {
        let ghost rest = email_spans(chars@, at + 1);
        if chars[at] == '@' {
            let mut start: usize = at;
            while start > 0 && email_local(chars[start - 1])
                invariant
                    start <= at < chars@.len(),
                    email_start(chars@, start as int) == email_start(chars@, at as int),
                decreases start,
            {
                start -= 1;
            }
            let mut end: usize = at + 1;
            while end < chars.len() && email_domain(chars[end])
                invariant
                    at < end <= chars@.len(),
                    email_end(chars@, end as int) == email_end(chars@, at + 1),
                decreases chars@.len() - end,
            {
                end += 1;
            }
            if start < at && end > at + 1 && range_has_alphanumeric(chars, at + 1, end) {
                assert(is_email_at(chars@, at as int));
                let ghost before = span_numbers(spans@);
                if !push_protected_span(spans, start, end) {
                    assert((base + all).len() == before.len() + 1 + rest.len());
                assert(span_numbers(old(spans)@).len() == old(spans)@.len());
                    return false;
                }
                assert(span_numbers(spans@) + rest =~= before + (seq![(start as int, end as int)]
                    + rest));
            } else {
                assert(!is_email_at(chars@, at as int));
            }
        }
        at += 1;
    }
    assert(span_numbers(spans@) + email_spans(chars@, at as int) =~= span_numbers(spans@));
    true
}

fn skip_whitespace(chars: &[char], from: usize) -> (end: usize)
    requires
        from <= chars@.len(),
    ensures
        end == space_end(chars@, from as int),
        from <= end <= chars@.len(),
{
    let mut end: usize = from;
    while end < chars.len() && chars[end].is_whitespace()
        invariant
            from <= end <= chars@.len(),
            space_end(chars@, end as int) == space_end(chars@, from as int),
        decreases chars@.len() - end,
    {
        end += 1;
    }
    end
}

/// The length of the connector that stands at a place, or zero.
fn connector_at(chars: &[char], at: usize) -> (len: usize)
    requires
        at <= chars@.len(),
    ensures
        len == connector_len(chars@, at as int, 0),
        at + len <= chars@.len(),
{
    let words: [&str; 11] = ["称为", "称為", "稱为", "稱為", "：", ":", "=", "是", "为", "為", "叫"];
    proof {
        reveal_strlit("称为");
        reveal_strlit("称為");
        reveal_strlit("稱为");
        reveal_strlit("稱為");
        reveal_strlit("：");
        reveal_strlit(":");
        reveal_strlit("=");
        reveal_strlit("是");
        reveal_strlit("为");
        reveal_strlit("為");
        reveal_strlit("叫");
        assert(words[0]@ =~= connectors()[0]);
        assert(words[1]@ =~= connectors()[1]);
        assert(words[2]@ =~= connectors()[2]);
        assert(words[3]@ =~= connectors()[3]);
        assert(words[4]@ =~= connectors()[4]);
        assert(words[5]@ =~= connectors()[5]);
        assert(words[6]@ =~= connectors()[6]);
        assert(words[7]@ =~= connectors()[7]);
        assert(words[8]@ =~= connectors()[8]);
        assert(words[9]@ =~= connectors()[9]);
        assert(words[10]@ =~= connectors()[10]);
        assert forall|n: int| 0 <= n < 11 implies (#[trigger] words@[n])@ == connectors()[n] by {
            assert(n == 0 || n == 1 || n == 2 || n == 3 || n == 4 || n == 5 || n == 6 || n == 7
                || n == 8 || n == 9 || n == 10);
        }
    }
    let mut n: usize = 0;
    while n < 11
        invariant
            n <= 11,
            at <= chars@.len(),
            words@.len() == 11,
            connectors().len() == 11,
            forall|k: int| 0 <= k < 11 ==> (#[trigger] words@[k])@ == connectors()[k],
            connector_len(chars@, at as int, n as int) == connector_len(chars@, at as int, 0),
        decreases 11 - n,
    {
        let word = chars_of(words[n]);
        assert(words@[n as int]@ == connectors()[n as int]);
        if occurs_here(chars, at, word.as_slice()) {
            return word.len();
        }
        n += 1;
    }
    0
}

/// Where the value of a fact whose name ends at `after` starts.
fn find_fact_start(chars: &[char], after: usize) -> (start: usize)
    requires
        after <= chars@.len(),
    ensures
        start == fact_start(chars@, after as int),
        after <= start <= chars@.len(),
{
    let first: usize = skip_whitespace(chars, after);
    let len: usize = connector_at(chars, first);
    assert(chars.len() == chars@.len());
    if len == 0 {
        first
    } else {
        skip_whitespace(chars, first + len)
    }
}

fn find_fact_end(chars: &[char], from: usize) -> (end: usize)
    requires
        from <= chars@.len(),
    ensures
        end == fact_end(chars@, from as int),
        from <= end <= chars@.len(),
{
    let mut end: usize = from;
    while end < chars.len() && !is_fact_value_terminator(chars[end])
        invariant
            from <= end <= chars@.len(),
            fact_end(chars@, end as int) == fact_end(chars@, from as int),
        decreases chars@.len() - end,
    {
        end += 1;
    }
    end
}

fn protect_facts_named(chars: &[char], label: &str, spans: &mut Vec<(usize, usize)>) -> (complete: bool)
    requires
        old(spans)@.len() <= MAX_PROTECTED_SPANS,
    ensures
        added(old(spans)@, final(spans)@, fact_spans(chars@, label@, 0), complete),
{
    let label_chars = chars_of(label);
    let ghost base = span_numbers(spans@);
    let ghost all = fact_spans(chars@, label@, 0);
    let mut at: usize = 0;
    while at < chars.len()
        invariant
            at <= chars@.len(),
            label_chars@ == label@,
            spans@.len() <= MAX_PROTECTED_SPANS,
            base == span_numbers(old(spans)@),
            all == fact_spans(chars@, label@, 0),
            span_numbers(spans@) + fact_spans(chars@, label@, at as int) == base + all,
        decreases chars@.len() - at,
    {
        let ghost rest = fact_spans(chars@, label@, at + 1);
        if occurs_here(chars, at, label_chars.as_slice()) {
            let start: usize = find_fact_start(chars, at + label_chars.len());
            let end: usize = find_fact_end(chars, start);
            if start < end {
                let ghost before = span_numbers(spans@);
                if !push_protected_span(spans, start, end) {
                    assert((base + all).len() == before.len() + 1 + rest.len());
                assert(span_numbers(old(spans)@).len() == old(spans)@.len());
                    return false;
                }
                assert(span_numbers(spans@) + rest =~= before + (seq![(start as int, end as int)]
                    + rest));
            }
        }
        at += 1;
    }
    assert(span_numbers(spans@) + fact_spans(chars@, label@, at as int) =~= span_numbers(spans@));
    true
}

proof fn lemma_fact_spans_grow(text: Seq<char>, n: nat, m: nat)
    requires
        n <= m,
    ensures
        all_fact_spans(text, n).len() <= all_fact_spans(text, m).len(),
    decreases m - n,
{
    if n < m {
        lemma_fact_spans_grow(text, n, (m - 1) as nat);
    }
}

fn protect_fact_values(chars: &[char], spans: &mut Vec<(usize, usize)>) -> (complete: bool)
    requires
        old(spans)@.len() <= MAX_PROTECTED_SPANS,
    ensures
        added(
            old(spans)@,
            final(spans)@,
            all_fact_spans(chars@, fact_labels().len()),
            complete,
        ),
{
    let labels: [&str; 25] = [
        "项目代号",
        "项目代號",
        "項目代号",
        "項目代號",
        "代号",
        "代號",
        "名称",
        "名稱",
        "姓名",
        "名字",
        "公司名",
        "品牌",
        "机构",
        "機構",
        "学校",
        "學校",
        "型号",
        "型號",
        "编号",
        "編號",
        "账号",
        "帐号",
        "帳号",
        "账號",
        "帳號",
    ];
    let ghost base = span_numbers(spans@);
    let mut i: usize = 0;
    assert(base + all_fact_spans(chars@, 0) =~= base);
    while i < 25
        invariant
            i <= 25,
            labels@.len() == 25,
            fact_labels().len() == 25,
            forall|k: int| 0 <= k < 25 ==> (#[trigger] labels@[k])@ == fact_labels()[k],
            spans@.len() <= MAX_PROTECTED_SPANS,
            base == span_numbers(old(spans)@),
            span_numbers(spans@) == base + all_fact_spans(chars@, i as nat),
        decreases 25 - i,
    {
        let label = labels[i];
        assert(labels@[i as int]@ == fact_labels()[i as int]);
        let ghost before = spans@;
        let ghost more = fact_spans(chars@, label@, 0);
        if !protect_facts_named(chars, label, spans) {
            proof {
                lemma_fact_spans_grow(chars@, (i + 1) as nat, 25);
                assert(all_fact_spans(chars@, (i + 1) as nat) == all_fact_spans(chars@, i as nat)
                    + more);
                assert(span_numbers(before).len() == before.len());
            }
            return false;
        }
        assert(base + all_fact_spans(chars@, i as nat) + more =~= base + all_fact_spans(
            chars@,
            (i + 1) as nat,
        ));
        i += 1;
    }
    true
}

/// Adds the places `from..to` that hold a character.
fn protect_places(
    chars: &[char],
    c: char,
    from: usize,
    to: usize,
    spans: &mut Vec<(usize, usize)>,
) -> (complete: bool)
    requires
        old(spans)@.len() <= MAX_PROTECTED_SPANS,
        from <= to <= chars@.len(),
    ensures
        added(old(spans)@, final(spans)@, places_of(chars@, c, from as int, to as int), complete),
{
    let ghost base = span_numbers(spans@);
    let ghost all = places_of(chars@, c, from as int, to as int);
    let mut i: usize = from;
    while i < to
        invariant
            from <= i <= to <= chars@.len(),
            spans@.len() <= MAX_PROTECTED_SPANS,
            base == span_numbers(old(spans)@),
            all == places_of(chars@, c, from as int, to as int),
            span_numbers(spans@) + places_of(chars@, c, i as int, to as int) == base + all,
        decreases to - i,
    {
        let ghost rest = places_of(chars@, c, i + 1, to as int);
        if chars[i] == c {
            let ghost before = span_numbers(spans@);
            if !push_protected_span(spans, i, i + 1) {
                assert((base + all).len() == before.len() + 1 + rest.len());
                assert(span_numbers(old(spans)@).len() == old(spans)@.len());
                return false;
            }
            assert(span_numbers(spans@) + rest =~= before + (seq![(i as int, i + 1)] + rest));
        }
        i += 1;
    }
    assert(span_numbers(spans@) + places_of(chars@, c, i as int, to as int) =~= span_numbers(
        spans@,
    ));
    true
}

/// Whether a character stands at one of the places `from..to`.
fn range_has_char(chars: &[char], c: char, from: usize, to: usize) -> (result: bool)
    requires
        from <= to <= chars@.len(),
    ensures
        result == exists|k: int| from <= k < to && #[trigger] chars@[k] == c,
{
    let mut i: usize = from;
    while i < to
        invariant
            from <= i <= to <= chars@.len(),
            forall|k: int| from <= k < i ==> #[trigger] chars@[k] != c,
        decreases to - i,
    {
        if chars[i] == c {
            return true;
        }
        i += 1;
    }
    false
}

fn protect_explicit_character_designations(
    chars: &[char],
    spans: &mut Vec<(usize, usize)>,
) -> (complete: bool)
    requires
        old(spans)@.len() <= MAX_PROTECTED_SPANS,
    ensures
        added(old(spans)@, final(spans)@, designation_spans(chars@, 0), complete),
{
    let ghost base = span_numbers(spans@);
    let ghost all = designation_spans(chars@, 0);
    let mut at: usize = 0;
    while at < chars.len()
        invariant
            at <= chars@.len(),
            spans@.len() <= MAX_PROTECTED_SPANS,
            base == span_numbers(old(spans)@),
            all == designation_spans(chars@, 0),
            span_numbers(spans@) + designation_spans(chars@, at as int) == base + all,
        decreases chars@.len() - at,
    {
        let ghost rest = designation_spans(chars@, at + 1);
        if chars[at] == '的' && chars.len() - at > 1 && is_han(chars[at + 1]) && (chars.len() - at
            == 2 || is_designation_boundary(chars[at + 2])) {
            let target = chars[at + 1];
            let mut start: usize = at;
            while start > 0 && !is_designation_boundary(chars[start - 1])
                invariant
                    start <= at < chars@.len(),
                    clause_start(chars@, start as int) == clause_start(chars@, at as int),
                decreases start,
            {
                start -= 1;
            }
            if range_has_char(chars, target, start, at) {
                assert(designates(chars@, at as int));
                let ghost before = span_numbers(spans@);
                let ghost places = places_of(chars@, target, start as int, at as int);
                let ghost last = seq![(at + 1, at + 2)];
                assert(designation_spans(chars@, at as int) == places + (last + rest));
                if !protect_places(chars, target, start, at, spans) {
                    assert((base + all).len() == before.len() + places.len() + 1 + rest.len());
                    assert(span_numbers(old(spans)@).len() == old(spans)@.len());
                    return false;
                }
                if !push_protected_span(spans, at + 1, at + 2) {
                    assert(spans@.len() == span_numbers(spans@).len());
                    assert((base + all).len() == before.len() + places.len() + 1 + rest.len());
                    assert(span_numbers(old(spans)@).len() == old(spans)@.len());
                    return false;
                }
                assert(span_numbers(spans@) + rest =~= before + (places + (last + rest)));
            } else {
                assert(!designates(chars@, at as int));
            }
        } else {
            assert(!designates(chars@, at as int));
        }
        at += 1;
    }
    assert(span_numbers(spans@) + designation_spans(chars@, at as int) =~= span_numbers(spans@));
    true
}

/// Finds all parts of a text that are left as they are; nothing where there
/// are too many.
pub fn collect_protected_spans(chars: &[char]) -> (spans: Option<Vec<(usize, usize)>>)
    ensures
        match spans {
            Some(spans) => span_numbers(spans@) == protected_spans(chars@)
                && protected_spans(chars@).len() <= MAX_PROTECTED_SPANS,
            None => protected_spans(chars@).len() > MAX_PROTECTED_SPANS,
        },
{
    let mut spans: Vec<(usize, usize)> = Vec::new();
    let ghost code = code_spans(chars@, 0);
    let ghost quotes = all_quote_spans(chars@, quote_pairs().len());
    let ghost urls = all_url_spans(chars@);
    let ghost emails = email_spans(chars@, 0);
    let ghost facts = all_fact_spans(chars@, fact_labels().len());
    let ghost designations = designation_spans(chars@, 0);
    assert(span_numbers(spans@) =~= Seq::<(int, int)>::empty());
    assert(protected_spans(chars@).len() == code.len() + quotes.len() + urls.len() + emails.len()
        + facts.len() + designations.len());
    if !protect_inline_code(chars, &mut spans) {
        return None;
    }
    assert(spans@.len() == span_numbers(spans@).len());
    if !protect_quoted_text(chars, &mut spans) {
        return None;
    }
    assert(spans@.len() == span_numbers(spans@).len());
    if !protect_urls(chars, &mut spans) {
        return None;
    }
    assert(spans@.len() == span_numbers(spans@).len());
    if !protect_emails(chars, &mut spans) {
        return None;
    }
    assert(spans@.len() == span_numbers(spans@).len());
    if !protect_fact_values(chars, &mut spans) {
        return None;
    }
    assert(spans@.len() == span_numbers(spans@).len());
    if !protect_explicit_character_designations(chars, &mut spans) {
        return None;
    }
    assert(spans@.len() == span_numbers(spans@).len());
    assert(span_numbers(spans@) =~= protected_spans(chars@));
    Some(spans)
}

// ---------------------------------------------------------------------------
// Segments
// ---------------------------------------------------------------------------

/// A run of a text, and whether it is converted.
#[derive(Clone, Copy, Debug, PartialEq, Eq, Structural)]
pub struct Segment {
    pub start: usize,
    pub end: usize,
    pub convert: bool,
}

/// The end of the run from `from` on whose places are all left as they are,
/// or all not.
pub open spec fn run_end(text: Seq<char>, from: int, protected: bool) -> int
    decreases text.len() - from,
{
    if 0 <= from < text.len() && is_protected(text, from) == protected {
        run_end(text, from + 1, protected)
    } else {
        from
    }
}

/// The runs of a text from `from` on. A run is converted where it is not left
/// as it is and holds a Han character.
pub open spec fn segments_of(text: Seq<char>, from: int) -> Seq<(int, int, bool)>
    decreases text.len() - from,
{
    if from < 0 || from >= text.len() {
        Seq::empty()
    } else {
        let protected = is_protected(text, from);
        let end = run_end(text, from, protected);
        if end <= from || end > text.len() {
            Seq::empty()
        } else {
            seq![(from, end, !protected && has_han(text.subrange(from, end)))] + segments_of(
                text,
                end,
            )
        }
    }
}

pub open spec fn segment_numbers(segments: Seq<Segment>) -> Seq<(int, int, bool)> {
    Seq::new(
        segments.len(),
        |k: int| (segments[k].start as int, segments[k].end as int, segments[k].convert),
    )
}

/// Which places of a text lie in one of the parts.
fn protection_mask(length: usize, spans: &Vec<(usize, usize)>) -> (mask: Vec<bool>)
    ensures
        mask@.len() == length,
        forall|i: int| 0 <= i < length ==> #[trigger] mask@[i] == covers(span_numbers(spans@), i),
{
    let mut mask: Vec<bool> = vec![false; length];
    let ghost all = span_numbers(spans@);
    let mut k: usize = 0;
    while k < spans.len()
        invariant
            k <= spans@.len(),
            all == span_numbers(spans@),
            mask@.len() == length,
            forall|i: int|
                0 <= i < length ==> #[trigger] mask@[i] == covers(all.take(k as int), i),
        decreases spans@.len() - k,
    {
        let span = spans[k];
        let ghost before = mask@;
        let mut i: usize = span.0;
        while i < span.1 && i < length
            invariant
                span.0 <= i,
                mask@.len() == length,
                before.len() == length,
                forall|j: int|
                    0 <= j < length ==> #[trigger] mask@[j] == (before[j] || span.0 <= j < i && j
                        < span.1),
            decreases length - i,
        {
            mask.set(i, true);
            i += 1;
        }
        proof {
            let seen = all.take(k as int);
            let now = all.take(k + 1);
            assert(now == seen.push((span.0 as int, span.1 as int)));
            assert forall|j: int| 0 <= j < length implies #[trigger] mask@[j] == covers(
                now,
                j,
            ) by {
                assert(before[j] == covers(seen, j));
                if covers(seen, j) {
                    let x = choose|x: int|
                        0 <= x < seen.len() && (#[trigger] seen[x]).0 <= j < seen[x].1;
                    assert(now[x].0 <= j < now[x].1);
                }
                if span.0 <= j < span.1 {
                    assert(now[k as int].0 <= j < now[k as int].1);
                }
                if covers(now, j) {
                    let x = choose|x: int|
                        0 <= x < now.len() && (#[trigger] now[x]).0 <= j < now[x].1;
                    if x < k {
                        assert(seen[x].0 <= j < seen[x].1);
                    }
                }
            }
        }
        k += 1;
    }
    assert(all.take(k as int) == all);
    mask
}

/// Divides a text into runs that are left as they are and runs that are
/// converted; nothing where there are too many parts that are left.
pub fn plan_segments(chars: &[char]) -> (plan: Option<Vec<Segment>>)
    ensures
        match plan {
            Some(segments) => segment_numbers(segments@) == segments_of(chars@, 0)
                && protected_spans(chars@).len() <= MAX_PROTECTED_SPANS,
            None => protected_spans(chars@).len() > MAX_PROTECTED_SPANS,
        },
{
    let spans = match collect_protected_spans(chars) {
        Some(spans) => spans,
        None => {
            return None;
        },
    };
    let mask = protection_mask(chars.len(), &spans);
    let mut segments: Vec<Segment> = Vec::new();
    let mut from: usize = 0;
    assert(segment_numbers(segments@) + segments_of(chars@, 0) =~= segments_of(chars@, 0));
    while from < chars.len()
        invariant
            from <= chars@.len(),
            mask@.len() == chars@.len(),
            forall|i: int| 0 <= i < chars@.len() ==> #[trigger] mask@[i] == is_protected(chars@, i),
            segment_numbers(segments@) + segments_of(chars@, from as int) == segments_of(chars@, 0),
        decreases chars@.len() - from,
    {
        let protected: bool = mask[from];
        let mut end: usize = from + 1;
        assert(run_end(chars@, from as int, protected) == run_end(chars@, from + 1, protected));
        while end < chars.len() && mask[end] == protected
            invariant
                from < end <= chars@.len(),
                mask@.len() == chars@.len(),
                forall|i: int|
                    0 <= i < chars@.len() ==> #[trigger] mask@[i] == is_protected(chars@, i),
                run_end(chars@, end as int, protected) == run_end(chars@, from as int, protected),
            decreases chars@.len() - end,
        {
            end += 1;
        }
        let convert: bool = !protected && range_has_han(chars, from, end);
        let ghost before = segment_numbers(segments@);
        let ghost rest = segments_of(chars@, end as int);
        segments.push(Segment { start: from, end, convert });
        assert(segment_numbers(segments@) =~= before.push((from as int, end as int, convert)));
        assert(segments_of(chars@, from as int) == seq![(from as int, end as int, convert)] + rest);
        assert(segment_numbers(segments@) + rest =~= before + (seq![
            (from as int, end as int, convert),
        ] + rest));
        from = end;
    }
    assert(segment_numbers(segments@) + segments_of(chars@, from as int) =~= segment_numbers(
        segments@,
    ));
    Some(segments)
}

/// How many of the first `n` runs are converted.
pub open spec fn converted_count(segments: Seq<(int, int, bool)>, n: nat) -> nat
    decreases n,
{
    if n == 0 {
        0
    } else {
        converted_count(segments, (n - 1) as nat) + if segments[n - 1].2 {
            1nat
        } else {
            0
        }
    }
}

/// The first `n` runs put together, with the given texts in place of the runs
/// that are converted.
pub open spec fn assembled(
    text: Seq<char>,
    segments: Seq<(int, int, bool)>,
    converted: Seq<Seq<char>>,
    n: nat,
) -> Seq<char>
    decreases n,
{
    if n == 0 {
        Seq::empty()
    } else {
        let before = assembled(text, segments, converted, (n - 1) as nat);
        let segment = segments[n - 1];
        if segment.2 {
            before + converted[converted_count(segments, (n - 1) as nat) as int]
        } else {
            before + text.subrange(segment.0, segment.1)
        }
    }
}

pub open spec fn segments_within(segments: Seq<(int, int, bool)>, length: nat) -> bool {
    forall|k: int|
        0 <= k < segments.len() ==> 0 <= (#[trigger] segments[k]).0 <= segments[k].1 <= length
}

proof fn lemma_converted_count(segments: Seq<(int, int, bool)>, n: nat, m: nat)
    requires
        n <= m,
    ensures
        converted_count(segments, n) <= converted_count(segments, m),
        converted_count(segments, n) <= n,
    decreases m - n, n,
{
    if n < m {
        lemma_converted_count(segments, n, (m - 1) as nat);
    } else if n > 0 {
        lemma_converted_count(segments, (n - 1) as nat, (n - 1) as nat);
    }
}

/// Puts the runs of a text together, with the given texts in place of the
/// runs that are converted.
pub fn assemble_segments(chars: &[char], segments: &Vec<Segment>, converted: &Vec<String>) -> (text:
    String)
    requires
        segments_within(segment_numbers(segments@), chars@.len()),
        converted_count(segment_numbers(segments@), segments@.len()) == converted@.len(),
    ensures
        text@ == assembled(
            chars@,
            segment_numbers(segments@),
            texts(converted@),
            segments@.len(),
        ),
{
    let ghost numbers = segment_numbers(segments@);
    let mut text = String::new();
    let mut next: usize = 0;
    let mut k: usize = 0;
    while k < segments.len()
        invariant
            k <= segments@.len(),
            numbers == segment_numbers(segments@),
            segments_within(numbers, chars@.len()),
            converted_count(numbers, segments@.len()) == converted@.len(),
            next == converted_count(numbers, k as nat),
            text@ == assembled(chars@, numbers, texts(converted@), k as nat),
        decreases segments@.len() - k,
    {
        let segment = segments[k];
        assert(numbers[k as int] == (segment.start as int, segment.end as int, segment.convert));
        proof {
            lemma_converted_count(numbers, (k + 1) as nat, segments@.len());
        }
        if segment.convert {
            assert(texts(converted@)[next as int] == converted@[next as int]@);
            text.append(converted[next].as_str());
            next += 1;
        } else {
            crate::text::append_range(&mut text, chars, segment.start, segment.end);
        }
        k += 1;
    }
    text
}

// ---------------------------------------------------------------------------
// Conversion
// ---------------------------------------------------------------------------

/// The type of the converters of the crate `opencc_fmmseg`.
#[verifier::external_type_specification]
#[verifier::external_body]
pub struct ExOpenCC(OpenCC);

/// A converter is as `OpenCC::new` makes it, whether or not it divides its
/// work among threads.
pub uninterp spec fn is_as_new(converter: OpenCC) -> bool;

/// What a converter that is as new makes of a text in traditional characters.
pub uninterp spec fn t2s_of(text: Seq<char>, punctuation: bool) -> Seq<char>;

/// `OpenCC::new`: a converter with the dictionaries that the crate carries in
/// its own code, the same each time.
pub assume_specification[ OpenCC::new ]() -> (converter: OpenCC)
    ensures
        is_as_new(converter),
;

/// `OpenCC::set_parallel`: whether long texts are divided among threads.
/// Nothing else of the converter changes.
pub assume_specification[ OpenCC::set_parallel ](converter: &mut OpenCC, is_parallel: bool)
    ensures
        is_as_new(*final(converter)) == is_as_new(*old(converter)),
;

/// `OpenCC::t2s`: of a converter that is as new, a function of the text and of
/// whether signs are converted too. The parts that threads convert are put
/// together in their order.
pub assume_specification[ OpenCC::t2s ](
    converter: &OpenCC,
    input: &str,
    punctuation: bool,
) -> (output: String)
    ensures
        is_as_new(*converter) ==> output@ == t2s_of(input@, punctuation),
;

/// `OpenCC::clear_last_error`: forgets the last error of the process.
pub assume_specification[ OpenCC::clear_last_error ]()
;

/// `OpenCC::get_last_error`: the last error of the process, of which nothing
/// can be said.
pub assume_specification[ OpenCC::get_last_error ]() -> (error: Option<String>)
;

/// Why a text is not converted.
#[derive(Debug)]
pub enum ChineseError {
    /// The converter could not be made; the words are the converter's.
    Unavailable(String),
    /// The text has too many parts that are left as they are.
    TooManySpans,
    /// The converter failed; the words are the converter's.
    Failed(String),
    /// The converter made nothing of a run that is not empty.
    EmptySegment,
}

impl ChineseError {
    pub open spec fn text(&self) -> Seq<char> {
        match self {
            ChineseError::Unavailable(error) => "无法初始化内置 OpenCC t2s 词典："@ + error@,
            ChineseError::TooManySpans => "受保护事实片段超过上限 4096"@,
            ChineseError::Failed(error) => "OpenCC t2s 转换失败："@ + error@,
            ChineseError::EmptySegment => "OpenCC t2s 返回了异常空片段"@,
        }
    }

    /// The error in words.
    pub fn message(&self) -> (text: String)
        ensures
            text@ == self.text(),
    {
        match self {
            ChineseError::Unavailable(error) => {
                let mut text = "无法初始化内置 OpenCC t2s 词典：".to_owned();
                text.append(error.as_str());
                text
            },
            ChineseError::TooManySpans => "受保护事实片段超过上限 4096".to_owned(),
            ChineseError::Failed(error) => {
                let mut text = "OpenCC t2s 转换失败：".to_owned();
                text.append(error.as_str());
                text
            },
            ChineseError::EmptySegment => "OpenCC t2s 返回了异常空片段".to_owned(),
        }
    }
}

/// What the error of the process says of a converter that was just made: where
/// there is one, the converter is not taken.
pub fn judge_converter(error: Option<String>) -> (result: Result<(), ChineseError>)
    ensures
        match error {
            Some(words) => result matches Err(ChineseError::Unavailable(kept)) && kept@ == words@,
            None => result is Ok,
        },
{
    match error {
        Some(words) => Err(ChineseError::Unavailable(words)),
        None => Ok(()),
    }
}

/// What is taken of a run that was just converted: nothing where the process
/// has an error or nothing is left of the run, and else what it became.
pub fn judge_run(converted: String, error: Option<String>) -> (result: Result<String, ChineseError>)
    ensures
        match error {
            Some(words) => result matches Err(ChineseError::Failed(kept)) && kept@ == words@,
            None => if converted@.len() == 0 {
                result matches Err(ChineseError::EmptySegment)
            } else {
                result matches Ok(kept) && kept@ == converted@
            },
        },
{
    if let Some(words) = error {
        return Err(ChineseError::Failed(words));
    }
    if converted.as_str().is_empty() {
        return Err(ChineseError::EmptySegment);
    }
    Ok(converted)
}

/// A converter to simplified characters. Whether there is one is up to the
/// outside code.
pub fn t2s_converter() -> (result: Result<OpenCC, ChineseError>)
    ensures
        match result {
            Ok(converter) => is_as_new(converter),
            Err(error) => error is Unavailable,
        },
{
    OpenCC::clear_last_error();
    let mut converter = OpenCC::new();
    converter.set_parallel(false);
    match judge_converter(OpenCC::get_last_error()) {
        Ok(_) => Ok(converter),
        Err(error) => Err(error),
    }
}

/// Whether the converter can be made.
pub fn ensure_simplified_converter() -> (result: Result<(), ChineseError>)
    ensures
        result matches Err(error) ==> error is Unavailable,
{
    match t2s_converter() {
        Ok(_) => Ok(()),
        Err(error) => Err(error),
    }
}

/// What becomes of the runs that are converted, among the first `n` runs.
pub open spec fn conversions(text: Seq<char>, segments: Seq<(int, int, bool)>, n: nat) -> Seq<
    Seq<char>,
>
    decreases n,
{
    if n == 0 {
        Seq::empty()
    } else {
        let before = conversions(text, segments, (n - 1) as nat);
        let segment = segments[n - 1];
        if segment.2 {
            before.push(t2s_of(text.subrange(segment.0, segment.1), false))
        } else {
            before
        }
    }
}

/// A text with its runs that are not left as they are in simplified
/// characters.
pub open spec fn projected(text: Seq<char>) -> Seq<char> {
    let segments = segments_of(text, 0);
    assembled(text, segments, conversions(text, segments, segments.len()), segments.len())
}

/// A run is converted, and nothing is left of it.
pub open spec fn run_vanishes(text: Seq<char>, segment: (int, int, bool)) -> bool {
    segment.2 && t2s_of(text.subrange(segment.0, segment.1), false).len() == 0
}

/// The converter makes nothing of a run of a text.
pub open spec fn has_vanishing_run(text: Seq<char>) -> bool {
    let segments = segments_of(text, 0);
    exists|k: int| 0 <= k < segments.len() && run_vanishes(text, #[trigger] segments[k])
}

/// A text that is never converted: without Han characters, or with kana.
pub open spec fn is_kept_whole(text: Seq<char>) -> bool {
    !has_han(text) || has_kana(text)
}

fn convert_run(converter: &OpenCC, text: &str) -> (result: Result<String, ChineseError>)
    requires
        is_as_new(*converter),
    ensures
        match result {
            Ok(converted) => converted@ == t2s_of(text@, false) && converted@.len() > 0,
            Err(error) => error is Failed || (error is EmptySegment && t2s_of(text@, false).len()
                == 0),
        },
{
    OpenCC::clear_last_error();
    let converted = converter.t2s(text, false);
    judge_run(converted, OpenCC::get_last_error())
}

proof fn lemma_segments_within(text: Seq<char>, from: int)
    requires
        0 <= from,
    ensures
        segments_within(segments_of(text, from), text.len()),
    decreases text.len() - from,
{
    if from < text.len() {
        let protected = is_protected(text, from);
        let end = run_end(text, from, protected);
        if from < end <= text.len() {
            lemma_segments_within(text, end);
            let rest = segments_of(text, end);
            let all = segments_of(text, from);
            assert forall|k: int| 0 <= k < all.len() implies 0 <= (#[trigger] all[k]).0 <= all[k].1
                <= text.len() by {
                if k > 0 {
                    assert(all[k] == rest[k - 1]);
                }
            }
        }
    }
}

/// The parts of a text that are not left as they are in simplified
/// characters, by the given converter. A text without Han characters or with
/// kana is returned as it is.
pub fn normalize_with(converter: &OpenCC, text: &str) -> (result: Result<String, ChineseError>)
    requires
        is_as_new(*converter),
    ensures
        is_kept_whole(text@) ==> (result matches Ok(same) && same@ == text@),
        !is_kept_whole(text@) ==> match result {
            Ok(converted) => protected_spans(text@).len() <= MAX_PROTECTED_SPANS
                && !has_vanishing_run(text@) && converted@ == projected(text@),
            Err(error) => match error {
                ChineseError::TooManySpans => protected_spans(text@).len() > MAX_PROTECTED_SPANS,
                ChineseError::Unavailable(_) => false,
                ChineseError::Failed(_) => protected_spans(text@).len() <= MAX_PROTECTED_SPANS,
                ChineseError::EmptySegment => protected_spans(text@).len() <= MAX_PROTECTED_SPANS
                    && has_vanishing_run(text@),
            },
        },
{
    let chars = chars_of(text);
    assert(chars@.subrange(0, chars@.len() as int) == text@);
    if !range_has_han(chars.as_slice(), 0, chars.len()) || any_kana(chars.as_slice()) {
        return Ok(text.to_owned());
    }
    let segments = match plan_segments(chars.as_slice()) {
        Some(segments) => segments,
        None => {
            return Err(ChineseError::TooManySpans);
        },
    };
    let ghost numbers = segment_numbers(segments@);
    proof {
        lemma_segments_within(text@, 0);
        assert(numbers.len() == segments@.len());
    }
    let mut converted: Vec<String> = Vec::new();
    let mut k: usize = 0;
    assert(texts(converted@) =~= Seq::<Seq<char>>::empty());
    while k < segments.len()
        invariant
            k <= segments@.len(),
            chars@ == text@,
            numbers == segment_numbers(segments@),
            numbers == segments_of(text@, 0),
            protected_spans(text@).len() <= MAX_PROTECTED_SPANS,
            !is_kept_whole(text@),
            segments_within(numbers, text@.len()),
            is_as_new(*converter),
            converted@.len() == converted_count(numbers, k as nat),
            texts(converted@) == conversions(text@, numbers, k as nat),
            forall|j: int| 0 <= j < k ==> !run_vanishes(text@, #[trigger] numbers[j]),
        decreases segments@.len() - k,
    {
        let segment = segments[k];
        assert(numbers[k as int] == (segment.start as int, segment.end as int, segment.convert));
        if segment.convert {
            let run = string_of_range(chars.as_slice(), segment.start, segment.end);
            assert(run@ == text@.subrange(segment.start as int, segment.end as int));
            match convert_run(converter, run.as_str()) {
                Ok(piece) => {
                    let ghost before = texts(converted@);
                    converted.push(piece);
                    assert(texts(converted@) =~= before.push(piece@));
                },
                Err(error) => {
                    assert(error is EmptySegment ==> run_vanishes(text@, numbers[k as int]));
                    return Err(error);
                },
            }
        }
        k += 1;
    }
    Ok(assemble_segments(chars.as_slice(), &segments, &converted))
}

/// A text in simplified characters for display. A text without Han characters
/// or with kana is returned as it is.
pub fn normalize_to_simplified(text: &str) -> (result: Result<String, ChineseError>)
    ensures
        is_kept_whole(text@) ==> (result matches Ok(same) && same@ == text@),
        !is_kept_whole(text@) ==> match result {
            Ok(converted) => protected_spans(text@).len() <= MAX_PROTECTED_SPANS
                && !has_vanishing_run(text@) && converted@ == projected(text@),
            Err(error) => match error {
                ChineseError::TooManySpans => protected_spans(text@).len() > MAX_PROTECTED_SPANS,
                ChineseError::EmptySegment => protected_spans(text@).len() <= MAX_PROTECTED_SPANS
                    && has_vanishing_run(text@),
                _ => protected_spans(text@).len() <= MAX_PROTECTED_SPANS,
            },
        },
{
    let chars = chars_of(text);
    assert(chars@.subrange(0, chars@.len() as int) == text@);
    if !range_has_han(chars.as_slice(), 0, chars.len()) || any_kana(chars.as_slice()) {
        return Ok(text.to_owned());
    }
    if collect_protected_spans(chars.as_slice()).is_none() {
        return Err(ChineseError::TooManySpans);
    }
    match t2s_converter() {
        Ok(converter) => normalize_with(&converter, text),
        Err(error) => Err(error),
    }
}

// ---------------------------------------------------------------------------
// What holds of every conversion
// ---------------------------------------------------------------------------

/// The runs of a text from `from` on put together are the text from `from`
/// on, where every run that is converted stays as it is.
proof fn lemma_segments_cover(text: Seq<char>, from: int)
    requires
        0 <= from <= text.len(),
    ensures
        plain_runs(text, segments_of(text, from), segments_of(text, from).len()) == text.skip(from),
    decreases text.len() - from,
{
    if from < text.len() {
        let protected = is_protected(text, from);
        lemma_run_end(text, from, protected);
        let end = run_end(text, from, protected);
        lemma_segments_cover(text, end);
        let first = (from, end, !protected && has_han(text.subrange(from, end)));
        let rest = segments_of(text, end);
        lemma_plain_runs_first(text, first, rest, rest.len());
        assert(text.subrange(from, end) + text.skip(end) =~= text.skip(from));
    } else {
        assert(text.skip(from) =~= Seq::<char>::empty());
    }
}

/// The first `n` runs as they stand in the text.
pub open spec fn plain_runs(text: Seq<char>, segments: Seq<(int, int, bool)>, n: nat) -> Seq<char>
    decreases n,
{
    if n == 0 {
        Seq::empty()
    } else {
        plain_runs(text, segments, (n - 1) as nat) + text.subrange(
            segments[n - 1].0,
            segments[n - 1].1,
        )
    }
}

proof fn lemma_plain_runs_first(
    text: Seq<char>,
    first: (int, int, bool),
    rest: Seq<(int, int, bool)>,
    n: nat,
)
    requires
        n <= rest.len(),
    ensures
        plain_runs(text, seq![first] + rest, n + 1) == text.subrange(first.0, first.1)
            + plain_runs(text, rest, n),
    decreases n,
{
    let all = seq![first] + rest;
    if n == 0 {
        assert(plain_runs(text, all, 1) == plain_runs(text, all, 0) + text.subrange(
            first.0,
            first.1,
        ));
        assert(plain_runs(text, all, 1) =~= text.subrange(first.0, first.1) + plain_runs(
            text,
            rest,
            0,
        ));
    } else {
        lemma_plain_runs_first(text, first, rest, (n - 1) as nat);
        assert(all[n as int] == rest[n - 1]);
        assert(plain_runs(text, all, n + 1) =~= text.subrange(first.0, first.1) + plain_runs(
            text,
            rest,
            n,
        ));
    }
}

proof fn lemma_run_end(text: Seq<char>, from: int, protected: bool)
    requires
        0 <= from < text.len(),
        is_protected(text, from) == protected,
    ensures
        from < run_end(text, from, protected) <= text.len(),
        forall|k: int|
            from <= k < run_end(text, from, protected) ==> #[trigger] is_protected(text, k)
                == protected,
    decreases text.len() - from,
{
    if from + 1 < text.len() && is_protected(text, from + 1) == protected {
        lemma_run_end(text, from + 1, protected);
    } else {
        assert(run_end(text, from + 1, protected) == from + 1);
    }
    assert forall|k: int| from <= k < run_end(text, from, protected) implies #[trigger] is_protected(
        text,
        k,
    ) == protected by {
        if k > from {
            assert(run_end(text, from, protected) == run_end(text, from + 1, protected));
        }
    }
}

/// The runs of a text, put together as they stand, are the text: no character
/// is lost between them and none stands in two of them.
pub proof fn lemma_segments_partition(text: Seq<char>)
    ensures
        plain_runs(text, segments_of(text, 0), segments_of(text, 0).len()) == text,
{
    lemma_segments_cover(text, 0);
    assert(text.skip(0) == text);
}

/// A run that is converted holds no place that is left as it is, and a run
/// that holds such a place stands in the result as it stands in the text.
pub proof fn lemma_protected_runs_kept(text: Seq<char>, k: int, place: int)
    requires
        0 <= k < segments_of(text, 0).len(),
        segments_of(text, 0)[k].0 <= place < segments_of(text, 0)[k].1,
        is_protected(text, place),
    ensures
        !segments_of(text, 0)[k].2,
{
    lemma_converted_runs(text, 0, k, place);
}

proof fn lemma_converted_runs(text: Seq<char>, from: int, k: int, place: int)
    requires
        0 <= from,
        0 <= k < segments_of(text, from).len(),
        segments_of(text, from)[k].0 <= place < segments_of(text, from)[k].1,
        is_protected(text, place),
    ensures
        !segments_of(text, from)[k].2,
    decreases text.len() - from,
{
    let protected = is_protected(text, from);
    lemma_run_end(text, from, protected);
    let end = run_end(text, from, protected);
    if k > 0 {
        assert(segments_of(text, from)[k] == segments_of(text, end)[k - 1]);
        lemma_converted_runs(text, end, k - 1, place);
    }
}

} // verus!
