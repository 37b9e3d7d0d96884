//! What of a text keeps its characters when it is shown in simplified ones.
use vstd::prelude::*;
use crate::chinese::{
    all_fact_spans, all_quote_spans, all_url_spans, assembled, backtick_run_end, closing_run_end,
    code_spans, conversions, covers, designation_spans, email_end, email_spans, email_start,
    fact_labels, is_protected, projected, quote_pairs, quote_spans, run_end, segments_of, url_end,
    url_spans,
};
use crate::text::{
    contains_text, is_ascii_alphanumeric_char, is_white_space, lemma_position_of, occurs_at,
    position_of,
};

verus! {

// ---------------------------------------------------------------------------
// From the places to the text that is shown
// ---------------------------------------------------------------------------

pub(crate) proof fn lemma_run(text: Seq<char>, from: int, protected: bool)
    requires
        0 <= from <= text.len(),
    ensures
        from <= run_end(text, from, protected) <= text.len(),
        forall|p: int|
            from <= p < run_end(text, from, protected) ==> #[trigger] is_protected(text, p)
                == protected,
        run_end(text, from, protected) < text.len() ==> is_protected(
            text,
            run_end(text, from, protected),
        ) != protected,
    decreases text.len() - from,
{
    if from < text.len() && is_protected(text, from) == protected {
        lemma_run(text, from + 1, protected);
    }
}

/// All places of a stretch are left as they are.
pub open spec fn is_left(text: Seq<char>, start: int, end: int) -> bool {
    forall|p: int| start <= p < end ==> #[trigger] is_protected(text, p)
}

proof fn lemma_in_one_run(text: Seq<char>, from: int, start: int, end: int) -> (k: int)
    requires
        0 <= from <= start < end <= text.len(),
        is_left(text, start, end),
    ensures
        0 <= k < segments_of(text, from).len(),
        segments_of(text, from)[k].0 <= start,
        end <= segments_of(text, from)[k].1 <= text.len(),
        0 <= segments_of(text, from)[k].0,
        !segments_of(text, from)[k].2,
    decreases text.len() - from,
{
    let protected = is_protected(text, from);
    let stop = run_end(text, from, protected);
    lemma_run(text, from, protected);
    assert(stop > from) by {
        assert(run_end(text, from, protected) == run_end(text, from + 1, protected));
        lemma_run(text, from + 1, protected);
    }
    if start < stop {
        assert(is_protected(text, start));
        assert(protected);
        if stop < end {
            assert(is_protected(text, stop));
        }
        0
    } else {
        let k = lemma_in_one_run(text, stop, start, end);
        assert(segments_of(text, from)[k + 1] == segments_of(text, stop)[k]);
        k + 1
    }
}

proof fn lemma_assembled_holds(
    text: Seq<char>,
    segments: Seq<(int, int, bool)>,
    converted: Seq<Seq<char>>,
    k: int,
    start: int,
    end: int,
    n: nat,
)
    requires
        0 <= k < n <= segments.len(),
        0 <= segments[k].0 <= start <= end <= segments[k].1 <= text.len(),
        !segments[k].2,
    ensures
        contains_text(assembled(text, segments, converted, n), text.subrange(start, end)),
    decreases n,
{
    let before = assembled(text, segments, converted, (n - 1) as nat);
    let now = assembled(text, segments, converted, n);
    let part = text.subrange(start, end);
    if k == n - 1 {
        let at = before.len() + (start - segments[k].0);
        assert(now.subrange(at, at + part.len()) =~= part);
        assert(occurs_at(now, at, part));
    } else {
        lemma_assembled_holds(text, segments, converted, k, start, end, (n - 1) as nat);
        let at = choose|at: int| #[trigger] occurs_at(before, at, part);
        assert(now.subrange(at, at + part.len()) =~= before.subrange(at, at + part.len()));
        assert(occurs_at(now, at, part));
    }
}

/// A stretch whose places are left as they are stands unchanged in the text
/// that is shown.
pub proof fn lemma_left_is_shown(text: Seq<char>, start: int, end: int)
    requires
        0 <= start < end <= text.len(),
        is_left(text, start, end),
    ensures
        contains_text(projected(text), text.subrange(start, end)),
{
    let segments = segments_of(text, 0);
    let k = lemma_in_one_run(text, 0, start, end);
    lemma_assembled_holds(
        text,
        segments,
        conversions(text, segments, segments.len()),
        k,
        start,
        end,
        segments.len(),
    );
}

pub(crate) proof fn lemma_covers_either(left: Seq<(int, int)>, right: Seq<(int, int)>, p: int)
    ensures
        covers(left, p) ==> covers(left + right, p),
        covers(right, p) ==> covers(left + right, p),
        covers(left + right, p) ==> covers(left, p) || covers(right, p),
{
    let whole = left + right;
    if covers(left, p) {
        let k = choose|k: int| 0 <= k < left.len() && (#[trigger] left[k]).0 <= p < left[k].1;
        assert(whole[k] == left[k]);
    }
    if covers(right, p) {
        let k = choose|k: int| 0 <= k < right.len() && (#[trigger] right[k]).0 <= p < right[k].1;
        assert(whole[left.len() + k] == right[k]);
    }
    if covers(whole, p) {
        let k = choose|k: int| 0 <= k < whole.len() && (#[trigger] whole[k]).0 <= p < whole[k].1;
        if k < left.len() {
            assert(left[k] == whole[k]);
        } else {
            assert(right[k - left.len()] == whole[k]);
        }
    }
}

pub(crate) proof fn lemma_protected_by(text: Seq<char>, p: int)
    ensures
        is_protected(text, p) <==> covers(code_spans(text, 0), p) || covers(
            all_quote_spans(text, quote_pairs().len()),
            p,
        ) || covers(all_url_spans(text), p) || covers(email_spans(text, 0), p) || covers(
            all_fact_spans(text, fact_labels().len()),
            p,
        ) || covers(designation_spans(text, 0), p),
{
    let a = code_spans(text, 0);
    let b = all_quote_spans(text, quote_pairs().len());
    let c = all_url_spans(text);
    let d = email_spans(text, 0);
    let e = all_fact_spans(text, fact_labels().len());
    let f = designation_spans(text, 0);
    lemma_covers_either(a, b, p);
    lemma_covers_either(a + b, c, p);
    lemma_covers_either(a + b + c, d, p);
    lemma_covers_either(a + b + c + d, e, p);
    lemma_covers_either(a + b + c + d + e, f, p);
}

proof fn lemma_first_of(text: Seq<char>, c: char, from: int, bound: int)
    requires
        0 <= from <= bound < text.len(),
        text[bound] == c,
    ensures
        from <= position_of(text, c, from) <= bound,
        text[position_of(text, c, from)] == c,
        forall|k: int| from <= k < position_of(text, c, from) ==> #[trigger] text[k] != c,
    decreases bound - from,
{
    if text[from] != c {
        lemma_first_of(text, c, from + 1, bound);
    }
}

// ---------------------------------------------------------------------------
// Quotes
// ---------------------------------------------------------------------------

/// Between the places stands what a pair of quotes that opens and closes with
/// different marks holds: the first closing mark behind an opening one, where
/// every opening mark before is closed before.
pub open spec fn is_quoted(text: Seq<char>, opening: char, closing: char, a: int, b: int) -> bool {
    &&& 0 <= a < b < text.len()
    &&& text[a] == opening
    &&& text[b] == closing
    &&& forall|k: int| a < k < b ==> #[trigger] text[k] != closing
    &&& forall|o: int|
        0 <= o < a && #[trigger] text[o] == opening ==> exists|c: int|
            o < c < a && #[trigger] text[c] == closing
}

proof fn lemma_quote_span(
    text: Seq<char>,
    opening: char,
    closing: char,
    from: int,
    a: int,
    b: int,
    p: int,
)
    requires
        opening != closing,
        is_quoted(text, opening, closing, a, b),
        0 <= from <= a < p < b,
    ensures
        covers(quote_spans(text, opening, closing, from), p),
    decreases a - from,
{
    let open = position_of(text, opening, from);
    lemma_first_of(text, opening, from, a);
    let spans = quote_spans(text, opening, closing, from);
    if open == a {
        lemma_position_of(text, closing, a + 1, b);
        assert(spans[0] == (a + 1, b));
    } else {
        let c = choose|c: int| open < c < a && #[trigger] text[c] == closing;
        lemma_first_of(text, closing, open + 1, c);
        let close = position_of(text, closing, open + 1);
        lemma_quote_span(text, opening, closing, close + 1, a, b, p);
        let rest = quote_spans(text, opening, closing, close + 1);
        lemma_covers_either(seq![(open + 1, close)], rest, p);
    }
}

proof fn lemma_quotes_of_pair(text: Seq<char>, k: int, n: nat, p: int)
    requires
        0 <= k < n <= quote_pairs().len(),
        covers(quote_spans(text, quote_pairs()[k].0, quote_pairs()[k].1, 0), p),
    ensures
        covers(all_quote_spans(text, n), p),
    decreases n,
{
    let before = all_quote_spans(text, (n - 1) as nat);
    let own = quote_spans(text, quote_pairs()[n - 1].0, quote_pairs()[n - 1].1, 0);
    lemma_covers_either(before, own, p);
    if k < n - 1 {
        lemma_quotes_of_pair(text, k, (n - 1) as nat, p);
    }
}

/// What stands between quotes of six kinds keeps its characters.
pub proof fn lemma_quoted_is_shown(text: Seq<char>, a: int, b: int)
    requires
        is_quoted(text, '“', '”', a, b) || is_quoted(text, '‘', '’', a, b) || is_quoted(
            text,
            '「',
            '」',
            a,
            b,
        ) || is_quoted(text, '『', '』', a, b) || is_quoted(text, '《', '》', a, b) || is_quoted(
            text,
            '〈',
            '〉',
            a,
            b,
        ),
    ensures
        is_left(text, a + 1, b),
        a + 1 < b ==> contains_text(projected(text), text.subrange(a + 1, b)),
{
    let k: int = if is_quoted(text, '“', '”', a, b) {
        0
    } else if is_quoted(text, '‘', '’', a, b) {
        1
    } else if is_quoted(text, '「', '」', a, b) {
        2
    } else if is_quoted(text, '『', '』', a, b) {
        3
    } else if is_quoted(text, '《', '》', a, b) {
        4
    } else {
        5
    };
    let pair = quote_pairs()[k];
    assert(is_quoted(text, pair.0, pair.1, a, b));
    assert forall|p: int| a + 1 <= p < b implies #[trigger] is_protected(text, p) by {
        lemma_quote_span(text, pair.0, pair.1, 0, a, b, p);
        lemma_quotes_of_pair(text, k, quote_pairs().len(), p);
        lemma_protected_by(text, p);
    }
    if a + 1 < b {
        lemma_left_is_shown(text, a + 1, b);
    }
}

/// How often a character stands between two places.
pub open spec fn times_between(text: Seq<char>, c: char, from: int, to: int) -> nat
    decreases to - from,
{
    if from >= to {
        0
    } else {
        times_between(text, c, from + 1, to) + if text[from] == c {
            1nat
        } else {
            0
        }
    }
}

proof fn lemma_times_from_first(text: Seq<char>, c: char, from: int, to: int)
    requires
        0 <= from,
        to <= text.len(),
        times_between(text, c, from, to) > 0,
    ensures
        from <= position_of(text, c, from) < to,
        text[position_of(text, c, from)] == c,
        times_between(text, c, from, to) == 1 + times_between(
            text,
            c,
            position_of(text, c, from) + 1,
            to,
        ),
    decreases to - from,
{
    if text[from] != c {
        lemma_times_from_first(text, c, from + 1, to);
    }
}

proof fn lemma_straight_quote_span(text: Seq<char>, from: int, a: int, b: int, p: int)
    requires
        0 <= from <= a < p < b < text.len(),
        text[a] == '"',
        text[b] == '"',
        forall|k: int| a < k < b ==> #[trigger] text[k] != '"',
        times_between(text, '"', from, a) % 2 == 0,
    ensures
        covers(quote_spans(text, '"', '"', from), p),
    decreases a - from,
{
    let spans = quote_spans(text, '"', '"', from);
    if times_between(text, '"', from, a) == 0 {
        lemma_first_of(text, '"', from, a);
        let open = position_of(text, '"', from);
        if open < a {
            lemma_times_positive(text, '"', from, a, open);
        }
        lemma_position_of(text, '"', a + 1, b);
        assert(spans[0] == (a + 1, b));
    } else {
        lemma_times_from_first(text, '"', from, a);
        let open = position_of(text, '"', from);
        lemma_times_from_first(text, '"', open + 1, a);
        let close = position_of(text, '"', open + 1);
        lemma_straight_quote_span(text, close + 1, a, b, p);
        lemma_covers_either(
            seq![(open + 1, close)],
            quote_spans(text, '"', '"', close + 1),
            p,
        );
    }
}

proof fn lemma_times_positive(text: Seq<char>, c: char, from: int, to: int, at: int)
    requires
        0 <= from <= at < to,
        text[at] == c,
    ensures
        times_between(text, c, from, to) > 0,
    decreases to - from,
{
    if from < at {
        lemma_times_positive(text, c, from + 1, to, at);
    }
}

/// What stands between straight quotes keeps its characters: a straight quote
/// opens where an even number of them stands before it.
pub proof fn lemma_straight_quoted_is_shown(text: Seq<char>, a: int, b: int)
    requires
        0 <= a < b < text.len(),
        text[a] == '"',
        text[b] == '"',
        forall|k: int| a < k < b ==> #[trigger] text[k] != '"',
        times_between(text, '"', 0, a) % 2 == 0,
    ensures
        is_left(text, a + 1, b),
        a + 1 < b ==> contains_text(projected(text), text.subrange(a + 1, b)),
{
    assert(quote_pairs()[6] == ('"', '"'));
    assert forall|p: int| a + 1 <= p < b implies #[trigger] is_protected(text, p) by {
        lemma_straight_quote_span(text, 0, a, b, p);
        lemma_quotes_of_pair(text, 6, quote_pairs().len(), p);
        lemma_protected_by(text, p);
    }
    if a + 1 < b {
        lemma_left_is_shown(text, a + 1, b);
    }
}

// ---------------------------------------------------------------------------
// Code
// ---------------------------------------------------------------------------

proof fn lemma_backticks(text: Seq<char>, from: int, to: int)
    requires
        0 <= from <= to <= text.len(),
        forall|k: int| from <= k < to ==> #[trigger] text[k] == '`',
        to < text.len() ==> text[to] != '`',
    ensures
        backtick_run_end(text, from) == to,
    decreases to - from,
{
    if from < to {
        lemma_backticks(text, from + 1, to);
    }
}

proof fn lemma_closing_run(text: Seq<char>, from: int, at: int, count: int)
    requires
        0 <= from <= at,
        0 < count,
        at + count <= text.len(),
        forall|k: int| from <= k < at ==> #[trigger] text[k] != '`',
        forall|k: int| at <= k < at + count ==> #[trigger] text[k] == '`',
        at + count < text.len() ==> text[at + count] != '`',
    ensures
        closing_run_end(text, from, count) == at + count,
    decreases at - from,
{
    if from < at {
        assert(text[from] != '`');
        lemma_closing_run(text, from + 1, at, count);
    } else {
        assert(text[at] == '`');
        lemma_backticks(text, at, at + count);
    }
}

proof fn lemma_code_span(text: Seq<char>, from: int, a: int, b: int, count: int, p: int)
    requires
        0 <= from <= a,
        0 < count,
        a + count < b,
        b + count <= text.len(),
        forall|k: int| from <= k < a ==> #[trigger] text[k] != '`',
        forall|k: int| a <= k < a + count ==> #[trigger] text[k] == '`',
        forall|k: int| a + count <= k < b ==> #[trigger] text[k] != '`',
        forall|k: int| b <= k < b + count ==> #[trigger] text[k] == '`',
        b + count < text.len() ==> text[b + count] != '`',
        a <= p < b + count,
    ensures
        covers(code_spans(text, from), p),
    decreases a - from,
{
    if from < a {
        assert(text[from] != '`');
        lemma_code_span(text, from + 1, a, b, count, p);
    } else {
        assert(text[a] == '`');
        assert(text[a + count] != '`');
        lemma_backticks(text, a, a + count);
        lemma_closing_run(text, a + count, b, count);
        assert(code_spans(text, from)[0] == (a, b + count));
    }
}

/// The first code of a text, between as many backticks on either side, keeps
/// its characters.
pub proof fn lemma_code_is_shown(text: Seq<char>, a: int, b: int, count: int)
    requires
        0 <= a,
        0 < count,
        a + count < b,
        b + count <= text.len(),
        forall|k: int| 0 <= k < a ==> #[trigger] text[k] != '`',
        forall|k: int| a <= k < a + count ==> #[trigger] text[k] == '`',
        forall|k: int| a + count <= k < b ==> #[trigger] text[k] != '`',
        forall|k: int| b <= k < b + count ==> #[trigger] text[k] == '`',
        b + count < text.len() ==> text[b + count] != '`',
    ensures
        is_left(text, a, b + count),
        contains_text(projected(text), text.subrange(a, b + count)),
{
    assert forall|p: int| a <= p < b + count implies #[trigger] is_protected(text, p) by {
        lemma_code_span(text, 0, a, b, count, p);
        lemma_protected_by(text, p);
    }
    lemma_left_is_shown(text, a, b + count);
}

// ---------------------------------------------------------------------------
// Addresses
// ---------------------------------------------------------------------------

/// A character that does not end a web address.
pub open spec fn stays_in_address(c: char) -> bool {
    !is_white_space(c) && c != '“' && c != '”' && c != '‘' && c != '’' && c != '「' && c != '」' && c
        != '『' && c != '』' && c != '《' && c != '》' && c != '〈' && c != '〉' && c != ',' && c != '，'
        && c != '。' && c != ';' && c != '；' && c != '！' && c != '？' && c != '、' && c != '<' && c
        != '>' && c != '"' && c != '\'' && c != '`' && c != ')' && c != '）' && c != ']' && c != '】'
}

proof fn lemma_url_reaches(text: Seq<char>, from: int, end: int)
    requires
        0 <= from <= end <= text.len(),
        forall|k: int| from <= k < end ==> stays_in_address(#[trigger] text[k]),
    ensures
        url_end(text, from) >= end,
    decreases end - from,
{
    if from < end {
        assert(stays_in_address(text[from]));
        lemma_url_reaches(text, from + 1, end);
    } else {
        lemma_url_end_behind(text, from);
    }
}

proof fn lemma_url_end_behind(text: Seq<char>, from: int)
    ensures
        url_end(text, from) >= from,
    decreases text.len() - from,
{
    if from < text.len() && !crate::chinese::ends_url(text[from]) {
        lemma_url_end_behind(text, from + 1);
    }
}

proof fn lemma_url_span(text: Seq<char>, prefix: Seq<char>, from: int, a: int, end: int, p: int)
    requires
        0 <= from <= a,
        prefix.len() > 0,
        occurs_at(text, a, prefix),
        a + prefix.len() < end <= text.len(),
        forall|k: int| a + prefix.len() <= k < end ==> stays_in_address(#[trigger] text[k]),
        a <= p < end,
    ensures
        covers(url_spans(text, prefix, from), p),
    decreases a - from,
{
    let rest = url_spans(text, prefix, from + 1);
    let spans = url_spans(text, prefix, from);
    if from < a {
        lemma_url_span(text, prefix, from + 1, a, end, p);
        lemma_covers_either(seq![(from, url_end(text, from + prefix.len()))], rest, p);
    } else {
        lemma_url_reaches(text, a + prefix.len(), end);
        assert(spans[0] == (a, url_end(text, a + prefix.len())));
    }
}

/// A web address keeps its characters, from its beginning as far as its
/// characters go.
pub proof fn lemma_address_is_shown(text: Seq<char>, prefix: Seq<char>, a: int, end: int)
    requires
        prefix == "https://"@ || prefix == "http://"@ || prefix == "www."@,
        occurs_at(text, a, prefix),
        a + prefix.len() < end <= text.len(),
        forall|k: int| a + prefix.len() <= k < end ==> stays_in_address(#[trigger] text[k]),
    ensures
        is_left(text, a, end),
        contains_text(projected(text), text.subrange(a, end)),
{
    reveal_strlit("https://");
    reveal_strlit("http://");
    reveal_strlit("www.");
    let first = url_spans(text, "https://"@, 0);
    let second = url_spans(text, "http://"@, 0);
    let third = url_spans(text, "www."@, 0);
    assert forall|p: int| a <= p < end implies #[trigger] is_protected(text, p) by {
        lemma_url_span(text, prefix, 0, a, end, p);
        lemma_covers_either(first, second, p);
        lemma_covers_either(first + second, third, p);
        lemma_protected_by(text, p);
    }
    lemma_left_is_shown(text, a, end);
}

/// A character of the name in a mail address.
pub open spec fn is_in_mail_name(c: char) -> bool {
    '0' <= c <= '9' || 'a' <= c <= 'z' || 'A' <= c <= 'Z' || c == '.' || c == '!' || c == '#' || c
        == '$' || c == '%' || c == '&' || c == '\'' || c == '*' || c == '+' || c == '-' || c == '/'
        || c == '=' || c == '?' || c == '^' || c == '_' || c == '`' || c == '{' || c == '|' || c
        == '}' || c == '~'
}

/// A character of the place in a mail address.
pub open spec fn is_in_mail_place(c: char) -> bool {
    '0' <= c <= '9' || 'a' <= c <= 'z' || 'A' <= c <= 'Z' || c == '.' || c == '-' || c == '_'
}

proof fn lemma_mail_name(text: Seq<char>, a: int, at: int)
    requires
        0 <= a <= at <= text.len(),
        forall|k: int| a <= k < at ==> is_in_mail_name(#[trigger] text[k]),
    ensures
        email_start(text, at) <= a,
    decreases at - a,
{
    if a < at {
        assert(is_in_mail_name(text[at - 1]));
        lemma_mail_name(text, a, at - 1);
    } else {
        lemma_mail_start_before(text, at);
    }
}

proof fn lemma_mail_start_before(text: Seq<char>, at: int)
    ensures
        email_start(text, at) <= at,
    decreases at,
{
    if 0 < at <= text.len() && crate::chinese::is_email_local_char(text[at - 1]) {
        lemma_mail_start_before(text, at - 1);
    }
}

proof fn lemma_mail_place(text: Seq<char>, from: int, end: int)
    requires
        0 <= from <= end <= text.len(),
        forall|k: int| from <= k < end ==> is_in_mail_place(#[trigger] text[k]),
    ensures
        email_end(text, from) >= end,
    decreases end - from,
{
    if from < end {
        assert(is_in_mail_place(text[from]));
        lemma_mail_place(text, from + 1, end);
    } else {
        lemma_mail_end_behind(text, from);
    }
}

proof fn lemma_mail_end_behind(text: Seq<char>, from: int)
    ensures
        email_end(text, from) >= from,
    decreases text.len() - from,
{
    if 0 <= from < text.len() && crate::chinese::is_email_domain_char(text[from]) {
        lemma_mail_end_behind(text, from + 1);
    }
}

proof fn lemma_mail_span(text: Seq<char>, from: int, at: int, p: int)
    requires
        0 <= from <= at < text.len(),
        text[at] == '@',
        crate::chinese::is_email_at(text, at),
        email_start(text, at) <= p < email_end(text, at + 1),
    ensures
        covers(email_spans(text, from), p),
    decreases at - from,
{
    let rest = email_spans(text, from + 1);
    if from < at {
        lemma_mail_span(text, from + 1, at, p);
        lemma_covers_either(seq![(email_start(text, from), email_end(text, from + 1))], rest, p);
    } else {
        assert(email_spans(text, from)[0] == (email_start(text, at), email_end(text, at + 1)));
    }
}

/// A mail address keeps its characters.
pub proof fn lemma_mail_address_is_shown(text: Seq<char>, a: int, at: int, end: int)
    requires
        0 <= a < at < end - 1,
        end <= text.len(),
        text[at] == '@',
        forall|k: int| a <= k < at ==> is_in_mail_name(#[trigger] text[k]),
        forall|k: int| at < k < end ==> is_in_mail_place(#[trigger] text[k]),
        is_ascii_alphanumeric_char(text[at + 1]),
    ensures
        is_left(text, a, end),
        contains_text(projected(text), text.subrange(a, end)),
{
    lemma_mail_name(text, a, at);
    lemma_mail_place(text, at + 1, end);
    assert(crate::chinese::is_email_at(text, at));
    assert forall|p: int| a <= p < end implies #[trigger] is_protected(text, p) by {
        lemma_mail_span(text, 0, at, p);
        lemma_protected_by(text, p);
    }
    lemma_left_is_shown(text, a, end);
}

} // verus!
