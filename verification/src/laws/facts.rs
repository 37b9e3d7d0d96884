//! Values of facts and named characters keep their characters, and nothing else
//! does.
use vstd::prelude::*;
use crate::chinese::{
    all_fact_spans, all_quote_spans, assembled, bounds_designation, clause_start, code_spans,
    connector_len, connectors, conversions, covers, designates, designation_spans, email_spans,
    fact_end, fact_labels, fact_spans, fact_start, has_han, is_kept_whole, is_protected, places_of,
    projected, protected_spans, quote_pairs, run_end, segments_of, space_end, t2s_of, url_spans,
};
use crate::laws::display::{
    is_left, lemma_covers_either, lemma_left_is_shown, lemma_protected_by, lemma_run,
};
use crate::text::{contains_text, is_white_space, occurs_at, position_of};

verus! {

// ---------------------------------------------------------------------------
// Facts
// ---------------------------------------------------------------------------

/// The words that name a fact.
pub open spec fn names_a_fact(word: Seq<char>) -> bool {
    word == "项目代号"@ || word == "项目代號"@ || word == "項目代号"@ || word == "項目代號"@ || word
        == "代号"@ || word == "代號"@ || word == "名称"@ || word == "名稱"@ || word == "姓名"@ || word
        == "名字"@ || word == "公司名"@ || word == "品牌"@ || word == "机构"@ || word == "機構"@ || word
        == "学校"@ || word == "學校"@ || word == "型号"@ || word == "型號"@ || word == "编号"@ || word
        == "編號"@ || word == "账号"@ || word == "帐号"@ || word == "帳号"@ || word == "账號"@ || word
        == "帳號"@
}

/// A character that does not end a value.
pub open spec fn stays_in_value(c: char) -> bool {
    c != ',' && c != '，' && c != '.' && c != '。' && c != ';' && c != '；' && c != '!' && c != '！'
        && c != '?' && c != '？' && c != '、' && c != '\n' && c != '\r' && c != '\t'
}

/// A single character that may stand between the name of a fact and its value.
pub open spec fn connects(c: char) -> bool {
    c == '：' || c == ':' || c == '=' || c == '是' || c == '为' || c == '為' || c == '叫'
}

/// Two characters that may stand between the name of a fact and its value.
pub open spec fn connect_together(c: char, d: char) -> bool {
    (c == '称' || c == '稱') && (d == '为' || d == '為')
}

proof fn lemma_one_occurs(text: Seq<char>, at: int, c: char)
    requires
        0 <= at,
    ensures
        occurs_at(text, at, seq![c]) <==> at < text.len() && text[at] == c,
{
    if at < text.len() {
        assert(text.subrange(at, at + 1) =~= seq![text[at]]);
        if text[at] != c {
            assert(seq![text[at]][0] != seq![c][0]);
        }
    }
}

proof fn lemma_two_occur(text: Seq<char>, at: int, c: char, d: char)
    requires
        0 <= at,
    ensures
        occurs_at(text, at, seq![c, d]) <==> at + 1 < text.len() && text[at] == c && text[at + 1]
            == d,
{
    if at + 1 < text.len() {
        let part = text.subrange(at, at + 2);
        assert(part =~= seq![text[at], text[at + 1]]);
        assert(part[0] == text[at] && part[1] == text[at + 1]);
        assert(seq![c, d][0] == c && seq![c, d][1] == d);
    }
}

/// How long what connects is.
proof fn lemma_connector(text: Seq<char>, at: int)
    requires
        0 <= at < text.len(),
    ensures
        connector_len(text, at, 0) == (if at + 1 < text.len() && connect_together(
            text[at],
            text[at + 1],
        ) {
            2
        } else if connects(text[at]) {
            1
        } else {
            0nat
        }),
{
    reveal_with_fuel(connector_len, 13);
    lemma_two_occur(text, at, '称', '为');
    lemma_two_occur(text, at, '称', '為');
    lemma_two_occur(text, at, '稱', '为');
    lemma_two_occur(text, at, '稱', '為');
    lemma_one_occurs(text, at, '：');
    lemma_one_occurs(text, at, ':');
    lemma_one_occurs(text, at, '=');
    lemma_one_occurs(text, at, '是');
    lemma_one_occurs(text, at, '为');
    lemma_one_occurs(text, at, '為');
    lemma_one_occurs(text, at, '叫');
    assert(connectors()[0] == seq!['称', '为']);
    assert(connectors()[1] == seq!['称', '為']);
    assert(connectors()[2] == seq!['稱', '为']);
    assert(connectors()[3] == seq!['稱', '為']);
    assert(connectors()[4] == seq!['：']);
    assert(connectors()[5] == seq![':']);
    assert(connectors()[6] == seq!['=']);
    assert(connectors()[7] == seq!['是']);
    assert(connectors()[8] == seq!['为']);
    assert(connectors()[9] == seq!['為']);
    assert(connectors()[10] == seq!['叫']);
    assert(connectors().len() == 11);
}

proof fn lemma_spaces(text: Seq<char>, from: int, to: int)
    requires
        0 <= from <= to <= text.len(),
        forall|k: int| from <= k < to ==> is_white_space(#[trigger] text[k]),
        to < text.len() ==> !is_white_space(text[to]),
    ensures
        space_end(text, from) == to,
    decreases to - from,
{
    if from < to {
        assert(is_white_space(text[from]));
        lemma_spaces(text, from + 1, to);
    }
}

proof fn lemma_value_reaches(text: Seq<char>, from: int, end: int)
    requires
        0 <= from <= end <= text.len(),
        forall|k: int| from <= k < end ==> stays_in_value(#[trigger] text[k]),
    ensures
        fact_end(text, from) >= end,
    decreases end - from,
{
    if from < end {
        assert(stays_in_value(text[from]));
        lemma_value_reaches(text, from + 1, end);
    } else {
        lemma_fact_end_behind(text, from);
    }
}

proof fn lemma_fact_end_behind(text: Seq<char>, from: int)
    ensures
        fact_end(text, from) >= from,
    decreases text.len() - from,
{
    if from < text.len() && !crate::chinese::ends_fact(text[from]) {
        lemma_fact_end_behind(text, from + 1);
    }
}

proof fn lemma_fact_span(text: Seq<char>, label: Seq<char>, from: int, at: int, p: int)
    requires
        0 <= from <= at,
        label.len() > 0,
        occurs_at(text, at, label),
        fact_start(text, at + label.len()) <= p < fact_end(
            text,
            fact_start(text, at + label.len()),
        ),
    ensures
        covers(fact_spans(text, label, from), p),
    decreases at - from,
{
    let start = fact_start(text, from + label.len());
    let rest = fact_spans(text, label, from + 1);
    if from < at {
        lemma_fact_span(text, label, from + 1, at, p);
        lemma_covers_either(seq![(start, fact_end(text, start))], rest, p);
    } else {
        assert(fact_spans(text, label, from)[0] == (start, fact_end(text, start)));
    }
}

proof fn lemma_facts_of_name(text: Seq<char>, k: int, n: nat, p: int)
    requires
        0 <= k < n <= fact_labels().len(),
        covers(fact_spans(text, fact_labels()[k], 0), p),
    ensures
        covers(all_fact_spans(text, n), p),
    decreases n,
{
    let before = all_fact_spans(text, (n - 1) as nat);
    let own = fact_spans(text, fact_labels()[n - 1], 0);
    lemma_covers_either(before, own, p);
    if k < n - 1 {
        lemma_facts_of_name(text, k, (n - 1) as nat, p);
    }
}

proof fn lemma_place_of_name(word: Seq<char>) -> (k: int)
    requires
        names_a_fact(word),
    ensures
        0 <= k < fact_labels().len(),
        fact_labels()[k] == word,
        word.len() > 0,
{
    lemma_names_have_characters();
    let names = fact_labels();
    if word == "项目代号"@ {
        assert(names[0] == word);
        0
    } else if word == "项目代號"@ {
        assert(names[1] == word);
        1
    } else if word == "項目代号"@ {
        assert(names[2] == word);
        2
    } else if word == "項目代號"@ {
        assert(names[3] == word);
        3
    } else if word == "代号"@ {
        assert(names[4] == word);
        4
    } else if word == "代號"@ {
        assert(names[5] == word);
        5
    } else if word == "名称"@ {
        assert(names[6] == word);
        6
    } else if word == "名稱"@ {
        assert(names[7] == word);
        7
    } else if word == "姓名"@ {
        assert(names[8] == word);
        8
    } else if word == "名字"@ {
        assert(names[9] == word);
        9
    } else if word == "公司名"@ {
        assert(names[10] == word);
        10
    } else if word == "品牌"@ {
        assert(names[11] == word);
        11
    } else if word == "机构"@ {
        assert(names[12] == word);
        12
    } else if word == "機構"@ {
        assert(names[13] == word);
        13
    } else if word == "学校"@ {
        assert(names[14] == word);
        14
    } else if word == "學校"@ {
        assert(names[15] == word);
        15
    } else if word == "型号"@ {
        assert(names[16] == word);
        16
    } else if word == "型號"@ {
        assert(names[17] == word);
        17
    } else if word == "编号"@ {
        assert(names[18] == word);
        18
    } else if word == "編號"@ {
        assert(names[19] == word);
        19
    } else if word == "账号"@ {
        assert(names[20] == word);
        20
    } else if word == "帐号"@ {
        assert(names[21] == word);
        21
    } else if word == "帳号"@ {
        assert(names[22] == word);
        22
    } else if word == "账號"@ {
        assert(names[23] == word);
        23
    } else {
        assert(names[24] == word);
        24
    }
}

proof fn lemma_names_have_characters()
    ensures
        forall|word: Seq<char>| #[trigger] names_a_fact(word) ==> word.len() > 0,
{
    reveal_strlit("项目代号");
    reveal_strlit("项目代號");
    reveal_strlit("項目代号");
    reveal_strlit("項目代號");
    reveal_strlit("代号");
    reveal_strlit("代號");
    reveal_strlit("名称");
    reveal_strlit("名稱");
    reveal_strlit("姓名");
    reveal_strlit("名字");
    reveal_strlit("公司名");
    reveal_strlit("品牌");
    reveal_strlit("机构");
    reveal_strlit("機構");
    reveal_strlit("学校");
    reveal_strlit("學校");
    reveal_strlit("型号");
    reveal_strlit("型號");
    reveal_strlit("编号");
    reveal_strlit("編號");
    reveal_strlit("账号");
    reveal_strlit("帐号");
    reveal_strlit("帳号");
    reveal_strlit("账號");
    reveal_strlit("帳號");
}

/// From `at` on a word names a fact; behind it, with white space around it or
/// none, there may be something that connects, up to where the value starts.
pub open spec fn introduces(text: Seq<char>, at: int, word: Seq<char>, middle: int, start: int) -> bool {
    &&& names_a_fact(word)
    &&& occurs_at(text, at, word)
    &&& at + word.len() <= middle <= start < text.len()
    &&& forall|k: int| at + word.len() <= k < middle ==> is_white_space(#[trigger] text[k])
    &&& !is_white_space(text[middle])
    &&& !is_white_space(text[start])
    &&& if middle + 1 < text.len() && connect_together(text[middle], text[middle + 1]) {
        middle + 2 <= start && forall|k: int|
            middle + 2 <= k < start ==> is_white_space(#[trigger] text[k])
    } else if connects(text[middle]) {
        middle + 1 <= start && forall|k: int|
            middle + 1 <= k < start ==> is_white_space(#[trigger] text[k])
    } else {
        start == middle
    }
}

/// The value of a fact keeps its characters, from behind the words that
/// introduce it as far as no punctuation ends it.
pub proof fn lemma_value_is_shown(
    text: Seq<char>,
    at: int,
    word: Seq<char>,
    middle: int,
    start: int,
    end: int,
)
    requires
        introduces(text, at, word, middle, start),
        start < end <= text.len(),
        forall|k: int| start <= k < end ==> stays_in_value(#[trigger] text[k]),
    ensures
        is_left(text, start, end),
        contains_text(projected(text), text.subrange(start, end)),
{
    let index = lemma_place_of_name(word);
    let after = at + word.len();
    lemma_spaces(text, after, middle);
    lemma_connector(text, middle);
    let len = connector_len(text, middle, 0);
    if len > 0 {
        lemma_spaces(text, middle + len, start);
    }
    assert(fact_start(text, after) == start);
    lemma_value_reaches(text, start, end);
    assert forall|p: int| start <= p < end implies #[trigger] is_protected(text, p) by {
        lemma_fact_span(text, word, 0, at, p);
        lemma_facts_of_name(text, index, fact_labels().len(), p);
        lemma_protected_by(text, p);
    }
    lemma_left_is_shown(text, start, end);
}

// ---------------------------------------------------------------------------
// Named characters
// ---------------------------------------------------------------------------

/// A character at which a clause ends.
pub open spec fn parts_clauses(c: char) -> bool {
    is_white_space(c) || c == ',' || c == '，' || c == '.' || c == '。' || c == ';' || c == '；' || c
        == '!' || c == '！' || c == '?' || c == '？' || c == '、' || c == ':' || c == '：' || c == '('
        || c == ')' || c == '（' || c == '）' || c == '[' || c == ']' || c == '【' || c == '】' || c
        == '“' || c == '”' || c == '‘' || c == '’' || c == '「' || c == '」' || c == '『' || c == '』'
        || c == '《' || c == '》' || c == '〈' || c == '〉'
}

proof fn lemma_clause_reaches(text: Seq<char>, from: int, at: int)
    requires
        0 <= from <= at <= text.len(),
        forall|k: int| from <= k < at ==> !parts_clauses(#[trigger] text[k]),
    ensures
        clause_start(text, at) <= from,
    decreases at - from,
{
    if from < at {
        assert(!parts_clauses(text[at - 1]));
        lemma_clause_reaches(text, from, at - 1);
    } else {
        lemma_clause_before(text, at);
    }
}

proof fn lemma_clause_before(text: Seq<char>, at: int)
    ensures
        clause_start(text, at) <= at,
        0 <= at ==> 0 <= clause_start(text, at),
    decreases at,
{
    if 0 < at <= text.len() && !bounds_designation(text[at - 1]) {
        lemma_clause_before(text, at - 1);
    }
}

proof fn lemma_place_listed(text: Seq<char>, c: char, from: int, to: int, k: int)
    requires
        from <= k < to,
        text[k] == c,
    ensures
        covers(places_of(text, c, from, to), k),
    decreases to - from,
{
    let rest = places_of(text, c, from + 1, to);
    if from < k {
        lemma_place_listed(text, c, from + 1, to, k);
        lemma_covers_either(seq![(from, from + 1)], rest, k);
    } else {
        assert(places_of(text, c, from, to)[0] == (k, k + 1));
    }
}

proof fn lemma_designation_span(text: Seq<char>, from: int, at: int, p: int)
    requires
        0 <= from <= at,
        designates(text, at),
        p == at + 1 || (clause_start(text, at) <= p < at && text[p] == text[at + 1]),
    ensures
        covers(designation_spans(text, from), p),
    decreases at - from,
{
    let rest = designation_spans(text, from + 1);
    let places = places_of(text, text[from + 1], clause_start(text, from), from);
    let named = seq![(from + 1, from + 2)];
    lemma_covers_either(places, named + rest, p);
    lemma_covers_either(named, rest, p);
    if from < at {
        lemma_designation_span(text, from + 1, at, p);
    } else if p == at + 1 {
        assert(named[0] == (at + 1, at + 2));
    } else {
        lemma_place_listed(text, text[at + 1], clause_start(text, at), at, p);
    }
}

/// Where a character is named by the words around `的`, as in `乾坤的乾`, it
/// keeps its form: where it is named and where it stands in the clause before.
pub proof fn lemma_named_character_is_shown(text: Seq<char>, k: int, at: int)
    requires
        0 <= k < at < text.len() - 1,
        text[at] == '的',
        text[k] == text[at + 1],
        0x4e00 <= text[at + 1] as u32 <= 0x9fff || 0x3400 <= text[at + 1] as u32 <= 0x4dbf,
        at + 2 < text.len() ==> parts_clauses(text[at + 2]),
        forall|i: int| k <= i < at ==> !parts_clauses(#[trigger] text[i]),
    ensures
        is_protected(text, k),
        is_protected(text, at + 1),
        contains_text(projected(text), seq![text[k]]),
{
    lemma_clause_reaches(text, k, at);
    assert(clause_start(text, at) <= k < at && text[k] == text[at + 1]);
    assert(designates(text, at));
    lemma_designation_span(text, 0, at, k);
    lemma_designation_span(text, 0, at, at + 1);
    lemma_protected_by(text, k);
    lemma_protected_by(text, at + 1);
    assert(is_left(text, k, k + 1));
    lemma_left_is_shown(text, k, k + 1);
    assert(text.subrange(k, k + 1) =~= seq![text[k]]);
}

// ---------------------------------------------------------------------------
// Everything else
// ---------------------------------------------------------------------------

/// A text with nothing in it that could keep its characters.
pub open spec fn is_ordinary(text: Seq<char>) -> bool {
    &&& forall|i: int|
        0 <= i < text.len() ==> {
            let c = #[trigger] text[i];
            &&& c != '`' && c != '@' && c != '的'
            &&& c != '“' && c != '‘' && c != '「' && c != '『' && c != '《' && c != '〈' && c != '"'
        }
    &&& forall|i: int, word: Seq<char>|
        names_a_fact(word) || word == "https://"@ || word == "http://"@ || word == "www."@
            ==> !(#[trigger] occurs_at(text, i, word))
}

proof fn lemma_no_code(text: Seq<char>, from: int)
    requires
        0 <= from,
        forall|i: int| 0 <= i < text.len() ==> #[trigger] text[i] != '`',
    ensures
        code_spans(text, from).len() == 0,
    decreases text.len() - from,
{
    if from < text.len() {
        assert(text[from] != '`');
        lemma_no_code(text, from + 1);
    }
}

proof fn lemma_absent(text: Seq<char>, c: char, from: int)
    requires
        0 <= from,
        forall|i: int| 0 <= i < text.len() ==> #[trigger] text[i] != c,
    ensures
        position_of(text, c, from) >= text.len(),
    decreases text.len() - from,
{
    if from < text.len() {
        assert(text[from] != c);
        lemma_absent(text, c, from + 1);
    }
}

proof fn lemma_no_quotes(text: Seq<char>, n: nat)
    requires
        n <= quote_pairs().len(),
        is_ordinary(text),
    ensures
        all_quote_spans(text, n).len() == 0,
    decreases n,
{
    if n > 0 {
        lemma_no_quotes(text, (n - 1) as nat);
        let opening = quote_pairs()[n - 1].0;
        assert(opening == '“' || opening == '‘' || opening == '「' || opening == '『' || opening
            == '《' || opening == '〈' || opening == '"');
        assert forall|i: int| 0 <= i < text.len() implies #[trigger] text[i] != opening by {}
        lemma_absent(text, opening, 0);
    }
}

proof fn lemma_no_address(text: Seq<char>, prefix: Seq<char>, from: int)
    requires
        0 <= from,
        forall|i: int| !(#[trigger] occurs_at(text, i, prefix)),
    ensures
        url_spans(text, prefix, from).len() == 0,
    decreases text.len() - from,
{
    if from < text.len() {
        lemma_no_address(text, prefix, from + 1);
    }
}

proof fn lemma_no_mail(text: Seq<char>, from: int)
    requires
        0 <= from,
        forall|i: int| 0 <= i < text.len() ==> #[trigger] text[i] != '@',
    ensures
        email_spans(text, from).len() == 0,
    decreases text.len() - from,
{
    if from < text.len() {
        assert(text[from] != '@');
        lemma_no_mail(text, from + 1);
    }
}

proof fn lemma_no_fact(text: Seq<char>, label: Seq<char>, from: int)
    requires
        0 <= from,
        forall|i: int| !(#[trigger] occurs_at(text, i, label)),
    ensures
        fact_spans(text, label, from).len() == 0,
    decreases text.len() - from,
{
    if from < text.len() {
        lemma_no_fact(text, label, from + 1);
    }
}

proof fn lemma_labels_name_facts(k: int)
    requires
        0 <= k < fact_labels().len(),
    ensures
        names_a_fact(fact_labels()[k]),
{
    let names = fact_labels();
    assert(names.len() == 25);
    assert(names_a_fact(names[0]) && names_a_fact(names[1]) && names_a_fact(names[2])
        && names_a_fact(names[3]) && names_a_fact(names[4]));
    assert(names_a_fact(names[5]) && names_a_fact(names[6]) && names_a_fact(names[7])
        && names_a_fact(names[8]) && names_a_fact(names[9]));
    assert(names_a_fact(names[10]) && names_a_fact(names[11]) && names_a_fact(names[12])
        && names_a_fact(names[13]) && names_a_fact(names[14]));
    assert(names_a_fact(names[15]) && names_a_fact(names[16]) && names_a_fact(names[17])
        && names_a_fact(names[18]) && names_a_fact(names[19]));
    assert(names_a_fact(names[20]) && names_a_fact(names[21]) && names_a_fact(names[22])
        && names_a_fact(names[23]) && names_a_fact(names[24]));
}

proof fn lemma_no_facts(text: Seq<char>, n: nat)
    requires
        n <= fact_labels().len(),
        is_ordinary(text),
    ensures
        all_fact_spans(text, n).len() == 0,
    decreases n,
{
    if n > 0 {
        lemma_no_facts(text, (n - 1) as nat);
        lemma_labels_name_facts(n - 1);
        lemma_no_fact(text, fact_labels()[n - 1], 0);
    }
}

proof fn lemma_no_designation(text: Seq<char>, from: int)
    requires
        0 <= from,
        forall|i: int| 0 <= i < text.len() ==> #[trigger] text[i] != '的',
    ensures
        designation_spans(text, from).len() == 0,
    decreases text.len() - from,
{
    if from < text.len() {
        assert(text[from] != '的');
        lemma_no_designation(text, from + 1);
    }
}

/// A text without quotes, code, addresses, facts and named characters keeps
/// nothing: it is converted as a whole.
pub proof fn lemma_ordinary_text_is_converted(text: Seq<char>)
    requires
        text.len() > 0,
        is_ordinary(text),
    ensures
        forall|p: int| !(#[trigger] is_protected(text, p)),
        has_han(text) ==> projected(text) == t2s_of(text, false),
        !has_han(text) ==> projected(text) == text,
{
    lemma_no_code(text, 0);
    lemma_no_quotes(text, quote_pairs().len());
    lemma_no_address(text, "https://"@, 0);
    lemma_no_address(text, "http://"@, 0);
    lemma_no_address(text, "www."@, 0);
    lemma_no_mail(text, 0);
    lemma_no_facts(text, fact_labels().len());
    lemma_no_designation(text, 0);
    assert(protected_spans(text).len() == 0);
    assert forall|p: int| !(#[trigger] is_protected(text, p)) by {}
    let end = text.len() as int;
    lemma_run(text, 0, false);
    assert(run_end(text, 0, false) == end);
    let segments = segments_of(text, 0);
    assert(text.subrange(0, end) =~= text);
    assert(segments_of(text, end).len() == 0);
    assert(segments =~= seq![(0, end, has_han(text))]);
    let texts = conversions(text, segments, segments.len());
    reveal_with_fuel(conversions, 2);
    reveal_with_fuel(assembled, 2);
    if has_han(text) {
        assert(conversions(text, segments, 1) =~= seq![t2s_of(text, false)]);
        assert(crate::chinese::converted_count(segments, 0) == 0);
        assert(assembled(text, segments, texts, 1) =~= t2s_of(text, false));
    } else {
        assert(assembled(text, segments, texts, 1) =~= text);
    }
}

/// A text with kana, or without any character from the Han blocks on, is shown
/// as it stands; one with a common Han character and without kana is not.
pub proof fn lemma_kept_whole(text: Seq<char>)
    ensures
        (exists|i: int|
            0 <= i < text.len() && ('ぁ' <= #[trigger] text[i] <= 'ゖ' || 'ァ' <= text[i] <= 'ヺ'))
            ==> is_kept_whole(text),
        (forall|i: int| 0 <= i < text.len() ==> (#[trigger] text[i] as u32) < 0x3400)
            ==> is_kept_whole(text),
        (exists|i: int|
            0 <= i < text.len() && ('\u{4e00}' <= #[trigger] text[i] <= '\u{9fff}')) && (forall|
            i: int,
        |
            0 <= i < text.len() ==> !(0x3040 <= #[trigger] text[i] as u32 <= 0x30ff) && !(0x31f0
                <= text[i] as u32 <= 0x31ff) && !(0xff65 <= text[i] as u32 <= 0xff9f) && (
            text[i] as u32) < 0x1aff0) ==> !is_kept_whole(text),
{
    if exists|i: int|
        0 <= i < text.len() && ('ぁ' <= #[trigger] text[i] <= 'ゖ' || 'ァ' <= text[i] <= 'ヺ') {
        let i = choose|i: int|
            0 <= i < text.len() && ('ぁ' <= #[trigger] text[i] <= 'ゖ' || 'ァ' <= text[i] <= 'ヺ');
        assert(crate::chinese::is_kana_char(text[i]));
    }
    if exists|i: int| 0 <= i < text.len() && ('\u{4e00}' <= #[trigger] text[i] <= '\u{9fff}') {
        let i = choose|i: int|
            0 <= i < text.len() && ('\u{4e00}' <= #[trigger] text[i] <= '\u{9fff}');
        assert(crate::chinese::is_han_char(text[i]));
        assert(has_han(text));
    }
}

} // verus!
