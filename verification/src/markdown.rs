//! What is written of turns in Markdown is read back.
use vstd::prelude::*;
use crate::evaluation::{
    body_turns, is_fence, is_hypothesis_speaker, marked_lines, speaker_turn, transcript_turns,
    unescaped, without_escapes,
};
use crate::output::{escaped, escaped_char, is_markdown_mark, names_unknown};
use crate::speaker::harness::{
    chunk_result, global_turns, rendered_turns, turn_line, GlobalTurnView,
};
use crate::speaker::labels::speaker_text;
use crate::speaker::LocalTranscript;
use crate::text::{
    contains_text, decimal, is_white_space, joined, lemma_decimal_round_trip,
    lemma_position_of, lines_of, occurs_at, position_of, replaced, single_spaced,
    starts_with, trimmed, trimmed_end, trimmed_start, word_len, words,
};

verus! {

// ---------------------------------------------------------------------------
// Characters
// ---------------------------------------------------------------------------

/// What is left of a character as Markdown shows it, when as many of the names
/// of `&`, `<` and `>` have been read as a number says.
spec fn half_read(c: char, names: int) -> Seq<char> {
    if names >= 1 && c == '&' || names >= 2 && c == '<' || names >= 3 && c == '>' {
        seq![c]
    } else {
        escaped_char(c)
    }
}

spec fn half_read_text(text: Seq<char>, names: int) -> Seq<char>
    decreases text.len(),
{
    if text.len() == 0 {
        Seq::empty()
    } else {
        half_read(text[0], names) + half_read_text(text.skip(1), names)
    }
}

proof fn lemma_names()
    ensures
        "&amp;"@ == seq!['&', 'a', 'm', 'p', ';'],
        "&lt;"@ == seq!['&', 'l', 't', ';'],
        "&gt;"@ == seq!['&', 'g', 't', ';'],
        "&"@ == seq!['&'],
        "<"@ == seq!['<'],
        ">"@ == seq!['>'],
{
    reveal_strlit("&amp;");
    reveal_strlit("&lt;");
    reveal_strlit("&gt;");
    reveal_strlit("&");
    reveal_strlit("<");
    reveal_strlit(">");
}

proof fn lemma_escaped_from_left(text: Seq<char>)
    ensures
        escaped(text) == half_read_text(text, 0),
    decreases text.len(),
{
    if text.len() == 1 {
        assert(text.drop_last() =~= Seq::empty());
        assert(text.skip(1) =~= Seq::empty());
        assert(escaped(text.drop_last()).len() == 0);
        assert(half_read_text(text.skip(1), 0).len() == 0);
        assert(escaped(text) =~= half_read_text(text, 0));
    } else if text.len() > 1 {
        let rest = text.skip(1);
        let most = text.drop_last();
        lemma_escaped_from_left(most);
        lemma_escaped_from_left(rest);
        lemma_escaped_from_left(most.skip(1));
        assert(most.skip(1) =~= rest.drop_last());
        assert(escaped(text) =~= half_read_text(text, 0));
    }
}

/// A part of a text in which nothing is replaced stays.
proof fn lemma_replaced_passes(part: Seq<char>, rest: Seq<char>, from: Seq<char>, to: Seq<char>)
    requires
        from.len() > 0,
        forall|i: int| 0 <= i < part.len() ==> !#[trigger] occurs_at(part + rest, i, from),
    ensures
        replaced(part + rest, from, to) == part + replaced(rest, from, to),
    decreases part.len(),
{
    let whole = part + rest;
    if part.len() == 0 {
        assert(whole =~= rest);
        assert(part + replaced(rest, from, to) =~= replaced(rest, from, to));
    } else {
        let short = part.drop_first();
        assert(!occurs_at(whole, 0, from));
        assert(whole.drop_first() =~= short + rest);
        assert forall|i: int| 0 <= i < short.len() implies !#[trigger] occurs_at(
            short + rest,
            i,
            from,
        ) by {
            assert(!occurs_at(whole, i + 1, from));
            if occurs_at(short + rest, i, from) {
                assert(whole.subrange(i + 1, i + 1 + from.len()) =~= (short + rest).subrange(
                    i,
                    i + from.len(),
                ));
            }
        }
        lemma_replaced_passes(short, rest, from, to);
        assert(replaced(whole, from, to) =~= part + replaced(rest, from, to));
    }
}

/// A part of a text that is replaced.
proof fn lemma_replaced_takes(rest: Seq<char>, from: Seq<char>, to: Seq<char>)
    requires
        from.len() > 0,
    ensures
        replaced(from + rest, from, to) == to + replaced(rest, from, to),
{
    let whole = from + rest;
    assert(whole.subrange(0, from.len() as int) =~= from);
    assert(whole.skip(from.len() as int) =~= rest);
}

/// What a text that stands at a place is in its first characters.
proof fn lemma_occurs(text: Seq<char>, at: int, needle: Seq<char>, k: int)
    requires
        occurs_at(text, at, needle),
        0 <= k < needle.len(),
    ensures
        at + k < text.len(),
        text[at + k] == needle[k],
{
    assert(text.subrange(at, at + needle.len())[k] == needle[k]);
}

/// A plain character comes from itself.
proof fn lemma_plain_first(text: Seq<char>, names: int, c: char)
    requires
        half_read_text(text, names).len() > 0,
        half_read_text(text, names)[0] == c,
        c == 'l' || c == 'g' || c == 't' || c == ';',
    ensures
        text.len() > 0,
        text[0] == c,
        half_read_text(text, names) == seq![c] + half_read_text(text.skip(1), names),
{
    lemma_names();
}

/// Reads `&amp;`.
proof fn lemma_ampersands_read(text: Seq<char>)
    ensures
        replaced(half_read_text(text, 0), "&amp;"@, "&"@) == half_read_text(text, 1),
    decreases text.len(),
{
    lemma_names();
    if text.len() > 0 {
        let rest = text.skip(1);
        lemma_ampersands_read(rest);
        let part = half_read(text[0], 0);
        let behind = half_read_text(rest, 0);
        if text[0] == '&' {
            lemma_replaced_takes(behind, "&amp;"@, "&"@);
        } else {
            assert forall|i: int| 0 <= i < part.len() implies !#[trigger] occurs_at(
                part + behind,
                i,
                "&amp;"@,
            ) by {
                if occurs_at(part + behind, i, "&amp;"@) {
                    lemma_occurs(part + behind, i, "&amp;"@, 0);
                    lemma_occurs(part + behind, i, "&amp;"@, 1);
                }
            }
            lemma_replaced_passes(part, behind, "&amp;"@, "&"@);
        }
    }
}

/// Reads `&lt;`, or `&gt;` when `&lt;` has been read.
proof fn lemma_bracket_read(text: Seq<char>, names: int, name: Seq<char>, c: char, letter: char)
    requires
        names == 1 && name == "&lt;"@ && c == '<' && letter == 'l' || names == 2 && name
            == "&gt;"@ && c == '>' && letter == 'g',
        !contains_text(text, name),
    ensures
        replaced(half_read_text(text, names), name, seq![c]) == half_read_text(text, names + 1),
    decreases text.len(),
{
    lemma_names();
    if text.len() > 0 {
        let rest = text.skip(1);
        assert(!contains_text(rest, name)) by {
            if contains_text(rest, name) {
                let at = choose|at: int| #[trigger] occurs_at(rest, at, name);
                assert(text.subrange(at + 1, at + 1 + name.len()) =~= rest.subrange(
                    at,
                    at + name.len(),
                ));
                assert(occurs_at(text, at + 1, name));
            }
        }
        lemma_bracket_read(rest, names, name, c, letter);
        let part = half_read(text[0], names);
        let behind = half_read_text(rest, names);
        if text[0] == c {
            lemma_replaced_takes(behind, name, seq![c]);
        } else {
            assert forall|i: int| 0 <= i < part.len() implies !#[trigger] occurs_at(
                part + behind,
                i,
                name,
            ) by {
                if occurs_at(part + behind, i, name) {
                    lemma_occurs(part + behind, i, name, 0);
                    lemma_occurs(part + behind, i, name, 1);
                    lemma_occurs(part + behind, i, name, 2);
                    lemma_occurs(part + behind, i, name, 3);
                    if part.len() == 1 {
                        assert(text[0] == '&');
                        lemma_plain_first(rest, names, letter);
                        let second = rest.skip(1);
                        assert(half_read_text(second, names)[0] == behind[1]);
                        lemma_plain_first(second, names, 't');
                        let third = second.skip(1);
                        assert(half_read_text(third, names)[0] == behind[2]);
                        lemma_plain_first(third, names, ';');
                        assert(text.subrange(0, 4) =~= name);
                        assert(occurs_at(text, 0, name));
                    }
                }
            }
            lemma_replaced_passes(part, behind, name, seq![c]);
        }
    }
}

proof fn lemma_marks_read(text: Seq<char>)
    ensures
        without_escapes(half_read_text(text, 3)) == text,
    decreases text.len(),
{
    if text.len() > 0 {
        let rest = text.skip(1);
        lemma_marks_read(rest);
        let part = half_read(text[0], 3);
        let behind = half_read_text(rest, 3);
        let whole = part + behind;
        if is_markdown_mark(text[0]) {
            assert(part == seq!['\\', text[0]]);
            assert(whole[0] == '\\' && whole[1] == text[0]);
            assert(whole.skip(2) =~= behind);
        } else {
            assert(part == seq![text[0]]);
            assert(whole[0] == text[0]);
            assert(whole.skip(1) =~= behind);
        }
        assert(seq![text[0]] + rest =~= text);
    } else {
        assert(without_escapes(half_read_text(text, 3)) =~= text);
    }
}

/// A text that is written in Markdown is read back, but for one that itself
/// holds the name of a bracket.
pub proof fn lemma_text_read_back(text: Seq<char>)
    requires
        !contains_text(text, "&lt;"@),
        !contains_text(text, "&gt;"@),
    ensures
        unescaped(escaped(text)) == text,
{
    lemma_names();
    lemma_escaped_from_left(text);
    lemma_ampersands_read(text);
    lemma_bracket_read(text, 1, "&lt;"@, '<', 'l');
    lemma_bracket_read(text, 2, "&gt;"@, '>', 'g');
    lemma_marks_read(text);
}

// ---------------------------------------------------------------------------
// Words
// ---------------------------------------------------------------------------

/// A text without a line end that neither starts nor ends with white space.
spec fn is_one_line(text: Seq<char>) -> bool {
    &&& forall|k: int|
        0 <= k < text.len() ==> #[trigger] text[k] == ' ' || !is_white_space(text[k])
    &&& text.len() > 0 ==> !is_white_space(text[0]) && !is_white_space(text.last())
}

spec fn is_word(text: Seq<char>) -> bool {
    text.len() > 0 && forall|k: int| 0 <= k < text.len() ==> !is_white_space(#[trigger] text[k])
}

proof fn lemma_word_len_plain(text: Seq<char>)
    ensures
        0 <= word_len(text) <= text.len(),
        forall|k: int| 0 <= k < word_len(text) ==> !is_white_space(#[trigger] text[k]),
    decreases text.len(),
{
    if text.len() > 0 && !is_white_space(text[0]) {
        let rest = text.drop_first();
        lemma_word_len_plain(rest);
        assert forall|k: int| 0 <= k < word_len(text) implies !is_white_space(
            #[trigger] text[k],
        ) by {
            if k > 0 {
                assert(rest[k - 1] == text[k]);
            }
        }
    }
}

proof fn lemma_words(text: Seq<char>)
    ensures
        forall|k: int| 0 <= k < words(text).len() ==> is_word(#[trigger] words(text)[k]),
    decreases text.len(),
{
    if text.len() > 0 {
        if is_white_space(text[0]) {
            lemma_words(text.drop_first());
            assert(words(text) == words(text.drop_first()));
        } else {
            lemma_word_len_plain(text);
            let n = word_len(text);
            if 0 < n <= text.len() {
                lemma_words(text.skip(n));
                assert(is_word(text.take(n)));
                assert(words(text) == seq![text.take(n)] + words(text.skip(n)));
                assert forall|k: int| 0 <= k < words(text).len() implies is_word(
                    #[trigger] words(text)[k],
                ) by {
                    if k > 0 {
                        assert(words(text)[k] == words(text.skip(n))[k - 1]);
                    } else {
                        assert(words(text)[0] == text.take(n));
                    }
                }
            }
        }
    }
}

proof fn lemma_joined_words(parts: Seq<Seq<char>>)
    requires
        forall|k: int| 0 <= k < parts.len() ==> is_word(#[trigger] parts[k]),
    ensures
        is_one_line(joined(parts, seq![' '])),
        parts.len() > 0 ==> joined(parts, seq![' ']).len() > 0,
    decreases parts.len(),
{
    if parts.len() == 1 {
        assert(is_word(parts[0]));
    } else if parts.len() > 1 {
        let before = parts.drop_last();
        assert forall|k: int| 0 <= k < before.len() implies is_word(#[trigger] before[k]) by {
            assert(before[k] == parts[k]);
        }
        lemma_joined_words(before);
        assert(is_word(parts.last()));
        let left = joined(before, seq![' ']);
        let whole = joined(parts, seq![' ']);
        assert(whole == left + seq![' '] + parts.last());
        assert forall|k: int| 0 <= k < whole.len() implies #[trigger] whole[k] == ' '
            || !is_white_space(whole[k]) by {
            if k < left.len() {
                assert(whole[k] == left[k]);
            } else if k > left.len() {
                assert(whole[k] == parts.last()[k - left.len() - 1]);
            }
        }
        assert(whole[0] == left[0]);
        assert(whole.last() == parts.last().last());
    }
}

proof fn lemma_single_spaced(text: Seq<char>)
    ensures
        is_one_line(single_spaced(text)),
{
    lemma_words(text);
    lemma_joined_words(words(text));
}

/// Nothing is trimmed from a text that neither starts nor ends with white
/// space.
proof fn lemma_trimmed_whole(text: Seq<char>)
    requires
        text.len() > 0 ==> !is_white_space(text[0]) && !is_white_space(text.last()),
    ensures
        trimmed(text) == text,
{
    assert(trimmed_start(text) == text);
    assert(trimmed_end(text) == text);
}

// ---------------------------------------------------------------------------
// Lines
// ---------------------------------------------------------------------------

/// A turn that is read back: its speaker is one of those that are written, and
/// its text does not hold the name of a bracket.
pub open spec fn is_readable(turn: GlobalTurnView) -> bool {
    &&& is_hypothesis_speaker(turn.speaker_id)
    &&& !contains_text(single_spaced(turn.text), "&lt;"@)
    &&& !contains_text(single_spaced(turn.text), "&gt;"@)
}

proof fn lemma_speaker_plain(speaker: Seq<char>)
    requires
        is_hypothesis_speaker(speaker),
    ensures
        speaker.len() > 0,
        forall|k: int|
            0 <= k < speaker.len() ==> ('0' <= #[trigger] speaker[k] <= '9' || 'A' <= speaker[k]
                <= 'Z'),
{
    reveal_strlit("UNKNOWN");
    if speaker != "UNKNOWN"@ {
        assert forall|k: int| 0 <= k < speaker.len() implies ('0' <= #[trigger] speaker[k] <= '9'
            || 'A' <= speaker[k] <= 'Z') by {
            if k > 0 {
                assert(speaker.skip(1)[k - 1] == speaker[k]);
            }
        }
    }
}

proof fn lemma_escaped_split(left: Seq<char>, right: Seq<char>)
    requires
        forall|k: int|
            0 <= k < left.len() ==> escaped_char(#[trigger] left[k]) == seq![left[k]],
    ensures
        escaped(left + right) == left + escaped(right),
    decreases right.len(), left.len(),
{
    let whole = left + right;
    if right.len() > 0 {
        lemma_escaped_split(left, right.drop_last());
        assert(whole.drop_last() =~= left + right.drop_last());
        assert(escaped(whole) =~= left + escaped(right));
    } else if left.len() > 0 {
        let short = left.drop_last();
        assert forall|k: int| 0 <= k < short.len() implies escaped_char(#[trigger] short[k])
            == seq![short[k]] by {
            assert(short[k] == left[k]);
        }
        lemma_escaped_split(short, right);
        assert(whole =~= left);
        assert(whole.drop_last() =~= short + right);
        assert(escaped(right).len() == 0);
        assert(escaped_char(left[left.len() - 1]) == seq![left.last()]);
        assert(escaped(whole) =~= left + escaped(right));
    } else {
        assert(whole =~= right);
        assert(escaped(whole) =~= left + escaped(right));
    }
}

/// The line of a turn has no line end and no white space at its ends, and it
/// starts as a line with a speaker does.
proof fn lemma_line_shape(turn: GlobalTurnView)
    requires
        is_hypothesis_speaker(turn.speaker_id),
    ensures
        turn_line(turn).len() > 0,
        'A' <= turn_line(turn)[0] <= 'Z',
        trimmed(turn_line(turn)) == turn_line(turn),
        !is_white_space(turn_line(turn).last()),
        forall|k: int|
            0 <= k < turn_line(turn).len() ==> #[trigger] turn_line(turn)[k] == ' '
                || !is_white_space(turn_line(turn)[k]),
{
    reveal_strlit("：");
    reveal_strlit("UNKNOWN");
    let speaker = turn.speaker_id;
    let text = single_spaced(turn.text);
    let shown = escaped(text);
    let line = turn_line(turn);
    lemma_speaker_plain(speaker);
    lemma_single_spaced(turn.text);
    lemma_shown(text);
    let head = speaker + "："@;
    assert(line == head + shown);
    assert(line[0] == speaker[0]);
    assert forall|k: int| 0 <= k < line.len() implies #[trigger] line[k] == ' '
        || !is_white_space(line[k]) by {
        if k < speaker.len() {
            assert(line[k] == speaker[k]);
        } else if k == speaker.len() {
            assert(line[k] == '：');
        } else {
            assert(line[k] == shown[k - head.len()]);
        }
    }
    assert(!is_white_space(line.last())) by {
        if text.len() > 0 {
            assert(line.last() == shown.last());
        } else {
            assert(shown.len() == 0);
            assert(line.last() == '：');
        }
    }
    lemma_trimmed_whole(line);
}

/// The line of a turn that is read back, without its escapes.
proof fn lemma_turn_line(turn: GlobalTurnView)
    requires
        is_readable(turn),
    ensures
        turn_line(turn).len() > 0,
        'A' <= turn_line(turn)[0] <= 'Z',
        trimmed(turn_line(turn)) == turn_line(turn),
        forall|k: int|
            0 <= k < turn_line(turn).len() ==> #[trigger] turn_line(turn)[k] == ' '
                || !is_white_space(turn_line(turn)[k]),
        unescaped(turn_line(turn)) == turn.speaker_id + "："@ + single_spaced(turn.text),
{
    reveal_strlit("：");
    lemma_names();
    lemma_line_shape(turn);
    let speaker = turn.speaker_id;
    let text = single_spaced(turn.text);
    let shown = escaped(text);
    let line = turn_line(turn);
    lemma_speaker_plain(speaker);
    lemma_single_spaced(turn.text);
    lemma_shown(text);
    let head = speaker + "："@;
    assert forall|k: int| 0 <= k < head.len() implies escaped_char(#[trigger] head[k])
        == seq![head[k]] by {
        if k < speaker.len() {
            assert(head[k] == speaker[k]);
        } else {
            assert(head[k] == '：');
        }
    }
    lemma_escaped_split(head, text);
    assert(line == head + shown);
    let whole = head + text;
    assert(!contains_text(whole, "&lt;"@)) by {
        lemma_not_in_head(head, text, "&lt;"@);
    }
    assert(!contains_text(whole, "&gt;"@)) by {
        lemma_not_in_head(head, text, "&gt;"@);
    }
    lemma_text_read_back(whole);
}

/// A text without a line end has none as Markdown shows it.
proof fn lemma_shown(text: Seq<char>)
    requires
        forall|k: int|
            0 <= k < text.len() ==> #[trigger] text[k] == ' ' || !is_white_space(text[k]),
    ensures
        forall|k: int|
            0 <= k < escaped(text).len() ==> #[trigger] escaped(text)[k] == ' ' || !is_white_space(
                escaped(text)[k],
            ),
        text.len() > 0 ==> escaped(text).len() > 0,
        text.len() > 0 && !is_white_space(text.last()) ==> !is_white_space(escaped(text).last()),
    decreases text.len(),
{
    if text.len() > 0 {
        lemma_names();
        let before = text.drop_last();
        assert forall|k: int| 0 <= k < before.len() implies #[trigger] before[k] == ' '
            || !is_white_space(before[k]) by {
            assert(before[k] == text[k]);
        }
        lemma_shown(before);
        let part = escaped_char(text.last());
        let left = escaped(before);
        let shown = escaped(text);
        assert(shown == left + part);
        assert(text[text.len() - 1] == text.last());
        assert forall|k: int| 0 <= k < shown.len() implies #[trigger] shown[k] == ' '
            || !is_white_space(shown[k]) by {
            if k < left.len() {
                assert(shown[k] == left[k]);
            } else {
                assert(shown[k] == part[k - left.len()]);
            }
        }
        assert(shown.last() == part.last());
    }
}

/// A name of a bracket that stands in a line stands behind the speaker.
proof fn lemma_not_in_head(head: Seq<char>, text: Seq<char>, name: Seq<char>)
    requires
        name.len() > 0,
        name[0] == '&',
        forall|k: int| 0 <= k < head.len() ==> #[trigger] head[k] != '&',
        !contains_text(text, name),
    ensures
        !contains_text(head + text, name),
{
    let whole = head + text;
    if contains_text(whole, name) {
        let at = choose|at: int| #[trigger] occurs_at(whole, at, name);
        lemma_occurs(whole, at, name, 0);
        if at < head.len() {
            assert(whole[at] == head[at]);
        } else {
            assert(text.subrange(at - head.len(), at - head.len() + name.len())
                =~= whole.subrange(at, at + name.len()));
            assert(occurs_at(text, at - head.len(), name));
        }
    }
}

/// A line that a turn was written in is read as the turn.
proof fn lemma_line_read(turn: GlobalTurnView)
    requires
        is_readable(turn),
    ensures
        speaker_turn(unescaped(turn_line(turn))) == Some(
            (turn.speaker_id, single_spaced(turn.text)),
        ),
{
    reveal_strlit("：");
    lemma_turn_line(turn);
    lemma_speaker_plain(turn.speaker_id);
    lemma_single_spaced(turn.text);
    let speaker = turn.speaker_id;
    let text = single_spaced(turn.text);
    let plain = speaker + "："@ + text;
    let at = speaker.len() as int;
    assert forall|k: int| 0 <= k < at implies #[trigger] plain[k] != '：' && plain[k] != ':' by {
        assert(plain[k] == speaker[k]);
    }
    assert(plain[at] == '：');
    lemma_position_of(plain, '：', 0, at);
    lemma_position_after(plain, ':', 0, at);
    assert(plain.take(at) =~= speaker);
    assert(plain.skip(at + 1) =~= text);
    lemma_trimmed_whole(speaker);
    lemma_trimmed_whole(text);
}

proof fn lemma_position_after(text: Seq<char>, c: char, from: int, at: int)
    requires
        0 <= from <= at < text.len(),
        forall|k: int| from <= k <= at ==> #[trigger] text[k] != c,
    ensures
        position_of(text, c, from) > at,
    decreases at - from,
{
    assert(text[from] != c);
    if from < at {
        lemma_position_after(text, c, from + 1, at);
    } else {
        lemma_position_bound(text, c, from + 1);
    }
}

proof fn lemma_position_bound(text: Seq<char>, c: char, from: int)
    requires
        0 <= from <= text.len(),
    ensures
        from <= position_of(text, c, from) <= text.len(),
    decreases text.len() - from,
{
    if from < text.len() && text[from] != c {
        lemma_position_bound(text, c, from + 1);
    }
}

// ---------------------------------------------------------------------------
// Turns
// ---------------------------------------------------------------------------

/// A line of its own: it has characters, and no line end.
spec fn is_line(text: Seq<char>) -> bool {
    text.len() > 0 && forall|k: int|
        0 <= k < text.len() ==> #[trigger] text[k] != '\n' && text[k] != '\r'
}

proof fn lemma_joined_from_left(parts: Seq<Seq<char>>, separator: Seq<char>)
    requires
        parts.len() > 1,
    ensures
        joined(parts, separator) == parts[0] + separator + joined(parts.skip(1), separator),
    decreases parts.len(),
{
    let rest = parts.skip(1);
    let most = parts.drop_last();
    if parts.len() == 2 {
        assert(joined(most, separator) == parts[0]);
        assert(joined(rest, separator) == parts[1]);
    } else {
        lemma_joined_from_left(most, separator);
        assert(most.skip(1) =~= rest.drop_last());
        assert(rest.last() == parts.last());
        assert(joined(parts, separator) =~= parts[0] + separator + joined(rest, separator));
    }
}

/// The lines of texts with an empty line between each two.
#[verifier::spinoff_prover]
#[verifier::rlimit(50)]
proof fn lemma_spaced_lines(parts: Seq<Seq<char>>)
    requires
        parts.len() > 0,
        forall|k: int| 0 <= k < parts.len() ==> is_line(#[trigger] parts[k]),
    ensures
        lines_of(joined(parts, "\n\n"@)).len() == 2 * parts.len() - 1,
        forall|k: int|
            0 <= k < parts.len() ==> lines_of(joined(parts, "\n\n"@))[2 * k] == #[trigger] parts[k],
        forall|k: int|
            0 <= k < parts.len() - 1 ==> (#[trigger] lines_of(
                joined(parts, "\n\n"@),
            )[2 * k + 1]).len() == 0,
    decreases parts.len(),
{
    reveal_strlit("\n\n");
    let whole = joined(parts, "\n\n"@);
    let first = parts[0];
    let end = first.len() as int;
    assert(is_line(first));
    if parts.len() == 1 {
        assert(whole == first);
        lemma_position_of(whole, '\n', 0, end);
        assert(lines_of(whole) == seq![whole]);
    } else {
        let rest = parts.skip(1);
        assert forall|k: int| 0 <= k < rest.len() implies is_line(#[trigger] rest[k]) by {
            assert(rest[k] == parts[k + 1]);
        }
        lemma_spaced_lines(rest);
        lemma_joined_from_left(parts, "\n\n"@);
        let behind = joined(rest, "\n\n"@);
        assert(whole == first + "\n\n"@ + behind);
        assert forall|k: int| 0 <= k < end implies #[trigger] whole[k] != '\n' by {
            assert(whole[k] == first[k]);
        }
        assert(whole[end] == '\n');
        lemma_position_of(whole, '\n', 0, end);
        assert(whole[end - 1] == first[end - 1]);
        let gap = whole.skip(end + 1);
        assert(whole.take(end) =~= first);
        assert(lines_of(whole) == seq![first] + lines_of(gap));
        assert(gap[0] == '\n');
        lemma_position_of(gap, '\n', 0, 0);
        assert(gap.skip(1) =~= behind);
        assert(gap.take(0).len() == 0);
        assert(lines_of(gap) == seq![gap.take(0)] + lines_of(behind));
        let lines = lines_of(whole);
        assert(lines =~= seq![first, gap.take(0)] + lines_of(behind));
        assert forall|k: int| 0 <= k < parts.len() implies lines[2 * k] == #[trigger] parts[k] by {
            if k > 0 {
                assert(lines[2 * k] == lines_of(behind)[2 * (k - 1)]);
                assert(rest[k - 1] == parts[k]);
            }
        }
        assert forall|k: int| 0 <= k < parts.len() - 1 implies (#[trigger] lines[2 * k + 1]).len()
            == 0 by {
            if k > 0 {
                assert(lines[2 * k + 1] == lines_of(behind)[2 * (k - 1) + 1]);
            }
        }
    }
}

/// What is read of a turn.
pub open spec fn read_turn(turn: GlobalTurnView) -> (Seq<char>, Seq<char>) {
    (turn.speaker_id, single_spaced(turn.text))
}

proof fn lemma_body_read(turns: Seq<GlobalTurnView>, lines: Seq<Seq<char>>, n: nat)
    requires
        n <= lines.len(),
        lines.len() == 2 * turns.len() - 1,
        forall|k: int| 0 <= k < turns.len() ==> is_readable(#[trigger] turns[k]),
        forall|k: int| 0 <= k < turns.len() ==> lines[2 * k] == turn_line(#[trigger] turns[k]),
        forall|k: int| 0 <= k < turns.len() - 1 ==> (#[trigger] lines[2 * k + 1]).len() == 0,
    ensures
        body_turns(lines, n) == turns.take((n as int + 1) / 2).map_values(
            |turn: GlobalTurnView| read_turn(turn),
        ),
    decreases n,
{
    if n == 0 {
        assert(body_turns(lines, n) =~= turns.take(0).map_values(
            |turn: GlobalTurnView| read_turn(turn),
        ));
    } else {
        lemma_body_read(turns, lines, (n - 1) as nat);
        let at = n - 1;
        if at % 2 == 0 {
            let k = at / 2;
            let turn = turns[k];
            assert(lines[2 * k] == turn_line(turn));
            lemma_turn_line(turn);
            lemma_line_read(turn);
            assert(turns.take(k + 1) =~= turns.take(k).push(turn));
            assert(body_turns(lines, n) =~= turns.take(k + 1).map_values(
                |turn: GlobalTurnView| read_turn(turn),
            ));
        } else {
            let k = (at - 1) / 2;
            assert(lines[2 * k + 1].len() == 0);
            assert(trimmed(lines[at]).len() == 0);
        }
    }
}

/// Turns that are written in Markdown are read back: their speakers and their
/// words, in order.
pub proof fn lemma_turns_read_back(turns: Seq<GlobalTurnView>)
    requires
        turns.len() > 0,
        forall|k: int| 0 <= k < turns.len() ==> is_readable(#[trigger] turns[k]),
    ensures
        transcript_turns(rendered_turns(turns)) == turns.map_values(
            |turn: GlobalTurnView| read_turn(turn),
        ),
{
    reveal_strlit("---");
    let parts = turns.map_values(|turn: GlobalTurnView| turn_line(turn));
    assert forall|k: int| 0 <= k < parts.len() implies is_line(#[trigger] parts[k]) by {
        assert(is_readable(turns[k]));
        lemma_turn_line(turns[k]);
    }
    lemma_spaced_lines(parts);
    let content = rendered_turns(turns);
    let lines = lines_of(content);
    assert(is_readable(turns[0]));
    lemma_turn_line(turns[0]);
    assert(lines[0] == parts[0]);
    assert(marked_lines(content) =~= lines);
    assert(!is_fence(lines[0]));
    assert forall|k: int| 0 <= k < turns.len() implies lines[2 * k] == turn_line(
        #[trigger] turns[k],
    ) by {
        assert(parts[k] == turn_line(turns[k]));
    }
    lemma_body_read(turns, lines, lines.len());
    assert(turns.take(turns.len() as int) =~= turns);
}

proof fn lemma_line_names_unknown(turn: GlobalTurnView)
    requires
        is_hypothesis_speaker(turn.speaker_id),
    ensures
        starts_with(turn_line(turn), "UNKNOWN："@) <==> turn.speaker_id == "UNKNOWN"@,
{
    reveal_strlit("UNKNOWN：");
    reveal_strlit("UNKNOWN");
    reveal_strlit("：");
    let line = turn_line(turn);
    if turn.speaker_id == "UNKNOWN"@ {
        assert(line.subrange(0, 8) =~= "UNKNOWN："@);
    } else {
        assert(line[0] == 'S');
        if starts_with(line, "UNKNOWN："@) {
            assert(line.subrange(0, 8)[0] == 'U');
        }
    }
}

/// What is written of turns names a speaker that is not known where one of the
/// turns has none, and only there.
pub proof fn lemma_unknown_is_named(turns: Seq<GlobalTurnView>)
    requires
        forall|k: int|
            0 <= k < turns.len() ==> is_hypothesis_speaker((#[trigger] turns[k]).speaker_id),
    ensures
        names_unknown(trimmed(rendered_turns(turns))) <==> exists|k: int|
            0 <= k < turns.len() && (#[trigger] turns[k]).speaker_id == "UNKNOWN"@,
{
    reveal_strlit("UNKNOWN：");
    let content = rendered_turns(turns);
    let lines = lines_of(content);
    if turns.len() == 0 {
        reveal_strlit("\\[无可辨识语音\\]");
        lemma_trimmed_whole(content);
        lemma_position_of(content, '\n', 0, content.len() as int);
        assert(lines == seq![content]);
        assert(content.subrange(0, 8)[0] == '\\');
    } else {
        let parts = turns.map_values(|turn: GlobalTurnView| turn_line(turn));
        assert forall|k: int| 0 <= k < parts.len() implies is_line(#[trigger] parts[k]) by {
            assert(is_hypothesis_speaker(turns[k].speaker_id));
            lemma_line_shape(turns[k]);
        }
        lemma_spaced_lines(parts);
        let last = turns.len() - 1;
        assert(is_hypothesis_speaker(turns[0].speaker_id));
        assert(is_hypothesis_speaker(turns[last].speaker_id));
        lemma_line_shape(turns[0]);
        lemma_line_shape(turns[last]);
        assert(parts[0] == turn_line(turns[0]));
        assert(parts.last() == turn_line(turns[last]));
        if parts.len() > 1 {
            lemma_joined_from_left(parts, "\n\n"@);
        }
        assert(content[0] == parts[0][0]);
        assert(content.last() == parts.last().last());
        lemma_trimmed_whole(content);
        assert forall|k: int| 0 <= k < turns.len() implies (starts_with(
            lines[2 * k],
            "UNKNOWN："@,
        ) <==> (#[trigger] turns[k]).speaker_id == "UNKNOWN"@) by {
            assert(parts[k] == turn_line(turns[k]));
            lemma_line_names_unknown(turns[k]);
        }
        if names_unknown(content) {
            let at = choose|at: int|
                0 <= at < lines.len() && starts_with(#[trigger] lines[at], "UNKNOWN："@);
            let k = at / 2;
            if at % 2 == 0 {
                assert(at == 2 * k);
                assert(turns[k].speaker_id == "UNKNOWN"@);
            } else {
                assert(at == 2 * k + 1);
                assert(lines[2 * k + 1].len() == 0);
            }
        }
        if exists|k: int| 0 <= k < turns.len() && (#[trigger] turns[k]).speaker_id == "UNKNOWN"@ {
            let k = choose|k: int|
                0 <= k < turns.len() && (#[trigger] turns[k]).speaker_id == "UNKNOWN"@;
            assert(starts_with(lines[2 * k], "UNKNOWN："@));
        }
    }
}

/// Every speaker is written as one that is read.
proof fn lemma_speaker_is_read(speaker: Option<usize>)
    ensures
        is_hypothesis_speaker(speaker_text(speaker)),
{
    if let Some(k) = speaker {
        reveal_strlit("S");
        lemma_decimal_round_trip((k + 1) as nat);
        assert(speaker_text(speaker).skip(1) =~= decimal((k + 1) as nat));
    }
}

/// The text of a stretch of audio is read back as its turns with their
/// speakers.
pub proof fn lemma_chunk_read_back(
    transcript: LocalTranscript,
    start_ms: int,
    speakers: Seq<Option<usize>>,
    known: nat,
)
    requires
        transcript.turns@.len() > 0,
        forall|k: int|
            0 <= k < transcript.turns@.len() ==> !contains_text(
                single_spaced((#[trigger] transcript.turns@[k]).text@),
                "&lt;"@,
            ) && !contains_text(single_spaced(transcript.turns@[k].text@), "&gt;"@),
    ensures
        transcript_turns(chunk_result(transcript, start_ms, speakers, known).text) == Seq::new(
            transcript.turns@.len(),
            |k: int| (speaker_text(speakers[k]), single_spaced(transcript.turns@[k].text@)),
        ),
{
    let turns = global_turns(transcript, start_ms, speakers);
    assert forall|k: int| 0 <= k < turns.len() implies is_readable(#[trigger] turns[k]) by {
        lemma_speaker_is_read(speakers[k]);
        assert(turns[k].text == transcript.turns@[k].text@);
    }
    lemma_turns_read_back(turns);
    assert(turns.map_values(|turn: GlobalTurnView| read_turn(turn)) =~= Seq::new(
        transcript.turns@.len(),
        |k: int| (speaker_text(speakers[k]), single_spaced(transcript.turns@[k].text@)),
    ));
}

} // verus!
