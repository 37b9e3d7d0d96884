//! Labels: the keys of turns, the labels that hold for one stretch of audio
//! and those that hold for a whole recording.
use vstd::prelude::*;
use vstd::utf8::is_ascii_chars_encode_utf8;
use crate::media::packet::{is_numbered, is_turn_key, label_is_numbered, valid_turn_key};
use crate::openrouter::failure::{parse_number, written_number};
use crate::ordered::{
    comes_before, lemma_text_before_total, lemma_text_before_transitive, text_before,
};
use crate::speaker::LocalSpeakerTurn;
use crate::text::{
    all_digits, byte_len, bytes_in, chars_in_range, chars_of, decimal, decimal_string, digits_value,
    fault_of, is_ascii_digit_char, lemma_decimal_round_trip, parse_digits, same_text, starts_with,
    starts_with_str, string_of_range, text2, texts,
};

verus! {

// ---------------------------------------------------------------------------
// Keys of turns
// ---------------------------------------------------------------------------

/// The key of the turn at an index: `T` and the number of the turn, from one on.
pub open spec fn turn_key_text(index: int) -> Seq<char> {
    "T"@ + decimal((index + 1) as nat)
}

pub fn turn_key(turn_index: usize) -> (key: String)
    requires
        turn_index < usize::MAX,
    ensures
        key@ == turn_key_text(turn_index as int),
{
    let number = decimal_string((turn_index + 1) as u64);
    text2("T", number.as_str())
}

/// The index of the turn that a key names, where there are so many turns.
pub open spec fn index_of_key(key: Seq<char>, count: int) -> Option<int> {
    if is_turn_key(key) && 1 <= digits_value(key.skip(1)) <= count {
        Some(digits_value(key.skip(1)) - 1)
    } else {
        None
    }
}

pub fn turn_index_from_key(key: &str, turn_count: usize) -> (index: Option<usize>)
    ensures
        match index {
            Some(i) => index_of_key(key@, turn_count as int) == Some(i as int),
            None => index_of_key(key@, turn_count as int) is None,
        },
{
    if !valid_turn_key(key) {
        return None;
    }
    let chars = chars_of(key);
    let digits = chars_in_range(chars.as_slice(), 1, chars.len());
    assert(digits@ =~= key@.skip(1));
    match parse_digits(digits.as_slice()) {
        Some(number) => if number >= 1 && number <= turn_count as u64 {
            Some((number - 1) as usize)
        } else {
            None
        },
        None => None,
    }
}

/// A number below `10^k` has at most `k` digits.
proof fn lemma_decimal_len(n: nat, k: nat)
    requires
        k >= 1,
        n < pow10(k),
    ensures
        decimal(n).len() <= k,
    decreases k,
{
    if n >= 10 {
        assert(k >= 2) by {
            if k == 1 {
                assert(pow10(0) == 1);
            }
        }
        lemma_decimal_len(n / 10, (k - 1) as nat);
    }
}

spec fn pow10(k: nat) -> nat
    decreases k,
{
    if k == 0 {
        1
    } else {
        10 * pow10((k - 1) as nat)
    }
}

/// A number of sixty-four bits has at most twenty digits.
pub(crate) proof fn lemma_digits_of_word(n: nat)
    requires
        n <= u64::MAX,
    ensures
        decimal(n).len() <= 20,
{
    assert(n < pow10(20)) by {
        reveal_with_fuel(pow10, 21);
    }
    lemma_decimal_len(n, 20);
}

/// A number other than zero has no leading zero.
pub(crate) proof fn lemma_decimal_first(n: nat)
    requires
        n > 0,
    ensures
        decimal(n).len() > 0,
        decimal(n)[0] != '0',
    decreases n,
{
    if n >= 10 {
        lemma_decimal_first(n / 10);
    }
}

pub(crate) proof fn lemma_digits_bytes(text: Seq<char>, c: char)
    requires
        all_digits(text),
        (c as u32) < 128,
    ensures
        byte_len(seq![c] + text) == text.len() + 1,
{
    let whole = seq![c] + text;
    assert forall|i: int| 0 <= i < whole.len() implies '\0' <= #[trigger] whole[i] <= '\u{7f}' by {
        if i > 0 {
            assert(whole[i] == text[i - 1]);
        }
    }
    is_ascii_chars_encode_utf8(whole);
}

/// The key of a turn names that turn.
pub proof fn lemma_turn_key_round_trip(index: int, count: int)
    requires
        0 <= index < count <= u64::MAX,
    ensures
        index_of_key(turn_key_text(index), count) == Some(index),
{
    let number = (index + 1) as nat;
    let digits = decimal(number);
    reveal_strlit("T");
    lemma_decimal_round_trip(number);
    lemma_decimal_first(number);
    lemma_digits_of_word(number);
    lemma_digits_bytes(digits, 'T');
    let key = turn_key_text(index);
    assert("T"@ =~= seq!['T']);
    assert(key.skip(1) =~= digits);
}

// ---------------------------------------------------------------------------
// Labels in one stretch of audio
// ---------------------------------------------------------------------------

/// `UNKNOWN`, or `L` and a number up to the number of speakers.
pub open spec fn is_local_label(label: Seq<char>, max_speakers: int) -> bool {
    label == "UNKNOWN"@ || (byte_len(label) <= 16 && is_numbered(label, 'L') && 1 <= digits_value(
        label.skip(1),
    ) <= max_speakers)
}

pub open spec fn local_label_fault(label: Seq<char>, max_speakers: int) -> Option<Seq<char>> {
    if is_local_label(label, max_speakers) {
        None
    } else {
        Some("exact TARGET 返回非法局部说话人标签"@)
    }
}

pub fn validate_local_speaker_label(label: &str, max_speakers: usize) -> (result: Result<
    (),
    String,
>)
    ensures
        fault_of(result) == local_label_fault(label@, max_speakers as int),
{
    if same_text(label, "UNKNOWN") {
        return Ok(());
    }
    if bytes_in(label) <= 16 && label_is_numbered(label, 'L') {
        let chars = chars_of(label);
        let digits = chars_in_range(chars.as_slice(), 1, chars.len());
        assert(digits@ =~= label@.skip(1));
        if let Some(number) = parse_digits(digits.as_slice()) {
            if number >= 1 && number <= max_speakers as u64 {
                return Ok(());
            }
        }
    }
    Err("exact TARGET 返回非法局部说话人标签".to_owned())
}

/// The number by which a label of one stretch of audio is ordered: that behind
/// the letter `L`, or the largest where there is none.
pub open spec fn local_number(label: Seq<char>) -> int {
    if label.len() > 0 && label[0] == 'L' {
        match written_number(label.skip(1)) {
            Some(n) => n as int,
            None => u64::MAX as int,
        }
    } else {
        u64::MAX as int
    }
}

pub fn local_speaker_number(speaker: &str) -> (number: u64)
    ensures
        number == local_number(speaker@),
{
    let chars = chars_of(speaker);
    if chars.len() > 0 && chars[0] == 'L' {
        let rest = string_of_range(chars.as_slice(), 1, chars.len());
        assert(rest@ =~= speaker@.skip(1));
        match parse_number(rest.as_str()) {
            Some(n) => n,
            None => u64::MAX,
        }
    } else {
        u64::MAX
    }
}

/// The order of labels: by number, then as texts.
pub open spec fn label_before(left: Seq<char>, right: Seq<char>) -> bool {
    local_number(left) < local_number(right) || (local_number(left) == local_number(right)
        && text_before(left, right))
}

proof fn lemma_label_before(left: Seq<char>, right: Seq<char>)
    ensures
        !label_before(left, left),
        left != right ==> label_before(left, right) || label_before(right, left),
        !(label_before(left, right) && label_before(right, left)),
{
    lemma_text_before_total(left, right);
}

proof fn lemma_label_before_transitive(a: Seq<char>, b: Seq<char>, c: Seq<char>)
    requires
        label_before(a, b),
        label_before(b, c),
    ensures
        label_before(a, c),
{
    if text_before(a, b) && text_before(b, c) {
        lemma_text_before_transitive(a, b, c);
    }
}

fn is_label_before(left: &str, right: &str) -> (result: bool)
    ensures
        result == label_before(left@, right@),
{
    let a: u64 = local_speaker_number(left);
    let b: u64 = local_speaker_number(right);
    if a != b {
        return a < b;
    }
    comes_before(left, right)
}

/// A label put into a list in order, unless it is there.
pub open spec fn with_label(labels: Seq<Seq<char>>, label: Seq<char>) -> Seq<Seq<char>>
    decreases labels.len(),
{
    if labels.len() == 0 {
        seq![label]
    } else if labels.last() == label {
        labels
    } else if label_before(labels.last(), label) {
        labels.push(label)
    } else {
        with_label(labels.drop_last(), label).push(labels.last())
    }
}

/// The labels of the first `n` turns but `UNKNOWN`, in order, each once.
pub open spec fn labels_until(turns: Seq<LocalSpeakerTurn>, n: nat) -> Seq<Seq<char>>
    decreases n,
{
    if n == 0 {
        Seq::empty()
    } else {
        let before = labels_until(turns, (n - 1) as nat);
        if turns[n - 1].local_speaker_id@ == "UNKNOWN"@ {
            before
        } else {
            with_label(before, turns[n - 1].local_speaker_id@)
        }
    }
}

pub open spec fn labels_of(turns: Seq<LocalSpeakerTurn>) -> Seq<Seq<char>> {
    labels_until(turns, turns.len())
}

/// Each label comes before those behind it.
pub open spec fn labels_in_order(labels: Seq<Seq<char>>) -> bool {
    forall|i: int, j: int|
        0 <= i < j < labels.len() ==> label_before(#[trigger] labels[i], #[trigger] labels[j])
}

proof fn lemma_with_label(labels: Seq<Seq<char>>, label: Seq<char>)
    requires
        labels_in_order(labels),
    ensures
        labels_in_order(with_label(labels, label)),
        forall|other: Seq<char>| #[trigger]
            with_label(labels, label).contains(other) <==> labels.contains(other) || other == label,
        labels.len() <= with_label(labels, label).len() <= labels.len() + 1,
    decreases labels.len(),
{
    let after = with_label(labels, label);
    if labels.len() == 0 {
        assert(after[0] == label);
        assert forall|other: Seq<char>| #[trigger] after.contains(other) <==> labels.contains(other)
            || other == label by {}
    } else if labels.last() == label {
        assert(labels[labels.len() - 1] == label);
    } else if label_before(labels.last(), label) {
        assert forall|i: int, j: int| 0 <= i < j < after.len() implies label_before(
            #[trigger] after[i],
            #[trigger] after[j],
        ) by {
            if j == labels.len() && i < labels.len() - 1 {
                assert(label_before(labels[i], labels[labels.len() - 1]));
                lemma_label_before_transitive(labels[i], labels.last(), label);
            }
        }
        assert forall|other: Seq<char>| #[trigger] after.contains(other) <==> labels.contains(other)
            || other == label by {
            assert(after[labels.len() as int] == label);
            if labels.contains(other) {
                let k = choose|k: int| 0 <= k < labels.len() && labels[k] == other;
                assert(after[k] == other);
            }
        }
    } else {
        let shorter = labels.drop_last();
        assert(labels_in_order(shorter)) by {
            assert forall|i: int, j: int| 0 <= i < j < shorter.len() implies label_before(
                #[trigger] shorter[i],
                #[trigger] shorter[j],
            ) by {
                assert(shorter[i] == labels[i] && shorter[j] == labels[j]);
            }
        }
        lemma_with_label(shorter, label);
        lemma_label_before(labels.last(), label);
        let inner = with_label(shorter, label);
        assert forall|i: int, j: int| 0 <= i < j < after.len() implies label_before(
            #[trigger] after[i],
            #[trigger] after[j],
        ) by {
            if j == inner.len() {
                assert(inner.contains(inner[i]));
                if inner[i] != label {
                    assert(shorter.contains(inner[i]));
                    let k = choose|k: int| 0 <= k < shorter.len() && shorter[k] == inner[i];
                    assert(labels[k] == inner[i]);
                    assert(label_before(labels[k], labels[labels.len() - 1]));
                }
            } else {
                assert(after[i] == inner[i] && after[j] == inner[j]);
            }
        }
        assert forall|other: Seq<char>| #[trigger] after.contains(other) <==> labels.contains(other)
            || other == label by {
            if after.contains(other) {
                let k = choose|k: int| 0 <= k < after.len() && after[k] == other;
                if k < inner.len() {
                    assert(inner[k] == other);
                    assert(inner.contains(other));
                    if other != label {
                        let m = choose|m: int| 0 <= m < shorter.len() && shorter[m] == other;
                        assert(labels[m] == other);
                    }
                } else {
                    assert(labels[labels.len() - 1] == other);
                }
            }
            if labels.contains(other) {
                let k = choose|k: int| 0 <= k < labels.len() && labels[k] == other;
                if k < shorter.len() {
                    assert(shorter[k] == other);
                    assert(inner.contains(other));
                    let m = choose|m: int| 0 <= m < inner.len() && inner[m] == other;
                    assert(after[m] == other);
                } else {
                    assert(after[inner.len() as int] == other);
                }
            }
            if other == label {
                assert(inner.contains(other));
                let m = choose|m: int| 0 <= m < inner.len() && inner[m] == other;
                assert(after[m] == other);
            }
        }
    }
}

/// A turn among the first `n` has a label, and it is not `UNKNOWN`.
pub open spec fn is_labelled(turns: Seq<LocalSpeakerTurn>, n: int, label: Seq<char>) -> bool {
    label != "UNKNOWN"@ && exists|k: int|
        0 <= k < n && #[trigger] turns[k].local_speaker_id@ == label
}

/// The labels of turns stand in order, each once, and they are those that a
/// turn has, but `UNKNOWN`.
pub proof fn lemma_labels(turns: Seq<LocalSpeakerTurn>, n: nat)
    requires
        n <= turns.len(),
    ensures
        labels_in_order(labels_until(turns, n)),
        forall|label: Seq<char>| #[trigger]
            labels_until(turns, n).contains(label) <==> is_labelled(turns, n as int, label),
        labels_until(turns, n).len() <= n,
    decreases n,
{
    if n > 0 {
        lemma_labels(turns, (n - 1) as nat);
        let before = labels_until(turns, (n - 1) as nat);
        let own = turns[n - 1].local_speaker_id@;
        lemma_with_label(before, own);
        assert forall|label: Seq<char>| #[trigger]
            labels_until(turns, n).contains(label) <==> is_labelled(turns, n as int, label) by {
            if is_labelled(turns, n as int, label) {
                let k = choose|k: int|
                    0 <= k < n && #[trigger] turns[k].local_speaker_id@ == label;
                if k < n - 1 {
                    assert(is_labelled(turns, n - 1, label));
                    assert(before.contains(label));
                }
            }
            if labels_until(turns, n).contains(label) {
                if before.contains(label) {
                    assert(is_labelled(turns, n - 1, label));
                }
            }
        }
    }
}

proof fn lemma_with_label_back(labels: Seq<Seq<char>>, label: Seq<char>, at: int)
    requires
        0 <= at <= labels.len(),
        forall|k: int| at <= k < labels.len() ==> label_before(label, #[trigger] labels[k]),
    ensures
        with_label(labels, label) == with_label(labels.take(at), label) + labels.skip(at),
    decreases labels.len() - at,
{
    if at < labels.len() {
        let shorter = labels.drop_last();
        lemma_label_before(labels.last(), label);
        assert(label_before(label, labels[labels.len() - 1]));
        assert forall|k: int| at <= k < shorter.len() implies label_before(
            label,
            #[trigger] shorter[k],
        ) by {
            assert(shorter[k] == labels[k]);
        }
        lemma_with_label_back(shorter, label, at);
        assert(shorter.take(at) =~= labels.take(at));
        assert(labels.skip(at) =~= shorter.skip(at).push(labels.last()));
        assert(with_label(labels, label) =~= with_label(labels.take(at), label) + labels.skip(at));
    } else {
        assert(labels.take(at) =~= labels);
        assert(with_label(labels, label) =~= with_label(labels.take(at), label) + labels.skip(at));
    }
}

fn put_label(labels: &mut Vec<String>, label: &str)
    ensures
        texts(final(labels)@) == with_label(texts(old(labels)@), label@),
{
    let ghost before = texts(labels@);
    let ghost held = labels@;
    let mut at: usize = labels.len();
    while at > 0 && is_label_before(label, labels[at - 1].as_str())
        invariant
            at <= labels@.len(),
            labels@ == held,
            before == texts(held),
            forall|k: int| at <= k < before.len() ==> label_before(label@, #[trigger] before[k]),
        decreases at,
    {
        assert(before[at - 1] == held[at - 1]@);
        at -= 1;
    }
    proof {
        lemma_with_label_back(before, label@, at as int);
        if at > 0 {
            assert(before.take(at as int).last() == held[at - 1]@);
            lemma_label_before(before[at - 1], label@);
        }
    }
    if at > 0 && same_text(labels[at - 1].as_str(), label) {
        assert(before.take(at as int) + before.skip(at as int) =~= before);
        return ;
    }
    let owned = label.to_owned();
    labels.insert(at, owned);
    assert(texts(labels@) =~= before.take(at as int).push(label@) + before.skip(at as int));
    assert(at == 0 ==> before.take(at as int).push(label@) =~= seq![label@]);
}

/// The labels of turns.
pub fn label_list(turns: &Vec<LocalSpeakerTurn>) -> (labels: Vec<String>)
    ensures
        texts(labels@) == labels_of(turns@),
        labels@.len() <= turns@.len(),
{
    let mut labels: Vec<String> = Vec::new();
    assert(texts(labels@) =~= labels_until(turns@, 0));
    let mut n: usize = 0;
    while n < turns.len()
        invariant
            n <= turns@.len(),
            texts(labels@) == labels_until(turns@, n as nat),
        decreases turns@.len() - n,
    {
        if !same_text(turns[n].local_speaker_id.as_str(), "UNKNOWN") {
            put_label(&mut labels, turns[n].local_speaker_id.as_str());
        }
        n += 1;
    }
    proof {
        lemma_labels(turns@, turns@.len());
        assert(texts(labels@).len() == labels@.len());
    }
    labels
}

// ---------------------------------------------------------------------------
// Labels for a whole recording
// ---------------------------------------------------------------------------

/// The label of a known speaker: `S` and a number from one on; `UNKNOWN` where
/// the speaker is not known.
pub open spec fn speaker_text(speaker: Option<usize>) -> Seq<char> {
    match speaker {
        Some(k) => "S"@ + decimal((k + 1) as nat),
        None => "UNKNOWN"@,
    }
}

pub fn speaker_label(speaker: Option<usize>) -> (label: String)
    requires
        speaker is Some ==> speaker->0 < usize::MAX,
    ensures
        label@ == speaker_text(speaker),
{
    match speaker {
        Some(k) => {
            let number = decimal_string((k + 1) as u64);
            text2("S", number.as_str())
        },
        None => "UNKNOWN".to_owned(),
    }
}

/// The part of a label behind `NEW` or `S`.
pub open spec fn number_part(label: Seq<char>) -> Option<Seq<char>> {
    if starts_with(label, "NEW"@) {
        Some(label.skip(3))
    } else if starts_with(label, "S"@) {
        Some(label.skip(1))
    } else {
        None
    }
}

/// Digits without a leading zero.
pub open spec fn is_plain_number(text: Seq<char>) -> bool {
    text.len() > 0 && text[0] != '0' && all_digits(text)
}

/// A label to which a turn may be mapped: `UNKNOWN`, or `NEW` or `S` and a
/// number.
pub open spec fn is_alignment_label(label: Seq<char>) -> bool {
    label == "UNKNOWN"@ || (byte_len(label) <= 32 && number_part(label) is Some && is_plain_number(
        number_part(label)->0,
    ))
}

pub open spec fn alignment_label_fault(label: Seq<char>) -> Option<Seq<char>> {
    if is_alignment_label(label) {
        None
    } else {
        Some("SpeakerHarness 返回非法身份映射标签"@)
    }
}

/// What a turn is mapped to: nothing, a known speaker or a new voice.
#[derive(Clone, Copy, Debug, PartialEq, Eq, Structural)]
pub enum Target {
    Unknown,
    Known(u64),
    New(u64),
}

/// The target that a label names, where its number is small enough.
pub open spec fn target_of(label: Seq<char>) -> Option<Target> {
    if label == "UNKNOWN"@ {
        Some(Target::Unknown)
    } else if !is_alignment_label(label) || digits_value(number_part(label)->0) > u64::MAX {
        None
    } else if starts_with(label, "NEW"@) {
        Some(Target::New(digits_value(number_part(label)->0) as u64))
    } else {
        Some(Target::Known(digits_value(number_part(label)->0) as u64))
    }
}

fn label_number(label: &str) -> (digits: Option<Vec<char>>)
    ensures
        match digits {
            Some(part) => number_part(label@) == Some(part@),
            None => number_part(label@) is None,
        },
{
    let chars = chars_of(label);
    proof {
        reveal_strlit("NEW");
        reveal_strlit("S");
    }
    if starts_with_str(label, "NEW") {
        let part = chars_in_range(chars.as_slice(), 3, chars.len());
        assert(part@ =~= label@.skip(3));
        Some(part)
    } else if starts_with_str(label, "S") {
        let part = chars_in_range(chars.as_slice(), 1, chars.len());
        assert(part@ =~= label@.skip(1));
        Some(part)
    } else {
        None
    }
}

fn plain_number(chars: &Vec<char>) -> (result: bool)
    ensures
        result == is_plain_number(chars@),
{
    if chars.len() == 0 || chars[0] == '0' {
        return false;
    }
    let mut k: usize = 0;
    while k < chars.len()
        invariant
            k <= chars@.len(),
            forall|i: int| 0 <= i < k ==> is_ascii_digit_char(#[trigger] chars@[i]),
        decreases chars@.len() - k,
    {
        if !crate::text::ascii_digit(chars[k]) {
            assert(!is_ascii_digit_char(chars@[k as int]));
            return false;
        }
        k += 1;
    }
    true
}

pub fn validate_alignment_label(label: &str) -> (result: Result<(), String>)
    ensures
        fault_of(result) == alignment_label_fault(label@),
{
    if same_text(label, "UNKNOWN") {
        return Ok(());
    }
    if bytes_in(label) <= 32 {
        if let Some(part) = label_number(label) {
            if plain_number(&part) {
                return Ok(());
            }
        }
    }
    Err("SpeakerHarness 返回非法身份映射标签".to_owned())
}

/// The target that a label names.
pub fn parse_target(label: &str) -> (target: Option<Target>)
    ensures
        target == target_of(label@),
{
    if same_text(label, "UNKNOWN") {
        return Some(Target::Unknown);
    }
    if validate_alignment_label(label).is_err() {
        return None;
    }
    match label_number(label) {
        Some(part) => match parse_digits(part.as_slice()) {
            Some(number) => if starts_with_str(label, "NEW") {
                Some(Target::New(number))
            } else {
                Some(Target::Known(number))
            },
            None => None,
        },
        None => None,
    }
}

/// The label of a known speaker names that speaker.
pub proof fn lemma_speaker_label_round_trip(k: usize)
    requires
        k < usize::MAX,
    ensures
        target_of(speaker_text(Some(k))) == Some(Target::Known((k + 1) as u64)),
{
    let number = (k + 1) as nat;
    let digits = decimal(number);
    reveal_strlit("S");
    reveal_strlit("NEW");
    reveal_strlit("UNKNOWN");
    lemma_decimal_round_trip(number);
    lemma_decimal_first(number);
    lemma_digits_of_word(number);
    lemma_digits_bytes(digits, 'S');
    let label = speaker_text(Some(k));
    assert("S"@ =~= seq!['S']);
    assert(label.skip(1) =~= digits);
    assert(label[0] == 'S');
    assert(label.subrange(0, 1) =~= "S"@);
    assert(label != "UNKNOWN"@) by {
        assert("UNKNOWN"@[0] == 'U');
    }
    assert(!starts_with(label, "NEW"@)) by {
        if starts_with(label, "NEW"@) {
            assert(label.subrange(0, 3)[0] == "NEW"@[0]);
        }
    }
}

} // verus!
