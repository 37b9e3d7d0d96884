//! What is heard in one stretch of audio, checked.
use vstd::prelude::*;
use crate::media::storage::lesser;
use crate::media::{at_least_zero, MediaChunk};
use crate::speaker::labels::{
    label_list, labels_of, local_label_fault, validate_local_speaker_label,
};
use crate::speaker::{LocalSpeakerTurn, LocalTranscript};
use crate::text::{
    decimal, decimal_string, fault_of, is_blank, same_text, single_space, single_spaced, texts,
    trimmed,
};

verus! {

/// A reply on a stretch of audio before it is checked.
#[derive(Debug)]
pub struct RawLocalTranscript {
    pub audio_status: String,
    pub target_complete: bool,
    pub processed_through_ms: u64,
    pub turns: Vec<LocalSpeakerTurn>,
}

/// The largest number of turns that a reply may have.
pub const MAX_LOCAL_TURNS: usize = 10_000;

/// The message on a reply that does not cover all of a stretch of audio.
pub open spec fn incomplete_text(complete: bool, through: u64, target: int) -> Seq<char> {
    "exact TARGET 未完整处理：complete="@ + (if complete {
        "true"@
    } else {
        "false"@
    }) + ", through="@ + decimal(through as nat) + "ms, target="@ + decimal(target as nat) + "ms"@
}

/// Why the head of a reply is not taken.
pub open spec fn head_fault(raw: RawLocalTranscript, duration: int) -> Option<Seq<char>> {
    let status = raw.audio_status@;
    if raw.turns@.len() > MAX_LOCAL_TURNS {
        Some("exact TARGET 返回的 turn 数量异常"@)
    } else if status != "speech"@ && status != "no_speech"@ {
        Some("exact TARGET 返回非法 audio_status"@)
    } else if !raw.target_complete || raw.processed_through_ms != duration {
        Some(incomplete_text(raw.target_complete, raw.processed_through_ms, duration))
    } else if status == "no_speech"@ && raw.turns@.len() > 0 {
        Some("audio_status=no_speech 时 turns 必须为空"@)
    } else if status == "speech"@ && raw.turns@.len() == 0 {
        Some("audio_status=speech 时 turns 不能为空"@)
    } else {
        None
    }
}

fn check_head(raw: &RawLocalTranscript, duration_ms: u64) -> (result: Result<(), String>)
    ensures
        fault_of(result) == head_fault(*raw, duration_ms as int),
{
    if raw.turns.len() > MAX_LOCAL_TURNS {
        return Err("exact TARGET 返回的 turn 数量异常".to_owned());
    }
    let speech = same_text(raw.audio_status.as_str(), "speech");
    let silent = same_text(raw.audio_status.as_str(), "no_speech");
    proof {
        reveal_strlit("speech");
        reveal_strlit("no_speech");
        assert("speech"@.len() != "no_speech"@.len());
    }
    if !speech && !silent {
        return Err("exact TARGET 返回非法 audio_status".to_owned());
    }
    if !raw.target_complete || raw.processed_through_ms != duration_ms {
        let mut message = "exact TARGET 未完整处理：complete=".to_owned();
        message.append(
            if raw.target_complete {
                "true"
            } else {
                "false"
            },
        );
        message.append(", through=");
        let through = decimal_string(raw.processed_through_ms);
        message.append(through.as_str());
        message.append("ms, target=");
        let target = decimal_string(duration_ms);
        message.append(target.as_str());
        message.append("ms");
        return Err(message);
    }
    if silent && raw.turns.len() > 0 {
        return Err("audio_status=no_speech 时 turns 必须为空".to_owned());
    }
    if speech && raw.turns.len() == 0 {
        return Err("audio_status=speech 时 turns 不能为空".to_owned());
    }
    Ok(())
}

/// Why a turn is not taken.
pub open spec fn turn_fault(turn: LocalSpeakerTurn, duration: int, max_speakers: int) -> Option<
    Seq<char>,
> {
    if trimmed(turn.text@).len() == 0 {
        Some("exact TARGET 返回空白 turn"@)
    } else if local_label_fault(turn.local_speaker_id@, max_speakers) is Some {
        local_label_fault(turn.local_speaker_id@, max_speakers)
    } else if turn.start_ms >= turn.end_ms || turn.end_ms > duration {
        Some("exact TARGET turn 时间越界"@)
    } else {
        None
    }
}

/// The first reason, from the turn `n` on, why a turn is not taken.
pub open spec fn turns_fault(
    turns: Seq<LocalSpeakerTurn>,
    duration: int,
    max_speakers: int,
    n: int,
) -> Option<Seq<char>>
    decreases turns.len() - n,
{
    if n < 0 || n >= turns.len() {
        None
    } else if turn_fault(turns[n], duration, max_speakers) is Some {
        turn_fault(turns[n], duration, max_speakers)
    } else {
        turns_fault(turns, duration, max_speakers, n + 1)
    }
}

proof fn lemma_turns_checked(
    turns: Seq<LocalSpeakerTurn>,
    duration: int,
    max_speakers: int,
    n: int,
)
    requires
        0 <= n <= turns.len(),
        turns_fault(turns, duration, max_speakers, n) is None,
    ensures
        forall|k: int|
            n <= k < turns.len() ==> turn_fault(#[trigger] turns[k], duration, max_speakers) is None,
    decreases turns.len() - n,
{
    if n < turns.len() {
        lemma_turns_checked(turns, duration, max_speakers, n + 1);
    }
}

fn check_turns(turns: &Vec<LocalSpeakerTurn>, duration_ms: u64, max_speakers: usize) -> (result:
    Result<(), String>)
    ensures
        fault_of(result) == turns_fault(turns@, duration_ms as int, max_speakers as int, 0),
{
    let mut n: usize = 0;
    while n < turns.len()
        invariant
            n <= turns@.len(),
            turns_fault(turns@, duration_ms as int, max_speakers as int, n as int) == turns_fault(
                turns@,
                duration_ms as int,
                max_speakers as int,
                0,
            ),
        decreases turns@.len() - n,
    {
        let turn = &turns[n];
        if is_blank(turn.text.as_str()) {
            return Err("exact TARGET 返回空白 turn".to_owned());
        }
        if let Err(message) = validate_local_speaker_label(
            turn.local_speaker_id.as_str(),
            max_speakers,
        ) {
            return Err(message);
        }
        if turn.start_ms >= turn.end_ms || turn.end_ms > duration_ms {
            return Err("exact TARGET turn 时间越界".to_owned());
        }
        n += 1;
    }
    Ok(())
}

/// Two turns with the same label and the same words.
pub open spec fn says_same(turn: LocalSpeakerTurn, other: LocalSpeakerTurn) -> bool {
    turn.local_speaker_id@ == other.local_speaker_id@ && single_spaced(turn.text@)
        == single_spaced(other.text@)
}

/// The last of the first `n` turns that says the same as a turn.
pub open spec fn last_same(turns: Seq<LocalSpeakerTurn>, turn: LocalSpeakerTurn, n: nat) -> Option<
    int,
>
    decreases n,
{
    if n == 0 {
        None
    } else if says_same(turn, turns[n - 1]) {
        Some(n - 1)
    } else {
        last_same(turns, turn, (n - 1) as nat)
    }
}

pub open spec fn greater(a: int, b: int) -> int {
    if a >= b {
        a
    } else {
        b
    }
}

/// A number times a factor, at most the largest of its kind.
pub open spec fn capped_product(n: int, factor: int) -> int {
    lesser(n * factor, u64::MAX as int)
}

/// Two turns share four fifths of the shorter one.
pub open spec fn mostly_overlap(turn: LocalSpeakerTurn, other: LocalSpeakerTurn) -> bool {
    let shared = at_least_zero(
        lesser(turn.end_ms as int, other.end_ms as int) - greater(
            turn.start_ms as int,
            other.start_ms as int,
        ),
    );
    let shorter = lesser(
        turn.end_ms - turn.start_ms,
        at_least_zero(other.end_ms - other.start_ms),
    );
    capped_product(shared, 100) >= capped_product(shorter, 80)
}

/// Why a turn does not fit behind those before it.
pub open spec fn order_fault(turns: Seq<LocalSpeakerTurn>, n: int) -> Option<Seq<char>> {
    if n > 0 && turns[n].start_ms < turns[n - 1].start_ms {
        Some("exact TARGET turn 时间线不是单调顺序"@)
    } else {
        match last_same(turns, turns[n], n as nat) {
            Some(k) => if mostly_overlap(turns[n], turns[k]) {
                Some("exact TARGET 返回高度重叠的重复 turn"@)
            } else {
                None
            },
            None => None,
        }
    }
}

/// The first reason, from the turn `n` on, why a turn does not fit.
pub open spec fn orders_fault(turns: Seq<LocalSpeakerTurn>, n: int) -> Option<Seq<char>>
    decreases turns.len() - n,
{
    if n < 0 || n >= turns.len() {
        None
    } else if order_fault(turns, n) is Some {
        order_fault(turns, n)
    } else {
        orders_fault(turns, n + 1)
    }
}

fn overlap_is_large(turn: &LocalSpeakerTurn, other: &LocalSpeakerTurn) -> (result: bool)
    requires
        turn.start_ms < turn.end_ms,
    ensures
        result == mostly_overlap(*turn, *other),
{
    let end: u64 = if turn.end_ms <= other.end_ms {
        turn.end_ms
    } else {
        other.end_ms
    };
    let start: u64 = if turn.start_ms >= other.start_ms {
        turn.start_ms
    } else {
        other.start_ms
    };
    let shared: u64 = if end >= start {
        end - start
    } else {
        0
    };
    let own: u64 = turn.end_ms - turn.start_ms;
    let theirs: u64 = if other.end_ms >= other.start_ms {
        other.end_ms - other.start_ms
    } else {
        0
    };
    let shorter: u64 = if own <= theirs {
        own
    } else {
        theirs
    };
    let most: u128 = u64::MAX as u128;
    let left: u128 = shared as u128 * 100;
    let right: u128 = shorter as u128 * 80;
    let left_capped: u128 = if left <= most {
        left
    } else {
        most
    };
    let right_capped: u128 = if right <= most {
        right
    } else {
        most
    };
    left_capped >= right_capped
}

fn find_last_same(turns: &Vec<LocalSpeakerTurn>, spaced: &Vec<String>, at: usize) -> (place: Option<
    usize,
>)
    requires
        at < turns@.len(),
        spaced@.len() == turns@.len(),
        forall|k: int|
            0 <= k < turns@.len() ==> (#[trigger] spaced@[k])@ == single_spaced(turns@[k].text@),
    ensures
        match place {
            Some(k) => last_same(turns@, turns@[at as int], at as nat) == Some(k as int) && k < at,
            None => last_same(turns@, turns@[at as int], at as nat) is None,
        },
{
    let mut n: usize = at;
    while n > 0
        invariant
            n <= at < turns@.len(),
            spaced@.len() == turns@.len(),
            forall|k: int|
                0 <= k < turns@.len() ==> (#[trigger] spaced@[k])@ == single_spaced(
                    turns@[k].text@,
                ),
            last_same(turns@, turns@[at as int], n as nat) == last_same(
                turns@,
                turns@[at as int],
                at as nat,
            ),
        decreases n,
    {
        assert(spaced@[n - 1]@ == single_spaced(turns@[n - 1].text@));
        assert(spaced@[at as int]@ == single_spaced(turns@[at as int].text@));
        if same_text(
            turns[at].local_speaker_id.as_str(),
            turns[n - 1].local_speaker_id.as_str(),
        ) && same_text(spaced[at].as_str(), spaced[n - 1].as_str()) {
            return Some(n - 1);
        }
        n -= 1;
    }
    None
}

fn check_order(turns: &Vec<LocalSpeakerTurn>) -> (result: Result<(), String>)
    requires
        forall|k: int|
            0 <= k < turns@.len() ==> (#[trigger] turns@[k]).start_ms < turns@[k].end_ms,
    ensures
        fault_of(result) == orders_fault(turns@, 0),
{
    let mut spaced: Vec<String> = Vec::new();
    let mut i: usize = 0;
    while i < turns.len()
        invariant
            i <= turns@.len(),
            spaced@.len() == i,
            forall|k: int|
                0 <= k < i ==> (#[trigger] spaced@[k])@ == single_spaced(turns@[k].text@),
        decreases turns@.len() - i,
    {
        spaced.push(single_space(turns[i].text.as_str()));
        i += 1;
    }
    let mut n: usize = 0;
    while n < turns.len()
        invariant
            n <= turns@.len(),
            forall|k: int|
                0 <= k < turns@.len() ==> (#[trigger] turns@[k]).start_ms < turns@[k].end_ms,
            spaced@.len() == turns@.len(),
            forall|k: int|
                0 <= k < turns@.len() ==> (#[trigger] spaced@[k])@ == single_spaced(
                    turns@[k].text@,
                ),
            orders_fault(turns@, n as int) == orders_fault(turns@, 0),
        decreases turns@.len() - n,
    {
        if n > 0 && turns[n].start_ms < turns[n - 1].start_ms {
            return Err("exact TARGET turn 时间线不是单调顺序".to_owned());
        }
        if let Some(k) = find_last_same(turns, &spaced, n) {
            assert(turns@[n as int].start_ms < turns@[n as int].end_ms);
            if overlap_is_large(&turns[n], &turns[k]) {
                return Err("exact TARGET 返回高度重叠的重复 turn".to_owned());
            }
        }
        n += 1;
    }
    Ok(())
}

/// Why a reply on a stretch of audio is not taken.
pub open spec fn reply_fault(raw: RawLocalTranscript, duration: int, max_speakers: int) -> Option<
    Seq<char>,
> {
    if head_fault(raw, duration) is Some {
        head_fault(raw, duration)
    } else if turns_fault(raw.turns@, duration, max_speakers, 0) is Some {
        turns_fault(raw.turns@, duration, max_speakers, 0)
    } else if orders_fault(raw.turns@, 0) is Some {
        orders_fault(raw.turns@, 0)
    } else if labels_of(raw.turns@).len() > max_speakers {
        Some("exact TARGET 局部说话人数超过安全上限"@)
    } else {
        None
    }
}

/// The transcript of a stretch of audio from a reply: the turns as they are,
/// without a word on where there is sound.
pub fn parse_local_transcript(
    raw: RawLocalTranscript,
    chunk: &MediaChunk,
    max_speakers: usize,
) -> (result: Result<LocalTranscript, String>)
    ensures
        match result {
            Ok(transcript) => {
                &&& reply_fault(raw, chunk.duration(), max_speakers as int) is None
                &&& transcript.has_speech == (raw.audio_status@ == "speech"@)
                &&& transcript.turns == raw.turns
                &&& transcript.activity_ranges is None
            },
            Err(message) => reply_fault(raw, chunk.duration(), max_speakers as int) == Some(
                message@,
            ),
        },
{
    let duration_ms: u64 = chunk.duration_ms();
    if let Err(message) = check_head(&raw, duration_ms) {
        return Err(message);
    }
    if let Err(message) = check_turns(&raw.turns, duration_ms, max_speakers) {
        return Err(message);
    }
    proof {
        lemma_turns_checked(raw.turns@, duration_ms as int, max_speakers as int, 0);
        assert forall|k: int| 0 <= k < raw.turns@.len() implies (
        #[trigger] raw.turns@[k]).start_ms < raw.turns@[k].end_ms by {
            assert(turn_fault(raw.turns@[k], duration_ms as int, max_speakers as int) is None);
        }
    }
    if let Err(message) = check_order(&raw.turns) {
        return Err(message);
    }
    let labels = label_list(&raw.turns);
    assert(texts(labels@).len() == labels@.len());
    if labels.len() > max_speakers {
        return Err("exact TARGET 局部说话人数超过安全上限".to_owned());
    }
    let has_speech = same_text(raw.audio_status.as_str(), "speech");
    Ok(LocalTranscript { has_speech, turns: raw.turns, activity_ranges: None })
}

impl LocalTranscript {
    /// The labels of the turns but `UNKNOWN`, in order, each once.
    pub fn local_speaker_ids(&self) -> (ids: Vec<String>)
        ensures
            texts(ids@) == labels_of(self.turns@),
    {
        label_list(&self.turns)
    }
}

/// The turns of a transcript that was taken lie in the stretch of audio and
/// start one after the other.
pub proof fn lemma_reply_in_order(raw: RawLocalTranscript, duration: int, max_speakers: int)
    requires
        reply_fault(raw, duration, max_speakers) is None,
    ensures
        forall|k: int|
            0 <= k < raw.turns@.len() ==> (#[trigger] raw.turns@[k]).start_ms < raw.turns@[k].end_ms
                <= duration,
        forall|j: int, k: int|
            0 <= j <= k < raw.turns@.len() ==> (#[trigger] raw.turns@[j]).start_ms <= (
            #[trigger] raw.turns@[k]).start_ms,
{
    let turns = raw.turns@;
    lemma_turns_checked(turns, duration, max_speakers, 0);
    assert forall|k: int| 0 <= k < turns.len() implies (#[trigger] turns[k]).start_ms
        < turns[k].end_ms <= duration by {
        assert(turn_fault(turns[k], duration, max_speakers) is None);
    }
    lemma_orders(turns, 0);
    assert forall|j: int, k: int| 0 <= j <= k < turns.len() implies (#[trigger] turns[j]).start_ms
        <= (#[trigger] turns[k]).start_ms by {
        lemma_order_steps(turns, j, k);
    }
}

proof fn lemma_orders(turns: Seq<LocalSpeakerTurn>, n: int)
    requires
        0 <= n <= turns.len(),
        orders_fault(turns, n) is None,
    ensures
        forall|k: int| n <= k < turns.len() ==> #[trigger] order_fault(turns, k) is None,
    decreases turns.len() - n,
{
    if n < turns.len() {
        lemma_orders(turns, n + 1);
    }
}

proof fn lemma_order_steps(turns: Seq<LocalSpeakerTurn>, j: int, k: int)
    requires
        0 <= j <= k < turns.len(),
        forall|m: int| 0 <= m < turns.len() ==> #[trigger] order_fault(turns, m) is None,
    ensures
        turns[j].start_ms <= turns[k].start_ms,
    decreases k - j,
{
    if j < k {
        lemma_order_steps(turns, j, k - 1);
        assert(order_fault(turns, k) is None);
    }
}

} // verus!
