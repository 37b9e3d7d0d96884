//! The speakers of a whole recording: who is known, by which sound, and how
//! the turns of a stretch of audio are mapped to them.
use vstd::prelude::*;
use crate::config::Config;
use crate::media::{
    MediaChunk, SpeakerReferenceRange, MAX_IDENTITY_SAMPLE_MS, MIN_IDENTITY_REFERENCE_MS,
};
use crate::ordered::{comes_before, text_before};
use crate::output::{escape_markdown_text, escaped};
use crate::speaker::candidates::{
    candidate_number, candidate_numbers, candidates_of, is_eligible, lemma_candidates_bounded,
    lemma_candidates_in_order, select_candidates, turn_is_reference_eligible, TurnCandidate,
};
use crate::speaker::labels::{
    alignment_label_fault, parse_target, speaker_label, speaker_text, target_of, turn_key,
    turn_key_text, validate_alignment_label, Target,
};
use crate::speaker::LocalTranscript;
use crate::text::{
    decimal, decimal_string, join, joined, same_text, single_space, single_spaced, text2, text3,
    texts,
};

verus! {

// ---------------------------------------------------------------------------
// Results
// ---------------------------------------------------------------------------

/// A turn with its speaker and its place in the whole recording.
#[derive(Debug)]
pub struct GlobalSpeakerTurn {
    pub speaker_id: String,
    pub start_ms: u64,
    pub end_ms: u64,
    pub text: String,
    pub clean_reference: bool,
}

pub ghost struct GlobalTurnView {
    pub speaker_id: Seq<char>,
    pub start_ms: int,
    pub end_ms: int,
    pub text: Seq<char>,
    pub clean_reference: bool,
}

impl View for GlobalSpeakerTurn {
    type V = GlobalTurnView;

    open spec fn view(&self) -> GlobalTurnView {
        GlobalTurnView {
            speaker_id: self.speaker_id@,
            start_ms: self.start_ms as int,
            end_ms: self.end_ms as int,
            text: self.text@,
            clean_reference: self.clean_reference,
        }
    }
}

/// What becomes of a stretch of audio.
#[derive(Debug)]
pub struct SpeakerChunkResult {
    pub text: String,
    pub speaker_ids: Vec<String>,
    pub turns: Vec<GlobalSpeakerTurn>,
}

pub ghost struct ChunkResultView {
    pub text: Seq<char>,
    pub speaker_ids: Seq<Seq<char>>,
    pub turns: Seq<GlobalTurnView>,
}

pub open spec fn turn_views(turns: Seq<GlobalSpeakerTurn>) -> Seq<GlobalTurnView> {
    turns.map_values(|turn: GlobalSpeakerTurn| turn@)
}

impl View for SpeakerChunkResult {
    type V = ChunkResultView;

    open spec fn view(&self) -> ChunkResultView {
        ChunkResultView {
            text: self.text@,
            speaker_ids: texts(self.speaker_ids@),
            turns: turn_views(self.turns@),
        }
    }
}

/// A turn as it is shown: the speaker and the text, in one line.
pub open spec fn turn_line(turn: GlobalTurnView) -> Seq<char> {
    turn.speaker_id + "："@ + escaped(single_spaced(turn.text))
}

/// Turns as they are shown.
pub open spec fn rendered_turns(turns: Seq<GlobalTurnView>) -> Seq<char> {
    if turns.len() == 0 {
        "\\[无可辨识语音\\]"@
    } else {
        joined(turns.map_values(|turn: GlobalTurnView| turn_line(turn)), "\n\n"@)
    }
}

pub fn render_turns(turns: &Vec<GlobalSpeakerTurn>) -> (text: String)
    ensures
        text@ == rendered_turns(turn_views(turns@)),
{
    if turns.len() == 0 {
        return "\\[无可辨识语音\\]".to_owned();
    }
    let ghost lines = turn_views(turns@).map_values(|turn: GlobalTurnView| turn_line(turn));
    let mut parts: Vec<String> = Vec::new();
    let mut n: usize = 0;
    while n < turns.len()
        invariant
            n <= turns@.len(),
            lines == turn_views(turns@).map_values(|turn: GlobalTurnView| turn_line(turn)),
            parts@.len() == n,
            forall|k: int| 0 <= k < n ==> (#[trigger] parts@[k])@ == lines[k],
        decreases turns@.len() - n,
    {
        let plain = single_space(turns[n].text.as_str());
        let shown = escape_markdown_text(plain.as_str());
        assert(lines[n as int] == turn_line(turns@[n as int]@));
        parts.push(text3(turns[n].speaker_id.as_str(), "：", shown.as_str()));
        n += 1;
    }
    assert(texts(parts@) =~= lines);
    join(parts.as_slice(), "\n\n")
}

/// The turns of a transcript with their speakers.
pub open spec fn global_turns(
    transcript: LocalTranscript,
    start_ms: int,
    speakers: Seq<Option<usize>>,
) -> Seq<GlobalTurnView> {
    Seq::new(
        transcript.turns@.len(),
        |i: int|
            GlobalTurnView {
                speaker_id: speaker_text(speakers[i]),
                start_ms: start_ms + transcript.turns@[i].start_ms,
                end_ms: start_ms + transcript.turns@[i].end_ms,
                text: transcript.turns@[i].text@,
                clean_reference: transcript.turns@[i].clean_reference,
            },
    )
}

/// The times of a stretch of audio fit in the whole recording.
pub open spec fn times_fit(transcript: LocalTranscript, chunk: MediaChunk) -> bool {
    forall|i: int|
        0 <= i < transcript.turns@.len() ==> chunk.start_ms + (
        #[trigger] transcript.turns@[i]).start_ms <= u64::MAX && chunk.start_ms
            + transcript.turns@[i].end_ms <= u64::MAX
}

/// The speakers are among the first `known`.
pub open spec fn speakers_known(speakers: Seq<Option<usize>>, known: int) -> bool {
    forall|i: int|
        0 <= i < speakers.len() ==> ((#[trigger] speakers[i]) is Some ==> speakers[i]->0 < known)
}

fn make_turns(
    transcript: &LocalTranscript,
    chunk: &MediaChunk,
    speakers: &Vec<Option<usize>>,
) -> (turns: Vec<GlobalSpeakerTurn>)
    requires
        times_fit(*transcript, *chunk),
        speakers@.len() == transcript.turns@.len(),
        speakers_known(speakers@, usize::MAX as int),
    ensures
        turn_views(turns@) == global_turns(*transcript, chunk.start_ms as int, speakers@),
{
    let ghost wanted = global_turns(*transcript, chunk.start_ms as int, speakers@);
    let mut turns: Vec<GlobalSpeakerTurn> = Vec::new();
    let mut n: usize = 0;
    while n < transcript.turns.len()
        invariant
            n <= transcript.turns@.len(),
            times_fit(*transcript, *chunk),
            speakers@.len() == transcript.turns@.len(),
            speakers_known(speakers@, usize::MAX as int),
            wanted == global_turns(*transcript, chunk.start_ms as int, speakers@),
            turns@.len() == n,
            forall|k: int| 0 <= k < n ==> (#[trigger] turns@[k])@ == wanted[k],
        decreases transcript.turns@.len() - n,
    {
        let turn = &transcript.turns[n];
        assert(*turn == transcript.turns@[n as int]);
        assert(speakers@[n as int] is Some ==> speakers@[n as int]->0 < usize::MAX);
        let global = GlobalSpeakerTurn {
            speaker_id: speaker_label(speakers[n]),
            start_ms: chunk.start_ms + turn.start_ms,
            end_ms: chunk.start_ms + turn.end_ms,
            text: turn.text.clone(),
            clean_reference: turn.clean_reference,
        };
        assert(global@ == wanted[n as int]);
        turns.push(global);
        n += 1;
    }
    assert(turn_views(turns@) =~= wanted);
    turns
}

/// The labels of the speakers below `n` that speak.
pub open spec fn heard_until(speakers: Seq<Option<usize>>, n: nat) -> Seq<Seq<char>>
    decreases n,
{
    if n == 0 {
        Seq::empty()
    } else {
        let before = heard_until(speakers, (n - 1) as nat);
        if speakers.contains(Some((n - 1) as usize)) {
            before.push(speaker_text(Some((n - 1) as usize)))
        } else {
            before
        }
    }
}

/// The labels of all who speak: the known ones by number, then `UNKNOWN`.
pub open spec fn heard_ids(speakers: Seq<Option<usize>>, known: nat) -> Seq<Seq<char>> {
    if speakers.contains(None) {
        heard_until(speakers, known).push(speaker_text(None))
    } else {
        heard_until(speakers, known)
    }
}

fn speaks(speakers: &Vec<Option<usize>>, speaker: Option<usize>) -> (result: bool)
    ensures
        result == speakers@.contains(speaker),
{
    let mut n: usize = 0;
    while n < speakers.len()
        invariant
            n <= speakers@.len(),
            forall|k: int| 0 <= k < n ==> #[trigger] speakers@[k] != speaker,
        decreases speakers@.len() - n,
    {
        let same = match (speakers[n], speaker) {
            (Some(a), Some(b)) => a == b,
            (None, None) => true,
            _ => false,
        };
        if same {
            assert(speakers@[n as int] == speaker);
            return true;
        }
        n += 1;
    }
    false
}

fn push_label(labels: &mut Vec<String>, speaker: Option<usize>)
    requires
        speaker is Some ==> speaker->0 < usize::MAX,
    ensures
        texts(final(labels)@) == texts(old(labels)@).push(speaker_text(speaker)),
{
    let ghost before = texts(labels@);
    labels.push(speaker_label(speaker));
    assert(texts(labels@) =~= before.push(speaker_text(speaker)));
}

fn list_heard(speakers: &Vec<Option<usize>>, known: usize) -> (ids: Vec<String>)
    ensures
        texts(ids@) == heard_ids(speakers@, known as nat),
{
    let mut ids: Vec<String> = Vec::new();
    assert(texts(ids@) =~= Seq::empty());
    let mut n: usize = 0;
    while n < known
        invariant
            n <= known,
            texts(ids@) == heard_until(speakers@, n as nat),
        decreases known - n,
    {
        if speaks(speakers, Some(n)) {
            push_label(&mut ids, Some(n));
        }
        n += 1;
    }
    if speaks(speakers, None) {
        push_label(&mut ids, None);
    }
    ids
}

/// What becomes of a stretch of audio whose turns have these speakers.
pub open spec fn chunk_result(
    transcript: LocalTranscript,
    start_ms: int,
    speakers: Seq<Option<usize>>,
    known: nat,
) -> ChunkResultView {
    let turns = global_turns(transcript, start_ms, speakers);
    ChunkResultView {
        text: rendered_turns(turns),
        speaker_ids: heard_ids(speakers, known),
        turns,
    }
}

fn make_result(
    transcript: &LocalTranscript,
    chunk: &MediaChunk,
    speakers: &Vec<Option<usize>>,
    known: usize,
) -> (result: SpeakerChunkResult)
    requires
        times_fit(*transcript, *chunk),
        speakers@.len() == transcript.turns@.len(),
        speakers_known(speakers@, usize::MAX as int),
    ensures
        result@ == chunk_result(*transcript, chunk.start_ms as int, speakers@, known as nat),
{
    let turns = make_turns(transcript, chunk, speakers);
    let text = render_turns(&turns);
    let speaker_ids = list_heard(speakers, known);
    SpeakerChunkResult { text, speaker_ids, turns }
}

// ---------------------------------------------------------------------------
// Targets
// ---------------------------------------------------------------------------

/// The value of the first entry with a key, from the `n`th on.
pub open spec fn value_from(entries: Seq<(String, String)>, key: Seq<char>, n: int) -> Option<
    Seq<char>,
>
    decreases entries.len() - n,
{
    if n < 0 || n >= entries.len() {
        None
    } else if entries[n].0@ == key {
        Some(entries[n].1@)
    } else {
        value_from(entries, key, n + 1)
    }
}

/// A key stands twice.
pub open spec fn has_repeat(entries: Seq<(String, String)>) -> bool {
    exists|i: int, j: int|
        0 <= i < j < entries.len() && #[trigger] entries[i].0@ == #[trigger] entries[j].0@
}

/// The keys of entries are those of a list.
pub open spec fn covers(entries: Seq<(String, String)>, keys: Seq<Seq<char>>) -> bool {
    &&& forall|i: int| 0 <= i < entries.len() ==> keys.contains(#[trigger] entries[i].0@)
    &&& forall|k: int| 0 <= k < keys.len() ==> value_from(entries, #[trigger] keys[k], 0) is Some
}

/// A target that is in use, or a new one for which there is room.
pub open spec fn is_allowed(target: Option<Target>, known: int, max_speakers: int) -> bool {
    match target {
        Some(Target::Unknown) => true,
        Some(Target::Known(k)) => 1 <= k <= known,
        Some(Target::New(k)) => 1 <= k <= max_speakers - known,
        None => false,
    }
}

/// Why a label is no target.
pub open spec fn label_fault(label: Seq<char>, known: int, max_speakers: int) -> Option<
    Seq<char>,
> {
    if alignment_label_fault(label) is Some {
        alignment_label_fault(label)
    } else if !is_allowed(target_of(label), known, max_speakers) {
        Some("SpeakerHarness 身份映射返回未授权编号"@)
    } else {
        None
    }
}

/// Of the first `n` entries with a label that is no target, the one whose key
/// comes first.
pub open spec fn first_faulty(
    entries: Seq<(String, String)>,
    known: int,
    max_speakers: int,
    n: nat,
) -> Option<int>
    decreases n,
{
    if n == 0 {
        None
    } else {
        let held = first_faulty(entries, known, max_speakers, (n - 1) as nat);
        let entry = entries[n - 1];
        if label_fault(entry.1@, known, max_speakers) is Some && (held is None || text_before(
            entry.0@,
            entries[held->0].0@,
        )) {
            Some(n - 1)
        } else {
            held
        }
    }
}

/// Why a mapping is not taken.
pub open spec fn alignment_fault(
    entries: Seq<(String, String)>,
    keys: Seq<Seq<char>>,
    known: int,
    max_speakers: int,
) -> Option<Seq<char>> {
    if has_repeat(entries) {
        Some("SpeakerHarness 身份映射不是合法 JSON"@)
    } else if !covers(entries, keys) {
        Some("SpeakerHarness 身份映射没有精确覆盖全部候选 TURN"@)
    } else {
        match first_faulty(entries, known, max_speakers, entries.len()) {
            Some(k) => label_fault(entries[k].1@, known, max_speakers),
            None => None,
        }
    }
}

/// The keys of candidates.
pub open spec fn keys_of(candidates: Seq<(int, int, int)>) -> Seq<Seq<char>> {
    candidates.map_values(|candidate: (int, int, int)| turn_key_text(candidate.0))
}

/// The targets of candidates.
pub open spec fn targets_of(
    entries: Seq<(String, String)>,
    candidates: Seq<(int, int, int)>,
) -> Seq<Target> {
    Seq::new(
        candidates.len(),
        |k: int| target_of(value_from(entries, turn_key_text(candidates[k].0), 0)->0)->0,
    )
}

fn find_value<'a>(entries: &'a Vec<(String, String)>, key: &str) -> (value: Option<&'a str>)
    ensures
        match value {
            Some(text) => value_from(entries@, key@, 0) == Some(text@),
            None => value_from(entries@, key@, 0) is None,
        },
{
    let mut n: usize = 0;
    while n < entries.len()
        invariant
            n <= entries@.len(),
            value_from(entries@, key@, n as int) == value_from(entries@, key@, 0),
        decreases entries@.len() - n,
    {
        if same_text(entries[n].0.as_str(), key) {
            return Some(entries[n].1.as_str());
        }
        n += 1;
    }
    None
}

fn key_repeats(entries: &Vec<(String, String)>) -> (result: bool)
    ensures
        result == has_repeat(entries@),
{
    let mut i: usize = 0;
    while i < entries.len()
        invariant
            i <= entries@.len(),
            forall|a: int, b: int|
                0 <= a < b < entries@.len() && a < i ==> #[trigger] entries@[a].0@
                    != #[trigger] entries@[b].0@,
        decreases entries@.len() - i,
    {
        let mut j: usize = i + 1;
        while j < entries.len()
            invariant
                i < j <= entries@.len(),
                forall|b: int|
                    i < b < j ==> entries@[i as int].0@ != #[trigger] entries@[b].0@,
            decreases entries@.len() - j,
        {
            if same_text(entries[i].0.as_str(), entries[j].0.as_str()) {
                assert(entries@[i as int].0@ == entries@[j as int].0@);
                return true;
            }
            j += 1;
        }
        i += 1;
    }
    false
}

fn holds_key(keys: &Vec<String>, key: &str) -> (result: bool)
    ensures
        result == texts(keys@).contains(key@),
{
    let ghost all = texts(keys@);
    let mut n: usize = 0;
    while n < keys.len()
        invariant
            n <= keys@.len(),
            all == texts(keys@),
            forall|k: int| 0 <= k < n ==> #[trigger] all[k] != key@,
        decreases keys@.len() - n,
    {
        assert(all[n as int] == keys@[n as int]@);
        if same_text(keys[n].as_str(), key) {
            assert(all[n as int] == key@);
            return true;
        }
        n += 1;
    }
    false
}

fn covers_keys(entries: &Vec<(String, String)>, keys: &Vec<String>) -> (result: bool)
    ensures
        result == covers(entries@, texts(keys@)),
{
    let ghost all = texts(keys@);
    let mut i: usize = 0;
    while i < entries.len()
        invariant
            i <= entries@.len(),
            all == texts(keys@),
            forall|a: int| 0 <= a < i ==> all.contains(#[trigger] entries@[a].0@),
        decreases entries@.len() - i,
    {
        if !holds_key(keys, entries[i].0.as_str()) {
            assert(!all.contains(entries@[i as int].0@));
            return false;
        }
        i += 1;
    }
    let mut k: usize = 0;
    while k < keys.len()
        invariant
            k <= keys@.len(),
            all == texts(keys@),
            forall|b: int| 0 <= b < k ==> value_from(entries@, #[trigger] all[b], 0) is Some,
        decreases keys@.len() - k,
    {
        assert(all[k as int] == keys@[k as int]@);
        if find_value(entries, keys[k].as_str()).is_none() {
            assert(value_from(entries@, all[k as int], 0) is None);
            return false;
        }
        k += 1;
    }
    true
}

fn check_label(label: &str, known: usize, max_speakers: usize) -> (fault: Option<String>)
    requires
        known <= max_speakers,
    ensures
        match fault {
            Some(message) => label_fault(label@, known as int, max_speakers as int) == Some(
                message@,
            ),
            None => label_fault(label@, known as int, max_speakers as int) is None,
        },
{
    if let Err(message) = validate_alignment_label(label) {
        return Some(message);
    }
    let allowed = match parse_target(label) {
        Some(Target::Unknown) => true,
        Some(Target::Known(k)) => k >= 1 && k <= known as u64,
        Some(Target::New(k)) => k >= 1 && k <= (max_speakers - known) as u64,
        None => false,
    };
    if allowed {
        None
    } else {
        Some("SpeakerHarness 身份映射返回未授权编号".to_owned())
    }
}

pub(crate) proof fn lemma_first_faulty(
    entries: Seq<(String, String)>,
    known: int,
    max_speakers: int,
    n: nat,
)
    requires
        n <= entries.len(),
    ensures
        match first_faulty(entries, known, max_speakers, n) {
            Some(k) => 0 <= k < n && label_fault(entries[k].1@, known, max_speakers) is Some,
            None => forall|k: int|
                0 <= k < n ==> label_fault((#[trigger] entries[k]).1@, known, max_speakers) is None,
        },
    decreases n,
{
    if n > 0 {
        lemma_first_faulty(entries, known, max_speakers, (n - 1) as nat);
    }
}

fn check_labels(entries: &Vec<(String, String)>, known: usize, max_speakers: usize) -> (fault:
    Option<String>)
    requires
        known <= max_speakers,
    ensures
        match fault {
            Some(message) => {
                let k = first_faulty(
                    entries@,
                    known as int,
                    max_speakers as int,
                    entries@.len(),
                );
                k is Some && label_fault(entries@[k->0].1@, known as int, max_speakers as int)
                    == Some(message@)
            },
            None => first_faulty(
                entries@,
                known as int,
                max_speakers as int,
                entries@.len(),
            ) is None,
        },
{
    let mut held: Option<(usize, String)> = None;
    let mut n: usize = 0;
    while n < entries.len()
        invariant
            n <= entries@.len(),
            known <= max_speakers,
            match held {
                Some((k, message)) => k < n && first_faulty(
                    entries@,
                    known as int,
                    max_speakers as int,
                    n as nat,
                ) == Some(k as int) && label_fault(
                    entries@[k as int].1@,
                    known as int,
                    max_speakers as int,
                ) == Some(message@),
                None => first_faulty(
                    entries@,
                    known as int,
                    max_speakers as int,
                    n as nat,
                ) is None,
            },
        decreases entries@.len() - n,
    {
        if let Some(message) = check_label(entries[n].1.as_str(), known, max_speakers) {
            let earlier = match &held {
                None => true,
                Some((k, _)) => comes_before(entries[n].0.as_str(), entries[*k].0.as_str()),
            };
            if earlier {
                held = Some((n, message));
            }
        }
        n += 1;
    }
    match held {
        Some((_, message)) => Some(message),
        None => None,
    }
}

// ---------------------------------------------------------------------------
// Speakers
// ---------------------------------------------------------------------------

/// A new voice is heard well enough to be known later: a turn with it can be
/// a reference, and its sample is two seconds long.
pub open spec fn is_qualified(
    transcript: LocalTranscript,
    candidates: Seq<(int, int, int)>,
    targets: Seq<Target>,
    voice: u64,
) -> bool {
    exists|k: int|
        0 <= k < candidates.len() && #[trigger] targets[k] == Target::New(voice)
            && candidates[k].2 - candidates[k].1 >= MIN_IDENTITY_REFERENCE_MS && is_eligible(
            transcript,
            candidates[k].0,
        )
}

/// The new voices among the first `n` candidates that get a speaker, in the
/// order in which they are heard.
pub open spec fn voices_until(
    transcript: LocalTranscript,
    candidates: Seq<(int, int, int)>,
    targets: Seq<Target>,
    n: nat,
) -> Seq<u64>
    decreases n,
{
    if n == 0 {
        Seq::empty()
    } else {
        let before = voices_until(transcript, candidates, targets, (n - 1) as nat);
        match targets[n - 1] {
            Target::New(voice) => if is_qualified(transcript, candidates, targets, voice)
                && !before.contains(voice) {
                before.push(voice)
            } else {
                before
            },
            _ => before,
        }
    }
}

/// The place of a number in a list, from a place on.
pub open spec fn place_in(list: Seq<u64>, number: u64, from: int) -> int
    decreases list.len() - from,
{
    if from < 0 || from >= list.len() {
        list.len() as int
    } else if list[from] == number {
        from
    } else {
        place_in(list, number, from + 1)
    }
}

/// The speaker of a target: new voices stand behind the known speakers.
pub open spec fn target_speaker(target: Target, voices: Seq<u64>, known: int) -> Option<usize> {
    match target {
        Target::Unknown => None,
        Target::Known(k) => Some((k - 1) as usize),
        Target::New(voice) => if voices.contains(voice) {
            Some((known + place_in(voices, voice, 0)) as usize)
        } else {
            None
        },
    }
}

/// The speaker of a turn: that of its candidate; none without one.
pub open spec fn speaker_until(
    candidates: Seq<(int, int, int)>,
    targets: Seq<Target>,
    voices: Seq<u64>,
    known: int,
    i: int,
    n: nat,
) -> Option<usize>
    decreases n,
{
    if n == 0 {
        None
    } else if candidates[n - 1].0 == i {
        target_speaker(targets[n - 1], voices, known)
    } else {
        speaker_until(candidates, targets, voices, known, i, (n - 1) as nat)
    }
}

/// The speakers of all turns.
pub open spec fn speakers_of(
    count: nat,
    candidates: Seq<(int, int, int)>,
    targets: Seq<Target>,
    voices: Seq<u64>,
    known: int,
) -> Seq<Option<usize>> {
    Seq::new(
        count,
        |i: int| speaker_until(candidates, targets, voices, known, i, candidates.len()),
    )
}

/// All targets are allowed.
pub open spec fn all_allowed(targets: Seq<Target>, known: int, max_speakers: int) -> bool {
    forall|k: int|
        0 <= k < targets.len() ==> is_allowed(Some(#[trigger] targets[k]), known, max_speakers)
}

proof fn lemma_value_allowed(
    entries: Seq<(String, String)>,
    key: Seq<char>,
    n: int,
    known: int,
    max_speakers: int,
)
    requires
        0 <= n <= entries.len(),
        value_from(entries, key, n) is Some,
        forall|k: int|
            0 <= k < entries.len() ==> label_fault(
                (#[trigger] entries[k]).1@,
                known,
                max_speakers,
            ) is None,
    ensures
        is_allowed(target_of(value_from(entries, key, n)->0), known, max_speakers),
    decreases entries.len() - n,
{
    if n < entries.len() {
        assert(label_fault(entries[n].1@, known, max_speakers) is None);
        if entries[n].0@ != key {
            lemma_value_allowed(entries, key, n + 1, known, max_speakers);
        }
    }
}

/// Where a mapping is taken, each of its targets is allowed.
pub(crate) proof fn lemma_all_allowed(
    entries: Seq<(String, String)>,
    candidates: Seq<(int, int, int)>,
    known: int,
    max_speakers: int,
)
    requires
        alignment_fault(entries, keys_of(candidates), known, max_speakers) is None,
    ensures
        all_allowed(targets_of(entries, candidates), known, max_speakers),
        forall|k: int|
            0 <= k < candidates.len() ==> value_from(
                entries,
                turn_key_text((#[trigger] candidates[k]).0),
                0,
            ) is Some,
{
    lemma_first_faulty(entries, known, max_speakers, entries.len());
    let targets = targets_of(entries, candidates);
    assert forall|k: int| 0 <= k < candidates.len() implies value_from(
        entries,
        turn_key_text((#[trigger] candidates[k]).0),
        0,
    ) is Some && is_allowed(Some(targets[k]), known, max_speakers) by {
        assert(keys_of(candidates)[k] == turn_key_text(candidates[k].0));
        lemma_value_allowed(entries, turn_key_text(candidates[k].0), 0, known, max_speakers);
    }
}

/// Different numbers up to a bound are no more than the bound.
proof fn lemma_distinct_bounded(list: Seq<u64>, bound: int)
    requires
        0 <= bound,
        list.no_duplicates(),
        forall|k: int| 0 <= k < list.len() ==> 1 <= #[trigger] list[k] <= bound,
    ensures
        list.len() <= bound,
    decreases bound,
{
    if list.len() > 0 {
        assert(1 <= list[0] <= bound);
        if exists|p: int| 0 <= p < list.len() && #[trigger] list[p] == bound {
            let p = choose|p: int| 0 <= p < list.len() && #[trigger] list[p] == bound;
            let rest = list.remove(p);
            assert forall|k: int| 0 <= k < rest.len() implies 1 <= #[trigger] rest[k] <= bound
                - 1 by {
                let m = if k < p {
                    k
                } else {
                    k + 1
                };
                assert(rest[k] == list[m]);
                assert(list[m] != list[p]);
            }
            assert(rest.no_duplicates()) by {
                assert forall|a: int, b: int|
                    0 <= a < rest.len() && 0 <= b < rest.len() && a != b implies rest[a]
                    != rest[b] by {
                    let a1 = if a < p {
                        a
                    } else {
                        a + 1
                    };
                    let b1 = if b < p {
                        b
                    } else {
                        b + 1
                    };
                    assert(rest[a] == list[a1] && rest[b] == list[b1]);
                }
            }
            lemma_distinct_bounded(rest, bound - 1);
        } else {
            assert forall|k: int| 0 <= k < list.len() implies 1 <= #[trigger] list[k] <= bound
                - 1 by {
                assert(list[k] != bound);
            }
            lemma_distinct_bounded(list, bound - 1);
        }
    }
}

/// The new voices are different ones for which there is room.
pub(crate) proof fn lemma_voices(
    transcript: LocalTranscript,
    candidates: Seq<(int, int, int)>,
    targets: Seq<Target>,
    known: int,
    max_speakers: int,
    n: nat,
)
    requires
        n <= candidates.len(),
        targets.len() == candidates.len(),
        known <= max_speakers,
        all_allowed(targets, known, max_speakers),
    ensures
        voices_until(transcript, candidates, targets, n).no_duplicates(),
        forall|k: int|
            0 <= k < voices_until(transcript, candidates, targets, n).len() ==> 1
                <= #[trigger] voices_until(transcript, candidates, targets, n)[k] <= max_speakers
                - known,
        voices_until(transcript, candidates, targets, n).len() <= max_speakers - known,
    decreases n,
{
    if n > 0 {
        lemma_voices(transcript, candidates, targets, known, max_speakers, (n - 1) as nat);
        let before = voices_until(transcript, candidates, targets, (n - 1) as nat);
        let after = voices_until(transcript, candidates, targets, n);
        assert(is_allowed(Some(targets[n - 1]), known, max_speakers));
        assert forall|k: int| 0 <= k < after.len() implies 1 <= #[trigger] after[k] <= max_speakers
            - known by {
            if k < before.len() {
                assert(after[k] == before[k]);
            }
        }
    }
    lemma_distinct_bounded(
        voices_until(transcript, candidates, targets, n),
        max_speakers - known,
    );
}

proof fn lemma_place_in(list: Seq<u64>, number: u64, from: int)
    requires
        0 <= from <= list.len(),
    ensures
        from <= place_in(list, number, from) <= list.len(),
        (exists|k: int| from <= k < list.len() && #[trigger] list[k] == number) ==> place_in(
            list,
            number,
            from,
        ) < list.len(),
    decreases list.len() - from,
{
    if from < list.len() {
        lemma_place_in(list, number, from + 1);
    }
}

/// Every speaker of a turn is known, or one of the new voices.
pub(crate) proof fn lemma_speakers_known(
    count: nat,
    candidates: Seq<(int, int, int)>,
    targets: Seq<Target>,
    voices: Seq<u64>,
    known: int,
    max_speakers: int,
    i: int,
    n: nat,
)
    requires
        n <= candidates.len(),
        targets.len() == candidates.len(),
        0 <= known <= max_speakers <= usize::MAX,
        voices.len() <= max_speakers - known,
        all_allowed(targets, known, max_speakers),
    ensures
        ({
            let speaker = speaker_until(candidates, targets, voices, known, i, n);
            speaker is Some ==> speaker->0 < known + voices.len()
        }),
    decreases n,
{
    if n > 0 {
        lemma_speakers_known(
            count,
            candidates,
            targets,
            voices,
            known,
            max_speakers,
            i,
            (n - 1) as nat,
        );
        assert(is_allowed(Some(targets[n - 1]), known, max_speakers));
        if let Target::New(voice) = targets[n - 1] {
            lemma_place_in(voices, voice, 0);
            if voices.contains(voice) {
                let k = choose|k: int| 0 <= k < voices.len() && voices[k] == voice;
                assert(voices[k] == voice);
            }
        }
    }
}

fn voice_qualified(
    transcript: &LocalTranscript,
    candidates: &Vec<TurnCandidate>,
    targets: &Vec<Target>,
    voice: u64,
) -> (result: bool)
    requires
        targets@.len() == candidates@.len(),
        forall|k: int|
            0 <= k < candidates@.len() ==> (#[trigger] candidates@[k]).turn_index
                < transcript.turns@.len() && candidates@[k].start_ms < candidates@[k].end_ms,
    ensures
        result == is_qualified(*transcript, candidate_numbers(candidates@), targets@, voice),
{
    let ghost all = candidate_numbers(candidates@);
    let mut k: usize = 0;
    while k < candidates.len()
        invariant
            k <= candidates@.len(),
            all == candidate_numbers(candidates@),
            targets@.len() == candidates@.len(),
            forall|j: int|
                0 <= j < candidates@.len() ==> (#[trigger] candidates@[j]).turn_index
                    < transcript.turns@.len() && candidates@[j].start_ms < candidates@[j].end_ms,
            forall|j: int|
                0 <= j < k ==> !(#[trigger] targets@[j] == Target::New(voice) && all[j].2 - all[j].1
                    >= MIN_IDENTITY_REFERENCE_MS && is_eligible(*transcript, all[j].0)),
        decreases candidates@.len() - k,
    {
        assert(all[k as int] == candidate_number(candidates@[k as int]));
        let candidate = candidates[k];
        let own = match targets[k] {
            Target::New(other) => other == voice,
            _ => false,
        };
        if own && candidate.end_ms - candidate.start_ms >= MIN_IDENTITY_REFERENCE_MS
            && turn_is_reference_eligible(transcript, candidate.turn_index) {
            assert(targets@[k as int] == Target::New(voice));
            return true;
        }
        k += 1;
    }
    false
}

fn number_place(list: &Vec<u64>, number: u64) -> (place: usize)
    ensures
        place == place_in(list@, number, 0),
        place <= list@.len(),
        place < list@.len() <==> list@.contains(number),
{
    let mut n: usize = 0;
    while n < list.len()
        invariant
            n <= list@.len(),
            place_in(list@, number, n as int) == place_in(list@, number, 0),
            forall|k: int| 0 <= k < n ==> #[trigger] list@[k] != number,
        decreases list@.len() - n,
    {
        if list[n] == number {
            assert(list@[n as int] == number);
            return n;
        }
        n += 1;
    }
    n
}

fn list_voices(
    transcript: &LocalTranscript,
    candidates: &Vec<TurnCandidate>,
    targets: &Vec<Target>,
) -> (voices: Vec<u64>)
    requires
        targets@.len() == candidates@.len(),
        forall|k: int|
            0 <= k < candidates@.len() ==> (#[trigger] candidates@[k]).turn_index
                < transcript.turns@.len() && candidates@[k].start_ms < candidates@[k].end_ms,
    ensures
        voices@ == voices_until(
            *transcript,
            candidate_numbers(candidates@),
            targets@,
            candidates@.len(),
        ),
{
    let ghost all = candidate_numbers(candidates@);
    let mut voices: Vec<u64> = Vec::new();
    let mut n: usize = 0;
    while n < candidates.len()
        invariant
            n <= candidates@.len(),
            all == candidate_numbers(candidates@),
            targets@.len() == candidates@.len(),
            forall|k: int|
                0 <= k < candidates@.len() ==> (#[trigger] candidates@[k]).turn_index
                    < transcript.turns@.len() && candidates@[k].start_ms < candidates@[k].end_ms,
            voices@ == voices_until(*transcript, all, targets@, n as nat),
        decreases candidates@.len() - n,
    {
        if let Target::New(voice) = targets[n] {
            if voice_qualified(transcript, candidates, targets, voice) && number_place(
                &voices,
                voice,
            ) == voices.len() {
                voices.push(voice);
            }
        }
        n += 1;
    }
    voices
}

fn list_targets(entries: &Vec<(String, String)>, keys: &Vec<String>, Ghost(candidates): Ghost<
    Seq<(int, int, int)>,
>) -> (targets: Vec<Target>)
    requires
        texts(keys@) == keys_of(candidates),
        forall|k: int|
            0 <= k < candidates.len() ==> value_from(
                entries@,
                turn_key_text((#[trigger] candidates[k]).0),
                0,
            ) is Some && target_of(
                value_from(entries@, turn_key_text(candidates[k].0), 0)->0,
            ) is Some,
    ensures
        targets@ == targets_of(entries@, candidates),
{
    let ghost wanted = targets_of(entries@, candidates);
    assert(texts(keys@).len() == keys@.len());
    let mut targets: Vec<Target> = Vec::new();
    let mut n: usize = 0;
    while n < keys.len()
        invariant
            n <= keys@.len(),
            keys@.len() == candidates.len(),
            texts(keys@) == keys_of(candidates),
            wanted == targets_of(entries@, candidates),
            forall|k: int|
                0 <= k < candidates.len() ==> value_from(
                    entries@,
                    turn_key_text((#[trigger] candidates[k]).0),
                    0,
                ) is Some && target_of(
                    value_from(entries@, turn_key_text(candidates[k].0), 0)->0,
                ) is Some,
            targets@.len() == n,
            forall|k: int| 0 <= k < n ==> #[trigger] targets@[k] == wanted[k],
        decreases keys@.len() - n,
    {
        assert(texts(keys@)[n as int] == keys@[n as int]@);
        assert(keys_of(candidates)[n as int] == turn_key_text(candidates[n as int].0));
        let mut target = Target::Unknown;
        if let Some(value) = find_value(entries, keys[n].as_str()) {
            if let Some(found) = parse_target(value) {
                target = found;
            }
        }
        assert(target == wanted[n as int]);
        targets.push(target);
        n += 1;
    }
    assert(targets@ =~= wanted);
    targets
}

fn list_speakers(
    count: usize,
    candidates: &Vec<TurnCandidate>,
    targets: &Vec<Target>,
    voices: &Vec<u64>,
    known: usize,
    max_speakers: usize,
) -> (speakers: Vec<Option<usize>>)
    requires
        targets@.len() == candidates@.len(),
        known <= max_speakers,
        voices@.len() <= max_speakers - known,
        all_allowed(targets@, known as int, max_speakers as int),
        forall|k: int|
            0 <= k < candidates@.len() ==> (#[trigger] candidates@[k]).turn_index < count,
    ensures
        speakers@ == speakers_of(
            count as nat,
            candidate_numbers(candidates@),
            targets@,
            voices@,
            known as int,
        ),
{
    let ghost all = candidate_numbers(candidates@);
    let mut speakers: Vec<Option<usize>> = Vec::new();
    let mut i: usize = 0;
    while i < count
        invariant
            i <= count,
            speakers@.len() == i,
            forall|k: int| 0 <= k < i ==> (#[trigger] speakers@[k]) is None,
        decreases count - i,
    {
        speakers.push(None);
        i += 1;
    }
    let mut n: usize = 0;
    while n < candidates.len()
        invariant
            n <= candidates@.len(),
            all == candidate_numbers(candidates@),
            targets@.len() == candidates@.len(),
            known <= max_speakers,
            voices@.len() <= max_speakers - known,
            all_allowed(targets@, known as int, max_speakers as int),
            forall|k: int|
                0 <= k < candidates@.len() ==> (#[trigger] candidates@[k]).turn_index < count,
            speakers@.len() == count,
            forall|k: int|
                0 <= k < count ==> #[trigger] speakers@[k] == speaker_until(
                    all,
                    targets@,
                    voices@,
                    known as int,
                    k,
                    n as nat,
                ),
        decreases candidates@.len() - n,
    {
        assert(is_allowed(Some(targets@[n as int]), known as int, max_speakers as int));
        assert(all[n as int] == candidate_number(candidates@[n as int]));
        let speaker: Option<usize> = match targets[n] {
            Target::Unknown => None,
            Target::Known(k) => Some((k - 1) as usize),
            Target::New(voice) => {
                let place: usize = number_place(voices, voice);
                if place < voices.len() {
                    Some(known + place)
                } else {
                    None
                }
            },
        };
        assert(speaker == target_speaker(targets@[n as int], voices@, known as int));
        speakers.set(candidates[n].turn_index, speaker);
        n += 1;
    }
    assert(speakers@ =~= speakers_of(count as nat, all, targets@, voices@, known as int));
    speakers
}

// ---------------------------------------------------------------------------
// References
// ---------------------------------------------------------------------------

/// How long a reference is, below zero where there is none.
pub open spec fn reference_ms(reference: Option<(u64, u64)>) -> int {
    match reference {
        Some((start, end)) => end - start,
        None => -1,
    }
}

/// The longest sample among the first `n` by which a speaker can be known
/// later, the first of several.
pub open spec fn best_reference(
    transcript: LocalTranscript,
    start_ms: int,
    candidates: Seq<(int, int, int)>,
    speakers: Seq<Option<usize>>,
    speaker: usize,
    n: nat,
) -> Option<(u64, u64)>
    decreases n,
{
    if n == 0 {
        None
    } else {
        let held = best_reference(
            transcript,
            start_ms,
            candidates,
            speakers,
            speaker,
            (n - 1) as nat,
        );
        let candidate = candidates[n - 1];
        if is_eligible(transcript, candidate.0) && candidate.2 - candidate.1
            >= MIN_IDENTITY_REFERENCE_MS && speakers[candidate.0] == Some(speaker) && candidate.2
            - candidate.1 > reference_ms(held) {
            Some(((start_ms + candidate.1) as u64, (start_ms + candidate.2) as u64))
        } else {
            held
        }
    }
}

/// The references when those that are missing have been looked for.
pub open spec fn updated_references(
    transcript: LocalTranscript,
    start_ms: int,
    candidates: Seq<(int, int, int)>,
    speakers: Seq<Option<usize>>,
    references: Seq<Option<(u64, u64)>>,
) -> Seq<Option<(u64, u64)>> {
    Seq::new(
        references.len(),
        |j: int|
            if references[j] is Some {
                references[j]
            } else {
                best_reference(
                    transcript,
                    start_ms,
                    candidates,
                    speakers,
                    j as usize,
                    candidates.len(),
                )
            },
    )
}

/// References with room for new speakers.
pub open spec fn with_room(references: Seq<Option<(u64, u64)>>, more: nat) -> Seq<
    Option<(u64, u64)>,
> {
    references + Seq::new(more, |k: int| None::<(u64, u64)>)
}

/// A reference is two to ten seconds long.
pub open spec fn is_reference(reference: Option<(u64, u64)>) -> bool {
    match reference {
        Some((start, end)) => MIN_IDENTITY_REFERENCE_MS <= end - start <= MAX_IDENTITY_SAMPLE_MS,
        None => true,
    }
}

fn find_reference(
    transcript: &LocalTranscript,
    chunk: &MediaChunk,
    candidates: &Vec<TurnCandidate>,
    speakers: &Vec<Option<usize>>,
    speaker: usize,
) -> (reference: Option<(u64, u64)>)
    requires
        speakers@.len() == transcript.turns@.len(),
        forall|k: int|
            0 <= k < candidates@.len() ==> (#[trigger] candidates@[k]).turn_index
                < transcript.turns@.len() && candidates@[k].start_ms < candidates@[k].end_ms
                && chunk.start_ms + candidates@[k].end_ms <= u64::MAX && candidates@[k].end_ms
                - candidates@[k].start_ms <= MAX_IDENTITY_SAMPLE_MS,
    ensures
        reference == best_reference(
            *transcript,
            chunk.start_ms as int,
            candidate_numbers(candidates@),
            speakers@,
            speaker,
            candidates@.len(),
        ),
        is_reference(reference),
{
    let ghost all = candidate_numbers(candidates@);
    let mut held: Option<(u64, u64)> = None;
    let mut n: usize = 0;
    while n < candidates.len()
        invariant
            n <= candidates@.len(),
            all == candidate_numbers(candidates@),
            speakers@.len() == transcript.turns@.len(),
            forall|k: int|
                0 <= k < candidates@.len() ==> (#[trigger] candidates@[k]).turn_index
                    < transcript.turns@.len() && candidates@[k].start_ms < candidates@[k].end_ms
                    && chunk.start_ms + candidates@[k].end_ms <= u64::MAX && candidates@[k].end_ms
                    - candidates@[k].start_ms <= MAX_IDENTITY_SAMPLE_MS,
            held == best_reference(
                *transcript,
                chunk.start_ms as int,
                all,
                speakers@,
                speaker,
                n as nat,
            ),
            is_reference(held),
        decreases candidates@.len() - n,
    {
        let candidate = candidates[n];
        assert(candidate == candidates@[n as int]);
        assert(all[n as int] == candidate_number(candidates@[n as int]));
        let own = match speakers[candidate.turn_index] {
            Some(k) => k == speaker,
            None => false,
        };
        let length: u64 = candidate.end_ms - candidate.start_ms;
        let longer = match held {
            None => true,
            Some((start, end)) => length > end - start,
        };
        if own && longer && length >= MIN_IDENTITY_REFERENCE_MS && turn_is_reference_eligible(
            transcript,
            candidate.turn_index,
        ) {
            held = Some((chunk.start_ms + candidate.start_ms, chunk.start_ms + candidate.end_ms));
        }
        n += 1;
    }
    held
}

// ---------------------------------------------------------------------------
// The harness
// ---------------------------------------------------------------------------

/// The speakers of a recording. The `k`th known speaker has the label `S` and
/// `k + 1`, and a sound by which it is known where there is a good one.
#[derive(Debug)]
pub struct SpeakerHarness {
    pub references: Vec<Option<(u64, u64)>>,
    pub max_speakers: usize,
    pub reference_duration_ms: u64,
}

/// The references of the first `n` speakers, with their labels.
pub open spec fn ranges_until(references: Seq<Option<(u64, u64)>>, n: nat) -> Seq<
    (Seq<char>, u64, u64),
>
    decreases n,
{
    if n == 0 {
        Seq::empty()
    } else {
        let before = ranges_until(references, (n - 1) as nat);
        match references[n - 1] {
            Some((start, end)) => before.push((speaker_text(Some((n - 1) as usize)), start, end)),
            None => before,
        }
    }
}

/// Ranges as texts and numbers.
pub open spec fn range_views(ranges: Seq<SpeakerReferenceRange>) -> Seq<(Seq<char>, u64, u64)> {
    ranges.map_values(
        |range: SpeakerReferenceRange| (range.speaker_id@, range.start_ms, range.end_ms),
    )
}

/// Candidates in the whole recording, with the keys of their turns.
pub open spec fn candidate_views(candidates: Seq<(int, int, int)>, start_ms: int) -> Seq<
    (Seq<char>, u64, u64),
> {
    candidates.map_values(
        |candidate: (int, int, int)|
            (
                turn_key_text(candidate.0),
                (start_ms + candidate.1) as u64,
                (start_ms + candidate.2) as u64,
            ),
    )
}

/// The labels of the first `n` speakers.
pub open spec fn known_labels(n: nat) -> Seq<Seq<char>> {
    Seq::new(n, |k: int| speaker_text(Some(k as usize)))
}

/// The labels of so many new voices.
pub open spec fn new_labels(n: nat) -> Seq<Seq<char>> {
    Seq::new(n, |k: int| "NEW"@ + decimal((k + 1) as nat))
}

/// The labels to which turns may be mapped.
pub open spec fn allowed_labels(known: nat, max_speakers: nat) -> Seq<Seq<char>> {
    (known_labels(known) + new_labels((max_speakers - known) as nat)).push("UNKNOWN"@)
}

fn push_range(ranges: &mut Vec<SpeakerReferenceRange>, speaker_id: String, start: u64, end: u64)
    ensures
        range_views(final(ranges)@) == range_views(old(ranges)@).push((speaker_id@, start, end)),
{
    let ghost before = range_views(ranges@);
    let range = SpeakerReferenceRange { speaker_id, start_ms: start, end_ms: end };
    ranges.push(range);
    assert(range_views(ranges@) =~= before.push((speaker_id@, start, end)));
}

pub(crate) fn push_text(list: &mut Vec<String>, text: String)
    ensures
        texts(final(list)@) == texts(old(list)@).push(text@),
{
    let ghost before = texts(list@);
    list.push(text);
    assert(texts(list@) =~= before.push(text@));
}

/// A mapping is taken: what is known afterwards is what was known before, with
/// a place for each voice that becomes a speaker and with the references that
/// were found for places that had none.
pub open spec fn takes_alignment(
    before: SpeakerHarness,
    assignments: Seq<(String, String)>,
    transcript: LocalTranscript,
    chunk: MediaChunk,
    after: SpeakerHarness,
) -> bool {
    let candidates = before.candidates(transcript);
    let known = before.references@.len();
    let targets = targets_of(assignments, candidates);
    let voices = voices_until(transcript, candidates, targets, candidates.len());
    let speakers = speakers_of(transcript.turns@.len(), candidates, targets, voices, known as int);
    &&& alignment_fault(
        assignments,
        keys_of(candidates),
        known as int,
        before.max_speakers as int,
    ) is None
    &&& after.max_speakers == before.max_speakers
    &&& after.reference_duration_ms == before.reference_duration_ms
    &&& after.references@ == updated_references(
        transcript,
        chunk.start_ms as int,
        candidates,
        speakers,
        with_room(before.references@, voices.len()),
    )
}

/// Nothing that is known changes.
pub open spec fn keeps_speakers(before: SpeakerHarness, after: SpeakerHarness) -> bool {
    &&& after.references@ == before.references@
    &&& after.max_speakers == before.max_speakers
    &&& after.reference_duration_ms == before.reference_duration_ms
}

impl SpeakerHarness {
    /// There are no more speakers than there may be, and every reference is
    /// two to ten seconds long.
    pub open spec fn well_formed(&self) -> bool {
        &&& self.references@.len() <= self.max_speakers
        &&& forall|k: int| 0 <= k < self.references@.len() ==> is_reference(#[trigger] self.references@[k])
    }

    /// The turns of a transcript that are compared.
    pub open spec fn candidates(&self, transcript: LocalTranscript) -> Seq<(int, int, int)> {
        candidates_of(transcript, self.reference_duration_ms as int)
    }

    pub fn new(config: &Config) -> (harness: SpeakerHarness)
        requires
            config.speaker_reference_seconds * 1_000 <= u64::MAX,
        ensures
            harness.well_formed(),
            harness.references@.len() == 0,
            harness.max_speakers == config.max_speakers,
            harness.reference_duration_ms == config.speaker_reference_seconds * 1_000,
    {
        SpeakerHarness {
            references: Vec::new(),
            max_speakers: config.max_speakers,
            reference_duration_ms: config.speaker_reference_seconds * 1_000,
        }
    }

    /// The sounds by which speakers are known, in the order of the speakers.
    pub fn reference_ranges(&self) -> (ranges: Vec<SpeakerReferenceRange>)
        requires
            self.well_formed(),
        ensures
            range_views(ranges@) == ranges_until(self.references@, self.references@.len()),
    {
        let mut ranges: Vec<SpeakerReferenceRange> = Vec::new();
        assert(range_views(ranges@) =~= Seq::empty());
        let mut n: usize = 0;
        while n < self.references.len()
            invariant
                n <= self.references@.len() <= self.max_speakers,
                range_views(ranges@) == ranges_until(self.references@, n as nat),
            decreases self.references@.len() - n,
        {
            if let Some((start, end)) = self.references[n] {
                push_range(&mut ranges, speaker_label(Some(n)), start, end);
            }
            n += 1;
        }
        ranges
    }

    /// The samples of the turns that are compared.
    pub fn selected_turn_candidates(&self, transcript: &LocalTranscript) -> (candidates: Vec<
        TurnCandidate,
    >)
        ensures
            candidate_numbers(candidates@) == self.candidates(*transcript),
            forall|k: int|
                0 <= k < candidates@.len() ==> (#[trigger] candidates@[k]).turn_index
                    < transcript.turns@.len() && candidates@[k].start_ms < candidates@[k].end_ms
                    <= transcript.turns@[candidates@[k].turn_index as int].end_ms,
    {
        select_candidates(transcript, self.reference_duration_ms)
    }

    /// The samples of the turns that are compared, with the keys of the turns
    /// and with times in the whole recording.
    pub fn candidate_ranges(&self, transcript: &LocalTranscript, chunk: &MediaChunk) -> (ranges:
        Vec<SpeakerReferenceRange>)
        requires
            times_fit(*transcript, *chunk),
        ensures
            range_views(ranges@) == candidate_views(
                self.candidates(*transcript),
                chunk.start_ms as int,
            ),
    {
        let candidates = self.selected_turn_candidates(transcript);
        let ghost all = candidate_numbers(candidates@);
        let ghost wanted = candidate_views(all, chunk.start_ms as int);
        let mut ranges: Vec<SpeakerReferenceRange> = Vec::new();
        assert(range_views(ranges@) =~= wanted.take(0));
        let mut n: usize = 0;
        while n < candidates.len()
            invariant
                n <= candidates@.len(),
                times_fit(*transcript, *chunk),
                all == candidate_numbers(candidates@),
                wanted == candidate_views(all, chunk.start_ms as int),
                forall|k: int|
                    0 <= k < candidates@.len() ==> (#[trigger] candidates@[k]).turn_index
                        < transcript.turns@.len() && candidates@[k].start_ms
                        < candidates@[k].end_ms
                        <= transcript.turns@[candidates@[k].turn_index as int].end_ms,
                range_views(ranges@) == wanted.take(n as int),
            decreases candidates@.len() - n,
        {
            let candidate = candidates[n];
            assert(candidate == candidates@[n as int]);
            assert(all[n as int] == candidate_number(candidate));
            proof {
                assert(transcript.turns@.len() == transcript.turns.len());
                let turn = transcript.turns@[candidate.turn_index as int];
                assert(chunk.start_ms + turn.end_ms <= u64::MAX);
            }
            let start: u64 = chunk.start_ms + candidate.start_ms;
            let end: u64 = chunk.start_ms + candidate.end_ms;
            assert(wanted[n as int] == (
                turn_key_text(candidate.turn_index as int),
                start,
                end,
            ));
            push_range(&mut ranges, turn_key(candidate.turn_index), start, end);
            assert(range_views(ranges@) =~= wanted.take(n + 1));
            n += 1;
        }
        assert(wanted.take(n as int) =~= wanted);
        ranges
    }

    /// The keys of the turns that are compared.
    pub fn candidate_turn_keys(&self, transcript: &LocalTranscript) -> (keys: Vec<String>)
        ensures
            texts(keys@) == keys_of(self.candidates(*transcript)),
    {
        let candidates = self.selected_turn_candidates(transcript);
        candidate_keys(&candidates, transcript.turns.len())
    }

    /// The labels of the known speakers.
    pub fn known_speaker_ids(&self) -> (ids: Vec<String>)
        requires
            self.well_formed(),
        ensures
            texts(ids@) == known_labels(self.references@.len()),
    {
        let ghost wanted = known_labels(self.references@.len());
        let mut ids: Vec<String> = Vec::new();
        assert(texts(ids@) =~= wanted.take(0));
        let mut n: usize = 0;
        while n < self.references.len()
            invariant
                n <= self.references@.len() <= self.max_speakers,
                wanted == known_labels(self.references@.len()),
                texts(ids@) == wanted.take(n as int),
            decreases self.references@.len() - n,
        {
            push_label(&mut ids, Some(n));
            assert(texts(ids@) =~= wanted.take(n + 1));
            n += 1;
        }
        assert(wanted.take(n as int) =~= wanted);
        ids
    }

    /// The labels to which turns may be mapped: those of the known speakers,
    /// one for each new voice for which there is room, and `UNKNOWN`.
    pub fn allowed_alignment_ids(&self) -> (ids: Vec<String>)
        requires
            self.well_formed(),
        ensures
            texts(ids@) == allowed_labels(self.references@.len(), self.max_speakers as nat),
    {
        let mut ids = self.known_speaker_ids();
        let ghost first = known_labels(self.references@.len());
        let more: usize = self.max_speakers - self.references.len();
        let ghost wanted = new_labels(more as nat);
        assert(texts(ids@) =~= first + wanted.take(0));
        let mut n: usize = 0;
        while n < more
            invariant
                n <= more,
                wanted == new_labels(more as nat),
                texts(ids@) == first + wanted.take(n as int),
            decreases more - n,
        {
            let number = decimal_string((n + 1) as u64);
            push_text(&mut ids, text2("NEW", number.as_str()));
            assert(texts(ids@) =~= first + wanted.take(n + 1));
            n += 1;
        }
        assert(wanted.take(n as int) =~= wanted);
        push_text(&mut ids, "UNKNOWN".to_owned());
        ids
    }

    /// The state and the result of a stretch of audio whose turns have these
    /// speakers: references that are missing are looked for, the others stay.
    fn finalize(
        &mut self,
        transcript: &LocalTranscript,
        chunk: &MediaChunk,
        candidates: &Vec<TurnCandidate>,
        speakers: &Vec<Option<usize>>,
        more: usize,
    ) -> (result: SpeakerChunkResult)
        requires
            old(self).well_formed(),
            old(self).references@.len() + more <= old(self).max_speakers,
            times_fit(*transcript, *chunk),
            candidate_numbers(candidates@) == old(self).candidates(*transcript),
            speakers@.len() == transcript.turns@.len(),
            speakers_known(speakers@, old(self).references@.len() + more),
        ensures
            final(self).well_formed(),
            final(self).max_speakers == old(self).max_speakers,
            final(self).reference_duration_ms == old(self).reference_duration_ms,
            final(self).references@ == updated_references(
                *transcript,
                chunk.start_ms as int,
                old(self).candidates(*transcript),
                speakers@,
                with_room(old(self).references@, more as nat),
            ),
            result@ == chunk_result(
                *transcript,
                chunk.start_ms as int,
                speakers@,
                old(self).references@.len() + more as nat,
            ),
    {
        let ghost before = self.references@;
        let ghost roomy = with_room(before, more as nat);
        let ghost all = candidate_numbers(candidates@);
        let known: usize = self.references.len() + more;
        proof {
            lemma_candidates_bounded(*transcript, self.reference_duration_ms as int);
            assert forall|k: int| 0 <= k < candidates@.len() implies (
            #[trigger] candidates@[k]).turn_index < transcript.turns@.len()
                && candidates@[k].start_ms < candidates@[k].end_ms && chunk.start_ms
                + candidates@[k].end_ms <= u64::MAX && candidates@[k].end_ms
                - candidates@[k].start_ms <= MAX_IDENTITY_SAMPLE_MS by {
                assert(all[k] == candidate_number(candidates@[k]));
                let turn = transcript.turns@[all[k].0];
                assert(chunk.start_ms + turn.end_ms <= u64::MAX);
            }
        }
        let mut next: Vec<Option<(u64, u64)>> = Vec::new();
        let mut j: usize = 0;
        while j < known
            invariant
                j <= known,
                known == before.len() + more,
                before == self.references@,
                roomy == with_room(before, more as nat),
                all == candidate_numbers(candidates@),
                self.well_formed(),
                speakers@.len() == transcript.turns@.len(),
                forall|k: int|
                    0 <= k < candidates@.len() ==> (#[trigger] candidates@[k]).turn_index
                        < transcript.turns@.len() && candidates@[k].start_ms
                        < candidates@[k].end_ms && chunk.start_ms + candidates@[k].end_ms
                        <= u64::MAX && candidates@[k].end_ms - candidates@[k].start_ms
                        <= MAX_IDENTITY_SAMPLE_MS,
                next@.len() == j,
                forall|k: int|
                    0 <= k < j ==> #[trigger] next@[k] == updated_references(
                        *transcript,
                        chunk.start_ms as int,
                        all,
                        speakers@,
                        roomy,
                    )[k] && is_reference(next@[k]),
            decreases known - j,
        {
            let mut reference: Option<(u64, u64)> = None;
            if j < self.references.len() {
                reference = self.references[j];
                assert(is_reference(self.references@[j as int]));
            }
            assert(reference == roomy[j as int]);
            if reference.is_none() {
                reference = find_reference(transcript, chunk, candidates, speakers, j);
            }
            assert(all.len() == candidates@.len());
            next.push(reference);
            j += 1;
        }
        assert(next@ =~= updated_references(
            *transcript,
            chunk.start_ms as int,
            all,
            speakers@,
            roomy,
        ));
        let result = make_result(transcript, chunk, speakers, known);
        self.references = next;
        result
    }

    /// Takes a mapping of turns to speakers, as pairs of a key and a label. A
    /// mapping that is not taken changes nothing.
    pub fn apply_alignment(
        &mut self,
        assignments: &Vec<(String, String)>,
        transcript: &LocalTranscript,
        chunk: &MediaChunk,
    ) -> (result: Result<SpeakerChunkResult, String>)
        requires
            old(self).well_formed(),
            times_fit(*transcript, *chunk),
        ensures
            final(self).well_formed(),
            ({
                let candidates = old(self).candidates(*transcript);
                let known = old(self).references@.len();
                let fault = alignment_fault(
                    assignments@,
                    keys_of(candidates),
                    known as int,
                    old(self).max_speakers as int,
                );
                let targets = targets_of(assignments@, candidates);
                let voices = voices_until(*transcript, candidates, targets, candidates.len());
                let speakers = speakers_of(
                    transcript.turns@.len(),
                    candidates,
                    targets,
                    voices,
                    known as int,
                );
                match result {
                    Err(message) => fault == Some(message@) && *final(self) == *old(self),
                    Ok(outcome) => {
                        &&& takes_alignment(
                            *old(self),
                            assignments@,
                            *transcript,
                            *chunk,
                            *final(self),
                        )
                        &&& outcome@ == chunk_result(
                            *transcript,
                            chunk.start_ms as int,
                            speakers,
                            known + voices.len(),
                        )
                    },
                }
            }),
    {
        if key_repeats(assignments) {
            return Err("SpeakerHarness 身份映射不是合法 JSON".to_owned());
        }
        let candidates = self.selected_turn_candidates(transcript);
        let ghost all = self.candidates(*transcript);
        let keys = candidate_keys(&candidates, transcript.turns.len());
        if !covers_keys(assignments, &keys) {
            return Err("SpeakerHarness 身份映射没有精确覆盖全部候选 TURN".to_owned());
        }
        let known: usize = self.references.len();
        if let Some(message) = check_labels(assignments, known, self.max_speakers) {
            return Err(message);
        }
        proof {
            lemma_all_allowed(assignments@, all, known as int, self.max_speakers as int);
            assert forall|k: int| 0 <= k < all.len() implies value_from(
                assignments@,
                turn_key_text((#[trigger] all[k]).0),
                0,
            ) is Some && target_of(
                value_from(assignments@, turn_key_text(all[k].0), 0)->0,
            ) is Some by {
                lemma_first_faulty(
                    assignments@,
                    known as int,
                    self.max_speakers as int,
                    assignments@.len(),
                );
                lemma_value_allowed(
                    assignments@,
                    turn_key_text(all[k].0),
                    0,
                    known as int,
                    self.max_speakers as int,
                );
            }
        }
        let targets = list_targets(assignments, &keys, Ghost(all));
        assert(candidates@.len() == all.len());
        let voices = list_voices(transcript, &candidates, &targets);
        proof {
            lemma_voices(
                *transcript,
                all,
                targets@,
                known as int,
                self.max_speakers as int,
                all.len(),
            );
        }
        let speakers = list_speakers(
            transcript.turns.len(),
            &candidates,
            &targets,
            &voices,
            known,
            self.max_speakers,
        );
        proof {
            assert forall|i: int| 0 <= i < speakers@.len() implies (
            (#[trigger] speakers@[i]) is Some ==> speakers@[i]->0 < known + voices@.len()) by {
                lemma_speakers_known(
                    transcript.turns@.len(),
                    all,
                    targets@,
                    voices@,
                    known as int,
                    self.max_speakers as int,
                    i,
                    all.len(),
                );
            }
        }
        Ok(self.finalize(transcript, chunk, &candidates, &speakers, voices.len()))
    }

    /// Leaves every turn of a stretch of audio without a speaker.
    pub fn apply_unknown_alignment(&mut self, transcript: &LocalTranscript, chunk: &MediaChunk) -> (result:
        SpeakerChunkResult)
        requires
            old(self).well_formed(),
            times_fit(*transcript, *chunk),
        ensures
            final(self).well_formed(),
            keeps_speakers(*old(self), *final(self)),
            result@ == chunk_result(
                *transcript,
                chunk.start_ms as int,
                Seq::new(transcript.turns@.len(), |i: int| None::<usize>),
                old(self).references@.len(),
            ),
    {
        let mut speakers: Vec<Option<usize>> = Vec::new();
        let mut n: usize = 0;
        while n < transcript.turns.len()
            invariant
                n <= transcript.turns@.len(),
                speakers@.len() == n,
                forall|k: int| 0 <= k < n ==> (#[trigger] speakers@[k]) is None,
            decreases transcript.turns@.len() - n,
        {
            speakers.push(None);
            n += 1;
        }
        let ghost nobody = Seq::new(transcript.turns@.len(), |i: int| None::<usize>);
        assert(speakers@ =~= nobody);
        let candidates = self.selected_turn_candidates(transcript);
        let ghost all = self.candidates(*transcript);
        let ghost before = self.references@;
        let result = self.finalize(transcript, chunk, &candidates, &speakers, 0);
        proof {
            let roomy = with_room(before, 0);
            assert(roomy =~= before);
            assert forall|j: int| 0 <= j < before.len() implies #[trigger] updated_references(
                *transcript,
                chunk.start_ms as int,
                all,
                nobody,
                roomy,
            )[j] == before[j] by {
                lemma_candidates_bounded(*transcript, self.reference_duration_ms as int);
                lemma_no_reference(
                    *transcript,
                    chunk.start_ms as int,
                    all,
                    nobody,
                    j as usize,
                    all.len(),
                );
            }
            assert(self.references@ =~= before);
        }
        result
    }
}

fn candidate_keys(candidates: &Vec<TurnCandidate>, count: usize) -> (keys: Vec<String>)
    requires
        forall|k: int|
            0 <= k < candidates@.len() ==> (#[trigger] candidates@[k]).turn_index < count,
    ensures
        texts(keys@) == keys_of(candidate_numbers(candidates@)),
{
    let ghost all = candidate_numbers(candidates@);
    let ghost wanted = keys_of(all);
    let mut keys: Vec<String> = Vec::new();
    assert(texts(keys@) =~= wanted.take(0));
    let mut n: usize = 0;
    while n < candidates.len()
        invariant
            n <= candidates@.len(),
            all == candidate_numbers(candidates@),
            wanted == keys_of(all),
            forall|k: int|
                0 <= k < candidates@.len() ==> (#[trigger] candidates@[k]).turn_index < count,
            texts(keys@) == wanted.take(n as int),
        decreases candidates@.len() - n,
    {
        assert(candidates@[n as int].turn_index < count);
        assert(all[n as int] == candidate_number(candidates@[n as int]));
        assert(wanted[n as int] == turn_key_text(all[n as int].0));
        push_text(&mut keys, turn_key(candidates[n].turn_index));
        assert(texts(keys@) =~= wanted.take(n + 1));
        n += 1;
    }
    assert(wanted.take(n as int) =~= wanted);
    keys
}

proof fn lemma_no_reference(
    transcript: LocalTranscript,
    start_ms: int,
    candidates: Seq<(int, int, int)>,
    speakers: Seq<Option<usize>>,
    speaker: usize,
    n: nat,
)
    requires
        n <= candidates.len(),
        forall|k: int|
            0 <= k < candidates.len() ==> 0 <= (#[trigger] candidates[k]).0 < speakers.len(),
        forall|i: int| 0 <= i < speakers.len() ==> #[trigger] speakers[i] != Some(speaker),
    ensures
        best_reference(transcript, start_ms, candidates, speakers, speaker, n) is None,
    decreases n,
{
    if n > 0 {
        lemma_no_reference(transcript, start_ms, candidates, speakers, speaker, (n - 1) as nat);
        assert(0 <= candidates[n - 1].0 < speakers.len());
    }
}

// ---------------------------------------------------------------------------
// Laws
// ---------------------------------------------------------------------------

/// A turn of which no sample is compared has no speaker.
pub proof fn lemma_unsampled_is_unknown(
    count: nat,
    candidates: Seq<(int, int, int)>,
    targets: Seq<Target>,
    voices: Seq<u64>,
    known: int,
    i: int,
)
    requires
        0 <= i < count,
        forall|k: int| 0 <= k < candidates.len() ==> (#[trigger] candidates[k]).0 != i,
    ensures
        speakers_of(count, candidates, targets, voices, known)[i] is None,
        speaker_text(speakers_of(count, candidates, targets, voices, known)[i]) == "UNKNOWN"@,
{
    lemma_unsampled_until(candidates, targets, voices, known, i, candidates.len());
}

proof fn lemma_unsampled_until(
    candidates: Seq<(int, int, int)>,
    targets: Seq<Target>,
    voices: Seq<u64>,
    known: int,
    i: int,
    n: nat,
)
    requires
        n <= candidates.len(),
        forall|k: int| 0 <= k < candidates.len() ==> (#[trigger] candidates[k]).0 != i,
    ensures
        speaker_until(candidates, targets, voices, known, i, n) is None,
    decreases n,
{
    if n > 0 {
        assert(candidates[n - 1].0 != i);
        lemma_unsampled_until(candidates, targets, voices, known, i, (n - 1) as nat);
    }
}

/// A turn of which a sample is compared has the speaker of its target.
pub proof fn lemma_sampled_speaker(
    transcript: LocalTranscript,
    reference_ms: int,
    targets: Seq<Target>,
    voices: Seq<u64>,
    known: int,
    k: int,
)
    requires
        0 <= k < candidates_of(transcript, reference_ms).len(),
    ensures
        ({
            let candidates = candidates_of(transcript, reference_ms);
            speakers_of(transcript.turns@.len(), candidates, targets, voices, known)[
            candidates[k].0] == target_speaker(targets[k], voices, known)
        }),
{
    lemma_candidates_bounded(transcript, reference_ms);
    lemma_candidates_in_order(transcript, reference_ms);
    let candidates = candidates_of(transcript, reference_ms);
    assert(0 <= candidates[k].0 < transcript.turns@.len());
    lemma_sampled_until(candidates, targets, voices, known, k, candidates.len());
}

proof fn lemma_sampled_until(
    candidates: Seq<(int, int, int)>,
    targets: Seq<Target>,
    voices: Seq<u64>,
    known: int,
    k: int,
    n: nat,
)
    requires
        0 <= k < n <= candidates.len(),
        forall|i: int, j: int|
            0 <= i < j < candidates.len() ==> (#[trigger] candidates[i]).0 < (
            #[trigger] candidates[j]).0,
    ensures
        speaker_until(candidates, targets, voices, known, candidates[k].0, n) == target_speaker(
            targets[k],
            voices,
            known,
        ),
    decreases n,
{
    if k < n - 1 {
        assert(candidates[k].0 < candidates[n - 1].0);
        lemma_sampled_until(candidates, targets, voices, known, k, (n - 1) as nat);
    }
}

/// A speaker that has a reference keeps it, and no speaker is forgotten.
pub proof fn lemma_references_kept(
    transcript: LocalTranscript,
    start_ms: int,
    candidates: Seq<(int, int, int)>,
    speakers: Seq<Option<usize>>,
    references: Seq<Option<(u64, u64)>>,
    more: nat,
)
    ensures
        ({
            let after = updated_references(
                transcript,
                start_ms,
                candidates,
                speakers,
                with_room(references, more),
            );
            &&& after.len() == references.len() + more
            &&& forall|k: int|
                0 <= k < references.len() && (#[trigger] references[k]) is Some ==> after[k]
                    == references[k]
        }),
{
    assert forall|k: int| 0 <= k < references.len() && (
    #[trigger] references[k]) is Some implies updated_references(
        transcript,
        start_ms,
        candidates,
        speakers,
        with_room(references, more),
    )[k] == references[k] by {
        assert(with_room(references, more)[k] == references[k]);
    }
}

proof fn lemma_voices_heard_until(
    transcript: LocalTranscript,
    candidates: Seq<(int, int, int)>,
    targets: Seq<Target>,
    n: nat,
)
    requires
        n <= candidates.len(),
    ensures
        voices_until(transcript, candidates, targets, n).no_duplicates(),
        forall|voice: u64| #[trigger]
            voices_until(transcript, candidates, targets, n).contains(voice) <==> (is_qualified(
                transcript,
                candidates,
                targets,
                voice,
            ) && exists|k: int| 0 <= k < n && #[trigger] targets[k] == Target::New(voice)),
    decreases n,
{
    if n > 0 {
        lemma_voices_heard_until(transcript, candidates, targets, (n - 1) as nat);
        let before = voices_until(transcript, candidates, targets, (n - 1) as nat);
        let after = voices_until(transcript, candidates, targets, n);
        assert forall|voice: u64| #[trigger] after.contains(voice) <==> (is_qualified(
            transcript,
            candidates,
            targets,
            voice,
        ) && exists|k: int| 0 <= k < n && #[trigger] targets[k] == Target::New(voice)) by {
            if after.contains(voice) {
                if before.contains(voice) {
                    let k = choose|k: int|
                        0 <= k < n - 1 && #[trigger] targets[k] == Target::New(voice);
                    assert(targets[k] == Target::New(voice));
                } else {
                    let m = choose|m: int| 0 <= m < after.len() && after[m] == voice;
                    if m < before.len() {
                        assert(before[m] == voice);
                    }
                    assert(targets[n - 1] == Target::New(voice));
                }
            } else if is_qualified(transcript, candidates, targets, voice) {
                assert(!before.contains(voice)) by {
                    if before.contains(voice) {
                        let m = choose|m: int| 0 <= m < before.len() && before[m] == voice;
                        assert(after[m] == voice);
                    }
                }
                if targets[n - 1] == Target::New(voice) {
                    assert(after[before.len() as int] == voice);
                }
            }
        }
        assert(after.no_duplicates()) by {
            assert forall|i: int, j: int|
                0 <= i < after.len() && 0 <= j < after.len() && i != j implies after[i]
                != after[j] by {
                if i < before.len() {
                    assert(before.contains(before[i]));
                }
                if j < before.len() {
                    assert(before.contains(before[j]));
                }
            }
        }
    }
}

/// The voices that become speakers are those of which a clean turn that stands
/// alone is heard for two seconds, each once. A voice that is heard only in
/// short turns becomes no speaker.
pub proof fn lemma_new_voices_are_heard(
    transcript: LocalTranscript,
    candidates: Seq<(int, int, int)>,
    targets: Seq<Target>,
)
    ensures
        voices_until(transcript, candidates, targets, candidates.len()).no_duplicates(),
        forall|voice: u64| #[trigger]
            voices_until(transcript, candidates, targets, candidates.len()).contains(voice)
                <==> is_qualified(transcript, candidates, targets, voice),
{
    lemma_voices_heard_until(transcript, candidates, targets, candidates.len());
    assert forall|voice: u64| is_qualified(transcript, candidates, targets, voice) implies exists|
        k: int,
    | 0 <= k < candidates.len() && #[trigger] targets[k] == Target::New(voice) by {
        let k = choose|k: int|
            0 <= k < candidates.len() && #[trigger] targets[k] == Target::New(voice)
                && candidates[k].2 - candidates[k].1 >= MIN_IDENTITY_REFERENCE_MS && is_eligible(
                transcript,
                candidates[k].0,
            );
        assert(targets[k] == Target::New(voice));
    }
}

/// The place of a member of a list without repetition is its own.
pub(crate) proof fn lemma_place_of(list: Seq<u64>, at: int, from: int)
    requires
        0 <= from <= at < list.len(),
        list.no_duplicates(),
    ensures
        place_in(list, list[at], from) == at,
    decreases at - from,
{
    if from < at {
        assert(list[from] != list[at]);
        lemma_place_of(list, at, from + 1);
    }
}

/// Turns with the same target have the same speaker, whatever stands between
/// them. Different new voices that become speakers become different ones, and
/// none of them is a speaker that was known.
pub proof fn lemma_speakers_by_voice(
    transcript: LocalTranscript,
    reference_ms: int,
    targets: Seq<Target>,
    known: int,
    j: int,
    k: int,
)
    requires
        0 <= j < candidates_of(transcript, reference_ms).len(),
        0 <= k < candidates_of(transcript, reference_ms).len(),
        0 <= known,
        known + voices_until(
            transcript,
            candidates_of(transcript, reference_ms),
            targets,
            candidates_of(transcript, reference_ms).len(),
        ).len() <= usize::MAX,
    ensures
        ({
            let candidates = candidates_of(transcript, reference_ms);
            let voices = voices_until(transcript, candidates, targets, candidates.len());
            let speakers = speakers_of(
                transcript.turns@.len(),
                candidates,
                targets,
                voices,
                known,
            );
            let first = speakers[candidates[j].0];
            let second = speakers[candidates[k].0];
            &&& targets[j] == targets[k] ==> first == second
            &&& targets[j] is New && first is Some ==> first->0 >= known
            &&& targets[j] is New && targets[k] is New && targets[j] != targets[k] && first is Some
                && second is Some ==> first != second
        }),
{
    let candidates = candidates_of(transcript, reference_ms);
    let voices = voices_until(transcript, candidates, targets, candidates.len());
    lemma_sampled_speaker(transcript, reference_ms, targets, voices, known, j);
    lemma_sampled_speaker(transcript, reference_ms, targets, voices, known, k);
    lemma_new_voices_are_heard(transcript, candidates, targets);
    if let Target::New(voice) = targets[j] {
        if voices.contains(voice) {
            let at = choose|at: int| 0 <= at < voices.len() && voices[at] == voice;
            lemma_place_of(voices, at, 0);
            if let Target::New(other) = targets[k] {
                if voices.contains(other) {
                    let place = choose|place: int|
                        0 <= place < voices.len() && voices[place] == other;
                    lemma_place_of(voices, place, 0);
                }
            }
        }
    }
}

/// A sample by which a speaker can be known later.
pub open spec fn is_reference_sample(
    transcript: LocalTranscript,
    candidate: (int, int, int),
    speakers: Seq<Option<usize>>,
    speaker: usize,
) -> bool {
    is_eligible(transcript, candidate.0) && candidate.2 - candidate.1 >= MIN_IDENTITY_REFERENCE_MS
        && speakers[candidate.0] == Some(speaker)
}

proof fn lemma_best_reference(
    transcript: LocalTranscript,
    start_ms: int,
    candidates: Seq<(int, int, int)>,
    speakers: Seq<Option<usize>>,
    speaker: usize,
    n: nat,
)
    requires
        n <= candidates.len(),
    ensures
        best_reference(transcript, start_ms, candidates, speakers, speaker, n) is None <==> (
        forall|k: int|
            0 <= k < n ==> !is_reference_sample(
                transcript,
                #[trigger] candidates[k],
                speakers,
                speaker,
            )),
        best_reference(transcript, start_ms, candidates, speakers, speaker, n) is Some ==> exists|
            k: int,
        |
            0 <= k < n && is_reference_sample(
                transcript,
                #[trigger] candidates[k],
                speakers,
                speaker,
            ) && best_reference(transcript, start_ms, candidates, speakers, speaker, n) == Some(
                ((start_ms + candidates[k].1) as u64, (start_ms + candidates[k].2) as u64),
            ),
    decreases n,
{
    if n > 0 {
        lemma_best_reference(transcript, start_ms, candidates, speakers, speaker, (n - 1) as nat);
        let held = best_reference(
            transcript,
            start_ms,
            candidates,
            speakers,
            speaker,
            (n - 1) as nat,
        );
        let best = best_reference(transcript, start_ms, candidates, speakers, speaker, n);
        let last = candidates[n - 1];
        if best is None {
            assert forall|k: int| 0 <= k < n implies !is_reference_sample(
                transcript,
                #[trigger] candidates[k],
                speakers,
                speaker,
            ) by {
                if k == n - 1 {
                    assert(held is None);
                }
            }
        } else if best == held {
            let k = choose|k: int|
                0 <= k < n - 1 && is_reference_sample(
                    transcript,
                    #[trigger] candidates[k],
                    speakers,
                    speaker,
                ) && held == Some(
                    ((start_ms + candidates[k].1) as u64, (start_ms + candidates[k].2) as u64),
                );
            assert(is_reference_sample(transcript, candidates[k], speakers, speaker));
        } else {
            assert(is_reference_sample(transcript, last, speakers, speaker));
        }
    }
}

/// What is kept as a reference was compared: it is the sample of a clean turn
/// that stands alone, it is two seconds long, and the turn has the speaker. A
/// short turn, one that overlaps another and one that was not compared become
/// none.
pub proof fn lemma_reference_is_heard(
    transcript: LocalTranscript,
    start_ms: int,
    candidates: Seq<(int, int, int)>,
    speakers: Seq<Option<usize>>,
    references: Seq<Option<(u64, u64)>>,
    j: int,
)
    requires
        0 <= j < references.len() <= usize::MAX,
        references[j] is None,
    ensures
        ({
            let after = updated_references(
                transcript,
                start_ms,
                candidates,
                speakers,
                references,
            )[j];
            after is Some ==> exists|k: int|
                0 <= k < candidates.len() && is_reference_sample(
                    transcript,
                    #[trigger] candidates[k],
                    speakers,
                    j as usize,
                ) && after == Some(
                    ((start_ms + candidates[k].1) as u64, (start_ms + candidates[k].2) as u64),
                )
        }),
{
    lemma_best_reference(
        transcript,
        start_ms,
        candidates,
        speakers,
        j as usize,
        candidates.len(),
    );
}

/// Where every known speaker has a reference, every speaker has one after a
/// mapping is taken: a voice becomes a speaker only with a reference.
pub proof fn lemma_speakers_have_references(
    transcript: LocalTranscript,
    start_ms: int,
    duration_ms: int,
    targets: Seq<Target>,
    references: Seq<Option<(u64, u64)>>,
)
    requires
        forall|k: int| 0 <= k < references.len() ==> (#[trigger] references[k]) is Some,
        references.len() + voices_until(
            transcript,
            candidates_of(transcript, duration_ms),
            targets,
            candidates_of(transcript, duration_ms).len(),
        ).len() <= usize::MAX,
    ensures
        ({
            let candidates = candidates_of(transcript, duration_ms);
            let voices = voices_until(transcript, candidates, targets, candidates.len());
            let speakers = speakers_of(
                transcript.turns@.len(),
                candidates,
                targets,
                voices,
                references.len() as int,
            );
            let after = updated_references(
                transcript,
                start_ms,
                candidates,
                speakers,
                with_room(references, voices.len()),
            );
            forall|k: int| 0 <= k < after.len() ==> (#[trigger] after[k]) is Some
        }),
{
    let candidates = candidates_of(transcript, duration_ms);
    let voices = voices_until(transcript, candidates, targets, candidates.len());
    let known = references.len() as int;
    let speakers = speakers_of(transcript.turns@.len(), candidates, targets, voices, known);
    let room = with_room(references, voices.len());
    let after = updated_references(transcript, start_ms, candidates, speakers, room);
    lemma_new_voices_are_heard(transcript, candidates, targets);
    assert forall|j: int| 0 <= j < after.len() implies (#[trigger] after[j]) is Some by {
        if j < known {
            assert(room[j] == references[j]);
        } else {
            let voice = voices[j - known];
            assert(voices.contains(voice));
            assert(is_qualified(transcript, candidates, targets, voice));
            let k = choose|k: int|
                0 <= k < candidates.len() && #[trigger] targets[k] == Target::New(voice)
                    && candidates[k].2 - candidates[k].1 >= MIN_IDENTITY_REFERENCE_MS
                    && is_eligible(transcript, candidates[k].0);
            lemma_sampled_speaker(transcript, duration_ms, targets, voices, known, k);
            lemma_place_of(voices, j - known, 0);
            assert(is_reference_sample(transcript, candidates[k], speakers, j as usize));
            lemma_best_reference(
                transcript,
                start_ms,
                candidates,
                speakers,
                j as usize,
                candidates.len(),
            );
        }
    }
}

} // verus!
