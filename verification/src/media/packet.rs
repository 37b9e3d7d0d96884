//! Packets of voice samples: one file in which samples stand behind each other
//! with silence between them.
use vstd::prelude::*;
use crate::media::{
    at_least_zero, MediaChunk, PacketReferenceWindow, SpeakerReferenceRange,
    MAX_IDENTITY_BOUNDARY_MS, MAX_IDENTITY_CANDIDATE_AUDIO_MS, MAX_IDENTITY_REFERENCES,
    MAX_IDENTITY_SAMPLE_MS, MAX_IDENTITY_SILENCE_MS, MAX_IDENTITY_TURN_CANDIDATES,
    MIN_IDENTITY_CANDIDATE_MS, MIN_IDENTITY_REFERENCE_MS,
};
use crate::media::storage::{seconds_arg, seconds_text};
use crate::text::{
    all_digits, ascii_digit, byte_len, bytes_in, chars_of, decimal, decimal_string, fault_of,
    is_ascii_digit_char, same_text, text4, texts,
};

verus! {

// ---------------------------------------------------------------------------
// Limits
// ---------------------------------------------------------------------------

/// A letter and a number without a leading zero.
pub open spec fn is_numbered(label: Seq<char>, letter: char) -> bool {
    label.len() >= 2 && label[0] == letter && label[1] != '0' && all_digits(label.skip(1))
}

/// The key of a turn: `T` and the number of the turn.
pub open spec fn is_turn_key(key: Seq<char>) -> bool {
    byte_len(key) <= 32 && is_numbered(key, 'T')
}

pub fn label_is_numbered(label: &str, letter: char) -> (result: bool)
    ensures
        result == is_numbered(label@, letter),
{
    let chars = chars_of(label);
    if chars.len() < 2 || chars[0] != letter || chars[1] == '0' {
        return false;
    }
    let ghost rest = label@.skip(1);
    let mut i: usize = 1;
    while i < chars.len()
        invariant
            1 <= i <= chars@.len(),
            chars@ == label@,
            rest == label@.skip(1),
            forall|k: int| 0 <= k < i - 1 ==> is_ascii_digit_char(#[trigger] rest[k]),
        decreases chars@.len() - i,
    {
        if !ascii_digit(chars[i]) {
            assert(!is_ascii_digit_char(rest[i - 1]));
            return false;
        }
        i += 1;
    }
    true
}

pub fn valid_turn_key(key: &str) -> (result: bool)
    ensures
        result == is_turn_key(key@),
{
    bytes_in(key) <= 32 && label_is_numbered(key, 'T')
}

pub open spec fn range_ms(range: SpeakerReferenceRange) -> int {
    at_least_zero(range.end_ms - range.start_ms)
}

fn range_length(range: &SpeakerReferenceRange) -> (length: u64)
    ensures
        length == range_ms(*range),
{
    if range.end_ms >= range.start_ms {
        range.end_ms - range.start_ms
    } else {
        0
    }
}

/// A name stands among the first `n`.
pub open spec fn is_named_before(
    ranges: Seq<SpeakerReferenceRange>,
    name: Seq<char>,
    n: int,
) -> bool {
    exists|k: int| 0 <= k < n && #[trigger] ranges[k].speaker_id@ == name
}

fn named_before(ranges: &Vec<SpeakerReferenceRange>, n: usize) -> (result: bool)
    requires
        n < ranges@.len(),
    ensures
        result == is_named_before(ranges@, ranges@[n as int].speaker_id@, n as int),
{
    let mut k: usize = 0;
    while k < n
        invariant
            k <= n < ranges@.len(),
            forall|j: int|
                0 <= j < k ==> #[trigger] ranges@[j].speaker_id@ != ranges@[n as int].speaker_id@,
        decreases n - k,
    {
        if same_text(ranges[k].speaker_id.as_str(), ranges[n].speaker_id.as_str()) {
            assert(ranges@[k as int].speaker_id@ == ranges@[n as int].speaker_id@);
            return true;
        }
        k += 1;
    }
    false
}

/// Why a sample by which a voice is known is not taken.
pub open spec fn reference_fault(references: Seq<SpeakerReferenceRange>, n: int) -> Option<
    Seq<char>,
> {
    let length = range_ms(references[n]);
    if !(MIN_IDENTITY_REFERENCE_MS <= length <= MAX_IDENTITY_SAMPLE_MS) {
        Some("身份映射 packet 的历史参考时长越界"@)
    } else if is_named_before(references, references[n].speaker_id@, n) {
        Some("身份映射 packet 包含重复历史参考编号"@)
    } else {
        None
    }
}

pub open spec fn references_fault(references: Seq<SpeakerReferenceRange>, n: int) -> Option<
    Seq<char>,
>
    decreases references.len() - n,
{
    if n < 0 || n >= references.len() {
        None
    } else if reference_fault(references, n) is Some {
        reference_fault(references, n)
    } else {
        references_fault(references, n + 1)
    }
}

fn check_references(references: &Vec<SpeakerReferenceRange>) -> (result: Result<(), String>)
    ensures
        fault_of(result) == references_fault(references@, 0),
{
    let mut n: usize = 0;
    while n < references.len()
        invariant
            n <= references@.len(),
            references_fault(references@, n as int) == references_fault(references@, 0),
        decreases references@.len() - n,
    {
        let length: u64 = range_length(&references[n]);
        if !(MIN_IDENTITY_REFERENCE_MS <= length && length <= MAX_IDENTITY_SAMPLE_MS) {
            return Err("身份映射 packet 的历史参考时长越界".to_owned());
        }
        if named_before(references, n) {
            return Err("身份映射 packet 包含重复历史参考编号".to_owned());
        }
        n += 1;
    }
    Ok(())
}

/// Why the sample of a turn is not taken.
pub open spec fn candidate_fault(
    chunk: MediaChunk,
    candidates: Seq<SpeakerReferenceRange>,
    n: int,
) -> Option<Seq<char>> {
    let candidate = candidates[n];
    if !(MIN_IDENTITY_CANDIDATE_MS <= range_ms(candidate) <= MAX_IDENTITY_SAMPLE_MS) {
        Some("身份映射 packet 的逐 turn 候选时长越界"@)
    } else if candidate.start_ms < chunk.start_ms || candidate.end_ms > chunk.end_ms {
        Some("身份映射 packet 的逐 turn 候选超出 exact TARGET"@)
    } else if !is_turn_key(candidate.speaker_id@) || is_named_before(
        candidates,
        candidate.speaker_id@,
        n,
    ) {
        Some("身份映射 packet 包含非法或重复的 host TURN 编号"@)
    } else {
        None
    }
}

pub open spec fn candidates_fault(
    chunk: MediaChunk,
    candidates: Seq<SpeakerReferenceRange>,
    n: int,
) -> Option<Seq<char>>
    decreases candidates.len() - n,
{
    if n < 0 || n >= candidates.len() {
        None
    } else if candidate_fault(chunk, candidates, n) is Some {
        candidate_fault(chunk, candidates, n)
    } else {
        candidates_fault(chunk, candidates, n + 1)
    }
}

/// How long the first `n` samples are together.
pub open spec fn audio_ms(ranges: Seq<SpeakerReferenceRange>, n: nat) -> int
    decreases n,
{
    if n == 0 {
        0
    } else {
        audio_ms(ranges, (n - 1) as nat) + range_ms(ranges[n - 1])
    }
}

fn check_candidates(chunk: &MediaChunk, candidates: &Vec<SpeakerReferenceRange>) -> (result: Result<
    u64,
    String,
>)
    requires
        candidates@.len() <= MAX_IDENTITY_TURN_CANDIDATES,
    ensures
        match result {
            Ok(total) => candidates_fault(*chunk, candidates@, 0) is None && total == audio_ms(
                candidates@,
                candidates@.len(),
            ),
            Err(message) => candidates_fault(*chunk, candidates@, 0) == Some(message@),
        },
{
    let mut total: u64 = 0;
    let mut n: usize = 0;
    while n < candidates.len()
        invariant
            n <= candidates@.len() <= MAX_IDENTITY_TURN_CANDIDATES,
            candidates_fault(*chunk, candidates@, n as int) == candidates_fault(
                *chunk,
                candidates@,
                0,
            ),
            total == audio_ms(candidates@, n as nat),
            total <= n * MAX_IDENTITY_SAMPLE_MS,
        decreases candidates@.len() - n,
    {
        let candidate = &candidates[n];
        let length: u64 = range_length(candidate);
        if !(MIN_IDENTITY_CANDIDATE_MS <= length && length <= MAX_IDENTITY_SAMPLE_MS) {
            return Err("身份映射 packet 的逐 turn 候选时长越界".to_owned());
        }
        if candidate.start_ms < chunk.start_ms || candidate.end_ms > chunk.end_ms {
            return Err("身份映射 packet 的逐 turn 候选超出 exact TARGET".to_owned());
        }
        if !valid_turn_key(candidate.speaker_id.as_str()) || named_before(candidates, n) {
            return Err("身份映射 packet 包含非法或重复的 host TURN 编号".to_owned());
        }
        total = total + length;
        n += 1;
    }
    Ok(total)
}

/// Why no packet is made.
pub open spec fn packet_fault(
    chunk: MediaChunk,
    references: Seq<SpeakerReferenceRange>,
    candidates: Seq<SpeakerReferenceRange>,
    silence_ms: u64,
) -> Option<Seq<char>> {
    if chunk.audio_start_ms > chunk.start_ms || chunk.start_ms >= chunk.end_ms {
        Some("身份映射 packet 的 TARGET 时间范围无效"@)
    } else if chunk.context() > MAX_IDENTITY_BOUNDARY_MS {
        Some("身份映射 packet 的边界上下文超过 30 秒上限"@)
    } else if silence_ms > MAX_IDENTITY_SILENCE_MS {
        Some("身份映射 packet 的样本间静音超过 5 秒上限"@)
    } else if references.len() > MAX_IDENTITY_REFERENCES {
        Some("身份映射 packet 的历史参考超过 32 个上限"@)
    } else if candidates.len() == 0 {
        Some("身份映射 packet 至少需要一个本片候选声音"@)
    } else if candidates.len() > MAX_IDENTITY_TURN_CANDIDATES {
        Some("身份映射 packet 的逐 turn 候选超过 48 个上限"@)
    } else if references_fault(references, 0) is Some {
        references_fault(references, 0)
    } else if candidates_fault(chunk, candidates, 0) is Some {
        candidates_fault(chunk, candidates, 0)
    } else if audio_ms(candidates, candidates.len()) > MAX_IDENTITY_CANDIDATE_AUDIO_MS {
        Some("身份映射 packet 的逐 turn 候选音频超过 120 秒上限"@)
    } else {
        None
    }
}

/// Checks samples against all limits of a packet.
pub fn validate_speaker_packet_limits(
    chunk: &MediaChunk,
    references: &Vec<SpeakerReferenceRange>,
    candidates: &Vec<SpeakerReferenceRange>,
    silence_ms: u64,
) -> (result: Result<(), String>)
    ensures
        fault_of(result) == packet_fault(*chunk, references@, candidates@, silence_ms),
{
    if chunk.audio_start_ms > chunk.start_ms || chunk.start_ms >= chunk.end_ms {
        return Err("身份映射 packet 的 TARGET 时间范围无效".to_owned());
    }
    if chunk.context_ms() > MAX_IDENTITY_BOUNDARY_MS {
        return Err("身份映射 packet 的边界上下文超过 30 秒上限".to_owned());
    }
    if silence_ms > MAX_IDENTITY_SILENCE_MS {
        return Err("身份映射 packet 的样本间静音超过 5 秒上限".to_owned());
    }
    if references.len() > MAX_IDENTITY_REFERENCES {
        return Err("身份映射 packet 的历史参考超过 32 个上限".to_owned());
    }
    if candidates.len() == 0 {
        return Err("身份映射 packet 至少需要一个本片候选声音".to_owned());
    }
    if candidates.len() > MAX_IDENTITY_TURN_CANDIDATES {
        return Err("身份映射 packet 的逐 turn 候选超过 48 个上限".to_owned());
    }
    if let Err(message) = check_references(references) {
        return Err(message);
    }
    match check_candidates(chunk, candidates) {
        Ok(total) => if total > MAX_IDENTITY_CANDIDATE_AUDIO_MS {
            Err("身份映射 packet 的逐 turn 候选音频超过 120 秒上限".to_owned())
        } else {
            Ok(())
        },
        Err(message) => Err(message),
    }
}

// ---------------------------------------------------------------------------
// Plan
// ---------------------------------------------------------------------------

/// A part of a packet: sound from a place of the source, or silence.
#[derive(Clone, Copy, Debug, PartialEq, Eq, Structural)]
pub enum PacketInput {
    Sound { start_ms: u64, duration_ms: u64 },
    Silence { duration_ms: u64 },
}

/// The parts of a packet and where the samples stand in it.
#[derive(Debug)]
pub struct PacketPlan {
    pub inputs: Vec<PacketInput>,
    pub references: Vec<PacketReferenceWindow>,
    pub boundary_context: Option<PacketReferenceWindow>,
    pub candidates: Vec<PacketReferenceWindow>,
    pub total_duration_ms: u64,
}

/// How far the first `n` samples of a list reach, each with silence behind it.
pub open spec fn reach(ranges: Seq<SpeakerReferenceRange>, silence_ms: u64, n: nat) -> int
    decreases n,
{
    if n == 0 {
        0
    } else {
        reach(ranges, silence_ms, (n - 1) as nat) + range_ms(ranges[n - 1]) + silence_ms
    }
}

/// The window of a sample that starts at a place of the packet.
pub open spec fn is_window(
    window: PacketReferenceWindow,
    name: Seq<char>,
    start: int,
    length: int,
) -> bool {
    window.speaker_id@ == name && window.start_ms == start && window.end_ms == start + length
}

/// The windows of the samples of a list that starts at a place of the packet.
pub open spec fn are_windows(
    windows: Seq<PacketReferenceWindow>,
    ranges: Seq<SpeakerReferenceRange>,
    silence_ms: u64,
    start: int,
) -> bool {
    &&& windows.len() == ranges.len()
    &&& forall|k: int|
        0 <= k < ranges.len() ==> is_window(
            #[trigger] windows[k],
            ranges[k].speaker_id@,
            start + reach(ranges, silence_ms, k as nat),
            range_ms(ranges[k]),
        )
}

/// The parts of a packet for the first `n` samples of a list.
pub open spec fn parts_of_list(
    ranges: Seq<SpeakerReferenceRange>,
    silence_ms: u64,
    n: nat,
) -> Seq<PacketInput>
    decreases n,
{
    if n == 0 {
        Seq::empty()
    } else {
        parts_of_list(ranges, silence_ms, (n - 1) as nat).push(
            PacketInput::Sound {
                start_ms: ranges[n - 1].start_ms,
                duration_ms: range_ms(ranges[n - 1]) as u64,
            },
        ).push(PacketInput::Silence { duration_ms: silence_ms })
    }
}

/// The parts of a packet for the sound before the piece.
pub open spec fn parts_of_context(chunk: MediaChunk, silence_ms: u64) -> Seq<PacketInput> {
    if chunk.context() > 0 {
        seq![
            PacketInput::Sound {
                start_ms: chunk.audio_start_ms,
                duration_ms: chunk.context() as u64,
            },
            PacketInput::Silence { duration_ms: silence_ms },
        ]
    } else {
        Seq::empty()
    }
}

/// How much of a packet the sound before the piece takes.
pub open spec fn context_reach(chunk: MediaChunk, silence_ms: u64) -> int {
    if chunk.context() > 0 {
        chunk.context() + silence_ms
    } else {
        0
    }
}

/// A plan puts the known voices first, then the sound before the piece, then
/// the samples of the turns.
pub open spec fn is_plan(
    plan: PacketPlan,
    chunk: MediaChunk,
    references: Seq<SpeakerReferenceRange>,
    candidates: Seq<SpeakerReferenceRange>,
    silence_ms: u64,
) -> bool {
    let first = reach(references, silence_ms, references.len());
    let second = first + context_reach(chunk, silence_ms);
    &&& plan.inputs@ == parts_of_list(references, silence_ms, references.len()) + parts_of_context(
        chunk,
        silence_ms,
    ) + parts_of_list(candidates, silence_ms, candidates.len())
    &&& are_windows(plan.references@, references, silence_ms, 0)
    &&& are_windows(plan.candidates@, candidates, silence_ms, second)
    &&& match plan.boundary_context {
        Some(window) => chunk.context() > 0 && is_window(
            window,
            "BOUNDARY_CONTEXT"@,
            first,
            chunk.context(),
        ),
        None => chunk.context() == 0,
    }
    &&& plan.total_duration_ms == second + reach(candidates, silence_ms, candidates.len())
}

/// Samples of at most ten seconds each.
pub open spec fn samples_bounded(ranges: Seq<SpeakerReferenceRange>) -> bool {
    forall|k: int|
        0 <= k < ranges.len() ==> range_ms(#[trigger] ranges[k]) <= MAX_IDENTITY_SAMPLE_MS
}

proof fn lemma_reach(ranges: Seq<SpeakerReferenceRange>, silence_ms: u64, n: nat)
    requires
        n <= ranges.len() <= 48,
        silence_ms <= MAX_IDENTITY_SILENCE_MS,
        samples_bounded(ranges),
    ensures
        0 <= reach(ranges, silence_ms, n) <= n * 15_000,
    decreases n,
{
    if n > 0 {
        lemma_reach(ranges, silence_ms, (n - 1) as nat);
    }
}

fn plan_list(
    ranges: &Vec<SpeakerReferenceRange>,
    silence_ms: u64,
    start: u64,
    inputs: &mut Vec<PacketInput>,
) -> (result: (Vec<PacketReferenceWindow>, u64))
    requires
        ranges@.len() <= 48,
        silence_ms <= MAX_IDENTITY_SILENCE_MS,
        samples_bounded(ranges@),
        start <= 10_000_000,
    ensures
        are_windows(result.0@, ranges@, silence_ms, start as int),
        result.1 == start + reach(ranges@, silence_ms, ranges@.len()),
        final(inputs)@ == old(inputs)@ + parts_of_list(ranges@, silence_ms, ranges@.len()),
{
    let ghost before = inputs@;
    let mut windows: Vec<PacketReferenceWindow> = Vec::new();
    let mut cursor: u64 = start;
    let mut n: usize = 0;
    while n < ranges.len()
        invariant
            n <= ranges@.len() <= 48,
            silence_ms <= MAX_IDENTITY_SILENCE_MS,
            samples_bounded(ranges@),
            start <= 10_000_000,
            cursor == start + reach(ranges@, silence_ms, n as nat),
            inputs@ == before + parts_of_list(ranges@, silence_ms, n as nat),
            windows@.len() == n,
            forall|k: int|
                0 <= k < n ==> is_window(
                    #[trigger] windows@[k],
                    ranges@[k].speaker_id@,
                    start + reach(ranges@, silence_ms, k as nat),
                    range_ms(ranges@[k]),
                ),
        decreases ranges@.len() - n,
    {
        proof {
            lemma_reach(ranges@, silence_ms, n as nat);
            assert(range_ms(ranges@[n as int]) <= MAX_IDENTITY_SAMPLE_MS);
        }
        let length: u64 = range_length(&ranges[n]);
        let window = PacketReferenceWindow {
            speaker_id: ranges[n].speaker_id.clone(),
            start_ms: cursor,
            end_ms: cursor + length,
        };
        windows.push(window);
        let sound = PacketInput::Sound { start_ms: ranges[n].start_ms, duration_ms: length };
        let gap = PacketInput::Silence { duration_ms: silence_ms };
        inputs.push(sound);
        inputs.push(gap);
        assert(inputs@ =~= before + parts_of_list(ranges@, silence_ms, (n + 1) as nat));
        cursor = cursor + length + silence_ms;
        n += 1;
    }
    (windows, cursor)
}

proof fn lemma_references_bounded(references: Seq<SpeakerReferenceRange>, n: int)
    requires
        0 <= n <= references.len(),
        references_fault(references, n) is None,
    ensures
        forall|k: int|
            n <= k < references.len() ==> range_ms(#[trigger] references[k])
                <= MAX_IDENTITY_SAMPLE_MS,
    decreases references.len() - n,
{
    if n < references.len() {
        lemma_references_bounded(references, n + 1);
    }
}

proof fn lemma_candidates_bounded(
    chunk: MediaChunk,
    candidates: Seq<SpeakerReferenceRange>,
    n: int,
)
    requires
        0 <= n <= candidates.len(),
        candidates_fault(chunk, candidates, n) is None,
    ensures
        forall|k: int|
            n <= k < candidates.len() ==> range_ms(#[trigger] candidates[k])
                <= MAX_IDENTITY_SAMPLE_MS,
    decreases candidates.len() - n,
{
    if n < candidates.len() {
        lemma_candidates_bounded(chunk, candidates, n + 1);
    }
}

/// Plans a packet.
pub fn build_speaker_packet(
    chunk: &MediaChunk,
    references: &Vec<SpeakerReferenceRange>,
    candidates: &Vec<SpeakerReferenceRange>,
    silence_ms: u64,
) -> (result: Result<PacketPlan, String>)
    ensures
        match result {
            Ok(plan) => packet_fault(*chunk, references@, candidates@, silence_ms) is None
                && is_plan(plan, *chunk, references@, candidates@, silence_ms),
            Err(message) => packet_fault(*chunk, references@, candidates@, silence_ms) == Some(
                message@,
            ),
        },
{
    if let Err(message) = validate_speaker_packet_limits(
        chunk,
        references,
        candidates,
        silence_ms,
    ) {
        return Err(message);
    }
    proof {
        lemma_references_bounded(references@, 0);
        lemma_candidates_bounded(*chunk, candidates@, 0);
        lemma_reach(references@, silence_ms, references@.len());
        lemma_reach(candidates@, silence_ms, candidates@.len());
    }
    let mut inputs: Vec<PacketInput> = Vec::new();
    let (reference_windows, first) = plan_list(references, silence_ms, 0, &mut inputs);
    assert(inputs@ =~= parts_of_list(references@, silence_ms, references@.len()));
    let mut cursor: u64 = first;
    let context: u64 = chunk.context_ms();
    let mut boundary_context: Option<PacketReferenceWindow> = None;
    let ghost before = inputs@;
    if context > 0 {
        boundary_context = Some(
            PacketReferenceWindow {
                speaker_id: "BOUNDARY_CONTEXT".to_owned(),
                start_ms: cursor,
                end_ms: cursor + context,
            },
        );
        let sound = PacketInput::Sound { start_ms: chunk.audio_start_ms, duration_ms: context };
        let gap = PacketInput::Silence { duration_ms: silence_ms };
        inputs.push(sound);
        inputs.push(gap);
        cursor = cursor + context + silence_ms;
    }
    assert(inputs@ =~= before + parts_of_context(*chunk, silence_ms));
    let (candidate_windows, total) = plan_list(candidates, silence_ms, cursor, &mut inputs);
    Ok(
        PacketPlan {
            inputs,
            references: reference_windows,
            boundary_context,
            candidates: candidate_windows,
            total_duration_ms: total,
        },
    )
}

// ---------------------------------------------------------------------------
// Arguments
// ---------------------------------------------------------------------------

/// The arguments for one part of a packet.
pub open spec fn input_arguments(input: PacketInput, formats: Seq<char>, source: Seq<char>) -> Seq<
    Seq<char>,
> {
    match input {
        PacketInput::Sound { start_ms, duration_ms } => seq![
            "-format_whitelist"@,
            formats,
            "-protocol_whitelist"@,
            "file"@,
            "-ss"@,
            seconds_text(start_ms),
            "-t"@,
            seconds_text(duration_ms),
            "-i"@,
            source,
        ],
        PacketInput::Silence { duration_ms } => seq![
            "-f"@,
            "lavfi"@,
            "-t"@,
            seconds_text(duration_ms),
            "-i"@,
            "anullsrc=r=32000:cl=mono"@,
        ],
    }
}

/// The arguments for the first `n` parts.
pub open spec fn all_input_arguments(
    inputs: Seq<PacketInput>,
    formats: Seq<char>,
    source: Seq<char>,
    n: nat,
) -> Seq<Seq<char>>
    decreases n,
{
    if n == 0 {
        Seq::empty()
    } else {
        all_input_arguments(inputs, formats, source, (n - 1) as nat) + input_arguments(
            inputs[n - 1],
            formats,
            source,
        )
    }
}

/// The names of the first `n` inputs.
pub open spec fn input_names(n: nat) -> Seq<char>
    decreases n,
{
    if n == 0 {
        Seq::empty()
    } else {
        input_names((n - 1) as nat) + "["@ + decimal((n - 1) as nat) + ":a]"@
    }
}

pub open spec fn head_arguments() -> Seq<Seq<char>> {
    seq!["-hide_banner"@, "-loglevel"@, "error"@, "-nostdin"@, "-y"@]
}

pub open spec fn tail_arguments(filter: Seq<char>, output: Seq<char>) -> Seq<Seq<char>> {
    seq![
        "-filter_complex"@,
        filter,
        "-map"@,
        "[packet]"@,
        "-map_metadata"@,
        "-1"@,
        "-map_chapters"@,
        "-1"@,
        "-ac"@,
        "1"@,
        "-ar"@,
        "32000"@,
        "-codec:a"@,
        "libmp3lame"@,
        "-b:a"@,
        "64k"@,
        output,
    ]
}

/// The filter that puts the parts one behind the other.
pub open spec fn concat_filter(n: nat) -> Seq<char> {
    input_names(n) + "concat=n="@ + decimal(n) + ":v=0:a=1[packet]"@
}

/// The arguments of the program that makes a packet.
pub open spec fn packet_arguments_of(
    inputs: Seq<PacketInput>,
    formats: Seq<char>,
    source: Seq<char>,
    output: Seq<char>,
) -> Seq<Seq<char>> {
    head_arguments() + all_input_arguments(inputs, formats, source, inputs.len()) + tail_arguments(
        concat_filter(inputs.len()),
        output,
    )
}

pub(crate) fn push_argument(args: &mut Vec<String>, text: &str)
    ensures
        texts(final(args)@) == texts(old(args)@).push(text@),
{
    let ghost before = texts(args@);
    args.push(text.to_owned());
    assert(texts(args@) =~= before.push(text@));
}

fn push_input(args: &mut Vec<String>, input: PacketInput, formats: &str, source: &str)
    ensures
        texts(final(args)@) == texts(old(args)@) + input_arguments(input, formats@, source@),
{
    let ghost before = texts(args@);
    match input {
        PacketInput::Sound { start_ms, duration_ms } => {
            let start = seconds_arg(start_ms);
            let length = seconds_arg(duration_ms);
            push_argument(args, "-format_whitelist");
            push_argument(args, formats);
            push_argument(args, "-protocol_whitelist");
            push_argument(args, "file");
            push_argument(args, "-ss");
            push_argument(args, start.as_str());
            push_argument(args, "-t");
            push_argument(args, length.as_str());
            push_argument(args, "-i");
            push_argument(args, source);
        },
        PacketInput::Silence { duration_ms } => {
            let length = seconds_arg(duration_ms);
            push_argument(args, "-f");
            push_argument(args, "lavfi");
            push_argument(args, "-t");
            push_argument(args, length.as_str());
            push_argument(args, "-i");
            push_argument(args, "anullsrc=r=32000:cl=mono");
        },
    }
    assert(texts(args@) =~= before + input_arguments(input, formats@, source@));
}

fn push_tail(args: &mut Vec<String>, filter: &str, output: &str)
    ensures
        texts(final(args)@) == texts(old(args)@) + tail_arguments(filter@, output@),
{
    let ghost before = texts(args@);
    push_argument(args, "-filter_complex");
    push_argument(args, filter);
    push_argument(args, "-map");
    push_argument(args, "[packet]");
    push_argument(args, "-map_metadata");
    push_argument(args, "-1");
    push_argument(args, "-map_chapters");
    push_argument(args, "-1");
    push_argument(args, "-ac");
    push_argument(args, "1");
    push_argument(args, "-ar");
    push_argument(args, "32000");
    push_argument(args, "-codec:a");
    push_argument(args, "libmp3lame");
    push_argument(args, "-b:a");
    push_argument(args, "64k");
    push_argument(args, output);
    assert(texts(args@) =~= before + tail_arguments(filter@, output@));
}

/// The arguments of the program that makes a packet from a source of the given
/// formats.
pub fn packet_arguments(inputs: &Vec<PacketInput>, formats: &str, source: &str, output: &str) -> (args:
    Vec<String>)
    ensures
        texts(args@) == packet_arguments_of(inputs@, formats@, source@, output@),
{
    let mut args: Vec<String> = Vec::new();
    push_argument(&mut args, "-hide_banner");
    push_argument(&mut args, "-loglevel");
    push_argument(&mut args, "error");
    push_argument(&mut args, "-nostdin");
    push_argument(&mut args, "-y");
    assert(texts(args@) =~= head_arguments());
    let mut names = String::new();
    let mut n: usize = 0;
    assert(texts(args@) =~= head_arguments() + all_input_arguments(
        inputs@,
        formats@,
        source@,
        0,
    ));
    while n < inputs.len()
        invariant
            n <= inputs@.len(),
            texts(args@) == head_arguments() + all_input_arguments(
                inputs@,
                formats@,
                source@,
                n as nat,
            ),
            names@ == input_names(n as nat),
        decreases inputs@.len() - n,
    {
        push_input(&mut args, inputs[n], formats, source);
        assert(texts(args@) =~= head_arguments() + all_input_arguments(
            inputs@,
            formats@,
            source@,
            (n + 1) as nat,
        ));
        let number = decimal_string(n as u64);
        names.append("[");
        names.append(number.as_str());
        names.append(":a]");
        n += 1;
    }
    let count = decimal_string(inputs.len() as u64);
    let filter = text4(names.as_str(), "concat=n=", count.as_str(), ":v=0:a=1[packet]");
    push_tail(&mut args, filter.as_str(), output);
    args
}

} // verus!
