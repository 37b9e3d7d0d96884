//! What a task decides between its requests: whether a piece of a recording is
//! done, is cut in two or cannot be done, and whether the pieces together are
//! the recording.
pub mod quality;
pub mod run;

use vstd::prelude::*;
use crate::config::{is_any_provider, names_any_provider, Config, ConfigText};
use crate::media::MediaChunk;
use crate::openrouter::accounting::Completion;
use crate::openrouter::chat::CompletionResult;
use crate::openrouter::repetition::{is_repetitive, looks_repetitive};
use crate::output::{format_timestamp, timestamp_text, TranscriptPart};
use crate::text::{decimal, decimal_string, fault_of, same_text, text3};
use crate::transcript::TranscriptMode;

verus! {

// ---------------------------------------------------------------------------
// Timeline
// ---------------------------------------------------------------------------

/// Where a part has to start: where the one before it ends.
pub open spec fn expected_start(parts: Seq<TranscriptPart>, n: int) -> u64 {
    if n <= 0 {
        0
    } else {
        parts[n - 1].end_ms
    }
}

/// The parts from `n` on follow one another, and none is empty.
pub open spec fn follows_from(parts: Seq<TranscriptPart>, n: int) -> bool {
    forall|k: int|
        n <= k < parts.len() ==> (#[trigger] parts[k]).start_ms == expected_start(parts, k)
            && parts[k].end_ms > parts[k].start_ms
}

/// Why parts are not the whole recording.
pub open spec fn timeline_fault(parts: Seq<TranscriptPart>, duration_ms: u64) -> Option<Seq<char>> {
    if parts.len() == 0 {
        Some("转写结果为空"@)
    } else if parts[0].start_ms != 0 {
        Some("转写片段没有从音频起点开始"@)
    } else if !follows_from(parts, 0) {
        Some("转写片段时间线不连续"@)
    } else if parts.last().end_ms != duration_ms {
        Some("转写片段没有完整覆盖源音频"@)
    } else {
        None
    }
}

/// Checks that parts in order are a whole recording, without a gap and without
/// an overlap.
pub fn validate_timeline(parts: &Vec<TranscriptPart>, duration_ms: u64) -> (result: Result<
    (),
    String,
>)
    ensures
        fault_of(result) == timeline_fault(parts@, duration_ms),
{
    if parts.len() == 0 {
        return Err("转写结果为空".to_owned());
    }
    if parts[0].start_ms != 0 {
        return Err("转写片段没有从音频起点开始".to_owned());
    }
    let mut expected: u64 = 0;
    let mut n: usize = 0;
    while n < parts.len()
        invariant
            n <= parts@.len(),
            parts@.len() > 0,
            parts@[0].start_ms == 0,
            expected == expected_start(parts@, n as int),
            forall|k: int|
                0 <= k < n ==> (#[trigger] parts@[k]).start_ms == expected_start(parts@, k)
                    && parts@[k].end_ms > parts@[k].start_ms,
        decreases parts@.len() - n,
    {
        if parts[n].start_ms != expected || parts[n].end_ms <= parts[n].start_ms {
            assert(!follows_from(parts@, 0)) by {
                let part = parts@[n as int];
                assert(part.start_ms != expected_start(parts@, n as int) || part.end_ms
                    <= part.start_ms);
            }
            return Err("转写片段时间线不连续".to_owned());
        }
        expected = parts[n].end_ms;
        n += 1;
    }
    if expected != duration_ms {
        return Err("转写片段没有完整覆盖源音频".to_owned());
    }
    Ok(())
}

/// A part comes before another: it starts earlier, or ends earlier.
pub open spec fn part_before(left: TranscriptPart, right: TranscriptPart) -> bool {
    left.start_ms < right.start_ms || (left.start_ms == right.start_ms && left.end_ms
        < right.end_ms)
}

/// Parts in the order of their times.
pub open spec fn parts_in_order(parts: Seq<TranscriptPart>) -> bool {
    forall|i: int, j: int|
        0 <= i < j < parts.len() ==> !part_before(#[trigger] parts[j], #[trigger] parts[i])
}

/// The parts with given times, as they follow one another.
pub open spec fn parts_at(parts: Seq<TranscriptPart>, start_ms: u64, end_ms: u64) -> Seq<
    TranscriptPart,
>
    decreases parts.len(),
{
    if parts.len() == 0 {
        Seq::empty()
    } else {
        let before = parts_at(parts.drop_last(), start_ms, end_ms);
        if parts.last().start_ms == start_ms && parts.last().end_ms == end_ms {
            before.push(parts.last())
        } else {
            before
        }
    }
}

proof fn lemma_parts_at_both(
    left: Seq<TranscriptPart>,
    right: Seq<TranscriptPart>,
    start_ms: u64,
    end_ms: u64,
)
    ensures
        parts_at(left + right, start_ms, end_ms) == parts_at(left, start_ms, end_ms) + parts_at(
            right,
            start_ms,
            end_ms,
        ),
    decreases right.len(),
{
    let whole = left + right;
    if right.len() == 0 {
        assert(whole =~= left);
        assert(parts_at(whole, start_ms, end_ms) =~= parts_at(left, start_ms, end_ms) + parts_at(
            right,
            start_ms,
            end_ms,
        ));
    } else {
        lemma_parts_at_both(left, right.drop_last(), start_ms, end_ms);
        assert(whole.drop_last() =~= left + right.drop_last());
        assert(whole.last() == right.last());
        assert(parts_at(whole, start_ms, end_ms) =~= parts_at(left, start_ms, end_ms) + parts_at(
            right,
            start_ms,
            end_ms,
        ));
    }
}

proof fn lemma_parts_at_none(parts: Seq<TranscriptPart>, start_ms: u64, end_ms: u64)
    requires
        forall|k: int|
            0 <= k < parts.len() ==> (#[trigger] parts[k]).start_ms != start_ms || parts[k].end_ms
                != end_ms,
    ensures
        parts_at(parts, start_ms, end_ms).len() == 0,
    decreases parts.len(),
{
    if parts.len() > 0 {
        assert(parts[parts.len() - 1].start_ms != start_ms || parts[parts.len() - 1].end_ms
            != end_ms);
        lemma_parts_at_none(parts.drop_last(), start_ms, end_ms);
    }
}

/// The first of the parts with its times can go behind parts that stand before
/// all of them.
proof fn lemma_part_moved(
    done: Seq<TranscriptPart>,
    before: Seq<TranscriptPart>,
    at: int,
    start_ms: u64,
    end_ms: u64,
)
    requires
        0 <= at < before.len(),
        forall|k: int|
            0 <= k < at ==> (#[trigger] before[k]).start_ms != before[at].start_ms
                || before[k].end_ms != before[at].end_ms,
    ensures
        parts_at(done.push(before[at]), start_ms, end_ms) + parts_at(
            before.remove(at),
            start_ms,
            end_ms,
        ) == parts_at(done, start_ms, end_ms) + parts_at(before, start_ms, end_ms),
{
    let part = before[at];
    let head = before.take(at);
    let tail = before.skip(at + 1);
    let one = seq![part];
    assert(before =~= head + (one + tail));
    assert(before.remove(at) =~= head + tail);
    assert(done.push(part) =~= done + one);
    lemma_parts_at_both(head, one + tail, start_ms, end_ms);
    lemma_parts_at_both(one, tail, start_ms, end_ms);
    lemma_parts_at_both(head, tail, start_ms, end_ms);
    lemma_parts_at_both(done, one, start_ms, end_ms);
    if part.start_ms == start_ms && part.end_ms == end_ms {
        assert forall|k: int| 0 <= k < head.len() implies (#[trigger] head[k]).start_ms != start_ms
            || head[k].end_ms != end_ms by {
            assert(head[k] == before[k]);
        }
        lemma_parts_at_none(head, start_ms, end_ms);
    } else {
        lemma_parts_at_none(one, start_ms, end_ms);
    }
    assert(parts_at(done.push(part), start_ms, end_ms) + parts_at(
        before.remove(at),
        start_ms,
        end_ms,
    ) =~= parts_at(done, start_ms, end_ms) + parts_at(before, start_ms, end_ms));
}

/// Puts parts in the order of their times. Parts with equal times keep their
/// order.
pub fn arrange_parts(parts: Vec<TranscriptPart>) -> (ordered: Vec<TranscriptPart>)
    ensures
        parts_in_order(ordered@),
        ordered@.to_multiset() == parts@.to_multiset(),
        forall|start_ms: u64, end_ms: u64| #[trigger]
            parts_at(ordered@, start_ms, end_ms) == parts_at(parts@, start_ms, end_ms),
{
    let ghost given = parts@;
    let ghost all = parts@.to_multiset();
    let mut rest = parts;
    let mut ordered: Vec<TranscriptPart> = Vec::new();
    proof {
        broadcast use vstd::seq_lib::group_to_multiset_ensures;

        assert(ordered@.to_multiset().add(rest@.to_multiset()) =~= all);
        assert forall|start_ms: u64, end_ms: u64| #[trigger]
            parts_at(given, start_ms, end_ms) == parts_at(ordered@, start_ms, end_ms) + parts_at(
                rest@,
                start_ms,
                end_ms,
            ) by {
            assert(ordered@ =~= Seq::empty());
            assert(parts_at(ordered@, start_ms, end_ms) + parts_at(rest@, start_ms, end_ms)
                =~= parts_at(given, start_ms, end_ms));
        }
    }
    while rest.len() > 0
        invariant
            parts_in_order(ordered@),
            ordered@.to_multiset().add(rest@.to_multiset()) == all,
            forall|start_ms: u64, end_ms: u64| #[trigger]
                parts_at(given, start_ms, end_ms) == parts_at(ordered@, start_ms, end_ms)
                    + parts_at(rest@, start_ms, end_ms),
            forall|i: int, j: int|
                0 <= i < ordered@.len() && 0 <= j < rest@.len() ==> !part_before(
                    #[trigger] rest@[j],
                    #[trigger] ordered@[i],
                ),
        decreases rest@.len(),
    {
        let mut best: usize = 0;
        let mut n: usize = 1;
        while n < rest.len()
            invariant
                best < n <= rest@.len(),
                forall|k: int| 0 <= k < n ==> !part_before(#[trigger] rest@[k], rest@[best as int]),
                forall|k: int|
                    0 <= k < best ==> part_before(rest@[best as int], #[trigger] rest@[k]),
            decreases rest@.len() - n,
        {
            let earlier = rest[n].start_ms < rest[best].start_ms || (rest[n].start_ms
                == rest[best].start_ms && rest[n].end_ms < rest[best].end_ms);
            if earlier {
                best = n;
            }
            n += 1;
        }
        let ghost before = rest@;
        let ghost done = ordered@;
        let part = rest.remove(best);
        ordered.push(part);
        proof {
            broadcast use vstd::seq_lib::group_to_multiset_ensures;

            assert(rest@ =~= before.remove(best as int));
            assert forall|start_ms: u64, end_ms: u64| #[trigger]
                parts_at(given, start_ms, end_ms) == parts_at(ordered@, start_ms, end_ms)
                    + parts_at(rest@, start_ms, end_ms) by {
                lemma_part_moved(done, before, best as int, start_ms, end_ms);
            }
            assert(before.to_multiset() =~= rest@.to_multiset().insert(part)) by {
                assert(before =~= rest@.insert(best as int, part));
            }
            assert(ordered@.to_multiset() =~= done.to_multiset().insert(part));
            assert(ordered@.to_multiset().add(rest@.to_multiset()) =~= all);
            assert forall|i: int, j: int| 0 <= i < j < ordered@.len() implies !part_before(
                #[trigger] ordered@[j],
                #[trigger] ordered@[i],
            ) by {
                if j == done.len() {
                    assert(ordered@[i] == done[i]);
                    assert(!part_before(before[best as int], done[i]));
                } else {
                    assert(ordered@[i] == done[i] && ordered@[j] == done[j]);
                }
            }
            assert forall|i: int, j: int|
                0 <= i < ordered@.len() && 0 <= j < rest@.len() implies !part_before(
                #[trigger] rest@[j],
                #[trigger] ordered@[i],
            ) by {
                let k = if j < best {
                    j
                } else {
                    j + 1
                };
                assert(rest@[j] == before[k]);
                if i < done.len() {
                    assert(ordered@[i] == done[i]);
                    assert(!part_before(before[k], done[i]));
                } else {
                    assert(!part_before(before[k], before[best as int]));
                }
            }
        }
    }
    proof {
        broadcast use vstd::seq_lib::group_to_multiset_ensures;

        assert(rest@ =~= Seq::empty());
        assert(ordered@.to_multiset() =~= all);
        assert forall|start_ms: u64, end_ms: u64| #[trigger]
            parts_at(ordered@, start_ms, end_ms) == parts_at(given, start_ms, end_ms) by {
            assert(parts_at(given, start_ms, end_ms) =~= parts_at(ordered@, start_ms, end_ms));
        }
    }
    ordered
}

// ---------------------------------------------------------------------------
// Pieces
// ---------------------------------------------------------------------------

/// What is done with a piece when its text has come.
#[derive(Debug)]
pub enum ChunkStep {
    /// The piece is done.
    Done { part: TranscriptPart, notice: String },
    /// The piece is cut in two.
    Split { notice: String },
}

/// Why a piece is not done: the reply says so, or its text runs in a loop.
pub open spec fn split_reason(result: CompletionResult, duration_ms: int) -> Option<Seq<char>> {
    match result {
        CompletionResult::NeedsSplit { reason } => Some(reason@),
        CompletionResult::Complete(completion) => if is_repetitive(
            completion.text@,
            duration_ms as u64,
        ) {
            Some("模型输出出现病理性高密度循环"@)
        } else {
            None
        },
    }
}

/// A piece in words: its start and its end.
pub open spec fn piece_text(chunk: MediaChunk) -> Seq<char> {
    timestamp_text(chunk.start_ms) + "–"@ + timestamp_text(chunk.end_ms)
}

fn describe_piece(chunk: &MediaChunk) -> (text: String)
    ensures
        text@ == piece_text(*chunk),
{
    let start = format_timestamp(chunk.start_ms);
    let end = format_timestamp(chunk.end_ms);
    text3(start.as_str(), "–", end.as_str())
}

/// Why a piece that is not done cannot be cut in two.
pub open spec fn split_fault(
    chunk: MediaChunk,
    depth: u8,
    config: ConfigText,
    reason: Seq<char>,
) -> Option<Seq<char>> {
    if depth >= config.max_adaptive_depth {
        Some(
            "片段 "@ + piece_text(chunk) + " 达到自适应切分深度上限 "@ + decimal(
                config.max_adaptive_depth as nat,
            ) + "："@ + reason,
        )
    } else if chunk.duration() < config.min_chunk_seconds * 2 * 1_000 {
        Some(
            "片段 "@ + piece_text(chunk) + " 已达到最小切分时长，仍无法得到完整可靠输出："@
                + reason,
        )
    } else {
        None
    }
}

fn check_split(chunk: &MediaChunk, depth: u8, config: &Config, reason: &str) -> (result: Result<
    (),
    String,
>)
    requires
        config.min_chunk_seconds * 2 * 1_000 <= u64::MAX,
    ensures
        fault_of(result) == split_fault(*chunk, depth, config@, reason@),
{
    let piece = describe_piece(chunk);
    if depth >= config.max_adaptive_depth {
        let limit = decimal_string(config.max_adaptive_depth as u64);
        let mut message = text3("片段 ", piece.as_str(), " 达到自适应切分深度上限 ");
        message.append(limit.as_str());
        message.append("：");
        message.append(reason);
        return Err(message);
    }
    if chunk.duration_ms() < config.min_chunk_seconds * 2 * 1_000 {
        let mut message = text3(
            "片段 ",
            piece.as_str(),
            " 已达到最小切分时长，仍无法得到完整可靠输出：",
        );
        message.append(reason);
        return Err(message);
    }
    Ok(())
}

pub open spec fn split_notice(chunk: MediaChunk, reason: Seq<char>) -> Seq<char> {
    "片段 "@ + piece_text(chunk) + " 触发自适应二分："@ + reason
}

pub open spec fn done_notice(chunk: MediaChunk, completion: Completion) -> Seq<char> {
    "完成 "@ + piece_text(chunk) + "（可见输出 "@ + decimal(completion@.visible_tokens() as nat)
        + " tokens，总 completion "@ + decimal(completion.completion_tokens as nat) + " tokens）"@
}

fn describe_done(chunk: &MediaChunk, completion: &Completion) -> (text: String)
    ensures
        text@ == done_notice(*chunk, *completion),
{
    let piece = describe_piece(chunk);
    let visible = decimal_string(completion.visible_output_tokens());
    let total = decimal_string(completion.completion_tokens);
    let mut text = text3("完成 ", piece.as_str(), "（可见输出 ");
    text.append(visible.as_str());
    text.append(" tokens，总 completion ");
    text.append(total.as_str());
    text.append(" tokens）");
    text
}

/// Decides what is done with a piece at a depth: its text is taken, it is cut
/// in two, or the task ends.
pub fn process_chunk(result: CompletionResult, chunk: &MediaChunk, depth: u8, config: &Config) -> (step:
    Result<ChunkStep, String>)
    requires
        config.min_chunk_seconds * 2 * 1_000 <= u64::MAX,
    ensures
        match split_reason(result, chunk.duration()) {
            Some(reason) => match split_fault(*chunk, depth, config@, reason) {
                Some(message) => step matches Err(text) && text@ == message,
                None => step matches Ok(ChunkStep::Split { notice }) && notice@ == split_notice(
                    *chunk,
                    reason,
                ),
            },
            None => match step {
                Ok(ChunkStep::Done { part, notice }) => {
                    &&& part.start_ms == chunk.start_ms
                    &&& part.end_ms == chunk.end_ms
                    &&& result == CompletionResult::Complete(part.completion)
                    &&& notice@ == done_notice(*chunk, part.completion)
                },
                _ => false,
            },
        },
{
    let duration_ms: u64 = chunk.duration_ms();
    match result {
        CompletionResult::NeedsSplit { reason } => {
            if let Err(message) = check_split(chunk, depth, config, reason.as_str()) {
                return Err(message);
            }
            let piece = describe_piece(chunk);
            let mut notice = text3("片段 ", piece.as_str(), " 触发自适应二分：");
            notice.append(reason.as_str());
            Ok(ChunkStep::Split { notice })
        },
        CompletionResult::Complete(completion) => {
            if looks_repetitive(completion.text.as_str(), duration_ms) {
                let reason = "模型输出出现病理性高密度循环";
                if let Err(message) = check_split(chunk, depth, config, reason) {
                    return Err(message);
                }
                let piece = describe_piece(chunk);
                let mut notice = text3("片段 ", piece.as_str(), " 触发自适应二分：");
                notice.append(reason);
                return Ok(ChunkStep::Split { notice });
            }
            let notice = describe_done(chunk, &completion);
            let part = TranscriptPart {
                start_ms: chunk.start_ms,
                end_ms: chunk.end_ms,
                completion,
            };
            Ok(ChunkStep::Done { part, notice })
        },
    }
}

/// Takes the text that was read in an image, unless there is too much of it or
/// it runs in a loop.
pub fn accept_ocr(result: CompletionResult) -> (outcome: Result<Completion, String>)
    ensures
        match result {
            CompletionResult::NeedsSplit { reason } => outcome matches Err(message) && message@
                == "OCR 输出达到模型长度边界："@ + reason@ + "；请裁成多张图片后重试"@,
            CompletionResult::Complete(completion) => if is_repetitive(completion.text@, 0) {
                outcome matches Err(message) && message@
                    == "OCR 返回内容存在明显循环，已拒绝生成正式文档"@
            } else {
                outcome == Ok::<Completion, String>(completion)
            },
        },
{
    match result {
        CompletionResult::NeedsSplit { reason } => Err(
            text3("OCR 输出达到模型长度边界：", reason.as_str(), "；请裁成多张图片后重试"),
        ),
        CompletionResult::Complete(completion) => {
            if looks_repetitive(completion.text.as_str(), 0) {
                return Err("OCR 返回内容存在明显循环，已拒绝生成正式文档".to_owned());
            }
            Ok(completion)
        },
    }
}

// ---------------------------------------------------------------------------
// A second text
// ---------------------------------------------------------------------------

/// One in how many pieces gets a second text.
pub const QUALITY_SAMPLE_INTERVAL: usize = 5;

/// A piece gets a second text: never in a raw transcript; in the other, where
/// all pieces do, or for the first piece and every fifth behind it.
pub open spec fn gets_second_text(mode: TranscriptMode, verify_all: bool, index: int) -> bool {
    mode == TranscriptMode::Quality && (verify_all || index % 5 == 0)
}

/// Whether the piece of a recording at an index gets a second text.
pub fn second_text_due(mode: TranscriptMode, verify_all: bool, index: usize) -> (result: bool)
    ensures
        result == gets_second_text(mode, verify_all, index as int),
{
    match mode {
        TranscriptMode::Quality => verify_all || index % QUALITY_SAMPLE_INTERVAL == 0,
        TranscriptMode::Raw => false,
    }
}

/// The two texts of a piece come from different places: the models differ, or
/// the providers are fixed and differ.
pub open spec fn routes_differ(config: ConfigText) -> bool {
    config.asr_model != config.quality_asr_model || (!is_any_provider(config.asr_provider)
        && !is_any_provider(config.quality_asr_provider) && config.asr_provider
        != config.quality_asr_provider)
}

/// Whether the two texts of a piece come from different places.
pub fn quality_routes_differ(config: &Config) -> (result: bool)
    ensures
        result == routes_differ(config@),
{
    if !same_text(config.asr_model.as_str(), config.quality_asr_model.as_str()) {
        return true;
    }
    !names_any_provider(config.asr_provider.as_str()) && !names_any_provider(
        config.quality_asr_provider.as_str(),
    ) && !same_text(config.asr_provider.as_str(), config.quality_asr_provider.as_str())
}

/// Refuses settings whose two texts of a piece may come from the same place.
pub fn require_independent_routes(config: &Config) -> (result: Result<(), String>)
    ensures
        fault_of(result) == (if !routes_differ(config@) {
            Some(
                "quality 要求两条可证明独立的 STT 路由；请设置不同的模型，或为同一模型设置两个不同的固定 provider"@,
            )
        } else {
            None
        }),
{
    if !quality_routes_differ(config) {
        return Err(
            "quality 要求两条可证明独立的 STT 路由；请设置不同的模型，或为同一模型设置两个不同的固定 provider".to_owned(),
        );
    }
    Ok(())
}

// ---------------------------------------------------------------------------
// Laws
// ---------------------------------------------------------------------------

/// Stretches of time that follow one another from zero to an end, none empty.
pub open spec fn is_cover(ranges: Seq<(int, int)>, duration: int) -> bool {
    &&& ranges.len() > 0
    &&& ranges[0].0 == 0
    &&& ranges.last().1 == duration
    &&& forall|k: int| 0 <= k < ranges.len() ==> (#[trigger] ranges[k]).0 < ranges[k].1
    &&& forall|j: int, k: int|
        #![trigger ranges[j], ranges[k]]
        0 <= j < ranges.len() && k == j + 1 && k < ranges.len() ==> ranges[j].1 == ranges[k].0
}

/// Cutting a piece in two inside it leaves pieces that cover the recording.
pub proof fn lemma_split_keeps_cover(
    ranges: Seq<(int, int)>,
    duration: int,
    k: int,
    middle: int,
)
    requires
        is_cover(ranges, duration),
        0 <= k < ranges.len(),
        ranges[k].0 < middle < ranges[k].1,
    ensures
        is_cover(
            ranges.take(k).push((ranges[k].0, middle)).push((middle, ranges[k].1)) + ranges.skip(
                k + 1,
            ),
            duration,
        ),
{
    let head = ranges.take(k).push((ranges[k].0, middle)).push((middle, ranges[k].1));
    let after = head + ranges.skip(k + 1);
    assert(after.len() == ranges.len() + 1);
    assert forall|j: int| 0 <= j < after.len() implies (#[trigger] after[j]).0 < after[j].1 && (j
        < k ==> after[j] == ranges[j]) && (j > k + 1 ==> after[j] == ranges[j - 1]) && (j == k
        ==> after[j] == (ranges[k].0, middle)) && (j == k + 1 ==> after[j] == (
        middle,
        ranges[k].1,
    )) by {
        if j < k {
            assert(ranges[j].0 < ranges[j].1);
        } else if j > k + 1 {
            assert(after[j] == ranges.skip(k + 1)[j - k - 2]);
            assert(ranges[j - 1].0 < ranges[j - 1].1);
        }
    }
    assert forall|i: int, j: int|
        #![trigger after[i], after[j]]
        0 <= i < after.len() && j == i + 1 && j < after.len() implies after[i].1 == after[j].0 by {
        if j < k {
            assert(ranges[i].1 == ranges[j].0);
        } else if j == k {
            assert(ranges[i].1 == ranges[k].0);
        } else if i == k + 1 {
            assert(ranges[k].1 == ranges[k + 1].0);
        } else if i > k + 1 {
            assert(ranges[i - 1].1 == ranges[j - 1].0);
        }
    }
    if k + 1 < ranges.len() {
        assert(after.last() == ranges.last());
    }
}

/// Parts whose times cover a recording pass for the recording.
pub proof fn lemma_cover_passes(parts: Seq<TranscriptPart>, duration_ms: u64)
    requires
        is_cover(
            parts.map_values(|part: TranscriptPart| (part.start_ms as int, part.end_ms as int)),
            duration_ms as int,
        ),
    ensures
        timeline_fault(parts, duration_ms) is None,
{
    let ranges = parts.map_values(
        |part: TranscriptPart| (part.start_ms as int, part.end_ms as int),
    );
    assert forall|k: int| 0 <= k < parts.len() implies (#[trigger] parts[k]).start_ms
        == expected_start(parts, k) && parts[k].end_ms > parts[k].start_ms by {
        assert(ranges[k] == (parts[k].start_ms as int, parts[k].end_ms as int));
        assert(ranges[k].0 < ranges[k].1);
        if k > 0 {
            assert(ranges[k - 1] == (parts[k - 1].start_ms as int, parts[k - 1].end_ms as int));
            assert(ranges[k - 1].1 == ranges[k].0);
        }
    }
    assert(ranges[0] == (parts[0].start_ms as int, parts[0].end_ms as int));
    assert(ranges.last() == (parts.last().start_ms as int, parts.last().end_ms as int));
}

/// Where all pieces get a second text, more do than by sampling, and in a raw
/// transcript none does.
pub proof fn lemma_second_text(mode: TranscriptMode, index: int)
    ensures
        gets_second_text(mode, false, index) ==> gets_second_text(mode, true, index),
        gets_second_text(TranscriptMode::Quality, false, 0),
        !gets_second_text(TranscriptMode::Raw, true, index),
{
}

} // verus!
