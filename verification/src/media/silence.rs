//! Silence in a sound: what a program that looks for it prints, and what is
//! left between the silent parts.
use vstd::prelude::*;
use crate::media::NonSilentRange;
use crate::media::storage::lesser;
use crate::text::{
    bounded, bounded_text, chars_of, lines_of, lossy_text, lossy_text_of, occurs_at,
    occurs_here, split_lines, split_words, string_of, string_of_range, words,
};

verus! {

// ---------------------------------------------------------------------------
// Marks
// ---------------------------------------------------------------------------

/// The first place at or behind `from` where a text stands, or `-1`.
pub open spec fn first_place(text: Seq<char>, needle: Seq<char>, from: int) -> int
    decreases text.len() + 1 - from,
{
    if from > text.len() {
        -1
    } else if occurs_at(text, from, needle) {
        from
    } else {
        first_place(text, needle, from + 1)
    }
}

/// What stands behind the first place of a mark: the next word.
pub open spec fn marked_word(line: Seq<char>, mark: Seq<char>) -> Option<Seq<char>> {
    let at = first_place(line, mark, 0);
    if at < 0 {
        None
    } else {
        let parts = words(line.skip(at + mark.len()));
        if parts.len() > 0 {
            Some(parts[0])
        } else {
            None
        }
    }
}

/// The word behind a mark in a line.
pub fn parse_silence_marker(line: &str, mark: &str) -> (word: Option<String>)
    ensures
        match word {
            Some(text) => marked_word(line@, mark@) == Some(text@),
            None => marked_word(line@, mark@) is None,
        },
{
    let chars = chars_of(line);
    let needle = chars_of(mark);
    let mut at: usize = 0;
    while at <= chars.len()
        invariant
            at <= chars@.len() + 1,
            chars@.len() == chars.len(),
            chars@ == line@,
            needle@ == mark@,
            first_place(line@, mark@, at as int) == first_place(line@, mark@, 0),
        decreases chars@.len() + 1 - at,
    {
        if occurs_here(chars.as_slice(), at, needle.as_slice()) {
            let rest = string_of_range(chars.as_slice(), at + needle.len(), chars.len());
            assert(rest@ =~= line@.skip(at + mark@.len()));
            let parts = split_words(rest.as_str());
            if parts.len() > 0 {
                return Some(string_of(parts[0].as_slice()));
            }
            return None;
        }
        if at == chars.len() {
            assert(first_place(line@, mark@, at + 1) == -1);
            return None;
        }
        at += 1;
    }
    None
}

/// A mark that a program printed: whether a silence begins or ends, and at how
/// many seconds, as it was written.
#[derive(Debug)]
pub struct SilenceMarker {
    pub opens: bool,
    pub seconds: String,
}

pub ghost struct SilenceMarkerView {
    pub opens: bool,
    pub seconds: Seq<char>,
}

impl View for SilenceMarker {
    type V = SilenceMarkerView;

    open spec fn view(&self) -> SilenceMarkerView {
        SilenceMarkerView { opens: self.opens, seconds: self.seconds@ }
    }
}

pub open spec fn marker_views(markers: Seq<SilenceMarker>) -> Seq<SilenceMarkerView> {
    markers.map_values(|marker: SilenceMarker| marker@)
}

/// The marks of one line: the beginning before the end.
pub open spec fn line_marks(line: Seq<char>) -> Seq<SilenceMarkerView> {
    let first = match marked_word(line, "silence_start:"@) {
        Some(word) => seq![SilenceMarkerView { opens: true, seconds: word }],
        None => Seq::empty(),
    };
    match marked_word(line, "silence_end:"@) {
        Some(word) => first.push(SilenceMarkerView { opens: false, seconds: word }),
        None => first,
    }
}

/// The marks of the first `n` lines.
pub open spec fn marks_of_lines(lines: Seq<Seq<char>>, n: nat) -> Seq<SilenceMarkerView>
    decreases n,
{
    if n == 0 {
        Seq::empty()
    } else {
        marks_of_lines(lines, (n - 1) as nat) + line_marks(lines[n - 1])
    }
}

/// The marks of a text.
pub open spec fn marks_of(text: Seq<char>) -> Seq<SilenceMarkerView> {
    marks_of_lines(lines_of(text), lines_of(text).len())
}

fn push_marker(markers: &mut Vec<SilenceMarker>, opens: bool, seconds: String)
    ensures
        marker_views(final(markers)@) == marker_views(old(markers)@).push(
            (SilenceMarkerView { opens, seconds: seconds@ }),
        ),
{
    let ghost before = marker_views(markers@);
    let marker = SilenceMarker { opens, seconds };
    markers.push(marker);
    assert(marker_views(markers@) =~= before.push(marker@));
}

/// The marks in a text.
pub fn silence_markers_in(text: &str) -> (markers: Vec<SilenceMarker>)
    ensures
        marker_views(markers@) == marks_of(text@),
{
    let lines = split_lines(text);
    let mut markers: Vec<SilenceMarker> = Vec::new();
    let mut n: usize = 0;
    assert(marker_views(markers@) =~= Seq::empty());
    while n < lines.len()
        invariant
            n <= lines@.len(),
            lines@.map_values(|line: String| line@) == lines_of(text@),
            marker_views(markers@) == marks_of_lines(lines_of(text@), n as nat),
        decreases lines@.len() - n,
    {
        let line = lines[n].as_str();
        assert(lines_of(text@)[n as int] == line@);
        let ghost before = marker_views(markers@);
        if let Some(seconds) = parse_silence_marker(line, "silence_start:") {
            push_marker(&mut markers, true, seconds);
        }
        if let Some(seconds) = parse_silence_marker(line, "silence_end:") {
            push_marker(&mut markers, false, seconds);
        }
        assert(marker_views(markers@) =~= before + line_marks(line@));
        n += 1;
    }
    markers
}

/// The marks in what a program printed.
pub fn silence_markers(printed: &[u8]) -> (markers: Vec<SilenceMarker>)
    ensures
        marker_views(markers@) == marks_of(lossy_text_of(printed@)),
{
    let text = lossy_text(printed);
    silence_markers_in(text.as_str())
}

/// What a program printed, shortened for a message.
pub fn bounded_stderr(printed: &[u8]) -> (text: String)
    ensures
        text@ == bounded_text(lossy_text_of(printed@), 2_000),
{
    let text = lossy_text(printed);
    bounded(text.as_str(), 2_000)
}

// ---------------------------------------------------------------------------
// Ranges
// ---------------------------------------------------------------------------

/// Where a silence begins or ends, in milliseconds.
#[derive(Clone, Copy, Debug, PartialEq, Eq, Structural)]
pub enum SilenceMark {
    Start(u64),
    End(u64),
}

fn lesser_of(a: u64, b: u64) -> (c: u64)
    ensures
        c == lesser(a as int, b as int),
{
    if a <= b {
        a
    } else {
        b
    }
}

/// Where the silence begins that is open before the mark `n`.
pub open spec fn open_start(marks: Seq<SilenceMark>, n: int) -> Option<u64> {
    if 0 < n <= marks.len() {
        match marks[n - 1] {
            SilenceMark::Start(start) => Some(start),
            SilenceMark::End(_) => None,
        }
    } else {
        None
    }
}

/// The silence that ends with the mark `n`, or with the sound.
pub open spec fn silence_at(marks: Seq<SilenceMark>, duration: int, n: int) -> Option<(int, int)> {
    if 0 <= n < marks.len() {
        match marks[n] {
            SilenceMark::Start(_) => None,
            SilenceMark::End(end) => {
                let start = match open_start(marks, n) {
                    Some(start) => lesser(start as int, duration),
                    None => 0,
                };
                Some((start, lesser(end as int, duration)))
            },
        }
    } else if n == marks.len() {
        match open_start(marks, n) {
            Some(start) => Some((lesser(start as int, duration), duration)),
            None => None,
        }
    } else {
        None
    }
}

/// A moment lies in the silence that ends with the mark `n`.
pub open spec fn silent_by(marks: Seq<SilenceMark>, duration: int, n: int, p: int) -> bool {
    match silence_at(marks, duration, n) {
        Some((start, end)) => start <= p < end,
        None => false,
    }
}

/// A moment of a sound is silent.
pub open spec fn is_silent(marks: Seq<SilenceMark>, duration: int, p: int) -> bool {
    exists|n: int| 0 <= n <= marks.len() && #[trigger] silent_by(marks, duration, n, p)
}

/// A moment lies in a range of a list.
pub open spec fn in_ranges(ranges: Seq<NonSilentRange>, p: int) -> bool {
    exists|k: int|
        0 <= k < ranges.len() && (#[trigger] ranges[k]).start_ms <= p && p < ranges[k].end_ms
}

/// Ranges in order that are not empty and do not touch.
pub open spec fn are_apart(ranges: Seq<NonSilentRange>) -> bool {
    &&& forall|k: int|
        0 <= k < ranges.len() ==> (#[trigger] ranges[k]).start_ms < ranges[k].end_ms
    &&& forall|j: int, k: int|
        0 <= j < k < ranges.len() ==> (#[trigger] ranges[j]).end_ms < (
        #[trigger] ranges[k]).start_ms
}

/// The silent parts of a sound, in the order of the marks.
fn silences(marks: &Vec<SilenceMark>, duration_ms: u64) -> (silences: Vec<(u64, u64)>)
    ensures
        forall|k: int|
            0 <= k < silences@.len() ==> (#[trigger] silences@[k]).0 < silences@[k].1
                <= duration_ms,
        forall|k: int, p: int|
            0 <= k < silences@.len() && (#[trigger] silences@[k]).0 <= p < silences@[k].1
                ==> #[trigger] is_silent(marks@, duration_ms as int, p),
        forall|n: int, p: int| #[trigger]
            silent_by(marks@, duration_ms as int, n, p) ==> exists|k: int|
                0 <= k < silences@.len() && (#[trigger] silences@[k]).0 <= p < silences@[k].1,
{
    let ghost duration = duration_ms as int;
    let mut result: Vec<(u64, u64)> = Vec::new();
    let mut start: Option<u64> = None;
    let mut n: usize = 0;
    while n <= marks.len()
        invariant
            n <= marks@.len() + 1,
            marks@.len() == marks.len(),
            duration == duration_ms,
            n <= marks@.len() ==> start == open_start(marks@, n as int),
            forall|k: int|
                0 <= k < result@.len() ==> (#[trigger] result@[k]).0 < result@[k].1 <= duration_ms,
            forall|k: int, p: int|
                0 <= k < result@.len() && (#[trigger] result@[k]).0 <= p < result@[k].1
                    ==> #[trigger] is_silent(marks@, duration, p),
            forall|m: int, p: int|
                m < n && #[trigger] silent_by(marks@, duration, m, p) ==> exists|k: int|
                    0 <= k < result@.len() && (#[trigger] result@[k]).0 <= p < result@[k].1,
        decreases marks@.len() + 1 - n,
    {
        let ghost before = result@;
        let mut found: Option<(u64, u64)> = None;
        if n == marks.len() {
            if let Some(from) = start {
                found = Some((lesser_of(from, duration_ms), duration_ms));
            }
        } else {
            match marks[n] {
                SilenceMark::Start(from) => {
                    start = Some(from);
                },
                SilenceMark::End(end) => {
                    let from: u64 = match start {
                        Some(from) => lesser_of(from, duration_ms),
                        None => 0,
                    };
                    found = Some((from, lesser_of(end, duration_ms)));
                    start = None;
                },
            }
        }
        if let Some((from, to)) = found {
            assert(silence_at(marks@, duration, n as int) == Some((from as int, to as int)));
            if from < to {
                result.push((from, to));
                assert(result@[before.len() as int] == (from, to));
                assert forall|p: int| from <= p < to implies #[trigger] is_silent(
                    marks@,
                    duration,
                    p,
                ) by {
                    assert(silent_by(marks@, duration, n as int, p));
                }
            }
        } else {
            assert(silence_at(marks@, duration, n as int) is None);
        }
        assert forall|m: int, p: int|
            m < n + 1 && #[trigger] silent_by(marks@, duration, m, p) implies exists|k: int|
            0 <= k < result@.len() && (#[trigger] result@[k]).0 <= p < result@[k].1 by {
            if m < n {
                let k = choose|k: int|
                    0 <= k < before.len() && (#[trigger] before[k]).0 <= p < before[k].1;
                assert(result@[k] == before[k]);
            }
        }
        if n == marks.len() {
            return result;
        }
        n += 1;
    }
    result
}

/// How far the silences reach that hold a moment.
fn furthest_end(silences: &Vec<(u64, u64)>, at: u64) -> (end: u64)
    ensures
        end >= at,
        forall|k: int|
            0 <= k < silences@.len() && (#[trigger] silences@[k]).0 <= at ==> silences@[k].1 <= end,
        end > at ==> exists|k: int|
            0 <= k < silences@.len() && (#[trigger] silences@[k]).0 <= at && silences@[k].1 == end,
{
    let mut end: u64 = at;
    let mut n: usize = 0;
    while n < silences.len()
        invariant
            n <= silences@.len(),
            end >= at,
            forall|k: int|
                0 <= k < n && (#[trigger] silences@[k]).0 <= at ==> silences@[k].1 <= end,
            end > at ==> exists|k: int|
                0 <= k < n && (#[trigger] silences@[k]).0 <= at && silences@[k].1 == end,
        decreases silences@.len() - n,
    {
        let (from, to) = silences[n];
        if from <= at && to > end {
            end = to;
            assert(silences@[n as int].0 <= at && silences@[n as int].1 == end);
        }
        n += 1;
    }
    end
}

/// Where the next silence begins behind a moment that none holds.
fn next_start(silences: &Vec<(u64, u64)>, at: u64, duration_ms: u64) -> (start: u64)
    requires
        at < duration_ms,
        forall|k: int| 0 <= k < silences@.len() ==> (#[trigger] silences@[k]).0 < silences@[k].1,
    ensures
        at < start <= duration_ms,
        forall|k: int|
            0 <= k < silences@.len() && (#[trigger] silences@[k]).0 > at ==> silences@[k].0
                >= start,
        start < duration_ms ==> exists|k: int|
            0 <= k < silences@.len() && (#[trigger] silences@[k]).0 == start,
{
    let mut start: u64 = duration_ms;
    let mut n: usize = 0;
    while n < silences.len()
        invariant
            n <= silences@.len(),
            at < start <= duration_ms,
            forall|k: int|
                0 <= k < n && (#[trigger] silences@[k]).0 > at && silences@[k].0 < duration_ms
                    ==> silences@[k].0 >= start,
            start < duration_ms ==> exists|k: int|
                0 <= k < n && (#[trigger] silences@[k]).0 == start,
        decreases silences@.len() - n,
    {
        let (from, _) = silences[n];
        if from > at && from < start {
            start = from;
            assert(silences@[n as int].0 == start);
        }
        n += 1;
    }
    start
}

/// The parts of a sound between its silences.
pub fn parse_non_silent_ranges(marks: &Vec<SilenceMark>, duration_ms: u64) -> (ranges: Vec<
    NonSilentRange,
>)
    ensures
        are_apart(ranges@),
        forall|p: int| #[trigger]
            in_ranges(ranges@, p) <==> 0 <= p < duration_ms && !is_silent(
                marks@,
                duration_ms as int,
                p,
            ),
{
    let silences = silences(marks, duration_ms);
    let ghost duration = duration_ms as int;
    let mut ranges: Vec<NonSilentRange> = Vec::new();
    let mut cursor: u64 = 0;
    while cursor < duration_ms
        invariant
            cursor <= duration_ms,
            duration == duration_ms,
            forall|k: int|
                0 <= k < silences@.len() ==> (#[trigger] silences@[k]).0 < silences@[k].1
                    <= duration_ms,
            forall|k: int, p: int|
                0 <= k < silences@.len() && (#[trigger] silences@[k]).0 <= p < silences@[k].1
                    ==> #[trigger] is_silent(marks@, duration, p),
            forall|n: int, p: int| #[trigger]
                silent_by(marks@, duration, n, p) ==> exists|k: int|
                    0 <= k < silences@.len() && (#[trigger] silences@[k]).0 <= p < silences@[k].1,
            are_apart(ranges@),
            forall|p: int| #[trigger]
                in_ranges(ranges@, p) <==> 0 <= p < cursor && !is_silent(marks@, duration, p),
            forall|j: int| 0 <= j < ranges@.len() ==> (#[trigger] ranges@[j]).end_ms <= cursor,
            cursor < duration_ms ==> (forall|j: int|
                0 <= j < ranges@.len() ==> (#[trigger] ranges@[j]).end_ms < cursor || is_silent(
                    marks@,
                    duration,
                    cursor as int,
                )),
        decreases duration_ms - cursor,
    {
        let end: u64 = furthest_end(&silences, cursor);
        if end > cursor {
            let ghost k = choose|k: int|
                0 <= k < silences@.len() && (#[trigger] silences@[k]).0 <= cursor && silences@[k].1
                    == end;
            assert forall|p: int| cursor <= p < end implies is_silent(marks@, duration, p) by {
                assert(silences@[k].0 <= p < silences@[k].1);
            }
            assert forall|p: int| #[trigger]
                in_ranges(ranges@, p) <==> 0 <= p < end && !is_silent(marks@, duration, p) by {
                if cursor <= p < end {
                    assert(is_silent(marks@, duration, p));
                }
            }
            cursor = end;
        } else {
            let start: u64 = next_start(&silences, cursor, duration_ms);
            assert forall|p: int| cursor <= p < start implies !is_silent(marks@, duration, p) by {
                if is_silent(marks@, duration, p) {
                    let n = choose|n: int|
                        0 <= n <= marks@.len() && #[trigger] silent_by(marks@, duration, n, p);
                    let k = choose|k: int|
                        0 <= k < silences@.len() && (#[trigger] silences@[k]).0 <= p
                            < silences@[k].1;
                    assert(silences@[k].0 <= cursor || silences@[k].0 > cursor);
                }
            }
            assert(!is_silent(marks@, duration, cursor as int));
            let ghost before = ranges@;
            let range = NonSilentRange { start_ms: cursor, end_ms: start };
            ranges.push(range);
            assert forall|p: int| #[trigger]
                in_ranges(ranges@, p) <==> 0 <= p < start && !is_silent(marks@, duration, p) by {
                if in_ranges(ranges@, p) {
                    let k = choose|k: int|
                        0 <= k < ranges@.len() && (#[trigger] ranges@[k]).start_ms <= p && p
                            < ranges@[k].end_ms;
                    if k < before.len() {
                        assert(before[k] == ranges@[k]);
                        assert(in_ranges(before, p));
                    }
                }
                if 0 <= p < start && !is_silent(marks@, duration, p) {
                    if p < cursor {
                        assert(in_ranges(before, p));
                        let k = choose|k: int|
                            0 <= k < before.len() && (#[trigger] before[k]).start_ms <= p && p
                                < before[k].end_ms;
                        assert(ranges@[k] == before[k]);
                    } else {
                        assert(ranges@[before.len() as int].start_ms <= p);
                    }
                }
            }
            if start < duration_ms {
                proof {
                    let k = choose|k: int|
                        0 <= k < silences@.len() && (#[trigger] silences@[k]).0 == start;
                    assert(silences@[k].0 <= start < silences@[k].1);
                    assert(is_silent(marks@, duration, start as int));
                }
            }
            cursor = start;
        }
    }
    ranges
}

} // verus!
