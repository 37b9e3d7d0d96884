//! A transcription as it goes on: the pieces that are still to be done, the
//! parts that are, and that the two together are always the whole recording.
use vstd::prelude::*;
use crate::config::{Config, ConfigText};
use crate::media::chunks::{
    are_halves, divide, is_piece, lemma_cuts_divide, lemma_halves_cover, planned_cuts,
    prepare_audio_chunks, split_audio_chunk,
};
use crate::media::MediaChunk;
use crate::openrouter::chat::CompletionResult;
use crate::output::TranscriptPart;
use crate::pipeline::{
    done_notice, is_cover, lemma_cover_passes, lemma_split_keeps_cover, process_chunk,
    split_fault, split_notice, split_reason, timeline_fault, ChunkStep,
};

verus! {

/// A piece that is to be done, how often it was cut, and the number of the
/// piece of the recording that it was cut from.
#[derive(Debug)]
pub struct PendingPiece {
    pub chunk: MediaChunk,
    pub depth: u8,
    pub root: usize,
}

/// The parts that are done, in order, and the pieces that are not, the next
/// one last.
#[derive(Debug)]
pub struct TranscriptionRun {
    config: Config,
    duration_ms: u64,
    pending: Vec<PendingPiece>,
    parts: Vec<TranscriptPart>,
}

// ---------------------------------------------------------------------------
// Model
// ---------------------------------------------------------------------------

pub open spec fn part_times(parts: Seq<TranscriptPart>) -> Seq<(int, int)> {
    parts.map_values(|part: TranscriptPart| (part.start_ms as int, part.end_ms as int))
}

/// The times of pieces that are to be done, the next one first.
pub open spec fn piece_times(pending: Seq<PendingPiece>) -> Seq<(int, int)> {
    Seq::new(
        pending.len(),
        |k: int|
            {
                let chunk = pending[pending.len() - 1 - k].chunk;
                (chunk.start_ms as int, chunk.end_ms as int)
            },
    )
}

/// How many requests a piece takes at most that may be cut so often.
pub open spec fn requests_at_most(cuts: nat) -> nat
    decreases cuts,
{
    if cuts == 0 {
        1
    } else {
        1 + 2 * requests_at_most((cuts - 1) as nat)
    }
}

/// How many requests pieces take at most, where a piece is cut so often at
/// most.
pub open spec fn requests_left(pending: Seq<PendingPiece>, max_depth: u8) -> nat
    decreases pending.len(),
{
    if pending.len() == 0 {
        0
    } else {
        requests_left(pending.drop_last(), max_depth) + requests_at_most(
            (max_depth - pending.last().depth) as nat,
        )
    }
}

/// The settings of a transcription: pieces are no longer than a recognition
/// takes, and the least piece is at most half as long.
pub open spec fn recognition_settings(config: ConfigText) -> ConfigText {
    ConfigText {
        chunk_seconds: config.asr_chunk_seconds(),
        min_chunk_seconds: config.asr_min_chunk_seconds(),
        ..config
    }
}

/// Where a recording is cut before it is recognized.
pub open spec fn recognition_cuts(duration_ms: u64, config: ConfigText) -> Seq<u64> {
    planned_cuts(
        duration_ms,
        (config.asr_chunk_seconds() * 1_000) as u64,
        (config.asr_min_chunk_seconds() * 1_000) as u64,
    )
}

proof fn lemma_recognition_settings(config: ConfigText)
    requires
        config.valid(),
    ensures
        recognition_settings(config).valid(),
        recognition_settings(config).chunk_seconds <= 120,
        recognition_settings(config).min_chunk_seconds * 2 <= recognition_settings(
            config,
        ).chunk_seconds,
{
}

impl TranscriptionRun {
    pub closed spec fn settings(&self) -> Config {
        self.config
    }

    pub closed spec fn duration(&self) -> u64 {
        self.duration_ms
    }

    pub closed spec fn to_do(&self) -> Seq<PendingPiece> {
        self.pending@
    }

    pub closed spec fn done(&self) -> Seq<TranscriptPart> {
        self.parts@
    }

    /// What is done and what is not are together the recording, and no piece
    /// was cut too often.
    pub open spec fn well_formed(&self) -> bool {
        &&& self.settings()@.valid()
        &&& is_cover(part_times(self.done()) + piece_times(self.to_do()), self.duration() as int)
        &&& forall|k: int|
            0 <= k < self.to_do().len() ==> (#[trigger] self.to_do()[k]).depth
                <= self.settings().max_adaptive_depth
    }

    // -----------------------------------------------------------------------
    // Steps
    // -----------------------------------------------------------------------

    /// Begins with the pieces of a recording, none of which is longer than a
    /// recognition takes.
    pub fn start(source_path: &str, duration_ms: u64, config: Config) -> (run: TranscriptionRun)
        requires
            config@.valid(),
            duration_ms > 0,
        ensures
            run.well_formed(),
            run.settings()@ == recognition_settings(config@),
            run.duration() == duration_ms,
            run.done().len() == 0,
            run.to_do().len() == recognition_cuts(duration_ms, config@).len() - 1,
            forall|k: int|
                0 <= k < run.to_do().len() ==> {
                    let piece = #[trigger] run.to_do()[k];
                    &&& piece.depth == 0
                    &&& piece.root == run.to_do().len() - 1 - k
                    &&& is_piece(
                        piece.chunk,
                        source_path@,
                        recognition_cuts(duration_ms, config@),
                        run.to_do().len() - 1 - k,
                        config.overlap_seconds * 1_000,
                    )
                    &&& 0 < piece.chunk.duration() <= 120_000
                },
    {
        let ghost plain = config@;
        let mut config = config;
        let chunk_seconds: u64 = config.effective_asr_chunk_seconds();
        let min_chunk_seconds: u64 = config.effective_asr_min_chunk_seconds();
        config.chunk_seconds = chunk_seconds;
        config.min_chunk_seconds = min_chunk_seconds;
        assert(config@ == recognition_settings(plain));
        let ghost cuts = recognition_cuts(duration_ms, plain);
        proof {
            lemma_recognition_settings(plain);
            lemma_cuts_divide(
                duration_ms,
                (config.chunk_seconds * 1_000) as u64,
                (config.min_chunk_seconds * 1_000) as u64,
            );
        }
        let mut chunks = prepare_audio_chunks(source_path, duration_ms, &config);
        let ghost all = chunks@;
        let mut pending: Vec<PendingPiece> = Vec::new();
        while chunks.len() > 0
            invariant
                chunks@ == all.take(chunks@.len() as int),
                chunks@.len() + pending@.len() == all.len(),
                forall|k: int|
                    0 <= k < pending@.len() ==> (#[trigger] pending@[k]).depth == 0
                        && pending@[k].root == all.len() - 1 - k && pending@[k].chunk
                        == all[all.len() - 1 - k],
            decreases chunks@.len(),
        {
            let ghost before = chunks@;
            if let Some(chunk) = chunks.pop() {
                assert(chunk == all[before.len() - 1]);
                assert(chunks@ =~= all.take(chunks@.len() as int));
                pending.push(PendingPiece { chunk, depth: 0, root: chunks.len() });
            }
        }
        let run = TranscriptionRun { config, duration_ms, pending, parts: Vec::new() };
        proof {
            let times = part_times(run.done()) + piece_times(run.to_do());
            assert(part_times(run.done()) =~= Seq::<(int, int)>::empty());
            assert(times =~= piece_times(run.to_do()));
            assert forall|k: int| 0 <= k < times.len() implies (#[trigger] times[k]) == (
                cuts[k] as int,
                cuts[k + 1] as int,
            ) by {
                let chunk = run.to_do()[run.to_do().len() - 1 - k].chunk;
                assert(chunk == all[k]);
            }
            assert(divide(cuts, duration_ms, (run.settings().chunk_seconds * 1_000) as u64));
            assert(is_cover(times, duration_ms as int));
            assert forall|k: int| 0 <= k < run.to_do().len() implies ({
                let piece = #[trigger] run.to_do()[k];
                &&& piece.depth == 0
                &&& piece.root == run.to_do().len() - 1 - k
                &&& is_piece(
                    piece.chunk,
                    source_path@,
                    cuts,
                    run.to_do().len() - 1 - k,
                    plain.overlap_seconds * 1_000,
                )
                &&& 0 < piece.chunk.duration() <= 120_000
            }) by {
                let place = run.to_do().len() - 1 - k;
                assert(run.to_do()[k].chunk == all[place]);
                assert(cuts[place] < cuts[place + 1]);
            }
        }
        run
    }

    /// The piece that is to be done next.
    pub fn next(&self) -> (chunk: Option<&MediaChunk>)
        ensures
            match chunk {
                Some(chunk) => self.to_do().len() > 0 && *chunk == self.to_do().last().chunk,
                None => self.to_do().len() == 0,
            },
    {
        if self.pending.len() == 0 {
            None
        } else {
            Some(&self.pending[self.pending.len() - 1].chunk)
        }
    }

    /// The number of the piece of the recording that the next piece is, or was
    /// cut from.
    pub fn next_root(&self) -> (root: Option<usize>)
        ensures
            match root {
                Some(root) => self.to_do().len() > 0 && root == self.to_do().last().root,
                None => self.to_do().len() == 0,
            },
    {
        if self.pending.len() == 0 {
            None
        } else {
            Some(self.pending[self.pending.len() - 1].root)
        }
    }

    /// Takes what came of the next piece: its text is kept, the piece is cut in
    /// two, or the task ends and nothing changes. What is said to the user is
    /// returned.
    pub fn take(&mut self, result: CompletionResult) -> (notice: Result<String, String>)
        requires
            old(self).well_formed(),
            old(self).to_do().len() > 0,
        ensures
            final(self).well_formed(),
            final(self).settings() == old(self).settings(),
            final(self).duration() == old(self).duration(),
            ({
                let piece = old(self).to_do().last();
                let rest = old(self).to_do().drop_last();
                let config = old(self).settings();
                match split_reason(result, piece.chunk.duration()) {
                    None => {
                        &&& notice is Ok
                        &&& final(self).to_do() == rest
                        &&& final(self).done().len() == old(self).done().len() + 1
                        &&& final(self).done().drop_last() == old(self).done()
                        &&& final(self).done().last().start_ms == piece.chunk.start_ms
                        &&& final(self).done().last().end_ms == piece.chunk.end_ms
                        &&& result == CompletionResult::Complete(
                            final(self).done().last().completion,
                        )
                        &&& (notice->Ok_0)@ == done_notice(
                            piece.chunk,
                            final(self).done().last().completion,
                        )
                    },
                    Some(reason) => match split_fault(
                        piece.chunk,
                        piece.depth,
                        config@,
                        reason,
                    ) {
                        Some(message) => {
                            &&& notice is Err
                            &&& (notice->Err_0)@ == message
                            &&& final(self).to_do() == old(self).to_do()
                            &&& final(self).done() == old(self).done()
                        },
                        None => {
                            &&& notice is Ok
                            &&& (notice->Ok_0)@ == split_notice(piece.chunk, reason)
                            &&& final(self).done() == old(self).done()
                            &&& final(self).to_do().len() == rest.len() + 2
                            &&& final(self).to_do().take(rest.len() as int) == rest
                            &&& final(self).to_do()[rest.len() as int].depth == piece.depth + 1
                            &&& final(self).to_do().last().depth == piece.depth + 1
                            &&& final(self).to_do()[rest.len() as int].root == piece.root
                            &&& final(self).to_do().last().root == piece.root
                            &&& are_halves(
                                final(self).to_do().last().chunk,
                                final(self).to_do()[rest.len() as int].chunk,
                                piece.chunk,
                                (config.overlap_seconds * 1_000) as u64,
                            )
                        },
                    },
                }
            }),
            notice is Ok ==> requests_left(
                final(self).to_do(),
                final(self).settings().max_adaptive_depth,
            ) < requests_left(old(self).to_do(), old(self).settings().max_adaptive_depth),
    {
        let last: usize = self.pending.len() - 1;
        let depth: u8 = self.pending[last].depth;
        let root: usize = self.pending[last].root;
        let ghost before = *self;
        let ghost piece = self.to_do().last();
        let ghost rest = self.to_do().drop_last();
        let ghost max_depth = self.settings().max_adaptive_depth;
        let step = process_chunk(result, &self.pending[last].chunk, depth, &self.config);
        match step {
            Err(message) => Err(message),
            Ok(ChunkStep::Done { part, notice }) => {
                self.pending.pop();
                self.parts.push(part);
                proof {
                    assert(self.to_do() =~= rest);
                    assert(self.done().drop_last() =~= before.done());
                    lemma_part_done(before.done(), part, before.to_do());
                    assert forall|k: int| 0 <= k < self.to_do().len() implies (
                    #[trigger] self.to_do()[k]).depth <= max_depth by {
                        assert(self.to_do()[k] == before.to_do()[k]);
                    }
                    lemma_requests_positive((max_depth - piece.depth) as nat);
                }
                Ok(notice)
            },
            Ok(ChunkStep::Split { notice }) => {
                let overlap_ms: u64 = self.config.overlap_seconds * 1_000;
                match split_audio_chunk(&self.pending[last].chunk, overlap_ms) {
                    Err(message) => {
                        assert(false);
                        Err(message)
                    },
                    Ok((left, right)) => {
                        self.pending.pop();
                        let later = PendingPiece { chunk: right, depth: depth + 1, root };
                        let sooner = PendingPiece { chunk: left, depth: depth + 1, root };
                        self.pending.push(later);
                        self.pending.push(sooner);
                        proof {
                            assert(self.to_do() =~= rest.push(later).push(sooner));
                            assert(self.to_do().take(rest.len() as int) =~= rest);
                            lemma_halves_cover(left, right, piece.chunk, overlap_ms);
                            lemma_piece_cut(
                                before.done(),
                                before.to_do(),
                                later,
                                sooner,
                                before.duration() as int,
                            );
                            assert forall|k: int| 0 <= k < self.to_do().len() implies (
                            #[trigger] self.to_do()[k]).depth <= max_depth by {
                                if k < rest.len() {
                                    assert(self.to_do()[k] == before.to_do()[k]);
                                }
                            }
                            assert(self.to_do().drop_last() =~= rest.push(later));
                            assert(rest.push(later).drop_last() =~= rest);
                            assert(requests_left(rest.push(later), max_depth) == requests_left(
                                rest,
                                max_depth,
                            ) + requests_at_most((max_depth - depth - 1) as nat));
                        }
                        Ok(notice)
                    },
                }
            },
        }
    }

    /// The parts of the recording, where all pieces are done. They follow one
    /// another from its start to its end.
    pub fn finish(self) -> (parts: Option<Vec<TranscriptPart>>)
        requires
            self.well_formed(),
        ensures
            match parts {
                Some(parts) => self.to_do().len() == 0 && parts@ == self.done() && timeline_fault(
                    parts@,
                    self.duration(),
                ) is None,
                None => self.to_do().len() > 0,
            },
    {
        if self.pending.len() > 0 {
            return None;
        }
        proof {
            assert(part_times(self.done()) + piece_times(self.to_do()) =~= part_times(
                self.done(),
            ));
            lemma_cover_passes(self.done(), self.duration());
        }
        Some(self.parts)
    }
}

// ---------------------------------------------------------------------------
// Lemmas
// ---------------------------------------------------------------------------

proof fn lemma_requests_positive(cuts: nat)
    ensures
        requests_at_most(cuts) > 0,
{
}

/// A part with the times of the next piece takes its place.
proof fn lemma_part_done(
    parts: Seq<TranscriptPart>,
    part: TranscriptPart,
    pending: Seq<PendingPiece>,
)
    requires
        pending.len() > 0,
        part.start_ms == pending.last().chunk.start_ms,
        part.end_ms == pending.last().chunk.end_ms,
    ensures
        part_times(parts.push(part)) + piece_times(pending.drop_last()) == part_times(parts)
            + piece_times(pending),
{
    let before = part_times(parts) + piece_times(pending);
    let after = part_times(parts.push(part)) + piece_times(pending.drop_last());
    assert(after.len() == before.len());
    assert forall|k: int| 0 <= k < after.len() implies after[k] == before[k] by {
        if k > parts.len() {
            assert(pending.drop_last()[pending.len() - 2 - (k - parts.len() - 1)]
                == pending[pending.len() - 1 - (k - parts.len())]);
        }
    }
    assert(after =~= before);
}

/// The two halves of the next piece take its place.
proof fn lemma_piece_cut(
    parts: Seq<TranscriptPart>,
    pending: Seq<PendingPiece>,
    later: PendingPiece,
    sooner: PendingPiece,
    duration: int,
)
    requires
        pending.len() > 0,
        is_cover(part_times(parts) + piece_times(pending), duration),
        sooner.chunk.start_ms == pending.last().chunk.start_ms,
        sooner.chunk.start_ms < sooner.chunk.end_ms,
        sooner.chunk.end_ms == later.chunk.start_ms,
        later.chunk.start_ms < later.chunk.end_ms,
        later.chunk.end_ms == pending.last().chunk.end_ms,
    ensures
        is_cover(
            part_times(parts) + piece_times(pending.drop_last().push(later).push(sooner)),
            duration,
        ),
{
    let before = part_times(parts) + piece_times(pending);
    let rest = pending.drop_last();
    let cut = rest.push(later).push(sooner);
    let after = part_times(parts) + piece_times(cut);
    let k = parts.len() as int;
    let middle = sooner.chunk.end_ms as int;
    assert(before[k] == piece_times(pending)[0]);
    lemma_split_keeps_cover(before, duration, k, middle);
    let wanted = before.take(k).push((before[k].0, middle)).push((middle, before[k].1))
        + before.skip(k + 1);
    assert(after.len() == wanted.len());
    assert forall|i: int| 0 <= i < after.len() implies after[i] == wanted[i] by {
        if i >= k {
            assert(after[i] == piece_times(cut)[i - k]);
            if i > k + 1 {
                assert(cut[cut.len() - 1 - (i - k)] == pending[pending.len() - 1 - (i - 1 - k)]);
                assert(wanted[i] == before[i - 1]);
                assert(before[i - 1] == piece_times(pending)[i - 1 - k]);
            }
        }
    }
    assert(after =~= wanted);
}

// ---------------------------------------------------------------------------
// Laws
// ---------------------------------------------------------------------------

/// A run ends: the pieces that are to be done take a known number of requests
/// at most, which is that of all requests where nothing was cut yet, and every
/// request that is taken leaves fewer.
pub proof fn lemma_run_ends(pending: Seq<PendingPiece>, max_depth: u8)
    requires
        forall|k: int| 0 <= k < pending.len() ==> (#[trigger] pending[k]).depth <= max_depth,
    ensures
        requests_left(pending, max_depth) <= pending.len() * requests_at_most(max_depth as nat),
        requests_left(pending, max_depth) == 0 <==> pending.len() == 0,
    decreases pending.len(),
{
    if pending.len() > 0 {
        let rest = pending.drop_last();
        assert forall|k: int| 0 <= k < rest.len() implies (#[trigger] rest[k]).depth
            <= max_depth by {
            assert(rest[k] == pending[k]);
        }
        lemma_run_ends(rest, max_depth);
        lemma_requests_grow((max_depth - pending.last().depth) as nat, max_depth as nat);
        lemma_requests_positive((max_depth - pending.last().depth) as nat);
        assert(pending.len() * requests_at_most(max_depth as nat) == (pending.len() - 1)
            * requests_at_most(max_depth as nat) + requests_at_most(max_depth as nat))
            by (nonlinear_arith);
    }
}

proof fn lemma_requests_grow(less: nat, more: nat)
    requires
        less <= more,
    ensures
        requests_at_most(less) <= requests_at_most(more),
    decreases more,
{
    if less < more {
        lemma_requests_grow(less, (more - 1) as nat);
    }
}

} // verus!
