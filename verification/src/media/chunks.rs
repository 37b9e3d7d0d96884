//! Cutting sound into pieces that are transcribed one by one.
use vstd::prelude::*;
use crate::config::{Config, ConfigText};
use crate::media::{
    at_least_zero, MediaChunk, MAX_IDENTITY_CANDIDATE_AUDIO_MS, MAX_IDENTITY_TURN_CANDIDATES,
    MIN_IDENTITY_CANDIDATE_MS, TEMP_DISK_EMERGENCY_RESERVE_BYTES,
};
use crate::media::storage::lesser;
use crate::text::{padded_decimal, padded_decimal_string, text2};

verus! {

// ---------------------------------------------------------------------------
// Where to cut
// ---------------------------------------------------------------------------

/// The places to cut from `boundary` on, behind those that were found: every
/// `chunk_ms`, but the last piece is at least `minimum_tail_ms` long, for which
/// the last cut is moved to the front where it can be.
pub open spec fn cuts_from(
    found: Seq<u64>,
    boundary: int,
    duration_ms: u64,
    chunk_ms: u64,
    minimum_tail_ms: u64,
) -> Seq<u64>
    decreases at_least_zero(duration_ms - boundary),
{
    if boundary >= duration_ms || chunk_ms == 0 {
        found.push(duration_ms)
    } else if duration_ms - boundary < minimum_tail_ms {
        let moved = duration_ms - minimum_tail_ms;
        if moved > found.last() {
            found.push(moved as u64).push(duration_ms)
        } else {
            found.push(duration_ms)
        }
    } else {
        cuts_from(
            found.push(boundary as u64),
            boundary + chunk_ms,
            duration_ms,
            chunk_ms,
            minimum_tail_ms,
        )
    }
}

/// The places to cut.
pub open spec fn planned_cuts(duration_ms: u64, chunk_ms: u64, minimum_tail_ms: u64) -> Seq<u64> {
    cuts_from(seq![0u64], chunk_ms as int, duration_ms, chunk_ms, minimum_tail_ms)
}

pub fn plan_chunk_boundaries(duration_ms: u64, chunk_ms: u64, minimum_tail_ms: u64) -> (boundaries:
    Vec<u64>)
    requires
        chunk_ms > 0 || duration_ms == 0,
        duration_ms <= chunk_ms || minimum_tail_ms <= duration_ms,
    ensures
        boundaries@ == planned_cuts(duration_ms, chunk_ms, minimum_tail_ms),
{
    let mut boundaries: Vec<u64> = Vec::new();
    boundaries.push(0);
    let mut boundary: u64 = chunk_ms;
    let ghost all = planned_cuts(duration_ms, chunk_ms, minimum_tail_ms);
    assert(boundaries@ =~= seq![0u64]);
    while boundary < duration_ms
        invariant
            chunk_ms > 0 || duration_ms == 0,
            duration_ms <= chunk_ms || minimum_tail_ms <= duration_ms,
            boundary >= chunk_ms,
            boundaries@.len() > 0,
            all == planned_cuts(duration_ms, chunk_ms, minimum_tail_ms),
            cuts_from(
                boundaries@,
                boundary as int,
                duration_ms,
                chunk_ms,
                minimum_tail_ms,
            ) == all,
        decreases at_least_zero(duration_ms - boundary),
    {
        let remaining: u64 = duration_ms - boundary;
        if remaining < minimum_tail_ms {
            let moved: u64 = duration_ms - minimum_tail_ms;
            if moved > boundaries[boundaries.len() - 1] {
                boundaries.push(moved);
            }
            boundaries.push(duration_ms);
            return boundaries;
        }
        boundaries.push(boundary);
        if chunk_ms > u64::MAX - boundary {
            assert(cuts_from(
                boundaries@,
                boundary + chunk_ms,
                duration_ms,
                chunk_ms,
                minimum_tail_ms,
            ) == boundaries@.push(duration_ms));
            boundaries.push(duration_ms);
            return boundaries;
        }
        boundary = boundary + chunk_ms;
    }
    boundaries.push(duration_ms);
    boundaries
}

/// Cuts divide a length: they start at 0, end at the length and go up, and no
/// two neighbours are more than `most` apart.
pub open spec fn divide(cuts: Seq<u64>, duration_ms: u64, most: u64) -> bool {
    &&& cuts.len() >= 2
    &&& cuts[0] == 0
    &&& cuts[cuts.len() - 1] == duration_ms
    &&& forall|k: int|
        0 <= k < cuts.len() - 1 ==> #[trigger] cuts[k] < cuts[k + 1] && cuts[k + 1] - cuts[k]
            <= most
}

proof fn lemma_cuts_from(
    found: Seq<u64>,
    boundary: int,
    duration_ms: u64,
    chunk_ms: u64,
    minimum_tail_ms: u64,
)
    requires
        0 < chunk_ms,
        2 * minimum_tail_ms <= chunk_ms,
        found.len() >= 1,
        found[0] == 0,
        forall|k: int|
            0 <= k < found.len() - 1 ==> #[trigger] found[k] < found[k + 1] && found[k + 1]
                - found[k] == chunk_ms,
        boundary == found.last() + chunk_ms,
        found.last() < duration_ms,
        found.len() > 1 ==> duration_ms - found.last() >= minimum_tail_ms,
    ensures
        divide(
            cuts_from(found, boundary, duration_ms, chunk_ms, minimum_tail_ms),
            duration_ms,
            chunk_ms,
        ),
        ({
            let cuts = cuts_from(found, boundary, duration_ms, chunk_ms, minimum_tail_ms);
            cuts.len() > 2 ==> forall|k: int|
                0 <= k < cuts.len() - 1 ==> #[trigger] cuts[k] + minimum_tail_ms <= cuts[k + 1]
        }),
    decreases at_least_zero(duration_ms - boundary),
{
    let cuts = cuts_from(found, boundary, duration_ms, chunk_ms, minimum_tail_ms);
    if boundary >= duration_ms {
        assert(cuts =~= found.push(duration_ms));
        assert forall|k: int| 0 <= k < cuts.len() - 1 implies #[trigger] cuts[k] < cuts[k + 1]
            && cuts[k + 1] - cuts[k] <= chunk_ms by {
            if k < found.len() - 1 {
                assert(found[k] < found[k + 1]);
            }
        }
        if cuts.len() > 2 {
            assert forall|k: int| 0 <= k < cuts.len() - 1 implies #[trigger] cuts[k]
                + minimum_tail_ms <= cuts[k + 1] by {
                if k < found.len() - 1 {
                    assert(found[k] < found[k + 1]);
                }
            }
        }
    } else if duration_ms - boundary < minimum_tail_ms {
        let moved = (duration_ms - minimum_tail_ms) as u64;
        assert(moved > found.last());
        assert(cuts =~= found.push(moved).push(duration_ms));
        assert forall|k: int| 0 <= k < cuts.len() - 1 implies #[trigger] cuts[k] < cuts[k + 1]
            && cuts[k + 1] - cuts[k] <= chunk_ms && cuts[k] + minimum_tail_ms <= cuts[k + 1] by {
            if k < found.len() - 1 {
                assert(found[k] < found[k + 1]);
            }
        }
    } else {
        let longer = found.push(boundary as u64);
        assert forall|k: int| 0 <= k < longer.len() - 1 implies #[trigger] longer[k] < longer[k + 1]
            && longer[k + 1] - longer[k] == chunk_ms by {
            if k < found.len() - 1 {
                assert(found[k] < found[k + 1]);
            }
        }
        lemma_cuts_from(longer, boundary + chunk_ms, duration_ms, chunk_ms, minimum_tail_ms);
    }
}

/// The cuts divide the sound without a gap, into pieces of at most `chunk_ms`
/// each; and where there is more than one piece, each is at least
/// `minimum_tail_ms` long. This holds of all settings that are taken, for which
/// a piece is at least twice the least one.
pub proof fn lemma_cuts_divide(duration_ms: u64, chunk_ms: u64, minimum_tail_ms: u64)
    requires
        duration_ms > 0,
        chunk_ms > 0,
        2 * minimum_tail_ms <= chunk_ms,
    ensures
        divide(planned_cuts(duration_ms, chunk_ms, minimum_tail_ms), duration_ms, chunk_ms),
        ({
            let cuts = planned_cuts(duration_ms, chunk_ms, minimum_tail_ms);
            cuts.len() > 2 ==> forall|k: int|
                0 <= k < cuts.len() - 1 ==> #[trigger] cuts[k] + minimum_tail_ms <= cuts[k + 1]
        }),
{
    lemma_cuts_from(seq![0u64], chunk_ms as int, duration_ms, chunk_ms, minimum_tail_ms);
}

// ---------------------------------------------------------------------------
// Pieces
// ---------------------------------------------------------------------------

/// The piece between two cuts, with the sound that is heard before it.
pub open spec fn is_piece(
    chunk: MediaChunk,
    source: Seq<char>,
    cuts: Seq<u64>,
    index: int,
    overlap_ms: int,
) -> bool {
    &&& chunk.source_path@ == source
    &&& chunk.start_ms == cuts[index]
    &&& chunk.end_ms == cuts[index + 1]
    &&& chunk.audio_start_ms == at_least_zero(cuts[index] - overlap_ms)
    &&& chunk.lineage@ == padded_decimal(index as nat, 6)
}

proof fn lemma_cuts_some(
    found: Seq<u64>,
    boundary: int,
    duration_ms: u64,
    chunk_ms: u64,
    minimum_tail_ms: u64,
)
    ensures
        cuts_from(found, boundary, duration_ms, chunk_ms, minimum_tail_ms).len() > found.len(),
    decreases at_least_zero(duration_ms - boundary),
{
    if boundary < duration_ms && chunk_ms > 0 && duration_ms - boundary >= minimum_tail_ms {
        lemma_cuts_some(
            found.push(boundary as u64),
            boundary + chunk_ms,
            duration_ms,
            chunk_ms,
            minimum_tail_ms,
        );
    }
}

/// Cuts sound into pieces by the settings.
pub fn prepare_audio_chunks(source_path: &str, duration_ms: u64, config: &Config) -> (chunks: Vec<
    MediaChunk,
>)
    requires
        config.chunk_seconds * 1_000 <= u64::MAX,
        config.min_chunk_seconds * 1_000 <= u64::MAX,
        config.overlap_seconds * 1_000 <= u64::MAX,
        config.chunk_seconds > 0 || duration_ms == 0,
        duration_ms <= config.chunk_seconds * 1_000 || config.min_chunk_seconds * 1_000
            <= duration_ms,
    ensures
        ({
            let cuts = planned_cuts(
                duration_ms,
                (config.chunk_seconds * 1_000) as u64,
                (config.min_chunk_seconds * 1_000) as u64,
            );
            &&& chunks@.len() == cuts.len() - 1
            &&& forall|k: int|
                0 <= k < chunks@.len() ==> is_piece(
                    #[trigger] chunks@[k],
                    source_path@,
                    cuts,
                    k,
                    config.overlap_seconds * 1_000,
                )
        }),
{
    let chunk_ms: u64 = config.chunk_seconds * 1_000;
    let tail_ms: u64 = config.min_chunk_seconds * 1_000;
    let overlap_ms: u64 = config.overlap_seconds * 1_000;
    let cuts = plan_chunk_boundaries(duration_ms, chunk_ms, tail_ms);
    proof {
        lemma_cuts_some(seq![0u64], chunk_ms as int, duration_ms, chunk_ms, tail_ms);
    }
    let mut chunks: Vec<MediaChunk> = Vec::new();
    let mut k: usize = 0;
    while k < cuts.len() - 1
        invariant
            cuts@.len() >= 1,
            k <= cuts@.len() - 1,
            chunks@.len() == k,
            forall|j: int|
                0 <= j < k ==> is_piece(
                    #[trigger] chunks@[j],
                    source_path@,
                    cuts@,
                    j,
                    overlap_ms as int,
                ),
        decreases cuts@.len() - k,
    {
        let start: u64 = cuts[k];
        let audio_start_ms: u64 = if start >= overlap_ms {
            start - overlap_ms
        } else {
            0
        };
        let chunk = MediaChunk {
            source_path: source_path.to_owned(),
            audio_start_ms,
            start_ms: start,
            end_ms: cuts[k + 1],
            lineage: padded_decimal_string(k as u64, 6),
        };
        chunks.push(chunk);
        k += 1;
    }
    chunks
}

/// The two halves of a piece.
pub open spec fn are_halves(
    left: MediaChunk,
    right: MediaChunk,
    chunk: MediaChunk,
    overlap_ms: u64,
) -> bool {
    let middle = chunk.start_ms + chunk.duration() / 2;
    &&& left.source_path@ == chunk.source_path@
    &&& right.source_path@ == chunk.source_path@
    &&& left.start_ms == chunk.start_ms
    &&& left.end_ms == middle
    &&& right.start_ms == middle
    &&& right.end_ms == chunk.end_ms
    &&& left.audio_start_ms == at_least_zero(chunk.start_ms - overlap_ms)
    &&& right.audio_start_ms == at_least_zero(middle - overlap_ms)
    &&& left.lineage@ == chunk.lineage@ + "L"@
    &&& right.lineage@ == chunk.lineage@ + "R"@
}

fn back_from(at: u64, overlap_ms: u64) -> (result: u64)
    ensures
        result == at_least_zero(at - overlap_ms),
{
    if at >= overlap_ms {
        at - overlap_ms
    } else {
        0
    }
}

/// Cuts a piece into two halves.
pub fn split_audio_chunk(chunk: &MediaChunk, overlap_ms: u64) -> (result: Result<
    (MediaChunk, MediaChunk),
    String,
>)
    ensures
        match result {
            Ok((left, right)) => chunk.duration() >= 2_000 && are_halves(
                left,
                right,
                *chunk,
                overlap_ms,
            ),
            Err(message) => chunk.duration() < 2_000 && message@
                == "音频片段太短，无法继续二分"@,
        },
{
    if chunk.duration_ms() < 2_000 {
        return Err("音频片段太短，无法继续二分".to_owned());
    }
    let middle: u64 = chunk.start_ms + chunk.duration_ms() / 2;
    let left = MediaChunk {
        source_path: chunk.source_path.clone(),
        audio_start_ms: back_from(chunk.start_ms, overlap_ms),
        start_ms: chunk.start_ms,
        end_ms: middle,
        lineage: text2(chunk.lineage.as_str(), "L"),
    };
    let right = MediaChunk {
        source_path: chunk.source_path.clone(),
        audio_start_ms: back_from(middle, overlap_ms),
        start_ms: middle,
        end_ms: chunk.end_ms,
        lineage: text2(chunk.lineage.as_str(), "R"),
    };
    Ok((left, right))
}

/// The halves of a piece do not overlap, together they are the piece, and each
/// is shorter than the piece and not empty.
pub proof fn lemma_halves_cover(
    left: MediaChunk,
    right: MediaChunk,
    chunk: MediaChunk,
    overlap_ms: u64,
)
    requires
        chunk.duration() >= 2_000,
        are_halves(left, right, chunk, overlap_ms),
    ensures
        left.start_ms == chunk.start_ms,
        left.end_ms == right.start_ms,
        right.end_ms == chunk.end_ms,
        0 < left.duration() < chunk.duration(),
        0 < right.duration() < chunk.duration(),
        left.duration() + right.duration() == chunk.duration(),
{
}

// ---------------------------------------------------------------------------
// Room
// ---------------------------------------------------------------------------

/// How long a packet of samples can get.
pub open spec fn longest_packet_ms(config: ConfigText) -> int {
    let chunk_ms = config.chunk_seconds * 1_000;
    let silence_ms = config.speaker_reference_silence_seconds * 1_000;
    let reference_ms = config.speaker_reference_seconds * 1_000;
    let count = lesser(
        chunk_ms / MIN_IDENTITY_CANDIDATE_MS as int,
        MAX_IDENTITY_TURN_CANDIDATES as int,
    );
    config.overlap_seconds * 1_000 + silence_ms + (reference_ms + silence_ms) * config.max_speakers
        + lesser(
        lesser(MAX_IDENTITY_CANDIDATE_AUDIO_MS as int, chunk_ms),
        reference_ms * count,
    ) + silence_ms * count
}

/// The greatest number where a result exceeds it.
pub open spec fn capped(number: int) -> int {
    lesser(number, u64::MAX as int)
}

fn capped_product(left: u64, right: u64) -> (product: u64)
    ensures
        product == capped(left * right),
{
    assert(left * right <= u64::MAX * u64::MAX) by (nonlinear_arith)
        requires
            left <= u64::MAX,
            right <= u64::MAX,
    ;
    let product: u128 = left as u128 * right as u128;
    if product <= u64::MAX as u128 {
        product as u64
    } else {
        u64::MAX
    }
}

proof fn lemma_capped_product(number: int, factor: int)
    requires
        0 <= number,
        0 <= factor,
    ensures
        capped(capped(number) * factor) == capped(number * factor),
        0 <= number * factor,
{
    assert(0 <= number * factor) by (nonlinear_arith)
        requires
            0 <= number,
            0 <= factor,
    ;
    if number > u64::MAX && factor > 0 {
        assert(u64::MAX * factor >= u64::MAX) by (nonlinear_arith)
            requires
                factor >= 1,
        ;
        assert(number * factor >= number) by (nonlinear_arith)
            requires
                0 <= number,
                factor >= 1,
        ;
    } else if factor == 0 {
        assert(capped(number) * factor == 0 && number * factor == 0) by (nonlinear_arith)
            requires
                factor == 0,
        ;
    }
}

pub fn maximum_alignment_packet_ms(config: &Config) -> (longest: u64)
    ensures
        longest == capped(longest_packet_ms(config@)),
{
    let chunk_ms: u64 = capped_product(config.chunk_seconds, 1_000);
    let silence_ms: u64 = capped_product(config.speaker_reference_silence_seconds, 1_000);
    let reference_ms: u64 = capped_product(config.speaker_reference_seconds, 1_000);
    let speakers: u64 = config.max_speakers as u64;
    let references_ms: u64 = capped_product(reference_ms.saturating_add(silence_ms), speakers);
    let possible: u64 = chunk_ms / MIN_IDENTITY_CANDIDATE_MS;
    let most: u64 = MAX_IDENTITY_TURN_CANDIDATES as u64;
    let count: u64 = if possible <= most {
        possible
    } else {
        most
    };
    let mut candidate_ms: u64 = if MAX_IDENTITY_CANDIDATE_AUDIO_MS <= chunk_ms {
        MAX_IDENTITY_CANDIDATE_AUDIO_MS
    } else {
        chunk_ms
    };
    let samples_ms: u64 = capped_product(reference_ms, count);
    if samples_ms < candidate_ms {
        candidate_ms = samples_ms;
    }
    let context_ms: u64 = capped_product(config.overlap_seconds, 1_000);
    let gaps_ms: u64 = capped_product(silence_ms, count);
    proof {
        let silence = config.speaker_reference_silence_seconds * 1_000;
        let reference = config.speaker_reference_seconds * 1_000;
        lemma_capped_product(reference + silence, speakers as int);
        lemma_capped_product(reference, count as int);
        lemma_capped_product(silence, count as int);
    }
    context_ms.saturating_add(silence_ms).saturating_add(references_ms).saturating_add(
        candidate_ms,
    ).saturating_add(gaps_ms)
}

/// Room that is not there.
#[derive(Clone, Copy, Debug, PartialEq, Eq, Structural)]
pub struct SpaceShortage {
    pub needed: u64,
    pub allowed: u64,
}

/// What the largest packet may take on disk.
pub open spec fn packet_bytes(config: ConfigText) -> int {
    9 * (if config.chunk_seconds * 1_000 >= longest_packet_ms(config) {
        config.chunk_seconds * 1_000
    } else {
        longest_packet_ms(config)
    })
}

fn estimated_packet_bytes(config: &Config) -> (bytes: u64)
    ensures
        bytes == capped(packet_bytes(config@)),
{
    let packet_ms: u64 = maximum_alignment_packet_ms(config);
    let chunk_ms: u64 = capped_product(config.chunk_seconds, 1_000);
    if chunk_ms >= packet_ms {
        capped_product(chunk_ms, 9)
    } else {
        capped_product(packet_ms, 9)
    }
}

/// Checks that the master and the largest packet fit into what the settings
/// allow for temporary files.
pub fn check_projected_space(config: &Config, canonical_size: u64) -> (result: Result<
    (),
    SpaceShortage,
>)
    ensures
        ({
            let projected = capped(canonical_size + packet_bytes(config@));
            match result {
                Ok(_) => projected <= config.max_temp_bytes,
                Err(shortage) => projected > config.max_temp_bytes && shortage.needed == projected
                    && shortage.allowed == config.max_temp_bytes,
            }
        }),
{
    proof {
        lemma_packet_bytes(config@);
    }
    let projected: u64 = canonical_size.saturating_add(estimated_packet_bytes(config));
    if projected > config.max_temp_bytes {
        Err(SpaceShortage { needed: projected, allowed: config.max_temp_bytes })
    } else {
        Ok(())
    }
}

/// Checks that the largest packet fits on the volume.
pub fn check_available_space(config: &Config, available: u64) -> (result: Result<(), SpaceShortage>)
    ensures
        ({
            let needed = capped(packet_bytes(config@) + TEMP_DISK_EMERGENCY_RESERVE_BYTES);
            match result {
                Ok(_) => available >= needed,
                Err(shortage) => available < needed && shortage.needed == needed
                    && shortage.allowed == available,
            }
        }),
{
    proof {
        lemma_packet_bytes(config@);
    }
    let needed: u64 = estimated_packet_bytes(config).saturating_add(
        TEMP_DISK_EMERGENCY_RESERVE_BYTES,
    );
    if available < needed {
        Err(SpaceShortage { needed, allowed: available })
    } else {
        Ok(())
    }
}

proof fn lemma_packet_bytes(config: ConfigText)
    ensures
        0 <= packet_bytes(config),
{
    assert(0 <= config.chunk_seconds * 1_000);
}

/// What was foreseen for a packet is enough for every packet: for at most as
/// many voices as the settings allow, each with a sample of at most the length
/// that they allow, for the sound before the piece, and for samples of turns
/// that do not overlap, with silence behind each of them.
pub proof fn lemma_packet_fits(
    config: ConfigText,
    reference_count: nat,
    reference_audio_ms: nat,
    context_ms: nat,
    candidate_count: nat,
    candidate_audio_ms: nat,
)
    requires
        config.valid(),
        reference_count <= config.max_speakers,
        reference_audio_ms <= reference_count * (config.speaker_reference_seconds * 1_000),
        context_ms <= config.overlap_seconds * 1_000,
        candidate_count <= MAX_IDENTITY_TURN_CANDIDATES,
        candidate_count * MIN_IDENTITY_CANDIDATE_MS <= config.chunk_seconds * 1_000,
        candidate_audio_ms <= MAX_IDENTITY_CANDIDATE_AUDIO_MS,
        candidate_audio_ms <= config.chunk_seconds * 1_000,
        candidate_audio_ms <= candidate_count * (config.speaker_reference_seconds * 1_000),
    ensures
        reference_audio_ms + reference_count * (config.speaker_reference_silence_seconds * 1_000)
            + context_ms + config.speaker_reference_silence_seconds * 1_000 + candidate_audio_ms
            + candidate_count * (config.speaker_reference_silence_seconds * 1_000)
            <= longest_packet_ms(config),
{
    let reference_ms = config.speaker_reference_seconds * 1_000;
    let silence_ms = config.speaker_reference_silence_seconds * 1_000;
    let count = lesser(
        (config.chunk_seconds * 1_000) / MIN_IDENTITY_CANDIDATE_MS as int,
        MAX_IDENTITY_TURN_CANDIDATES as int,
    );
    assert(candidate_count <= count);
    let speakers = config.max_speakers as int;
    assert(reference_count * reference_ms <= speakers * reference_ms) by (nonlinear_arith)
        requires
            reference_count <= speakers,
            0 <= reference_ms,
    ;
    assert(reference_count * silence_ms <= speakers * silence_ms) by (nonlinear_arith)
        requires
            reference_count <= speakers,
            0 <= silence_ms,
    ;
    assert((reference_ms + silence_ms) * speakers == speakers * reference_ms + speakers
        * silence_ms) by (nonlinear_arith);
    assert(candidate_count * silence_ms <= silence_ms * count) by (nonlinear_arith)
        requires
            candidate_count <= count,
            0 <= silence_ms,
    ;
    assert(candidate_count * reference_ms <= reference_ms * count) by (nonlinear_arith)
        requires
            candidate_count <= count,
            0 <= reference_ms,
    ;
}

} // verus!
