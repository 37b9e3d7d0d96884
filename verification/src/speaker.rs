//! Who speaks: the turns of a stretch of audio, and the speakers that are
//! known over a whole recording.
use crate::media::NonSilentRange;
use vstd::prelude::*;

pub mod candidates;
pub mod harness;
pub mod history;
pub mod labels;
pub mod local;
pub mod packets;
pub mod schema;
pub mod selection;

verus! {

/// What one speaker says without a break, with a label that holds for one
/// stretch of audio only.
#[derive(Debug)]
pub struct LocalSpeakerTurn {
    pub local_speaker_id: String,
    pub start_ms: u64,
    pub end_ms: u64,
    pub text: String,
    pub clean_reference: bool,
}

/// The turns of a stretch of audio.
#[derive(Debug)]
pub struct LocalTranscript {
    pub has_speech: bool,
    pub turns: Vec<LocalSpeakerTurn>,
    pub activity_ranges: Option<Vec<NonSilentRange>>,
}

} // verus!
