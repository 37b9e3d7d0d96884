//! What the second texts of the pieces of a recording say of the whole.
use vstd::prelude::*;
use crate::asr::{AsrComparisonStatus, AsrTextComparison};

verus! {

/// What came of a second text of a piece.
#[derive(Clone, Copy, Debug, PartialEq, Eq, Structural)]
pub enum SecondText {
    /// None was asked for.
    NotAsked,
    /// It has the content of the first.
    Equal,
    /// It has another content.
    Different,
    /// It could not be had, or could not be compared.
    Failed,
}

/// What a comparison says of the second text.
pub open spec fn compared(status: AsrComparisonStatus) -> SecondText {
    match status {
        AsrComparisonStatus::ExactConsensus => SecondText::Equal,
        AsrComparisonStatus::Disagreement => SecondText::Different,
    }
}

/// What a comparison says of the second text of a piece.
pub fn second_text_of(comparison: &AsrTextComparison) -> (second: SecondText)
    ensures
        second == compared(comparison.status),
{
    if comparison.is_exact_consensus() {
        SecondText::Equal
    } else {
        SecondText::Different
    }
}

/// What the second texts say of a recording. That contents are equal does not
/// make them true.
#[derive(Clone, Copy, Debug, PartialEq, Eq, Structural)]
pub enum QualityState {
    /// Every piece has a second text, and it is equal.
    ExactConsensus,
    /// Every second text is equal, and some pieces have none.
    SampledExactConsensus,
    /// A second text differs.
    Disagreement,
    /// None differs, and one could not be had.
    Unavailable,
}

impl QualityState {
    pub open spec fn text(self) -> Seq<char> {
        match self {
            QualityState::ExactConsensus => "exact_consensus_not_ground_truth"@,
            QualityState::SampledExactConsensus => "sampled_exact_consensus_not_ground_truth"@,
            QualityState::Disagreement => "disagreement_requires_review"@,
            QualityState::Unavailable => "unavailable_requires_review"@,
        }
    }

    pub fn as_str(self) -> (name: &'static str)
        ensures
            name@ == self.text(),
    {
        match self {
            QualityState::ExactConsensus => "exact_consensus_not_ground_truth",
            QualityState::SampledExactConsensus => "sampled_exact_consensus_not_ground_truth",
            QualityState::Disagreement => "disagreement_requires_review",
            QualityState::Unavailable => "unavailable_requires_review",
        }
    }
}

/// What the second texts of all pieces say; nothing where no piece has one.
pub open spec fn state_of(pieces: Seq<SecondText>) -> Option<QualityState> {
    if pieces.contains(SecondText::Different) {
        Some(QualityState::Disagreement)
    } else if pieces.contains(SecondText::Failed) {
        Some(QualityState::Unavailable)
    } else if !pieces.contains(SecondText::Equal) {
        None
    } else if pieces.contains(SecondText::NotAsked) {
        Some(QualityState::SampledExactConsensus)
    } else {
        Some(QualityState::ExactConsensus)
    }
}

fn holds(pieces: &Vec<SecondText>, second: SecondText) -> (result: bool)
    ensures
        result == pieces@.contains(second),
{
    let mut n: usize = 0;
    while n < pieces.len()
        invariant
            n <= pieces@.len(),
            forall|k: int| 0 <= k < n ==> #[trigger] pieces@[k] != second,
        decreases pieces@.len() - n,
    {
        if pieces[n] == second {
            assert(pieces@[n as int] == second);
            return true;
        }
        n += 1;
    }
    false
}

/// What the second texts of all pieces say; nothing where no piece has one.
pub fn quality_state(pieces: &Vec<SecondText>) -> (state: Option<QualityState>)
    ensures
        state == state_of(pieces@),
{
    if holds(pieces, SecondText::Different) {
        Some(QualityState::Disagreement)
    } else if holds(pieces, SecondText::Failed) {
        Some(QualityState::Unavailable)
    } else if !holds(pieces, SecondText::Equal) {
        None
    } else if holds(pieces, SecondText::NotAsked) {
        Some(QualityState::SampledExactConsensus)
    } else {
        Some(QualityState::ExactConsensus)
    }
}

/// A piece whose second text differs or could not be had has to be looked at.
pub open spec fn is_doubtful(second: SecondText) -> bool {
    second == SecondText::Different || second == SecondText::Failed
}

/// Whether a piece has to be looked at.
pub fn requires_review(second: SecondText) -> (result: bool)
    ensures
        result == is_doubtful(second),
{
    match second {
        SecondText::Different | SecondText::Failed => true,
        SecondText::Equal | SecondText::NotAsked => false,
    }
}

/// A recording has to be looked at where one of its pieces has, and only there.
/// Where all second texts are equal, the state tells whether every piece has
/// one.
pub proof fn lemma_state_of(pieces: Seq<SecondText>)
    ensures
        (state_of(pieces) == Some(QualityState::Disagreement) || state_of(pieces) == Some(
            QualityState::Unavailable,
        )) <==> exists|k: int| 0 <= k < pieces.len() && is_doubtful(#[trigger] pieces[k]),
        state_of(pieces) == Some(QualityState::ExactConsensus) <==> pieces.len() > 0 && forall|
            k: int,
        |
            0 <= k < pieces.len() ==> #[trigger] pieces[k] == SecondText::Equal,
        state_of(pieces) is None <==> forall|k: int|
            0 <= k < pieces.len() ==> #[trigger] pieces[k] == SecondText::NotAsked,
{
    assert forall|k: int| 0 <= k < pieces.len() implies pieces.contains(#[trigger] pieces[k]) by {}
    if pieces.len() > 0 {
        assert(pieces.contains(pieces[0]));
    }
}

} // verus!
