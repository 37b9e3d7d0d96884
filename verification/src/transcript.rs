//! The two kinds of transcript that a run can produce.
use vstd::prelude::*;

verus! {

/// How the text of a transcript is treated after recognition.
#[derive(Clone, Copy, Debug, PartialEq, Eq, Structural)]
pub enum TranscriptMode {
    Quality,
    Raw,
}

impl Default for TranscriptMode {
    fn default() -> (mode: Self)
        ensures
            mode == TranscriptMode::Quality,
    {
        TranscriptMode::Quality
    }
}

impl TranscriptMode {
    pub open spec fn as_str_spec(self) -> Seq<char> {
        match self {
            TranscriptMode::Quality => "quality"@,
            TranscriptMode::Raw => "raw"@,
        }
    }

    pub fn as_str(self) -> (name: &'static str)
        ensures
            name@ == self.as_str_spec(),
    {
        match self {
            TranscriptMode::Quality => "quality",
            TranscriptMode::Raw => "raw",
        }
    }

    pub open spec fn policy_text(self) -> Seq<char> {
        match self {
            TranscriptMode::Quality => "protected_host_readability_cleanup_on_primary_asr"@,
            TranscriptMode::Raw => "unpolished_primary_asr_not_verbatim_guaranteed"@,
        }
    }

    /// What may have been done to the recognised text.
    pub fn editing_policy(self) -> (policy: &'static str)
        ensures
            policy@ == self.policy_text(),
    {
        match self {
            TranscriptMode::Quality => "protected_host_readability_cleanup_on_primary_asr",
            TranscriptMode::Raw => "unpolished_primary_asr_not_verbatim_guaranteed",
        }
    }

    pub open spec fn extension_text(self) -> Seq<char> {
        match self {
            TranscriptMode::Quality => "md"@,
            TranscriptMode::Raw => "raw.md"@,
        }
    }

    pub fn output_extension(self) -> (extension: &'static str)
        ensures
            extension@ == self.extension_text(),
    {
        match self {
            TranscriptMode::Quality => "md",
            TranscriptMode::Raw => "raw.md",
        }
    }

    pub open spec fn title_text(self) -> Seq<char> {
        match self {
            TranscriptMode::Quality => "事实保护可读性清稿"@,
            TranscriptMode::Raw => "单路 ASR 原始输出稿"@,
        }
    }

    pub fn title(self) -> (title: &'static str)
        ensures
            title@ == self.title_text(),
    {
        match self {
            TranscriptMode::Quality => "事实保护可读性清稿",
            TranscriptMode::Raw => "单路 ASR 原始输出稿",
        }
    }
}

} // verus!
