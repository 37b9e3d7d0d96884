use spt::transcript::TranscriptMode;

#[test]
fn modes_have_distinct_contracts_and_outputs() {
    assert_eq!(TranscriptMode::default(), TranscriptMode::Quality);
    assert_eq!(TranscriptMode::Quality.as_str(), "quality");
    assert_eq!(TranscriptMode::Quality.output_extension(), "md");
    assert_eq!(TranscriptMode::Raw.as_str(), "raw");
    assert_eq!(TranscriptMode::Raw.output_extension(), "raw.md");
    assert_ne!(
        TranscriptMode::Quality.editing_policy(),
        TranscriptMode::Raw.editing_policy()
    );
    assert_eq!(
        TranscriptMode::Quality.editing_policy(),
        "protected_host_readability_cleanup_on_primary_asr"
    );
    assert_eq!(
        TranscriptMode::Raw.editing_policy(),
        "unpolished_primary_asr_not_verbatim_guaranteed"
    );
    assert_eq!(TranscriptMode::Quality.title(), "事实保护可读性清稿");
    assert_eq!(TranscriptMode::Raw.title(), "单路 ASR 原始输出稿");
}
