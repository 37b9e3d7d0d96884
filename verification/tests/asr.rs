use serde_json::Value;
use spt::asr::{
    build_primary_fallback_transcript, canonical_content, compare_primary_and_quality_verifier,
    restore_primary_text_to_aligned_transcript, restore_primary_text_to_aligned_turns,
    validate_aligned_turns_against_primary, validate_and_normalize_text, AsrComparisonStatus,
    AsrError, ComparisonError, TextFault, MAX_DIFFERENCE_SUMMARY_CHARS,
};
use spt::media::MediaChunk;
use spt::speaker::local::{parse_local_transcript, RawLocalTranscript};
use spt::speaker::LocalSpeakerTurn;

fn raw_transcript(response: &str) -> RawLocalTranscript {
    let value: Value = serde_json::from_str(response).unwrap();
    let turns = value["turns"]
        .as_array()
        .unwrap()
        .iter()
        .map(|turn| LocalSpeakerTurn {
            local_speaker_id: turn["local_speaker_id"].as_str().unwrap().to_owned(),
            start_ms: turn["start_ms"].as_u64().unwrap(),
            end_ms: turn["end_ms"].as_u64().unwrap(),
            text: turn["text"].as_str().unwrap().to_owned(),
            clean_reference: turn["clean_reference"].as_bool().unwrap(),
        })
        .collect();
    RawLocalTranscript {
        audio_status: value["audio_status"].as_str().unwrap().to_owned(),
        target_complete: value["target_complete"].as_bool().unwrap(),
        processed_through_ms: value["processed_through_ms"].as_u64().unwrap(),
        turns,
    }
}

fn turn(text: &str, start_ms: u64, end_ms: u64) -> LocalSpeakerTurn {
    LocalSpeakerTurn {
        local_speaker_id: "L1".to_owned(),
        start_ms,
        end_ms,
        text: text.to_owned(),
        clean_reference: true,
    }
}

#[test]
fn validates_bounds_and_forbidden_characters_without_trimming_primary() {
    let value = validate_and_normalize_text("  繁體字。\n", 64).unwrap();
    assert_eq!(value.as_str(), "  繁体字。\n");
    assert!(validate_and_normalize_text("   \n", 64).is_err());
    assert!(validate_and_normalize_text("正文", 0).is_err());
    assert!(validate_and_normalize_text("正文", 5).is_err());
    assert!(validate_and_normalize_text("正\0文", 64).is_err());
    assert!(validate_and_normalize_text("正\u{fffd}文", 64).is_err());
    assert!(validate_and_normalize_text("……", 64).is_err());
}

#[test]
fn punctuation_and_unicode_whitespace_can_reach_exact_consensus() {
    let comparison = compare_primary_and_quality_verifier(
        "你好，世界！这是测试。",
        "你 好　世界 这是测试",
        128,
    )
    .unwrap();
    assert_eq!(comparison.status.as_str(), "exact_consensus");
    assert!(comparison.is_exact_consensus());
    assert!(comparison.difference_summary.is_none());
}

#[test]
fn simplified_and_traditional_outputs_are_not_exact_source_consensus() {
    let comparison =
        compare_primary_and_quality_verifier("我們瞭解這個項目。", "我们了解这个项目", 128)
            .unwrap();
    assert_eq!(comparison.status, AsrComparisonStatus::Disagreement);
    assert!(comparison.difference_summary.is_some());
    assert_eq!(comparison.primary.source_as_str(), "我們瞭解這個項目。");
    assert_eq!(
        comparison.quality_verifier.source_as_str(),
        "我们了解这个项目"
    );
    assert_eq!(comparison.primary.as_str(), "我们了解这个项目。");
    assert_eq!(comparison.quality_verifier.as_str(), "我们了解这个项目");
}

#[test]
fn opencc_many_to_one_projection_cannot_create_false_exact_consensus() {
    let comparison = compare_primary_and_quality_verifier("臺積電", "颱積電", 128).unwrap();
    assert_eq!(comparison.primary.as_str(), "台积电");
    assert_eq!(comparison.quality_verifier.as_str(), "台积电");
    assert_ne!(
        comparison.primary.source_as_str(),
        comparison.quality_verifier.source_as_str()
    );
    assert_eq!(comparison.status, AsrComparisonStatus::Disagreement);
    let summary = comparison.difference_summary.unwrap();
    assert!(summary.contains("臺積電"));
    assert!(summary.contains("颱積電"));
}

#[test]
fn number_words_and_arabic_digits_are_not_equivalent() {
    let comparison = compare_primary_and_quality_verifier("四十二", "40", 64).unwrap();
    assert_eq!(comparison.status, AsrComparisonStatus::Disagreement);
    assert!(comparison.difference_summary.is_some());
}

#[test]
fn alpha_seven_and_alpha_twelve_are_not_equivalent() {
    let comparison =
        compare_primary_and_quality_verifier("阿尔法七", "阿尔法十二", 64).unwrap();
    assert_eq!(comparison.status, AsrComparisonStatus::Disagreement);
}

#[test]
fn missing_negation_is_a_disagreement() {
    let comparison =
        compare_primary_and_quality_verifier("我不同意这个方案。", "我同意这个方案。", 64)
            .unwrap();
    assert_eq!(comparison.status, AsrComparisonStatus::Disagreement);
}

#[test]
fn numeric_format_letters_and_minus_are_preserved() {
    for (primary, verifier) in [
        ("3.14", "314"),
        ("1,000", "1000"),
        ("12:30", "1230"),
        ("API", "Api"),
        ("-40", "40"),
        ("−40", "40"),
    ] {
        let comparison = compare_primary_and_quality_verifier(primary, verifier, 64).unwrap();
        assert_eq!(
            comparison.status,
            AsrComparisonStatus::Disagreement,
            "{primary:?} and {verifier:?} must remain distinct"
        );
    }
}

#[test]
fn leading_fractions_and_colon_runs_cannot_create_false_exact_consensus() {
    for (primary, verifier) in [
        (".5%", "5%"),
        ("2001:db8::1", "2001:db81"),
        ("C::foo", "Cfoo"),
        ("::1", "1"),
        ("fe80::", "fe80"),
    ] {
        let comparison = compare_primary_and_quality_verifier(primary, verifier, 128).unwrap();
        assert_eq!(
            comparison.status,
            AsrComparisonStatus::Disagreement,
            "semantic separator must be preserved: {primary:?} vs {verifier:?}"
        );
        assert_ne!(canonical_content(primary), canonical_content(verifier));
    }

    assert_eq!(canonical_content(".5%"), ".5%");
    assert_eq!(canonical_content("2001:db8::1"), "2001:db8::1");
    assert_eq!(canonical_content("C::foo"), "C::foo");
}

#[test]
fn unicode_word_apostrophes_are_semantic_but_chinese_quotes_are_presentation() {
    for (primary, verifier) in [
        ("d’Ávila", "dÁvila"),
        ("d'Ávila", "dÁvila"),
        ("О’Ніл", "ОНіл"),
    ] {
        let comparison = compare_primary_and_quality_verifier(primary, verifier, 128).unwrap();
        assert_eq!(
            comparison.status,
            AsrComparisonStatus::Disagreement,
            "word-internal apostrophe must be preserved: {primary:?} vs {verifier:?}"
        );
    }

    for quoted in ["他说‘你好’然后走了。", "他说'你好'然后走了。"] {
        let comparison =
            compare_primary_and_quality_verifier(quoted, "他说你好然后走了", 128).unwrap();
        assert_eq!(
            comparison.status,
            AsrComparisonStatus::ExactConsensus,
            "ordinary Chinese quotes must remain presentation punctuation: {quoted:?}"
        );
    }
}

#[test]
fn numeric_separator_at_turn_boundary_remains_semantic() {
    let primary = validate_and_normalize_text("1.2", 64).unwrap();
    let mut turns = vec![turn("1", 0, 1_000), turn(".2", 1_000, 2_000)];
    validate_aligned_turns_against_primary(&turns, &primary, 64).unwrap();
    restore_primary_text_to_aligned_turns(&mut turns, &primary, 64).unwrap();
    assert_eq!(turns[0].text, "1");
    assert_eq!(turns[1].text, ".2");
}

#[test]
fn url_email_and_identifier_separators_are_semantic() {
    for (primary, verifier) in [
        ("john.smith@example.com", "johnsmith@examplecom"),
        ("https://api.openai.com/v1?q=x", "https//apiopenaicom/v1q=x"),
        (
            "https://example.com/a;jsessionid=1",
            "https://example.com/ajsessionid=1",
        ),
        ("release:v1.2", "releasev12"),
        ("API：v1", "APIv1"),
        ("O’Neil", "ONeil"),
    ] {
        let comparison = compare_primary_and_quality_verifier(primary, verifier, 256).unwrap();
        assert_eq!(
            comparison.status,
            AsrComparisonStatus::Disagreement,
            "token punctuation must be preserved: {primary:?} vs {verifier:?}"
        );
    }
    let sentence =
        compare_primary_and_quality_verifier("Hello, world.", "Hello world", 128).unwrap();
    assert_eq!(sentence.status, AsrComparisonStatus::ExactConsensus);
}

#[test]
fn unicode_word_boundaries_are_semantic_but_han_spacing_is_presentation() {
    for (primary, verifier) in [
        ("not able", "notable"),
        ("now here", "nowhere"),
        ("Open AI", "OpenAI"),
        ("1 000", "1000"),
        ("не возможно", "невозможно"),
        ("한 국", "한국"),
        ("غير ممكن", "غيرممكن"),
        ("これ は", "これは"),
    ] {
        assert_eq!(
            compare_primary_and_quality_verifier(primary, verifier, 128)
                .unwrap()
                .status,
            AsrComparisonStatus::Disagreement
        );
    }
    assert_eq!(
        canonical_content("Open   AI"),
        canonical_content("Open\nAI")
    );
    assert_eq!(canonical_content("你 好"), canonical_content("你好"));
}

#[test]
fn json_parse_then_restore_preserves_ascii_word_boundary_bytes() {
    let chunk = MediaChunk {
        source_path: "canonical.flac".into(),
        audio_start_ms: 0,
        start_ms: 0,
        end_ms: 2_000,
        lineage: "ascii-boundary".to_owned(),
    };
    let mut transcript = parse_local_transcript(
        raw_transcript(r#"{"audio_status":"speech","target_complete":true,"processed_through_ms":2000,"turns":[{"local_speaker_id":"L1","start_ms":0,"end_ms":1000,"text":"hello ","clean_reference":true},{"local_speaker_id":"L2","start_ms":1000,"end_ms":2000,"text":"world","clean_reference":true}]}"#),
        &chunk,
        16,
    )
    .unwrap();
    assert_eq!(transcript.turns[0].text, "hello ");

    let primary = validate_and_normalize_text("hello world", 128).unwrap();
    restore_primary_text_to_aligned_transcript(&mut transcript, &primary, 128).unwrap();
    assert_eq!(
        transcript
            .turns
            .iter()
            .map(|turn| turn.text.as_str())
            .collect::<String>(),
        primary.as_str()
    );
}

#[test]
fn json_parse_then_restore_preserves_mixed_kana_and_source_han_bytes() {
    let chunk = MediaChunk {
        source_path: "canonical.flac".into(),
        audio_start_ms: 0,
        start_ms: 0,
        end_ms: 3_000,
        lineage: "mixed-kana".to_owned(),
    };
    let mut transcript = parse_local_transcript(
        raw_transcript(r#"{"audio_status":"speech","target_complete":true,"processed_through_ms":3000,"turns":[{"local_speaker_id":"L1","start_ms":0,"end_ms":1000,"text":"我們確認 ","clean_reference":true},{"local_speaker_id":"L2","start_ms":1000,"end_ms":2000,"text":"これはテストです ","clean_reference":true},{"local_speaker_id":"L1","start_ms":2000,"end_ms":3000,"text":"團隊通過","clean_reference":true}]}"#),
        &chunk,
        16,
    )
    .unwrap();
    assert_eq!(transcript.turns[0].text, "我們確認 ");
    assert_eq!(transcript.turns[1].text, "これはテストです ");
    assert_eq!(transcript.turns[2].text, "團隊通過");

    let primary =
        validate_and_normalize_text("我們確認 これはテストです 團隊通過", 256).unwrap();
    restore_primary_text_to_aligned_transcript(&mut transcript, &primary, 256).unwrap();
    assert_eq!(
        transcript
            .turns
            .iter()
            .map(|turn| turn.text.as_str())
            .collect::<String>(),
        primary.as_str()
    );
}

#[test]
fn kana_aware_normalization_is_independent_of_turn_boundaries() {
    let primary = validate_and_normalize_text("我們確認これはテストです。", 256).unwrap();
    let mut turns = vec![
        turn("我們確認", 0, 1_000),
        turn("これはテストです。", 1_000, 3_000),
    ];
    restore_primary_text_to_aligned_turns(&mut turns, &primary, 256).unwrap();
    assert_eq!(turns[0].text, "我們確認");
    assert_eq!(turns[1].text, "これはテストです。");
    assert_eq!(
        turns
            .iter()
            .map(|turn| turn.text.as_str())
            .collect::<String>(),
        primary.as_str()
    );
}

#[test]
fn disagreement_summary_is_bounded() {
    let primary = format!("{}甲", "相同内容".repeat(100));
    let verifier = format!("{}乙", "相同内容".repeat(100));
    let comparison = compare_primary_and_quality_verifier(&primary, &verifier, 4_096).unwrap();
    let summary = comparison.difference_summary.unwrap();
    assert!(summary.chars().count() <= MAX_DIFFERENCE_SUMMARY_CHARS);
    assert!(summary.contains("canonical disagreement"));
}

#[test]
fn fallback_covers_duration_and_preserves_normalized_primary_exactly() {
    let primary = validate_and_normalize_text("  我們確認。\n", 128).unwrap();
    let transcript = build_primary_fallback_transcript(&primary, 42_000).unwrap();
    assert!(transcript.has_speech);
    assert_eq!(transcript.turns.len(), 1);
    let fallback = &transcript.turns[0];
    assert_eq!(fallback.local_speaker_id, "UNKNOWN");
    assert_eq!(fallback.start_ms, 0);
    assert_eq!(fallback.end_ms, 42_000);
    assert_eq!(fallback.text, "  我们确认。\n");
    assert!(!fallback.clean_reference);
    assert!(transcript.activity_ranges.is_none());
    assert!(build_primary_fallback_transcript(&primary, 0).is_err());
}

#[test]
fn aligned_turns_may_change_punctuation_but_not_authoritative_content() {
    let primary = validate_and_normalize_text("我们不接受四十二个方案。", 128).unwrap();
    let equivalent = vec![
        turn("我們不接受，", 0, 1_000),
        turn("四十二個方案！", 1_000, 2_000),
    ];
    validate_aligned_turns_against_primary(&equivalent, &primary, 128).unwrap();

    let missing_negation = vec![turn("我们接受四十二个方案。", 0, 2_000)];
    assert!(validate_aligned_turns_against_primary(&missing_negation, &primary, 128).is_err());

    let changed_number = vec![turn("我们不接受40个方案。", 0, 2_000)];
    assert!(validate_aligned_turns_against_primary(&changed_number, &primary, 128).is_err());
}

#[test]
fn restores_primary_bytes_while_preserving_alignment_fields() {
    let primary = validate_and_normalize_text("  我们不接受，四十二个方案。\n", 128).unwrap();
    let mut turns = vec![
        LocalSpeakerTurn {
            local_speaker_id: "L2".to_owned(),
            start_ms: 100,
            end_ms: 1_000,
            text: "我们不接受".to_owned(),
            clean_reference: true,
        },
        LocalSpeakerTurn {
            local_speaker_id: "L1".to_owned(),
            start_ms: 1_000,
            end_ms: 2_500,
            text: "四十二个方案！".to_owned(),
            clean_reference: false,
        },
    ];

    restore_primary_text_to_aligned_turns(&mut turns, &primary, 128).unwrap();
    assert_eq!(turns[0].text, "  我们不接受，");
    assert_eq!(turns[1].text, "四十二个方案。\n");
    assert_eq!(
        turns
            .iter()
            .map(|turn| turn.text.as_str())
            .collect::<String>(),
        primary.as_str()
    );
    assert_eq!(turns[0].local_speaker_id, "L2");
    assert_eq!(turns[0].start_ms, 100);
    assert_eq!(turns[0].end_ms, 1_000);
    assert!(turns[0].clean_reference);
    assert_eq!(turns[1].local_speaker_id, "L1");
    assert!(!turns[1].clean_reference);
}

#[test]
fn restore_rejects_empty_canonical_turn_and_semantic_changes_atomically() {
    let primary = validate_and_normalize_text("我们不同意四十二项。", 128).unwrap();

    let mut empty = vec![
        turn("我们不同意四十二项。", 0, 1_000),
        turn("，！", 1_000, 2_000),
    ];
    let before_empty = empty
        .iter()
        .map(|turn| turn.text.clone())
        .collect::<Vec<_>>();
    assert!(restore_primary_text_to_aligned_turns(&mut empty, &primary, 128).is_err());
    assert_eq!(
        empty
            .iter()
            .map(|turn| turn.text.clone())
            .collect::<Vec<_>>(),
        before_empty
    );

    for changed in ["我们同意四十二项。", "我们不同意40项。"] {
        let mut turns = vec![turn(changed, 0, 2_000)];
        let before = turns[0].text.clone();
        assert!(restore_primary_text_to_aligned_turns(&mut turns, &primary, 128).is_err());
        assert_eq!(turns[0].text, before);
    }
}

#[test]
fn the_recognition_that_is_not_taken_is_named() {
    assert!(matches!(
        compare_primary_and_quality_verifier(" ", "正文", 128),
        Err(ComparisonError::Primary(AsrError::Source(TextFault::Blank)))
    ));
    assert!(matches!(
        compare_primary_and_quality_verifier("正文", "……", 128),
        Err(ComparisonError::QualityVerifier(AsrError::NoContent))
    ));
    assert!(matches!(
        compare_primary_and_quality_verifier("正文", "正文很长", 6),
        Err(ComparisonError::QualityVerifier(AsrError::Source(TextFault::TooLong)))
    ));
    assert!(matches!(
        compare_primary_and_quality_verifier("正文", "正文", 0),
        Err(ComparisonError::Primary(AsrError::ZeroLimit))
    ));
    assert!(matches!(
        compare_primary_and_quality_verifier("正\0文", "正文", 128),
        Err(ComparisonError::Primary(AsrError::Source(TextFault::Nul)))
    ));
}

#[test]
fn turns_are_restored_where_they_are_accepted() {
    let primary = validate_and_normalize_text("我们不接受四十二个方案。", 128).unwrap();
    let lists = [
        vec![turn("我們不接受，", 0, 1_000), turn("四十二個方案！", 1_000, 2_000)],
        vec![turn("我们接受四十二个方案。", 0, 2_000)],
        vec![turn("我们不接受四十二个方案。", 0, 1_000), turn("，！", 1_000, 2_000)],
        vec![],
    ];
    let mut accepted = Vec::new();
    for mut turns in lists {
        let checked = validate_aligned_turns_against_primary(&turns, &primary, 128);
        let restored = restore_primary_text_to_aligned_turns(&mut turns, &primary, 128);
        assert_eq!(format!("{checked:?}"), format!("{restored:?}"));
        accepted.push(checked.is_ok());
        if checked.is_ok() {
            assert!(validate_aligned_turns_against_primary(&turns, &primary, 128).is_ok());
        }
    }
    assert_eq!(accepted, vec![true, false, false, false]);
}

#[test]
fn a_difference_is_shown_in_quotes() {
    let comparison = compare_primary_and_quality_verifier("甲\"一", "乙", 128).unwrap();
    let summary = comparison.difference_summary.unwrap();
    assert!(summary.contains("\"甲一\""), "{summary}");
    assert!(summary.contains("\"乙\""), "{summary}");
}
