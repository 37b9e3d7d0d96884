use serde_json::Value;
use spt::config::Config;
use spt::json::Json;
use spt::media::{
    MediaChunk, NonSilentRange, PacketReferenceWindow, SpeakerPacket, SpeakerReferenceRange,
    MAX_IDENTITY_CANDIDATE_AUDIO_MS, MAX_IDENTITY_TURN_CANDIDATES, MIN_IDENTITY_CANDIDATE_MS,
    MIN_IDENTITY_REFERENCE_MS,
};
use spt::media::packet::validate_speaker_packet_limits;
use spt::speaker::candidates::{evenly_spaced_positions, select_candidates, turn_has_no_overlap};
use spt::speaker::harness::SpeakerHarness;
use spt::speaker::labels::{
    local_speaker_number, parse_target, speaker_label, turn_index_from_key, turn_key,
    validate_alignment_label, validate_local_speaker_label, Target,
};
use spt::speaker::local::{parse_local_transcript, RawLocalTranscript};
use spt::speaker::schema::local_transcript_response_format;
use spt::speaker::{LocalSpeakerTurn, LocalTranscript};
use std::collections::BTreeMap;

fn raw_transcript(response: &str) -> RawLocalTranscript {
    let value: Value = serde_json::from_str(response).unwrap();
    let turns = value["turns"]
        .as_array()
        .unwrap()
        .iter()
        .map(|turn| LocalSpeakerTurn {
            local_speaker_id: turn["local_speaker_id"].as_str().unwrap().to_owned(),
            start_ms: turn["start_ms"].as_u64().unwrap(),
            end_ms: turn["end_ms"].as_u64().unwrap(),
            text: turn["text"].as_str().unwrap().to_owned(),
            clean_reference: turn["clean_reference"].as_bool().unwrap(),
        })
        .collect();
    RawLocalTranscript {
        audio_status: value["audio_status"].as_str().unwrap().to_owned(),
        target_complete: value["target_complete"].as_bool().unwrap(),
        processed_through_ms: value["processed_through_ms"].as_u64().unwrap(),
        turns,
    }
}

fn chunk(start_ms: u64, end_ms: u64) -> MediaChunk {
    MediaChunk {
        source_path: "canonical.flac".into(),
        audio_start_ms: start_ms.saturating_sub(5_000),
        start_ms,
        end_ms,
        lineage: "test".into(),
    }
}

fn parse(response: &str, chunk: &MediaChunk) -> LocalTranscript {
    let mut transcript = parse_local_transcript(raw_transcript(response), chunk, 16).unwrap();
    transcript.activity_ranges = Some(
        transcript
            .turns
            .iter()
            .map(|turn| NonSilentRange {
                start_ms: turn.start_ms,
                end_ms: turn.end_ms,
            })
            .collect(),
    );
    transcript
}

fn clean_single_local_transcript(turn_count: usize, turn_duration_ms: u64) -> LocalTranscript {
    LocalTranscript {
        has_speech: true,
        turns: (0..turn_count)
            .map(|turn_index| LocalSpeakerTurn {
                local_speaker_id: "L1".to_owned(),
                start_ms: turn_index as u64 * turn_duration_ms,
                end_ms: (turn_index as u64 + 1) * turn_duration_ms,
                text: format!("turn {turn_index}"),
                clean_reference: true,
            })
            .collect(),
        activity_ranges: Some(vec![NonSilentRange {
            start_ms: 0,
            end_ms: turn_count as u64 * turn_duration_ms,
        }]),
    }
}

fn alignment_response(keys: &[String], target: &str) -> Vec<(String, String)> {
    keys.iter().map(|key| (key.clone(), target.to_owned())).collect()
}

fn pairs(list: &[(&str, &str)]) -> Vec<(String, String)> {
    list.iter().map(|(key, target)| ((*key).to_owned(), (*target).to_owned())).collect()
}

fn at<'a>(document: &'a Json, path: &[&str]) -> &'a Json {
    let mut place = document;
    for name in path {
        place = place.get(name).unwrap();
    }
    place
}

#[test]
fn exact_target_schema_starts_at_zero() {
    let schema = local_transcript_response_format(10_000, 16);
    let turn = at(
        &schema,
        &["json_schema", "schema", "properties", "turns", "items", "properties"],
    );
    assert_eq!(at(turn, &["start_ms", "minimum"]).as_natural(), Some(0));
    assert_eq!(at(turn, &["end_ms", "maximum"]).as_natural(), Some(10_000));
}

#[test]
fn exact_target_parser_preserves_text_until_whole_transcript_restore() {
    let chunk = chunk(0, 10_000);
    let transcript = parse(
        r#"{"audio_status":"speech","target_complete":true,"processed_through_ms":10000,"turns":[{"local_speaker_id":"L1","start_ms":0,"end_ms":5000,"text":"我們團隊希望對於這個項目進行創新。","clean_reference":true}]}"#,
        &chunk,
    );
    assert_eq!(
        transcript.turns[0].text,
        "我們團隊希望對於這個項目進行創新。"
    );
}

#[test]
fn exact_target_parser_preserves_turn_boundary_whitespace() {
    let chunk = chunk(0, 10_000);
    let transcript = parse(
        r#"{"audio_status":"speech","target_complete":true,"processed_through_ms":10000,"turns":[{"local_speaker_id":"L1","start_ms":0,"end_ms":5000,"text":" hello ","clean_reference":true},{"local_speaker_id":"L2","start_ms":5000,"end_ms":10000,"text":"world ","clean_reference":true}]}"#,
        &chunk,
    );
    assert_eq!(transcript.turns[0].text, " hello ");
    assert_eq!(transcript.turns[1].text, "world ");
}

#[test]
fn first_target_stage_b_new_ids_are_host_assigned_in_turn_order() {
    let config = Config::default();
    let mut harness = SpeakerHarness::new(&config);
    let chunk = chunk(0, 10_000);
    let transcript = parse(
        r#"{"audio_status":"speech","target_complete":true,"processed_through_ms":10000,"turns":[{"local_speaker_id":"L2","start_ms":0,"end_ms":3000,"text":"甲","clean_reference":true},{"local_speaker_id":"L1","start_ms":4000,"end_ms":8000,"text":"乙","clean_reference":true}]}"#,
        &chunk,
    );
    let result = harness
        .apply_alignment(
            &pairs(&[("T1", "NEW1"), ("T2", "NEW2")]),
            &transcript,
            &chunk,
        )
        .unwrap();
    assert_eq!(result.speaker_ids, vec!["S1", "S2"]);
    assert!(result.text.starts_with("S1：甲"));
    assert_eq!(harness.known_speaker_ids(), vec!["S1", "S2"]);
}

#[test]
fn later_target_reuses_global_ids_when_local_order_changes() {
    let config = Config::default();
    let mut harness = SpeakerHarness::new(&config);
    let first_chunk = chunk(0, 10_000);
    let first = parse(
        r#"{"audio_status":"speech","target_complete":true,"processed_through_ms":10000,"turns":[{"local_speaker_id":"L1","start_ms":0,"end_ms":3000,"text":"Alice","clean_reference":true},{"local_speaker_id":"L2","start_ms":4000,"end_ms":8000,"text":"Bob","clean_reference":true}]}"#,
        &first_chunk,
    );
    harness
        .apply_alignment(
            &pairs(&[("T1", "NEW1"), ("T2", "NEW2")]),
            &first,
            &first_chunk,
        )
        .unwrap();

    let second_chunk = chunk(10_000, 20_000);
    let second = parse(
        r#"{"audio_status":"speech","target_complete":true,"processed_through_ms":10000,"turns":[{"local_speaker_id":"L1","start_ms":0,"end_ms":3000,"text":"Bob again","clean_reference":true},{"local_speaker_id":"L2","start_ms":4000,"end_ms":8000,"text":"Alice again","clean_reference":true}]}"#,
        &second_chunk,
    );
    let result = harness
        .apply_alignment(
            &pairs(&[("T1", "S2"), ("T2", "S1")]),
            &second,
            &second_chunk,
        )
        .unwrap();
    assert!(result.text.starts_with("S2：Bob again"));
    assert!(result.text.contains("S1：Alice again"));
    assert_eq!(harness.known_speaker_ids(), vec!["S1", "S2"]);
}

#[test]
fn first_identity_alignment_clusters_oversegmented_locals() {
    let config = Config::default();
    let mut harness = SpeakerHarness::new(&config);
    let chunk = chunk(0, 10_000);
    let transcript = parse(
        r#"{"audio_status":"speech","target_complete":true,"processed_through_ms":10000,"turns":[{"local_speaker_id":"L1","start_ms":0,"end_ms":3000,"text":"同一人前半","clean_reference":true},{"local_speaker_id":"L2","start_ms":4000,"end_ms":8000,"text":"同一人后半","clean_reference":true}]}"#,
        &chunk,
    );
    let result = harness
        .apply_alignment(
            &pairs(&[("T1", "NEW1"), ("T2", "NEW1")]),
            &transcript,
            &chunk,
        )
        .unwrap();
    assert_eq!(result.speaker_ids, vec!["S1"]);
    assert!(result.text.starts_with("S1：同一人前半"));
    assert!(result.text.contains("S1：同一人后半"));
    assert_eq!(harness.known_speaker_ids(), vec!["S1"]);
}

#[test]
fn later_alignment_allows_oversegmented_locals_to_reuse_one_global() {
    let config = Config::default();
    let mut harness = SpeakerHarness::new(&config);
    let first_chunk = chunk(0, 10_000);
    let first = parse(
        r#"{"audio_status":"speech","target_complete":true,"processed_through_ms":10000,"turns":[{"local_speaker_id":"L1","start_ms":0,"end_ms":4000,"text":"初始声音","clean_reference":true}]}"#,
        &first_chunk,
    );
    harness
        .apply_alignment(&pairs(&[("T1", "NEW1")]), &first, &first_chunk)
        .unwrap();

    let second_chunk = chunk(10_000, 20_000);
    let second = parse(
        r#"{"audio_status":"speech","target_complete":true,"processed_through_ms":10000,"turns":[{"local_speaker_id":"L1","start_ms":0,"end_ms":3000,"text":"同一声音一","clean_reference":true},{"local_speaker_id":"L2","start_ms":4000,"end_ms":8000,"text":"同一声音二","clean_reference":true}]}"#,
        &second_chunk,
    );
    let result = harness
        .apply_alignment(
            &pairs(&[("T1", "S1"), ("T2", "S1")]),
            &second,
            &second_chunk,
        )
        .unwrap();
    assert_eq!(result.speaker_ids, vec!["S1"]);
    assert_eq!(harness.known_speaker_ids(), vec!["S1"]);
}

#[test]
fn a_b_a_drift_is_resolved_per_turn_instead_of_per_local_label() {
    let config = Config::default();
    let mut harness = SpeakerHarness::new(&config);
    let chunk = chunk(0, 22_000);
    let transcript = parse(
        r#"{"audio_status":"speech","target_complete":true,"processed_through_ms":22000,"turns":[{"local_speaker_id":"L1","start_ms":0,"end_ms":6000,"text":"A 第一次发言","clean_reference":true},{"local_speaker_id":"L2","start_ms":7000,"end_ms":13000,"text":"B 发言","clean_reference":true},{"local_speaker_id":"L2","start_ms":14000,"end_ms":22000,"text":"A 再次发言但 Stage A 漂移成 L2","clean_reference":true}]}"#,
        &chunk,
    );

    let result = harness
        .apply_alignment(
            &pairs(&[("T1", "NEW1"), ("T2", "NEW2"), ("T3", "NEW1")]),
            &transcript,
            &chunk,
        )
        .unwrap();

    assert_eq!(
        result
            .turns
            .iter()
            .map(|turn| turn.speaker_id.as_str())
            .collect::<Vec<_>>(),
        vec!["S1", "S2", "S1"]
    );
    assert_eq!(harness.known_speaker_ids(), vec!["S1", "S2"]);
}

#[test]
fn long_a_long_b_and_two_short_a_clauses_resolve_to_s1_s2_s1_s1() {
    let config = Config::default();
    let mut harness = SpeakerHarness::new(&config);
    let chunk = chunk(0, 10_000);
    let transcript = parse(
        r#"{"audio_status":"speech","target_complete":true,"processed_through_ms":10000,"turns":[{"local_speaker_id":"L1","start_ms":0,"end_ms":3000,"text":"A 长句","clean_reference":true},{"local_speaker_id":"L2","start_ms":3500,"end_ms":6500,"text":"B 长句","clean_reference":true},{"local_speaker_id":"L3","start_ms":7000,"end_ms":8200,"text":"A 短句一","clean_reference":false},{"local_speaker_id":"L4","start_ms":8500,"end_ms":9700,"text":"A 短句二","clean_reference":false}]}"#,
        &chunk,
    );
    let result = harness
        .apply_alignment(
            &pairs(&[("T1", "NEW1"), ("T2", "NEW2"), ("T3", "NEW1"), ("T4", "NEW1")]),
            &transcript,
            &chunk,
        )
        .unwrap();
    assert_eq!(
        result
            .turns
            .iter()
            .map(|turn| turn.speaker_id.as_str())
            .collect::<Vec<_>>(),
        vec!["S1", "S2", "S1", "S1"]
    );
    let references = harness.reference_ranges();
    assert_eq!(references.len(), 2);
    assert!(references.iter().all(|reference| {
        reference.end_ms - reference.start_ms >= MIN_IDENTITY_REFERENCE_MS
    }));
}

#[test]
fn an_all_short_new_group_is_unknown_and_creates_no_reference() {
    let config = Config::default();
    let mut harness = SpeakerHarness::new(&config);
    let chunk = chunk(0, 4_000);
    let transcript = parse(
        r#"{"audio_status":"speech","target_complete":true,"processed_through_ms":4000,"turns":[{"local_speaker_id":"L1","start_ms":0,"end_ms":1200,"text":"短句一","clean_reference":false},{"local_speaker_id":"L2","start_ms":1600,"end_ms":2800,"text":"短句二","clean_reference":false}]}"#,
        &chunk,
    );
    let result = harness
        .apply_alignment(
            &pairs(&[("T1", "NEW1"), ("T2", "NEW1")]),
            &transcript,
            &chunk,
        )
        .unwrap();
    assert!(result.turns.iter().all(|turn| turn.speaker_id == "UNKNOWN"));
    assert!(harness.known_speaker_ids().is_empty());
    assert!(harness.reference_ranges().is_empty());
}

#[test]
fn a_new_group_cannot_allocate_when_the_actual_candidate_sample_is_under_two_seconds() {
    let config = Config {
        speaker_reference_seconds: 1,
        ..Config::default()
    };
    let mut harness = SpeakerHarness::new(&config);
    let chunk = chunk(0, 4_000);
    let transcript = parse(
        r#"{"audio_status":"speech","target_complete":true,"processed_through_ms":4000,"turns":[{"local_speaker_id":"L1","start_ms":0,"end_ms":3000,"text":"长 turn 但配置只允许一秒样本","clean_reference":true}]}"#,
        &chunk,
    );
    let candidates = harness.candidate_ranges(&transcript, &chunk);
    assert_eq!(candidates.len(), 1);
    assert_eq!(
        candidates[0].end_ms - candidates[0].start_ms,
        MIN_IDENTITY_CANDIDATE_MS
    );
    let result = harness
        .apply_alignment(&pairs(&[("T1", "NEW1")]), &transcript, &chunk)
        .unwrap();
    assert_eq!(result.turns[0].speaker_id, "UNKNOWN");
    assert!(harness.known_speaker_ids().is_empty());
    assert!(harness.reference_ranges().is_empty());
}

#[test]
fn a_short_candidate_can_match_an_existing_speaker_without_becoming_a_reference() {
    let config = Config::default();
    let mut harness = SpeakerHarness::new(&config);
    let first_chunk = chunk(0, 4_000);
    let first = parse(
        r#"{"audio_status":"speech","target_complete":true,"processed_through_ms":4000,"turns":[{"local_speaker_id":"L1","start_ms":0,"end_ms":3000,"text":"A 长句","clean_reference":true}]}"#,
        &first_chunk,
    );
    harness
        .apply_alignment(&pairs(&[("T1", "NEW1")]), &first, &first_chunk)
        .unwrap();
    let reference_before = harness
        .reference_ranges()
        .iter()
        .map(|reference| {
            (
                reference.speaker_id.clone(),
                reference.start_ms,
                reference.end_ms,
            )
        })
        .collect::<Vec<_>>();

    let second_chunk = chunk(4_000, 8_000);
    let second = parse(
        r#"{"audio_status":"speech","target_complete":true,"processed_through_ms":4000,"turns":[{"local_speaker_id":"UNKNOWN","start_ms":0,"end_ms":1200,"text":"A 短句","clean_reference":false}]}"#,
        &second_chunk,
    );
    let result = harness
        .apply_alignment(&pairs(&[("T1", "S1")]), &second, &second_chunk)
        .unwrap();
    assert_eq!(result.turns[0].speaker_id, "S1");
    let reference_after = harness
        .reference_ranges()
        .iter()
        .map(|reference| {
            (
                reference.speaker_id.clone(),
                reference.start_ms,
                reference.end_ms,
            )
        })
        .collect::<Vec<_>>();
    assert_eq!(reference_after, reference_before);
}

#[test]
fn all_eligible_turns_under_the_global_limit_are_sent_to_stage_b() {
    let config = Config::default();
    let chunk = chunk(0, 60_000);
    let transcript = clean_single_local_transcript(20, 3_000);
    let mut harness = SpeakerHarness::new(&config);
    let keys = harness.candidate_turn_keys(&transcript);
    assert_eq!(keys.len(), 20);
    assert_eq!(keys.first().map(String::as_str), Some("T1"));
    assert_eq!(keys.last().map(String::as_str), Some("T20"));
    let result = harness
        .apply_alignment(&alignment_response(&keys, "NEW1"), &transcript, &chunk)
        .unwrap();
    assert!(result.turns.iter().all(|turn| turn.speaker_id == "S1"));
}

#[test]
fn eligible_turns_over_the_global_limit_leave_every_unsampled_turn_unknown() {
    let config = Config::default();
    let chunk = chunk(0, 180_000);
    let transcript = clean_single_local_transcript(60, 3_000);
    let mut harness = SpeakerHarness::new(&config);
    let keys = harness.candidate_turn_keys(&transcript);
    assert_eq!(keys.len(), MAX_IDENTITY_TURN_CANDIDATES);
    let result = harness
        .apply_alignment(&alignment_response(&keys, "NEW1"), &transcript, &chunk)
        .unwrap();
    assert_eq!(
        result
            .turns
            .iter()
            .filter(|turn| turn.speaker_id == "S1")
            .count(),
        MAX_IDENTITY_TURN_CANDIDATES
    );
    assert_eq!(
        result
            .turns
            .iter()
            .filter(|turn| turn.speaker_id == "UNKNOWN")
            .count(),
        60 - MAX_IDENTITY_TURN_CANDIDATES
    );
}

#[test]
fn over_limit_sampling_keeps_a_local_groups_only_long_clean_anchor() {
    let config = Config::default();
    let mut cursor_ms = 0_u64;
    let turns = (0..60)
        .map(|turn_index| {
            let duration_ms = if turn_index == 4 { 3_000 } else { 1_000 };
            let turn = LocalSpeakerTurn {
                local_speaker_id: "L1".to_owned(),
                start_ms: cursor_ms,
                end_ms: cursor_ms + duration_ms,
                text: format!("turn {turn_index}"),
                clean_reference: turn_index == 4,
            };
            cursor_ms += duration_ms;
            turn
        })
        .collect::<Vec<_>>();
    let transcript = LocalTranscript {
        has_speech: true,
        turns,
        activity_ranges: Some(vec![NonSilentRange {
            start_ms: 0,
            end_ms: cursor_ms,
        }]),
    };
    let chunk = chunk(0, cursor_ms);
    let mut harness = SpeakerHarness::new(&config);
    let keys = harness.candidate_turn_keys(&transcript);
    assert_eq!(keys.len(), MAX_IDENTITY_TURN_CANDIDATES);
    assert!(keys.iter().any(|key| key == "T5"));

    let result = harness
        .apply_alignment(&alignment_response(&keys, "NEW1"), &transcript, &chunk)
        .unwrap();
    assert_eq!(result.turns[4].speaker_id, "S1");
    assert_eq!(harness.known_speaker_ids(), vec!["S1"]);
    let references = harness.reference_ranges();
    assert_eq!(references.len(), 1);
    assert!(references[0].end_ms - references[0].start_ms >= MIN_IDENTITY_REFERENCE_MS);
}

#[test]
fn over_limit_group_selection_prioritizes_a_late_long_anchor_over_short_unknowns() {
    let config = Config::default();
    let mut turns = (0..48)
        .map(|turn_index| LocalSpeakerTurn {
            local_speaker_id: "UNKNOWN".to_owned(),
            start_ms: turn_index * 1_000,
            end_ms: (turn_index + 1) * 1_000,
            text: format!("short unknown {turn_index}"),
            clean_reference: false,
        })
        .collect::<Vec<_>>();
    turns.push(LocalSpeakerTurn {
        local_speaker_id: "L1".to_owned(),
        start_ms: 48_000,
        end_ms: 51_000,
        text: "late long anchor".to_owned(),
        clean_reference: true,
    });
    let transcript = LocalTranscript {
        has_speech: true,
        turns,
        activity_ranges: Some(vec![NonSilentRange {
            start_ms: 0,
            end_ms: 51_000,
        }]),
    };
    let chunk = chunk(0, 51_000);
    let mut harness = SpeakerHarness::new(&config);
    let keys = harness.candidate_turn_keys(&transcript);
    assert_eq!(keys.len(), MAX_IDENTITY_TURN_CANDIDATES);
    assert!(keys.iter().any(|key| key == "T49"));

    let result = harness
        .apply_alignment(&alignment_response(&keys, "NEW1"), &transcript, &chunk)
        .unwrap();
    assert_eq!(result.turns[48].speaker_id, "S1");
    assert_eq!(harness.known_speaker_ids(), vec!["S1"]);
    assert_eq!(harness.reference_ranges().len(), 1);
}

#[test]
fn turn_candidate_schema_uses_host_keys_and_fair_global_bounds() {
    let config = Config {
        max_speakers: 32,
        ..Config::default()
    };
    let harness = SpeakerHarness::new(&config);
    let turns = (0..128)
        .map(|turn_index| LocalSpeakerTurn {
            local_speaker_id: format!("L{}", turn_index % 32 + 1),
            start_ms: turn_index as u64 * 6_000,
            end_ms: (turn_index as u64 + 1) * 6_000,
            text: format!("turn {turn_index}"),
            clean_reference: true,
        })
        .collect::<Vec<_>>();
    let transcript = LocalTranscript {
        has_speech: true,
        turns,
        activity_ranges: Some(vec![NonSilentRange {
            start_ms: 0,
            end_ms: 768_000,
        }]),
    };
    let candidates = harness.candidate_ranges(&transcript, &chunk(0, 768_000));
    assert_eq!(candidates.len(), MAX_IDENTITY_TURN_CANDIDATES);
    assert!(
        candidates
            .iter()
            .map(|candidate| candidate.end_ms - candidate.start_ms)
            .sum::<u64>()
            <= MAX_IDENTITY_CANDIDATE_AUDIO_MS
    );
    assert!(candidates.iter().all(|candidate| {
        candidate.end_ms - candidate.start_ms
            <= MAX_IDENTITY_CANDIDATE_AUDIO_MS / MAX_IDENTITY_TURN_CANDIDATES as u64
    }));
    let mut candidates_per_local = BTreeMap::<String, usize>::new();
    for candidate in &candidates {
        let turn_index = turn_index_from_key(&candidate.speaker_id, transcript.turns.len())
            .expect("host TURN key must resolve");
        *candidates_per_local
            .entry(transcript.turns[turn_index].local_speaker_id.clone())
            .or_default() += 1;
    }
    assert_eq!(candidates_per_local.len(), 32);
    assert!(candidates_per_local.values().all(|count| *count >= 1));

    let schema = harness.alignment_response_format(&transcript);
    let properties = match at(
        &schema,
        &["json_schema", "schema", "properties", "assignments", "properties"],
    ) {
        Json::Object(fields) => fields,
        other => panic!("{other:?}"),
    };
    assert_eq!(properties.len(), candidates.len());
    assert!(properties.iter().all(|(key, _)| key.starts_with('T')));
    assert!(!properties.iter().any(|(key, _)| key == "L1"));

    let too_many_manual_locals = LocalTranscript {
        has_speech: true,
        turns: (0..49)
            .map(|turn_index| LocalSpeakerTurn {
                local_speaker_id: format!("L{}", turn_index + 1),
                start_ms: turn_index as u64 * 3_000,
                end_ms: (turn_index as u64 + 1) * 3_000,
                text: format!("manual local {turn_index}"),
                clean_reference: true,
            })
            .collect(),
        activity_ranges: Some(vec![NonSilentRange {
            start_ms: 0,
            end_ms: 147_000,
        }]),
    };
    assert_eq!(
        harness
            .candidate_ranges(&too_many_manual_locals, &chunk(0, 147_000))
            .len(),
        MAX_IDENTITY_TURN_CANDIDATES
    );
}

#[test]
fn short_only_new_group_stays_unknown_without_allocating_a_ghost_speaker() {
    let config = Config::default();
    let mut harness = SpeakerHarness::new(&config);
    let chunk = chunk(0, 10_000);
    let transcript = parse(
        r#"{"audio_status":"speech","target_complete":true,"processed_through_ms":10000,"turns":[{"local_speaker_id":"L1","start_ms":0,"end_ms":4000,"text":"清晰长发言","clean_reference":true},{"local_speaker_id":"L2","start_ms":5000,"end_ms":6000,"text":"短插话","clean_reference":false}]}"#,
        &chunk,
    );
    let result = harness
        .apply_alignment(
            &pairs(&[("T1", "NEW1"), ("T2", "NEW2")]),
            &transcript,
            &chunk,
        )
        .unwrap();
    assert_eq!(result.turns[0].speaker_id, "S1");
    assert_eq!(result.turns[1].speaker_id, "UNKNOWN");
    assert_eq!(harness.known_speaker_ids(), vec!["S1"]);
    assert_eq!(harness.reference_ranges().len(), 1);
}

#[test]
fn short_candidate_can_share_a_new_group_qualified_by_a_long_clean_turn() {
    let config = Config::default();
    let mut harness = SpeakerHarness::new(&config);
    let chunk = chunk(0, 10_000);
    let transcript = parse(
        r#"{"audio_status":"speech","target_complete":true,"processed_through_ms":10000,"turns":[{"local_speaker_id":"L1","start_ms":0,"end_ms":4000,"text":"清晰长发言","clean_reference":true},{"local_speaker_id":"L1","start_ms":5000,"end_ms":6000,"text":"可能是另一人的短插话","clean_reference":false}]}"#,
        &chunk,
    );
    let result = harness
        .apply_alignment(
            &pairs(&[("T1", "NEW1"), ("T2", "NEW1")]),
            &transcript,
            &chunk,
        )
        .unwrap();
    assert_eq!(result.turns[0].speaker_id, "S1");
    assert_eq!(result.turns[1].speaker_id, "S1");
    assert_eq!(harness.known_speaker_ids(), vec!["S1"]);
    assert_eq!(harness.reference_ranges().len(), 1);
}

#[test]
fn overlapping_turns_are_never_used_as_clean_identity_candidates_even_with_one_local_label() {
    let config = Config::default();
    let harness = SpeakerHarness::new(&config);
    let chunk = chunk(0, 10_000);
    let transcript = parse(
        r#"{"audio_status":"speech","target_complete":true,"processed_through_ms":10000,"turns":[{"local_speaker_id":"L1","start_ms":0,"end_ms":5000,"text":"第一段","clean_reference":true},{"local_speaker_id":"L1","start_ms":3000,"end_ms":8000,"text":"重叠的另一段","clean_reference":true}]}"#,
        &chunk,
    );
    assert!(harness.candidate_ranges(&transcript, &chunk).is_empty());
    assert!(harness.candidate_turn_keys(&transcript).is_empty());
}

#[test]
fn overlapping_short_turns_are_not_sent_as_comparison_candidates() {
    let config = Config::default();
    let harness = SpeakerHarness::new(&config);
    let chunk = chunk(0, 4_000);
    let transcript = parse(
        r#"{"audio_status":"speech","target_complete":true,"processed_through_ms":4000,"turns":[{"local_speaker_id":"L1","start_ms":0,"end_ms":1400,"text":"短句一","clean_reference":false},{"local_speaker_id":"L2","start_ms":800,"end_ms":2200,"text":"重叠短句二","clean_reference":false}]}"#,
        &chunk,
    );
    assert!(harness.candidate_turn_keys(&transcript).is_empty());
    assert!(harness.candidate_ranges(&transcript, &chunk).is_empty());
}

#[test]
fn invalid_or_non_host_turn_keys_are_rejected() {
    assert_eq!(turn_index_from_key("T1", 3), Some(0));
    assert_eq!(turn_index_from_key("T3", 3), Some(2));
    assert_eq!(turn_index_from_key("T0", 3), None);
    assert_eq!(turn_index_from_key("T01", 3), None);
    assert_eq!(turn_index_from_key("T4", 3), None);
    assert_eq!(turn_index_from_key("L1", 3), None);
}

#[test]
fn duplicate_turn_assignment_keys_are_rejected_without_mutating_harness_state() {
    let config = Config::default();
    let mut harness = SpeakerHarness::new(&config);
    let chunk = chunk(0, 10_000);
    let transcript = parse(
        r#"{"audio_status":"speech","target_complete":true,"processed_through_ms":10000,"turns":[{"local_speaker_id":"L1","start_ms":0,"end_ms":4000,"text":"A","clean_reference":true}]}"#,
        &chunk,
    );
    assert!(
        harness
            .apply_alignment(
                &pairs(&[("T1", "NEW1"), ("T1", "NEW2")]),
                &transcript,
                &chunk,
            )
            .is_err()
    );
    assert!(harness.known_speaker_ids().is_empty());
    assert!(harness.reference_ranges().is_empty());
    let result = harness
        .apply_alignment(&pairs(&[("T1", "NEW1")]), &transcript, &chunk)
        .unwrap();
    assert_eq!(result.turns[0].speaker_id, "S1");
}

#[test]
fn incomplete_alignment_is_rejected_without_state_change() {
    let config = Config::default();
    let mut harness = SpeakerHarness::new(&config);
    let first_chunk = chunk(0, 10_000);
    let first = parse(
        r#"{"audio_status":"speech","target_complete":true,"processed_through_ms":10000,"turns":[{"local_speaker_id":"L1","start_ms":0,"end_ms":3000,"text":"A","clean_reference":true}]}"#,
        &first_chunk,
    );
    harness
        .apply_alignment(&pairs(&[("T1", "NEW1")]), &first, &first_chunk)
        .unwrap();
    let before = harness.known_speaker_ids();
    let second_chunk = chunk(10_000, 20_000);
    let second = parse(
        r#"{"audio_status":"speech","target_complete":true,"processed_through_ms":10000,"turns":[{"local_speaker_id":"L1","start_ms":0,"end_ms":3000,"text":"A","clean_reference":true},{"local_speaker_id":"L2","start_ms":4000,"end_ms":7000,"text":"B","clean_reference":true}]}"#,
        &second_chunk,
    );
    assert!(
        harness
            .apply_alignment(&pairs(&[("T1", "S1")]), &second, &second_chunk,)
            .is_err()
    );
    assert_eq!(harness.known_speaker_ids(), before);
}

#[test]
fn short_new_voice_remains_unknown_without_ghost_id() {
    let config = Config::default();
    let mut harness = SpeakerHarness::new(&config);
    let chunk = chunk(0, 10_000);
    let transcript = parse(
        r#"{"audio_status":"speech","target_complete":true,"processed_through_ms":10000,"turns":[{"local_speaker_id":"UNKNOWN","start_ms":0,"end_ms":1000,"text":"短插话","clean_reference":false}]}"#,
        &chunk,
    );
    let result = harness
        .apply_alignment(&pairs(&[("T1", "NEW1")]), &transcript, &chunk)
        .unwrap();
    assert_eq!(result.speaker_ids, vec!["UNKNOWN"]);
    assert!(harness.known_speaker_ids().is_empty());
    assert!(harness.reference_ranges().is_empty());
}

#[test]
fn reference_is_cut_from_real_activity_not_turn_center_silence() {
    let config = Config::default();
    let mut harness = SpeakerHarness::new(&config);
    let chunk = chunk(0, 10_000);
    let mut transcript = parse(
        r#"{"audio_status":"speech","target_complete":true,"processed_through_ms":10000,"turns":[{"local_speaker_id":"L1","start_ms":0,"end_ms":10000,"text":"前后各有一段声音","clean_reference":true}]}"#,
        &chunk,
    );
    transcript.activity_ranges = Some(vec![
        NonSilentRange {
            start_ms: 0,
            end_ms: 2_000,
        },
        NonSilentRange {
            start_ms: 8_000,
            end_ms: 10_000,
        },
    ]);
    harness
        .apply_alignment(&pairs(&[("T1", "NEW1")]), &transcript, &chunk)
        .unwrap();
    let references = harness.reference_ranges();
    assert_eq!(references.len(), 1);
    assert_eq!((references[0].start_ms, references[0].end_ms), (0, 2_000));
}

#[test]
fn duplicate_overlapping_turn_is_rejected() {
    let chunk = chunk(0, 10_000);
    let duplicate = r#"{"audio_status":"speech","target_complete":true,"processed_through_ms":10000,"turns":[{"local_speaker_id":"L1","start_ms":0,"end_ms":5000,"text":"你好","clean_reference":true},{"local_speaker_id":"L1","start_ms":0,"end_ms":5000,"text":"你好","clean_reference":true}]}"#;
    assert!(parse_local_transcript(raw_transcript(duplicate), &chunk, 16).is_err());
}

#[test]
fn no_speech_is_a_complete_empty_target() {
    let config = Config::default();
    let mut harness = SpeakerHarness::new(&config);
    let chunk = chunk(0, 10_000);
    let transcript = parse(
        r#"{"audio_status":"no_speech","target_complete":true,"processed_through_ms":10000,"turns":[]}"#,
        &chunk,
    );
    let result = harness.apply_unknown_alignment(&transcript, &chunk);
    assert_eq!(result.text, "\\[无可辨识语音\\]");
    assert!(result.turns.is_empty());
}

#[test]
fn labels_are_read_back() {
    for index in [0_usize, 1, 41] {
        assert_eq!(turn_index_from_key(&turn_key(index), 100), Some(index));
    }
    assert_eq!(speaker_label(Some(0)), "S1");
    assert_eq!(speaker_label(None), "UNKNOWN");
    assert_eq!(parse_target("UNKNOWN"), Some(Target::Unknown));
    assert_eq!(parse_target("S3"), Some(Target::Known(3)));
    assert_eq!(parse_target("NEW2"), Some(Target::New(2)));
    assert_eq!(parse_target("L1"), None);
    assert!(validate_alignment_label("S1").is_ok());
    assert!(validate_alignment_label("S0").is_err());
    assert!(validate_local_speaker_label("L16", 16).is_ok());
    assert!(validate_local_speaker_label("L17", 16).is_err());
    assert!(validate_local_speaker_label("UNKNOWN", 16).is_ok());
    assert_eq!(local_speaker_number("L7"), 7);
}

#[test]
fn places_are_spread_over_a_list() {
    assert_eq!(evenly_spaced_positions(5, 0), Vec::<usize>::new());
    assert_eq!(evenly_spaced_positions(3, 3), vec![0, 1, 2]);
    let places = evenly_spaced_positions(10, 3);
    assert_eq!(places.len(), 3);
    assert!(places.windows(2).all(|pair| pair[0] < pair[1]));
}

#[test]
fn candidates_are_bounded_and_in_order() {
    let transcript = clean_single_local_transcript(60, 3_000);
    assert!((0..60).all(|index| turn_has_no_overlap(&transcript.turns, index)));
    let candidates = select_candidates(&transcript, 4_000);
    assert_eq!(candidates.len(), MAX_IDENTITY_TURN_CANDIDATES);
    assert!(candidates.windows(2).all(|pair| pair[0].turn_index < pair[1].turn_index));
    let total: u64 = candidates.iter().map(|one| one.end_ms - one.start_ms).sum();
    assert!(total <= MAX_IDENTITY_CANDIDATE_AUDIO_MS);
}

#[test]
fn a_reply_that_does_not_fit_its_sound_is_refused() {
    let chunk = chunk(0, 10_000);
    for response in [
        r#"{"audio_status":"speech","target_complete":false,"processed_through_ms":10000,"turns":[]}"#,
        r#"{"audio_status":"speech","target_complete":true,"processed_through_ms":9000,"turns":[]}"#,
        r#"{"audio_status":"music","target_complete":true,"processed_through_ms":10000,"turns":[]}"#,
        r#"{"audio_status":"speech","target_complete":true,"processed_through_ms":10000,"turns":[]}"#,
        r#"{"audio_status":"speech","target_complete":true,"processed_through_ms":10000,"turns":[{"local_speaker_id":"L1","start_ms":0,"end_ms":10001,"text":"x","clean_reference":true}]}"#,
        r#"{"audio_status":"speech","target_complete":true,"processed_through_ms":10000,"turns":[{"local_speaker_id":"L1","start_ms":5,"end_ms":5,"text":"x","clean_reference":true}]}"#,
        r#"{"audio_status":"speech","target_complete":true,"processed_through_ms":10000,"turns":[{"local_speaker_id":"X","start_ms":0,"end_ms":5,"text":"x","clean_reference":true}]}"#,
        r#"{"audio_status":"speech","target_complete":true,"processed_through_ms":10000,"turns":[{"local_speaker_id":"L1","start_ms":0,"end_ms":5,"text":" ","clean_reference":true}]}"#,
    ] {
        assert!(parse_local_transcript(raw_transcript(response), &chunk, 16).is_err(), "{response}");
    }
}

#[test]
fn unknown_alignment_keeps_references() {
    let mut harness = SpeakerHarness::new(&Config::default());
    let chunk = chunk(0, 60_000);
    let transcript = clean_single_local_transcript(20, 3_000);
    let keys = harness.candidate_turn_keys(&transcript);
    harness
        .apply_alignment(&alignment_response(&keys, "NEW1"), &transcript, &chunk)
        .unwrap();
    let before: Vec<SpeakerReferenceRange> = harness.reference_ranges();
    let result = harness.apply_unknown_alignment(&transcript, &chunk);
    assert!(result.turns.iter().all(|turn| turn.speaker_id == "UNKNOWN"));
    assert_eq!(harness.reference_ranges(), before);
    assert_eq!(harness.allowed_alignment_ids()[0], "S1");
}

#[test]
fn the_prompt_names_the_samples() {
    let harness = SpeakerHarness::new(&Config::default());
    let transcript = clean_single_local_transcript(2, 3_000);
    let packet = SpeakerPacket {
        path: "packet.mp3".into(),
        references: vec![PacketReferenceWindow {
            speaker_id: "S1".into(),
            start_ms: 0,
            end_ms: 3_000,
        }],
        boundary_context: None,
        candidates: vec![PacketReferenceWindow {
            speaker_id: "T1".into(),
            start_ms: 4_000,
            end_ms: 7_000,
        }],
        total_duration_ms: 8_000,
    };
    let prompt = harness.alignment_prompt(&packet, &transcript);
    assert!(prompt.contains("S1"), "{prompt}");
    assert!(prompt.contains("T1"), "{prompt}");
}

#[test]
fn chosen_samples_make_a_packet() {
    let harness = SpeakerHarness::new(&Config { max_speakers: 32, ..Config::default() });
    let transcript = clean_single_local_transcript(60, 4_000);
    let chunk = chunk(500_000, 740_000);
    let ranges = harness.candidate_ranges(&transcript, &chunk);
    assert_eq!(ranges.len(), MAX_IDENTITY_TURN_CANDIDATES);
    assert_eq!(
        validate_speaker_packet_limits(&chunk, &harness.reference_ranges(), &ranges, 5_000),
        Ok(())
    );
    let activity = transcript.activity_ranges.as_ref().unwrap();
    for range in &ranges {
        let index = turn_index_from_key(&range.speaker_id, transcript.turns.len()).unwrap();
        let turn = &transcript.turns[index];
        let (start, end) = (range.start_ms - chunk.start_ms, range.end_ms - chunk.start_ms);
        assert!((1_000..=10_000).contains(&(end - start)));
        assert!(turn.start_ms <= start && end <= turn.end_ms);
        assert!(activity.iter().any(|sound| sound.start_ms <= start && end <= sound.end_ms));
    }
}

#[test]
fn known_speakers_and_their_references_stay() {
    let config = Config { max_speakers: 12, ..Config::default() };
    let mut harness = SpeakerHarness::new(&config);
    let mut ids: Vec<String> = Vec::new();
    let mut ranges: Vec<(String, u64, u64)> = Vec::new();
    for part in 0..4_u64 {
        let transcript = clean_single_local_transcript(3, 4_000);
        let chunk = chunk(part * 12_000, (part + 1) * 12_000);
        let taken = if part == 2 {
            pairs(&[("T1", "S2"), ("T2", "S2"), ("T3", "UNKNOWN")])
        } else {
            pairs(&[("T1", "NEW1"), ("T2", "NEW2"), ("T3", "NEW3")])
        };
        assert!(harness.apply_alignment(&pairs(&[("T1", "S1")]), &transcript, &chunk).is_err());
        harness.apply_unknown_alignment(&transcript, &chunk);
        harness.apply_alignment(&taken, &transcript, &chunk).unwrap();
        let now = harness.known_speaker_ids();
        let known: Vec<(String, u64, u64)> = harness
            .reference_ranges()
            .into_iter()
            .map(|range| (range.speaker_id, range.start_ms, range.end_ms))
            .collect();
        assert_eq!(now[..ids.len()], ids[..]);
        assert_eq!(known[..ranges.len()], ranges[..]);
        assert!(known.iter().all(|(_, start, end)| (2_000..=10_000).contains(&(end - start))));
        let labels: Vec<String> = known.iter().map(|(label, _, _)| label.clone()).collect();
        assert_eq!(labels, now);
        ids = now;
        ranges = known;
    }
    let expected: Vec<String> = (1..=9).map(|number| format!("S{number}")).collect();
    assert_eq!(ids, expected);
    let transcript = clean_single_local_transcript(2, 4_000);
    let chunk = chunk(60_000, 68_000);
    let more = pairs(&[("T1", "NEW1"), ("T2", "NEW2")]);
    harness.apply_alignment(&more, &transcript, &chunk).unwrap();
    assert_eq!(harness.known_speaker_ids()[8..], ["S9", "S10", "S11"]);
}
