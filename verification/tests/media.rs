use spt::config::Config;
use spt::media::chunks::{
    check_available_space, check_projected_space, maximum_alignment_packet_ms,
    plan_chunk_boundaries, prepare_audio_chunks, split_audio_chunk,
};
use spt::media::commands::{
    image_arguments, master_arguments, piece_arguments, probe_arguments, silence_arguments,
};
use spt::media::packet::{
    build_speaker_packet, packet_arguments, valid_turn_key, validate_speaker_packet_limits,
    PacketInput,
};
use spt::media::silence::{
    bounded_stderr, parse_non_silent_ranges, silence_markers, SilenceMark,
};
use spt::media::storage::{
    check_copied, check_copy, check_encoded_length, check_image_space, check_master_length,
    check_master_size, check_master_space, check_produced_image, check_staging, seconds_arg,
    validate_canonical_duration, workspace_bytes, workspace_exceeds,
};
use spt::media::{
    audio_info, audio_stream, check_entry, check_extension, check_image_size,
    forced_image_demuxer, image_info, input_format_whitelist, markdown_output_name,
    png_is_animated, reject_animated_image, webp_is_animated, MediaChunk, MediaKind,
    NonSilentRange, ProbeOutput, ProbeStream, SpeakerReferenceRange, MIN_IDENTITY_CANDIDATE_MS,
    MIN_IDENTITY_REFERENCE_MS, TEMP_DISK_EMERGENCY_RESERVE_BYTES,
};
use spt::transcript::TranscriptMode;

fn marks_of(printed: &[u8]) -> Vec<SilenceMark> {
    silence_markers(printed)
        .iter()
        .map(|marker| {
            let seconds: f64 = marker.seconds.parse().unwrap();
            let at = (seconds * 1000.0).round() as u64;
            if marker.opens {
                SilenceMark::Start(at)
            } else {
                SilenceMark::End(at)
            }
        })
        .collect()
}

fn stream(kind: &str) -> ProbeStream {
    ProbeStream {
        codec_type: Some(kind.into()),
        codec_name: Some("flac".into()),
        duration: None,
        duration_ts: None,
        time_base: None,
        width: None,
        height: None,
        nb_frames: None,
        attached_pic: 0,
    }
}

fn probe(streams: Vec<ProbeStream>) -> ProbeOutput {
    ProbeOutput { streams, format_duration: None, format_name: None }
}

#[test]
fn seconds_are_stable_and_millisecond_precise() {
    assert_eq!(seconds_arg(0), "0.000");
    assert_eq!(seconds_arg(61_234), "61.234");
}

#[test]
fn silence_diagnostics_are_complemented_into_activity_ranges() {
    let diagnostics = b"[silencedetect] silence_start: 2.0\n\
[silencedetect] silence_end: 4.5 | silence_duration: 2.5\n\
[silencedetect] silence_start: 8.0\n";
    assert_eq!(
        parse_non_silent_ranges(&marks_of(diagnostics), 10_000),
        vec![
            NonSilentRange {
                start_ms: 0,
                end_ms: 2_000,
            },
            NonSilentRange {
                start_ms: 4_500,
                end_ms: 8_000,
            },
        ]
    );
}

#[test]
fn arbitrary_extension_is_rejected_before_probe() {
    let error = check_extension(MediaKind::Audio, Some("txt")).unwrap_err();
    assert!(error.contains("不支持的音频格式"));
    assert!(check_extension(MediaKind::Audio, None).is_err());
    assert!(check_extension(MediaKind::Audio, Some("M4A")).is_ok());
    assert!(check_extension(MediaKind::Image, Some("m4a")).is_err());
    assert!(check_extension(MediaKind::Image, Some("jpeg")).is_ok());
}

#[test]
fn canonical_duration_allows_only_narrow_container_rounding() {
    let indexed = Some("m4a");
    assert!(validate_canonical_duration(indexed, 10_000, 10_250).is_ok());
    assert!(validate_canonical_duration(indexed, 10_000, 9_750).is_ok());
    assert!(validate_canonical_duration(indexed, 10_000, 10_251).is_err());
    assert!(validate_canonical_duration(indexed, 10_000, 9_749).is_err());
    assert!(validate_canonical_duration(Some("aac"), 655_087, 600_192).is_ok());
}

#[test]
fn transcript_modes_use_distinct_output_paths() {
    assert_eq!(
        markdown_output_name(Some("meeting.part.m4a"), TranscriptMode::Quality).unwrap(),
        "meeting.part.md"
    );
    assert_eq!(
        markdown_output_name(Some("meeting.part.m4a"), TranscriptMode::Raw).unwrap(),
        "meeting.part.raw.md"
    );
    assert!(markdown_output_name(None, TranscriptMode::Raw).is_err());
}

#[test]
fn short_tail_is_shifted_to_minimum_size_without_tiny_segments() {
    assert_eq!(
        plan_chunk_boundaries(30_001, 30_000, 10_000),
        vec![0, 20_001, 30_001]
    );
    assert_eq!(
        plan_chunk_boundaries(60_001, 30_000, 10_000),
        vec![0, 30_000, 50_001, 60_001]
    );
    assert_eq!(
        plan_chunk_boundaries(620_000, 300_000, 30_000),
        vec![0, 300_000, 590_000, 620_000]
    );
    assert_eq!(
        plan_chunk_boundaries(920_000, 900_000, 30_000),
        vec![0, 890_000, 920_000]
    );
    assert_eq!(
        plan_chunk_boundaries(900_500, 900_000, 30_000),
        vec![0, 870_500, 900_500]
    );
}

#[test]
fn adaptive_split_keeps_disjoint_targets_and_leading_context() {
    let parent = MediaChunk {
        source_path: "canonical.flac".into(),
        audio_start_ms: 870_000,
        start_ms: 900_000,
        end_ms: 1_800_000,
        lineage: "000001".into(),
    };
    let (left, right) = split_audio_chunk(&parent, 30_000).unwrap();
    assert_eq!((left.start_ms, left.end_ms), (900_000, 1_350_000));
    assert_eq!((right.start_ms, right.end_ms), (1_350_000, 1_800_000));
    assert_eq!(left.audio_start_ms, 870_000);
    assert_eq!(right.audio_start_ms, 1_320_000);
    assert_eq!(left.context_ms(), 30_000);
    assert_eq!(right.context_ms(), 30_000);
}

#[test]
fn packet_preflight_covers_all_bounded_turn_candidates_and_references() {
    let config = Config {
        overlap_seconds: 30,
        max_speakers: 16,
        speaker_reference_seconds: 2,
        speaker_reference_silence_seconds: 5,
        ..Config::default()
    };
    assert_eq!(maximum_alignment_packet_ms(&config), 483_000);

    let short_chunk = Config {
        chunk_seconds: 30,
        overlap_seconds: 5,
        min_chunk_seconds: 10,
        max_speakers: 1,
        speaker_reference_seconds: 10,
        speaker_reference_silence_seconds: 5,
        ..Config::default()
    };
    assert_eq!(maximum_alignment_packet_ms(&short_chunk), 205_000);

    let global_maximum = Config {
        chunk_seconds: 900,
        overlap_seconds: 30,
        max_speakers: 32,
        speaker_reference_seconds: 10,
        speaker_reference_silence_seconds: 5,
        ..Config::default()
    };
    assert_eq!(maximum_alignment_packet_ms(&global_maximum), 875_000);
}

#[test]
fn speaker_packet_builder_rejects_candidate_count_and_audio_budget_overflow() {
    let chunk = MediaChunk {
        source_path: "canonical.flac".into(),
        audio_start_ms: 0,
        start_ms: 0,
        end_ms: 200_000,
        lineage: "limits".into(),
    };
    let too_many = (0..49)
        .map(|index| SpeakerReferenceRange {
            speaker_id: format!("T{}", index + 1),
            start_ms: index * 2_000,
            end_ms: (index + 1) * 2_000,
        })
        .collect::<Vec<_>>();
    assert!(validate_speaker_packet_limits(&chunk, &vec![], &too_many, 1_000).is_err());

    let too_long = (0..48)
        .map(|index| SpeakerReferenceRange {
            speaker_id: format!("T{}", index + 1),
            start_ms: index * 3_000,
            end_ms: (index + 1) * 3_000,
        })
        .collect::<Vec<_>>();
    assert!(validate_speaker_packet_limits(&chunk, &vec![], &too_long, 1_000).is_err());

    let valid = vec![SpeakerReferenceRange {
        speaker_id: "T1".into(),
        start_ms: 0,
        end_ms: MIN_IDENTITY_CANDIDATE_MS,
    }];
    assert!(validate_speaker_packet_limits(&chunk, &vec![], &valid, 1_000).is_ok());
    assert!(validate_speaker_packet_limits(&chunk, &vec![], &valid, 5_001).is_err());

    let overlong_sample = vec![SpeakerReferenceRange {
        speaker_id: "T1".into(),
        start_ms: 0,
        end_ms: 10_001,
    }];
    assert!(validate_speaker_packet_limits(&chunk, &vec![], &overlong_sample, 1_000).is_err());

    let too_short_candidate = vec![SpeakerReferenceRange {
        speaker_id: "T1".into(),
        start_ms: 0,
        end_ms: MIN_IDENTITY_CANDIDATE_MS - 1,
    }];
    assert!(validate_speaker_packet_limits(&chunk, &vec![], &too_short_candidate, 1_000).is_err());

    let too_short_reference = vec![SpeakerReferenceRange {
        speaker_id: "S1".into(),
        start_ms: 0,
        end_ms: MIN_IDENTITY_REFERENCE_MS - 1,
    }];
    assert!(
        validate_speaker_packet_limits(&chunk, &too_short_reference, &valid, 1_000).is_err()
    );
    let valid_reference = vec![SpeakerReferenceRange {
        speaker_id: "S1".into(),
        start_ms: 0,
        end_ms: MIN_IDENTITY_REFERENCE_MS,
    }];
    assert!(validate_speaker_packet_limits(&chunk, &valid_reference, &valid, 1_000).is_ok());

    let long_context = MediaChunk {
        source_path: "canonical.flac".into(),
        audio_start_ms: 0,
        start_ms: 30_001,
        end_ms: 200_000,
        lineage: "long-context".into(),
    };
    assert!(validate_speaker_packet_limits(&long_context, &vec![], &valid, 1_000).is_err());
}

#[test]
fn a_packet_says_where_its_samples_stand() {
    let chunk = MediaChunk {
        source_path: "canonical.flac".into(),
        audio_start_ms: 5_000,
        start_ms: 10_000,
        end_ms: 20_000,
        lineage: "packet-test".into(),
    };
    let references = vec![SpeakerReferenceRange {
        speaker_id: "S1".into(),
        start_ms: 0,
        end_ms: 3_000,
    }];
    let candidates = vec![SpeakerReferenceRange {
        speaker_id: "T1".into(),
        start_ms: 12_000,
        end_ms: 15_000,
    }];
    let packet = build_speaker_packet(&chunk, &references, &candidates, 1_000).unwrap();
    assert_eq!(packet.references[0].start_ms, 0);
    assert_eq!(packet.references[0].end_ms, 3_000);
    assert_eq!(packet.boundary_context.as_ref().unwrap().start_ms, 4_000);
    assert_eq!(packet.boundary_context.as_ref().unwrap().end_ms, 9_000);
    assert_eq!(packet.candidates[0].start_ms, 10_000);
    assert_eq!(packet.candidates[0].end_ms, 13_000);
    assert_eq!(packet.total_duration_ms, 14_000);
    assert_eq!(
        packet.inputs,
        vec![
            PacketInput::Sound { start_ms: 0, duration_ms: 3_000 },
            PacketInput::Silence { duration_ms: 1_000 },
            PacketInput::Sound { start_ms: 5_000, duration_ms: 5_000 },
            PacketInput::Silence { duration_ms: 1_000 },
            PacketInput::Sound { start_ms: 12_000, duration_ms: 3_000 },
            PacketInput::Silence { duration_ms: 1_000 },
        ]
    );
    let arguments = packet_arguments(&packet.inputs, "flac", "canonical.flac", "packet.mp3");
    assert_eq!(arguments.last().unwrap(), "packet.mp3");
    assert!(arguments.iter().any(|argument| argument.contains("concat=n=6")));
    assert_eq!(arguments.iter().filter(|argument| *argument == "canonical.flac").count(), 3);

    let first_chunk = MediaChunk {
        source_path: "canonical.flac".into(),
        audio_start_ms: 0,
        start_ms: 0,
        end_ms: 10_000,
        lineage: "first-identity".into(),
    };
    let candidates = vec![SpeakerReferenceRange {
        speaker_id: "T1".into(),
        start_ms: 0,
        end_ms: 3_000,
    }];
    let first_packet = build_speaker_packet(&first_chunk, &vec![], &candidates, 1_000).unwrap();
    assert!(first_packet.references.is_empty());
    assert!(first_packet.boundary_context.is_none());
    assert_eq!(first_packet.candidates[0].start_ms, 0);
    assert_eq!(first_packet.candidates[0].end_ms, 3_000);
    assert_eq!(first_packet.total_duration_ms, 4_000);
}

#[test]
fn turn_keys_are_numbers_from_one() {
    for key in ["T1", "T48", "T1000"] {
        assert!(valid_turn_key(key), "{key}");
    }
    for key in ["", "T", "T0", "T01", "t1", "T1x", "S1", "T-1", "T１"] {
        assert!(!valid_turn_key(key), "{key}");
    }
}

#[test]
fn silences_that_meet_or_never_end_leave_only_what_is_heard() {
    assert_eq!(
        parse_non_silent_ranges(&vec![], 1_000),
        vec![NonSilentRange { start_ms: 0, end_ms: 1_000 }]
    );
    assert_eq!(parse_non_silent_ranges(&vec![SilenceMark::Start(0)], 1_000), vec![]);
    assert_eq!(
        parse_non_silent_ranges(&vec![SilenceMark::Start(0), SilenceMark::End(400)], 1_000),
        vec![NonSilentRange { start_ms: 400, end_ms: 1_000 }]
    );
    assert_eq!(
        parse_non_silent_ranges(&vec![SilenceMark::Start(900), SilenceMark::End(4_000)], 1_000),
        vec![NonSilentRange { start_ms: 0, end_ms: 900 }]
    );
}

#[test]
fn what_a_tool_printed_is_read_though_it_is_no_text() {
    assert_eq!(marks_of(b"\xff silence_start: 1.5\n"), vec![SilenceMark::Start(1_500)]);
    assert_eq!(bounded_stderr(b"  broken \xff \n"), "broken \u{fffd}");
}

#[test]
fn pieces_cover_a_recording() {
    let config = Config { chunk_seconds: 60, overlap_seconds: 5, ..Config::default() };
    let chunks = prepare_audio_chunks("master.flac", 125_000, &config);
    assert_eq!(chunks[0].start_ms, 0);
    assert_eq!(chunks.last().unwrap().end_ms, 125_000);
    for pair in chunks.windows(2) {
        assert_eq!(pair[0].end_ms, pair[1].start_ms);
        assert_eq!(pair[1].context_ms(), 5_000);
    }
    let short = MediaChunk {
        source_path: "master.flac".into(),
        audio_start_ms: 0,
        start_ms: 0,
        end_ms: 1,
        lineage: "0".into(),
    };
    assert!(split_audio_chunk(&short, 0).is_err());
}

#[test]
fn temporary_files_stay_within_their_room() {
    let config = Config::default();
    assert!(check_projected_space(&config, 0).is_ok());
    let shortage = check_projected_space(&config, u64::MAX).unwrap_err();
    assert_eq!(shortage.needed, u64::MAX);
    assert_eq!(shortage.allowed, config.max_temp_bytes);
    assert!(check_available_space(&config, u64::MAX).is_ok());
    assert_eq!(check_available_space(&config, 0).unwrap_err().allowed, 0);
    assert_eq!(workspace_bytes(&vec![1, 2, 3]), Ok(6));
    assert_eq!(
        workspace_bytes(&vec![u64::MAX, 1]),
        Err("临时工作目录字节计数溢出".to_owned())
    );
    assert!(workspace_exceeds(&vec![u64::MAX, 1], u64::MAX));
    assert!(!workspace_exceeds(&vec![1, 2, 3], 6));
    let reserve = TEMP_DISK_EMERGENCY_RESERVE_BYTES;
    assert_eq!(check_master_space(reserve + 70_000_000, 0, 60_000_000), Ok(60_000_000));
    assert!(check_master_space(reserve, 0, 60_000_000).is_err());
    assert!(check_master_space(u64::MAX, 60_000_000, 60_000_000).is_err());
    assert!(check_image_space(reserve, 0, 60_000_000).is_err());
    assert!(check_master_size(10_000_000, 10_000_000).is_err());
    assert!(check_master_size(1, 10_000_000).is_ok());
    assert!(check_produced_image(10_000_000, 10_000_000).is_err());
    assert!(check_produced_image(1, 10_000_000).is_ok());
    assert!(check_master_length(249).is_err());
    assert!(check_master_length(250).is_ok());
    assert!(check_encoded_length(1_080, 1_000).is_ok());
    assert_eq!(
        check_encoded_length(1_081, 1_000),
        Err("临时音频时长异常：预计 1.000 秒，实际 1.081 秒".to_owned())
    );
}

#[test]
fn local_files_are_copied_within_bounds() {
    assert_eq!(
        check_staging(1_024, Some("a.WAV"), Some("WAV"), MediaKind::Audio),
        Ok("source-input.wav".to_owned())
    );
    assert!(check_staging(0, Some("a.wav"), Some("wav"), MediaKind::Audio).is_err());
    assert!(check_staging(1_024, Some("a.wav"), Some("wav"), MediaKind::Image).is_err());
    let room = TEMP_DISK_EMERGENCY_RESERVE_BYTES + 1_000_000;
    assert_eq!(check_copy("p", true, 1_024, 1_024, room), Ok(1_024));
    assert!(check_copy("p", true, 1_025, 1_024, room).is_err());
    assert!(check_copy("p", false, 1, 1_024, room).is_err());
    assert!(check_copy("p", true, 0, 1_024, room).is_err());
    assert!(check_copied(1_024, 1_024).is_ok());
    assert!(check_copied(1_025, 1_024).is_err());
    assert!(check_copied(0, 1_024).is_err());
    assert!(check_entry("p", true, true, 1).unwrap_err().contains("符号链接"));
    assert!(check_entry("p", false, false, 1).unwrap_err().contains("普通文件"));
    assert!(check_entry("p", false, true, 0).unwrap_err().contains("为空"));
    assert!(check_entry("p", false, true, 1).is_ok());
    assert!(check_image_size(64 * 1024 * 1024).is_ok());
    assert!(check_image_size(64 * 1024 * 1024 + 1).is_err());
}

#[test]
fn only_plain_sound_is_taken() {
    let sound = probe(vec![stream("audio")]);
    assert_eq!(audio_stream(&sound, "p"), Ok(0));
    let info = audio_info(&sound, 0, Some(1_000)).unwrap();
    assert_eq!((info.duration_ms, info.codec.as_str(), info.container.as_str()), (1_000, "flac", "unknown"));
    assert_eq!(audio_info(&sound, 0, None).unwrap_err(), "音频时长字段无效");
    assert!(audio_stream(&probe(vec![]), "p").unwrap_err().contains("音轨"));
    assert!(audio_stream(&probe(vec![stream("audio"), stream("audio")]), "p")
        .unwrap_err()
        .contains("包含 2 条"));
    assert!(audio_stream(&probe(vec![stream("audio"), stream("video")]), "p")
        .unwrap_err()
        .contains("纯音频"));
    let cover = ProbeStream { attached_pic: 1, ..stream("video") };
    assert_eq!(audio_stream(&probe(vec![cover, stream("audio")]), "p"), Ok(1));
}

#[test]
fn only_one_image_of_bounded_size_is_taken() {
    let image = |width, height, frames: Option<&str>| {
        probe(vec![ProbeStream {
            width,
            height,
            nb_frames: frames.map(str::to_owned),
            ..stream("video")
        }])
    };
    let info = image_info(&image(Some(10), Some(20), None), "p").unwrap();
    assert_eq!((info.width, info.height), (10, 20));
    assert!(image_info(&probe(vec![]), "p").unwrap_err().contains("图像"));
    assert_eq!(image_info(&image(None, Some(1), None), "p").unwrap_err(), "无法读取图片宽度");
    assert_eq!(image_info(&image(Some(1), None, None), "p").unwrap_err(), "无法读取图片高度");
    assert!(image_info(&image(Some(0), Some(1), None), "p").unwrap_err().contains("尺寸无效"));
    assert!(image_info(&image(Some(32_769), Some(1), None), "p").is_err());
    assert!(image_info(&image(Some(32_768), Some(32_768), None), "p")
        .unwrap_err()
        .contains("总像素"));
    assert!(image_info(&image(Some(1), Some(1), Some("2")), "p").unwrap_err().contains("单帧"));
}

#[test]
fn moving_images_are_refused() {
    let mut png = b"\x89PNG\r\n\x1a\n".to_vec();
    png.extend_from_slice(&[0, 0, 0, 0]);
    png.extend_from_slice(b"acTL");
    png.extend_from_slice(&[0, 0, 0, 0]);
    assert_eq!(png_is_animated(&png), Ok(true));
    assert!(reject_animated_image(Some("PNG"), &png).unwrap_err().contains("动画"));
    assert!(reject_animated_image(Some("jpg"), &png).is_ok());
    let mut webp = b"RIFF\0\0\0\0WEBP".to_vec();
    webp.extend_from_slice(b"ANIM");
    webp.extend_from_slice(&[0, 0, 0, 0]);
    assert_eq!(webp_is_animated(&webp), Ok(true));
    assert_eq!(png_is_animated(b""), Ok(false));
}

#[test]
fn tools_are_called_with_local_files_only() {
    let formats = input_format_whitelist(Some("m4a")).unwrap();
    assert!(input_format_whitelist(Some("txt")).is_err());
    assert_eq!(forced_image_demuxer(Some("wav")), None);
    for arguments in [
        master_arguments(formats, "in.m4a", 1_000, "out.flac"),
        piece_arguments("flac", "in.m4a", 1_500, 2_000, "out.mp3"),
        silence_arguments("flac", "in.m4a"),
        image_arguments("png_pipe", None, "in.m4a", 1_000, "out.jpg"),
        probe_arguments(formats, None, "in.m4a"),
    ] {
        let at = arguments.iter().position(|argument| argument == "-protocol_whitelist").unwrap();
        assert_eq!(arguments[at + 1], "file");
        assert!(arguments.contains(&"in.m4a".to_owned()));
    }
    let piece = piece_arguments("flac", "in.m4a", 1_500, 2_000, "out.mp3");
    assert!(piece.contains(&"1.500".to_owned()));
    assert!(piece.contains(&"2.000".to_owned()));
}
