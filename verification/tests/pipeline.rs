use spt::asr::compare_primary_and_quality_verifier;
use spt::config::Config;
use spt::double::Double;
use spt::media::chunks::split_audio_chunk;
use spt::media::MediaChunk;
use spt::openrouter::accounting::{Completion, CompletionOrigin};
use spt::openrouter::chat::CompletionResult;
use spt::output::TranscriptPart;
use spt::pipeline::quality::{
    quality_state, requires_review, second_text_of, QualityState, SecondText,
};
use spt::pipeline::run::TranscriptionRun;
use spt::pipeline::{
    accept_ocr, arrange_parts, process_chunk, quality_routes_differ, require_independent_routes,
    second_text_due, validate_timeline, ChunkStep,
};
use spt::transcript::TranscriptMode;

fn completion(text: &str) -> Completion {
    Completion {
        origin: CompletionOrigin::Chat,
        text: text.into(),
        model: "test/model".into(),
        provider: "test/provider".into(),
        model_reported_by_api: true,
        provider_reported_by_api: true,
        prompt_tokens: 1,
        completion_tokens: 1,
        reasoning_tokens: 0,
        cost: Double { bits: 0 },
        usage_reported: true,
        reasoning_tokens_reported: true,
    }
}

fn part(start_ms: u64, end_ms: u64) -> TranscriptPart {
    TranscriptPart { start_ms, end_ms, completion: completion("测试") }
}

fn piece(start_ms: u64, end_ms: u64) -> MediaChunk {
    MediaChunk {
        source_path: "canonical.flac".into(),
        audio_start_ms: start_ms,
        start_ms,
        end_ms,
        lineage: "000000".into(),
    }
}

#[test]
fn timeline_must_be_contiguous_and_complete() {
    assert!(validate_timeline(&vec![part(0, 1_000), part(1_000, 2_000)], 2_000).is_ok());
    assert!(validate_timeline(&vec![part(0, 1_000), part(1_001, 2_000)], 2_000).is_err());
    assert!(validate_timeline(&vec![part(100, 2_000)], 2_000).is_err());
}

#[test]
fn parts_are_put_in_order() {
    let parts = arrange_parts(vec![part(1_000, 2_000), part(0, 1_000)]);
    assert!(validate_timeline(&parts, 2_000).is_ok());
}

#[test]
fn the_halves_of_a_piece_cover_it() {
    let (left, right) = split_audio_chunk(&piece(0, 90_000), 0).unwrap();
    let parts = vec![part(left.start_ms, left.end_ms), part(right.start_ms, right.end_ms)];
    assert!(validate_timeline(&parts, 90_000).is_ok());
}

#[test]
fn a_piece_is_taken_cut_or_given_up() {
    let config = Config::default();
    let done = process_chunk(
        CompletionResult::Complete(completion("你好")),
        &piece(0, 90_000),
        0,
        &config,
    );
    match done.unwrap() {
        ChunkStep::Done { part, notice } => {
            assert_eq!(part.completion.text, "你好");
            assert!(notice.contains("00:01:30"), "{notice}");
        }
        ChunkStep::Split { .. } => panic!("片段不应再切分"),
    }
    let needs = || CompletionResult::NeedsSplit { reason: "太长".into() };
    match process_chunk(needs(), &piece(0, 120_000), 0, &config).unwrap() {
        ChunkStep::Split { notice } => assert!(notice.ends_with("触发自适应二分：太长")),
        ChunkStep::Done { .. } => panic!("片段应切分"),
    }
    assert!(process_chunk(needs(), &piece(0, 120_000), config.max_adaptive_depth, &config).is_err());
    assert!(process_chunk(needs(), &piece(0, 1_000), 0, &config).is_err());
}

#[test]
fn the_text_of_an_image_is_not_cut() {
    assert_eq!(accept_ocr(CompletionResult::Complete(completion("正文"))).unwrap().text, "正文");
    assert!(accept_ocr(CompletionResult::NeedsSplit { reason: "太长".into() })
        .unwrap_err()
        .contains("请裁成多张图片后重试"));
    let loops = "这是一段长度足够而且不应该被模型连续重复三次的完整中文句子。".repeat(40);
    assert_eq!(
        accept_ocr(CompletionResult::Complete(completion(&loops))).unwrap_err(),
        "OCR 返回内容存在明显循环，已拒绝生成正式文档"
    );
}

#[test]
fn the_first_and_every_fifth_piece_gets_a_second_text() {
    let due: Vec<usize> =
        (0..11).filter(|index| second_text_due(TranscriptMode::Quality, false, *index)).collect();
    assert_eq!(due, vec![0, 5, 10]);
    assert!((0..11).all(|index| second_text_due(TranscriptMode::Quality, true, index)));
    assert!((0..11).all(|index| !second_text_due(TranscriptMode::Raw, true, index)));
}

#[test]
fn two_texts_come_from_different_routes() {
    let config = Config::default();
    assert!(quality_routes_differ(&config));
    let same = Config {
        quality_asr_model: config.asr_model.clone(),
        quality_asr_provider: "any".into(),
        ..Config::default()
    };
    assert!(!quality_routes_differ(&same));
}

#[test]
fn a_run_cuts_pieces_and_ends_with_the_whole_recording() {
    let config = Config { chunk_seconds: 60, min_chunk_seconds: 20, ..Config::default() };
    let mut run = TranscriptionRun::start("master.flac", 130_000, config);
    let mut asked = Vec::new();
    let mut cut = false;
    while let Some(chunk) = run.next() {
        asked.push((chunk.start_ms, chunk.end_ms));
        let long = chunk.duration_ms() > 50_000 && !cut;
        let reply = if long {
            cut = true;
            CompletionResult::NeedsSplit { reason: "太长".into() }
        } else {
            CompletionResult::Complete(completion("测试"))
        };
        run.take(reply).unwrap();
    }
    assert_eq!(asked[0], (0, 60_000));
    assert_eq!(asked[1], (0, 30_000));
    assert_eq!(asked[2], (30_000, 60_000));
    let parts = run.finish().unwrap();
    assert_eq!(parts.len(), asked.len() - 1);
    assert!(validate_timeline(&parts, 130_000).is_ok());
}

#[test]
fn a_run_that_cannot_go_on_says_so_and_is_not_finished() {
    let mut run = TranscriptionRun::start("master.flac", 30_000, Config::default());
    let needs = CompletionResult::NeedsSplit { reason: "太长".into() };
    assert!(run.take(needs).unwrap_err().contains("太长"));
    assert!(run.next().is_some());
    assert!(run.finish().is_none());
}

#[test]
fn routes_that_may_be_the_same_are_refused() {
    let config = Config::default();
    assert_eq!(require_independent_routes(&config), Ok(()));
    let same_model = |primary: &str, quality: &str| Config {
        asr_model: "a/b".into(),
        quality_asr_model: "a/b".into(),
        asr_provider: primary.into(),
        quality_asr_provider: quality.into(),
        ..Config::default()
    };
    assert!(require_independent_routes(&same_model("deepinfra", "deepinfra")).is_err());
    assert!(require_independent_routes(&same_model("any", "deepinfra")).is_err());
    assert!(require_independent_routes(&same_model("deepinfra", "any")).is_err());
    assert!(require_independent_routes(&same_model("deepinfra", "fish-audio")).is_ok());
}

#[test]
fn pieces_of_a_run_are_two_minutes_at_most() {
    let config = Config { chunk_seconds: 900, min_chunk_seconds: 30, ..Config::default() };
    let mut run = TranscriptionRun::start("master.flac", 300_000, config);
    let mut asked = Vec::new();
    let mut cut = false;
    while let (Some(chunk), Some(root)) = (run.next(), run.next_root()) {
        asked.push((chunk.start_ms, chunk.end_ms, root));
        let reply = if root == 1 && !cut {
            cut = true;
            CompletionResult::NeedsSplit { reason: "太长".into() }
        } else {
            CompletionResult::Complete(completion("测试"))
        };
        run.take(reply).unwrap();
    }
    assert!(asked.iter().all(|(start, end, _)| end - start <= 120_000));
    let roots: Vec<usize> = asked.iter().map(|(_, _, root)| *root).collect();
    assert_eq!(roots, vec![0, 1, 1, 1, 2]);
    assert_eq!(run.next_root(), None);
    assert!(validate_timeline(&run.finish().unwrap(), 300_000).is_ok());
}

#[test]
fn parts_with_equal_times_keep_their_order() {
    let named = |text: &str, start_ms: u64| TranscriptPart {
        start_ms,
        end_ms: start_ms + 10,
        completion: completion(text),
    };
    let parts = vec![named("丙", 5), named("甲", 0), named("丁", 5), named("乙", 0), named("戊", 5)];
    let ordered = arrange_parts(parts);
    let texts: Vec<&str> = ordered.iter().map(|part| part.completion.text.as_str()).collect();
    assert_eq!(texts, vec!["甲", "乙", "丙", "丁", "戊"]);
}

#[test]
fn second_texts_give_the_state_of_a_recording() {
    let state = |pieces: &[SecondText]| quality_state(&pieces.to_vec()).map(QualityState::as_str);
    let (none, equal) = (SecondText::NotAsked, SecondText::Equal);
    assert_eq!(state(&[]), None);
    assert_eq!(state(&[none, none]), None);
    assert_eq!(state(&[equal, equal]), Some("exact_consensus_not_ground_truth"));
    assert_eq!(state(&[equal, none]), Some("sampled_exact_consensus_not_ground_truth"));
    assert_eq!(
        state(&[equal, SecondText::Failed, SecondText::Different]),
        Some("disagreement_requires_review")
    );
    assert_eq!(state(&[none, SecondText::Failed, equal]), Some("unavailable_requires_review"));
    assert!(requires_review(SecondText::Failed) && requires_review(SecondText::Different));
    assert!(!requires_review(none) && !requires_review(equal));

    let same = compare_primary_and_quality_verifier("你好，世界", "你好世界", 128).unwrap();
    assert_eq!(second_text_of(&same), SecondText::Equal);
    let other = compare_primary_and_quality_verifier("甲", "乙", 128).unwrap();
    assert_eq!(second_text_of(&other), SecondText::Different);
}
