use spt::config::Config;
use spt::double::Double;
use spt::media::{AudioInfo, ImageInfo};
use spt::openrouter::accounting::{Completion, CompletionOrigin};
use spt::output::{
    ensure_output_available, escape_markdown_text, format_timestamp, ocr_output_path,
    output_parent, render_ocr, render_transcript, usage_of, OutputEntry, TranscriptPart,
};

fn completion(text: &str, model: &str, tokens: u64) -> Completion {
    Completion {
        origin: CompletionOrigin::Chat,
        text: text.into(),
        model: model.into(),
        provider: "test/provider".into(),
        model_reported_by_api: true,
        provider_reported_by_api: true,
        prompt_tokens: tokens,
        completion_tokens: 2 * tokens,
        reasoning_tokens: 1,
        cost: Double { bits: 0 },
        usage_reported: true,
        reasoning_tokens_reported: tokens > 1,
    }
}

#[test]
fn formats_long_and_fractional_timestamps() {
    assert_eq!(format_timestamp(0), "00:00:00");
    assert_eq!(format_timestamp(3_661_000), "01:01:01");
    assert_eq!(format_timestamp(61_234), "00:01:01.234");
}

#[test]
fn ocr_output_uses_distinct_suffix() {
    assert_eq!(ocr_output_path(Some("scan.page.png")).unwrap(), "scan.page.ocr.md");
    assert_eq!(ocr_output_path(None), Err("OCR 源文件缺少有效主文件名".to_owned()));
}

#[test]
fn relative_output_uses_current_directory() {
    assert_eq!(output_parent(Some("")), ".");
    assert_eq!(output_parent(None), ".");
    assert_eq!(output_parent(Some("notes")), "notes");
}

#[test]
fn an_existing_file_is_replaced_only_where_that_is_asked() {
    assert!(ensure_output_available("r.md", OutputEntry::Regular, false).is_err());
    assert!(ensure_output_available("r.md", OutputEntry::Regular, true).is_ok());
    assert!(ensure_output_available("r.md", OutputEntry::Missing, false).is_ok());
    assert_eq!(
        ensure_output_available("r.md", OutputEntry::Other, true),
        Err("输出目标不是普通文件，拒绝覆盖：r.md".to_owned())
    );
}

#[test]
fn text_has_no_markdown_of_its_own() {
    assert_eq!(escape_markdown_text("a<b> & *c* #1."), "a&lt;b&gt; &amp; \\*c\\* \\#1\\.");
    assert_eq!(escape_markdown_text("中文，正文"), "中文，正文");
}

#[test]
fn a_transcript_holds_its_parts_and_what_they_cost() {
    let parts = vec![
        TranscriptPart { start_ms: 0, end_ms: 1_000, completion: completion("甲", "b/m", 1) },
        TranscriptPart { start_ms: 1_000, end_ms: 2_500, completion: completion("乙", "a/m", 2) },
    ];
    let usage = usage_of(&parts);
    assert_eq!((usage.prompt_tokens, usage.completion_tokens, usage.reasoning_tokens), (3, 6, 2));
    assert!(usage.usage_reported);
    assert!(!usage.reasoning_tokens_reported);
    let info =
        AudioInfo { duration_ms: 2_500, codec: "aac".into(), container: "mov,\"mp4\"".into() };
    let text =
        render_transcript(Some("会议.m4a"), &Config::default(), &info, &parts, "0.01000000")
            .unwrap();
    assert!(text.starts_with("---\n"));
    assert!(text.contains("duration_seconds: 2.500\n"), "{text}");
    assert!(text.contains("a/m, b/m"), "{text}");
    assert!(text.contains("\"mov,\\\"mp4\\\"\""), "{text}");
    assert!(text.contains("# 会议 转写稿\n"));
    let first = text.find("甲").unwrap();
    let second = text.find("乙").unwrap();
    assert!(first < second);
    assert!(render_transcript(None, &Config::default(), &info, &parts, "0").is_err());
}

#[test]
fn the_file_on_an_image_holds_its_text() {
    let info = ImageInfo { codec: "png".into(), container: "png_pipe".into(), width: 3, height: 4 };
    let text = render_ocr(
        Some("scan.png"),
        &Config::default(),
        &info,
        &completion("  第一行\n", "a/m", 2),
        "0.00",
    )
    .unwrap();
    assert!(text.contains("source_width: 3\n"), "{text}");
    assert!(text.contains("source_height: 4\n"));
    assert!(text.ends_with("# scan OCR\n\n第一行\n"), "{text}");
}

#[test]
fn what_was_not_measured_is_marked() {
    let render = |text: &str, provider: &str| {
        let parts = vec![TranscriptPart {
            start_ms: 0,
            end_ms: 1_000,
            completion: completion(text, "a/m", 1),
        }];
        let info = AudioInfo { duration_ms: 1_000, codec: "aac".into(), container: "mov".into() };
        let config = Config { asr_provider: provider.into(), ..Config::default() };
        render_transcript(Some("a.m4a"), &config, &info, &parts, "0").unwrap()
    };
    let fixed = render("甲", "deepinfra");
    for line in [
        "transcript_accuracy_verification: \"not_measured\"\n",
        "speaker_label_assignment_status: \"no_unknown_labels_present\"\n",
        "speaker_alignment_status: \"not_verified\"\n",
        "speaker_identity_accuracy: \"not_measured\"\n",
        "asr_provider_privacy_mode: \"catalog_unique_zdr_preflight_no_request_level_pin\"\n",
    ] {
        assert!(fixed.contains(line), "{line}{fixed}");
        assert!(fixed.find(line) < fixed.rfind("---\n"));
    }
    let any = render("**UNKNOWN：** 甲", "any");
    assert!(any.contains("transcript_accuracy_verification: \"not_measured\"\n"));
    assert!(!any.contains("asr_provider_privacy_mode"));
    let unknown = render("S1：甲\n\nUNKNOWN：乙", "any");
    assert!(unknown.contains("speaker_label_assignment_status: \"unknown_labels_present\"\n"));
    let known = render("S1：甲 UNKNOWN：乙", "any");
    assert!(known.contains("speaker_label_assignment_status: \"no_unknown_labels_present\"\n"));
}

#[test]
fn marks_and_controls_are_quoted() {
    let parts = vec![TranscriptPart {
        start_ms: 0,
        end_ms: 1_000,
        completion: completion("甲", "a\\b\"c\u{1}\u{7f}\td", 1),
    }];
    let info = AudioInfo { duration_ms: 1_000, codec: "aac".into(), container: "mov".into() };
    let text =
        render_transcript(Some("a.m4a"), &Config::default(), &info, &parts, "0").unwrap();
    assert!(text.contains("\"a\\\\b\\\"c\\u0001\u{7f}\\td\""), "{text}");
}
