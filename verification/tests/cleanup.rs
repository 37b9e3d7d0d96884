use spt::cleanup::{
    audit_cleanup, cleanup_quality_text, CleanupRejection, TrackedCharacter,
    CODE_CHINESE_PUNCTUATION_NORMALIZED, CODE_POSSIBLE_DISFLUENCY_PRESERVED,
};

#[test]
fn normalizes_chinese_punctuation_without_touching_lexical_text() {
    let result = cleanup_quality_text("嗯,我我确认 ! 预算是42.5万元;如果没批准就不提交。");
    assert_eq!(
        result.text,
        "嗯，我我确认！预算是42.5万元；如果没批准就不提交。"
    );
    assert!(result.changed());
    assert!(result.codes.contains(&CODE_CHINESE_PUNCTUATION_NORMALIZED));
    assert!(result.codes.contains(&CODE_POSSIBLE_DISFLUENCY_PRESERVED));
}

#[test]
fn preserves_every_spoken_word_including_possible_fillers_and_names() {
    for input in [
        "项目代号是：然后然后",
        "姓名为：你你",
        "额，是财务术语。",
        "嗯，是汉语中的应答词。",
        "我我我文化传媒有限公司",
        "如果没批准就不提交",
    ] {
        assert_eq!(cleanup_quality_text(input).text, input);
    }
}

#[test]
fn protects_urls_emails_code_and_quoted_spans() {
    for input in [
        "https://x.example/a?q=甲,乙",
        "user@example.com",
        "`键:value;中文,原样`",
        "他说“API:v1,不要改”。",
    ] {
        assert_eq!(cleanup_quality_text(input).text, input);
    }
}

#[test]
fn preserves_ascii_and_numeric_separators() {
    let result = cleanup_quality_text("版本API:v1, 数值1,000与12:30, 中文,结束");
    assert_eq!(result.text, "版本API:v1，数值1,000与12:30，中文，结束");
}

#[test]
fn structural_whitespace_is_not_collapsed() {
    for input in ["甲  ,  乙", "甲\t,乙", "甲\n,乙", "甲\u{3000},乙"] {
        assert_eq!(cleanup_quality_text(input).text, input);
    }
}

#[test]
fn cleanup_is_idempotent() {
    let first = cleanup_quality_text("甲 , 乙 !");
    let second = cleanup_quality_text(&first.text);
    assert_eq!(second.text, first.text);
    assert!(!second.changed());
}

#[test]
fn audit_rejects_a_lexical_substitution() {
    let input = "预算是42万元";
    let mut items = input
        .chars()
        .map(|character| TrackedCharacter {
            original: character,
            current: character,
            protected: false,
            remove_space: false,
            replace_punctuation: false,
        })
        .collect::<Vec<_>>();
    items[0].current = '费';
    let output = items.iter().map(|item| item.current).collect::<String>();
    assert_eq!(
        audit_cleanup(input, &items, &output),
        Err(CleanupRejection::UnauthorizedCharacterChange)
    );
}
