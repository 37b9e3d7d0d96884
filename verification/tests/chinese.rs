use spt::chinese::{
    ensure_simplified_converter, judge_converter, judge_run, normalize_to_simplified, ChineseError,
};

#[test]
fn ordinary_traditional_prose_is_fully_normalized() {
    ensure_simplified_converter().unwrap();
    assert_eq!(
        normalize_to_simplified("我們瞭解這個項目，並準備後續資料。").unwrap(),
        "我们了解这个项目，并准备后续资料。"
    );
}

#[test]
fn fact_label_and_explicit_character_designation_preserve_source_glyphs() {
    assert_eq!(
        normalize_to_simplified("項目代號是乾紅，乾坤的乾").unwrap(),
        "项目代号是乾紅，乾坤的乾"
    );
}

#[test]
fn every_supported_fact_label_protects_its_value_only() {
    let source = "名稱為臺積電；姓名是趙乾；公司名是髮藝；品牌是乾紅；機構是臺研院；學校是颱風學校；型號是髮-42；編號是臺-7；帳號是乾User。後續瞭解。";
    let expected = "名称为臺積電；姓名是趙乾；公司名是髮藝；品牌是乾紅；机构是臺研院；学校是颱風學校；型号是髮-42；编号是臺-7；帐号是乾User。后续了解。";
    assert_eq!(normalize_to_simplified(source).unwrap(), expected);
}

#[test]
fn paired_quotes_and_book_titles_protect_inner_text() {
    let source = "我們讀《臺積電與乾紅》，也聽到“髮型品牌”，然後瞭解。";
    let expected = "我们读《臺積電與乾紅》，也听到“髮型品牌”，然后了解。";
    assert_eq!(normalize_to_simplified(source).unwrap(), expected);
}

#[test]
fn inline_code_urls_and_emails_are_unchanged() {
    let source = "我們執行 `echo 臺積電`，訪問 https://example.com/臺積電?x=1，寄到 A.B+tag@example.com，然後瞭解。";
    let expected = "我们执行 `echo 臺積電`，访问 https://example.com/臺積電?x=1，寄到 A.B+tag@example.com，然后了解。";
    assert_eq!(normalize_to_simplified(source).unwrap(), expected);
}

#[test]
fn unlabelled_ambiguous_text_uses_normal_opencc() {
    assert_eq!(
        normalize_to_simplified("臺積電與颱積電正在發展髮型產品。").unwrap(),
        "台积电与台积电正在发展发型产品。"
    );
}

#[test]
fn simplified_and_non_chinese_text_are_stable() {
    assert_eq!(
        normalize_to_simplified("我们团队正在进行这个项目。OpenRouter 3.7").unwrap(),
        "我们团队正在进行这个项目。OpenRouter 3.7"
    );
    assert_eq!(normalize_to_simplified("hello 123").unwrap(), "hello 123");
}

#[test]
fn katakana_middle_dot_does_not_disable_chinese_normalization() {
    assert_eq!(
        normalize_to_simplified("我們・團隊瞭解這個項目。").unwrap(),
        "我们・团队了解这个项目。"
    );
}

#[test]
fn japanese_with_kana_is_not_rewritten_as_chinese() {
    let japanese = "これは繁體字の説明です。";
    assert_eq!(normalize_to_simplified(japanese).unwrap(), japanese);
}

#[test]
fn supplementary_and_extended_kana_preserve_the_whole_text() {
    for kana in ['\u{1aff0}', '\u{1b000}', '\u{1b11f}', '\u{1b150}'] {
        let mixed = format!("我們{kana}團隊瞭解。");
        assert_eq!(normalize_to_simplified(&mixed).unwrap(), mixed);
    }
}

#[test]
fn protected_projection_is_idempotent() {
    let source = "項目代號是乾紅，乾坤的乾；帳號是乾User；我們讀《臺積電》，然後瞭解。";
    let once = normalize_to_simplified(source).unwrap();
    let twice = normalize_to_simplified(&once).unwrap();
    assert_eq!(twice, once);
}

#[test]
fn what_the_converter_reports_decides() {
    assert!(matches!(
        judge_run("甲".to_owned(), Some("坏".to_owned())),
        Err(ChineseError::Failed(words)) if words == "坏"
    ));
    assert!(matches!(judge_run(String::new(), None), Err(ChineseError::EmptySegment)));
    assert_eq!(judge_run("甲".to_owned(), None).unwrap(), "甲");
    assert!(matches!(
        judge_converter(Some("坏".to_owned())),
        Err(ChineseError::Unavailable(words)) if words == "坏"
    ));
    assert!(judge_converter(None).is_ok());
}
