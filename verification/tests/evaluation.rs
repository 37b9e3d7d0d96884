use spt::alignment::{character_alignment_gaps, levenshtein};
use spt::evaluation::{
    exact_term_hit, parse_spt_markdown, score_speakers, ExpectedTerm, Turn,
};
use spt::normalization::{
    ensure_declared_nfc, ensure_nonempty_normalized_reference, normalize_exact_text,
    normalize_text,
};

fn turn(speaker: &str, text: &str) -> Turn {
    Turn {
        speaker: speaker.to_owned(),
        text: text.to_owned(),
    }
}

fn term(category: &str, id: &str, variants: &[&str]) -> ExpectedTerm {
    ExpectedTerm {
        category: category.to_owned(),
        id: id.to_owned(),
        variants: variants
            .iter()
            .map(|variant| (*variant).to_owned())
            .collect(),
    }
}

fn exact_hit(term: &ExpectedTerm, reference: &str, hypothesis: &str) -> bool {
    let reference = normalize_exact_text(reference).chars().collect::<Vec<_>>();
    let hypothesis = normalize_exact_text(hypothesis).chars().collect::<Vec<_>>();
    let (gap_starts, gap_ends) = character_alignment_gaps(&reference, &hypothesis);
    exact_term_hit(term, &reference, &hypothesis, &gap_starts, &gap_ends).unwrap()
}

#[test]
fn markdown_parser_extracts_front_matter_and_speaker_turns() {
    let markdown = r#"---
transcript_mode: "raw"
accounted_model_responses: 2
---

# meeting 原始逐字稿

## 00:00:00–00:00:22

S1：预算是四十二万元\。

S2：测试环境周五之前就绪\。

S1：项目代号是阿尔法七号\。
"#;
    let (front_matter, turns) = parse_spt_markdown(markdown);
    assert_eq!(front_matter.get("transcript_mode"), Some("raw"));
    assert_eq!(front_matter.get("accounted_model_responses"), Some("2"));
    assert_eq!(turns.len(), 3);
    assert_eq!(turns[0], turn("S1", "预算是四十二万元。"));
    assert_eq!(turns[2].speaker, "S1");
}

#[test]
fn cer_exposes_plausible_but_wrong_numbers_and_names() {
    let reference = normalize_text("预算是四十二万元。项目代号是阿尔法七号。");
    let hypothesis = normalize_text("预算是40万元。项目在号12法7号。");
    let errors = levenshtein(
        &reference.chars().collect::<Vec<_>>(),
        &hypothesis.chars().collect::<Vec<_>>(),
    );
    assert!(errors >= 5);
}

#[test]
fn speaker_score_ignores_global_label_names() {
    let reference = vec![
        turn("A", "甲发言"),
        turn("B", "乙发言"),
        turn("A", "甲再发言"),
    ];
    let hypothesis = vec![
        turn("S2", "甲发言"),
        turn("S1", "乙发言"),
        turn("S2", "甲再发言"),
    ];
    let score = score_speakers(&reference, &hypothesis);
    assert_eq!(score.correct, 3);
    assert_eq!(score.denominator, 3);
}

#[test]
fn speaker_score_catches_cross_assignment_for_same_voice() {
    let reference = vec![
        turn("A", "甲发言"),
        turn("B", "乙发言"),
        turn("A", "甲再发言"),
    ];
    let hypothesis = vec![
        turn("S2", "甲发言"),
        turn("S1", "乙发言"),
        turn("S1", "甲再发言"),
    ];
    let score = score_speakers(&reference, &hypothesis);
    assert_eq!(score.correct, 2);
    assert_eq!(score.denominator, 3);
}

#[test]
fn extra_hypothesis_turn_penalizes_speaker_accuracy() {
    let reference = vec![turn("A", "甲"), turn("B", "乙")];
    let hypothesis = vec![turn("S1", "甲"), turn("S2", "乙"), turn("S1", "多余")];
    let score = score_speakers(&reference, &hypothesis);
    assert_eq!(score.correct, 2);
    assert_eq!(score.denominator, 3);
}

#[test]
fn hallucinated_turn_does_not_steal_exact_speaker_alignment() {
    let reference = vec![turn("A", "甲"), turn("B", "乙")];
    let hypothesis = vec![turn("S9", "多余"), turn("S8", "甲")];
    let score = score_speakers(&reference, &hypothesis);
    assert_eq!(score.correct, 1);
    assert_eq!(score.aligned_pairs, 1);
    assert_eq!(score.denominator, 2);
}

#[test]
fn exact_terms_use_reference_span_not_unbounded_substring() {
    let budget = term("number", "budget", &["四十二万元", "42万元"]);
    assert!(exact_hit(&budget, "预算是四十二万元。", "预算是42万元。"));
    assert!(!exact_hit(&budget, "预算是四十二万元。", "预算是142万元。"));

    let name = term("proper_name", "person", &["李雷"]);
    assert!(!exact_hit(&name, "李雷发言。", "李雷鸣发言。"));
}

#[test]
fn exact_number_preserves_sign_decimal_point_and_percent() {
    let rate = term("number", "rate", &["-3.5%"]);
    assert!(exact_hit(&rate, "变化率是-3.5%。", "变化率是-3.5%。"));
    assert!(!exact_hit(&rate, "变化率是-3.5%。", "变化率是3.5%。"));
}

#[test]
fn hungarian_speaker_mapping_supports_thirty_two_speakers() {
    let reference = (1..=32)
        .map(|index| turn(&format!("R{index}"), &format!("第{index}人发言")))
        .collect::<Vec<_>>();
    let hypothesis = (1..=32)
        .map(|index| turn(&format!("S{}", 33 - index), &format!("第{index}人发言")))
        .collect::<Vec<_>>();
    let score = score_speakers(&reference, &hypothesis);
    assert_eq!(score.correct, 32);
    assert_eq!(score.denominator, 32);
}

#[test]
fn reference_contract_rejects_text_that_is_not_declared_nfc() {
    assert!(ensure_declared_nfc("test", "ǎ").is_ok());
    assert!(ensure_declared_nfc("test", "a\u{030c}").is_err());
    assert!(ensure_declared_nfc("test", "が").is_ok());
    assert!(ensure_declared_nfc("test", "か\u{3099}").is_err());
    assert!(ensure_declared_nfc("test", "가").is_ok());
    assert!(ensure_declared_nfc("test", "\u{1100}\u{1161}").is_err());
}

#[test]
fn nfc_normalization_equates_decomposed_japanese_and_hangul_hypotheses() {
    assert_eq!(normalize_text("か\u{3099}"), normalize_text("が"));
    assert_eq!(
        normalize_exact_text("か\u{3099}"),
        normalize_exact_text("が")
    );
    assert_eq!(normalize_text("\u{1100}\u{1161}"), normalize_text("가"));
    assert_eq!(
        normalize_exact_text("\u{1100}\u{1161}"),
        normalize_exact_text("가")
    );
}

#[test]
fn punctuation_only_reference_has_no_cer_denominator() {
    let normalized = normalize_text("……？！");
    assert!(ensure_nonempty_normalized_reference(&normalized).is_err());
}

#[test]
fn other_names_for_speakers_keep_the_score() {
    let reference =
        vec![turn("A", "甲发言"), turn("B", "乙发言"), turn("A", "甲再发言"), turn("C", "丙")];
    let named = |names: [&str; 3]| {
        vec![
            turn(names[0], "甲发言"),
            turn(names[1], "乙发言"),
            turn(names[1], "甲再发言"),
            turn(names[2], "丙"),
        ]
    };
    let score = score_speakers(&reference, &named(["S1", "S2", "S3"]));
    let renamed = score_speakers(&reference, &named(["S3", "S1", "S2"]));
    assert_eq!((score.correct, score.denominator), (3, 4));
    assert_eq!((renamed.correct, renamed.denominator), (3, 4));
}

#[test]
fn gaps_cost_the_edit_distance() {
    let reference: Vec<char> = "预算四十二万元".chars().collect();
    let hypothesis: Vec<char> = "新预算四十万元整".chars().collect();
    let (starts, ends) = character_alignment_gaps(&reference, &hypothesis);
    let mut cost = 0;
    for k in 0..=reference.len() {
        cost += ends[k] - starts[k];
        if k < reference.len() {
            let step = starts[k + 1] - ends[k];
            assert!(step <= 1);
            if step == 0 || reference[k] != hypothesis[ends[k]] {
                cost += 1;
            }
        }
    }
    assert_eq!(cost, 3);
    assert_eq!(cost, levenshtein(&reference, &hypothesis));
}
