use spt::alignment::find_occurrences;
use spt::assignment::maximum_one_to_one_weight;
use spt::bench_cli::{parse_bench_arguments, BenchCall, BenchFault};
use spt::evaluation::{
    align_turns, evaluate, metric_key, parse_key_value_tsv, parse_spt_markdown, parse_terms,
    parse_turns, render_report, required_and_present_categories, sanitize_tsv,
    split_speaker_turn, turn_substitution_cost, unescape_markdown, unquote,
    valid_hypothesis_speaker, CaseField, EvaluationError, Metric, Turn, TsvFault,
};
use spt::output::escape_markdown_text;
use spt::speaker::harness::{render_turns, GlobalSpeakerTurn};

const CASE: &str = "case_id\tdemo\nlanguage\tzh-CN\nunicode_normalization\tNFC\n";
const TURNS: &str = "A\t预算是四十二万元\nB\t不是阿尔法七号\nA\t好的\n";
const TERMS: &str = "number\tbudget\t四十二万元|42万元\nproper_name\tcode\t阿尔法七号\n";
const WRITTEN: &str = "---\ntranscript_mode: \"quality\"\naccounted_model_responses: 4\n---\n\n\
# 会议 转写稿\n\nS1：预算是四十二万元\n\nS2：不是阿尔法七号\n\nS1：好的\n";

fn value(report: &[Metric], name: &str) -> String {
    let metric = report
        .iter()
        .find(|metric| metric.name == name)
        .unwrap_or_else(|| panic!("{name}"));
    format!("{:?}", metric.value)
}

fn text(value: &str) -> String {
    format!("Text({value:?})")
}

fn fault(case: &str, turns: &str, terms: &str) -> EvaluationError {
    evaluate(case, turns, terms, None, Some(WRITTEN)).unwrap_err()
}

fn spoken(speaker_id: &str, text: &str) -> GlobalSpeakerTurn {
    GlobalSpeakerTurn {
        speaker_id: speaker_id.to_owned(),
        start_ms: 0,
        end_ms: 1_000,
        text: text.to_owned(),
        clean_reference: false,
    }
}

#[test]
fn faithful_transcript_is_reported_without_errors() {
    let report = evaluate(CASE, TURNS, TERMS, None, Some(WRITTEN)).unwrap();
    assert_eq!(value(&report, "benchmark_schema"), text("1"));
    assert_eq!(value(&report, "case_id"), text("demo"));
    assert_eq!(value(&report, "run_id"), text("NA"));
    assert_eq!(value(&report, "run_status"), text("success"));
    assert_eq!(value(&report, "failed"), text("false"));
    assert_eq!(value(&report, "transcript_mode"), text("quality"));
    assert_eq!(value(&report, "accounted_model_responses"), text("4"));
    assert_eq!(value(&report, "reference_characters"), text("17"));
    assert_eq!(value(&report, "reference_turns"), text("3"));
    assert_eq!(value(&report, "hypothesis_characters"), text("17"));
    assert_eq!(value(&report, "character_errors"), text("0"));
    assert_eq!(value(&report, "cer"), "Ratio(0, 17)");
    assert_eq!(value(&report, "number_exact_hits"), text("1"));
    assert_eq!(value(&report, "number_exact_recall"), "Ratio(1, 1)");
    assert_eq!(value(&report, "number_missed_ids"), text("[]"));
    assert_eq!(value(&report, "condition_exact_total"), text("0"));
    assert_eq!(value(&report, "condition_exact_recall"), text("NA"));
    assert_eq!(
        value(&report, "term_category_macro_exact_recall"),
        "Mean([(1, 1), (1, 1)])"
    );
    assert_eq!(value(&report, "hypothesis_turns"), text("3"));
    assert_eq!(value(&report, "speaker_aligned_turn_pairs"), text("3"));
    assert_eq!(value(&report, "speaker_turn_alignment_max_cer"), text("0.600000"));
    assert_eq!(
        value(&report, "speaker_permutation_invariant_turn_accuracy"),
        "Ratio(3, 3)"
    );
    assert_eq!(value(&report, "speaker_turn_error_rate"), "Complement(3, 3)");
    let categories = report
        .iter()
        .filter_map(|metric| metric.name.strip_suffix("_exact_hits"))
        .collect::<Vec<_>>();
    assert_eq!(categories, ["condition", "negation", "number", "proper_name"]);
}

#[test]
fn missed_number_and_wrong_speaker_are_reported() {
    let written = "S1：预算是四十万元\n\nS1：不是阿尔法七号\n\nS2：好的\n";
    let run = "run_id\tr1\nstatus\tsuccess\nmode\traw\nmodel_responses\t7\n";
    let report = evaluate(CASE, TURNS, TERMS, Some(run), Some(written)).unwrap();
    assert_eq!(value(&report, "run_id"), text("r1"));
    assert_eq!(value(&report, "transcript_mode"), text("raw"));
    assert_eq!(value(&report, "accounted_model_responses"), text("7"));
    assert_eq!(value(&report, "character_errors"), text("1"));
    assert_eq!(value(&report, "cer"), "Ratio(1, 17)");
    assert_eq!(value(&report, "number_exact_hits"), text("0"));
    assert_eq!(value(&report, "number_missed_ids"), text("budget"));
    assert_eq!(value(&report, "proper_name_exact_hits"), text("1"));
    assert_eq!(value(&report, "speaker_aligned_turn_pairs"), text("3"));
    assert_eq!(value(&report, "speaker_turn_correct"), text("2"));
    assert_eq!(value(&report, "speaker_turn_denominator"), text("3"));
}

#[test]
fn run_without_transcript_keeps_its_fields_and_has_no_measures() {
    let run = "run_id\tmanual-001\nstatus\tfailure\nexit_code\t1\nfailure_kind\tcontent_filter\n";
    let report = evaluate(CASE, TURNS, TERMS, Some(run), None).unwrap();
    assert_eq!(value(&report, "run_status"), text("failure"));
    assert_eq!(value(&report, "failed"), text("true"));
    assert_eq!(value(&report, "failure_kind"), text("content_filter"));
    assert_eq!(value(&report, "exit_code"), text("1"));
    assert_eq!(value(&report, "cer"), text("NA"));
    assert_eq!(value(&report, "number_exact_total"), text("1"));
    assert_eq!(value(&report, "number_exact_hits"), text("NA"));
    assert_eq!(value(&report, "term_category_macro_exact_recall"), text("NA"));
    assert_eq!(value(&report, "hypothesis_turns"), text("NA"));
    assert_eq!(value(&report, "speaker_turn_denominator"), text("3"));
    assert_eq!(value(&report, "speaker_turn_error_rate"), text("NA"));
    let silent = evaluate(CASE, TURNS, TERMS, None, None).unwrap();
    assert_eq!(value(&silent, "run_status"), text("failure"));
}

#[test]
fn case_file_faults_are_told_apart() {
    assert_eq!(
        fault("case_id", TURNS, TERMS),
        EvaluationError::CaseFile(TsvFault::MissingTab(1))
    );
    assert_eq!(
        fault("# comment\n\ncase_id\t \n", TURNS, TERMS),
        EvaluationError::CaseFile(TsvFault::EmptyPart(3))
    );
    assert_eq!(
        fault("a\t1\na\t2\n", TURNS, TERMS),
        EvaluationError::CaseFile(TsvFault::Duplicate(2))
    );
    assert_eq!(
        fault("language\tzh-CN\n", TURNS, TERMS),
        EvaluationError::MissingCaseField(CaseField::CaseId)
    );
    assert_eq!(
        fault("case_id\tdemo\n", TURNS, TERMS),
        EvaluationError::MissingCaseField(CaseField::Language)
    );
    assert_eq!(
        fault("case_id\tdemo\nlanguage\ten-US\n", TURNS, TERMS),
        EvaluationError::UnsupportedLanguage
    );
    assert_eq!(
        fault("case_id\tdemo\nlanguage\tzh-CN\n", TURNS, TERMS),
        EvaluationError::MissingCaseField(CaseField::UnicodeNormalization)
    );
    assert_eq!(
        fault(
            "case_id\tdemo\nlanguage\tzh-CN\nunicode_normalization\tNFD\n",
            TURNS,
            TERMS
        ),
        EvaluationError::WrongNormalization
    );
    let decomposed = format!("{CASE}title\ta\u{030c}\n");
    assert_eq!(fault(&decomposed, TURNS, TERMS), EvaluationError::CaseFieldNotNfc);
}

#[test]
fn turn_and_term_faults_are_told_apart() {
    assert_eq!(
        fault(CASE, "A text", TERMS),
        EvaluationError::TurnsFile(TsvFault::MissingTab(1))
    );
    assert_eq!(
        fault(CASE, "A\t \n", TERMS),
        EvaluationError::TurnsFile(TsvFault::EmptyPart(1))
    );
    assert_eq!(fault(CASE, "# none\n", TERMS), EvaluationError::NoReferenceTurn);
    assert_eq!(
        fault(CASE, TURNS, "number\tx\n"),
        EvaluationError::TermsFile(TsvFault::MissingTab(1))
    );
    assert_eq!(
        fault(CASE, TURNS, "number\tx\t | \n"),
        EvaluationError::TermsFile(TsvFault::EmptyPart(1))
    );
    assert_eq!(
        fault(CASE, TURNS, "number\tx\t一\nnumber\tx\t二\n"),
        EvaluationError::TermsFile(TsvFault::Duplicate(2))
    );
    assert_eq!(
        fault(CASE, "a\u{030c}\t好\n", TERMS),
        EvaluationError::TurnSpeakerNotNfc(0)
    );
    assert_eq!(
        fault(CASE, "A\t好\nB\ta\u{030c}\n", TERMS),
        EvaluationError::TurnTextNotNfc(1)
    );
    assert_eq!(
        fault(CASE, TURNS, "a\u{030c}\tx\t好的\n"),
        EvaluationError::TermCategoryNotNfc(0)
    );
    assert_eq!(
        fault(CASE, TURNS, "number\ta\u{030c}\t好的\n"),
        EvaluationError::TermIdNotNfc(0)
    );
    assert_eq!(
        fault(CASE, TURNS, "number\tx\t好的|a\u{030c}\n"),
        EvaluationError::TermVariantNotNfc(0)
    );
    assert_eq!(fault(CASE, "A\t……？！\n", ""), EvaluationError::EmptyReference);
    assert_eq!(
        fault(CASE, TURNS, "number\tx\t好的\nnumber\ty\t五十\n"),
        EvaluationError::TermNotLocated(1)
    );
}

#[test]
fn run_file_faults_are_told_apart() {
    assert_eq!(
        evaluate(CASE, TURNS, TERMS, Some("status"), Some(WRITTEN)).unwrap_err(),
        EvaluationError::RunFile(TsvFault::MissingTab(1))
    );
    assert_eq!(
        evaluate(CASE, TURNS, TERMS, Some("status\tsuccess\n"), None).unwrap_err(),
        EvaluationError::SuccessWithoutTranscript
    );
}

#[test]
fn tab_separated_files_skip_comments_and_trim_their_parts() {
    let fields = parse_key_value_tsv("# note\n\n a \t b c \nd\te\tf\r\n").unwrap();
    assert_eq!(fields.get("a"), Some("b c"));
    assert_eq!(fields.get("d"), Some("e\tf"));
    assert_eq!(fields.get("note"), None);
    let turns = parse_turns("A\t 好 \n").unwrap();
    assert_eq!(
        turns,
        [Turn {
            speaker: "A".to_owned(),
            text: "好".to_owned()
        }]
    );
    let terms = parse_terms("number\t n \t 四十二 || 42 \n").unwrap();
    assert_eq!(terms.len(), 1);
    assert_eq!(terms[0].id, "n");
    assert_eq!(terms[0].variants, ["四十二", "42"]);
    assert_eq!(
        required_and_present_categories(&terms),
        ["condition", "negation", "number", "proper_name"]
    );
}

#[test]
fn names_and_cells_of_reports_are_plain() {
    assert_eq!(metric_key("Proper  Name!"), "proper_name");
    assert_eq!(metric_key("__A-1__"), "a_1");
    assert_eq!(sanitize_tsv("a\tb\r\nc"), "a b  c");
    assert_eq!(
        render_report(&vec![("cer".to_owned(), "0.1\t2".to_owned())]),
        "metric\tvalue\ncer\t0.1 2\n"
    );
}

#[test]
fn quoted_and_escaped_texts_are_read() {
    assert_eq!(unquote("\"a \\\"b\\\" \\\\\""), "a \"b\" \\");
    assert_eq!(unquote("plain"), "plain");
    assert_eq!(unescape_markdown("\\*a\\* &lt;b&gt; &amp; \\\\"), "*a* <b> & \\");
    assert!(valid_hypothesis_speaker("S12"));
    assert!(valid_hypothesis_speaker("UNKNOWN"));
    assert!(!valid_hypothesis_speaker("S"));
    assert!(!valid_hypothesis_speaker("Sx"));
    assert_eq!(
        split_speaker_turn("S1: 你好：再见"),
        Some(("S1".to_owned(), "你好：再见".to_owned()))
    );
    assert_eq!(split_speaker_turn("备注：你好"), None);
}

#[test]
fn written_turns_are_read_back() {
    let turns = vec![
        spoken("S1", "价格 < 3 & 利润 > 2，\n  见 `a_b`"),
        spoken("UNKNOWN", ""),
        spoken("S2", "#1：*重点*"),
    ];
    let written = render_turns(&turns);
    let (fields, read) = parse_spt_markdown(&written);
    assert!(fields.entries.is_empty());
    let read = read
        .iter()
        .map(|turn| (turn.speaker.as_str(), turn.text.as_str()))
        .collect::<Vec<_>>();
    assert_eq!(
        read,
        [
            ("S1", "价格 < 3 & 利润 > 2， 见 `a_b`"),
            ("UNKNOWN", ""),
            ("S2", "#1：*重点*"),
        ]
    );
    for text in ["a & b", "<i>", "&amp;", "\\[x\\]", "1. ~~no~~ | yes"] {
        assert_eq!(unescape_markdown(&escape_markdown_text(text)), text);
    }
    assert_eq!(unescape_markdown(&escape_markdown_text("&lt;")), "<");
}

#[test]
fn empty_turns_are_written_as_no_speech() {
    assert_eq!(render_turns(&Vec::new()), "\\[无可辨识语音\\]");
}

#[test]
fn unrelated_turns_are_not_paired() {
    let left = [("A", "今天开会"), ("B", "明天休息")];
    let right = [("S1", "完全不同的另一句话"), ("S2", "明天休息")];
    let turns = |list: &[(&str, &str)]| {
        list.iter()
            .map(|(speaker, text)| Turn {
                speaker: (*speaker).to_owned(),
                text: (*text).to_owned(),
            })
            .collect::<Vec<_>>()
    };
    assert_eq!(align_turns(&turns(&left), &turns(&right)), [(1, 1)]);
    assert_eq!(turn_substitution_cost("明天休息", "明天，休息"), 0);
    assert!(
        turn_substitution_cost("今天开会", "今天开会了")
            < turn_substitution_cost("今天开会", "明天休息")
    );
}

#[test]
fn assignment_takes_the_greatest_sum() {
    assert_eq!(maximum_one_to_one_weight(&[vec![5, 4], vec![4, 1]], 2), 8);
    assert_eq!(maximum_one_to_one_weight(&[vec![3, 7, 2]], 3), 7);
    assert_eq!(maximum_one_to_one_weight(&[], 2), 0);
    assert_eq!(maximum_one_to_one_weight(&[vec![]], 0), 0);
}

#[test]
fn occurrences_may_overlap() {
    let haystack = "aaba".chars().collect::<Vec<_>>();
    assert_eq!(find_occurrences(&haystack, &['a']), [0, 1, 3]);
    assert_eq!(find_occurrences(&haystack, &['a', 'a']), [0]);
    assert!(find_occurrences(&haystack, &[]).is_empty());
}

#[test]
fn arguments_of_the_evaluator_are_read() {
    let call = |words: &[&str]| {
        parse_bench_arguments(&words.iter().map(|word| (*word).to_owned()).collect())
    };
    assert!(matches!(call(&[]), Ok(BenchCall::Help)));
    assert!(matches!(call(&["help"]), Ok(BenchCall::Help)));
    assert!(matches!(call(&["evaluate", "-h"]), Ok(BenchCall::Help)));
    assert!(
        matches!(call(&["score"]), Err(BenchFault::UnknownCommand(word)) if word == "score")
    );
    assert!(matches!(
        call(&["evaluate", "--quick"]),
        Err(BenchFault::UnknownArgument(word)) if word == "--quick"
    ));
    assert!(matches!(
        call(&["evaluate", "--case"]),
        Err(BenchFault::MissingPath(word)) if word == "--case"
    ));
    assert!(matches!(call(&["evaluate"]), Err(BenchFault::MissingCase)));
    match call(&["evaluate", "--case", "a", "--run", "r.tsv", "--case", "b"]) {
        Ok(BenchCall::Evaluate(paths)) => {
            assert_eq!(paths.case_directory, "b");
            assert_eq!(paths.run.as_deref(), Some("r.tsv"));
            assert_eq!(paths.transcript, None);
            assert_eq!(paths.report, None);
        }
        other => panic!("{other:?}"),
    }
}
