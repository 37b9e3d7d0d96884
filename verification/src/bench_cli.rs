//! The arguments of the program that evaluates transcripts.
use vstd::prelude::*;
use crate::text::{optional_text, same_text, texts};

verus! {

/// What the program is asked to do.
#[derive(Debug)]
pub enum BenchCall {
    Help,
    Evaluate(BenchPaths),
}

/// The files of an evaluation. Without a path for the report it is shown.
#[derive(Debug)]
pub struct BenchPaths {
    pub case_directory: String,
    pub transcript: Option<String>,
    pub run: Option<String>,
    pub report: Option<String>,
}

/// Why arguments are not taken.
#[derive(Debug)]
pub enum BenchFault {
    UnknownCommand(String),
    UnknownArgument(String),
    /// An option stands without a path behind it.
    MissingPath(String),
    MissingCase,
}

pub ghost struct PathsView {
    pub case_directory: Option<Seq<char>>,
    pub transcript: Option<Seq<char>>,
    pub run: Option<Seq<char>>,
    pub report: Option<Seq<char>>,
}

pub ghost enum BenchOutcome {
    Help,
    Evaluate(PathsView),
    UnknownCommand(Seq<char>),
    UnknownArgument(Seq<char>),
    MissingPath(Seq<char>),
    MissingCase,
}

/// What a result says.
pub open spec fn outcome_of(result: Result<BenchCall, BenchFault>) -> BenchOutcome {
    match result {
        Ok(BenchCall::Help) => BenchOutcome::Help,
        Ok(BenchCall::Evaluate(paths)) => BenchOutcome::Evaluate(
            PathsView {
                case_directory: Some(paths.case_directory@),
                transcript: optional_text(paths.transcript),
                run: optional_text(paths.run),
                report: optional_text(paths.report),
            },
        ),
        Err(BenchFault::UnknownCommand(text)) => BenchOutcome::UnknownCommand(text@),
        Err(BenchFault::UnknownArgument(text)) => BenchOutcome::UnknownArgument(text@),
        Err(BenchFault::MissingPath(text)) => BenchOutcome::MissingPath(text@),
        Err(BenchFault::MissingCase) => BenchOutcome::MissingCase,
    }
}

/// A word that asks for help behind the command.
pub open spec fn asks_help(word: Seq<char>) -> bool {
    word == "--help"@ || word == "-h"@
}

/// The paths with one more of them.
pub open spec fn with_path(paths: PathsView, option: Seq<char>, path: Seq<char>) -> PathsView {
    if option == "--case"@ {
        PathsView { case_directory: Some(path), ..paths }
    } else if option == "--transcript"@ {
        PathsView { transcript: Some(path), ..paths }
    } else if option == "--run"@ {
        PathsView { run: Some(path), ..paths }
    } else {
        PathsView { report: Some(path), ..paths }
    }
}

pub open spec fn is_path_option(word: Seq<char>) -> bool {
    word == "--case"@ || word == "--transcript"@ || word == "--run"@ || word == "--report"@
}

/// What the words from `n` on say, where these paths have been read. A later
/// path stands in place of an earlier one.
pub open spec fn read_options(words: Seq<Seq<char>>, paths: PathsView, n: int) -> BenchOutcome
    decreases words.len() - n,
{
    if n < 0 || n >= words.len() {
        if paths.case_directory is None {
            BenchOutcome::MissingCase
        } else {
            BenchOutcome::Evaluate(paths)
        }
    } else if is_path_option(words[n]) {
        if n + 1 >= words.len() {
            BenchOutcome::MissingPath(words[n])
        } else {
            read_options(words, with_path(paths, words[n], words[n + 1]), n + 2)
        }
    } else if asks_help(words[n]) {
        BenchOutcome::Help
    } else {
        BenchOutcome::UnknownArgument(words[n])
    }
}

/// What the words behind the name of the program say.
pub open spec fn bench_outcome(words: Seq<Seq<char>>) -> BenchOutcome {
    if words.len() == 0 || asks_help(words[0]) || words[0] == "help"@ {
        BenchOutcome::Help
    } else if words[0] != "evaluate"@ {
        BenchOutcome::UnknownCommand(words[0])
    } else {
        read_options(
            words,
            PathsView { case_directory: None, transcript: None, run: None, report: None },
            1,
        )
    }
}

fn help_word(word: &str) -> (result: bool)
    ensures
        result == asks_help(word@),
{
    same_text(word, "--help") || same_text(word, "-h")
}

fn path_option(word: &str) -> (result: bool)
    ensures
        result == is_path_option(word@),
{
    same_text(word, "--case") || same_text(word, "--transcript") || same_text(word, "--run")
        || same_text(word, "--report")
}

/// Reads the words behind the name of the program.
pub fn parse_bench_arguments(words: &Vec<String>) -> (result: Result<BenchCall, BenchFault>)
    ensures
        outcome_of(result) == bench_outcome(texts(words@)),
{
    let ghost all = texts(words@);
    if words.len() == 0 {
        return Ok(BenchCall::Help);
    }
    assert(all[0] == words@[0]@);
    if help_word(words[0].as_str()) || same_text(words[0].as_str(), "help") {
        return Ok(BenchCall::Help);
    }
    if !same_text(words[0].as_str(), "evaluate") {
        return Err(BenchFault::UnknownCommand(words[0].clone()));
    }
    let mut case_directory: Option<String> = None;
    let mut transcript: Option<String> = None;
    let mut run: Option<String> = None;
    let mut report: Option<String> = None;
    let ghost mut paths = PathsView {
        case_directory: None,
        transcript: None,
        run: None,
        report: None,
    };
    let ghost wanted = read_options(all, paths, 1);
    let mut n: usize = 1;
    while n < words.len()
        invariant
            1 <= n <= words@.len(),
            all == texts(words@),
            paths.case_directory == optional_text(case_directory),
            paths.transcript == optional_text(transcript),
            paths.run == optional_text(run),
            paths.report == optional_text(report),
            read_options(all, paths, n as int) == wanted,
            wanted == bench_outcome(all),
        decreases words@.len() - n,
    {
        assert(all[n as int] == words@[n as int]@);
        if path_option(words[n].as_str()) {
            if n + 1 >= words.len() {
                return Err(BenchFault::MissingPath(words[n].clone()));
            }
            assert(all[n + 1] == words@[n + 1]@);
            let path = words[n + 1].clone();
            proof {
                paths = with_path(paths, all[n as int], all[n + 1]);
            }
            if same_text(words[n].as_str(), "--case") {
                case_directory = Some(path);
            } else if same_text(words[n].as_str(), "--transcript") {
                transcript = Some(path);
            } else if same_text(words[n].as_str(), "--run") {
                run = Some(path);
            } else {
                report = Some(path);
            }
            n += 2;
        } else if help_word(words[n].as_str()) {
            return Ok(BenchCall::Help);
        } else {
            return Err(BenchFault::UnknownArgument(words[n].clone()));
        }
    }
    match case_directory {
        Some(case_directory) => Ok(
            BenchCall::Evaluate(BenchPaths { case_directory, transcript, run, report }),
        ),
        None => Err(BenchFault::MissingCase),
    }
}

} // verus!
