//! The queue, findings and the report.

use commentlint::config::{resolve, ConfigFile, Criteria, Resolved, Rule};
use commentlint::extract::{extract_comments, Comment};
use commentlint::jobs::{
    exit_code, run_step, skip_reason, stdin_job, stdin_text, Collector, Job, Need, Outcome, Progress, RunStep, Skip,
};
use commentlint::loader::{config_path, Loader, Lookup};
use commentlint::report::{
    evaluate_one, finding_lines, list_comments, listing_line, oneline, report_finding, sort_findings, summary_line,
    Finding,
};
use commentlint::score::Score;
use commentlint::table::Table;
use commentlint::typesafe::{read_answers, Action, Client, Event};

fn score(x: f64) -> Score {
    Score { bits: x.to_bits() }
}

fn config(rules: &[(&str, Option<f64>)]) -> Resolved {
    let mut cfg = ConfigFile::default();
    cfg.ignore_prefixes = Some(vec!["noqa".to_string()]);
    for (id, threshold) in rules {
        cfg.rules.insert(
            id.to_string(),
            Rule {
                instructions: "Q?".to_string(),
                criteria: Criteria { yes: "y".to_string(), no: "n".to_string() },
                threshold: threshold.map(score),
            },
        );
    }
    resolve(&[cfg])
}

fn comment(line: usize, column: usize, text: &str) -> Comment {
    Comment { line, column, text: text.to_string() }
}

fn job(path: &str, line: usize, text: &str, rules: &[(&str, Option<f64>)]) -> Job {
    Job { path: path.as_bytes().to_vec(), comment: comment(line, 1, text), config: config(rules) }
}

fn finding(path: &str, line: usize, column: usize, rule: &str) -> Finding {
    Finding {
        path: path.as_bytes().to_vec(),
        line,
        column,
        rule: rule.to_string(),
        probability: score(0.09),
        threshold: score(0.5),
        excerpt: "The buffer is drained by the caller before the next read.".to_string(),
    }
}

#[test]
fn comments_are_shown_on_one_line() {
    assert_eq!(oneline("  one\n two\t three "), "one two three");
    assert_eq!(oneline(""), "");
    let exact = "x".repeat(120);
    assert_eq!(oneline(&exact), exact);
    let long = "y".repeat(121);
    let shown = oneline(&long);
    assert_eq!(shown.chars().count(), 120);
    assert_eq!(shown, format!("{}…", "y".repeat(119)));
    let words = "word ".repeat(60);
    let shown = oneline(&words);
    assert_eq!(shown.chars().count(), 120);
    assert_eq!(oneline(&shown), shown);
}

#[test]
fn comments_fail_below_the_threshold() {
    let job = job("a.rs", 3, "The file is read.", &[("b", None), ("a", Some(0.9)), ("c", Some(0.0))]);
    let mut answers = Table::new();
    answers.insert("a".to_string(), score(0.8));
    answers.insert("b".to_string(), score(0.5));
    answers.insert("c".to_string(), score(0.0));
    let found = evaluate_one(&job, &answers);
    assert_eq!(found.len(), 1);
    assert_eq!(found[0].rule, "a");
    assert_eq!((found[0].line, found[0].column), (3, 1));
    assert_eq!((found[0].probability, found[0].threshold), (score(0.8), score(0.9)));
    assert_eq!(found[0].excerpt, "The file is read.");
    answers.insert("b".to_string(), score(0.49999));
    let rules: Vec<String> = evaluate_one(&job, &answers).into_iter().map(|f| f.rule).collect();
    assert_eq!(rules, vec!["a", "b"]);
    answers.insert("a".to_string(), score(f64::NAN));
    assert_eq!(evaluate_one(&job, &answers).len(), 1);
}

#[test]
fn findings_are_sorted_by_place_and_rule() {
    let sorted = sort_findings(vec![
        finding("b.rs", 1, 1, "r"),
        finding("a/z.rs", 9, 1, "r"),
        finding("a.rs", 2, 5, "r"),
        finding("a.rs", 2, 1, "s"),
        finding("a.rs", 2, 1, "r"),
        finding("a.rs", 10, 1, "r"),
    ]);
    let places: Vec<(String, usize, usize, String)> = sorted
        .into_iter()
        .map(|f| (String::from_utf8(f.path).unwrap(), f.line, f.column, f.rule))
        .collect();
    let place = |p: &str, l: usize, c: usize, r: &str| (p.to_string(), l, c, r.to_string());
    assert_eq!(
        places,
        vec![
            place("a/z.rs", 9, 1, "r"),
            place("a.rs", 2, 1, "r"),
            place("a.rs", 2, 1, "s"),
            place("a.rs", 2, 5, "r"),
            place("a.rs", 10, 1, "r"),
            place("b.rs", 1, 1, "r"),
        ]
    );
}

#[test]
fn order_of_arrival_does_not_show() {
    let places = [("b.rs", 1), ("a.rs", 7), ("a.rs", 3), ("c/d.rs", 2), ("c.rs", 1)];
    let report = |order: [usize; 5]| -> Vec<(Vec<u8>, usize)> {
        let found = order.iter().map(|i| finding(places[*i].0, places[*i].1, 1, "r")).collect();
        sort_findings(found).into_iter().map(|f| (f.path, f.line)).collect()
    };
    assert_eq!(report([0, 1, 2, 3, 4]), report([4, 2, 0, 3, 1]));
    assert_eq!(report([0, 1, 2, 3, 4]), report([3, 1, 4, 0, 2]));
}

#[test]
fn findings_of_the_same_rank_keep_their_order() {
    let mut first = finding("./a.rs", 1, 1, "r");
    first.excerpt = "first".to_string();
    let mut second = finding("./a.rs", 1, 1, "r");
    second.excerpt = "second".to_string();
    let sorted = sort_findings(vec![finding("b", 1, 1, "r"), first, second]);
    let excerpts: Vec<&str> = sorted.iter().map(|f| f.excerpt.as_str()).collect();
    assert_eq!(excerpts[..2], ["first", "second"]);
}

#[test]
fn findings_are_reported_in_two_lines() {
    let f = finding("src/parser.rs", 42, 5, "active_voice");
    let want = "src/parser.rs:42:5: error: comment fails rule `active_voice` (p=0.09, threshold 0.50)\n    The buffer is drained by the caller before the next read.";
    assert_eq!(finding_lines("src/parser.rs", &f, "0.09", "0.50"), want);
    assert_eq!(report_finding(&f, "0.09", "0.50"), want);
    assert_eq!(summary_line(1).unwrap(), "commentlint: 1 issue(s) found");
    assert_eq!(summary_line(1203).unwrap(), "commentlint: 1203 issue(s) found");
    assert_eq!(summary_line(0), None);
}

#[test]
fn comments_are_listed_by_place() {
    assert_eq!(listing_line("a.go", &comment(2, 1, "Prints a\ngreeting.")), "a.go:2:1: Prints a greeting.");
    let mut odd = job("x", 10, "Some words here", &[]);
    odd.path = b"d/\xff.rs".to_vec();
    let lines = list_comments(&vec![job("a.go", 2, "Prints a greeting.", &[]), odd]);
    assert_eq!(lines, vec!["a.go:2:1: Prints a greeting.", "d/\u{fffd}.rs:10:1: Some words here"]);
}

#[test]
fn files_are_collected_one_by_one() {
    let files = ["a.rs", "b.txt", "gone.rs", "off.rs", "z.rs"];
    let mut collector = Collector::new(files.iter().map(|f| f.as_bytes().to_vec()).collect());
    let on = config(&[("r", None)]);
    let off = config(&[]);
    let mut asked = vec![];
    loop {
        let progress = match collector.need() {
            Need::Nothing => break,
            Need::Comments(path) => {
                let path = String::from_utf8(path).unwrap();
                asked.push(path.clone());
                collector.extracted(match path.as_str() {
                    "b.txt" => Ok(None),
                    "gone.rs" => Err(false),
                    _ => Ok(Some(vec![comment(1, 1, "noqa a b"), comment(2, 1, "Three words here"), comment(3, 1, "no")])),
                })
            }
            Need::Config(path) => collector.configured(if path == b"off.rs" { &off } else { &on }),
        };
        let want = match (asked.last().unwrap().as_str(), progress) {
            (_, Progress::Extracted) => continue,
            ("b.txt", _) => Progress::Skipped(Skip::Unsupported),
            ("gone.rs", _) => Progress::Skipped(Skip::Missing),
            ("off.rs", _) => Progress::Skipped(Skip::RulesOff),
            _ => Progress::Queued(1),
        };
        assert_eq!(progress, want);
    }
    assert_eq!(asked, files);
    let jobs = collector.into_jobs().unwrap();
    assert_eq!(jobs.len(), 2);
    assert_eq!(jobs[0].path, b"a.rs".to_vec());
    assert_eq!(jobs[1].path, b"z.rs".to_vec());
    assert_eq!(jobs[1].comment, comment(2, 1, "Three words here"));
    assert_eq!(jobs[1].config.rules.len(), 1);
}

#[test]
fn a_file_that_cannot_be_read_ends_the_collection() {
    let mut collector = Collector::new(vec![b"a.rs".to_vec()]);
    assert_eq!(collector.extracted(Err(true)), Progress::Failed);
    assert!(matches!(collector.need(), Need::Comments(_)));
    assert!(collector.into_jobs().is_none());
    assert_eq!(skip_reason(Skip::Unsupported), "unsupported file type");
    assert_eq!(skip_reason(Skip::Missing), "missing");
    assert_eq!(skip_reason(Skip::RulesOff), "all rules disabled");
}

#[test]
fn standard_input_makes_one_job() {
    assert_eq!(stdin_text(" \n\t"), None);
    let text = stdin_text("The parser reads the file and emits tokens.\n").unwrap();
    assert_eq!(text, "The parser reads the file and emits tokens.");
    let job = stdin_job(text, config(&[("active_voice", None)]));
    assert_eq!(job.path, b"<stdin>".to_vec());
    assert_eq!((job.comment.line, job.comment.column), (1, 1));
    let mut answers = Table::new();
    answers.insert("active_voice".to_string(), score(0.12));
    let found = evaluate_one(&job, &answers);
    let line = report_finding(&found[0], "0.12", "0.50");
    assert!(line.starts_with("<stdin>:1:1: error: comment fails rule `active_voice`"));
}

#[test]
fn runs_end_with_their_exit_codes() {
    assert_eq!(run_step(true, 0), RunStep::List);
    assert_eq!(run_step(true, 4), RunStep::List);
    assert_eq!(run_step(false, 0), RunStep::Nothing);
    assert_eq!(run_step(false, 4), RunStep::Evaluate);
    assert_eq!(exit_code(Outcome::Finished(0)), 0);
    assert_eq!(exit_code(Outcome::Finished(3)), 1);
    assert_eq!(exit_code(Outcome::PipeClosed), 0);
    assert_eq!(exit_code(Outcome::Error), 2);
}

/// The queue for files of which some are missing.
fn queue(files: &[&str], missing: &[&str]) -> Vec<(Vec<u8>, Comment)> {
    let mut collector = Collector::new(files.iter().map(|f| f.as_bytes().to_vec()).collect());
    loop {
        match collector.need() {
            Need::Nothing => break,
            Need::Comments(path) => {
                let gone = missing.iter().any(|m| m.as_bytes() == path.as_slice());
                let text = format!("Words about {}", String::from_utf8_lossy(&path));
                collector.extracted(if gone { Err(false) } else { Ok(Some(vec![comment(1, 1, &text)])) });
            }
            Need::Config(_) => {
                collector.configured(&config(&[("r", None)]));
            }
        }
    }
    collector.into_jobs().unwrap().into_iter().map(|j| (j.path, j.comment)).collect()
}

#[test]
fn missing_files_change_nothing() {
    let all = queue(&["a.rs", "b.rs", "c.rs", "d.rs"], &["b.rs", "d.rs"]);
    assert_eq!(all, queue(&["a.rs", "c.rs"], &[]));
    assert_eq!(all.len(), 2);
}

/// A file to lint: its path, grammar and text, and the answer to every question
/// about its comments.
type Source<'a> = (&'a str, tree_sitter::Language, &'a str, f64);

/// Collects, evaluates and reports the comments of files, with configuration
/// files read out of `disk`.
fn lint(sources: &[Source], defaults: ConfigFile, disk: &[(&str, ConfigFile)]) -> (Vec<String>, Option<String>, u8) {
    let mut loader = Loader::new(b"/work", b".", defaults);
    let mut collector = Collector::new(sources.iter().map(|s| s.0.as_bytes().to_vec()).collect());
    let of = |path: &[u8]| sources.iter().find(|s| s.0.as_bytes() == path).unwrap();
    loop {
        match collector.need() {
            Need::Nothing => break,
            Need::Comments(path) => {
                let source = of(&path);
                collector.extracted(Ok(Some(extract_comments(&source.1, source.2).unwrap())));
            }
            Need::Config(path) => match loader.for_file(&path) {
                Lookup::Ready(config) => {
                    collector.configured(&config);
                }
                Lookup::Read(dir) => {
                    let file = String::from_utf8(config_path(&dir)).unwrap();
                    let found = disk.iter().find(|d| d.0 == file).map(|d| d.1.clone());
                    loader.record(dir, found);
                }
                Lookup::NoPath => panic!("no path"),
            },
        }
    }
    let client = Client::new("test-key-123".to_string(), None);
    let mut findings = vec![];
    for job in collector.into_jobs().unwrap() {
        let mut call = client.evaluate(&job.config.model, &job.comment.text, &job.config.rules);
        assert_eq!(call.next(Event::Replied(200, None)), Action::Read);
        let mut answers = Table::new();
        for i in 0..call.request.questions.len() {
            answers.insert(call.request.questions.id_at(i).to_string(), Some(score(of(&job.path).3)));
        }
        let scores = read_answers(&job.config.rules, &answers).unwrap();
        findings.append(&mut evaluate_one(&job, &scores));
    }
    let findings = sort_findings(findings);
    let lines = findings.iter().map(|f| report_finding(f, "p", "t")).collect();
    (lines, summary_line(findings.len()), exit_code(Outcome::Finished(findings.len())))
}

fn rule(threshold: Option<f64>) -> Rule {
    Rule {
        instructions: "Custom?".to_string(),
        criteria: Criteria { yes: "y".to_string(), no: "n".to_string() },
        threshold: threshold.map(score),
    }
}

fn defaults() -> ConfigFile {
    let mut cfg = ConfigFile::default();
    cfg.rules.insert("active_voice".to_string(), rule(None));
    cfg
}

#[test]
fn files_are_parsed_and_config_layers_apply() {
    let rust = "// The file is read by the parser.\nfn main() {}\n// ok\n";
    let python = "# The tokens were emitted by the lexer.\nx = 1\n";
    let mut sub = ConfigFile::default();
    sub.disable = vec!["active_voice".to_string()];
    sub.rules.insert("custom".to_string(), rule(Some(0.9)));
    let (lines, summary, code) = lint(
        &[
            ("a.rs", tree_sitter_rust::LANGUAGE.into(), rust, 0.2),
            ("sub/b.py", tree_sitter_python::LANGUAGE.into(), python, 0.8),
        ],
        defaults(),
        &[("/work/sub/.commentlint.toml", sub)],
    );
    assert_eq!(lines.len(), 2);
    assert!(lines[0].starts_with("a.rs:1:1: error: comment fails rule `active_voice`"));
    assert!(lines[0].ends_with("\n    The file is read by the parser."));
    assert!(lines[1].starts_with("sub/b.py:1:1: error: comment fails rule `custom`"));
    assert!(lines[1].ends_with("\n    The tokens were emitted by the lexer."));
    assert_eq!(summary.unwrap(), "commentlint: 2 issue(s) found");
    assert_eq!(code, 1);
}

#[test]
fn nearest_repo_config_has_final_say() {
    // The outer config lowers the threshold and adds `r`; the nested config
    // disables the default rule and `r`, and adds `s`.
    let mut outer = ConfigFile::default();
    outer.threshold = Some(score(0.1));
    outer.min_words = Some(1);
    outer.rules.insert("r".to_string(), rule(None));
    let mut nested = ConfigFile::default();
    nested.disable = vec!["active_voice".to_string(), "r".to_string()];
    nested.rules.insert("s".to_string(), rule(None));
    let disk = [("/work/.commentlint.toml", outer), ("/work/sub/.commentlint.toml", nested)];
    let sources = |p: f64| -> Vec<Source<'static>> {
        vec![
            ("a.go", tree_sitter_go::LANGUAGE.into(), "package main\n// top level\n", p),
            ("sub/b.go", tree_sitter_go::LANGUAGE.into(), "package main\n// nested\n", p),
        ]
    };
    // 0.3 passes the outer threshold of 0.1 but would fail the default 0.5.
    let (lines, summary, code) = lint(&sources(0.3), defaults(), &disk);
    assert!(lines.is_empty());
    assert_eq!(summary, None);
    assert_eq!(code, 0);
    let (lines, _, _) = lint(&sources(0.05), defaults(), &disk);
    let heads: Vec<&str> = lines.iter().map(|l| l.split(" (p=").next().unwrap()).collect();
    assert_eq!(
        heads,
        vec![
            "a.go:2:1: error: comment fails rule `active_voice`",
            "a.go:2:1: error: comment fails rule `r`",
            "sub/b.go:2:1: error: comment fails rule `s`",
        ]
    );
}
