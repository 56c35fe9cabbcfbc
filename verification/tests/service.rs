//! The key, requests, retries and answers.

use commentlint::config::{Criteria, Rule};
use commentlint::score::Score;
use commentlint::table::Table;
use commentlint::typesafe::{
    key_in, key_path, load_key, read_answers, Action, Call, Client, Event, KeySource, Pause, DEFAULT_ENDPOINT,
    MAX_ATTEMPTS,
};

fn score(x: f64) -> Score {
    Score { bits: x.to_bits() }
}

fn rules() -> Table<Rule> {
    let mut rules = Table::new();
    for id in ["s", "r"] {
        rules.insert(
            id.to_string(),
            Rule {
                instructions: format!("{}?", id),
                criteria: Criteria { yes: "y".to_string(), no: "n".to_string() },
                threshold: None,
            },
        );
    }
    rules
}

fn call() -> Call {
    Client::new("test-key-123".to_string(), None).evaluate("jev-latest", "Some text.", &rules())
}

#[test]
fn key_files_follow_xdg() {
    let path = |xdg: Option<&str>, home: Option<&str>| {
        key_path(xdg.map(|s| s.as_bytes()), home.map(|s| s.as_bytes())).map(|p| String::from_utf8(p).unwrap())
    };
    assert_eq!(path(Some("/x"), Some("/h")).unwrap(), "/x/commentlint/key.txt");
    assert_eq!(path(Some("/x/"), None).unwrap(), "/x/commentlint/key.txt");
    assert_eq!(path(Some(""), Some("/h")).unwrap(), "/h/.config/commentlint/key.txt");
    assert_eq!(path(None, Some("/h")).unwrap(), "/h/.config/commentlint/key.txt");
    assert_eq!(path(None, Some("")).unwrap(), ".config/commentlint/key.txt");
    assert_eq!(path(Some(""), None), None);
    assert_eq!(path(None, None), None);
}

#[test]
fn the_key_variable_takes_precedence() {
    match load_key(Some(" SECRET-REDACTED\n"), None, None) {
        KeySource::Key(key) => assert_eq!(key, "SECRET-REDACTED"),
        other => panic!("{:?}", other),
    }
    match load_key(Some("  "), None, Some(b"/h")) {
        KeySource::File(path) => assert_eq!(path, b"/h/.config/commentlint/key.txt".to_vec()),
        other => panic!("{:?}", other),
    }
    assert!(matches!(load_key(None, None, None), KeySource::Nowhere));
    assert_eq!(key_in("abc\n"), Some("abc".to_string()));
    assert_eq!(key_in(" \n"), None);
}

#[test]
fn requests_ask_one_question_per_rule() {
    let call = call();
    assert_eq!(call.request.state, "Some text.");
    assert_eq!(call.request.model, "jev-latest");
    assert_eq!(call.request.questions.len(), 2);
    assert_eq!(call.request.questions.id_at(0), "r");
    let question = call.request.questions.get("s").unwrap();
    assert_eq!(question.kind, "noul");
    assert_eq!(question.instructions, "s?");
    assert_eq!(question.criteria, Criteria { yes: "y".to_string(), no: "n".to_string() });
}

#[test]
fn clients_carry_key_and_endpoint() {
    let client = Client::new("test-key-123".to_string(), None);
    assert_eq!(client.authorization(), "Bearer test-key-123");
    assert_eq!(client.endpoint(), DEFAULT_ENDPOINT);
    let client = Client::new("k".to_string(), Some("http://127.0.0.1:1/".to_string()));
    assert_eq!(client.endpoint(), "http://127.0.0.1:1/");
}

#[test]
fn waits_double_and_end() {
    let mut call = call();
    let mut waits = vec![];
    loop {
        match call.next(Event::Unanswered) {
            Action::Resend(Pause::Milliseconds(ms)) => waits.push(ms),
            Action::NoReply => break,
            other => panic!("{:?}", other),
        }
    }
    assert_eq!(waits, vec![500, 1000, 2000, 4000]);
    assert_eq!(call.attempt, MAX_ATTEMPTS);
    assert_eq!(MAX_ATTEMPTS, 5);
}

#[test]
fn transient_replies_are_tried_again() {
    for status in [429, 529, 500, 501, 502, 503, 504] {
        let mut call = call();
        let asked = call.next(Event::Replied(status, Some(" 7 ".to_string())));
        assert_eq!(asked, Action::Resend(Pause::Seconds(7)));
        assert_eq!(call.next(Event::Replied(status, None)), Action::Resend(Pause::Milliseconds(1000)));
        let odd = call.next(Event::Replied(status, Some("soon".to_string())));
        assert_eq!(odd, Action::Resend(Pause::Milliseconds(2000)));
        assert_eq!(call.next(Event::Unanswered), Action::Resend(Pause::Milliseconds(4000)));
        assert_eq!(call.next(Event::Replied(status, Some("1".to_string()))), Action::Refused(status));
    }
}

#[test]
fn other_replies_end_the_call() {
    assert_eq!(call().next(Event::Replied(200, None)), Action::Read);
    assert_eq!(call().next(Event::Replied(401, Some("1".to_string()))), Action::KeyRejected);
    for status in [201, 204, 301, 400, 403, 404, 499, 505, 528, 530] {
        assert_eq!(call().next(Event::Replied(status, Some("1".to_string()))), Action::Refused(status));
    }
}

#[test]
fn every_rule_needs_an_answer() {
    let mut answers: Table<Option<Score>> = Table::new();
    assert_eq!(read_answers(&rules(), &answers).unwrap_err(), "r");
    answers.insert("r".to_string(), Some(score(0.25)));
    answers.insert("s".to_string(), None);
    answers.insert("other".to_string(), Some(score(1.0)));
    assert_eq!(read_answers(&rules(), &answers).unwrap_err(), "s");
    answers.insert("s".to_string(), Some(score(0.75)));
    let scores = read_answers(&rules(), &answers).unwrap();
    assert_eq!(scores.len(), 2);
    assert_eq!(scores.get("r"), Some(&score(0.25)));
    assert_eq!(scores.get("s"), Some(&score(0.75)));
    assert_eq!(scores.get("other"), None);
}
