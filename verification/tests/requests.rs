//! Requests as the service sees them.
use datafusion_jev::error::Failure;
use datafusion_jev::request::{check_size, question_json, request, request_body, Row};
use datafusion_jev::sql::{Criterion, Question};
use serde_json::Value;

fn question(kind: &str, criteria: Vec<(&str, Option<&str>)>) -> Question {
    Question {
        instructions: "Which?".to_owned(),
        kind: kind.to_owned(),
        criteria: criteria
            .into_iter()
            .map(|(label, description)| Criterion {
                label: label.to_owned(),
                description: description.map(str::to_owned),
            })
            .collect(),
        batch_size: 32,
    }
}

fn rows(texts: &[&str]) -> Vec<Row> {
    texts.iter().enumerate().map(|(place, t)| Row { place, text: (*t).to_owned() }).collect()
}

fn parsed(text: &str) -> Value {
    text.parse().unwrap()
}

#[test]
fn a_question_without_criteria_has_none() {
    assert_eq!(
        question_json(&question("noul", vec![])),
        parsed(r#"{"type":"noul","instructions":"Which?"}"#)
    );
}

#[test]
fn options_are_keyed_by_label() {
    let q = question("choice", vec![("b", Some("second")), ("a", None)]);
    assert_eq!(
        question_json(&q),
        parsed(r#"{"type":"choice","instructions":"Which?","criteria":{"b":"second","a":"a"}}"#)
    );
}

#[test]
fn levels_are_an_array_with_their_labels() {
    let q = question("score", vec![("low", Some("meh")), ("high", None)]);
    assert_eq!(
        question_json(&q),
        parsed(r#"{"type":"score","instructions":"Which?","criteria":["low: meh","high"]}"#)
    );
}

#[test]
fn one_row_is_the_state_itself() {
    let q = question("noul", vec![]);
    assert_eq!(
        request_body(&q, &rows(&["hello"])),
        parsed(
            r#"{"model":"jev-latest","state":"hello",
                "questions":{"row_0":{"type":"noul","instructions":"Which?"}}}"#
        )
    );
}

#[test]
fn several_rows_are_asked_about_one_by_one() {
    let q = question("noul", vec![]);
    assert_eq!(
        request_body(&q, &rows(&["hello", "there"])),
        parsed(
            r#"{"model":"jev-latest","state":{"row_0":"hello","row_1":"there"},
                "questions":{
                  "row_0":{"type":"noul","instructions":{"question":"Which?",
                    "scope":"Evaluate only the text in state.row_0. Other rows are unrelated inputs."}},
                  "row_1":{"type":"noul","instructions":{"question":"Which?",
                    "scope":"Evaluate only the text in state.row_1. Other rows are unrelated inputs."}}}}"#
        )
    );
}

#[test]
fn every_row_has_a_name_of_its_own() {
    let texts: Vec<String> = (0..64).map(|i| format!("text {i}")).collect();
    let texts: Vec<&str> = texts.iter().map(String::as_str).collect();
    let body = request_body(&question("noul", vec![]), &rows(&texts));
    assert_eq!(body["questions"].as_object().unwrap().len(), 64);
    assert_eq!(body["state"]["row_10"], Value::from("text 10"));
    assert_eq!(body["state"]["row_63"], Value::from("text 63"));
}

#[test]
fn the_size_limit_is_256_kib() {
    assert!(check_size(1, 262_144).is_ok());
    assert!(matches!(check_size(1, 262_145), Err(Failure::LargeRow)));
    assert!(matches!(check_size(2, 262_145), Err(Failure::LargeBatch)));
    assert_eq!(
        check_size(2, 300_000).err().unwrap().message(),
        "Jev request exceeds 256 KiB; reduce batch_size or shorten the instructions"
    );
    assert_eq!(
        check_size(1, 300_000).err().unwrap().message(),
        "Jev request exceeds 256 KiB; shorten the instructions"
    );
}

#[test]
fn a_request_is_measured_as_it_is_written() {
    let q = question("noul", vec![]);
    let fixed = serde_json::to_vec(&request_body(&q, &rows(&[""]))).unwrap().len();
    let just = "x".repeat(262_144 - fixed);
    assert!(request(&q, &rows(&[&just])).is_ok());
    let over = "x".repeat(262_145 - fixed);
    assert!(matches!(request(&q, &rows(&[&over])), Err(Failure::LargeRow)));
    assert!(matches!(request(&q, &rows(&[&over, "y"])), Err(Failure::LargeBatch)));
}
