//! Running a question over a column against a mock service: result shapes,
//! batching, deduplication, NULL handling and retries.
use datafusion_jev::answer::{answer, Answer, Entry};
use datafusion_jev::batch::{
    after_attempt, distinct, place, row_probabilities, split, Cell, Outcome, Step, ATTEMPTS,
};
use datafusion_jev::error::Failure;
use datafusion_jev::request::request;
use datafusion_jev::sql::{Criterion, Question};
use datafusion_jev::udf::{is_text, DataType};
use datafusion_jev::RequestError;
use serde_json::Value;

fn criterion(label: &str, description: Option<&str>) -> Criterion {
    Criterion { label: label.to_owned(), description: description.map(str::to_owned) }
}

fn question(kind: &str, labels: &[&str], batch_size: usize) -> Question {
    Question {
        instructions: "q".to_owned(),
        kind: kind.to_owned(),
        criteria: labels.iter().map(|l| criterion(l, None)).collect(),
        batch_size,
    }
}

fn texts(rows: &[&str]) -> Vec<Cell> {
    rows.iter().map(|t| Cell::Text((*t).to_owned())).collect()
}

fn object(members: Vec<(&str, Value)>) -> Value {
    let mut map = serde_json::Map::new();
    for (key, value) in members {
        map.insert(key.to_owned(), value);
    }
    Value::Object(map)
}

/// A service that remembers its requests.
#[derive(Default)]
struct Mock {
    calls: Vec<Value>,
    unavailable: bool,
    silent: usize,
    fatal: bool,
    malformed: bool,
    /// When set, every choice probability takes this value instead of a one-hot
    /// distribution, so that a test can control the sum.
    probability: Option<f64>,
}

impl Mock {
    fn request(&mut self, body: Value) -> Result<Value, RequestError> {
        self.calls.push(body.clone());
        if self.unavailable {
            return Err(RequestError::Unavailable);
        }
        if self.fatal {
            return Err(RequestError::Fatal("HTTP 422".to_owned()));
        }
        let mut answers = serde_json::Map::new();
        if !self.malformed {
            for (key, q) in body["questions"].as_object().unwrap() {
                answers.insert(key.clone(), self.answer(q));
            }
        }
        Ok(object(vec![("answers", Value::Object(answers))]))
    }

    fn answer(&self, q: &Value) -> Value {
        let kind = q["type"].as_str().unwrap();
        if kind == "noul" {
            return object(vec![("type", kind.into()), ("noul", 0.9.into())]);
        }
        let mut probabilities = serde_json::Map::new();
        if kind == "choice" {
            let labels: Vec<String> = q["criteria"].as_object().unwrap().keys().cloned().collect();
            for (i, label) in labels.iter().enumerate() {
                let p = self.probability.unwrap_or(if i == 0 { 1.0 } else { 0.0 });
                probabilities.insert(label.clone(), p.into());
            }
            object(vec![
                ("type", kind.into()),
                ("choice", labels[0].as_str().into()),
                ("confidence", 0.95.into()),
                ("probabilities", Value::Object(probabilities)),
            ])
        } else {
            let n = q["criteria"].as_array().unwrap().len();
            for i in 0..n {
                let p = if i == 0 {
                    0.25
                } else if i == n - 1 {
                    0.75
                } else {
                    0.0
                };
                probabilities.insert(i.to_string(), p.into());
            }
            object(vec![
                ("type", kind.into()),
                ("score", (0.75 * (n - 1) as f64).into()),
                ("confidence", 0.7.into()),
                ("probabilities", Value::Object(probabilities)),
            ])
        }
    }
}

fn sums_to_one(bits: &[u64]) -> bool {
    let sum: f64 = bits.iter().map(|b| f64::from_bits(*b)).sum();
    let tolerance = (0.01 + 0.001 * bits.len() as f64).min(0.3);
    (sum - 1.0).abs() <= tolerance
}

/// Ask the question of every row, one request after the other, and return the
/// answers and how long the pauses were.
fn run(
    mock: &mut Mock,
    q: &Question,
    cells: &Vec<Cell>,
) -> Result<(Vec<Option<Answer>>, Vec<u64>), String> {
    q.validate().map_err(|e| e.message())?;
    let mut out: Vec<Option<Answer>> = cells.iter().map(|_| None).collect();
    let mut pauses = vec![];
    let found = distinct(cells).map_err(|e| e.message())?;
    for rows in split(&found.texts, q.batch_size) {
        let body = request(q, &rows).map_err(|e| e.message())?;
        for attempt in 0..ATTEMPTS {
            let outcome = if mock.silent > 0 {
                mock.silent -= 1;
                mock.calls.push(body.clone());
                Outcome::TimedOut
            } else {
                match mock.request(body.clone()) {
                    Ok(response) => {
                        let balanced = (0..rows.len())
                            .map(|i| {
                                row_probabilities(q, &response, i).map_or(true, |p| sums_to_one(&p))
                            })
                            .collect();
                        Outcome::Reply { response, balanced }
                    }
                    Err(e) => Outcome::Failed(e),
                }
            };
            match after_attempt(q, &rows, attempt, outcome) {
                Step::Done(placed) => {
                    place(&mut out, &found.rows_for, &placed);
                    break;
                }
                Step::Fail(e) => return Err(e.message()),
                Step::Wait(ms) => pauses.push(ms),
            }
        }
    }
    Ok((out, pauses))
}

fn noul(a: &Option<Answer>) -> Option<f64> {
    match a {
        Some(Answer::Noul(bits)) => Some(f64::from_bits(*bits)),
        _ => None,
    }
}

fn listed(entries: &[Entry]) -> (Vec<&str>, Vec<f64>, Vec<Option<u32>>) {
    (
        entries.iter().map(|e| e.value.as_str()).collect(),
        entries.iter().map(|e| f64::from_bits(e.probability)).collect(),
        entries.iter().map(|e| e.index).collect(),
    )
}

#[test]
fn execution_exact_user_syntax_and_typed_fields() {
    let q = Question {
        instructions: "Identify the customer's main complaint".to_owned(),
        kind: "choice".to_owned(),
        criteria: vec![
            criterion("billing", Some("Payments, invoices, and refunds")),
            criterion("technical", Some("Errors, outages, and integrations")),
            criterion("sales", Some("Pricing and upgrades")),
            criterion("account", Some("Cancellations and account administration")),
        ],
        batch_size: 32,
    };
    let mut mock = Mock::default();
    let (out, _) = run(&mut mock, &q, &texts(&["Please refund this payment"])).unwrap();
    assert_eq!(mock.calls.len(), 1);
    assert_eq!(
        mock.calls[0]["questions"]["row_0"]["criteria"]["sales"],
        Value::from("Pricing and upgrades")
    );
    match &out[0] {
        Some(Answer::Choice { choice, probabilities, confidence }) => {
            assert_eq!(choice, "account");
            assert_eq!(f64::from_bits(*confidence), 0.95);
            let (labels, probs, index) = listed(probabilities);
            assert_eq!(labels, ["billing", "technical", "sales", "account"]);
            assert_eq!(probs, [0.0, 0.0, 0.0, 1.0]);
            assert_eq!(index, [None, None, None, None]);
        }
        other => panic!("{other:?}"),
    }
}

#[test]
fn execution_batching_and_null_input() {
    let mut mock = Mock::default();
    let cells = vec![
        Cell::Text("a".to_owned()),
        Cell::Null,
        Cell::Text("b".to_owned()),
        Cell::Text("c".to_owned()),
    ];
    let (out, _) = run(&mut mock, &question("noul", &[], 2), &cells).unwrap();
    assert_eq!(out.len(), 4);
    assert_eq!(mock.calls.len(), 2);
    let asked: usize =
        mock.calls.iter().map(|v| v["questions"].as_object().unwrap().len()).sum();
    assert_eq!(asked, 3);
    let values: Vec<Option<f64>> = out.iter().map(noul).collect();
    assert_eq!(values, [Some(0.9), None, Some(0.9), Some(0.9)]);
}

#[test]
fn execution_score_and_noul_types() {
    let mut mock = Mock::default();
    let q = question("score", &["low", "medium", "high"], 32);
    let (out, _) = run(&mut mock, &q, &texts(&["bad"])).unwrap();
    match &out[0] {
        Some(Answer::Score { score, probabilities, .. }) => {
            assert_eq!(f64::from_bits(*score), 1.5);
            assert_eq!(probabilities[1].value, "medium");
        }
        other => panic!("{other:?}"),
    }
    let (out, _) = run(&mut mock, &question("noul", &[], 32), &texts(&["bad"])).unwrap();
    assert_eq!(noul(&out[0]), Some(0.9));
}

#[test]
fn execution_unavailable_is_retried_then_null() {
    let mut mock = Mock { unavailable: true, ..Default::default() };
    let (out, pauses) = run(&mut mock, &question("noul", &[], 32), &texts(&["a"])).unwrap();
    assert!(out[0].is_none());
    assert_eq!(mock.calls.len(), 3);
    assert_eq!(pauses, [250, 500]);
}

#[test]
fn execution_provider_validation_and_malformed_answers_fail() {
    for (mut mock, message) in [
        (Mock { fatal: true, ..Default::default() }, "Jev request rejected: HTTP 422"),
        (Mock { malformed: true, ..Default::default() }, "Jev response omitted a row"),
    ] {
        let failed = run(&mut mock, &question("noul", &[], 32), &texts(&["a"]));
        assert_eq!(failed.err().unwrap(), message);
        assert_eq!(mock.calls.len(), 1);
    }
}

#[test]
fn execution_nulls_and_empty_results_make_no_requests() {
    let mut mock = Mock::default();
    let q = question("noul", &[], 32);
    let (out, _) = run(&mut mock, &q, &vec![Cell::Null]).unwrap();
    assert!(out[0].is_none());
    let (out, _) = run(&mut mock, &q, &vec![]).unwrap();
    assert!(out.is_empty());
    assert!(mock.calls.is_empty());
}

#[test]
fn execution_isolated_batches_keep_state_as_single_text() {
    let mut mock = Mock::default();
    run(&mut mock, &question("noul", &[], 1), &texts(&["alpha", "beta"])).unwrap();
    assert_eq!(mock.calls.len(), 2);
    assert!(mock.calls.iter().all(|c| c["state"].is_string()));
    assert_eq!(mock.calls[1]["state"], Value::from("beta"));
}

#[test]
fn identical_inputs_are_requested_once() {
    let mut mock = Mock::default();
    let (out, _) =
        run(&mut mock, &question("noul", &[], 32), &texts(&["a", "a", "b", "a"])).unwrap();
    assert_eq!(mock.calls.len(), 1, "repeated text must be asked about once");
    assert_eq!(mock.calls[0]["questions"].as_object().unwrap().len(), 2);
    assert_eq!(out.len(), 4);
    assert!(out.iter().all(|a| a.is_some()), "every row keeps an answer");
}

#[test]
fn constant_input_is_requested_once() {
    let mut mock = Mock::default();
    let (out, _) = run(&mut mock, &question("noul", &[], 32), &texts(&["x", "x", "x"])).unwrap();
    assert_eq!(out.len(), 3);
    assert_eq!(mock.calls.len(), 1);
    assert_eq!(mock.calls[0]["questions"].as_object().unwrap().len(), 1);
}

#[test]
fn probability_sum_tolerance_scales_with_criteria_count() {
    let labels: Vec<String> = (0..200).map(|i| format!("c{i}")).collect();
    let labels: Vec<&str> = labels.iter().map(String::as_str).collect();
    let many = question("choice", &labels, 32);
    // 200 criteria rounded to three decimals can drift far from one.
    let mut mock = Mock { probability: Some(0.004), ..Default::default() };
    run(&mut mock, &many, &texts(&["a"])).expect("rounding drift is tolerated");
    // Garbage is still rejected: 200 * 0.0075 = 1.5.
    let mut mock = Mock { probability: Some(0.0075), ..Default::default() };
    assert_eq!(
        run(&mut mock, &many, &texts(&["a"])).err().unwrap(),
        "Jev probabilities do not sum to one"
    );
    // A small question keeps the tight tolerance.
    let mut mock = Mock { probability: Some(0.4), ..Default::default() };
    assert!(run(&mut mock, &question("choice", &["x", "y"], 32), &texts(&["a"])).is_err());
}

#[test]
fn oversized_encoded_input_is_rejected_without_batch_size_advice() {
    let mut mock = Mock::default();
    // 60,000 control characters: six bytes each once they are written as JSON.
    let body = "\u{1}".repeat(60_000);
    let error = run(&mut mock, &question("noul", &[], 1), &texts(&[&body])).err().unwrap();
    assert!(error.contains("input exceeds"), "{error}");
    assert!(!error.contains("batch_size"), "{error}");
    assert!(mock.calls.is_empty());
}

#[test]
fn dictionary_encoded_input_is_accepted() {
    assert!(is_text(&DataType::Dictionary(Box::new(DataType::Utf8))));
    let mut mock = Mock::default();
    let cells = texts(&["alpha", "beta", "alpha"]);
    let (out, _) = run(&mut mock, &question("noul", &[], 32), &cells).unwrap();
    assert_eq!(out.len(), 3);
    assert!(out.iter().all(|a| a.is_some()));
    assert_eq!(mock.calls.len(), 1);
    assert_eq!(mock.calls[0]["questions"].as_object().unwrap().len(), 2);
}

#[test]
fn batches_split_on_encoded_size() {
    let mut mock = Mock::default();
    // Three distinct texts of about 20 KiB: the budget of 32 KiB allows one each.
    let rows: Vec<String> = (0..3).map(|i| format!("{i}{}", "x".repeat(20_000))).collect();
    let rows: Vec<&str> = rows.iter().map(String::as_str).collect();
    run(&mut mock, &question("noul", &[], 32), &texts(&rows)).unwrap();
    assert_eq!(mock.calls.len(), 3, "default batch_size must still split by size");
    assert!(mock.calls.iter().all(|c| c["state"].is_string()));
}

#[test]
fn probabilities_follow_caller_order() {
    let mut mock = Mock::default();
    let q = question("choice", &["billing", "technical", "sales"], 32);
    let (out, _) = run(&mut mock, &q, &texts(&["a"])).unwrap();
    match &out[0] {
        Some(Answer::Choice { probabilities, .. }) => {
            let (labels, probs, index) = listed(probabilities);
            assert_eq!(labels, ["billing", "technical", "sales"]);
            assert_eq!(probs, [1.0, 0.0, 0.0]);
            assert_eq!(index, [None, None, None], "choice carries no index");
        }
        other => panic!("{other:?}"),
    }
    let q = question("score", &["low", "medium", "high"], 32);
    let (out, _) = run(&mut mock, &q, &texts(&["a"])).unwrap();
    match &out[0] {
        Some(Answer::Score { probabilities, .. }) => {
            let (labels, probs, index) = listed(probabilities);
            assert_eq!(labels, ["low", "medium", "high"]);
            assert_eq!(probs, [0.25, 0.0, 0.75]);
            assert_eq!(index, [Some(0), Some(1), Some(2)]);
        }
        other => panic!("{other:?}"),
    }
}

#[test]
fn score_criteria_carry_their_labels() {
    let q = Question {
        instructions: "q".to_owned(),
        kind: "score".to_owned(),
        criteria: vec![
            criterion("low", Some("minor annoyance")),
            criterion("high", Some("outage")),
        ],
        batch_size: 32,
    };
    let mut mock = Mock::default();
    run(&mut mock, &q, &texts(&["a"])).unwrap();
    let criteria = mock.calls[0]["questions"]["row_0"]["criteria"].as_array().unwrap();
    assert_eq!(
        criteria,
        &vec![Value::from("low: minor annoyance"), Value::from("high: outage")]
    );
}

#[test]
fn timed_out_request_is_retried() {
    let mut mock = Mock { silent: 1, ..Default::default() };
    let (out, _) = run(&mut mock, &question("noul", &[], 32), &texts(&["a"])).unwrap();
    assert_eq!(noul(&out[0]), Some(0.9));
    assert_eq!(mock.calls.len(), 2);
}

#[test]
fn a_fatal_error_fails_at_any_attempt() {
    let q = question("noul", &[], 32);
    let found = distinct(&texts(&["a"])).unwrap();
    let rows = &split(&found.texts, 32)[0];
    for attempt in 0..ATTEMPTS {
        let outcome = Outcome::Failed(RequestError::Fatal("no".to_owned()));
        assert!(matches!(
            after_attempt(&q, rows, attempt, outcome),
            Step::Fail(Failure::Rejected(m)) if m == "no"
        ));
    }
}

#[test]
fn answers_reach_their_rows_in_any_order() {
    let cells = vec![
        Cell::Text("b".to_owned()),
        Cell::Text("a".to_owned()),
        Cell::Null,
        Cell::Text("b".to_owned()),
    ];
    let q = question("noul", &[], 1);
    let found = distinct(&cells).unwrap();
    assert_eq!(found.rows_for, vec![vec![0, 3], vec![1]]);
    let mut batches = split(&found.texts, 1);
    batches.reverse();
    let mut out: Vec<Option<Answer>> = vec![None, None, None, None];
    for rows in &batches {
        let value: f64 = if rows[0].text == "a" { 0.25 } else { 0.75 };
        let row = object(vec![("type", "noul".into()), ("noul", value.into())]);
        let response = object(vec![("answers", object(vec![("row_0", row)]))]);
        match after_attempt(&q, rows, 0, Outcome::Reply { response, balanced: vec![true] }) {
            Step::Done(placed) => place(&mut out, &found.rows_for, &placed),
            other => panic!("{other:?}"),
        }
    }
    let values: Vec<Option<f64>> = out.iter().map(noul).collect();
    assert_eq!(values, [Some(0.75), Some(0.25), None, Some(0.75)]);
}

#[test]
fn each_fault_of_an_answer_is_told_apart() {
    let choice = question("choice", &["x", "y"], 32);
    let score = question("score", &["x", "y"], 32);
    let plain = question("noul", &[], 32);
    let even = || object(vec![("x", 0.5.into()), ("y", 0.5.into())]);
    let levels = || object(vec![("0", 0.5.into()), ("1", 0.5.into())]);
    let fault = |q: &Question, v: Value, balanced: bool| answer(q, &v, balanced).err().unwrap();
    assert!(matches!(fault(&plain, Value::Null, true), Failure::AnswerType));
    assert!(matches!(
        fault(&plain, object(vec![("type", "choice".into())]), true),
        Failure::AnswerType
    ));
    for noul in [Value::Null, 1.5.into(), (-0.5).into(), "0.5".into()] {
        let v = object(vec![("type", "noul".into()), ("noul", noul)]);
        assert!(matches!(fault(&plain, v, true), Failure::BadNumber));
    }
    let v = object(vec![("type", "choice".into())]);
    assert!(matches!(fault(&choice, v, true), Failure::OmittedProbabilities));
    let v = object(vec![
        ("type", "choice".into()),
        ("probabilities", object(vec![("x", 1.0.into())])),
    ]);
    assert!(matches!(fault(&choice, v, true), Failure::ProbabilityCount));
    let v = object(vec![
        ("type", "choice".into()),
        ("probabilities", object(vec![("x", 1.0.into()), ("z", 0.0.into())])),
    ]);
    assert!(matches!(fault(&choice, v, true), Failure::BadNumber));
    // A name besides those of the criteria is one too many.
    let v = object(vec![
        ("type", "choice".into()),
        ("probabilities", object(vec![("x", 0.5.into()), ("y", 0.5.into()), ("z", 0.into())])),
    ]);
    assert!(matches!(fault(&choice, v, true), Failure::ProbabilityCount));
    let v = object(vec![("type", "choice".into()), ("probabilities", even())]);
    assert!(matches!(fault(&choice, v, false), Failure::ProbabilitySum));
    let v = object(vec![
        ("type", "choice".into()),
        ("probabilities", even()),
        ("choice", "z".into()),
        ("confidence", 1.into()),
    ]);
    assert!(matches!(fault(&choice, v, true), Failure::UnknownChoice));
    let v = object(vec![
        ("type", "choice".into()),
        ("probabilities", even()),
        ("choice", "y".into()),
        ("confidence", 2.into()),
    ]);
    assert!(matches!(fault(&choice, v, true), Failure::BadNumber));
    let v = object(vec![
        ("type", "score".into()),
        ("probabilities", levels()),
        ("score", 1.25.into()),
        ("confidence", 1.into()),
    ]);
    assert!(matches!(fault(&score, v, true), Failure::BadNumber));
    let v = object(vec![
        ("type", "score".into()),
        ("probabilities", levels()),
        ("score", 1.into()),
        ("confidence", 0.into()),
    ]);
    match answer(&score, &v, true) {
        Ok(Answer::Score { score, confidence, .. }) => {
            assert_eq!(f64::from_bits(score), 1.0);
            assert_eq!(f64::from_bits(confidence), 0.0);
        }
        other => panic!("{other:?}"),
    }
}

#[test]
fn a_reply_without_answers_or_rows_fails() {
    let q = question("noul", &[], 32);
    let found = distinct(&texts(&["a", "b"])).unwrap();
    let rows = &split(&found.texts, 32)[0];
    let reply = |response: Value| Outcome::Reply { response, balanced: vec![true, true] };
    assert!(matches!(
        after_attempt(&q, rows, 0, reply(Value::Null)),
        Step::Fail(Failure::OmittedAnswers)
    ));
    let row = object(vec![("type", "noul".into()), ("noul", 0.5.into())]);
    let response = object(vec![("answers", object(vec![("row_0", row)]))]);
    assert!(matches!(
        after_attempt(&q, rows, 0, reply(response)),
        Step::Fail(Failure::OmittedRow)
    ));
}

#[test]
fn input_that_is_not_text_fails() {
    let cells = vec![Cell::Text("a".to_owned()), Cell::Other];
    let failed = distinct(&cells).err().unwrap();
    assert_eq!(failed.message(), "prompt_jev input must be text");
}

#[test]
fn the_first_faulty_row_decides() {
    let large = "x".repeat(70_000);
    let cells = vec![Cell::Text(large.clone()), Cell::Other];
    assert!(matches!(distinct(&cells), Err(Failure::LargeInput)));
    let cells = vec![Cell::Other, Cell::Text(large)];
    assert!(matches!(distinct(&cells), Err(Failure::NotText)));
}

#[test]
fn texts_are_measured_as_they_are_written() {
    for t in ["", "plain", "\"quoted\"", "back\\slash", "tab\tline\nfeed\r", "\u{8}\u{c}", "\u{1f}", "é\u{7f}😀"] {
        let found = distinct(&texts(&[t])).unwrap();
        assert_eq!(found.texts[0].bytes, serde_json::to_string(t).unwrap().len(), "{t:?}");
    }
    // Two quotation marks around 65,534 bytes are just in.
    let just = "x".repeat(65_534);
    assert_eq!(distinct(&texts(&[&just])).unwrap().texts[0].bytes, 65_536);
    let over = "x".repeat(65_535);
    assert!(matches!(distinct(&texts(&[&over])), Err(Failure::LargeInput)));
}

#[test]
fn batches_take_what_fits_and_keep_the_order() {
    // With its quotation marks each text has 10,000 bytes.
    let rows: Vec<String> = (0..5).map(|i| format!("{i}{}", "y".repeat(9_997))).collect();
    let rows: Vec<&str> = rows.iter().map(String::as_str).collect();
    let found = distinct(&texts(&rows)).unwrap();
    let places = |limit: usize| -> Vec<Vec<usize>> {
        split(&found.texts, limit).iter().map(|b| b.iter().map(|r| r.place).collect()).collect()
    };
    assert_eq!(places(64), [vec![0, 1, 2], vec![3, 4]]);
    assert_eq!(places(2), [vec![0, 1], vec![2, 3], vec![4]]);
    // A text above the budget has a request of its own.
    let large = "z".repeat(40_000);
    let found = distinct(&texts(&["a", &large, "b"])).unwrap();
    let batches: Vec<usize> = split(&found.texts, 64).iter().map(Vec::len).collect();
    assert_eq!(batches, [1, 1, 1]);
}
