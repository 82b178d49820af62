//! Argument validation, the SQL rewrite itself, dialect handling, name matching,
//! and the size caps at planning time.
use datafusion_jev::ast::{Arg, Arguments, Expr, Field, Function, Parsed, Statement};
use datafusion_jev::dialect::{hint, hint_for, Dialect};
use datafusion_jev::error::{PlanError, Problem};
use datafusion_jev::sql::{criteria, parse_batch_size, parse_call, string, Criterion, Question};
use datafusion_jev::udf::{
    call_config, config, datatype, is_text, return_field_from_args, Argument, CallError,
    Configuration, DataType,
};
use datafusion_jev::{rewrite, rewrite_statement};

fn text(s: &str) -> Expr {
    Expr::Text(s.to_owned())
}

fn array(labels: &[&str]) -> Expr {
    Expr::Array(labels.iter().map(|l| text(l)).collect())
}

fn dictionary(fields: Vec<(&str, Expr)>) -> Expr {
    Expr::Dictionary(
        fields.into_iter().map(|(key, value)| Field { key: key.to_owned(), value }).collect(),
    )
}

fn named(name: &str, value: Expr) -> Arg {
    Arg::Named { name: name.to_owned(), quoted: false, value }
}

fn call(args: Vec<Arg>) -> Function {
    Function {
        name: vec![Some("prompt_jev".to_owned())],
        filter: false,
        over: false,
        null_treatment: false,
        within_group: false,
        parameters: false,
        arguments: Arguments::List { duplicate_treatment: false, clauses: false, args },
    }
}

/// `prompt_jev('a', 'q', ...)`.
fn ask(options: Vec<Arg>) -> Function {
    let mut args = vec![Arg::Positional(text("a")), Arg::Positional(text("q"))];
    args.extend(options);
    call(args)
}

fn rewritten(f: Function) -> Result<Function, PlanError> {
    let mut statement = Statement { calls: vec![f] };
    rewrite_statement(&mut statement)?;
    Ok(statement.calls.remove(0))
}

fn question_of(f: &Function) -> &Question {
    match &f.arguments {
        Arguments::List { args, .. } => match &args[1] {
            Arg::Positional(Expr::Config(q)) => q,
            other => panic!("{other:?}"),
        },
        other => panic!("{other:?}"),
    }
}

fn message(f: Function) -> String {
    rewritten(f).err().unwrap().message()
}

#[test]
fn syntax_invalid_arguments_never_call_provider() {
    for (f, expected) in [
        (
            ask(vec![named("choice", array(&["a"]))]),
            "prompt_jev invalid criteria for choice",
        ),
        (
            ask(vec![named("choice", array(&["a", "a"]))]),
            "prompt_jev criteria require unique non-empty labels and non-empty descriptions",
        ),
        (
            ask(vec![named("choice", array(&["a", "b"])), named("score", array(&["x", "y"]))]),
            "choice, score, and noul are mutually exclusive",
        ),
        (
            ask(vec![named("batch_size", Expr::Number("0".to_owned()))]),
            "prompt_jev batch_size must be between 1 and 64",
        ),
        (
            ask(vec![named("batch_size", Expr::Number("65".to_owned()))]),
            "prompt_jev batch_size must be between 1 and 64",
        ),
        (
            call(vec![Arg::Positional(text("a")), Arg::Positional(Expr::Other(0))]),
            "prompt_jev expects a constant string",
        ),
        (
            ask(vec![named("choice", Expr::Other(0))]),
            "prompt_jev criteria must be a constant array",
        ),
        (
            ask(vec![named("noul", array(&["yes", "no"]))]),
            "prompt_jev invalid criteria for noul",
        ),
        (
            ask(vec![named("model", text("foo"))]),
            "unsupported prompt_jev argument: model",
        ),
        (
            ask(vec![named("noul", array(&[]))]),
            "explicit noul criteria require true and false",
        ),
    ] {
        assert_eq!(message(f), expected);
    }
    // `prompt_jev(42, 'q')`: the input is no text.
    let question = rewritten(ask(vec![])).unwrap();
    let configuration = Configuration::Read(question_of(&question).clone());
    let error = return_field_from_args(&vec![DataType::Other, DataType::Utf8], Some(configuration));
    assert_eq!(error.err().unwrap().message(), "prompt_jev input must be text");
}

#[test]
fn syntax_explain_does_not_run_inference() {
    let inner = Parsed::Statement(Statement { calls: vec![ask(vec![])] });
    let mut parsed = Parsed::Explain(Box::new(Parsed::Explain(Box::new(inner))));
    rewrite(&mut parsed).unwrap();
    match parsed {
        Parsed::Explain(outer) => match *outer {
            Parsed::Explain(inner) => match *inner {
                Parsed::Statement(s) => {
                    assert_eq!(s.calls[0].name, [Some("__datafusion_jev".to_owned())]);
                    assert_eq!(question_of(&s.calls[0]).instructions, "q");
                }
                other => panic!("{other:?}"),
            },
            other => panic!("{other:?}"),
        },
        other => panic!("{other:?}"),
    }
    let mut other = Parsed::Other;
    rewrite(&mut other).unwrap();
    assert!(matches!(other, Parsed::Other));
}

#[test]
fn the_query_of_a_copy_is_rewritten() {
    let copy = || Parsed::Copy(Statement { calls: vec![ask(vec![])] });
    let check = |parsed: Parsed| match parsed {
        Parsed::Copy(s) => {
            assert_eq!(s.calls[0].name, [Some("__datafusion_jev".to_owned())]);
            let q = question_of(&s.calls[0]);
            assert_eq!((q.instructions.as_str(), q.kind.as_str()), ("q", "noul"));
            assert_eq!((q.criteria.len(), q.batch_size), (0, 32));
        }
        other => panic!("{other:?}"),
    };
    let mut parsed = copy();
    rewrite(&mut parsed).unwrap();
    check(parsed);
    let mut parsed = Parsed::Explain(Box::new(copy()));
    rewrite(&mut parsed).unwrap();
    match parsed {
        Parsed::Explain(inner) => check(*inner),
        other => panic!("{other:?}"),
    }
    let faulty = ask(vec![named("model", text("m"))]);
    let mut parsed = Parsed::Copy(Statement { calls: vec![faulty] });
    assert!(rewrite(&mut parsed).is_err());
}

#[test]
fn strict_dialect_gets_a_clear_error() {
    let strict = Dialect::Other("postgresql".to_owned());
    let query = "SELECT prompt_jev('a','q', choice := ['x','y'])";
    let err = hint(&strict, query, "Parse error").unwrap();
    assert_eq!(
        err,
        "Parse error. prompt_jev syntax (':=' options and '{label: ...}' literals) requires \
         the generic (default) or duckdb SQL dialect; the session uses postgresql"
    );
    assert!(hint(&strict, "SELECT PROMPT_JEV('a')", "e").is_some());
    assert!(hint(&strict, "SELECT 1 +", "e").is_none());
    assert!(hint(&Dialect::Generic, query, "e").is_none());
    assert!(hint(&Dialect::DuckDb, query, "e").is_none());
    // The text may hold letters beyond ASCII.
    assert!(hint(&strict, "SELECT 'É', Prompt_JEV('a')", "e").is_some());
    assert!(hint_for(&strict, "a prompt_je v", "e").is_none());
}

#[test]
fn quoted_and_uppercase_names_are_the_same_function() {
    for name in ["prompt_jev", "PROMPT_JEV", "Prompt_Jev"] {
        let mut f = ask(vec![]);
        f.name = vec![Some(name.to_owned())];
        let f = rewritten(f).unwrap();
        assert_eq!(f.name, [Some("__datafusion_jev".to_owned())]);
        match &f.arguments {
            Arguments::List { args, .. } => {
                assert_eq!(args.len(), 2);
                assert!(matches!(&args[0], Arg::Positional(Expr::Text(t)) if t == "a"));
            }
            other => panic!("{other:?}"),
        }
    }
}

#[test]
fn other_functions_are_left_alone() {
    for name in [
        vec![Some("prompt_jevs".to_owned())],
        vec![Some("s".to_owned()), Some("prompt_jev".to_owned())],
        vec![None],
        vec![],
    ] {
        let mut f = ask(vec![named("nonsense", Expr::Null)]);
        f.name = name.clone();
        let f = rewritten(f).unwrap();
        assert_eq!(f.name, name);
        match &f.arguments {
            Arguments::List { args, .. } => assert_eq!(args.len(), 3),
            other => panic!("{other:?}"),
        }
    }
}

#[test]
fn oversized_instructions_and_labels_fail_at_plan_time() {
    let long_q = "q".repeat(5_000);
    let long_label = "L".repeat(300);
    let long_desc = "d".repeat(2_000);
    let described = Expr::Array(vec![
        dictionary(vec![("label", text("a")), ("description", text(&long_desc))]),
        text("b"),
    ]);
    for (f, needle) in [
        (
            call(vec![Arg::Positional(text("a")), Arg::Positional(text(&long_q))]),
            "4000 characters",
        ),
        (ask(vec![named("choice", array(&[&long_label, "b"]))]), "labels are limited"),
        (ask(vec![named("choice", described)]), "descriptions to 1024"),
    ] {
        let err = message(f);
        assert!(err.contains(needle), "{needle}: {err}");
    }
}

#[test]
fn sizes_are_counted_in_characters() {
    let q = |instructions: String| Question {
        instructions,
        kind: "noul".to_owned(),
        criteria: vec![],
        batch_size: 32,
    };
    assert!(q("é".repeat(4_000)).validate().is_ok());
    assert!(matches!(q("é".repeat(4_001)).validate(), Err(Problem::LongInstructions)));
    assert!(matches!(q(" \t\u{3000}".to_owned()).validate(), Err(Problem::EmptyInstructions)));
}

fn criteria_question(kind: &str, labels: Vec<String>) -> Question {
    Question {
        instructions: "q".to_owned(),
        kind: kind.to_owned(),
        criteria: labels
            .into_iter()
            .map(|label| Criterion { label, description: None })
            .collect(),
        batch_size: 1,
    }
}

#[test]
fn each_kind_takes_so_many_criteria() {
    let labels = |n: usize| (0..n).map(|i| format!("c{i}")).collect::<Vec<String>>();
    for (kind, n, valid) in [
        ("choice", 1, false),
        ("choice", 2, true),
        ("choice", 255, true),
        ("choice", 256, false),
        ("score", 1, false),
        ("score", 2, true),
        ("score", 10, true),
        ("score", 11, false),
        ("noul", 0, true),
        ("noul", 2, false),
        ("other", 2, false),
    ] {
        let q = criteria_question(kind, labels(n));
        match q.validate() {
            Ok(()) => assert!(valid, "{kind} {n}"),
            Err(Problem::BadCriteria(k)) => assert!(!valid && k == kind, "{kind} {n}"),
            Err(other) => panic!("{other:?}"),
        }
    }
    let both = |a: &str, b: &str| criteria_question("noul", vec![a.to_owned(), b.to_owned()]);
    assert!(both("true", "false").validate().is_ok());
    assert!(both("false", "true").validate().is_ok());
    assert!(both("true", "no").validate().is_err());
}

#[test]
fn blank_texts_are_refused() {
    let mut q = criteria_question("choice", vec!["a".to_owned(), " ".to_owned()]);
    assert!(matches!(q.validate(), Err(Problem::BadCriterion)));
    q.criteria[1] = Criterion { label: "b".to_owned(), description: Some("\n".to_owned()) };
    assert!(matches!(q.validate(), Err(Problem::BadCriterion)));
    q.criteria[1].description = Some("x".repeat(1_024));
    assert!(q.validate().is_ok());
    q.criteria[1].description = Some("x".repeat(1_025));
    assert!(matches!(q.validate(), Err(Problem::LongCriterion)));
    q.criteria[1] = Criterion { label: "l".repeat(257), description: None };
    assert!(matches!(q.validate(), Err(Problem::LongCriterion)));
}

#[test]
fn rewriting_twice_is_rewriting_once() {
    let mut statement = Statement { calls: vec![ask(vec![]), ask(vec![])] };
    rewrite_statement(&mut statement).unwrap();
    let once = format!("{statement:?}");
    rewrite_statement(&mut statement).unwrap();
    assert_eq!(format!("{statement:?}"), once);
}

#[test]
fn the_first_faulty_call_stops_the_rewrite() {
    let mut statement = Statement {
        calls: vec![
            ask(vec![]),
            ask(vec![named("model", text("m"))]),
            ask(vec![named("batch_size", Expr::Null)]),
        ],
    };
    let error = rewrite_statement(&mut statement).err().unwrap();
    assert_eq!(error.message(), "unsupported prompt_jev argument: model");
    assert_eq!(statement.calls[0].name, [Some("__datafusion_jev".to_owned())]);
    assert_eq!(statement.calls[1].name, [Some("prompt_jev".to_owned())]);
    assert_eq!(statement.calls[2].name, [Some("prompt_jev".to_owned())]);
}

#[test]
fn options_are_read() {
    let levels = Expr::Array(vec![
        text("low"),
        dictionary(vec![("description", Expr::Null), ("label", text("mid"))]),
        dictionary(vec![("label", text("high")), ("description", text("worst"))]),
    ]);
    let f = ask(vec![named("SCORE", levels), named("Batch_Size", Expr::Number("8".to_owned()))]);
    let (input, q) = parse_call(&f).unwrap();
    assert!(matches!(input, Expr::Text(t) if t == "a"));
    assert_eq!(q.kind, "score");
    assert_eq!(q.batch_size, 8);
    assert_eq!(
        q.criteria,
        [
            Criterion { label: "low".to_owned(), description: None },
            Criterion { label: "mid".to_owned(), description: None },
            Criterion { label: "high".to_owned(), description: Some("worst".to_owned()) },
        ]
    );
    // The order of the options does not matter.
    let choice = || named("choice", array(&["a", "b"]));
    let size = || named("batch_size", Expr::Number("3".to_owned()));
    let (x, y) = (ask(vec![choice(), size()]), ask(vec![size(), choice()]));
    assert_eq!(parse_call(&x).unwrap().1, parse_call(&y).unwrap().1);
    let f = ask(vec![]);
    let (_, plain) = parse_call(&f).unwrap();
    assert_eq!((plain.kind.as_str(), plain.batch_size), ("noul", 32));
    // A quoted name is taken as it stands.
    let quoted = Arg::Named { name: "Choice".to_owned(), quoted: true, value: array(&["a", "b"]) };
    assert_eq!(message(ask(vec![quoted])), "unsupported prompt_jev argument: Choice");
}

#[test]
fn each_fault_of_a_call_is_told_apart() {
    let twice = || {
        vec![
            named("batch_size", Expr::Number("1".to_owned())),
            named("BATCH_SIZE", Expr::Number("2".to_owned())),
        ]
    };
    assert_eq!(message(ask(twice())), "duplicate prompt_jev argument: batch_size");
    assert_eq!(
        message(ask(vec![named("batch_size", text("8"))])),
        "batch_size must be a constant integer"
    );
    let order = "prompt_jev requires two positional arguments followed by named options";
    let late = vec![named("batch_size", Expr::Number("1".to_owned())), Arg::Positional(text("x"))];
    assert_eq!(message(ask(late)), order);
    assert_eq!(message(ask(vec![Arg::Other])), order);
    let count = "prompt_jev requires input and constant instructions";
    assert_eq!(message(call(vec![Arg::Positional(text("a"))])), count);
    assert_eq!(message(ask(vec![Arg::Positional(text("b"))])), count);
    for arguments in [Arguments::Absent, Arguments::Subquery] {
        let mut f = ask(vec![]);
        f.arguments = arguments;
        assert_eq!(message(f), "prompt_jev requires input and instructions");
    }
    for (duplicate_treatment, clauses) in [(true, false), (false, true)] {
        let mut f = ask(vec![]);
        f.arguments = Arguments::List { duplicate_treatment, clauses, args: vec![] };
        assert_eq!(message(f), "invalid prompt_jev modifiers");
    }
    for i in 0..5 {
        let mut f = ask(vec![]);
        f.filter = i == 0;
        f.over = i == 1;
        f.null_treatment = i == 2;
        f.within_group = i == 3;
        f.parameters = i == 4;
        assert_eq!(message(f), "prompt_jev does not accept aggregate/window modifiers");
    }
}

#[test]
fn each_fault_of_a_criterion_is_told_apart() {
    let fault = |fields| criteria(&Expr::Array(vec![dictionary(fields)])).err().unwrap().message();
    assert_eq!(
        fault(vec![("label", text("a")), ("label", text("b"))]),
        "duplicate criterion field"
    );
    assert_eq!(
        fault(vec![("description", Expr::Null), ("description", text("b"))]),
        "duplicate criterion field"
    );
    assert_eq!(fault(vec![("weight", text("a"))]), "unknown criterion field: weight");
    assert_eq!(fault(vec![("description", text("a"))]), "criterion requires label");
    assert_eq!(fault(vec![("label", Expr::Null)]), "prompt_jev expects a constant string");
    assert!(matches!(
        criteria(&Expr::Array(vec![Expr::Number("1".to_owned())])),
        Err(Problem::NotString)
    ));
    assert!(matches!(criteria(&text("a")), Err(Problem::NotArray)));
}

#[test]
fn literals_are_read() {
    assert_eq!(string(&text("it's")).unwrap(), "it's");
    assert!(matches!(string(&Expr::Null), Err(Problem::NotString)));
    for (spelled, expected) in [
        ("0", Some(0)),
        ("64", Some(64)),
        ("+7", Some(7)),
        ("007", Some(7)),
        ("", None),
        ("1.0", None),
        ("-1", None),
        ("99999999999999999999999", None),
    ] {
        let read = parse_batch_size(&Expr::Number(spelled.to_owned())).ok();
        assert_eq!(read, expected, "{spelled}");
        assert_eq!(read, spelled.parse::<usize>().ok(), "{spelled}");
    }
}

#[test]
fn configurations_are_checked_when_they_are_read_back() {
    let q = criteria_question("choice", vec!["a".to_owned(), "b".to_owned()]);
    assert_eq!(config(Configuration::Read(q.clone())).unwrap(), q);
    let bad = criteria_question("choice", vec!["a".to_owned()]);
    assert!(matches!(config(Configuration::Read(bad)), Err(Problem::BadCriteria(_))));
    assert_eq!(
        config(Configuration::NotText).err().unwrap().message(),
        "prompt_jev configuration must be constant"
    );
    assert_eq!(
        config(Configuration::Malformed).err().unwrap().message(),
        "invalid prompt_jev configuration"
    );
    assert!(matches!(
        call_config(Argument::Column),
        Err(CallError::Exec(e)) if e.message() == "prompt_jev configuration must be scalar"
    ));
    assert!(matches!(
        call_config(Argument::Constant(Configuration::Malformed)),
        Err(CallError::Plan(Problem::BadConfiguration))
    ));
    assert_eq!(call_config(Argument::Constant(Configuration::Read(q.clone()))).unwrap(), q);
}

#[test]
fn text_types_are_accepted() {
    for t in [DataType::Utf8, DataType::Utf8View, DataType::LargeUtf8, DataType::Null] {
        assert!(is_text(&t));
    }
    assert!(is_text(&DataType::Dictionary(Box::new(DataType::Utf8))));
    assert!(is_text(&DataType::Dictionary(Box::new(DataType::LargeUtf8))));
    assert!(!is_text(&DataType::Dictionary(Box::new(DataType::Null))));
    assert!(!is_text(&DataType::Float64));
    assert!(!is_text(&DataType::Other));
}

#[test]
fn result_types_follow_the_kind() {
    assert!(matches!(datatype(&criteria_question("noul", vec![])), DataType::Float64));
    for (kind, decision, parts) in [
        ("choice", DataType::Utf8, vec!["value", "probability"]),
        ("score", DataType::Float64, vec!["index", "value", "probability"]),
    ] {
        let q = criteria_question(kind, vec!["a".to_owned(), "b".to_owned()]);
        let read = return_field_from_args(
            &vec![DataType::Utf8View, DataType::Utf8],
            Some(Configuration::Read(q)),
        );
        let field = read.unwrap();
        assert_eq!((field.name.as_str(), field.nullable), ("__datafusion_jev", true));
        let fields = match field.data_type {
            DataType::Struct(fields) => fields,
            other => panic!("{other:?}"),
        };
        let names: Vec<&str> = fields.iter().map(|f| f.name.as_str()).collect();
        assert_eq!(names, [kind, "probabilities", "confidence"]);
        assert!(fields.iter().all(|f| f.nullable));
        assert_eq!(format!("{:?}", fields[0].data_type), format!("{decision:?}"));
        let item = match &fields[1].data_type {
            DataType::List(item) => item,
            other => panic!("{other:?}"),
        };
        assert_eq!((item.name.as_str(), item.nullable), ("item", true));
        let entry = match &item.data_type {
            DataType::Struct(entry) => entry,
            other => panic!("{other:?}"),
        };
        let names: Vec<&str> = entry.iter().map(|f| f.name.as_str()).collect();
        assert_eq!(names, parts);
        assert!(entry.iter().all(|f| !f.nullable));
    }
    let constant = || Some(Configuration::NotText);
    assert!(matches!(return_field_from_args(&vec![DataType::Utf8], constant()), Err(Problem::NotText)));
    assert!(matches!(
        return_field_from_args(&vec![DataType::Utf8, DataType::Utf8], None),
        Err(Problem::NotConstant)
    ));
}
