//! Requests: the question and the rows as the service expects them.
use crate::error::{ExecError, Failure};
use crate::json::{
    all_contents, array_value, contents, empty_object, entries, insert, member, object_value,
    text_value, to_vec, written_size, Json,
};
use crate::sql::{CriterionView, Question, QuestionView};
use crate::text::{decimal, decimal_injective, decimal_text, same_text};
use vstd::prelude::*;
use vstd::string::*;

verus! {

/// A text to ask about, and the place of its answer.
#[derive(Debug)]
pub struct Row {
    pub place: usize,
    pub text: String,
}

/// The most bytes of a request.
pub const MAX_REQUEST_BYTES: usize = 262_144;

/// A level of a score: its label, and its description if it has one. The service
/// knows no form of level that has a label of its own, so the label goes with the
/// text.
pub open spec fn level_text(c: CriterionView) -> Seq<char> {
    match c.description {
        Some(d) => c.label + ": "@ + d,
        None => c.label,
    }
}

/// What the service is told of a criterion that is found by its label.
pub open spec fn option_text(c: CriterionView) -> Seq<char> {
    match c.description {
        Some(d) => d,
        None => c.label,
    }
}

/// The levels of a score, in order.
pub open spec fn levels_json(criteria: Seq<CriterionView>) -> Json {
    Json::Array(criteria.map_values(|c: CriterionView| Json::Text(level_text(c))))
}

/// The options, by their labels.
pub open spec fn options(criteria: Seq<CriterionView>) -> Map<Seq<char>, Json>
    decreases criteria.len(),
{
    if criteria.len() == 0 {
        Map::empty()
    } else {
        options(criteria.drop_last()).insert(
            criteria.last().label,
            Json::Text(option_text(criteria.last())),
        )
    }
}

/// The criteria as the service expects them.
pub open spec fn criteria_json(q: QuestionView) -> Json {
    if q.kind == "score"@ {
        levels_json(q.criteria)
    } else {
        Json::Object(options(q.criteria))
    }
}

/// The question with these instructions.
pub open spec fn asked(q: QuestionView, instructions: Json) -> Map<Seq<char>, Json> {
    let m = map!["type"@ => Json::Text(q.kind), "instructions"@ => instructions];
    if q.criteria.len() == 0 {
        m
    } else {
        m.insert("criteria"@, criteria_json(q))
    }
}

/// The question as the service expects it.
pub open spec fn question_of(q: QuestionView) -> Json {
    Json::Object(asked(q, Json::Text(q.instructions)))
}

/// The name of a row in a request and in its response.
pub open spec fn row_key(i: nat) -> Seq<char> {
    "row_"@ + decimal(i)
}

/// The instructions for one row among several.
pub open spec fn scoped_instructions(q: QuestionView, i: nat) -> Json {
    Json::Object(
        map![
            "question"@ => Json::Text(q.instructions),
            "scope"@ => Json::Text(
                "Evaluate only the text in state."@ + row_key(i)
                    + ". Other rows are unrelated inputs."@,
            ),
        ],
    )
}

/// The question about one row among several.
pub open spec fn scoped_question(q: QuestionView, i: nat) -> Json {
    Json::Object(asked(q, scoped_instructions(q, i)))
}

/// The texts of the rows.
pub open spec fn texts_of(rows: Seq<Row>) -> Seq<Seq<char>> {
    rows.map_values(|r: Row| r.text@)
}

/// The texts by the names of their rows.
pub open spec fn state_of(texts: Seq<Seq<char>>) -> Map<Seq<char>, Json>
    decreases texts.len(),
{
    if texts.len() == 0 {
        Map::empty()
    } else {
        state_of(texts.drop_last()).insert(
            row_key((texts.len() - 1) as nat),
            Json::Text(texts.last()),
        )
    }
}

/// The question about each of `n` rows, by the names of the rows.
pub open spec fn questions_of(q: QuestionView, n: nat) -> Map<Seq<char>, Json>
    decreases n,
{
    if n == 0 {
        Map::empty()
    } else {
        questions_of(q, (n - 1) as nat).insert(
            row_key((n - 1) as nat),
            scoped_question(q, (n - 1) as nat),
        )
    }
}

/// A request with this state and these questions.
pub open spec fn request_of(state: Json, questions: Json) -> Json {
    Json::Object(
        map![
            "model"@ => Json::Text("jev-latest"@),
            "state"@ => state,
            "questions"@ => questions,
        ],
    )
}

/// The request for these texts. A single text is the whole state.
pub open spec fn body_of(q: QuestionView, texts: Seq<Seq<char>>) -> Json {
    if texts.len() == 1 {
        request_of(
            Json::Text(texts[0]),
            Json::Object(map![row_key(0) => question_of(q)]),
        )
    } else {
        request_of(
            Json::Object(state_of(texts)),
            Json::Object(questions_of(q, texts.len())),
        )
    }
}

/// `a` followed by `b` and `c`.
fn joined(a: &str, b: &str, c: &str) -> (r: String)
    ensures
        r@ == a@ + b@ + c@,
{
    let mut r = a.to_owned();
    r.append(b);
    r.append(c);
    r
}

/// The criteria as the service expects them.
fn criteria_value(q: &Question) -> (r: serde_json::Value)
    ensures
        contents(r) == criteria_json(q@),
{
    let ghost views = q@.criteria;
    let mut i: usize = 0;
    if same_text(q.kind.as_str(), "score") {
        let ghost want = views.map_values(|c: CriterionView| Json::Text(level_text(c)));
        let mut levels: Vec<serde_json::Value> = Vec::new();
        while i < q.criteria.len()
            invariant
                views == q@.criteria,
                want == views.map_values(|c: CriterionView| Json::Text(level_text(c))),
                i <= q.criteria.len(),
                all_contents(levels@) == want.take(i as int),
            decreases q.criteria.len() - i,
        {
            let c = &q.criteria[i];
            let level = match &c.description {
                Some(d) => text_value(joined(c.label.as_str(), ": ", d.as_str()).as_str()),
                None => text_value(c.label.as_str()),
            };
            let ghost before = levels@;
            levels.push(level);
            proof {
                assert(views[i as int] == c@);
                assert(all_contents(levels@) == all_contents(before).push(contents(level)));
                assert(want.take(i + 1) == want.take(i as int).push(want[i as int]));
            }
            i = i + 1;
        }
        proof {
            assert(want.take(i as int) == want);
        }
        array_value(levels)
    } else {
        let mut object = empty_object();
        proof {
            assert(views.take(0).len() == 0);
        }
        while i < q.criteria.len()
            invariant
                views == q@.criteria,
                i <= q.criteria.len(),
                entries(object) == options(views.take(i as int)),
            decreases q.criteria.len() - i,
        {
            let c = &q.criteria[i];
            let value = match &c.description {
                Some(d) => text_value(d.as_str()),
                None => text_value(c.label.as_str()),
            };
            insert(&mut object, c.label.clone(), value);
            proof {
                assert(views[i as int] == c@);
                assert(views.take(i + 1).drop_last() == views.take(i as int));
            }
            i = i + 1;
        }
        proof {
            assert(views.take(i as int) == views);
        }
        object_value(object)
    }
}

/// The question with these instructions.
fn asked_value(q: &Question, instructions: serde_json::Value) -> (r: serde_json::Value)
    ensures
        contents(r) == Json::Object(asked(q@, contents(instructions))),
{
    let mut object = empty_object();
    insert(&mut object, "type".to_owned(), text_value(q.kind.as_str()));
    insert(&mut object, "instructions".to_owned(), instructions);
    proof {
        assert(q@.criteria.len() == q.criteria@.len());
    }
    if q.criteria.len() > 0 {
        insert(&mut object, "criteria".to_owned(), criteria_value(q));
    }
    object_value(object)
}

/// The question as the service expects it.
pub fn question_json(q: &Question) -> (r: serde_json::Value)
    ensures
        contents(r) == question_of(q@),
{
    asked_value(q, text_value(q.instructions.as_str()))
}

/// The name of a row.
pub(crate) fn row_name(i: usize) -> (r: String)
    ensures
        r@ == row_key(i as nat),
{
    let mut r = "row_".to_owned();
    r.append(decimal_text(i).as_str());
    r
}

/// The question about one row among several.
fn scoped_value(q: &Question, i: usize) -> (r: serde_json::Value)
    ensures
        contents(r) == scoped_question(q@, i as nat),
{
    let name = row_name(i);
    let scope = joined(
        "Evaluate only the text in state.",
        name.as_str(),
        ". Other rows are unrelated inputs.",
    );
    let mut instructions = empty_object();
    insert(&mut instructions, "question".to_owned(), text_value(q.instructions.as_str()));
    insert(&mut instructions, "scope".to_owned(), text_value(scope.as_str()));
    asked_value(q, object_value(instructions))
}

/// The request for these rows.
pub fn request_body(q: &Question, rows: &Vec<Row>) -> (r: serde_json::Value)
    ensures
        contents(r) == body_of(q@, texts_of(rows@)),
{
    let ghost texts = texts_of(rows@);
    let mut questions = empty_object();
    let state = if rows.len() == 1 {
        insert(&mut questions, row_name(0), question_json(q));
        text_value(rows[0].text.as_str())
    } else {
        let mut state = empty_object();
        let mut i: usize = 0;
        proof {
            assert(texts.take(0).len() == 0);
        }
        while i < rows.len()
            invariant
                texts == texts_of(rows@),
                i <= rows.len(),
                entries(state) == state_of(texts.take(i as int)),
                entries(questions) == questions_of(q@, i as nat),
            decreases rows.len() - i,
        {
            insert(&mut state, row_name(i), text_value(rows[i].text.as_str()));
            insert(&mut questions, row_name(i), scoped_value(q, i));
            proof {
                assert(texts.take(i + 1).drop_last() == texts.take(i as int));
                assert(texts.take(i + 1).last() == texts[i as int]);
            }
            i = i + 1;
        }
        proof {
            assert(texts.take(i as int) == texts);
        }
        object_value(state)
    };
    let mut body = empty_object();
    insert(&mut body, "model".to_owned(), text_value("jev-latest"));
    insert(&mut body, "state".to_owned(), state);
    insert(&mut body, "questions".to_owned(), object_value(questions));
    object_value(body)
}

/// What a request of this many rows and bytes fails with, if it is too large.
pub open spec fn size_problem(rows: nat, bytes: nat) -> Option<Failure<Seq<char>>> {
    if bytes <= MAX_REQUEST_BYTES {
        None
    } else if rows > 1 {
        Some(Failure::LargeBatch)
    } else {
        Some(Failure::LargeRow)
    }
}

/// Check the size of a request. This is a backstop only: rows are already split
/// by encoded size, so a single row cannot reach the limit through its own length.
pub fn check_size(rows: usize, bytes: usize) -> (r: Result<(), ExecError>)
    ensures
        match size_problem(rows as nat, bytes as nat) {
            Some(p) => r is Err && r->Err_0@ == p,
            None => r is Ok,
        },
{
    if bytes <= MAX_REQUEST_BYTES {
        Ok(())
    } else if rows > 1 {
        Err(Failure::LargeBatch)
    } else {
        Err(Failure::LargeRow)
    }
}

/// What comes of a request for these texts: the request, or that it is too large.
pub open spec fn request_outcome(q: QuestionView, texts: Seq<Seq<char>>) -> Result<
    Json,
    Failure<Seq<char>>,
> {
    let body = body_of(q, texts);
    match size_problem(texts.len(), written_size(body)) {
        Some(p) => Err(p),
        None => Ok(body),
    }
}

/// The request for these rows, unless it is too large.
pub fn request(q: &Question, rows: &Vec<Row>) -> (r: Result<serde_json::Value, ExecError>)
    ensures
        ({
            let body = body_of(q@, texts_of(rows@));
            match size_problem(rows@.len(), written_size(body)) {
                Some(p) => r is Err && r->Err_0@ == p,
                None => r is Ok && contents(r->Ok_0) == body,
            }
        }),
        match request_outcome(q@, texts_of(rows@)) {
            Ok(body) => r is Ok && contents(r->Ok_0) == body,
            Err(p) => r is Err && r->Err_0@ == p,
        },
{
    let body = request_body(q, rows);
    match to_vec(&body) {
        Ok(bytes) => match check_size(rows.len(), bytes.len()) {
            Ok(_) => Ok(body),
            Err(e) => Err(e),
        },
        Err(_) => Err(Failure::InvalidRequest),
    }
}

/// No two rows have the same name.
pub proof fn row_keys_differ(i: nat, j: nat)
    requires
        row_key(i) == row_key(j),
    ensures
        i == j,
{
    reveal_strlit("row_");
    assert(decimal(i) =~= row_key(i).skip(4));
    assert(decimal(j) =~= row_key(j).skip(4));
    decimal_injective(i, j);
}

proof fn lemma_state(texts: Seq<Seq<char>>, i: int)
    requires
        0 <= i < texts.len(),
    ensures
        state_of(texts).contains_key(row_key(i as nat)),
        state_of(texts)[row_key(i as nat)] == Json::Text(texts[i]),
    decreases texts.len(),
{
    if i < texts.len() - 1 {
        lemma_state(texts.drop_last(), i);
        if row_key(i as nat) == row_key((texts.len() - 1) as nat) {
            row_keys_differ(i as nat, (texts.len() - 1) as nat);
        }
    }
}

proof fn lemma_questions(q: QuestionView, n: nat, i: nat)
    requires
        i < n,
    ensures
        questions_of(q, n).contains_key(row_key(i)),
        questions_of(q, n)[row_key(i)] == scoped_question(q, i),
    decreases n,
{
    if i < n - 1 {
        lemma_questions(q, (n - 1) as nat, i);
        if row_key(i) == row_key((n - 1) as nat) {
            row_keys_differ(i, (n - 1) as nat);
        }
    }
}

/// A member of a request.
proof fn lemma_request(state: Json, questions: Json)
    ensures
        member(request_of(state, questions), "state"@) == state,
        member(request_of(state, questions), "questions"@) == questions,
{
    reveal_strlit("model");
    reveal_strlit("state");
    reveal_strlit("questions");
    assert("state"@[0] == 's' && "questions"@[0] == 'q' && "model"@[0] == 'm');
}

/// A single text is the whole state, and the question is asked as it stands.
pub proof fn a_single_row_is_the_state(q: QuestionView, text: Seq<char>)
    ensures
        ({
            let body = body_of(q, seq![text]);
            &&& member(body, "state"@) == Json::Text(text)
            &&& member(member(body, "questions"@), row_key(0)) == question_of(q)
        }),
{
    lemma_request(Json::Text(text), Json::Object(map![row_key(0) => question_of(q)]));
}

/// Each of several texts has a row of its own, and a question that names it.
pub proof fn each_row_is_asked_about(q: QuestionView, texts: Seq<Seq<char>>, i: int)
    requires
        texts.len() != 1,
        0 <= i < texts.len(),
    ensures
        ({
            let body = body_of(q, texts);
            &&& member(member(body, "state"@), row_key(i as nat)) == Json::Text(texts[i])
            &&& member(member(body, "questions"@), row_key(i as nat)) == scoped_question(
                q,
                i as nat,
            )
        }),
{
    lemma_request(Json::Object(state_of(texts)), Json::Object(questions_of(q, texts.len())));
    lemma_state(texts, i);
    lemma_questions(q, texts.len(), i as nat);
}

/// No question is asked but about the rows.
pub proof fn only_rows_are_asked_about(q: QuestionView, n: nat, key: Seq<char>)
    requires
        questions_of(q, n).contains_key(key),
    ensures
        exists|i: nat| i < n && key == #[trigger] row_key(i),
    decreases n,
{
    if n > 0 {
        if key == row_key((n - 1) as nat) {
            let i: nat = (n - 1) as nat;
            assert(i < n && key == row_key(i));
        } else {
            only_rows_are_asked_about(q, (n - 1) as nat, key);
        }
    }
}

/// Every label reaches the service: a level of a score begins with its label.
pub proof fn levels_carry_their_labels(c: CriterionView)
    ensures
        c.label.is_prefix_of(level_text(c)),
{
    match c.description {
        Some(d) => {
            assert(level_text(c).subrange(0, c.label.len() as int) =~= c.label);
        },
        None => {
            assert(level_text(c).subrange(0, c.label.len() as int) =~= c.label);
        },
    }
}

/// Every label reaches the service: an option is found by its label, and nothing
/// else is found.
pub proof fn options_are_found_by_label(criteria: Seq<CriterionView>, i: int)
    requires
        0 <= i < criteria.len(),
        forall|j: int, k: int|
            0 <= j < k < criteria.len() ==> (#[trigger] criteria[j]).label != (
            #[trigger] criteria[k]).label,
    ensures
        options(criteria).contains_key(criteria[i].label),
        options(criteria)[criteria[i].label] == Json::Text(option_text(criteria[i])),
        options(criteria).dom().len() == criteria.len(),
    decreases criteria.len(),
{
    let front = criteria.drop_last();
    lemma_options_count(criteria);
    if i < criteria.len() - 1 {
        options_are_found_by_label(front, i);
        assert(criteria[i].label != criteria[criteria.len() - 1].label);
    }
}

proof fn lemma_options_count(criteria: Seq<CriterionView>)
    requires
        forall|j: int, k: int|
            0 <= j < k < criteria.len() ==> (#[trigger] criteria[j]).label != (
            #[trigger] criteria[k]).label,
    ensures
        options(criteria).dom().finite(),
        options(criteria).dom().len() == criteria.len(),
        forall|label: Seq<char>|
            #[trigger] options(criteria).contains_key(label) ==> exists|i: int|
                0 <= i < criteria.len() && (#[trigger] criteria[i]).label == label,
    decreases criteria.len(),
{
    if criteria.len() > 0 {
        let front = criteria.drop_last();
        let last = criteria.last();
        lemma_options_count(front);
        if options(front).contains_key(last.label) {
            let i = choose|i: int| 0 <= i < front.len() && (#[trigger] front[i]).label == last.label;
            assert(criteria[i].label != criteria[criteria.len() - 1].label);
        }
        assert(options(criteria).dom() =~= options(front).dom().insert(last.label));
        assert forall|label: Seq<char>| #[trigger] options(criteria).contains_key(
            label,
        ) implies exists|i: int|
            0 <= i < criteria.len() && (#[trigger] criteria[i]).label == label by {
            if label == last.label {
                assert(criteria[criteria.len() - 1].label == label);
            } else {
                assert(options(front).contains_key(label));
                let i = choose|i: int| 0 <= i < front.len() && (#[trigger] front[i]).label == label;
                assert(criteria[i].label == label);
            }
        }
    }
}

/// The service is told every criterion: the levels of a score in their order, each
/// by its label and its description; else the options, each found by its label.
/// Where a label stands twice, the later criterion is the one that is found.
pub open spec fn tells_criteria(q: QuestionView, json: Json) -> bool {
    if q.kind == "score"@ {
        &&& json is Array
        &&& json->Array_0.len() == q.criteria.len()
        &&& forall|i: int|
            0 <= i < q.criteria.len() ==> #[trigger] json->Array_0[i] == Json::Text(
                match q.criteria[i].description {
                    Some(d) => q.criteria[i].label + ": "@ + d,
                    None => q.criteria[i].label,
                },
            )
    } else {
        &&& json is Object
        &&& forall|key: Seq<char>|
            #[trigger] json->Object_0.contains_key(key) <==> exists|i: int|
                0 <= i < q.criteria.len() && (#[trigger] q.criteria[i]).label == key
        &&& forall|i: int|
            0 <= i < q.criteria.len() && (forall|j: int|
                i < j < q.criteria.len() ==> (#[trigger] q.criteria[j]).label
                    != q.criteria[i].label) ==> member(json, (#[trigger] q.criteria[i]).label)
                == Json::Text(
                match q.criteria[i].description {
                    Some(d) => d,
                    None => q.criteria[i].label,
                },
            )
    }
}

/// The value poses the whole question, with these instructions and nothing more.
pub open spec fn poses(q: QuestionView, json: Json, instructions: Json) -> bool {
    &&& json is Object
    &&& forall|key: Seq<char>|
        #[trigger] json->Object_0.contains_key(key) <==> key == "type"@ || key == "instructions"@
            || key == "criteria"@ && q.criteria.len() > 0
    &&& member(json, "type"@) == Json::Text(q.kind)
    &&& member(json, "instructions"@) == instructions
    &&& q.criteria.len() > 0 ==> tells_criteria(q, member(json, "criteria"@))
}

/// The instructions name row `i` as the only one to look at, and say what is asked.
pub open spec fn names_row(q: QuestionView, json: Json, i: nat) -> bool {
    &&& json is Object
    &&& forall|key: Seq<char>|
        #[trigger] json->Object_0.contains_key(key) <==> key == "question"@ || key == "scope"@
    &&& member(json, "question"@) == Json::Text(q.instructions)
    &&& member(json, "scope"@) == Json::Text(
        "Evaluate only the text in state."@ + ("row_"@ + decimal(i))
            + ". Other rows are unrelated inputs."@,
    )
}

proof fn lemma_options(criteria: Seq<CriterionView>)
    ensures
        forall|key: Seq<char>|
            #[trigger] options(criteria).contains_key(key) <==> exists|i: int|
                0 <= i < criteria.len() && (#[trigger] criteria[i]).label == key,
        forall|i: int|
            0 <= i < criteria.len() && (forall|j: int|
                i < j < criteria.len() ==> (#[trigger] criteria[j]).label != criteria[i].label)
                ==> options(criteria)[(#[trigger] criteria[i]).label] == Json::Text(
                option_text(criteria[i]),
            ),
    decreases criteria.len(),
{
    if criteria.len() > 0 {
        let front = criteria.drop_last();
        let last = criteria.last();
        let n = criteria.len() - 1;
        lemma_options(front);
        assert(criteria[n] == last);
        assert forall|key: Seq<char>|
            #[trigger] options(criteria).contains_key(key) <==> exists|i: int|
                0 <= i < criteria.len() && (#[trigger] criteria[i]).label == key by {
            if options(criteria).contains_key(key) && key != last.label {
                assert(options(front).contains_key(key));
                let i = choose|i: int| 0 <= i < front.len() && (#[trigger] front[i]).label == key;
                assert(criteria[i].label == key);
            }
            if exists|i: int| 0 <= i < criteria.len() && (#[trigger] criteria[i]).label == key {
                let i = choose|i: int|
                    0 <= i < criteria.len() && (#[trigger] criteria[i]).label == key;
                if i < n {
                    assert(front[i].label == key);
                    assert(options(front).contains_key(key));
                }
            }
        }
        assert forall|i: int|
            0 <= i < criteria.len() && (forall|j: int|
                i < j < criteria.len() ==> (#[trigger] criteria[j]).label
                    != criteria[i].label) implies options(criteria)[(
        #[trigger] criteria[i]).label] == Json::Text(option_text(criteria[i])) by {
            if i < n {
                assert(front[i] == criteria[i]);
                assert(criteria[n].label != criteria[i].label);
                assert forall|j: int| i < j < front.len() implies (#[trigger] front[j]).label
                    != front[i].label by {
                    assert(front[j] == criteria[j]);
                }
            }
        }
    }
}

proof fn lemma_poses(q: QuestionView, instructions: Json)
    ensures
        poses(q, Json::Object(asked(q, instructions)), instructions),
{
    reveal_strlit("type");
    reveal_strlit("instructions");
    reveal_strlit("criteria");
    assert("type"@.len() == 4 && "instructions"@.len() == 12 && "criteria"@.len() == 8);
    lemma_options(q.criteria);
    if q.kind != "score"@ {
        assert forall|i: int|
            0 <= i < q.criteria.len() && (forall|j: int|
                i < j < q.criteria.len() ==> (#[trigger] q.criteria[j]).label
                    != q.criteria[i].label) implies member(
            Json::Object(options(q.criteria)),
            (#[trigger] q.criteria[i]).label,
        ) == Json::Text(
            match q.criteria[i].description {
                Some(d) => d,
                None => q.criteria[i].label,
            },
        ) by {
            assert(options(q.criteria).contains_key(q.criteria[i].label));
        }
    }
}

/// A question is posed whole: its kind, its instructions and, if it has any, all
/// of its criteria. So it is where it is asked about one row among several: its
/// instructions then name that row.
pub proof fn questions_are_posed_whole(q: QuestionView, i: nat)
    ensures
        poses(q, question_of(q), Json::Text(q.instructions)),
        poses(q, scoped_question(q, i), member(scoped_question(q, i), "instructions"@)),
        names_row(q, member(scoped_question(q, i), "instructions"@), i),
{
    lemma_poses(q, Json::Text(q.instructions));
    lemma_poses(q, scoped_instructions(q, i));
    reveal_strlit("question");
    reveal_strlit("scope");
    assert("question"@.len() == 8 && "scope"@.len() == 5);
}

/// To ask about one row among several changes the instructions and nothing else.
pub proof fn scoping_changes_only_the_instructions(q: QuestionView, i: nat, key: Seq<char>)
    requires
        key != "instructions"@,
    ensures
        member(scoped_question(q, i), key) == member(question_of(q), key),
        scoped_question(q, i)->Object_0.contains_key(key)
            == question_of(q)->Object_0.contains_key(key),
{
}

/// The value has a member for each of `n` rows and no other.
pub open spec fn has_rows(json: Json, n: nat) -> bool {
    &&& json is Object
    &&& forall|key: Seq<char>|
        #[trigger] json->Object_0.contains_key(key) <==> exists|i: nat|
            i < n && key == "row_"@ + #[trigger] decimal(i)
}

/// A request says which model answers, what it looks at and what is asked. A
/// single text is looked at as it is. Of several, each is found under the name of
/// its row, and the question about the row has the same name.
pub open spec fn sends(q: QuestionView, texts: Seq<Seq<char>>, json: Json) -> bool {
    let state = member(json, "state"@);
    let questions = member(json, "questions"@);
    &&& json is Object
    &&& forall|key: Seq<char>|
        #[trigger] json->Object_0.contains_key(key) <==> key == "model"@ || key == "state"@ || key
            == "questions"@
    &&& member(json, "model"@) == Json::Text("jev-latest"@)
    &&& has_rows(questions, texts.len())
    &&& if texts.len() == 1 {
        &&& state == Json::Text(texts[0])
        &&& poses(q, member(questions, "row_"@ + decimal(0)), Json::Text(q.instructions))
    } else {
        &&& has_rows(state, texts.len())
        &&& forall|i: int|
            0 <= i < texts.len() ==> {
                let key = "row_"@ + #[trigger] decimal(i as nat);
                let question = member(questions, key);
                &&& member(state, key) == Json::Text(texts[i])
                &&& poses(q, question, member(question, "instructions"@))
                &&& names_row(q, member(question, "instructions"@), i as nat)
            }
    }
}

proof fn lemma_rows(q: QuestionView, texts: Seq<Seq<char>>, n: nat)
    requires
        n == texts.len(),
    ensures
        has_rows(Json::Object(state_of(texts)), n),
        has_rows(Json::Object(questions_of(q, n)), n),
    decreases n,
{
    if n > 0 {
        let last: nat = (n - 1) as nat;
        lemma_rows(q, texts.drop_last(), last);
        let before = Json::Object(state_of(texts.drop_last()));
        let asked_before = Json::Object(questions_of(q, last));
        assert forall|key: Seq<char>|
            (#[trigger] state_of(texts).contains_key(key) <==> exists|i: nat|
                i < n && key == "row_"@ + #[trigger] decimal(i)) && (questions_of(
                q,
                n,
            ).contains_key(key) <==> state_of(texts).contains_key(key)) by {
            assert(before->Object_0.contains_key(key) <==> exists|i: nat|
                i < last && key == "row_"@ + #[trigger] decimal(i));
            assert(asked_before->Object_0.contains_key(key) <==> exists|i: nat|
                i < last && key == "row_"@ + #[trigger] decimal(i));
            if key == "row_"@ + decimal(last) {
            } else if exists|i: nat| i < n && key == "row_"@ + #[trigger] decimal(i) {
                let i = choose|i: nat| i < n && key == "row_"@ + #[trigger] decimal(i);
                assert(i < last);
            }
        }
        assert forall|key: Seq<char>|
            #[trigger] questions_of(q, n).contains_key(key) <==> exists|i: nat|
                i < n && key == "row_"@ + #[trigger] decimal(i) by {
            assert(state_of(texts).contains_key(key) <==> exists|i: nat|
                i < n && key == "row_"@ + #[trigger] decimal(i));
        }
    }
}

/// A request sends the texts and the whole question about each, and nothing else.
pub proof fn a_request_sends_texts_and_questions(q: QuestionView, texts: Seq<Seq<char>>)
    ensures
        sends(q, texts, body_of(q, texts)),
{
    let n = texts.len();
    let body = body_of(q, texts);
    let state = member(body, "state"@);
    let questions = member(body, "questions"@);
    if n == 1 {
        lemma_request(Json::Text(texts[0]), Json::Object(map![row_key(0) => question_of(q)]));
        questions_are_posed_whole(q, 0);
        assert forall|key: Seq<char>|
            #[trigger] questions->Object_0.contains_key(key) <==> exists|i: nat|
                i < n && key == "row_"@ + #[trigger] decimal(i) by {
            if key == row_key(0) {
                let i: nat = 0;
                assert(i < n && key == "row_"@ + decimal(i));
            }
        }
    } else {
        lemma_request(Json::Object(state_of(texts)), Json::Object(questions_of(q, n)));
        lemma_rows(q, texts, n);
        assert forall|i: int| 0 <= i < n implies {
            let key = "row_"@ + #[trigger] decimal(i as nat);
            let question = member(questions, key);
            &&& member(state, key) == Json::Text(texts[i])
            &&& poses(q, question, member(question, "instructions"@))
            &&& names_row(q, member(question, "instructions"@), i as nat)
        } by {
            each_row_is_asked_about(q, texts, i);
            questions_are_posed_whole(q, i as nat);
        }
    }
    reveal_strlit("model");
    reveal_strlit("state");
    reveal_strlit("questions");
    assert("state"@[0] == 's' && "questions"@[0] == 'q' && "model"@[0] == 'm');
}

/// A request of at most 256 KiB is made, and no other. What is wrong with one that
/// is larger depends on whether there are rows to take out of it.
pub proof fn a_request_is_made_if_it_fits(q: QuestionView, texts: Seq<Seq<char>>)
    ensures
        match request_outcome(q, texts) {
            Ok(json) => sends(q, texts, json) && written_size(json) <= 256 * 1024,
            Err(p) => {
                &&& written_size(body_of(q, texts)) > 256 * 1024
                &&& if texts.len() > 1 {
                    p is LargeBatch
                } else {
                    p is LargeRow
                }
            },
        },
{
    a_request_sends_texts_and_questions(q, texts);
}

/// A size is accepted up to 256 KiB, however many rows there are.
pub proof fn sizes_are_limited(rows: nat, bytes: nat)
    ensures
        size_problem(rows, bytes) == (if bytes <= 256 * 1024 {
            None::<Failure<Seq<char>>>
        } else if rows > 1 {
            Some(Failure::LargeBatch)
        } else {
            Some(Failure::LargeRow)
        }),
{
}

} // verus!
