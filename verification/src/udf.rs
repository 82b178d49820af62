//! The function behind `prompt_jev`: what it accepts and what it returns.
use crate::answer::{fits, AnswerView, EntryView};
use crate::error::{ExecError, Failure, PlanError, Problem};
use crate::names::INTERNAL_FUNCTION;
use crate::sql::{
    accepted_questions_are_well_posed, question_problem, well_posed, Question, QuestionView,
};
use crate::text::same_text;
use vstd::prelude::*;
use vstd::string::*;

verus! {

/// The rows that the function would like to see at once.
pub const IDEAL_BATCH_SIZE: usize = 256;

/// The most requests that are on their way at one time.
pub const CONCURRENT_REQUESTS: usize = 8;

/// How long a response may take.
pub const TIMEOUT_SECONDS: u64 = 30;

/// The type of a column, as far as the function tells types apart.
#[derive(Debug)]
pub enum DataType {
    Null,
    Utf8,
    Utf8View,
    LargeUtf8,
    Float64,
    UInt32,
    /// Dictionary-encoded values of this type.
    Dictionary(Box<DataType>),
    Struct(Vec<Field>),
    List(Box<Field>),
    /// Any other type.
    Other,
}

/// A named part of a type.
#[derive(Debug)]
pub struct Field {
    pub name: String,
    pub data_type: DataType,
    pub nullable: bool,
}

/// Text, or dictionary-encoded text: low-cardinality columns are a common shape
/// for the categorical text that callers ask about. A column of nothing but NULL
/// counts as text.
pub open spec fn textual(t: DataType) -> bool {
    match t {
        DataType::Null => true,
        DataType::Dictionary(values) => plain_text(*values),
        _ => plain_text(t),
    }
}

/// Text that is not encoded further.
pub open spec fn plain_text(t: DataType) -> bool {
    t is Utf8 || t is Utf8View || t is LargeUtf8
}

/// Whether the function accepts input of this type.
pub fn is_text(t: &DataType) -> (r: bool)
    ensures
        r == textual(*t),
{
    match t {
        DataType::Utf8 | DataType::Utf8View | DataType::LargeUtf8 | DataType::Null => true,
        DataType::Dictionary(values) => match **values {
            DataType::Utf8 | DataType::Utf8View | DataType::LargeUtf8 => true,
            _ => false,
        },
        _ => false,
    }
}

/// The field has this name, and its value may be NULL or not.
pub open spec fn is_field(f: Field, name: Seq<char>, nullable: bool) -> bool {
    f.name@ == name && f.nullable == nullable
}

/// The parts of one probability: the number of the level if it is one of a score,
/// the label and the probability.
pub open spec fn is_entry(kind: Seq<char>, fs: Seq<Field>) -> bool {
    let first = if kind == "score"@ {
        1int
    } else {
        0int
    };
    &&& fs.len() == first + 2
    &&& kind == "score"@ ==> is_field(fs[0], "index"@, false) && fs[0].data_type is UInt32
    &&& is_field(fs[first], "value"@, false) && fs[first].data_type is Utf8
    &&& is_field(fs[first + 1], "probability"@, false) && fs[first + 1].data_type is Float64
}

/// The parts of an answer: the decision, the probabilities in the order of the
/// criteria, and the confidence.
pub open spec fn is_answer(kind: Seq<char>, fs: Seq<Field>) -> bool {
    &&& fs.len() == 3
    &&& if kind == "choice"@ {
        is_field(fs[0], "choice"@, true) && fs[0].data_type is Utf8
    } else {
        is_field(fs[0], "score"@, true) && fs[0].data_type is Float64
    }
    &&& is_field(fs[1], "probabilities"@, true)
    &&& fs[1].data_type matches DataType::List(item)
    &&& is_field(*item, "item"@, true)
    &&& item.data_type matches DataType::Struct(parts)
    &&& is_entry(kind, parts@)
    &&& is_field(fs[2], "confidence"@, true) && fs[2].data_type is Float64
}

/// The type of an answer: a number for `noul`, and else a struct.
pub open spec fn is_answer_type(kind: Seq<char>, t: DataType) -> bool {
    if kind == "noul"@ {
        t is Float64
    } else {
        t matches DataType::Struct(fs) && is_answer(kind, fs@)
    }
}

fn field(name: &str, data_type: DataType, nullable: bool) -> (r: Field)
    ensures
        is_field(r, name@, nullable),
        r.data_type == data_type,
{
    Field { name: name.to_owned(), data_type, nullable }
}

/// The parts of the answer to a choice or a score.
pub fn fields(q: &Question) -> (r: Vec<Field>)
    ensures
        is_answer(q@.kind, r@),
{
    let scored = same_text(q.kind.as_str(), "score");
    let chosen = same_text(q.kind.as_str(), "choice");
    let mut parts: Vec<Field> = Vec::new();
    if scored {
        parts.push(field("index", DataType::UInt32, false));
    }
    parts.push(field("value", DataType::Utf8, false));
    parts.push(field("probability", DataType::Float64, false));
    let item = field("item", DataType::Struct(parts), true);
    let mut r: Vec<Field> = Vec::new();
    if chosen {
        r.push(field("choice", DataType::Utf8, true));
    } else {
        r.push(field("score", DataType::Float64, true));
    }
    r.push(field("probabilities", DataType::List(Box::new(item)), true));
    r.push(field("confidence", DataType::Float64, true));
    r
}

/// The type of the answer to a question.
pub fn datatype(q: &Question) -> (r: DataType)
    ensures
        is_answer_type(q@.kind, r),
{
    if same_text(q.kind.as_str(), "noul") {
        DataType::Float64
    } else {
        DataType::Struct(fields(q))
    }
}

/// The constant that configures a call, as it was found.
#[derive(Debug)]
pub enum Configuration {
    /// No text.
    NotText,
    /// Text that is no question.
    Malformed,
    /// A question, not yet validated.
    Read(Question),
}

/// What a configuration asks, or what is wrong with it.
pub open spec fn configured(c: Configuration) -> Result<QuestionView, Problem<Seq<char>>> {
    match c {
        Configuration::NotText => Err(Problem::NotConstant),
        Configuration::Malformed => Err(Problem::BadConfiguration),
        Configuration::Read(q) => match question_problem(q@) {
            Some(p) => Err(p),
            None => Ok(q@),
        },
    }
}

/// The question that a configuration asks.
pub fn config(c: Configuration) -> (r: Result<Question, PlanError>)
    ensures
        match r {
            Ok(q) => configured(c) == Ok::<QuestionView, Problem<Seq<char>>>(q@),
            Err(p) => configured(c) == Err::<QuestionView, Problem<Seq<char>>>(p@),
        },
{
    match c {
        Configuration::NotText => Err(Problem::NotConstant),
        Configuration::Malformed => Err(Problem::BadConfiguration),
        Configuration::Read(q) => match q.validate() {
            Ok(_) => Ok(q),
            Err(p) => Err(p),
        },
    }
}

/// What a call with these arguments returns: its type is known from the
/// configuration, which must be a constant.
pub open spec fn returned(
    arguments: Seq<DataType>,
    configuration: Option<Configuration>,
) -> Result<QuestionView, Problem<Seq<char>>> {
    if arguments.len() != 2 || !textual(arguments[0]) {
        Err(Problem::NotText)
    } else {
        match configuration {
            Some(c) => configured(c),
            None => Err(Problem::NotConstant),
        }
    }
}

/// The field is what a call that asks `q` returns.
pub open spec fn is_returned(q: QuestionView, f: Field) -> bool {
    is_field(f, INTERNAL_FUNCTION@, true) && is_answer_type(q.kind, f.data_type)
}

/// `r` comes of asking what a call with these arguments returns.
pub open spec fn is_return_field(
    arguments: Seq<DataType>,
    configuration: Option<Configuration>,
    r: Result<Field, PlanError>,
) -> bool {
    match returned(arguments, configuration) {
        Ok(q) => r is Ok && is_returned(q, r->Ok_0),
        Err(p) => r is Err && r->Err_0@ == p,
    }
}

/// The field that a call with these arguments returns. It bears the name of the
/// function and may be NULL.
pub fn return_field_from_args(
    arguments: &Vec<DataType>,
    configuration: Option<Configuration>,
) -> (r: Result<Field, PlanError>)
    ensures
        is_return_field(arguments@, configuration, r),
        match returned(arguments@, configuration) {
            Ok(q) => {
                &&& r is Ok
                &&& is_returned(q, r->Ok_0)
                &&& is_field(r->Ok_0, INTERNAL_FUNCTION@, true)
                &&& is_answer_type(q.kind, r->Ok_0.data_type)
            },
            Err(p) => r is Err && r->Err_0@ == p,
        },
{
    if arguments.len() != 2 || !is_text(&arguments[0]) {
        return Err(Problem::NotText);
    }
    match configuration {
        Some(c) => match config(c) {
            Ok(q) => Ok(field(INTERNAL_FUNCTION, datatype(&q), true)),
            Err(p) => Err(p),
        },
        None => Err(Problem::NotConstant),
    }
}

/// The argument that configures a call, when the call is made.
#[derive(Debug)]
pub enum Argument {
    /// A value for each row.
    Column,
    /// One value for all rows.
    Constant(Configuration),
}

/// Why a call cannot be made.
#[derive(Debug)]
pub enum CallError {
    Plan(PlanError),
    Exec(ExecError),
}

/// `r` is what comes of the argument that configures a call.
pub open spec fn is_call_config(argument: Argument, r: Result<Question, CallError>) -> bool {
    match argument {
        Argument::Column => r matches Err(CallError::Exec(e)) && e@ == Failure::<
            Seq<char>,
        >::NotScalar,
        Argument::Constant(c) => match r {
            Ok(q) => configured(c) == Ok::<QuestionView, Problem<Seq<char>>>(q@),
            Err(CallError::Plan(p)) => configured(c) == Err::<QuestionView, Problem<Seq<char>>>(p@),
            Err(CallError::Exec(_)) => false,
        },
    }
}

/// The question that a call asks.
pub fn call_config(argument: Argument) -> (r: Result<Question, CallError>)
    ensures
        is_call_config(argument, r),
        match argument {
            Argument::Column => r matches Err(CallError::Exec(e)) && e@ == Failure::<
                Seq<char>,
            >::NotScalar,
            Argument::Constant(c) => match r {
                Ok(q) => configured(c) == Ok::<QuestionView, Problem<Seq<char>>>(q@),
                Err(CallError::Plan(p)) => configured(c) == Err::<
                    QuestionView,
                    Problem<Seq<char>>,
                >(p@),
                Err(CallError::Exec(_)) => false,
            },
        },
{
    match argument {
        Argument::Column => Err(CallError::Exec(Failure::NotScalar)),
        Argument::Constant(c) => match config(c) {
            Ok(q) => Ok(q),
            Err(p) => Err(CallError::Plan(p)),
        },
    }
}

/// The answer has this type: a number, or a struct whose parts it fills.
pub open spec fn has_type(a: AnswerView, t: DataType) -> bool {
    match a {
        AnswerView::Noul(_) => t is Float64,
        AnswerView::Choice { probabilities, .. } => {
            &&& t matches DataType::Struct(fs)
            &&& fs@.len() == 3 && fs@[0].data_type is Utf8
            &&& entries_have_type(probabilities, fs@[1].data_type, false)
            &&& fs@[2].data_type is Float64
        },
        AnswerView::Score { probabilities, .. } => {
            &&& t matches DataType::Struct(fs)
            &&& fs@.len() == 3 && fs@[0].data_type is Float64
            &&& entries_have_type(probabilities, fs@[1].data_type, true)
            &&& fs@[2].data_type is Float64
        },
    }
}

/// The entries fill the parts of the list's items, with the number of a level or
/// without.
pub open spec fn entries_have_type(es: Seq<EntryView>, t: DataType, numbered: bool) -> bool {
    &&& t matches DataType::List(item)
    &&& item.data_type matches DataType::Struct(parts)
    &&& parts@.len() == if numbered {
        3int
    } else {
        2int
    }
    &&& numbered ==> parts@[0].data_type is UInt32
    &&& parts@[parts@.len() - 2].data_type is Utf8
    &&& parts@[parts@.len() - 1].data_type is Float64
    &&& forall|i: int| 0 <= i < es.len() ==> (#[trigger] es[i]).index is Some == numbered
}

/// Every answer of the form that the question asks for has the type that was
/// planned for it.
pub proof fn answers_have_the_planned_type(q: QuestionView, a: AnswerView, t: DataType)
    requires
        fits(q, a),
        is_answer_type(q.kind, t),
    ensures
        has_type(a, t),
{
    reveal_strlit("noul");
    reveal_strlit("choice");
    reveal_strlit("score");
    assert("noul"@.len() == 4 && "choice"@.len() == 6 && "score"@.len() == 5);
}

/// Input is text, dictionary-encoded text or nothing but NULL.
pub proof fn only_text_is_accepted(t: DataType)
    ensures
        textual(t) <==> {
            ||| t is Utf8 || t is Utf8View || t is LargeUtf8 || t is Null
            ||| t matches DataType::Dictionary(v) && (*v is Utf8 || *v is Utf8View || *v
                is LargeUtf8)
        },
{
}

/// The field has this name and type, and is nullable or not.
pub open spec fn is_part(f: Field, name: Seq<char>, t: DataType, nullable: bool) -> bool {
    f.name@ == name && f.data_type == t && f.nullable == nullable
}

/// An answer to `noul` is a number. An answer to a choice has the choice, which is
/// text, and an answer to a score the score, which is a number; then come the
/// probabilities and the confidence, all of which may be NULL. A probability has
/// the number of its level, if it is one of a score, its label and its value, none
/// of which may.
pub proof fn answers_are_typed_by_kind(kind: Seq<char>, t: DataType)
    requires
        is_answer_type(kind, t),
    ensures
        kind == "noul"@ ==> t == DataType::Float64,
        kind == "choice"@ || kind == "score"@ ==> {
            &&& t matches DataType::Struct(fs)
            &&& fs@.len() == 3
            &&& if kind == "choice"@ {
                is_part(fs@[0], "choice"@, DataType::Utf8, true)
            } else {
                is_part(fs@[0], "score"@, DataType::Float64, true)
            }
            &&& fs@[1].name@ == "probabilities"@ && fs@[1].nullable
            &&& is_part(fs@[2], "confidence"@, DataType::Float64, true)
            &&& fs@[1].data_type matches DataType::List(item)
            &&& item.name@ == "item"@ && item.nullable
            &&& item.data_type matches DataType::Struct(parts)
            &&& if kind == "choice"@ {
                &&& parts@.len() == 2
                &&& is_part(parts@[0], "value"@, DataType::Utf8, false)
                &&& is_part(parts@[1], "probability"@, DataType::Float64, false)
            } else {
                &&& parts@.len() == 3
                &&& is_part(parts@[0], "index"@, DataType::UInt32, false)
                &&& is_part(parts@[1], "value"@, DataType::Utf8, false)
                &&& is_part(parts@[2], "probability"@, DataType::Float64, false)
            }
        },
{
    reveal_strlit("noul");
    reveal_strlit("choice");
    reveal_strlit("score");
    assert("noul"@.len() == 4 && "choice"@.len() == 6 && "score"@.len() == 5);
}

/// A configuration asks exactly the question that it holds, if it can be asked.
pub proof fn configurations_ask_what_they_hold(c: Configuration, q: QuestionView)
    ensures
        configured(c) == Ok::<QuestionView, Problem<Seq<char>>>(q) <==> {
            &&& c matches Configuration::Read(r)
            &&& r@ == q
            &&& well_posed(q)
        },
        c is NotText ==> configured(c) == Err::<QuestionView, Problem<Seq<char>>>(
            Problem::NotConstant,
        ),
        c is Malformed ==> configured(c) == Err::<QuestionView, Problem<Seq<char>>>(
            Problem::BadConfiguration,
        ),
        c matches Configuration::Read(r) ==> (configured(c) matches Err(p) ==> question_problem(r@)
            == Some(p)),
{
    match c {
        Configuration::Read(r) => accepted_questions_are_well_posed(r@),
        _ => {},
    }
}

/// A call has a type exactly if it has two arguments, of which the first is text and
/// the second a constant that holds a question that can be asked. If not, the user
/// is first told that the input is no text.
pub proof fn calls_on_text_have_a_type(
    arguments: Seq<DataType>,
    configuration: Option<Configuration>,
    q: QuestionView,
)
    ensures
        returned(arguments, configuration) == Ok::<QuestionView, Problem<Seq<char>>>(q) <==> {
            &&& arguments.len() == 2
            &&& textual(arguments[0])
            &&& configuration matches Some(Configuration::Read(r))
            &&& r@ == q
            &&& well_posed(q)
        },
        arguments.len() != 2 || !textual(arguments[0]) ==> returned(arguments, configuration)
            == Err::<QuestionView, Problem<Seq<char>>>(Problem::NotText),
        arguments.len() == 2 && textual(arguments[0]) && configuration is None ==> returned(
            arguments,
            configuration,
        ) == Err::<QuestionView, Problem<Seq<char>>>(Problem::NotConstant),
        arguments.len() == 2 && textual(arguments[0]) && configuration is Some ==> returned(
            arguments,
            configuration,
        ) == configured(configuration->0),
{
    match configuration {
        Some(c) => configurations_ask_what_they_hold(c, q),
        None => {},
    }
}

/// A returned column bears the name of the function, may be NULL and has the type of
/// the answers.
pub proof fn returned_columns_bear_the_name(q: QuestionView, f: Field)
    requires
        is_returned(q, f),
    ensures
        f.name@ == "__datafusion_jev"@,
        f.nullable,
        is_answer_type(q.kind, f.data_type),
{
}

/// A call is made with the question that its constant holds, if that can be asked. A
/// column of configurations is refused.
pub proof fn calls_are_made_with_constants(argument: Argument, r: Result<Question, CallError>)
    requires
        is_call_config(argument, r),
    ensures
        argument is Column ==> r is Err && r->Err_0 is Exec && r->Err_0->Exec_0@ is NotScalar,
        argument matches Argument::Constant(c) ==> (match r {
            Ok(q) => c is Read && c->Read_0@ == q@ && well_posed(q@),
            Err(e) => e is Plan && !(c is Read && well_posed(c->Read_0@)),
        }),
{
    match argument {
        Argument::Constant(Configuration::Read(q)) => accepted_questions_are_well_posed(q@),
        _ => {},
    }
}

/// A call has a column exactly if it has a type, and else what is wrong is told.
pub proof fn typed_calls_have_a_column(
    arguments: Seq<DataType>,
    configuration: Option<Configuration>,
    r: Result<Field, PlanError>,
)
    requires
        is_return_field(arguments, configuration, r),
    ensures
        r is Ok <==> returned(arguments, configuration) is Ok,
        r matches Ok(f) ==> is_returned(returned(arguments, configuration)->Ok_0, f),
        r matches Err(p) ==> returned(arguments, configuration)->Err_0 == p@,
{
}

} // verus!
