//! What can go wrong, while a query is planned and while it runs.
use crate::text::decimal;
use vstd::prelude::*;
use vstd::string::*;

verus! {

/// Why a query cannot be planned. `T` is the text that some problems quote.
#[derive(Debug)]
pub enum Problem<T> {
    /// The instructions are blank.
    EmptyInstructions,
    /// The instructions are too long.
    LongInstructions,
    /// The batch size is out of range.
    BatchSizeRange,
    /// A label is blank or repeated, or a description is blank.
    BadCriterion,
    /// A label or a description is too long.
    LongCriterion,
    /// The criteria do not suit the kind of question, which is quoted.
    BadCriteria(T),
    /// Something other than a constant string where one is needed.
    NotString,
    /// Criteria that are not a constant array.
    NotArray,
    /// A field occurs twice in one criterion.
    DuplicateField,
    /// A criterion has the quoted field, which means nothing.
    UnknownField(T),
    /// A criterion has no label.
    MissingLabel,
    /// A batch size that is not a constant integer.
    NotInteger,
    /// The call carries a modifier of an aggregate or a window function.
    CallModifiers,
    /// The call has no argument list.
    NoArguments,
    /// The argument list carries a modifier.
    ArgumentModifiers,
    /// The quoted option is given twice.
    DuplicateArgument(T),
    /// Two kinds of question are asked for.
    TwoModes,
    /// `noul` is given without criteria.
    EmptyNoul,
    /// The quoted option means nothing.
    UnknownArgument(T),
    /// An argument of another form, or a positional one after an option.
    ArgumentOrder,
    /// Other than two positional arguments.
    ArgumentCount,
    /// A call in a join condition that uses columns of both sides.
    TwoSidedCall,
    /// The configuration is not a constant.
    NotConstant,
    /// The configuration cannot be read.
    BadConfiguration,
    /// The input is not text.
    NotText,
    /// The type is asked for without the configuration.
    NeedsConfiguration,
}

/// A problem that quotes owned text.
pub type PlanError = Problem<String>;

impl View for Problem<String> {
    type V = Problem<Seq<char>>;

    open spec fn view(&self) -> Problem<Seq<char>> {
        match *self {
            Problem::EmptyInstructions => Problem::EmptyInstructions,
            Problem::LongInstructions => Problem::LongInstructions,
            Problem::BatchSizeRange => Problem::BatchSizeRange,
            Problem::BadCriterion => Problem::BadCriterion,
            Problem::LongCriterion => Problem::LongCriterion,
            Problem::BadCriteria(t) => Problem::BadCriteria(t@),
            Problem::NotString => Problem::NotString,
            Problem::NotArray => Problem::NotArray,
            Problem::DuplicateField => Problem::DuplicateField,
            Problem::UnknownField(t) => Problem::UnknownField(t@),
            Problem::MissingLabel => Problem::MissingLabel,
            Problem::NotInteger => Problem::NotInteger,
            Problem::CallModifiers => Problem::CallModifiers,
            Problem::NoArguments => Problem::NoArguments,
            Problem::ArgumentModifiers => Problem::ArgumentModifiers,
            Problem::DuplicateArgument(t) => Problem::DuplicateArgument(t@),
            Problem::TwoModes => Problem::TwoModes,
            Problem::EmptyNoul => Problem::EmptyNoul,
            Problem::UnknownArgument(t) => Problem::UnknownArgument(t@),
            Problem::ArgumentOrder => Problem::ArgumentOrder,
            Problem::ArgumentCount => Problem::ArgumentCount,
            Problem::TwoSidedCall => Problem::TwoSidedCall,
            Problem::NotConstant => Problem::NotConstant,
            Problem::BadConfiguration => Problem::BadConfiguration,
            Problem::NotText => Problem::NotText,
            Problem::NeedsConfiguration => Problem::NeedsConfiguration,
        }
    }
}

/// What a problem tells the user.
pub open spec fn problem_message(p: Problem<Seq<char>>) -> Seq<char> {
    match p {
        Problem::EmptyInstructions => "prompt_jev instructions must not be empty"@,
        Problem::LongInstructions => "prompt_jev instructions exceed 4000 characters"@,
        Problem::BatchSizeRange => "prompt_jev batch_size must be between 1 and 64"@,
        Problem::BadCriterion =>
            "prompt_jev criteria require unique non-empty labels and non-empty descriptions"@,
        Problem::LongCriterion =>
            "prompt_jev labels are limited to 256 characters and descriptions to 1024"@,
        Problem::BadCriteria(kind) => "prompt_jev invalid criteria for "@ + kind,
        Problem::NotString => "prompt_jev expects a constant string"@,
        Problem::NotArray => "prompt_jev criteria must be a constant array"@,
        Problem::DuplicateField => "duplicate criterion field"@,
        Problem::UnknownField(key) => "unknown criterion field: "@ + key,
        Problem::MissingLabel => "criterion requires label"@,
        Problem::NotInteger => "batch_size must be a constant integer"@,
        Problem::CallModifiers => "prompt_jev does not accept aggregate/window modifiers"@,
        Problem::NoArguments => "prompt_jev requires input and instructions"@,
        Problem::ArgumentModifiers => "invalid prompt_jev modifiers"@,
        Problem::DuplicateArgument(name) => "duplicate prompt_jev argument: "@ + name,
        Problem::TwoModes => "choice, score, and noul are mutually exclusive"@,
        Problem::EmptyNoul => "explicit noul criteria require true and false"@,
        Problem::UnknownArgument(name) => "unsupported prompt_jev argument: "@ + name,
        Problem::ArgumentOrder =>
            "prompt_jev requires two positional arguments followed by named options"@,
        Problem::ArgumentCount => "prompt_jev requires input and constant instructions"@,
        Problem::TwoSidedCall =>
            "prompt_jev in a join condition must reference columns from one side only; compute it in a CTE or subquery first"@,
        Problem::NotConstant => "prompt_jev configuration must be constant"@,
        Problem::BadConfiguration => "invalid prompt_jev configuration"@,
        Problem::NotText => "prompt_jev input must be text"@,
        Problem::NeedsConfiguration => "prompt_jev requires constant configuration"@,
    }
}

/// `head` followed by `tail`.
fn joined(head: &str, tail: &str) -> (r: String)
    ensures
        r@ == head@ + tail@,
{
    let mut r = head.to_owned();
    r.append(tail);
    r
}

impl Problem<String> {
    /// The text for the user.
    pub fn message(&self) -> (r: String)
        ensures
            r@ == problem_message(self@),
    {
        match self {
            Problem::EmptyInstructions => "prompt_jev instructions must not be empty".to_owned(),
            Problem::LongInstructions =>
                "prompt_jev instructions exceed 4000 characters".to_owned(),
            Problem::BatchSizeRange =>
                "prompt_jev batch_size must be between 1 and 64".to_owned(),
            Problem::BadCriterion =>
                "prompt_jev criteria require unique non-empty labels and non-empty descriptions".to_owned(),
            Problem::LongCriterion =>
                "prompt_jev labels are limited to 256 characters and descriptions to 1024".to_owned(),
            Problem::BadCriteria(kind) => joined("prompt_jev invalid criteria for ", kind.as_str()),
            Problem::NotString => "prompt_jev expects a constant string".to_owned(),
            Problem::NotArray => "prompt_jev criteria must be a constant array".to_owned(),
            Problem::DuplicateField => "duplicate criterion field".to_owned(),
            Problem::UnknownField(key) => joined("unknown criterion field: ", key.as_str()),
            Problem::MissingLabel => "criterion requires label".to_owned(),
            Problem::NotInteger => "batch_size must be a constant integer".to_owned(),
            Problem::CallModifiers =>
                "prompt_jev does not accept aggregate/window modifiers".to_owned(),
            Problem::NoArguments => "prompt_jev requires input and instructions".to_owned(),
            Problem::ArgumentModifiers => "invalid prompt_jev modifiers".to_owned(),
            Problem::DuplicateArgument(name) =>
                joined("duplicate prompt_jev argument: ", name.as_str()),
            Problem::TwoModes => "choice, score, and noul are mutually exclusive".to_owned(),
            Problem::EmptyNoul => "explicit noul criteria require true and false".to_owned(),
            Problem::UnknownArgument(name) =>
                joined("unsupported prompt_jev argument: ", name.as_str()),
            Problem::ArgumentOrder =>
                "prompt_jev requires two positional arguments followed by named options".to_owned(),
            Problem::ArgumentCount =>
                "prompt_jev requires input and constant instructions".to_owned(),
            Problem::TwoSidedCall =>
                "prompt_jev in a join condition must reference columns from one side only; compute it in a CTE or subquery first".to_owned(),
            Problem::NotConstant => "prompt_jev configuration must be constant".to_owned(),
            Problem::BadConfiguration => "invalid prompt_jev configuration".to_owned(),
            Problem::NotText => "prompt_jev input must be text".to_owned(),
            Problem::NeedsConfiguration =>
                "prompt_jev requires constant configuration".to_owned(),
        }
    }
}

/// Why a query stops while it runs. `T` is the text that some failures quote.
#[derive(Debug)]
pub enum Failure<T> {
    /// An answer of another type than the question asks for.
    AnswerType,
    /// A number that is missing or out of range.
    BadNumber,
    /// An answer without probabilities.
    OmittedProbabilities,
    /// Other than one probability for each criterion.
    ProbabilityCount,
    /// Probabilities that do not sum to one.
    ProbabilitySum,
    /// A choice that is none of the labels.
    UnknownChoice,
    /// A request that cannot be written as JSON.
    InvalidRequest,
    /// A request of several rows that is too large.
    LargeBatch,
    /// A request of one row that is too large.
    LargeRow,
    /// A response without answers.
    OmittedAnswers,
    /// A response without an answer for one of the rows.
    OmittedRow,
    /// The service rejects the request, for the quoted reason.
    Rejected(T),
    /// The configuration differs from row to row.
    NotScalar,
    /// The input is not text.
    NotText,
    /// A text that is too large to send.
    LargeInput,
    /// The function is called where it cannot wait.
    NeedsAsync,
    /// No more requests are sent.
    Closed,
}

/// A failure that quotes owned text.
pub type ExecError = Failure<String>;

impl View for Failure<String> {
    type V = Failure<Seq<char>>;

    open spec fn view(&self) -> Failure<Seq<char>> {
        match *self {
            Failure::AnswerType => Failure::AnswerType,
            Failure::BadNumber => Failure::BadNumber,
            Failure::OmittedProbabilities => Failure::OmittedProbabilities,
            Failure::ProbabilityCount => Failure::ProbabilityCount,
            Failure::ProbabilitySum => Failure::ProbabilitySum,
            Failure::UnknownChoice => Failure::UnknownChoice,
            Failure::InvalidRequest => Failure::InvalidRequest,
            Failure::LargeBatch => Failure::LargeBatch,
            Failure::LargeRow => Failure::LargeRow,
            Failure::OmittedAnswers => Failure::OmittedAnswers,
            Failure::OmittedRow => Failure::OmittedRow,
            Failure::Rejected(t) => Failure::Rejected(t@),
            Failure::NotScalar => Failure::NotScalar,
            Failure::NotText => Failure::NotText,
            Failure::LargeInput => Failure::LargeInput,
            Failure::NeedsAsync => Failure::NeedsAsync,
            Failure::Closed => Failure::Closed,
        }
    }
}

/// What a failure tells the user.
pub open spec fn failure_message(f: Failure<Seq<char>>) -> Seq<char> {
    match f {
        Failure::AnswerType => "Jev returned an unexpected answer type"@,
        Failure::BadNumber => "Jev returned an invalid numeric answer"@,
        Failure::OmittedProbabilities => "Jev omitted probabilities"@,
        Failure::ProbabilityCount => "Jev returned an unexpected probability count"@,
        Failure::ProbabilitySum => "Jev probabilities do not sum to one"@,
        Failure::UnknownChoice => "Jev returned an unknown choice"@,
        Failure::InvalidRequest => "invalid Jev request"@,
        Failure::LargeBatch =>
            "Jev request exceeds 256 KiB; reduce batch_size or shorten the instructions"@,
        Failure::LargeRow => "Jev request exceeds 256 KiB; shorten the instructions"@,
        Failure::OmittedAnswers => "Jev response omitted answers"@,
        Failure::OmittedRow => "Jev response omitted a row"@,
        Failure::Rejected(message) => "Jev request rejected: "@ + message,
        Failure::NotScalar => "prompt_jev configuration must be scalar"@,
        Failure::NotText => "prompt_jev input must be text"@,
        Failure::LargeInput => "prompt_jev input exceeds 64 KiB once JSON-encoded"@,
        Failure::NeedsAsync => "prompt_jev requires asynchronous execution"@,
        Failure::Closed => "Jev inference closed"@,
    }
}

impl Failure<String> {
    /// The text for the user.
    pub fn message(&self) -> (r: String)
        ensures
            r@ == failure_message(self@),
    {
        match self {
            Failure::AnswerType => "Jev returned an unexpected answer type".to_owned(),
            Failure::BadNumber => "Jev returned an invalid numeric answer".to_owned(),
            Failure::OmittedProbabilities => "Jev omitted probabilities".to_owned(),
            Failure::ProbabilityCount =>
                "Jev returned an unexpected probability count".to_owned(),
            Failure::ProbabilitySum => "Jev probabilities do not sum to one".to_owned(),
            Failure::UnknownChoice => "Jev returned an unknown choice".to_owned(),
            Failure::InvalidRequest => "invalid Jev request".to_owned(),
            Failure::LargeBatch =>
                "Jev request exceeds 256 KiB; reduce batch_size or shorten the instructions".to_owned(),
            Failure::LargeRow =>
                "Jev request exceeds 256 KiB; shorten the instructions".to_owned(),
            Failure::OmittedAnswers => "Jev response omitted answers".to_owned(),
            Failure::OmittedRow => "Jev response omitted a row".to_owned(),
            Failure::Rejected(message) => joined("Jev request rejected: ", message.as_str()),
            Failure::NotScalar => "prompt_jev configuration must be scalar".to_owned(),
            Failure::NotText => "prompt_jev input must be text".to_owned(),
            Failure::LargeInput =>
                "prompt_jev input exceeds 64 KiB once JSON-encoded".to_owned(),
            Failure::NeedsAsync => "prompt_jev requires asynchronous execution".to_owned(),
            Failure::Closed => "Jev inference closed".to_owned(),
        }
    }
}

/// `r` is the outcome `s`, its text taken by its characters.
pub open spec fn outcome<T: View, E: View>(r: Result<T, E>, s: Result<T::V, E::V>) -> bool {
    match r {
        Ok(t) => s is Ok && t@ == s->Ok_0,
        Err(e) => s is Err && e@ == s->Err_0,
    }
}

/// What a problem or a failure quotes, its message ends with.
pub proof fn messages_end_with_what_they_quote(text: Seq<char>)
    ensures
        problem_message(Problem::BadCriteria(text)) == "prompt_jev invalid criteria for "@ + text,
        problem_message(Problem::UnknownField(text)) == "unknown criterion field: "@ + text,
        problem_message(Problem::DuplicateArgument(text)) == "duplicate prompt_jev argument: "@
            + text,
        problem_message(Problem::UnknownArgument(text)) == "unsupported prompt_jev argument: "@
            + text,
        failure_message(Failure::Rejected(text)) == "Jev request rejected: "@ + text,
{
}

/// An outcome is what was to come out: the same success, or the same error.
pub proof fn an_outcome_is_what_was_to_come_out<T: View, E: View>(
    r: Result<T, E>,
    s: Result<T::V, E::V>,
)
    requires
        outcome(r, s),
    ensures
        r is Ok <==> s is Ok,
        r matches Ok(t) ==> s->Ok_0 == t@,
        r matches Err(e) ==> s->Err_0 == e@,
{
}

/// The problem quotes text.
pub open spec fn problem_quotes<T>(p: Problem<T>) -> bool {
    p is BadCriteria || p is UnknownField || p is DuplicateArgument || p is UnknownArgument
}

/// No two problems are told in the same words, unless they quote text.
pub proof fn problems_are_told_apart(p: Problem<Seq<char>>, q: Problem<Seq<char>>)
    requires
        !problem_quotes(p),
        !problem_quotes(q),
        problem_message(p) == problem_message(q),
    ensures
        p == q,
{
    reveal_strlit("prompt_jev instructions must not be empty");
    reveal_strlit("prompt_jev instructions exceed 4000 characters");
    reveal_strlit("prompt_jev batch_size must be between 1 and 64");
    reveal_strlit("prompt_jev criteria require unique non-empty labels and non-empty descriptions");
    reveal_strlit("prompt_jev labels are limited to 256 characters and descriptions to 1024");
    reveal_strlit("prompt_jev expects a constant string");
    reveal_strlit("prompt_jev criteria must be a constant array");
    reveal_strlit("duplicate criterion field");
    reveal_strlit("criterion requires label");
    reveal_strlit("batch_size must be a constant integer");
    reveal_strlit("prompt_jev does not accept aggregate/window modifiers");
    reveal_strlit("prompt_jev requires input and instructions");
    reveal_strlit("invalid prompt_jev modifiers");
    reveal_strlit("choice, score, and noul are mutually exclusive");
    reveal_strlit("explicit noul criteria require true and false");
    reveal_strlit("prompt_jev requires two positional arguments followed by named options");
    reveal_strlit("prompt_jev requires input and constant instructions");
    reveal_strlit("prompt_jev in a join condition must reference columns from one side only; compute it in a CTE or subquery first");
    reveal_strlit("prompt_jev configuration must be constant");
    reveal_strlit("invalid prompt_jev configuration");
    reveal_strlit("prompt_jev input must be text");
    reveal_strlit("prompt_jev requires constant configuration");
    assert("prompt_jev instructions must not be empty"@.len() == 41);
    assert("prompt_jev instructions exceed 4000 characters"@.len() == 46);
    assert("prompt_jev batch_size must be between 1 and 64"@.len() == 46);
    assert("prompt_jev criteria require unique non-empty labels and non-empty descriptions"@.len() == 78);
    assert("prompt_jev labels are limited to 256 characters and descriptions to 1024"@.len() == 72);
    assert("prompt_jev expects a constant string"@.len() == 36);
    assert("prompt_jev criteria must be a constant array"@.len() == 44);
    assert("duplicate criterion field"@.len() == 25);
    assert("criterion requires label"@.len() == 24);
    assert("batch_size must be a constant integer"@.len() == 37);
    assert("prompt_jev does not accept aggregate/window modifiers"@.len() == 53);
    assert("prompt_jev requires input and instructions"@.len() == 42);
    assert("invalid prompt_jev modifiers"@.len() == 28);
    assert("choice, score, and noul are mutually exclusive"@.len() == 46);
    assert("explicit noul criteria require true and false"@.len() == 45);
    assert("prompt_jev requires two positional arguments followed by named options"@.len() == 70);
    assert("prompt_jev requires input and constant instructions"@.len() == 51);
    assert("prompt_jev in a join condition must reference columns from one side only; compute it in a CTE or subquery first"@.len() == 111);
    assert("prompt_jev configuration must be constant"@.len() == 41);
    assert("invalid prompt_jev configuration"@.len() == 32);
    assert("prompt_jev input must be text"@.len() == 29);
    assert("prompt_jev requires constant configuration"@.len() == 42);
    assert("prompt_jev instructions must not be empty"@[11] != "prompt_jev configuration must be constant"@[11]);
    assert("prompt_jev instructions exceed 4000 characters"@[11] != "prompt_jev batch_size must be between 1 and 64"@[11]);
    assert("prompt_jev instructions exceed 4000 characters"@[0] != "choice, score, and noul are mutually exclusive"@[0]);
    assert("prompt_jev batch_size must be between 1 and 64"@[0] != "choice, score, and noul are mutually exclusive"@[0]);
    assert("prompt_jev requires input and instructions"@[20] != "prompt_jev requires constant configuration"@[20]);
}

/// No two failures are told in the same words, unless they quote text.
pub proof fn failures_are_told_apart(f: Failure<Seq<char>>, g: Failure<Seq<char>>)
    requires
        !(f is Rejected),
        !(g is Rejected),
        failure_message(f) == failure_message(g),
    ensures
        f == g,
{
    reveal_strlit("Jev returned an unexpected answer type");
    reveal_strlit("Jev returned an invalid numeric answer");
    reveal_strlit("Jev omitted probabilities");
    reveal_strlit("Jev returned an unexpected probability count");
    reveal_strlit("Jev probabilities do not sum to one");
    reveal_strlit("Jev returned an unknown choice");
    reveal_strlit("invalid Jev request");
    reveal_strlit("Jev request exceeds 256 KiB; reduce batch_size or shorten the instructions");
    reveal_strlit("Jev request exceeds 256 KiB; shorten the instructions");
    reveal_strlit("Jev response omitted answers");
    reveal_strlit("Jev response omitted a row");
    reveal_strlit("prompt_jev configuration must be scalar");
    reveal_strlit("prompt_jev input must be text");
    reveal_strlit("prompt_jev input exceeds 64 KiB once JSON-encoded");
    reveal_strlit("prompt_jev requires asynchronous execution");
    reveal_strlit("Jev inference closed");
    assert("Jev returned an unexpected answer type"@.len() == 38);
    assert("Jev returned an invalid numeric answer"@.len() == 38);
    assert("Jev omitted probabilities"@.len() == 25);
    assert("Jev returned an unexpected probability count"@.len() == 44);
    assert("Jev probabilities do not sum to one"@.len() == 35);
    assert("Jev returned an unknown choice"@.len() == 30);
    assert("invalid Jev request"@.len() == 19);
    assert("Jev request exceeds 256 KiB; reduce batch_size or shorten the instructions"@.len() == 74);
    assert("Jev request exceeds 256 KiB; shorten the instructions"@.len() == 53);
    assert("Jev response omitted answers"@.len() == 28);
    assert("Jev response omitted a row"@.len() == 26);
    assert("prompt_jev configuration must be scalar"@.len() == 39);
    assert("prompt_jev input must be text"@.len() == 29);
    assert("prompt_jev input exceeds 64 KiB once JSON-encoded"@.len() == 49);
    assert("prompt_jev requires asynchronous execution"@.len() == 42);
    assert("Jev inference closed"@.len() == 20);
    assert("Jev returned an unexpected answer type"@[16] != "Jev returned an invalid numeric answer"@[16]);
}

/// What is seen of a problem tells which it is, and what is seen of a failure does.
pub proof fn errors_are_seen_as_they_are(
    p: Problem<String>,
    q: Problem<String>,
    f: Failure<String>,
    g: Failure<String>,
)
    ensures
        p@ == q@ && !problem_quotes(p) ==> p == q,
        problem_quotes(p@) == problem_quotes(p),
        f@ == g@ && !(f is Rejected) ==> f == g,
        f matches Failure::Rejected(t) ==> f@ == Failure::<Seq<char>>::Rejected(t@),
{
}

/// A message that names a limit names the one that is kept.
pub proof fn messages_name_the_limits()
    ensures
        problem_message(Problem::LongInstructions) == "prompt_jev instructions exceed "@ + decimal(
            4_000,
        ) + " characters"@,
        problem_message(Problem::BatchSizeRange) == "prompt_jev batch_size must be between 1 and "@
            + decimal(64),
        problem_message(Problem::LongCriterion) == "prompt_jev labels are limited to "@ + decimal(
            256,
        ) + " characters and descriptions to "@ + decimal(1_024),
        failure_message(Failure::LargeInput) == "prompt_jev input exceeds "@ + decimal(64)
            + " KiB once JSON-encoded"@,
        failure_message(Failure::LargeBatch) == "Jev request exceeds "@ + decimal(256)
            + " KiB; reduce batch_size or shorten the instructions"@,
        failure_message(Failure::LargeRow) == "Jev request exceeds "@ + decimal(256)
            + " KiB; shorten the instructions"@,
{
    reveal_with_fuel(decimal, 4);
    assert(decimal(4_000) =~= seq!['4', '0', '0', '0']);
    assert(decimal(1_024) =~= seq!['1', '0', '2', '4']);
    assert(decimal(256) =~= seq!['2', '5', '6']);
    assert(decimal(64) =~= seq!['6', '4']);
    reveal_strlit("prompt_jev instructions exceed 4000 characters");
    reveal_strlit("prompt_jev instructions exceed ");
    reveal_strlit(" characters");
    reveal_strlit("prompt_jev batch_size must be between 1 and 64");
    reveal_strlit("prompt_jev batch_size must be between 1 and ");
    reveal_strlit("prompt_jev labels are limited to 256 characters and descriptions to 1024");
    reveal_strlit("prompt_jev labels are limited to ");
    reveal_strlit(" characters and descriptions to ");
    reveal_strlit("prompt_jev input exceeds 64 KiB once JSON-encoded");
    reveal_strlit("prompt_jev input exceeds ");
    reveal_strlit(" KiB once JSON-encoded");
    reveal_strlit("Jev request exceeds 256 KiB; reduce batch_size or shorten the instructions");
    reveal_strlit("Jev request exceeds 256 KiB; shorten the instructions");
    reveal_strlit("Jev request exceeds ");
    reveal_strlit(" KiB; reduce batch_size or shorten the instructions");
    reveal_strlit(" KiB; shorten the instructions");
}

} // verus!
