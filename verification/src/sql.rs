//! Lower the public SQL syntax to a validated, constant configuration.
use crate::ast::{Arg, Arguments, Expr, Field, Function, Parsed, Statement};
use crate::error::{outcome, PlanError, Problem};
use crate::names::{INTERNAL_FUNCTION, PUBLIC_FUNCTION};
use crate::text::{
    blank, eq_ignore_ascii_case, is_blank, lower, lower_text, parse_usize, same_ignoring_case,
    same_text, spelled_number,
};
use vstd::prelude::*;
use vstd::string::*;

verus! {

/// One option that an answer can take.
#[derive(Debug, PartialEq, Eq, Hash)]
pub struct Criterion {
    pub label: String,
    pub description: Option<String>,
}

/// A criterion by the characters of its text.
pub struct CriterionView {
    pub label: Seq<char>,
    pub description: Option<Seq<char>>,
}

/// The characters of a text that may be absent.
pub open spec fn optional_text(t: Option<String>) -> Option<Seq<char>> {
    match t {
        Some(s) => Some(s@),
        None => None,
    }
}

impl View for Criterion {
    type V = CriterionView;

    open spec fn view(&self) -> CriterionView {
        CriterionView { label: self.label@, description: optional_text(self.description) }
    }
}

impl Clone for Criterion {
    fn clone(&self) -> (r: Self)
        ensures
            r@ == self@,
    {
        let description = match &self.description {
            Some(d) => Some(d.clone()),
            None => None,
        };
        Criterion { label: self.label.clone(), description }
    }
}

/// What to ask of each text, and how.
#[derive(Debug, PartialEq, Eq, Hash)]
pub struct Question {
    pub instructions: String,
    /// `noul`, `choice` or `score`.
    pub kind: String,
    pub criteria: Vec<Criterion>,
    /// The most texts to send in one request.
    pub batch_size: usize,
}

/// A question by the characters of its text.
pub struct QuestionView {
    pub instructions: Seq<char>,
    pub kind: Seq<char>,
    pub criteria: Seq<CriterionView>,
    pub batch_size: usize,
}

/// Criteria by the characters of their text.
pub open spec fn criteria_view(criteria: Seq<Criterion>) -> Seq<CriterionView> {
    criteria.map_values(|c: Criterion| c@)
}

impl View for Question {
    type V = QuestionView;

    open spec fn view(&self) -> QuestionView {
        QuestionView {
            instructions: self.instructions@,
            kind: self.kind@,
            criteria: criteria_view(self.criteria@),
            batch_size: self.batch_size,
        }
    }
}

impl Clone for Question {
    fn clone(&self) -> (r: Self)
        ensures
            r@ == self@,
    {
        let mut criteria: Vec<Criterion> = Vec::new();
        let mut i: usize = 0;
        while i < self.criteria.len()
            invariant
                i <= self.criteria.len(),
                criteria_view(criteria@) == criteria_view(self.criteria@).take(i as int),
            decreases self.criteria.len() - i,
        {
            let ghost before = criteria@;
            let c = self.criteria[i].clone();
            criteria.push(c);
            proof {
                assert(criteria_view(criteria@) == criteria_view(before).push(c@));
                assert(criteria_view(self.criteria@).take(i + 1) == criteria_view(
                    self.criteria@,
                ).take(i as int).push(self.criteria@[i as int]@));
            }
            i = i + 1;
        }
        proof {
            assert(criteria_view(criteria@) == criteria_view(self.criteria@));
        }
        Question {
            instructions: self.instructions.clone(),
            kind: self.kind.clone(),
            criteria,
            batch_size: self.batch_size,
        }
    }
}

impl Question {
    /// Longest instructions accepted, in characters. The provider rejects
    /// requests well before the cap on request size would, and an error at
    /// planning time names the actual problem instead of a provider HTTP status.
    pub const MAX_INSTRUCTION_CHARS: usize = 4_000;

    /// Longest label accepted, in characters.
    pub const MAX_LABEL_CHARS: usize = 256;

    /// Longest description accepted, in characters.
    pub const MAX_DESCRIPTION_CHARS: usize = 1_024;

    /// Most texts that one request may carry.
    pub const MAX_BATCH_SIZE: usize = 64;

    /// Texts per request unless the call says otherwise.
    pub const DEFAULT_BATCH_SIZE: usize = 32;
}

/// The problem that criterion `c` has, after the criteria `earlier`.
pub open spec fn criterion_problem(earlier: Seq<CriterionView>, c: CriterionView) -> Option<
    Problem<Seq<char>>,
> {
    if blank(c.label) || (exists|i: int|
        0 <= i < earlier.len() && (#[trigger] earlier[i]).label == c.label) || (
    c.description is Some && blank(c.description->0)) {
        Some(Problem::BadCriterion)
    } else if c.label.len() > Question::MAX_LABEL_CHARS || (c.description is Some && c.description->0.len()
        > Question::MAX_DESCRIPTION_CHARS) {
        Some(Problem::LongCriterion)
    } else {
        None
    }
}

/// The problem of the first criterion that has one.
pub open spec fn criteria_problem(criteria: Seq<CriterionView>) -> Option<Problem<Seq<char>>>
    decreases criteria.len(),
{
    if criteria.len() == 0 {
        None
    } else {
        match criteria_problem(criteria.drop_last()) {
            Some(p) => Some(p),
            None => criterion_problem(criteria.drop_last(), criteria.last()),
        }
    }
}

/// Some criterion has the label `label`.
pub open spec fn has_label(criteria: Seq<CriterionView>, label: Seq<char>) -> bool {
    exists|i: int| 0 <= i < criteria.len() && (#[trigger] criteria[i]).label == label
}

/// The criteria, which are all in order, suit the kind of question: two to 255
/// choices, two to ten levels of a score, or for `noul` either none or one for
/// `true` and one for `false`.
pub open spec fn suits_kind(kind: Seq<char>, criteria: Seq<CriterionView>) -> bool {
    if kind == "choice"@ {
        2 <= criteria.len() <= 255
    } else if kind == "score"@ {
        2 <= criteria.len() <= 10
    } else if kind == "noul"@ {
        criteria.len() == 0 || (criteria.len() == 2 && has_label(criteria, "true"@) && has_label(
            criteria,
            "false"@,
        ))
    } else {
        false
    }
}

/// The first problem of a question, in the order in which they are looked for.
pub open spec fn question_problem(q: QuestionView) -> Option<Problem<Seq<char>>> {
    if blank(q.instructions) {
        Some(Problem::EmptyInstructions)
    } else if q.instructions.len() > Question::MAX_INSTRUCTION_CHARS {
        Some(Problem::LongInstructions)
    } else if !(1 <= q.batch_size <= Question::MAX_BATCH_SIZE) {
        Some(Problem::BatchSizeRange)
    } else if criteria_problem(q.criteria) is Some {
        criteria_problem(q.criteria)
    } else if !suits_kind(q.kind, q.criteria) {
        Some(Problem::BadCriteria(q.kind))
    } else {
        None
    }
}

/// Whether one of the first `n` criteria has the label `label`.
pub(crate) fn labelled(criteria: &Vec<Criterion>, n: usize, label: &str) -> (r: bool)
    requires
        n <= criteria.len(),
    ensures
        r == has_label(criteria_view(criteria@).take(n as int), label@),
{
    let ghost views = criteria_view(criteria@).take(n as int);
    let mut i: usize = 0;
    while i < n
        invariant
            n <= criteria.len(),
            views == criteria_view(criteria@).take(n as int),
            i <= n,
            forall|j: int| 0 <= j < i ==> (#[trigger] views[j]).label != label@,
        decreases n - i,
    {
        if same_text(criteria[i].label.as_str(), label) {
            proof {
                assert(views[i as int].label == label@);
            }
            return true;
        }
        proof {
            assert(views[i as int].label == criteria@[i as int].label@);
        }
        i = i + 1;
    }
    false
}

impl Question {
    /// Check the question against every rule that can be checked without asking
    /// it: the first broken rule is the error.
    pub fn validate(&self) -> (r: Result<(), PlanError>)
        ensures
            match question_problem(self@) {
                Some(p) => r is Err && r->Err_0@ == p,
                None => r is Ok,
            },
    {
        if is_blank(self.instructions.as_str()) {
            return Err(Problem::EmptyInstructions);
        }
        if self.instructions.as_str().unicode_len() > Question::MAX_INSTRUCTION_CHARS {
            return Err(Problem::LongInstructions);
        }
        if !(1 <= self.batch_size && self.batch_size <= Question::MAX_BATCH_SIZE) {
            return Err(Problem::BatchSizeRange);
        }
        let ghost views = criteria_view(self.criteria@);
        let mut i: usize = 0;
        while i < self.criteria.len()
            invariant
                views == criteria_view(self.criteria@),
                views == self@.criteria,
                i <= self.criteria.len(),
                criteria_problem(views.take(i as int)) is None,
                !blank(self@.instructions),
                self@.instructions.len() <= Question::MAX_INSTRUCTION_CHARS,
                1 <= self@.batch_size <= Question::MAX_BATCH_SIZE,
            decreases self.criteria.len() - i,
        {
            let c = &self.criteria[i];
            proof {
                assert(views.take(i + 1).drop_last() == views.take(i as int));
                assert(views.take(i + 1).last() == c@);
            }
            let repeated = labelled(&self.criteria, i, c.label.as_str());
            let undescribed = match &c.description {
                Some(d) => is_blank(d.as_str()),
                None => false,
            };
            if is_blank(c.label.as_str()) || repeated || undescribed {
                proof {
                    lemma_criteria_problem(views, i as int);
                }
                return Err(Problem::BadCriterion);
            }
            let wordy = match &c.description {
                Some(d) => d.as_str().unicode_len() > Question::MAX_DESCRIPTION_CHARS,
                None => false,
            };
            if c.label.as_str().unicode_len() > Question::MAX_LABEL_CHARS || wordy {
                proof {
                    lemma_criteria_problem(views, i as int);
                }
                return Err(Problem::LongCriterion);
            }
            i = i + 1;
        }
        let n: usize = self.criteria.len();
        proof {
            assert(views.take(n as int) == views);
        }
        let kind = self.kind.as_str();
        let valid = if same_text(kind, "choice") {
            2 <= n && n <= 255
        } else if same_text(kind, "score") {
            2 <= n && n <= 10
        } else if same_text(kind, "noul") {
            n == 0 || (n == 2 && labelled(&self.criteria, n, "true") && labelled(
                &self.criteria,
                n,
                "false",
            ))
        } else {
            false
        };
        if !valid {
            return Err(Problem::BadCriteria(self.kind.clone()));
        }
        Ok(())
    }
}

/// The first problem among the criteria up to `i` is that of all of them.
proof fn lemma_criteria_problem(criteria: Seq<CriterionView>, i: int)
    requires
        0 <= i < criteria.len(),
        criteria_problem(criteria.take(i + 1)) is Some,
    ensures
        criteria_problem(criteria) == criteria_problem(criteria.take(i + 1)),
    decreases criteria.len(),
{
    if i + 1 == criteria.len() {
        assert(criteria.take(i + 1) == criteria);
    } else {
        assert(criteria.drop_last().take(i + 1) == criteria.take(i + 1));
        lemma_criteria_problem(criteria.drop_last(), i);
    }
}

/// The text of a constant string.
pub open spec fn text_of(e: Expr) -> Result<Seq<char>, Problem<Seq<char>>> {
    match e {
        Expr::Text(s) => Ok(s@),
        _ => Err(Problem::NotString),
    }
}

/// Read a constant string.
pub fn string(e: &Expr) -> (r: Result<String, PlanError>)
    ensures
        outcome(r, text_of(*e)),
{
    match e {
        Expr::Text(s) => Ok(s.clone()),
        _ => Err(Problem::NotString),
    }
}

/// What the fields of a criterion read so far have given.
pub struct PartialCriterion {
    pub label: Option<Seq<char>>,
    pub description: Option<Seq<char>>,
    /// Whether there was a description field, which may have been `NULL`.
    pub described: bool,
}

/// Read one more field of a criterion.
pub open spec fn read_field(p: PartialCriterion, f: Field) -> Result<
    PartialCriterion,
    Problem<Seq<char>>,
> {
    if f.key@ == "label"@ {
        if p.label is Some {
            Err(Problem::DuplicateField)
        } else {
            match text_of(f.value) {
                Ok(t) => Ok(PartialCriterion { label: Some(t), ..p }),
                Err(e) => Err(e),
            }
        }
    } else if f.key@ == "description"@ {
        if p.described {
            Err(Problem::DuplicateField)
        } else if f.value is Null {
            Ok(PartialCriterion { described: true, ..p })
        } else {
            match text_of(f.value) {
                Ok(t) => Ok(PartialCriterion { description: Some(t), described: true, ..p }),
                Err(e) => Err(e),
            }
        }
    } else {
        Err(Problem::UnknownField(f.key@))
    }
}

/// Read the fields of a criterion from left to right.
pub open spec fn read_fields(fields: Seq<Field>) -> Result<PartialCriterion, Problem<Seq<char>>>
    decreases fields.len(),
{
    if fields.len() == 0 {
        Ok(PartialCriterion { label: None, description: None, described: false })
    } else {
        match read_fields(fields.drop_last()) {
            Ok(p) => read_field(p, fields.last()),
            Err(e) => Err(e),
        }
    }
}

/// The criterion that an expression stands for: a dictionary with a label and
/// perhaps a description, or just the label.
pub open spec fn criterion_of(e: Expr) -> Result<CriterionView, Problem<Seq<char>>> {
    match e {
        Expr::Dictionary(fields) => match read_fields(fields@) {
            Ok(p) => match p.label {
                Some(label) => Ok(CriterionView { label, description: p.description }),
                None => Err(Problem::MissingLabel),
            },
            Err(e) => Err(e),
        },
        _ => match text_of(e) {
            Ok(label) => Ok(CriterionView { label, description: None }),
            Err(e) => Err(e),
        },
    }
}

/// The criteria that expressions stand for, up to the first that stands for
/// none.
pub open spec fn criteria_of_all(elements: Seq<Expr>) -> Result<
    Seq<CriterionView>,
    Problem<Seq<char>>,
>
    decreases elements.len(),
{
    if elements.len() == 0 {
        Ok(Seq::empty())
    } else {
        match criteria_of_all(elements.drop_last()) {
            Ok(cs) => match criterion_of(elements.last()) {
                Ok(c) => Ok(cs.push(c)),
                Err(e) => Err(e),
            },
            Err(e) => Err(e),
        }
    }
}

/// The criteria that an array literal stands for.
pub open spec fn criteria_of(e: Expr) -> Result<Seq<CriterionView>, Problem<Seq<char>>> {
    match e {
        Expr::Array(elements) => criteria_of_all(elements@),
        _ => Err(Problem::NotArray),
    }
}

/// An error in the first fields is the error of all of them.
proof fn lemma_read_fields_error(fields: Seq<Field>, i: int)
    requires
        0 <= i <= fields.len(),
        read_fields(fields.take(i)) is Err,
    ensures
        read_fields(fields) is Err,
        read_fields(fields)->Err_0 == read_fields(fields.take(i))->Err_0,
    decreases fields.len(),
{
    if i == fields.len() {
        assert(fields.take(i) == fields);
    } else {
        assert(fields.drop_last().take(i) == fields.take(i));
        lemma_read_fields_error(fields.drop_last(), i);
    }
}

/// Read a criterion written as a dictionary.
fn criterion_from(fields: &Vec<Field>) -> (r: Result<Criterion, PlanError>)
    ensures
        outcome(r, criterion_of(Expr::Dictionary(*fields))),
{
    let mut label: Option<String> = None;
    let mut description: Option<String> = None;
    let mut described = false;
    let mut i: usize = 0;
    while i < fields.len()
        invariant
            i <= fields.len(),
            read_fields(fields@.take(i as int)) == Ok::<PartialCriterion, Problem<Seq<char>>>(
                PartialCriterion {
                    label: optional_text(label),
                    description: optional_text(description),
                    described,
                },
            ),
        decreases fields.len() - i,
    {
        let field = &fields[i];
        proof {
            assert(fields@.take(i + 1).drop_last() == fields@.take(i as int));
            assert(fields@.take(i + 1).last() == *field);
            if read_fields(fields@.take(i + 1)) is Err {
                lemma_read_fields_error(fields@, i + 1);
            }
        }
        if same_text(field.key.as_str(), "label") {
            if label.is_some() {
                return Err(Problem::DuplicateField);
            }
            match string(&field.value) {
                Ok(t) => {
                    label = Some(t);
                },
                Err(e) => {
                    return Err(e);
                },
            }
        } else if same_text(field.key.as_str(), "description") {
            if described {
                return Err(Problem::DuplicateField);
            }
            described = true;
            match &field.value {
                Expr::Null => {},
                _ => match string(&field.value) {
                    Ok(t) => {
                        description = Some(t);
                    },
                    Err(e) => {
                        return Err(e);
                    },
                },
            }
        } else {
            return Err(Problem::UnknownField(field.key.clone()));
        }
        i = i + 1;
    }
    proof {
        assert(fields@.take(i as int) == fields@);
    }
    match label {
        Some(label) => Ok(Criterion { label, description }),
        None => Err(Problem::MissingLabel),
    }
}

/// An error in the first elements is the error of all of them.
proof fn lemma_criteria_error(elements: Seq<Expr>, i: int)
    requires
        0 <= i <= elements.len(),
        criteria_of_all(elements.take(i)) is Err,
    ensures
        criteria_of_all(elements) == criteria_of_all(elements.take(i)),
    decreases elements.len(),
{
    if i == elements.len() {
        assert(elements.take(i) == elements);
    } else {
        assert(elements.drop_last().take(i) == elements.take(i));
        lemma_criteria_error(elements.drop_last(), i);
    }
}

/// `r` is the outcome `s` of reading criteria.
pub open spec fn criteria_outcome(
    r: Result<Vec<Criterion>, PlanError>,
    s: Result<Seq<CriterionView>, Problem<Seq<char>>>,
) -> bool {
    match r {
        Ok(cs) => s is Ok && criteria_view(cs@) == s->Ok_0,
        Err(e) => s is Err && e@ == s->Err_0,
    }
}

/// Read criteria, each a string or a dictionary.
pub fn criteria(e: &Expr) -> (r: Result<Vec<Criterion>, PlanError>)
    ensures
        criteria_outcome(r, criteria_of(*e)),
{
    let elements = match e {
        Expr::Array(elements) => elements,
        _ => {
            return Err(Problem::NotArray);
        },
    };
    let mut read: Vec<Criterion> = Vec::new();
    let mut i: usize = 0;
    while i < elements.len()
        invariant
            *e == Expr::Array(*elements),
            i <= elements.len(),
            criteria_of_all(elements@.take(i as int)) is Ok,
            criteria_of_all(elements@.take(i as int))->Ok_0 == criteria_view(read@),
        decreases elements.len() - i,
    {
        let element = &elements[i];
        proof {
            assert(elements@.take(i + 1).drop_last() == elements@.take(i as int));
            assert(elements@.take(i + 1).last() == *element);
            if criteria_of_all(elements@.take(i + 1)) is Err {
                lemma_criteria_error(elements@, i + 1);
            }
        }
        let criterion = match element {
            Expr::Dictionary(fields) => criterion_from(fields),
            _ => match string(element) {
                Ok(label) => Ok(Criterion { label, description: None }),
                Err(e) => Err(e),
            },
        };
        match criterion {
            Ok(c) => {
                let ghost before = read@;
                read.push(c);
                proof {
                    assert(criteria_view(read@) == criteria_view(before).push(c@));
                }
            },
            Err(e) => {
                return Err(e);
            },
        }
        i = i + 1;
    }
    proof {
        assert(elements@.take(i as int) == elements@);
    }
    Ok(read)
}

/// The batch size that a number literal gives.
pub open spec fn batch_size_of(e: Expr) -> Result<usize, Problem<Seq<char>>> {
    match e {
        Expr::Number(n) => match spelled_number(n@) {
            Some(v) => if v <= usize::MAX {
                Ok(v as usize)
            } else {
                Err(Problem::NotInteger)
            },
            None => Err(Problem::NotInteger),
        },
        _ => Err(Problem::NotInteger),
    }
}

/// Read a batch size.
pub fn parse_batch_size(e: &Expr) -> (r: Result<usize, PlanError>)
    ensures
        match r {
            Ok(n) => batch_size_of(*e) == Ok::<usize, Problem<Seq<char>>>(n),
            Err(p) => batch_size_of(*e) == Err::<usize, Problem<Seq<char>>>(p@),
        },
{
    match e {
        Expr::Number(n) => match parse_usize(n.as_str()) {
            Some(v) => Ok(v),
            None => Err(Problem::NotInteger),
        },
        _ => Err(Problem::NotInteger),
    }
}

/// What the arguments of a call read so far have given.
pub struct Reading {
    /// How many positional arguments there were. They all come first.
    pub positional: nat,
    /// The names of the options.
    pub named: Seq<Seq<char>>,
    /// Whether an option has fixed the kind of question.
    pub mode: bool,
    pub kind: Seq<char>,
    pub criteria: Seq<CriterionView>,
    pub batch_size: usize,
}

/// The name by which an option is known: as it stands when quoted, in lower
/// case otherwise.
pub open spec fn option_name(name: Seq<char>, quoted: bool) -> Seq<char> {
    if quoted {
        name
    } else {
        lower(name)
    }
}

/// Take the option `name`, which is new, with the value `value`.
pub open spec fn read_option(r: Reading, name: Seq<char>, value: Expr) -> Result<
    Reading,
    Problem<Seq<char>>,
> {
    if name == "choice"@ || name == "score"@ || name == "noul"@ {
        if r.mode {
            Err(Problem::TwoModes)
        } else {
            match criteria_of(value) {
                Ok(criteria) => if name == "noul"@ && criteria.len() == 0 {
                    Err(Problem::EmptyNoul)
                } else {
                    Ok(Reading { mode: true, kind: name, criteria, ..r })
                },
                Err(e) => Err(e),
            }
        }
    } else if name == "batch_size"@ {
        match batch_size_of(value) {
            Ok(batch_size) => Ok(Reading { batch_size, ..r }),
            Err(e) => Err(e),
        }
    } else {
        Err(Problem::UnknownArgument(name))
    }
}

/// Read one more argument.
pub open spec fn read_arg(r: Reading, a: Arg) -> Result<Reading, Problem<Seq<char>>> {
    match a {
        Arg::Positional(_) => if r.named.len() == 0 {
            Ok(Reading { positional: r.positional + 1, ..r })
        } else {
            Err(Problem::ArgumentOrder)
        },
        Arg::Named { name, quoted, value } => {
            let known = option_name(name@, quoted);
            if r.named.contains(known) {
                Err(Problem::DuplicateArgument(known))
            } else {
                read_option(Reading { named: r.named.push(known), ..r }, known, value)
            }
        },
        Arg::Other => Err(Problem::ArgumentOrder),
    }
}

/// Read the arguments from left to right.
pub open spec fn read_args(args: Seq<Arg>) -> Result<Reading, Problem<Seq<char>>>
    decreases args.len(),
{
    if args.len() == 0 {
        Ok(
            Reading {
                positional: 0,
                named: Seq::empty(),
                mode: false,
                kind: "noul"@,
                criteria: Seq::empty(),
                batch_size: Question::DEFAULT_BATCH_SIZE,
            },
        )
    } else {
        match read_args(args.drop_last()) {
            Ok(r) => read_arg(r, args.last()),
            Err(e) => Err(e),
        }
    }
}

/// The input and the question of a call with these arguments.
pub open spec fn call_of_args(args: Seq<Arg>) -> Result<(Expr, QuestionView), Problem<Seq<char>>> {
    match read_args(args) {
        Ok(r) => if r.positional != 2 {
            Err(Problem::ArgumentCount)
        } else {
            match text_of(args[1]->Positional_0) {
                Ok(instructions) => Ok(
                    (
                        args[0]->Positional_0,
                        QuestionView {
                            instructions,
                            kind: r.kind,
                            criteria: r.criteria,
                            batch_size: r.batch_size,
                        },
                    ),
                ),
                Err(e) => Err(e),
            }
        },
        Err(e) => Err(e),
    }
}

/// The input and the question of a call, or what is wrong with the call.
pub open spec fn call_of(f: Function) -> Result<(Expr, QuestionView), Problem<Seq<char>>> {
    if f.filter || f.over || f.null_treatment || f.within_group || f.parameters {
        Err(Problem::CallModifiers)
    } else {
        match f.arguments {
            Arguments::List { duplicate_treatment, clauses, args } => if duplicate_treatment
                || clauses {
                Err(Problem::ArgumentModifiers)
            } else {
                call_of_args(args@)
            },
            _ => Err(Problem::NoArguments),
        }
    }
}

/// An error in the first arguments is the error of all of them.
proof fn lemma_read_args_error(args: Seq<Arg>, i: int)
    requires
        0 <= i <= args.len(),
        read_args(args.take(i)) is Err,
    ensures
        read_args(args) is Err,
        read_args(args)->Err_0 == read_args(args.take(i))->Err_0,
    decreases args.len(),
{
    if i == args.len() {
        assert(args.take(i) == args);
    } else {
        assert(args.drop_last().take(i) == args.take(i));
        lemma_read_args_error(args.drop_last(), i);
    }
}

/// The positional arguments of a readable list are its first ones.
proof fn lemma_positional_first(args: Seq<Arg>)
    requires
        read_args(args) is Ok,
    ensures
        read_args(args)->Ok_0.positional <= args.len(),
        read_args(args)->Ok_0.named.len() == args.len() - read_args(args)->Ok_0.positional,
        forall|i: int|
            0 <= i < read_args(args)->Ok_0.positional ==> (#[trigger] args[i]) is Positional,
    decreases args.len(),
{
    if args.len() > 0 {
        lemma_positional_first(args.drop_last());
        let before = read_args(args.drop_last())->Ok_0;
        assert(forall|i: int|
            0 <= i < args.len() - 1 ==> #[trigger] args[i] == args.drop_last()[i]);
    }
}

/// Whether `name` is among `names`.
fn named_before(names: &Vec<String>, name: &str) -> (r: bool)
    ensures
        r == names@.map_values(|s: String| s@).contains(name@),
{
    let ghost views = names@.map_values(|s: String| s@);
    let mut i: usize = 0;
    while i < names.len()
        invariant
            views == names@.map_values(|s: String| s@),
            i <= names.len(),
            forall|j: int| 0 <= j < i ==> #[trigger] views[j] != name@,
        decreases names.len() - i,
    {
        if same_text(names[i].as_str(), name) {
            proof {
                assert(views[i as int] == name@);
            }
            return true;
        }
        i = i + 1;
    }
    false
}

/// `r` is the outcome `s` of reading a call.
pub open spec fn call_outcome(
    r: Result<(&Expr, Question), PlanError>,
    s: Result<(Expr, QuestionView), Problem<Seq<char>>>,
) -> bool {
    match r {
        Ok((input, q)) => s is Ok && *input == s->Ok_0.0 && q@ == s->Ok_0.1,
        Err(e) => s is Err && e@ == s->Err_0,
    }
}

/// Read one `prompt_jev` call: the input expression and the question it asks.
/// The question is not validated here; the caller does that before rewriting.
pub fn parse_call(f: &Function) -> (r: Result<(&Expr, Question), PlanError>)
    ensures
        call_outcome(r, call_of(*f)),
{
    if f.filter || f.over || f.null_treatment || f.within_group || f.parameters {
        return Err(Problem::CallModifiers);
    }
    let args = match &f.arguments {
        Arguments::List { duplicate_treatment, clauses, args } => {
            if *duplicate_treatment || *clauses {
                return Err(Problem::ArgumentModifiers);
            }
            args
        },
        _ => {
            return Err(Problem::NoArguments);
        },
    };
    let ghost want = call_of_args(args@);
    let mut positional: usize = 0;
    let mut named: Vec<String> = Vec::new();
    let mut q = Question {
        instructions: String::new(),
        kind: "noul".to_owned(),
        criteria: Vec::new(),
        batch_size: Question::DEFAULT_BATCH_SIZE,
    };
    let mut mode = false;
    proof {
        assert(named@.map_values(|s: String| s@) == Seq::<Seq<char>>::empty());
        assert(criteria_view(q.criteria@) == Seq::<CriterionView>::empty());
        assert(args@.take(0) == Seq::<Arg>::empty());
    }
    let mut i: usize = 0;
    while i < args.len()
        invariant
            want == call_of_args(args@),
            call_of(*f) == want,
            i <= args.len(),
            positional <= i,
            read_args(args@.take(i as int)) is Ok,
            read_args(args@.take(i as int))->Ok_0 == (Reading {
                positional: positional as nat,
                named: named@.map_values(|s: String| s@),
                mode,
                kind: q.kind@,
                criteria: criteria_view(q.criteria@),
                batch_size: q.batch_size,
            }),
        decreases args.len() - i,
    {
        let arg = &args[i];
        proof {
            assert(args@.take(i + 1).drop_last() == args@.take(i as int));
            assert(args@.take(i + 1).last() == *arg);
            if read_args(args@.take(i + 1)) is Err {
                lemma_read_args_error(args@, i + 1);
            }
            lemma_positional_first(args@.take(i as int));
        }
        match arg {
            Arg::Positional(_) => {
                if named.len() > 0 {
                    return Err(Problem::ArgumentOrder);
                }
                positional = positional + 1;
            },
            Arg::Named { name, quoted, value } => {
                let name = if *quoted {
                    name.clone()
                } else {
                    lower_text(name.as_str())
                };
                if named_before(&named, name.as_str()) {
                    return Err(Problem::DuplicateArgument(name));
                }
                let ghost before = named@;
                named.push(name.clone());
                proof {
                    assert(named@.map_values(|s: String| s@) == before.map_values(
                        |s: String| s@,
                    ).push(name@));
                }
                if same_text(name.as_str(), "choice") || same_text(name.as_str(), "score")
                    || same_text(name.as_str(), "noul") {
                    if mode {
                        return Err(Problem::TwoModes);
                    }
                    mode = true;
                    match criteria(value) {
                        Ok(criteria) => {
                            if same_text(name.as_str(), "noul") && criteria.len() == 0 {
                                return Err(Problem::EmptyNoul);
                            }
                            q.kind = name;
                            q.criteria = criteria;
                        },
                        Err(e) => {
                            return Err(e);
                        },
                    }
                } else if same_text(name.as_str(), "batch_size") {
                    match parse_batch_size(value) {
                        Ok(n) => {
                            q.batch_size = n;
                        },
                        Err(e) => {
                            return Err(e);
                        },
                    }
                } else {
                    return Err(Problem::UnknownArgument(name));
                }
            },
            Arg::Other => {
                return Err(Problem::ArgumentOrder);
            },
        }
        i = i + 1;
    }
    proof {
        assert(args@.take(i as int) == args@);
        lemma_positional_first(args@);
    }
    if positional != 2 {
        return Err(Problem::ArgumentCount);
    }
    match (&args[0], &args[1]) {
        (Arg::Positional(input), Arg::Positional(instructions)) => match string(instructions) {
            Ok(instructions) => {
                q.instructions = instructions;
                Ok((input, q))
            },
            Err(e) => Err(e),
        },
        _ => {
            proof {
                assert(args@[0] is Positional);
                assert(args@[1] is Positional);
            }
            Err(Problem::ArgumentCount)
        },
    }
}

/// The call is one of `prompt_jev`: a bare name, in any case, quoted or not. A
/// name with a schema is another function.
pub open spec fn is_prompt_jev(f: Function) -> bool {
    &&& f.name@.len() == 1
    &&& f.name@[0] is Some
    &&& same_ignoring_case(f.name@[0]->0@, PUBLIC_FUNCTION@)
}

/// What becomes of a call: it stays as it is, or it becomes a call of the
/// internal function on the same input and with the question as a constant, or
/// something is wrong with it.
pub open spec fn rewrite_of(f: Function) -> Result<
    Option<(Expr, QuestionView)>,
    Problem<Seq<char>>,
> {
    if !is_prompt_jev(f) {
        Ok(None)
    } else {
        match call_of(f) {
            Ok((input, q)) => match question_problem(q) {
                Some(p) => Err(p),
                None => Ok(Some((input, q))),
            },
            Err(e) => Err(e),
        }
    }
}

/// `f` is a call of the internal function on `input` that carries the
/// configuration `q`.
pub open spec fn is_internal_call(f: Function, input: Expr, q: QuestionView) -> bool {
    &&& f.name@.len() == 1
    &&& f.name@[0] is Some
    &&& f.name@[0]->0@ == INTERNAL_FUNCTION@
    &&& !f.filter && !f.over && !f.null_treatment && !f.within_group && !f.parameters
    &&& f.arguments is List
    &&& !f.arguments->duplicate_treatment
    &&& !f.arguments->clauses
    &&& f.arguments->args@.len() == 2
    &&& f.arguments->args@[0] == Arg::Positional(input)
    &&& f.arguments->args@[1] is Positional
    &&& f.arguments->args@[1]->Positional_0 is Config
    &&& f.arguments->args@[1]->Positional_0->Config_0@ == q
}

/// `after` is what the rewrite leaves of the call `before`.
pub open spec fn rewritten(before: Function, after: Function) -> bool {
    match rewrite_of(before) {
        Ok(Some((input, q))) => is_internal_call(after, input, q),
        _ => after == before,
    }
}

/// Whether a call is one of `prompt_jev`.
fn names_prompt_jev(f: &Function) -> (r: bool)
    ensures
        r == is_prompt_jev(*f),
{
    if f.name.len() != 1 {
        return false;
    }
    match &f.name[0] {
        Some(name) => eq_ignore_ascii_case(name.as_str(), PUBLIC_FUNCTION),
        None => false,
    }
}

/// Rewrite one call, if it is one of `prompt_jev`.
pub fn rewrite_call(f: &mut Function) -> (r: Result<(), PlanError>)
    ensures
        rewritten(*old(f), *final(f)),
        match rewrite_of(*old(f)) {
            Ok(_) => r is Ok,
            Err(p) => r is Err && r->Err_0@ == p,
        },
{
    if !names_prompt_jev(f) {
        return Ok(());
    }
    let q = match parse_call(f) {
        Ok((_, q)) => q,
        Err(e) => {
            return Err(e);
        },
    };
    match q.validate() {
        Ok(_) => {},
        Err(e) => {
            return Err(e);
        },
    }
    match &mut f.arguments {
        Arguments::List { args, .. } => {
            proof {
                lemma_positional_first(args@);
            }
            let input = args.remove(0);
            args.clear();
            args.push(input);
            args.push(Arg::Positional(Expr::Config(q)));
        },
        _ => {},
    }
    f.name = vec![Some(INTERNAL_FUNCTION.to_owned())];
    Ok(())
}

/// Every call of the first `n` is what the rewrite leaves of it, and every other
/// is untouched.
pub open spec fn rewritten_up_to(before: Statement, after: Statement, n: int) -> bool {
    &&& before.calls@.len() == after.calls@.len()
    &&& forall|i: int|
        0 <= i < n ==> rewritten(#[trigger] before.calls@[i], after.calls@[i])
    &&& forall|i: int|
        n <= i < before.calls@.len() ==> #[trigger] before.calls@[i] == after.calls@[i]
}

/// Nothing is wrong with any of the first `n` calls.
pub open spec fn sound_up_to(s: Statement, n: int) -> bool {
    forall|i: int| 0 <= i < n ==> rewrite_of(#[trigger] s.calls@[i]) is Ok
}

/// The rewrite of `before` succeeds and gives `after`.
pub open spec fn rewrites_to(before: Statement, after: Statement) -> bool {
    &&& sound_up_to(before, before.calls@.len() as int)
    &&& rewritten_up_to(before, after, before.calls@.len() as int)
}

/// The rewrite of `before` stops at its first faulty call, number `n`, with the
/// problem `p`, and leaves `after`.
pub open spec fn rewrite_stops(
    before: Statement,
    after: Statement,
    n: int,
    p: Problem<Seq<char>>,
) -> bool {
    &&& 0 <= n < before.calls@.len()
    &&& sound_up_to(before, n)
    &&& rewrite_of(before.calls@[n]) == Err::<Option<(Expr, QuestionView)>, Problem<Seq<char>>>(p)
    &&& rewritten_up_to(before, after, n)
}

/// The rewrite of `before` stops at its first faulty call with the problem `p`
/// and leaves `after`.
pub open spec fn rewrite_fails(before: Statement, after: Statement, p: Problem<Seq<char>>) -> bool {
    exists|n: int| rewrite_stops(before, after, n, p)
}

/// Rewrite every `prompt_jev` call of a statement. Call after parsing and before
/// the statement is planned. Idempotent.
pub fn rewrite_statement(statement: &mut Statement) -> (r: Result<(), PlanError>)
    ensures
        match r {
            Ok(_) => rewrites_to(*old(statement), *final(statement)),
            Err(p) => rewrite_fails(*old(statement), *final(statement), p@),
        },
{
    let ghost before = *statement;
    let mut i: usize = 0;
    while i < statement.calls.len()
        invariant
            before == *old(statement),
            i <= statement.calls@.len(),
            rewritten_up_to(before, *statement, i as int),
            sound_up_to(before, i as int),
        decreases statement.calls@.len() - i,
    {
        proof {
            assert(before.calls@[i as int] == statement.calls@[i as int]);
        }
        match rewrite_call(&mut statement.calls[i]) {
            Ok(_) => {},
            Err(e) => {
                proof {
                    assert(before.calls@[i as int] == statement.calls@[i as int]);
                    assert(rewrite_stops(before, *statement, i as int, e@));
                }
                return Err(e);
            },
        }
        i = i + 1;
    }
    Ok(())
}

/// The statement under any number of `EXPLAIN`s, or the query that is copied.
pub open spec fn explained(p: Parsed) -> Option<Statement>
    decreases p,
{
    match p {
        Parsed::Statement(s) => Some(s),
        Parsed::Copy(s) => Some(s),
        Parsed::Explain(inner) => explained(*inner),
        Parsed::Other => None,
    }
}

/// The same but for the calls of the statement: as many `EXPLAIN`s around a
/// statement of the same form.
pub open spec fn same_form(a: Parsed, b: Parsed) -> bool
    decreases a,
{
    match (a, b) {
        (Parsed::Statement(_), Parsed::Statement(_)) => true,
        (Parsed::Copy(_), Parsed::Copy(_)) => true,
        (Parsed::Explain(x), Parsed::Explain(y)) => same_form(*x, *y),
        (Parsed::Other, Parsed::Other) => true,
        _ => false,
    }
}

/// `r` comes of rewriting `before`, and leaves `after`.
pub open spec fn is_rewrite(before: Parsed, after: Parsed, r: Result<(), PlanError>) -> bool {
    &&& same_form(before, after)
    &&& match explained(before) {
        Some(s) => match r {
            Ok(_) => rewrites_to(s, explained(after)->0),
            Err(p) => rewrite_fails(s, explained(after)->0, p@),
        },
        None => r is Ok && after == before,
    }
}

/// For applications that parse SQL themselves: rewrite `prompt_jev` calls in a
/// parsed statement (also in the query of a COPY, and inside EXPLAIN) so that it
/// can be planned. Safe to call on statements without `prompt_jev`, and safe to
/// call twice.
pub fn rewrite(parsed: &mut Parsed) -> (r: Result<(), PlanError>)
    ensures
        is_rewrite(*old(parsed), *final(parsed), r),
        same_form(*old(parsed), *final(parsed)),
        match explained(*old(parsed)) {
            Some(before) => match r {
                Ok(_) => rewrites_to(before, explained(*final(parsed))->0),
                Err(p) => rewrite_fails(before, explained(*final(parsed))->0, p@),
            },
            None => r is Ok && *final(parsed) == *old(parsed),
        },
    decreases *old(parsed),
{
    match parsed {
        Parsed::Statement(s) => rewrite_statement(s),
        Parsed::Copy(s) => rewrite_statement(s),
        Parsed::Explain(inner) => rewrite(inner),
        Parsed::Other => Ok(()),
    }
}

/// The rewrite leaves no `prompt_jev` call behind.
pub proof fn rewrite_leaves_no_call(before: Statement, after: Statement)
    requires
        rewrites_to(before, after),
    ensures
        forall|i: int| 0 <= i < after.calls@.len() ==> !is_prompt_jev(#[trigger] after.calls@[i]),
{
    assert forall|i: int| 0 <= i < after.calls@.len() implies !is_prompt_jev(
        #[trigger] after.calls@[i],
    ) by {
        assert(rewritten(before.calls@[i], after.calls@[i]));
        reveal_strlit("__datafusion_jev");
        reveal_strlit("prompt_jev");
        assert(INTERNAL_FUNCTION@.len() == 16);
        assert(PUBLIC_FUNCTION@.len() == 10);
    }
}

/// A statement without `prompt_jev` is left as it is, and that is a success.
pub proof fn rewrite_leaves_others_alone(before: Statement, after: Statement)
    requires
        forall|i: int|
            0 <= i < before.calls@.len() ==> !is_prompt_jev(#[trigger] before.calls@[i]),
    ensures
        rewrites_to(before, after) <==> after.calls@ == before.calls@,
        forall|p: Problem<Seq<char>>| !rewrite_fails(before, after, p),
{
    if rewrites_to(before, after) {
        assert forall|i: int| 0 <= i < before.calls@.len() implies before.calls@[i]
            == after.calls@[i] by {
            assert(rewritten(before.calls@[i], after.calls@[i]));
        }
        assert(after.calls@ =~= before.calls@);
    }
}

/// Rewriting twice is rewriting once: the second time succeeds and changes
/// nothing.
pub proof fn rewrite_idempotent(before: Statement, once: Statement, twice: Statement)
    requires
        rewrites_to(before, once),
    ensures
        rewrites_to(once, twice) <==> twice.calls@ == once.calls@,
        forall|p: Problem<Seq<char>>| !rewrite_fails(once, twice, p),
{
    rewrite_leaves_no_call(before, once);
    rewrite_leaves_others_alone(once, twice);
}

/// The configuration of a rewritten call passes validation, so that reading it
/// back does.
pub proof fn rewritten_question_is_valid(f: Function)
    ensures
        match rewrite_of(f) {
            Ok(Some((_, q))) => question_problem(q) is None,
            _ => true,
        },
{
}

/// A question that can be asked: instructions of at most 4,000 characters that
/// are not blank, one to 64 texts in a request, unique labels of at most 256
/// characters that are not blank, descriptions of at most 1,024 characters that
/// are not blank, and criteria that suit the kind of question.
pub open spec fn well_posed(q: QuestionView) -> bool {
    &&& !blank(q.instructions) && q.instructions.len() <= 4_000
    &&& 1 <= q.batch_size <= 64
    &&& forall|i: int|
        0 <= i < q.criteria.len() ==> {
            let c = #[trigger] q.criteria[i];
            &&& !blank(c.label) && c.label.len() <= 256
            &&& c.description matches Some(d) ==> !blank(d) && d.len() <= 1_024
        }
    &&& forall|i: int, j: int|
        0 <= i < j < q.criteria.len() ==> (#[trigger] q.criteria[i]).label != (
        #[trigger] q.criteria[j]).label
    &&& {
        ||| q.kind == "choice"@ && 2 <= q.criteria.len() <= 255
        ||| q.kind == "score"@ && 2 <= q.criteria.len() <= 10
        ||| q.kind == "noul"@ && q.criteria.len() == 0
        ||| {
            &&& q.kind == "noul"@ && q.criteria.len() == 2
            &&& exists|i: int| 0 <= i < 2 && (#[trigger] q.criteria[i]).label == "true"@
            &&& exists|i: int| 0 <= i < 2 && (#[trigger] q.criteria[i]).label == "false"@
        }
    }
}

/// Exactly the questions that can be asked are accepted.
pub proof fn accepted_questions_are_well_posed(q: QuestionView)
    ensures
        question_problem(q) is None <==> well_posed(q),
{
    lemma_criteria_in_order(q.criteria);
    reveal_strlit("choice");
    reveal_strlit("score");
    reveal_strlit("noul");
    assert("choice"@.len() == 6 && "score"@.len() == 5 && "noul"@.len() == 4);
}

/// Criteria without a problem, one by one and in pairs.
spec fn criteria_in_order(criteria: Seq<CriterionView>) -> bool {
    &&& forall|i: int|
        0 <= i < criteria.len() ==> {
            let c = #[trigger] criteria[i];
            &&& !blank(c.label) && c.label.len() <= 256
            &&& c.description matches Some(d) ==> !blank(d) && d.len() <= 1_024
        }
    &&& forall|i: int, j: int|
        0 <= i < j < criteria.len() ==> (#[trigger] criteria[i]).label != (
        #[trigger] criteria[j]).label
}

proof fn lemma_criteria_in_order(criteria: Seq<CriterionView>)
    ensures
        criteria_problem(criteria) is None <==> criteria_in_order(criteria),
    decreases criteria.len(),
{
    if criteria.len() > 0 {
        let front = criteria.drop_last();
        let c = criteria.last();
        let n = criteria.len() - 1;
        lemma_criteria_in_order(front);
        if criteria_in_order(criteria) {
            assert(criteria[n] == c);
            assert forall|i: int| 0 <= i < front.len() implies (#[trigger] front[i]).label
                != c.label by {
                assert(criteria[i].label != criteria[n].label);
            }
            assert forall|i: int| 0 <= i < front.len() implies {
                let c = #[trigger] front[i];
                &&& !blank(c.label) && c.label.len() <= 256
                &&& c.description matches Some(d) ==> !blank(d) && d.len() <= 1_024
            } by {
                assert(front[i] == criteria[i]);
            }
            assert forall|i: int, j: int| 0 <= i < j < front.len() implies (
            #[trigger] front[i]).label != (#[trigger] front[j]).label by {
                assert(criteria[i].label != criteria[j].label);
            }
        }
        if criteria_problem(criteria) is None {
            assert forall|i: int| 0 <= i < criteria.len() implies {
                let c = #[trigger] criteria[i];
                &&& !blank(c.label) && c.label.len() <= 256
                &&& c.description matches Some(d) ==> !blank(d) && d.len() <= 1_024
            } by {
                if i < n {
                    assert(front[i] == criteria[i]);
                }
            }
            assert forall|i: int, j: int| 0 <= i < j < criteria.len() implies (
            #[trigger] criteria[i]).label != (#[trigger] criteria[j]).label by {
                assert(front[i] == criteria[i]);
                if j < n {
                    assert(front[i].label != front[j].label);
                }
            }
        }
    }
}

/// Two readings that differ at most in the order of the options.
spec fn alike(x: Reading, y: Reading) -> bool {
    &&& x.positional == y.positional
    &&& x.named.len() == y.named.len()
    &&& forall|name: Seq<char>| x.named.contains(name) <==> #[trigger] y.named.contains(name)
    &&& x.mode == y.mode
    &&& x.kind == y.kind
    &&& x.criteria == y.criteria
    &&& x.batch_size == y.batch_size
}

proof fn lemma_contains_push(names: Seq<Seq<char>>, new: Seq<char>)
    ensures
        forall|name: Seq<char>| #[trigger]
            names.push(new).contains(name) <==> names.contains(name) || name == new,
{
    let all = names.push(new);
    assert forall|name: Seq<char>| #[trigger] all.contains(name) <==> names.contains(name)
        || name == new by {
        if names.contains(name) {
            assert(all[names.index_of(name)] == name);
        }
        if name == new {
            assert(all[names.len() as int] == name);
        }
        if all.contains(name) && name != new {
            assert(names[all.index_of(name)] == name);
        }
    }
}

proof fn lemma_alike_step(x: Reading, y: Reading, a: Arg)
    requires
        alike(x, y),
        read_arg(x, a) is Ok,
    ensures
        read_arg(y, a) is Ok,
        alike(read_arg(x, a)->Ok_0, read_arg(y, a)->Ok_0),
{
    match a {
        Arg::Named { name, quoted, value } => {
            let known = option_name(name@, quoted);
            assert(y.named.contains(known) <==> x.named.contains(known));
            lemma_contains_push(x.named, known);
            lemma_contains_push(y.named, known);
        },
        _ => {},
    }
}

proof fn lemma_swap(r: Reading, a: Arg, b: Arg)
    requires
        a is Named,
        b is Named,
        read_arg(r, a) is Ok,
        read_arg(read_arg(r, a)->Ok_0, b) is Ok,
    ensures
        read_arg(r, b) is Ok,
        read_arg(read_arg(r, b)->Ok_0, a) is Ok,
        alike(
            read_arg(read_arg(r, a)->Ok_0, b)->Ok_0,
            read_arg(read_arg(r, b)->Ok_0, a)->Ok_0,
        ),
{
    match (a, b) {
        (
            Arg::Named { name: n, quoted: p, .. },
            Arg::Named { name: m, quoted: q, .. },
        ) => {
            let x = option_name(n@, p);
            let y = option_name(m@, q);
            lemma_contains_push(r.named, x);
            lemma_contains_push(r.named, y);
            lemma_contains_push(r.named.push(x), y);
            lemma_contains_push(r.named.push(y), x);
            assert(!r.named.push(x).contains(y));
            assert(x != y);
        },
        _ => {},
    }
}

proof fn lemma_alike_rest(front: Seq<Arg>, swapped: Seq<Arg>, after: Seq<Arg>)
    requires
        read_args(front + after) is Ok,
        read_args(front) is Ok ==> read_args(swapped) is Ok && alike(
            read_args(front)->Ok_0,
            read_args(swapped)->Ok_0,
        ),
    ensures
        read_args(swapped + after) is Ok,
        alike(read_args(front + after)->Ok_0, read_args(swapped + after)->Ok_0),
    decreases after.len(),
{
    if after.len() == 0 {
        assert(front + after == front);
        assert(swapped + after == swapped);
    } else {
        assert((front + after).drop_last() == front + after.drop_last());
        assert((swapped + after).drop_last() == swapped + after.drop_last());
        lemma_alike_rest(front, swapped, after.drop_last());
        lemma_alike_step(
            read_args(front + after.drop_last())->Ok_0,
            read_args(swapped + after.drop_last())->Ok_0,
            after.last(),
        );
    }
}

/// The order of the options does not matter: of a call that can be read, two
/// neighbouring options can change places.
pub proof fn options_can_change_places(before: Seq<Arg>, a: Arg, b: Arg, after: Seq<Arg>)
    requires
        a is Named,
        b is Named,
        call_of_args(before.push(a).push(b) + after) is Ok,
    ensures
        call_of_args(before.push(b).push(a) + after) == call_of_args(
            before.push(a).push(b) + after,
        ),
{
    let front = before.push(a).push(b);
    let swapped = before.push(b).push(a);
    let all = front + after;
    assert(front.drop_last() == before.push(a));
    assert(front.drop_last().drop_last() == before);
    assert(swapped.drop_last() == before.push(b));
    assert(swapped.drop_last().drop_last() == before);
    if read_args(front) is Ok {
        assert(read_args(before.push(a)) is Ok);
        assert(before.push(a).drop_last() == before);
        assert(before.push(b).drop_last() == before);
        let r = read_args(before)->Ok_0;
        assert(read_args(before.push(a)) == read_arg(r, a));
        assert(read_args(front) == read_arg(read_args(before.push(a))->Ok_0, b));
        lemma_swap(r, a, b);
        assert(read_args(before.push(b)) == read_arg(r, b));
        assert(read_args(swapped) == read_arg(read_args(before.push(b))->Ok_0, a));
    }
    lemma_alike_rest(front, swapped, after);
    lemma_positional_first(all);
    assert(all[before.len() as int] == a);
    assert(before.len() >= 2) by {
        if before.len() < 2 {
            assert(all[before.len() as int] is Positional);
        }
    }
    assert((swapped + after)[0] == all[0]);
    assert((swapped + after)[1] == all[1]);
}

/// A question is told by all that it holds, and so is each of its criteria.
pub proof fn a_question_is_told_by_what_it_holds(q: Question, i: int)
    ensures
        q@.instructions == q.instructions@,
        q@.kind == q.kind@,
        q@.batch_size == q.batch_size,
        q@.criteria.len() == q.criteria@.len(),
        0 <= i < q.criteria@.len() ==> {
            &&& q@.criteria[i].label == q.criteria@[i].label@
            &&& q@.criteria[i].description is Some <==> q.criteria@[i].description is Some
            &&& q.criteria@[i].description matches Some(d) ==> q@.criteria[i].description
                == Some(d@)
        },
{
}

/// What is read of criteria and of calls is what they say.
pub proof fn what_is_read_is_what_was_said(
    cs: Result<Vec<Criterion>, PlanError>,
    said: Result<Seq<CriterionView>, Problem<Seq<char>>>,
    call: Result<(&Expr, Question), PlanError>,
    asked: Result<(Expr, QuestionView), Problem<Seq<char>>>,
)
    requires
        criteria_outcome(cs, said),
        call_outcome(call, asked),
    ensures
        cs is Ok <==> said is Ok,
        cs matches Ok(read) ==> read@.len() == said->Ok_0.len() && forall|i: int|
            0 <= i < read@.len() ==> (#[trigger] read@[i])@ == said->Ok_0[i],
        cs matches Err(e) ==> said->Err_0 == e@,
        call is Ok <==> asked is Ok,
        call is Ok ==> *(call->Ok_0).0 == (asked->Ok_0).0 && (call->Ok_0).1@ == (asked->Ok_0).1,
        call matches Err(e) ==> asked->Err_0 == e@,
{
    if cs is Ok {
        let read = cs->Ok_0@;
        assert forall|i: int| 0 <= i < read.len() implies (#[trigger] read[i])@
            == said->Ok_0[i] by {
            assert(criteria_view(read)[i] == read[i]@);
        }
    }
}

} // verus!
