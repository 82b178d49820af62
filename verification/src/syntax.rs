//! What the SQL syntax of a call means: what is read from where, which calls can
//! be read, and what the rewrite keeps of them.
use crate::ast::{Arg, Expr, Field, Function, Parsed, Statement};
use crate::error::{PlanError, Problem};
use crate::names::PUBLIC_FUNCTION;
use crate::sql::{
    accepted_questions_are_well_posed, batch_size_of, call_of, call_of_args, criteria_of,
    criteria_of_all, criteria_problem, criterion_of, criterion_problem, explained, is_rewrite,
    option_name, question_problem, read_arg, read_args, read_field, read_fields, rewrite_fails,
    rewrite_of, rewrite_stops, rewrites_to, rewritten, same_form, well_posed, CriterionView,
    PartialCriterion, QuestionView, Reading,
};
use crate::text::{ascii_lower, blank, lower, spelled_number};
use vstd::prelude::*;
use vstd::string::*;

verus! {

/// The expression is the string literal `text`.
pub open spec fn is_text(e: Expr, text: Seq<char>) -> bool {
    e is Text && e->Text_0@ == text
}

/// The field is the one of that name.
pub open spec fn is_field(f: Field, name: Seq<char>) -> bool {
    f.key@ == name
}

/// The expression writes the criterion: a string literal is its label, and a
/// dictionary gives the label once, the description at most once, and nothing
/// else. A description of `NULL` is none.
pub open spec fn writes_criterion(e: Expr, c: CriterionView) -> bool {
    match e {
        Expr::Text(label) => c.label == label@ && c.description is None,
        Expr::Dictionary(fields) => {
            &&& forall|i: int|
                0 <= i < fields@.len() ==> is_field(#[trigger] fields@[i], "label"@) || is_field(
                    fields@[i],
                    "description"@,
                )
            &&& forall|i: int, j: int|
                0 <= i < j < fields@.len() ==> (#[trigger] fields@[i]).key@ != (
                #[trigger] fields@[j]).key@
            &&& exists|i: int|
                0 <= i < fields@.len() && is_field(#[trigger] fields@[i], "label"@)
            &&& forall|i: int|
                0 <= i < fields@.len() && is_field(#[trigger] fields@[i], "label"@) ==> is_text(
                    fields@[i].value,
                    c.label,
                )
            &&& forall|i: int|
                0 <= i < fields@.len() && is_field(#[trigger] fields@[i], "description"@) ==> (
                if fields@[i].value is Null {
                    c.description is None
                } else {
                    c.description is Some && is_text(fields@[i].value, c.description->0)
                })
            &&& (forall|i: int|
                0 <= i < fields@.len() ==> !is_field(#[trigger] fields@[i], "description"@))
                ==> c.description is None
        },
        _ => false,
    }
}

/// What the fields read so far are, in terms of the fields.
spec fn gives(fields: Seq<Field>, p: PartialCriterion) -> bool {
    &&& forall|i: int|
        0 <= i < fields.len() ==> is_field(#[trigger] fields[i], "label"@) || is_field(
            fields[i],
            "description"@,
        )
    &&& forall|i: int, j: int|
        0 <= i < j < fields.len() ==> (#[trigger] fields[i]).key@ != (#[trigger] fields[j]).key@
    &&& p.label is Some <==> exists|i: int|
        0 <= i < fields.len() && is_field(#[trigger] fields[i], "label"@)
    &&& forall|i: int|
        0 <= i < fields.len() && is_field(#[trigger] fields[i], "label"@) ==> is_text(
            fields[i].value,
            p.label->0,
        )
    &&& p.described <==> exists|i: int|
        0 <= i < fields.len() && is_field(#[trigger] fields[i], "description"@)
    &&& forall|i: int|
        0 <= i < fields.len() && is_field(#[trigger] fields[i], "description"@) ==> (
        if fields[i].value is Null {
            p.description is None
        } else {
            p.description is Some && is_text(fields[i].value, p.description->0)
        })
    &&& !p.described ==> p.description is None
}

proof fn lemma_field_names()
    ensures
        "label"@ != "description"@,
{
    reveal_strlit("label");
    reveal_strlit("description");
    assert("label"@.len() == 5 && "description"@.len() == 11);
}

proof fn lemma_gives(fields: Seq<Field>)
    requires
        read_fields(fields) is Ok,
    ensures
        gives(fields, read_fields(fields)->Ok_0),
    decreases fields.len(),
{
    lemma_field_names();
    if fields.len() > 0 {
        let front = fields.drop_last();
        let n = fields.len() - 1;
        lemma_gives(front);
        let p = read_fields(front)->Ok_0;
        let r = read_fields(fields)->Ok_0;
        assert(fields[n] == fields.last());
        assert(forall|i: int| 0 <= i < n ==> #[trigger] fields[i] == front[i]);
        assert(read_field(p, fields.last()) is Ok);
        assert forall|i: int, j: int| 0 <= i < j < fields.len() implies (
        #[trigger] fields[i]).key@ != (#[trigger] fields[j]).key@ by {
            assert(fields[i] == front[i]);
            if j < n {
                assert(front[i].key@ != front[j].key@);
            } else if fields[i].key@ == fields[j].key@ {
                assert(is_field(front[i], "label"@) || is_field(front[i], "description"@));
            }
        }
        if p.label is Some {
            let i = choose|i: int| 0 <= i < front.len() && is_field(#[trigger] front[i], "label"@);
            assert(is_field(fields[i], "label"@));
        }
        if p.described {
            let i = choose|i: int|
                0 <= i < front.len() && is_field(#[trigger] front[i], "description"@);
            assert(is_field(fields[i], "description"@));
        }
        if exists|i: int| 0 <= i < fields.len() && is_field(#[trigger] fields[i], "label"@) {
            let i = choose|i: int|
                0 <= i < fields.len() && is_field(#[trigger] fields[i], "label"@);
            if i < n {
                assert(is_field(front[i], "label"@));
            }
        }
        if exists|i: int|
            0 <= i < fields.len() && is_field(#[trigger] fields[i], "description"@) {
            let i = choose|i: int|
                0 <= i < fields.len() && is_field(#[trigger] fields[i], "description"@);
            if i < n {
                assert(is_field(front[i], "description"@));
            }
        }
    }
}

/// The field can be read on its own: a label that is text, or a description that is
/// text or `NULL`.
pub open spec fn is_sound(f: Field) -> bool {
    ||| f.key@ == "label"@ && f.value is Text
    ||| f.key@ == "description"@ && (f.value is Text || f.value is Null)
}

proof fn lemma_reads_fields(fields: Seq<Field>)
    requires
        forall|i: int| 0 <= i < fields.len() ==> is_sound(#[trigger] fields[i]),
        forall|i: int, j: int|
            0 <= i < j < fields.len() ==> (#[trigger] fields[i]).key@ != (#[trigger] fields[j]).key@,
    ensures
        read_fields(fields) is Ok,
    decreases fields.len(),
{
    lemma_field_names();
    if fields.len() > 0 {
        let front = fields.drop_last();
        let n = fields.len() - 1;
        assert(forall|i: int| 0 <= i < n ==> #[trigger] fields[i] == front[i]);
        lemma_reads_fields(front);
        lemma_gives(front);
        let p = read_fields(front)->Ok_0;
        assert(fields[n] == fields.last());
        assert(is_sound(fields[n]));
        if p.label is Some {
            let i = choose|i: int| 0 <= i < front.len() && is_field(#[trigger] front[i], "label"@);
            assert(fields[i].key@ != fields[n].key@);
        }
        if p.described {
            let i = choose|i: int|
                0 <= i < front.len() && is_field(#[trigger] front[i], "description"@);
            assert(fields[i].key@ != fields[n].key@);
        }
    }
}

/// A criterion is read exactly from what writes it.
pub proof fn criteria_are_read_as_written(e: Expr, c: CriterionView)
    ensures
        criterion_of(e) == Ok::<CriterionView, Problem<Seq<char>>>(c) <==> writes_criterion(e, c),
{
    lemma_field_names();
    match e {
        Expr::Dictionary(fields) => {
            if criterion_of(e) is Ok {
                lemma_gives(fields@);
            }
            if writes_criterion(e, c) {
                assert forall|i: int| 0 <= i < fields@.len() implies is_sound(
                    #[trigger] fields@[i],
                ) by {
                    assert(is_field(fields@[i], "label"@) || is_field(fields@[i], "description"@));
                }
                lemma_reads_fields(fields@);
                lemma_gives(fields@);
                let p = read_fields(fields@)->Ok_0;
                let i = choose|i: int|
                    0 <= i < fields@.len() && is_field(#[trigger] fields@[i], "label"@);
                assert(is_text(fields@[i].value, p.label->0));
                assert(is_text(fields@[i].value, c.label));
                if p.described {
                    let k = choose|k: int|
                        0 <= k < fields@.len() && is_field(#[trigger] fields@[k], "description"@);
                    assert(p.description == c.description);
                } else {
                    assert forall|k: int| 0 <= k < fields@.len() implies !is_field(
                        #[trigger] fields@[k],
                        "description"@,
                    ) by {}
                }
                assert(p.description == c.description);
                assert(p.label == Some(c.label));
            }
        },
        _ => {},
    }
}

/// The expression writes the criteria: an array with one element for each, in
/// their order.
pub open spec fn writes_criteria(e: Expr, cs: Seq<CriterionView>) -> bool {
    &&& e is Array
    &&& e->Array_0@.len() == cs.len()
    &&& forall|i: int| 0 <= i < cs.len() ==> writes_criterion(#[trigger] e->Array_0@[i], cs[i])
}

proof fn lemma_criteria(elements: Seq<Expr>)
    ensures
        match criteria_of_all(elements) {
            Ok(cs) => cs.len() == elements.len() && forall|i: int|
                0 <= i < elements.len() ==> criterion_of(#[trigger] elements[i]) == Ok::<
                    CriterionView,
                    Problem<Seq<char>>,
                >(cs[i]),
            Err(p) => exists|i: int|
                {
                    &&& 0 <= i < elements.len()
                    &&& criterion_of(#[trigger] elements[i]) == Err::<
                        CriterionView,
                        Problem<Seq<char>>,
                    >(p)
                    &&& forall|j: int|
                        0 <= j < i ==> criterion_of(#[trigger] elements[j]) is Ok
                },
        },
    decreases elements.len(),
{
    if elements.len() > 0 {
        let front = elements.drop_last();
        let n = elements.len() - 1;
        lemma_criteria(front);
        assert(elements[n] == elements.last());
        assert(forall|i: int| 0 <= i < n ==> #[trigger] elements[i] == front[i]);
        match criteria_of_all(front) {
            Ok(cs) => {
                assert forall|j: int| 0 <= j < n implies criterion_of(
                    #[trigger] elements[j],
                ) is Ok by {
                    assert(criterion_of(front[j]) is Ok);
                }
            },
            Err(p) => {
                let i = choose|i: int|
                    {
                        &&& 0 <= i < front.len()
                        &&& criterion_of(#[trigger] front[i]) == Err::<
                            CriterionView,
                            Problem<Seq<char>>,
                        >(p)
                        &&& forall|j: int|
                            0 <= j < i ==> criterion_of(#[trigger] front[j]) is Ok
                    };
                assert(elements[i] == front[i]);
                assert forall|j: int| 0 <= j < i implies criterion_of(
                    #[trigger] elements[j],
                ) is Ok by {
                    assert(elements[j] == front[j]);
                }
            },
        }
    }
}

/// Criteria are read exactly from what writes them, all of them and in order.
pub proof fn all_criteria_are_read_as_written(e: Expr, cs: Seq<CriterionView>)
    ensures
        criteria_of(e) == Ok::<Seq<CriterionView>, Problem<Seq<char>>>(cs) <==> writes_criteria(
            e,
            cs,
        ),
{
    match e {
        Expr::Array(elements) => {
            lemma_criteria(elements@);
            if criteria_of(e) is Ok {
                let read = criteria_of(e)->Ok_0;
                assert forall|i: int| 0 <= i < elements@.len() implies writes_criterion(
                    #[trigger] elements@[i],
                    read[i],
                ) by {
                    criteria_are_read_as_written(elements@[i], read[i]);
                }
            }
            if writes_criteria(e, cs) {
                assert forall|i: int| 0 <= i < cs.len() implies criterion_of(
                    #[trigger] elements@[i],
                ) == Ok::<CriterionView, Problem<Seq<char>>>(cs[i]) by {
                    criteria_are_read_as_written(elements@[i], cs[i]);
                }
                assert(criteria_of(e) is Ok);
                let read = criteria_of(e)->Ok_0;
                assert forall|i: int| 0 <= i < cs.len() implies read[i] == cs[i] by {
                    assert(criterion_of(elements@[i]) is Ok);
                }
                assert(read =~= cs);
            }
        },
        _ => {},
    }
}

/// Of criteria that cannot be read, the first that is no criterion decides what is
/// wrong: anything but an array is no criteria at all.
pub proof fn the_first_bad_criterion_is_told(e: Expr)
    ensures
        criteria_of(e) matches Err(p) ==> if e is Array {
            exists|i: int|
                {
                    &&& 0 <= i < e->Array_0@.len()
                    &&& criterion_of(#[trigger] e->Array_0@[i]) == Err::<
                        CriterionView,
                        Problem<Seq<char>>,
                    >(p)
                    &&& forall|j: int|
                        0 <= j < i ==> criterion_of(#[trigger] e->Array_0@[j]) is Ok
                }
        } else {
            p is NotArray
        },
{
    match e {
        Expr::Array(elements) => lemma_criteria(elements@),
        _ => {},
    }
}

/// What is wrong with a criterion depends on its first field that cannot be read:
/// one given before, one that is no text, or one that means nothing. If there is
/// none, what is wrong is that no field is the label.
pub proof fn criterion_faults_are_told_apart(e: Expr, fields: Seq<Field>, f: Field)
    ensures
        !(e is Text || e is Dictionary) ==> criterion_of(e) == Err::<
            CriterionView,
            Problem<Seq<char>>,
        >(Problem::NotString),
        e is Dictionary && read_fields(e->Dictionary_0@) is Ok && criterion_of(e) is Err ==> (
        criterion_of(e)->Err_0 is MissingLabel && forall|i: int|
            0 <= i < e->Dictionary_0@.len() ==> (#[trigger] e->Dictionary_0@[i]).key@
                != "label"@),
        read_fields(fields) is Ok ==> (match read_fields(fields.push(f)) {
            Ok(_) => is_sound(f) && forall|i: int|
                0 <= i < fields.len() ==> (#[trigger] fields[i]).key@ != f.key@,
            Err(p) => if f.key@ != "label"@ && f.key@ != "description"@ {
                p == Problem::UnknownField(f.key@)
            } else if exists|i: int|
                0 <= i < fields.len() && (#[trigger] fields[i]).key@ == f.key@ {
                p is DuplicateField
            } else {
                p is NotString && !is_sound(f)
            },
        }),
        read_fields(fields) is Err ==> read_fields(fields.push(f)) == read_fields(fields),
{
    lemma_field_names();
    assert(fields.push(f).drop_last() =~= fields);
    if read_fields(fields) is Ok {
        lemma_gives(fields);
        assert(read_fields(fields.push(f)) == read_field(read_fields(fields)->Ok_0, f));
        if exists|i: int| 0 <= i < fields.len() && (#[trigger] fields[i]).key@ == f.key@ {
            let i = choose|i: int| 0 <= i < fields.len() && (#[trigger] fields[i]).key@ == f.key@;
            assert(is_field(fields[i], f.key@));
        }
        if read_fields(fields)->Ok_0.label is Some {
            let i = choose|i: int|
                0 <= i < fields.len() && is_field(#[trigger] fields[i], "label"@);
            assert(fields[i].key@ == "label"@);
        }
        if read_fields(fields)->Ok_0.described {
            let i = choose|i: int|
                0 <= i < fields.len() && is_field(#[trigger] fields[i], "description"@);
            assert(fields[i].key@ == "description"@);
        }
    }
    if e is Dictionary && read_fields(e->Dictionary_0@) is Ok {
        let given = e->Dictionary_0@;
        lemma_gives(given);
        assert forall|i: int|
            criterion_of(e) is Err && 0 <= i < given.len() implies (#[trigger] given[i]).key@
            != "label"@ by {
            assert(!is_field(given[i], "label"@));
        }
    }
}

/// A batch size is read from a number literal that spells a whole number, and from
/// nothing else.
pub proof fn batch_sizes_are_read_as_spelled(e: Expr)
    ensures
        match batch_size_of(e) {
            Ok(n) => e is Number && spelled_number(e->Number_0@) == Some(n as nat),
            Err(p) => p is NotInteger && !(e is Number && spelled_number(e->Number_0@) is Some
                && spelled_number(e->Number_0@)->0 <= usize::MAX),
        },
{
}

/// The argument is the option of that name: in any case, unless it is quoted.
pub open spec fn is_option(a: Arg, name: Seq<char>) -> bool {
    a matches Arg::Named { name: n, quoted, .. } && (if quoted {
        n@
    } else {
        lower(n@)
    }) == name
}

/// The argument says which kind of question is asked.
pub open spec fn is_mode(a: Arg) -> bool {
    is_option(a, "choice"@) || is_option(a, "score"@) || is_option(a, "noul"@)
}

/// The two arguments are the same option.
pub open spec fn same_option(a: Arg, b: Arg) -> bool {
    exists|name: Seq<char>| #[trigger] is_option(a, name) && is_option(b, name)
}

/// The options `args[from..]` say what the question is: each is given once, at
/// most one of them fixes the kind and gives the criteria, and what is not said
/// is taken to be `noul` without criteria in requests of 32 texts.
pub open spec fn options_say(args: Seq<Arg>, from: int, q: QuestionView) -> bool {
    &&& forall|i: int|
        from <= i < args.len() ==> is_mode(#[trigger] args[i]) || is_option(
            args[i],
            "batch_size"@,
        )
    &&& forall|i: int, j: int|
        from <= i < j < args.len() ==> !same_option(#[trigger] args[i], #[trigger] args[j])
    &&& forall|i: int, j: int|
        from <= i < j < args.len() ==> !(is_mode(#[trigger] args[i]) && is_mode(
            #[trigger] args[j],
        ))
    &&& forall|i: int|
        from <= i < args.len() && is_mode(#[trigger] args[i]) ==> {
            &&& is_option(args[i], q.kind)
            &&& writes_criteria(args[i]->value, q.criteria)
            &&& q.kind == "noul"@ ==> q.criteria.len() > 0
        }
    &&& (forall|i: int| from <= i < args.len() ==> !is_mode(#[trigger] args[i])) ==> q.kind
        == "noul"@ && q.criteria.len() == 0
    &&& forall|i: int|
        from <= i < args.len() && is_option(#[trigger] args[i], "batch_size"@) ==> {
            &&& args[i]->value is Number
            &&& spelled_number(args[i]->value->Number_0@) == Some(q.batch_size as nat)
        }
    &&& (forall|i: int| from <= i < args.len() ==> !is_option(#[trigger] args[i], "batch_size"@))
        ==> q.batch_size == 32
}

/// The arguments of a call ask `q` of `input`: the input comes first, the
/// instructions, which are a string literal, come second, and options follow.
pub open spec fn asks(args: Seq<Arg>, input: Expr, q: QuestionView) -> bool {
    &&& args.len() >= 2
    &&& args[0] == Arg::Positional(input)
    &&& args[1] is Positional
    &&& is_text(args[1]->Positional_0, q.instructions)
    &&& options_say(args, 2, q)
}

/// A reading in terms of the arguments read.
spec fn describes(args: Seq<Arg>, r: Reading) -> bool {
    let k = r.positional as int;
    let q = QuestionView {
        instructions: Seq::empty(),
        kind: r.kind,
        criteria: r.criteria,
        batch_size: r.batch_size,
    };
    &&& 0 <= k <= args.len()
    &&& forall|i: int| 0 <= i < k ==> (#[trigger] args[i]) is Positional
    &&& r.named.len() == args.len() - k
    &&& forall|i: int| k <= i < args.len() ==> is_option(#[trigger] args[i], r.named[i - k])
    &&& r.mode <==> exists|i: int| k <= i < args.len() && is_mode(#[trigger] args[i])
    &&& options_say(args, k, q)
}

proof fn lemma_modes()
    ensures
        "choice"@ != "score"@,
        "choice"@ != "noul"@,
        "score"@ != "noul"@,
        "batch_size"@ != "choice"@,
        "batch_size"@ != "score"@,
        "batch_size"@ != "noul"@,
{
    reveal_strlit("choice");
    reveal_strlit("score");
    reveal_strlit("noul");
    reveal_strlit("batch_size");
    assert("choice"@.len() == 6 && "score"@.len() == 5 && "noul"@.len() == 4);
    assert("batch_size"@.len() == 10);
}

proof fn lemma_option_step(front: Seq<Arg>, a: Arg, r: Reading)
    requires
        describes(front, r),
        a is Named,
        read_arg(r, a) is Ok,
    ensures
        describes(front.push(a), read_arg(r, a)->Ok_0),
{
    lemma_modes();
    let args = front.push(a);
    let n = front.len() as int;
    let k = r.positional as int;
    let name = option_name(a->name@, a->quoted);
    let next = read_arg(r, a)->Ok_0;
    assert(is_option(a, name));
    assert(args[n] == a);
    assert(forall|i: int| 0 <= i < n ==> #[trigger] args[i] == front[i]);
    assert(next.named == r.named.push(name));
    assert forall|i: int| k <= i < args.len() implies is_option(
        #[trigger] args[i],
        next.named[i - k],
    ) by {
        if i < n {
            assert(is_option(front[i], r.named[i - k]));
        }
    }
    assert forall|i: int, j: int| k <= i < j < args.len() implies !same_option(
        #[trigger] args[i],
        #[trigger] args[j],
    ) by {
        if j < n {
            assert(!same_option(front[i], front[j]));
        } else if same_option(args[i], args[j]) {
            assert(is_option(front[i], r.named[i - k]));
            let shared = choose|s: Seq<char>|
                #[trigger] is_option(args[i], s) && is_option(args[j], s);
            assert(r.named[i - k] == name);
            assert(r.named.contains(name));
        }
    }
    assert forall|i: int, j: int| k <= i < j < args.len() implies !(is_mode(
        #[trigger] args[i],
    ) && is_mode(#[trigger] args[j])) by {
        if j < n {
            assert(!(is_mode(front[i]) && is_mode(front[j])));
        } else if is_mode(args[i]) {
            assert(is_mode(front[i]));
            assert(r.mode);
        }
    }
    assert(next.mode <==> exists|i: int| k <= i < args.len() && is_mode(#[trigger] args[i])) by {
        if r.mode {
            let i = choose|i: int| k <= i < front.len() && is_mode(#[trigger] front[i]);
            assert(is_mode(args[i]));
        }
        if exists|i: int| k <= i < args.len() && is_mode(#[trigger] args[i]) {
            let i = choose|i: int| k <= i < args.len() && is_mode(#[trigger] args[i]);
            if i < n {
                assert(is_mode(front[i]));
            }
        }
    }
    let q = QuestionView {
        instructions: Seq::empty(),
        kind: next.kind,
        criteria: next.criteria,
        batch_size: next.batch_size,
    };
    if is_mode(a) {
        all_criteria_are_read_as_written(a->value, next.criteria);
        assert(!r.mode);
    } else {
        assert(is_option(a, "batch_size"@));
        batch_sizes_are_read_as_spelled(a->value);
    }
    assert forall|i: int| k <= i < args.len() && is_mode(#[trigger] args[i]) implies {
        &&& is_option(args[i], q.kind)
        &&& writes_criteria(args[i]->value, q.criteria)
        &&& q.kind == "noul"@ ==> q.criteria.len() > 0
    } by {
        if i < n {
            assert(is_mode(front[i]));
            assert(r.mode);
        }
    }
    assert forall|i: int|
        k <= i < args.len() && is_option(#[trigger] args[i], "batch_size"@) implies {
        &&& args[i]->value is Number
        &&& spelled_number(args[i]->value->Number_0@) == Some(q.batch_size as nat)
    } by {
        if i < n {
            assert(is_option(front[i], "batch_size"@));
            if is_option(a, "batch_size"@) {
                assert(same_option(args[i], args[n]));
            }
        }
    }
    if forall|i: int| k <= i < args.len() ==> !is_mode(#[trigger] args[i]) {
        assert(!is_mode(args[n]));
        assert forall|i: int| k <= i < front.len() implies !is_mode(#[trigger] front[i]) by {
            assert(!is_mode(args[i]));
        }
    }
    if forall|i: int| k <= i < args.len() ==> !is_option(#[trigger] args[i], "batch_size"@) {
        assert(!is_option(args[n], "batch_size"@));
        assert forall|i: int| k <= i < front.len() implies !is_option(
            #[trigger] front[i],
            "batch_size"@,
        ) by {
            assert(!is_option(args[i], "batch_size"@));
        }
    }
    assert forall|i: int| k <= i < args.len() implies is_mode(#[trigger] args[i]) || is_option(
        args[i],
        "batch_size"@,
    ) by {
        if i < n {
            assert(is_mode(front[i]) || is_option(front[i], "batch_size"@));
        }
    }
}

proof fn lemma_describes(args: Seq<Arg>)
    requires
        read_args(args) is Ok,
    ensures
        describes(args, read_args(args)->Ok_0),
    decreases args.len(),
{
    lemma_modes();
    if args.len() > 0 {
        let front = args.drop_last();
        let a = args.last();
        lemma_describes(front);
        let r = read_args(front)->Ok_0;
        assert(front.push(a) =~= args);
        match a {
            Arg::Positional(_) => {
                assert(r.positional == front.len());
                assert(forall|i: int| 0 <= i < front.len() ==> #[trigger] args[i] == front[i]);
            },
            _ => {
                lemma_option_step(front, a, r);
            },
        }
    }
}

/// The option can be read on its own.
spec fn can_be_read(a: Arg) -> bool {
    ||| is_mode(a) && criteria_of(a->value) is Ok && !(is_option(a, "noul"@) && criteria_of(
        a->value,
    )->Ok_0.len() == 0)
    ||| is_option(a, "batch_size"@) && batch_size_of(a->value) is Ok
}

proof fn lemma_read_args(args: Seq<Arg>, k: int)
    requires
        0 <= k <= args.len(),
        forall|i: int| 0 <= i < k ==> (#[trigger] args[i]) is Positional,
        forall|i: int| k <= i < args.len() ==> can_be_read(#[trigger] args[i]),
        forall|i: int, j: int|
            k <= i < j < args.len() ==> !same_option(#[trigger] args[i], #[trigger] args[j]),
        forall|i: int, j: int|
            k <= i < j < args.len() ==> !(is_mode(#[trigger] args[i]) && is_mode(
                #[trigger] args[j],
            )),
    ensures
        read_args(args) is Ok,
        read_args(args)->Ok_0.positional == k,
    decreases args.len(),
{
    lemma_modes();
    if args.len() > 0 {
        let front = args.drop_last();
        let a = args.last();
        let n = args.len() - 1;
        assert(args[n] == a);
        assert(forall|i: int| 0 <= i < n ==> #[trigger] args[i] == front[i]);
        if k == args.len() {
            lemma_read_args(front, n);
            lemma_describes(front);
        } else {
            lemma_read_args(front, k);
            lemma_describes(front);
            let r = read_args(front)->Ok_0;
            let name = option_name(a->name@, a->quoted);
            assert(can_be_read(args[n]));
            assert(is_option(a, name));
            if r.named.contains(name) {
                let i = r.named.index_of(name);
                assert(is_option(front[i + k], r.named[i + k - k]));
                assert(same_option(args[i + k], args[n]));
            }
            if r.mode && is_mode(a) {
                let i = choose|i: int| k <= i < front.len() && is_mode(#[trigger] front[i]);
                assert(is_mode(args[i]) && is_mode(args[n]));
            }
        }
    }
}

/// A call is read exactly from the arguments that ask its question: the input from
/// the first, the instructions from the second, and everything else from options.
pub proof fn calls_are_read_as_written(args: Seq<Arg>, input: Expr, q: QuestionView)
    ensures
        call_of_args(args) == Ok::<(Expr, QuestionView), Problem<Seq<char>>>((input, q))
            <==> asks(args, input, q),
{
    lemma_modes();
    if call_of_args(args) is Ok {
        lemma_describes(args);
        assert(args[0] is Positional && args[1] is Positional);
        let (i, p) = call_of_args(args)->Ok_0;
        assert(asks(args, i, p));
    }
    if asks(args, input, q) {
        assert forall|i: int| 2 <= i < args.len() implies can_be_read(#[trigger] args[i]) by {
            if is_mode(args[i]) {
                all_criteria_are_read_as_written(args[i]->value, q.criteria);
            } else {
                batch_sizes_are_read_as_spelled(args[i]->value);
            }
        }
        lemma_read_args(args, 2);
        lemma_describes(args);
        let r = read_args(args)->Ok_0;
        if exists|i: int| 2 <= i < args.len() && is_mode(#[trigger] args[i]) {
            let i = choose|i: int| 2 <= i < args.len() && is_mode(#[trigger] args[i]);
            assert(is_option(args[i], q.kind) && is_option(args[i], r.kind));
            all_criteria_are_read_as_written(args[i]->value, q.criteria);
            all_criteria_are_read_as_written(args[i]->value, r.criteria);
        } else {
            assert(r.criteria =~= q.criteria);
        }
        assert(r.kind == q.kind && r.criteria == q.criteria);
        if exists|i: int| 2 <= i < args.len() && is_option(#[trigger] args[i], "batch_size"@) {
            let i = choose|i: int|
                2 <= i < args.len() && is_option(#[trigger] args[i], "batch_size"@);
            assert(spelled_number(args[i]->value->Number_0@) == Some(q.batch_size as nat));
        }
        assert(r.batch_size == q.batch_size);
    }
}

/// What is wrong with the argument `a` after the arguments `before`, which can be
/// read.
pub open spec fn fault(before: Seq<Arg>, a: Arg) -> Option<Problem<Seq<char>>> {
    match a {
        Arg::Positional(_) => if exists|i: int|
            0 <= i < before.len() && !((#[trigger] before[i]) is Positional) {
            Some(Problem::ArgumentOrder)
        } else {
            None
        },
        Arg::Named { name, quoted, value } => {
            let known = if quoted {
                name@
            } else {
                lower(name@)
            };
            if exists|i: int| 0 <= i < before.len() && is_option(#[trigger] before[i], known) {
                Some(Problem::DuplicateArgument(known))
            } else if is_mode(a) {
                if exists|i: int| 0 <= i < before.len() && is_mode(#[trigger] before[i]) {
                    Some(Problem::TwoModes)
                } else {
                    match criteria_of(value) {
                        Ok(cs) => if known == "noul"@ && cs.len() == 0 {
                            Some(Problem::EmptyNoul)
                        } else {
                            None
                        },
                        Err(p) => Some(p),
                    }
                }
            } else if known == "batch_size"@ {
                match batch_size_of(value) {
                    Ok(_) => None,
                    Err(p) => Some(p),
                }
            } else {
                Some(Problem::UnknownArgument(known))
            }
        },
        Arg::Other => Some(Problem::ArgumentOrder),
    }
}

/// Arguments are read from left to right, and the first that is at fault decides
/// what is wrong.
pub proof fn the_first_fault_is_told(before: Seq<Arg>, a: Arg)
    ensures
        read_args(before) is Ok ==> (match read_args(before.push(a)) {
            Ok(_) => fault(before, a) is None,
            Err(p) => fault(before, a) == Some(p),
        }),
        read_args(before) is Err ==> read_args(before.push(a)) == read_args(before),
{
    lemma_modes();
    assert(before.push(a).drop_last() =~= before);
    if read_args(before) is Ok {
        lemma_describes(before);
        let r = read_args(before)->Ok_0;
        let k = r.positional as int;
        assert(read_args(before.push(a)) == read_arg(r, a));
        if r.named.len() > 0 {
            assert(is_option(before[k], r.named[0]));
            assert(!(before[k] is Positional));
        }
        match a {
            Arg::Named { name, quoted, value } => {
                let known = option_name(name@, quoted);
                if r.named.contains(known) {
                    let i = r.named.index_of(known);
                    assert(is_option(before[i + k], r.named[i + k - k]));
                    assert(is_option(before[i + k], known));
                }
                if exists|i: int| 0 <= i < before.len() && is_option(#[trigger] before[i], known) {
                    let i = choose|i: int|
                        0 <= i < before.len() && is_option(#[trigger] before[i], known);
                    assert(i >= k);
                    assert(is_option(before[i], r.named[i - k]));
                    assert(r.named[i - k] == known);
                    assert(r.named.contains(known));
                }
                if r.mode {
                    let i = choose|i: int| k <= i < before.len() && is_mode(#[trigger] before[i]);
                    assert(is_mode(before[i]));
                }
                if exists|i: int| 0 <= i < before.len() && is_mode(#[trigger] before[i]) {
                    let i = choose|i: int| 0 <= i < before.len() && is_mode(#[trigger] before[i]);
                    assert(i >= k);
                }
            },
            _ => {},
        }
    }
}

/// Arguments that can all be read make no call unless just two of them have no
/// name and the second is a string.
pub proof fn a_call_has_two_positional_arguments(args: Seq<Arg>)
    requires
        read_args(args) is Ok,
    ensures
        call_of_args(args) matches Err(p) ==> if args.len() >= 2 && args[0] is Positional && args[1]
            is Positional && (args.len() == 2 || !(args[2] is Positional)) {
            p is NotString && !(args[1]->Positional_0 is Text)
        } else {
            p is ArgumentCount
        },
{
    lemma_describes(args);
    let r = read_args(args)->Ok_0;
    let k = r.positional as int;
    if k < args.len() {
        assert(is_option(args[k], r.named[k - k]));
    }
    if args.len() >= 2 && k == 1 {
        assert(!(args[1] is Positional));
    }
    if args.len() > 2 && k > 2 {
        assert(args[2] is Positional);
    }
}

/// A call with a modifier of an aggregate or a window function, without an argument
/// list or with a modifier in it is refused, whatever its arguments are.
pub proof fn only_plain_calls_are_read(f: Function)
    ensures
        call_of(f) == (if f.filter || f.over || f.null_treatment || f.within_group
            || f.parameters {
            Err::<(Expr, QuestionView), Problem<Seq<char>>>(Problem::CallModifiers)
        } else if !(f.arguments is List) {
            Err(Problem::NoArguments)
        } else if f.arguments->duplicate_treatment || f.arguments->clauses {
            Err(Problem::ArgumentModifiers)
        } else {
            call_of_args(f.arguments->args@)
        }),
{
}

/// The call is one of `prompt_jev`: its name is a single identifier that is spelled
/// so, each letter small or capital.
pub open spec fn calls_prompt_jev(f: Function) -> bool {
    &&& f.name@.len() == 1
    &&& f.name@[0] is Some
    &&& f.name@[0]->0@.len() == 10
    &&& forall|i: int|
        0 <= i < 10 ==> {
            let c = #[trigger] "prompt_jev"@[i];
            let d = f.name@[0]->0@[i];
            d == c || (c != '_' && d as u32 + 32 == c as u32)
        }
}

proof fn lemma_lower_letter(c: char, d: char)
    requires
        'a' <= c <= 'z' || c == '_',
    ensures
        ascii_lower(d) == ascii_lower(c) <==> d == c || (c != '_' && d as u32 + 32 == c as u32),
{
}

/// The rewrite knows the calls of `prompt_jev` by their name.
pub proof fn calls_are_known_by_name(f: Function)
    ensures
        rewrite_of(f) == Ok::<Option<(Expr, QuestionView)>, Problem<Seq<char>>>(None)
            <==> !calls_prompt_jev(f),
{
    reveal_strlit("prompt_jev");
    let p = "prompt_jev"@;
    assert(p.len() == 10);
    assert(PUBLIC_FUNCTION@ == p);
    if f.name@.len() == 1 && f.name@[0] is Some && f.name@[0]->0@.len() == 10 {
        let n = f.name@[0]->0@;
        assert forall|i: int| 0 <= i < 10 implies (ascii_lower(#[trigger] n[i]) == ascii_lower(p[i])
            <==> n[i] == p[i] || (p[i] != '_' && n[i] as u32 + 32 == p[i] as u32)) by {
            lemma_lower_letter(p[i], n[i]);
        }
        if calls_prompt_jev(f) {
            assert forall|i: int| 0 <= i < n.len() implies ascii_lower(#[trigger] n[i])
                == ascii_lower(PUBLIC_FUNCTION@[i]) by {
                let c = "prompt_jev"@[i];
                assert(n[i] == c || (c != '_' && n[i] as u32 + 32 == c as u32));
            }
        } else if forall|i: int| 0 <= i < n.len() ==> ascii_lower(#[trigger] n[i]) == ascii_lower(
            PUBLIC_FUNCTION@[i],
        ) {
            assert forall|i: int| 0 <= i < 10 implies {
                let c = #[trigger] "prompt_jev"@[i];
                n[i] == c || (c != '_' && n[i] as u32 + 32 == c as u32)
            } by {
                assert(ascii_lower(n[i]) == ascii_lower(PUBLIC_FUNCTION@[i]));
            }
        }
    }
}

/// `after` is the call `before` of `prompt_jev` as it is planned: under the internal
/// name, on the same first argument and with the question that `before` asks, which
/// is well posed, as its only other argument.
pub open spec fn is_planned_as(before: Function, after: Function) -> bool {
    &&& after.name@.len() == 1
    &&& after.name@[0] is Some
    &&& after.name@[0]->0@ == "__datafusion_jev"@
    &&& !after.filter && !after.over && !after.null_treatment && !after.within_group
        && !after.parameters
    &&& before.arguments is List
    &&& after.arguments is List
    &&& !after.arguments->duplicate_treatment
    &&& !after.arguments->clauses
    &&& after.arguments->args@.len() == 2
    &&& after.arguments->args@[0] == before.arguments->args@[0]
    &&& after.arguments->args@[0] is Positional
    &&& after.arguments->args@[1] is Positional
    &&& after.arguments->args@[1]->Positional_0 is Config
    &&& asks(
        before.arguments->args@,
        before.arguments->args@[0]->Positional_0,
        after.arguments->args@[1]->Positional_0->Config_0@,
    )
    &&& well_posed(after.arguments->args@[1]->Positional_0->Config_0@)
}

/// The call asks a question that is well posed, and does so plainly.
pub open spec fn can_be_planned(f: Function) -> bool {
    &&& !f.filter && !f.over && !f.null_treatment && !f.within_group && !f.parameters
    &&& f.arguments is List
    &&& !f.arguments->duplicate_treatment
    &&& !f.arguments->clauses
    &&& exists|input: Expr, q: QuestionView|
        #[trigger] asks(f.arguments->args@, input, q) && well_posed(q)
}

/// A call of `prompt_jev` that can be planned is rewritten on its own first argument
/// and with its own question. Any other call stays as it is.
pub proof fn a_rewritten_call_keeps_its_input(before: Function, after: Function)
    requires
        rewritten(before, after),
    ensures
        if calls_prompt_jev(before) && can_be_planned(before) {
            is_planned_as(before, after)
        } else {
            after == before
        },
{
    calls_are_known_by_name(before);
    if calls_prompt_jev(before) {
        calls_in_order_are_rewritten(before);
    }
    match rewrite_of(before) {
        Ok(Some((input, q))) => {
            let args = before.arguments->args@;
            calls_are_read_as_written(args, input, q);
            accepted_questions_are_well_posed(q);
        },
        _ => {},
    }
}

/// A call of `prompt_jev` is refused exactly if it cannot be planned.
pub proof fn calls_in_order_are_rewritten(f: Function)
    requires
        calls_prompt_jev(f),
    ensures
        rewrite_of(f) is Ok <==> can_be_planned(f),
        rewrite_of(f) is Ok ==> rewrite_of(f)->Ok_0 is Some,
{
    calls_are_known_by_name(f);
    match rewrite_of(f) {
        Ok(Some((input, q))) => {
            calls_are_read_as_written(f.arguments->args@, input, q);
            accepted_questions_are_well_posed(q);
            assert(asks(f.arguments->args@, input, q));
        },
        _ => {
            if can_be_planned(f) {
                let (input, q) = choose|input: Expr, q: QuestionView|
                    #[trigger] asks(f.arguments->args@, input, q) && well_posed(q);
                calls_are_read_as_written(f.arguments->args@, input, q);
                accepted_questions_are_well_posed(q);
            }
        },
    }
}

/// A rewritten statement has the calls that it had, in their order: each call of
/// `prompt_jev` as it is planned, and each other call as it was.
pub proof fn a_statement_is_rewritten_call_by_call(before: Statement, after: Statement)
    requires
        rewrites_to(before, after),
    ensures
        after.calls@.len() == before.calls@.len(),
        forall|i: int|
            0 <= i < before.calls@.len() ==> if calls_prompt_jev(#[trigger] before.calls@[i]) {
                is_planned_as(before.calls@[i], after.calls@[i])
            } else {
                after.calls@[i] == before.calls@[i]
            },
{
    assert forall|i: int| 0 <= i < before.calls@.len() implies if calls_prompt_jev(
        #[trigger] before.calls@[i],
    ) {
        is_planned_as(before.calls@[i], after.calls@[i])
    } else {
        after.calls@[i] == before.calls@[i]
    } by {
        assert(rewritten(before.calls@[i], after.calls@[i]));
        a_rewritten_call_keeps_its_input(before.calls@[i], after.calls@[i]);
        if calls_prompt_jev(before.calls@[i]) {
            calls_in_order_are_rewritten(before.calls@[i]);
        }
    }
}

/// A statement is rewritten exactly if each call of `prompt_jev` in it can be
/// planned. If it is not, the first that cannot decides what is wrong, and the
/// calls from there on are as they were.
pub proof fn the_first_bad_call_is_told(
    before: Statement,
    after: Statement,
    p: Problem<Seq<char>>,
)
    ensures
        rewrites_to(before, after) ==> forall|i: int|
            0 <= i < before.calls@.len() && calls_prompt_jev(#[trigger] before.calls@[i])
                ==> can_be_planned(before.calls@[i]),
        rewrite_fails(before, after, p) ==> exists|n: int|
            {
                &&& 0 <= n < before.calls@.len()
                &&& calls_prompt_jev(#[trigger] before.calls@[n])
                &&& !can_be_planned(before.calls@[n])
                &&& rewrite_of(before.calls@[n]) == Err::<
                    Option<(Expr, QuestionView)>,
                    Problem<Seq<char>>,
                >(p)
                &&& after.calls@.len() == before.calls@.len()
                &&& after.calls@.skip(n) == before.calls@.skip(n)
                &&& forall|i: int|
                    0 <= i < n && calls_prompt_jev(#[trigger] before.calls@[i])
                        ==> can_be_planned(before.calls@[i]) && is_planned_as(
                        before.calls@[i],
                        after.calls@[i],
                    )
            },
{
    if rewrites_to(before, after) {
        assert forall|i: int|
            0 <= i < before.calls@.len() && calls_prompt_jev(
                #[trigger] before.calls@[i],
            ) implies can_be_planned(before.calls@[i]) by {
            assert(rewrite_of(before.calls@[i]) is Ok);
            calls_in_order_are_rewritten(before.calls@[i]);
        }
    }
    if rewrite_fails(before, after, p) {
        let n = choose|n: int| rewrite_stops(before, after, n, p);
        let f = before.calls@[n];
        calls_are_known_by_name(f);
        if !calls_prompt_jev(f) {
            assert(rewrite_of(f) is Ok);
        }
        calls_in_order_are_rewritten(f);
        assert(after.calls@.skip(n) =~= before.calls@.skip(n)) by {
            assert forall|i: int| n <= i < before.calls@.len() implies before.calls@[i]
                == after.calls@[i] by {}
        }
        assert forall|i: int|
            0 <= i < n && calls_prompt_jev(#[trigger] before.calls@[i]) implies can_be_planned(
            before.calls@[i],
        ) && is_planned_as(before.calls@[i], after.calls@[i]) by {
            assert(rewrite_of(before.calls@[i]) is Ok);
            assert(rewritten(before.calls@[i], after.calls@[i]));
            calls_in_order_are_rewritten(before.calls@[i]);
            a_rewritten_call_keeps_its_input(before.calls@[i], after.calls@[i]);
        }
    }
}

/// `p` under `n` `EXPLAIN`s.
pub open spec fn under(n: nat, p: Parsed) -> Parsed
    decreases n,
{
    if n == 0 {
        p
    } else {
        Parsed::Explain(Box::new(under((n - 1) as nat, p)))
    }
}

/// The calls of a statement and of the query of a `COPY` are rewritten, under any
/// number of `EXPLAIN`s, and those of nothing else. What has the same form differs
/// in these calls alone.
pub proof fn statements_are_found_under_explain(n: nat, s: Statement, t: Statement)
    ensures
        explained(under(n, Parsed::Statement(s))) == Some(s),
        explained(under(n, Parsed::Copy(s))) == Some(s),
        explained(under(n, Parsed::Other)) is None,
        forall|p: Parsed| #[trigger]
            same_form(under(n, Parsed::Statement(s)), p) && explained(p) == Some(t) ==> p == under(
                n,
                Parsed::Statement(t),
            ),
        forall|p: Parsed| #[trigger]
            same_form(under(n, Parsed::Copy(s)), p) && explained(p) == Some(t) ==> p == under(
                n,
                Parsed::Copy(t),
            ),
        forall|p: Parsed| #[trigger]
            same_form(under(n, Parsed::Other), p) ==> p == under(n, Parsed::Other),
    decreases n,
{
    reveal_with_fuel(explained, 2);
    reveal_with_fuel(same_form, 2);
    if n > 0 {
        let m: nat = (n - 1) as nat;
        statements_are_found_under_explain(m, s, t);
        assert forall|p: Parsed| #[trigger]
            same_form(under(n, Parsed::Statement(s)), p) && explained(p) == Some(
                t,
            ) implies p == under(n, Parsed::Statement(t)) by {
            assert(same_form(under(m, Parsed::Statement(s)), *p->Explain_0));
        }
        assert forall|p: Parsed| #[trigger]
            same_form(under(n, Parsed::Copy(s)), p) && explained(p) == Some(t) implies p == under(
            n,
            Parsed::Copy(t),
        ) by {
            assert(same_form(under(m, Parsed::Copy(s)), *p->Explain_0));
        }
        assert forall|p: Parsed| #[trigger]
            same_form(under(n, Parsed::Other), p) implies p == under(n, Parsed::Other) by {
            assert(same_form(under(m, Parsed::Other), *p->Explain_0));
        }
    }
}

/// The criterion is in order after the criteria `earlier`, but perhaps for its
/// length.
pub open spec fn is_proper(earlier: Seq<CriterionView>, c: CriterionView) -> bool {
    &&& !blank(c.label)
    &&& c.description matches Some(d) ==> !blank(d)
    &&& forall|i: int| 0 <= i < earlier.len() ==> (#[trigger] earlier[i]).label != c.label
}

/// The criterion is no longer than allowed.
pub open spec fn is_short(c: CriterionView) -> bool {
    &&& c.label.len() <= 256
    &&& c.description matches Some(d) ==> d.len() <= 1_024
}

/// Of a question that cannot be asked, the user is told the first thing that is
/// wrong: the instructions, the batch size, the first criterion that is out of
/// order, and last that the criteria do not suit the kind.
pub proof fn problems_are_told_in_order(q: QuestionView)
    ensures
        question_problem(q) matches Some(p) ==> if blank(q.instructions) {
            p is EmptyInstructions
        } else if q.instructions.len() > 4_000 {
            p is LongInstructions
        } else if q.batch_size < 1 || q.batch_size > 64 {
            p is BatchSizeRange
        } else if exists|i: int|
            0 <= i < q.criteria.len() && !(is_proper(q.criteria.take(i), #[trigger] q.criteria[i])
                && is_short(q.criteria[i])) {
            exists|i: int|
                {
                    &&& 0 <= i < q.criteria.len()
                    &&& if is_proper(q.criteria.take(i), #[trigger] q.criteria[i]) {
                        p is LongCriterion && !is_short(q.criteria[i])
                    } else {
                        p is BadCriterion
                    }
                    &&& forall|j: int|
                        0 <= j < i ==> is_proper(q.criteria.take(j), #[trigger] q.criteria[j])
                            && is_short(q.criteria[j])
                }
        } else {
            p == Problem::BadCriteria(q.kind)
        },
{
    lemma_criteria_problem(q.criteria);
}

proof fn lemma_criteria_problem(cs: Seq<CriterionView>)
    ensures
        match criteria_problem(cs) {
            Some(p) => exists|i: int|
                {
                    &&& 0 <= i < cs.len()
                    &&& if is_proper(cs.take(i), #[trigger] cs[i]) {
                        p is LongCriterion && !is_short(cs[i])
                    } else {
                        p is BadCriterion
                    }
                    &&& forall|j: int|
                        0 <= j < i ==> is_proper(cs.take(j), #[trigger] cs[j]) && is_short(cs[j])
                },
            None => forall|j: int|
                0 <= j < cs.len() ==> is_proper(cs.take(j), #[trigger] cs[j]) && is_short(cs[j]),
        },
    decreases cs.len(),
{
    if cs.len() > 0 {
        let front = cs.drop_last();
        let n = cs.len() - 1;
        lemma_criteria_problem(front);
        assert(cs[n] == cs.last());
        assert(cs.take(n) =~= front);
        assert forall|j: int| 0 <= j < n implies cs[j] == front[j] && #[trigger] cs.take(j)
            == front.take(j) by {
            assert(cs.take(j) =~= front.take(j));
        }
        match criteria_problem(front) {
            Some(p) => {
                let i = choose|i: int|
                    {
                        &&& 0 <= i < front.len()
                        &&& if is_proper(front.take(i), #[trigger] front[i]) {
                            p is LongCriterion && !is_short(front[i])
                        } else {
                            p is BadCriterion
                        }
                        &&& forall|j: int|
                            0 <= j < i ==> is_proper(front.take(j), #[trigger] front[j])
                                && is_short(front[j])
                    };
                assert(cs.take(i) == front.take(i));
                assert forall|j: int| 0 <= j < i implies is_proper(
                    cs.take(j),
                    #[trigger] cs[j],
                ) && is_short(cs[j]) by {
                    assert(cs.take(j) == front.take(j));
                    assert(is_proper(front.take(j), front[j]));
                }
                assert(cs[i] == front[i]);
            },
            None => {
                assert forall|j: int| 0 <= j < n implies is_proper(
                    cs.take(j),
                    #[trigger] cs[j],
                ) && is_short(cs[j]) by {
                    assert(cs.take(j) == front.take(j));
                    assert(is_proper(front.take(j), front[j]));
                }
                assert(is_proper(cs.take(n), cs[n]) <==> !(criterion_problem(front, cs.last())
                    matches Some(Problem::BadCriterion)));
            },
        }
    }
}

/// The calls of `s` are rewritten to those of `t`, or the rewrite of them fails and
/// leaves those of `t`.
pub open spec fn comes_to(s: Statement, t: Statement, r: Result<(), PlanError>) -> bool {
    match r {
        Ok(_) => rewrites_to(s, t),
        Err(p) => rewrite_fails(s, t, p@),
    }
}

proof fn lemma_explained_stays(n: nat, s: Statement, p: Parsed)
    ensures
        same_form(under(n, Parsed::Statement(s)), p) ==> explained(p) is Some,
        same_form(under(n, Parsed::Copy(s)), p) ==> explained(p) is Some,
    decreases n,
{
    if n > 0 {
        let m: nat = (n - 1) as nat;
        if p is Explain {
            lemma_explained_stays(m, s, *p->Explain_0);
        }
    }
}

/// Under any number of `EXPLAIN`s the rewrite of a statement, or of the query of a
/// `COPY`, changes its calls and nothing else. It fails as the rewrite of these calls
/// does. What holds no query is left as it is.
pub proof fn a_rewrite_changes_calls_alone(
    n: nat,
    s: Statement,
    before: Parsed,
    after: Parsed,
    r: Result<(), PlanError>,
)
    requires
        is_rewrite(before, after, r),
    ensures
        before == under(n, Parsed::Other) ==> r is Ok && after == before,
        before == under(n, Parsed::Statement(s)) ==> exists|t: Statement|
            after == under(n, Parsed::Statement(t)) && #[trigger] comes_to(s, t, r),
        before == under(n, Parsed::Copy(s)) ==> exists|t: Statement|
            after == under(n, Parsed::Copy(t)) && #[trigger] comes_to(s, t, r),
{
    let t = explained(after)->0;
    statements_are_found_under_explain(n, s, t);
    lemma_explained_stays(n, s, after);
    if explained(before) == Some(s) {
        assert(comes_to(s, t, r));
    }
}

} // verus!
