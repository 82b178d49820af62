//! Reading answers: from the JSON of a response to typed values.
//!
//! Numbers are held by the bits of their 64-bit float.
use crate::error::{outcome, ExecError, Failure};
use crate::json::{as_bits, as_object, as_str, contents, count, entries, field, get, member, Json};
use crate::number::{is_within, within};
use crate::sql::{
    accepted_questions_are_well_posed, has_label, labelled, question_problem, Question,
    QuestionView,
};
use crate::text::{decimal, decimal_injective, decimal_text, same_text};
use vstd::prelude::*;
use vstd::string::*;

verus! {

/// One criterion of an answer and its probability. A score numbers its levels.
#[derive(Debug)]
pub struct Entry {
    pub index: Option<u32>,
    pub value: String,
    pub probability: u64,
}

/// An entry by the characters of its text.
pub struct EntryView {
    pub index: Option<u32>,
    pub value: Seq<char>,
    pub probability: u64,
}

impl View for Entry {
    type V = EntryView;

    open spec fn view(&self) -> EntryView {
        EntryView { index: self.index, value: self.value@, probability: self.probability }
    }
}

/// Entries by the characters of their text.
pub open spec fn entry_views(es: Seq<Entry>) -> Seq<EntryView> {
    es.map_values(|e: Entry| e@)
}

/// A typed answer.
#[derive(Debug)]
pub enum Answer {
    Noul(u64),
    Choice { choice: String, probabilities: Vec<Entry>, confidence: u64 },
    Score { score: u64, probabilities: Vec<Entry>, confidence: u64 },
}

/// An answer by the characters of its text.
pub enum AnswerView {
    Noul(u64),
    Choice { choice: Seq<char>, probabilities: Seq<EntryView>, confidence: u64 },
    Score { score: u64, probabilities: Seq<EntryView>, confidence: u64 },
}

impl View for Answer {
    type V = AnswerView;

    open spec fn view(&self) -> AnswerView {
        match *self {
            Answer::Noul(bits) => AnswerView::Noul(bits),
            Answer::Choice { choice, probabilities, confidence } => AnswerView::Choice {
                choice: choice@,
                probabilities: entry_views(probabilities@),
                confidence,
            },
            Answer::Score { score, probabilities, confidence } => AnswerView::Score {
                score,
                probabilities: entry_views(probabilities@),
                confidence,
            },
        }
    }
}

fn copy_entries(es: &Vec<Entry>) -> (r: Vec<Entry>)
    ensures
        entry_views(r@) == entry_views(es@),
{
    let mut r: Vec<Entry> = Vec::new();
    let mut i: usize = 0;
    while i < es.len()
        invariant
            i <= es.len(),
            entry_views(r@) == entry_views(es@).take(i as int),
        decreases es.len() - i,
    {
        let e = Entry {
            index: es[i].index,
            value: es[i].value.clone(),
            probability: es[i].probability,
        };
        let ghost before = r@;
        r.push(e);
        proof {
            assert(entry_views(r@) == entry_views(before).push(e@));
            assert(entry_views(es@).take(i + 1) == entry_views(es@).take(i as int).push(
                entry_views(es@)[i as int],
            ));
        }
        i = i + 1;
    }
    proof {
        assert(entry_views(es@).take(i as int) == entry_views(es@));
    }
    r
}

impl Clone for Answer {
    fn clone(&self) -> (r: Self)
        ensures
            r@ == self@,
    {
        match self {
            Answer::Noul(bits) => Answer::Noul(*bits),
            Answer::Choice { choice, probabilities, confidence } => Answer::Choice {
                choice: choice.clone(),
                probabilities: copy_entries(probabilities),
                confidence: *confidence,
            },
            Answer::Score { score, probabilities, confidence } => Answer::Score {
                score: *score,
                probabilities: copy_entries(probabilities),
                confidence: *confidence,
            },
        }
    }
}

/// The bits of a number from zero to `upper`, if the value is one.
pub open spec fn number_in(json: Json, upper: nat) -> Option<u64> {
    match json {
        Json::Number { bits, .. } => if within(bits, upper) {
            Some(bits)
        } else {
            None
        },
        _ => None,
    }
}

/// Read a number from zero to `upper`.
pub fn number(value: &serde_json::Value, upper: u64) -> (r: Result<u64, ExecError>)
    requires
        1 <= upper < crate::number::FRACTIONS,
    ensures
        match number_in(contents(*value), upper as nat) {
            Some(bits) => r == Ok::<u64, ExecError>(bits),
            None => r is Err && r->Err_0@ == Failure::<Seq<char>>::BadNumber,
        },
{
    match as_bits(value) {
        Some(bits) => {
            if is_within(bits, upper) {
                Ok(bits)
            } else {
                Err(Failure::BadNumber)
            }
        },
        None => Err(Failure::BadNumber),
    }
}

/// The name under which a response has the probability of a criterion: its
/// label, or for a score the number of its level.
pub open spec fn probability_key(q: QuestionView, i: int) -> Seq<char> {
    if q.kind == "score"@ {
        decimal(i as nat)
    } else {
        q.criteria[i].label
    }
}

/// What the object `m` has for a criterion.
pub open spec fn probability_of(q: QuestionView, m: Map<Seq<char>, Json>, i: int) -> Option<u64> {
    number_in(member(Json::Object(m), probability_key(q, i)), 1)
}

/// Every criterion has a probability.
pub open spec fn all_have_probability(q: QuestionView, m: Map<Seq<char>, Json>) -> bool {
    forall|i: int| 0 <= i < q.criteria.len() ==> (#[trigger] probability_of(q, m, i)) is Some
}

/// The entry for a criterion.
pub open spec fn entry_of(q: QuestionView, m: Map<Seq<char>, Json>, i: int) -> EntryView {
    EntryView {
        index: if q.kind == "score"@ {
            Some(i as u32)
        } else {
            None
        },
        value: q.criteria[i].label,
        probability: probability_of(q, m, i)->0,
    }
}

/// The entries of an answer: one for each criterion, in the order of the
/// question.
pub open spec fn entries_of(q: QuestionView, m: Map<Seq<char>, Json>) -> Seq<EntryView> {
    Seq::new(q.criteria.len(), |i: int| entry_of(q, m, i))
}

/// The probabilities of an answer, as far as they can be read: the answer is of
/// the type asked for, which has probabilities, and has one for each criterion.
pub open spec fn readable(q: QuestionView, json: Json) -> Option<Map<Seq<char>, Json>> {
    if member(json, "type"@) == Json::Text(q.kind) && q.kind != "noul"@ {
        match member(json, "probabilities"@) {
            Json::Object(m) => if m.len() == q.criteria.len() && all_have_probability(q, m) {
                Some(m)
            } else {
                None
            },
            _ => None,
        }
    } else {
        None
    }
}

/// What an answer says, or the first thing that is wrong with it. `balanced` says
/// whether its probabilities sum to one.
pub open spec fn answer_of(q: QuestionView, json: Json, balanced: bool) -> Result<
    AnswerView,
    Failure<Seq<char>>,
> {
    if member(json, "type"@) != Json::Text(q.kind) {
        Err(Failure::AnswerType)
    } else if q.kind == "noul"@ {
        match number_in(member(json, "noul"@), 1) {
            Some(bits) => Ok(AnswerView::Noul(bits)),
            None => Err(Failure::BadNumber),
        }
    } else {
        match member(json, "probabilities"@) {
            Json::Object(m) => if m.len() != q.criteria.len() {
                Err(Failure::ProbabilityCount)
            } else if !all_have_probability(q, m) {
                Err(Failure::BadNumber)
            } else if !balanced {
                Err(Failure::ProbabilitySum)
            } else {
                decision_of(q, json, entries_of(q, m))
            },
            _ => Err(Failure::OmittedProbabilities),
        }
    }
}

/// The choice or the score, and how sure it is.
pub open spec fn decision_of(q: QuestionView, json: Json, probabilities: Seq<EntryView>) -> Result<
    AnswerView,
    Failure<Seq<char>>,
> {
    let confidence = number_in(member(json, "confidence"@), 1);
    if q.kind == "choice"@ {
        match member(json, "choice"@) {
            Json::Text(choice) => if !has_label(q.criteria, choice) {
                Err(Failure::UnknownChoice)
            } else if confidence is None {
                Err(Failure::BadNumber)
            } else {
                Ok(AnswerView::Choice { choice, probabilities, confidence: confidence->0 })
            },
            _ => Err(Failure::UnknownChoice),
        }
    } else {
        match number_in(member(json, "score"@), (q.criteria.len() - 1) as nat) {
            Some(score) => if confidence is None {
                Err(Failure::BadNumber)
            } else {
                Ok(AnswerView::Score { score, probabilities, confidence: confidence->0 })
            },
            None => Err(Failure::BadNumber),
        }
    }
}

/// Read the entry for each criterion, if all of them are there.
fn read_entries(
    q: &Question,
    object: &serde_json::Map<String, serde_json::Value>,
) -> (r: Option<Vec<Entry>>)
    requires
        q.criteria@.len() <= u32::MAX,
    ensures
        match r {
            Some(es) => all_have_probability(q@, entries(*object)) && entry_views(es@)
                == entries_of(q@, entries(*object)),
            None => !all_have_probability(q@, entries(*object)),
        },
{
    let ghost m = entries(*object);
    let ghost want = entries_of(q@, m);
    let scored = same_text(q.kind.as_str(), "score");
    let mut es: Vec<Entry> = Vec::new();
    let mut i: usize = 0;
    while i < q.criteria.len()
        invariant
            q.criteria@.len() <= u32::MAX,
            m == entries(*object),
            want == entries_of(q@, m),
            scored == (q@.kind == "score"@),
            i <= q.criteria.len(),
            forall|j: int| 0 <= j < i ==> (#[trigger] probability_of(q@, m, j)) is Some,
            entry_views(es@) == want.take(i as int),
        decreases q.criteria.len() - i,
    {
        let c = &q.criteria[i];
        let key = if scored {
            decimal_text(i)
        } else {
            c.label.clone()
        };
        proof {
            assert(q@.criteria[i as int] == c@);
            assert(key@ == probability_key(q@, i as int));
        }
        let read = match get(object, key.as_str()) {
            Some(value) => number(value, 1),
            None => Err(Failure::BadNumber),
        };
        let probability = match read {
            Ok(bits) => bits,
            Err(_) => {
                proof {
                    assert(probability_of(q@, m, i as int) is None);
                }
                return None;
            },
        };
        let index = if scored {
            Some(i as u32)
        } else {
            None
        };
        let e = Entry { index, value: c.label.clone(), probability };
        let ghost before = es@;
        es.push(e);
        proof {
            assert(e@ == entry_of(q@, m, i as int));
            assert(entry_views(es@) == entry_views(before).push(e@));
            assert(want.take(i + 1) == want.take(i as int).push(want[i as int]));
        }
        i = i + 1;
    }
    proof {
        assert(want.take(i as int) == want);
    }
    Some(es)
}

/// The probabilities that must sum to one, in the order of the criteria, if the
/// answer is in order so far as to have them.
pub fn probabilities(q: &Question, value: &serde_json::Value) -> (r: Option<Vec<u64>>)
    requires
        question_problem(q@) is None,
    ensures
        match readable(q@, contents(*value)) {
            Some(m) => r is Some && r->0@ == entries_of(q@, m).map_values(
                |e: EntryView| e.probability,
            ),
            None => r is None,
        },
{
    let kind = q.kind.as_str();
    match as_str(field(value, "type")) {
        Some(t) => {
            if !same_text(t, kind) {
                return None;
            }
        },
        None => {
            return None;
        },
    }
    if same_text(kind, "noul") {
        return None;
    }
    match as_object(field(value, "probabilities")) {
        Some(object) => {
            if count(object) != q.criteria.len() {
                return None;
            }
            match read_entries(q, object) {
                Some(es) => {
                    let ghost m = entries(*object);
                    let mut r: Vec<u64> = Vec::new();
                    let mut i: usize = 0;
                    while i < es.len()
                        invariant
                            entry_views(es@) == entries_of(q@, m),
                            i <= es.len(),
                            r@.len() == i,
                            forall|j: int|
                                0 <= j < i ==> #[trigger] r@[j] == entries_of(
                                    q@,
                                    m,
                                )[j].probability,
                        decreases es.len() - i,
                    {
                        proof {
                            assert(entry_views(es@)[i as int] == es@[i as int]@);
                        }
                        r.push(es[i].probability);
                        i = i + 1;
                    }
                    proof {
                        assert(es@.len() == entry_views(es@).len());
                    }
                    Some(r)
                },
                None => None,
            }
        },
        None => None,
    }
}

/// The probabilities are named by the criteria alone.
pub open spec fn names_only_criteria(q: QuestionView, m: Map<Seq<char>, Json>) -> bool {
    forall|key: Seq<char>| #[trigger] m.contains_key(key) <==> is_probability_key(q, key)
}

/// The response has the probability of some criterion under this name.
pub open spec fn is_probability_key(q: QuestionView, key: Seq<char>) -> bool {
    exists|i: int| 0 <= i < q.criteria.len() && #[trigger] probability_key(q, i) == key
}

/// As many members as criteria, and one for each criterion, leave room for no
/// other.
proof fn lemma_names_only_criteria(q: QuestionView, m: Map<Seq<char>, Json>)
    requires
        question_problem(q) is None,
        m.dom().finite(),
        m.len() == q.criteria.len(),
        all_have_probability(q, m),
    ensures
        names_only_criteria(q, m),
{
    accepted_questions_are_well_posed(q);
    let keys = Seq::new(q.criteria.len(), |i: int| probability_key(q, i));
    assert(keys.no_duplicates()) by {
        assert forall|i: int, j: int| 0 <= i < j < keys.len() implies keys[i] != keys[j] by {
            if q.kind == "score"@ {
                if decimal(i as nat) == decimal(j as nat) {
                    decimal_injective(i as nat, j as nat);
                }
            } else {
                assert(q.criteria[i].label != q.criteria[j].label);
            }
        }
    }
    keys.unique_seq_to_set();
    assert forall|key: Seq<char>| keys.to_set().contains(key) implies m.dom().contains(key) by {
        let i = keys.index_of(key);
        assert(probability_of(q, m, i) is Some);
    }
    vstd::set_lib::lemma_subset_equality(keys.to_set(), m.dom());
    assert forall|key: Seq<char>| #[trigger] m.contains_key(key) <==> is_probability_key(
        q,
        key,
    ) by {
        if m.contains_key(key) {
            assert(keys.to_set().contains(key));
            let i = keys.index_of(key);
            assert(probability_key(q, i) == key);
        }
        if is_probability_key(q, key) {
            let i = choose|i: int| 0 <= i < q.criteria.len() && #[trigger] probability_key(q, i) == key;
            assert(keys[i] == key);
            assert(keys.to_set().contains(key));
        }
    }
}

/// Read an answer. `balanced` says whether its probabilities sum to one, and
/// counts only where there are any to sum.
pub fn answer(q: &Question, value: &serde_json::Value, balanced: bool) -> (r: Result<
    Answer,
    ExecError,
>)
    requires
        question_problem(q@) is None,
    ensures
        outcome(r, answer_of(q@, contents(*value), balanced)),
        r is Ok && q@.kind != "noul"@ ==> {
            let probabilities = member(contents(*value), "probabilities"@);
            probabilities is Object && names_only_criteria(q@, probabilities->Object_0)
        },
{
    let kind = q.kind.as_str();
    match as_str(field(value, "type")) {
        Some(t) => {
            if !same_text(t, kind) {
                return Err(Failure::AnswerType);
            }
        },
        None => {
            return Err(Failure::AnswerType);
        },
    }
    if same_text(kind, "noul") {
        return match number(field(value, "noul"), 1) {
            Ok(bits) => Ok(Answer::Noul(bits)),
            Err(e) => Err(e),
        };
    }
    let object = match as_object(field(value, "probabilities")) {
        Some(object) => object,
        None => {
            return Err(Failure::OmittedProbabilities);
        },
    };
    if count(object) != q.criteria.len() {
        return Err(Failure::ProbabilityCount);
    }
    let probabilities = match read_entries(q, object) {
        Some(es) => es,
        None => {
            return Err(Failure::BadNumber);
        },
    };
    proof {
        lemma_names_only_criteria(q@, entries(*object));
    }
    // Providers round each probability independently, so the error a valid
    // answer can accumulate grows with the number of criteria.
    if !balanced {
        return Err(Failure::ProbabilitySum);
    }
    if same_text(kind, "choice") {
        let choice = match as_str(field(value, "choice")) {
            Some(s) => {
                proof {
                    assert(q@.criteria.take(q@.criteria.len() as int) == q@.criteria);
                }
                if !labelled(&q.criteria, q.criteria.len(), s) {
                    return Err(Failure::UnknownChoice);
                }
                s.to_owned()
            },
            None => {
                return Err(Failure::UnknownChoice);
            },
        };
        let confidence = match number(field(value, "confidence"), 1) {
            Ok(bits) => bits,
            Err(e) => {
                return Err(e);
            },
        };
        Ok(Answer::Choice { choice, probabilities, confidence })
    } else {
        let score = match number(field(value, "score"), (q.criteria.len() - 1) as u64) {
            Ok(bits) => bits,
            Err(e) => {
                return Err(e);
            },
        };
        let confidence = match number(field(value, "confidence"), 1) {
            Ok(bits) => bits,
            Err(e) => {
                return Err(e);
            },
        };
        Ok(Answer::Score { score, probabilities, confidence })
    }
}

/// The answer has the form that the question asks for: for `choice` and `score`
/// one probability for each criterion, in the order of the question, and every
/// number in its range.
pub open spec fn fits(q: QuestionView, a: AnswerView) -> bool {
    match a {
        AnswerView::Noul(bits) => q.kind == "noul"@ && within(bits, 1),
        AnswerView::Choice { choice, probabilities, confidence } => {
            &&& q.kind == "choice"@
            &&& has_label(q.criteria, choice)
            &&& entries_fit(q, probabilities)
            &&& within(confidence, 1)
        },
        AnswerView::Score { score, probabilities, confidence } => {
            &&& q.kind == "score"@
            &&& within(score, (q.criteria.len() - 1) as nat)
            &&& entries_fit(q, probabilities)
            &&& within(confidence, 1)
        },
    }
}

/// One entry for each criterion, in the order of the question.
pub open spec fn entries_fit(q: QuestionView, es: Seq<EntryView>) -> bool {
    &&& es.len() == q.criteria.len()
    &&& forall|i: int|
        0 <= i < es.len() ==> {
            let e = #[trigger] es[i];
            &&& e.value == q.criteria[i].label
            &&& e.index == if q.kind == "score"@ {
                Some(i as u32)
            } else {
                None
            }
            &&& within(e.probability, 1)
        }
}

/// Whatever a response says, an answer that is accepted has the form that the
/// question asks for.
pub proof fn accepted_answers_fit(q: QuestionView, json: Json, balanced: bool)
    requires
        question_problem(q) is None,
        answer_of(q, json, balanced) is Ok,
    ensures
        fits(q, answer_of(q, json, balanced)->Ok_0),
{
    if q.kind != "noul"@ {
        match member(json, "probabilities"@) {
            Json::Object(m) => {
                let es = entries_of(q, m);
                assert forall|i: int| 0 <= i < es.len() implies within(
                    (#[trigger] es[i]).probability,
                    1,
                ) by {
                    assert(probability_of(q, m, i) is Some);
                }
            },
            _ => {},
        }
    }
}

/// Whether the probabilities sum to one counts exactly where they can be read:
/// there an answer that does not is refused, and elsewhere it changes nothing.
pub proof fn balance_counts_where_probabilities_are(q: QuestionView, json: Json)
    ensures
        match readable(q, json) {
            Some(_) => answer_of(q, json, false) == Err::<AnswerView, Failure<Seq<char>>>(
                Failure::ProbabilitySum,
            ),
            None => answer_of(q, json, false) == answer_of(q, json, true),
        },
{
}

/// The value is the number with these bits.
pub open spec fn is_number(json: Json, bits: u64) -> bool {
    json matches Json::Number { bits: b, .. } && b == bits
}

/// The value is a number from zero to `upper`.
pub open spec fn is_ranged(json: Json, upper: nat) -> bool {
    json matches Json::Number { bits, .. } && within(bits, upper)
}

/// The member of the reply's probabilities that is about criterion `i`: the one
/// under its label, or for a score under its position.
pub open spec fn said_of(q: QuestionView, json: Json, i: int) -> Json {
    member(
        member(json, "probabilities"@),
        if q.kind == "score"@ {
            decimal(i as nat)
        } else {
            q.criteria[i].label
        },
    )
}

/// The entries repeat what the reply says of each criterion. Those of a score are
/// numbered from zero.
pub open spec fn repeats_the_reply(q: QuestionView, json: Json, es: Seq<EntryView>) -> bool {
    &&& es.len() == q.criteria.len()
    &&& forall|i: int|
        0 <= i < es.len() ==> {
            &&& (#[trigger] es[i]).value == q.criteria[i].label
            &&& es[i].index is Some <==> q.kind == "score"@
            &&& q.kind == "score"@ ==> es[i].index == Some(i as u32)
            &&& is_number(said_of(q, json, i), es[i].probability)
        }
}

/// An accepted answer is the one that the service gave: the choice, score or
/// probability is the member of that name, and so is the confidence, and each
/// criterion has the probability that the reply gives it.
pub proof fn an_answer_is_what_the_service_said(q: QuestionView, json: Json, balanced: bool)
    requires
        answer_of(q, json, balanced) is Ok,
    ensures
        member(json, "type"@) == Json::Text(q.kind),
        match answer_of(q, json, balanced)->Ok_0 {
            AnswerView::Noul(bits) => {
                &&& q.kind == "noul"@
                &&& is_number(member(json, "noul"@), bits)
            },
            AnswerView::Choice { choice, probabilities, confidence } => {
                &&& q.kind == "choice"@
                &&& member(json, "choice"@) == Json::Text(choice)
                &&& repeats_the_reply(q, json, probabilities)
                &&& is_number(member(json, "confidence"@), confidence)
            },
            AnswerView::Score { score, probabilities, confidence } => {
                &&& q.kind != "noul"@ && q.kind != "choice"@
                &&& is_number(member(json, "score"@), score)
                &&& repeats_the_reply(q, json, probabilities)
                &&& is_number(member(json, "confidence"@), confidence)
            },
        },
{
    if q.kind != "noul"@ {
        match member(json, "probabilities"@) {
            Json::Object(m) => {
                let es = entries_of(q, m);
                assert forall|i: int| 0 <= i < es.len() implies (#[trigger] es[i]).value
                    == q.criteria[i].label && is_number(
                    said_of(q, json, i),
                    es[i].probability,
                ) by {
                    assert(probability_of(q, m, i) is Some);
                }
            },
            _ => {},
        }
    }
}

/// The reply has a probability from zero to one for each criterion, and as many
/// members as there are criteria.
pub open spec fn has_probabilities(q: QuestionView, json: Json) -> bool {
    &&& member(json, "probabilities"@) matches Json::Object(m)
    &&& m.len() == q.criteria.len()
    &&& forall|i: int| 0 <= i < q.criteria.len() ==> is_ranged(#[trigger] said_of(q, json, i), 1)
}

/// The reply chooses one of the labels.
pub open spec fn chooses_a_label(q: QuestionView, json: Json) -> bool {
    exists|i: int|
        0 <= i < q.criteria.len() && member(json, "choice"@) == Json::Text(
            (#[trigger] q.criteria[i]).label,
        )
}

/// A reply is accepted exactly if all that it must say is there and in range.
/// Which choice it makes, and how sure it is, plays no part.
pub proof fn replies_in_order_are_accepted(q: QuestionView, json: Json, balanced: bool)
    requires
        question_problem(q) is None,
    ensures
        answer_of(q, json, balanced) is Ok <==> {
            &&& member(json, "type"@) == Json::Text(q.kind)
            &&& q.kind == "noul"@ ==> is_ranged(member(json, "noul"@), 1)
            &&& q.kind != "noul"@ ==> has_probabilities(q, json) && balanced && is_ranged(
                member(json, "confidence"@),
                1,
            )
            &&& q.kind == "choice"@ ==> chooses_a_label(q, json)
            &&& q.kind == "score"@ ==> is_ranged(
                member(json, "score"@),
                (q.criteria.len() - 1) as nat,
            )
        },
{
    lemma_kinds_differ();
    lemma_probabilities(q, json);
    lemma_choice(q, json);
}

proof fn lemma_kinds_differ()
    ensures
        "noul"@ != "choice"@,
        "noul"@ != "score"@,
        "choice"@ != "score"@,
{
    reveal_strlit("noul");
    reveal_strlit("choice");
    reveal_strlit("score");
    assert("noul"@.len() == 4 && "choice"@.len() == 6 && "score"@.len() == 5);
}

proof fn lemma_probabilities(q: QuestionView, json: Json)
    ensures
        has_probabilities(q, json) <==> {
            &&& member(json, "probabilities"@) matches Json::Object(m)
            &&& m.len() == q.criteria.len()
            &&& all_have_probability(q, m)
        },
{
    match member(json, "probabilities"@) {
        Json::Object(m) => {
            assert forall|i: int| 0 <= i < q.criteria.len() implies is_ranged(
                #[trigger] said_of(q, json, i),
                1,
            ) == probability_of(q, m, i) is Some by {}
            if all_have_probability(q, m) {
                assert forall|i: int| 0 <= i < q.criteria.len() implies is_ranged(
                    #[trigger] said_of(q, json, i),
                    1,
                ) by {
                    assert(probability_of(q, m, i) is Some);
                }
            }
            if forall|i: int|
                0 <= i < q.criteria.len() ==> is_ranged(#[trigger] said_of(q, json, i), 1) {
                assert forall|i: int| 0 <= i < q.criteria.len() implies (
                #[trigger] probability_of(q, m, i)) is Some by {
                    assert(is_ranged(said_of(q, json, i), 1));
                }
            }
        },
        _ => {},
    }
}

proof fn lemma_choice(q: QuestionView, json: Json)
    ensures
        chooses_a_label(q, json) <==> {
            &&& member(json, "choice"@) matches Json::Text(s)
            &&& has_label(q.criteria, s)
        },
{
    match member(json, "choice"@) {
        Json::Text(s) => {
            if has_label(q.criteria, s) {
                let i = choose|i: int|
                    0 <= i < q.criteria.len() && (#[trigger] q.criteria[i]).label == s;
                assert(member(json, "choice"@) == Json::Text(q.criteria[i].label));
            }
        },
        _ => {},
    }
}

/// Each fault of a reply is told by its own name, and the first one counts.
pub proof fn faults_are_told_apart(q: QuestionView, json: Json, balanced: bool)
    requires
        question_problem(q) is None,
        answer_of(q, json, balanced) is Err,
    ensures
        ({
            let fault = answer_of(q, json, balanced)->Err_0;
            let listed = member(json, "probabilities"@);
            let typed = member(json, "type"@) == Json::Text(q.kind);
            &&& fault is AnswerType <==> !typed
            &&& fault is OmittedProbabilities <==> typed && q.kind != "noul"@ && !(listed is Object)
            &&& fault is ProbabilityCount <==> typed && q.kind != "noul"@ && listed is Object
                && listed->Object_0.len() != q.criteria.len()
            &&& fault is ProbabilitySum <==> typed && q.kind != "noul"@ && has_probabilities(
                q,
                json,
            ) && !balanced
            &&& fault is UnknownChoice <==> typed && q.kind == "choice"@ && has_probabilities(
                q,
                json,
            ) && balanced && !chooses_a_label(q, json)
            &&& fault is AnswerType || fault is OmittedProbabilities || fault is ProbabilityCount
                || fault is ProbabilitySum || fault is UnknownChoice || fault is BadNumber
        }),
{
    lemma_kinds_differ();
    lemma_probabilities(q, json);
    lemma_choice(q, json);
}

/// The probabilities that are summed are those of the reply, in the order of the
/// criteria, and they are summed wherever all of them are there.
pub proof fn the_summed_probabilities_are_those_of_the_reply(q: QuestionView, json: Json)
    ensures
        readable(q, json) is Some <==> {
            &&& member(json, "type"@) == Json::Text(q.kind)
            &&& q.kind != "noul"@
            &&& has_probabilities(q, json)
        },
        readable(q, json) matches Some(m) ==> {
            let es = entries_of(q, m);
            &&& es.len() == q.criteria.len()
            &&& forall|i: int|
                0 <= i < es.len() ==> is_number(
                    said_of(q, json, i),
                    (#[trigger] es[i]).probability,
                )
        },
{
    lemma_probabilities(q, json);
    match readable(q, json) {
        Some(m) => {
            let es = entries_of(q, m);
            assert forall|i: int| 0 <= i < es.len() implies is_number(
                said_of(q, json, i),
                (#[trigger] es[i]).probability,
            ) by {
                assert(probability_of(q, m, i) is Some);
            }
        },
        None => {},
    }
}

/// An answer is told by all that it holds, and so is each of its entries.
pub proof fn an_answer_is_told_by_what_it_holds(a: Answer, es: Seq<Entry>, i: int)
    ensures
        match a {
            Answer::Noul(bits) => a@ == AnswerView::Noul(bits),
            Answer::Choice { choice, probabilities, confidence } => a@ == (AnswerView::Choice {
                choice: choice@,
                probabilities: entry_views(probabilities@),
                confidence,
            }),
            Answer::Score { score, probabilities, confidence } => a@ == (AnswerView::Score {
                score,
                probabilities: entry_views(probabilities@),
                confidence,
            }),
        },
        entry_views(es).len() == es.len(),
        0 <= i < es.len() ==> {
            &&& entry_views(es)[i].index == es[i].index
            &&& entry_views(es)[i].value == es[i].value@
            &&& entry_views(es)[i].probability == es[i].probability
        },
{
}

} // verus!
