//! Running a question over a column: which texts to ask about, in which
//! requests, what to do after each attempt and where the answers go.
use crate::answer::{
    accepted_answers_fit, answer, answer_of, entries_of, fits, has_probabilities, is_number,
    probabilities, readable, said_of, the_summed_probabilities_are_those_of_the_reply, Answer,
    AnswerView, EntryView,
};
use crate::error::{ExecError, Failure};
use crate::json::{as_object, contents, entries, field, get, member, quoted, to_string, Json};
use crate::request::{body_of, each_row_is_asked_about, row_key, row_name, texts_of, Row};
use crate::sql::{question_problem, Question, QuestionView};
use crate::text::{decimal, same_text};
use crate::RequestError;
use vstd::arithmetic::power2::*;
use vstd::prelude::*;
use vstd::string::*;
use vstd::utf8::*;

verus! {

/// One value of the input column.
#[derive(Debug)]
pub enum Cell {
    Null,
    Text(String),
    /// A value that is not text.
    Other,
}

/// A value by the characters of its text.
pub enum CellView {
    Null,
    Text(Seq<char>),
    Other,
}

impl View for Cell {
    type V = CellView;

    open spec fn view(&self) -> CellView {
        match *self {
            Cell::Null => CellView::Null,
            Cell::Text(s) => CellView::Text(s@),
            Cell::Other => CellView::Other,
        }
    }
}

/// Values by the characters of their text.
pub open spec fn cell_views(cells: Seq<Cell>) -> Seq<CellView> {
    cells.map_values(|c: Cell| c@)
}

/// The most bytes of a text, written as a JSON string.
pub const MAX_TEXT_BYTES: usize = 65_536;

/// The bytes of a text, written as a JSON string. This is what travels: escaping
/// can make a text several times as long.
pub open spec fn encoded_len(t: Seq<char>) -> nat {
    encode_utf8(quoted(t)).len()
}

/// What is wrong with a value.
pub open spec fn cell_problem(c: CellView) -> Option<Failure<Seq<char>>> {
    match c {
        CellView::Null => None,
        CellView::Text(t) => if encoded_len(t) > MAX_TEXT_BYTES {
            Some(Failure::LargeInput)
        } else {
            None
        },
        CellView::Other => Some(Failure::NotText),
    }
}

/// What is wrong with the first value that is not in order.
pub open spec fn cells_problem(cells: Seq<CellView>) -> Option<Failure<Seq<char>>>
    decreases cells.len(),
{
    if cells.len() == 0 {
        None
    } else {
        match cells_problem(cells.drop_last()) {
            Some(p) => Some(p),
            None => cell_problem(cells.last()),
        }
    }
}

/// The distinct texts, in the order in which they first occur.
pub open spec fn distinct_texts(cells: Seq<CellView>) -> Seq<Seq<char>>
    decreases cells.len(),
{
    if cells.len() == 0 {
        Seq::empty()
    } else {
        let before = distinct_texts(cells.drop_last());
        match cells.last() {
            CellView::Text(t) => if before.contains(t) {
                before
            } else {
                before.push(t)
            },
            _ => before,
        }
    }
}

/// The rows that have this text, in order.
pub open spec fn rows_with(cells: Seq<CellView>, t: Seq<char>) -> Seq<int>
    decreases cells.len(),
{
    if cells.len() == 0 {
        Seq::empty()
    } else if cells.last() == CellView::Text(t) {
        rows_with(cells.drop_last(), t).push(cells.len() - 1)
    } else {
        rows_with(cells.drop_last(), t)
    }
}

/// A text to ask about, and its bytes once it is written as a JSON string.
#[derive(Debug)]
pub struct Text {
    pub text: String,
    pub bytes: usize,
}

/// The texts to ask about, each with the rows that have it.
#[derive(Debug)]
pub struct Distinct {
    pub texts: Vec<Text>,
    pub rows_for: Vec<Vec<usize>>,
}

/// The texts by their characters.
pub open spec fn text_views(texts: Seq<Text>) -> Seq<Seq<char>> {
    texts.map_values(|t: Text| t.text@)
}

/// The numbers of rows.
pub open spec fn row_numbers(rows: Seq<usize>) -> Seq<int> {
    rows.map_values(|i: usize| i as int)
}

/// `d` has each distinct text once, measured, with the rows that have it.
pub open spec fn is_distinct(cells: Seq<CellView>, d: Distinct) -> bool {
    &&& text_views(d.texts@) == distinct_texts(cells)
    &&& d.rows_for@.len() == d.texts@.len()
    &&& forall|u: int|
        0 <= u < d.texts@.len() ==> {
            let t = #[trigger] d.texts@[u];
            t.bytes == encoded_len(t.text@) && t.bytes <= MAX_TEXT_BYTES
        }
    &&& forall|u: int|
        0 <= u < d.texts@.len() ==> row_numbers((#[trigger] d.rows_for@[u])@) == rows_with(
            cells,
            d.texts@[u].text@,
        )
}

/// Where this text stands among the texts.
fn find_text(texts: &Vec<Text>, t: &str) -> (r: Option<usize>)
    ensures
        match r {
            Some(u) => u < texts@.len() && text_views(texts@)[u as int] == t@,
            None => !text_views(texts@).contains(t@),
        },
{
    let ghost views = text_views(texts@);
    let mut u: usize = 0;
    while u < texts.len()
        invariant
            views == text_views(texts@),
            u <= texts.len(),
            forall|v: int| 0 <= v < u ==> #[trigger] views[v] != t@,
        decreases texts.len() - u,
    {
        proof {
            assert(views[u as int] == texts@[u as int].text@);
        }
        if same_text(texts[u].text.as_str(), t) {
            return Some(u);
        }
        u = u + 1;
    }
    None
}

proof fn lemma_no_rows(cells: Seq<CellView>, t: Seq<char>)
    requires
        !distinct_texts(cells).contains(t),
    ensures
        rows_with(cells, t) == Seq::<int>::empty(),
    decreases cells.len(),
{
    if cells.len() > 0 {
        let before = distinct_texts(cells.drop_last());
        let now = distinct_texts(cells);
        if before.contains(t) {
            let k = before.index_of(t);
            assert(now[k] == t);
        }
        if cells.last() == CellView::Text(t) {
            if !before.contains(t) {
                assert(now[before.len() as int] == t);
            }
        }
        lemma_no_rows(cells.drop_last(), t);
    }
}

proof fn lemma_distinct_texts_differ(cells: Seq<CellView>)
    ensures
        distinct_texts(cells).no_duplicates(),
    decreases cells.len(),
{
    if cells.len() > 0 {
        lemma_distinct_texts_differ(cells.drop_last());
    }
}

proof fn lemma_cells_problem(cells: Seq<CellView>, i: int)
    requires
        0 <= i < cells.len(),
        cells_problem(cells.take(i + 1)) is Some,
    ensures
        cells_problem(cells) == cells_problem(cells.take(i + 1)),
    decreases cells.len(),
{
    if i == cells.len() - 1 {
        assert(cells.take(i + 1) == cells);
    } else {
        assert(cells.drop_last().take(i + 1) == cells.take(i + 1));
        lemma_cells_problem(cells.drop_last(), i);
    }
}

/// `r` comes of a column with these values: its distinct texts, or what is wrong with
/// it.
pub open spec fn is_taken(cells: Seq<CellView>, r: Result<Distinct, ExecError>) -> bool {
    match cells_problem(cells) {
        Some(p) => r is Err && r->Err_0@ == p,
        None => r is Ok && is_distinct(cells, r->Ok_0),
    }
}

/// Find the distinct texts of a column. Repeated and constant inputs are common,
/// and each text is asked about once.
pub fn distinct(cells: &Vec<Cell>) -> (r: Result<Distinct, ExecError>)
    ensures
        is_taken(cell_views(cells@), r),
        match cells_problem(cell_views(cells@)) {
            Some(p) => r is Err && r->Err_0@ == p,
            None => r is Ok && is_distinct(cell_views(cells@), r->Ok_0),
        },
{
    let ghost views = cell_views(cells@);
    let mut d = Distinct { texts: Vec::new(), rows_for: Vec::new() };
    let mut i: usize = 0;
    proof {
        assert(views.take(0).len() == 0);
        assert(text_views(d.texts@) == distinct_texts(views.take(0)));
    }
    while i < cells.len()
        invariant
            views == cell_views(cells@),
            i <= cells.len(),
            cells_problem(views.take(i as int)) is None,
            is_distinct(views.take(i as int), d),
        decreases cells.len() - i,
    {
        let ghost before = views.take(i as int);
        let ghost now = views.take(i + 1);
        proof {
            assert(now.drop_last() == before);
            assert(now.last() == cells@[i as int]@);
        }
        match &cells[i] {
            Cell::Null => {},
            Cell::Text(s) => {
                match find_text(&d.texts, s.as_str()) {
                    Some(u) => {
                        proof {
                            lemma_distinct_texts_differ(before);
                            assert(distinct_texts(before)[u as int] == s@);
                            assert(distinct_texts(before).contains(s@));
                        }
                        let ghost old_d = d;
                        d.rows_for[u].push(i);
                        proof {
                            assert forall|v: int| 0 <= v < d.texts@.len() implies row_numbers(
                                (#[trigger] d.rows_for@[v])@,
                            ) == rows_with(now, d.texts@[v].text@) by {
                                assert(text_views(d.texts@)[v] == d.texts@[v].text@);
                                assert(row_numbers(old_d.rows_for@[v]@) == rows_with(
                                    before,
                                    d.texts@[v].text@,
                                ));
                                if v == u {
                                    assert(row_numbers(d.rows_for@[v]@) == row_numbers(
                                        old_d.rows_for@[v]@,
                                    ).push(i as int));
                                } else {
                                    assert(d.texts@[v].text@ != s@);
                                }
                            }
                        }
                    },
                    None => {
                        let bytes: usize = match to_string(s.as_str()) {
                            Ok(encoded) => encoded.as_str().as_bytes().len(),
                            Err(_) => {
                                return Err(Failure::InvalidRequest);
                            },
                        };
                        if bytes > MAX_TEXT_BYTES {
                            proof {
                                lemma_cells_problem(views, i as int);
                            }
                            return Err(Failure::LargeInput);
                        }
                        let ghost old_d = d;
                        d.texts.push(Text { text: s.clone(), bytes });
                        let mut first: Vec<usize> = Vec::new();
                        first.push(i);
                        d.rows_for.push(first);
                        proof {
                            lemma_no_rows(before, s@);
                            assert(text_views(d.texts@) == text_views(old_d.texts@).push(s@));
                            assert forall|v: int| 0 <= v < d.texts@.len() implies row_numbers(
                                (#[trigger] d.rows_for@[v])@,
                            ) == rows_with(now, d.texts@[v].text@) by {
                                if v < old_d.texts@.len() {
                                    assert(text_views(old_d.texts@)[v] == d.texts@[v].text@);
                                    assert(old_d.rows_for@[v] == d.rows_for@[v]);
                                } else {
                                    assert(row_numbers(first@) == seq![i as int]);
                                }
                            }
                        }
                    },
                }
            },
            Cell::Other => {
                proof {
                    lemma_cells_problem(views, i as int);
                }
                return Err(Failure::NotText);
            },
        }
        i = i + 1;
    }
    proof {
        assert(views.take(i as int) == views);
    }
    Ok(d)
}

/// The most bytes of the texts in one request, unless it has one text alone.
pub const MAX_BATCH_BYTES: usize = 32_768;

/// The bytes of the texts with these numbers.
pub open spec fn total(texts: Seq<Text>, batch: Seq<int>) -> int
    decreases batch.len(),
{
    if batch.len() == 0 {
        0
    } else {
        total(texts, batch.drop_last()) + texts[batch.last()].bytes
    }
}

/// The text with number `u` still fits into this batch.
pub open spec fn has_room(texts: Seq<Text>, batch: Seq<int>, limit: usize, u: int) -> bool {
    batch.len() < limit && total(texts, batch) + texts[u].bytes <= MAX_BATCH_BYTES
}

/// The first `n` texts, by number, in batches: each joins the last batch if it
/// fits, and else starts a new one.
pub open spec fn packed(texts: Seq<Text>, n: int, limit: usize) -> Seq<Seq<int>>
    decreases n,
{
    if n <= 0 {
        Seq::empty()
    } else {
        let before = packed(texts, n - 1, limit);
        if before.len() > 0 && has_room(texts, before.last(), limit, n - 1) {
            before.drop_last().push(before.last().push(n - 1))
        } else {
            before.push(seq![n - 1])
        }
    }
}

/// The numbers of the texts in a batch.
pub open spec fn places(rows: Seq<Row>) -> Seq<int> {
    rows.map_values(|r: Row| r.place as int)
}

/// The numbers of the texts in each batch.
pub open spec fn all_places(batches: Seq<Vec<Row>>) -> Seq<Seq<int>> {
    batches.map_values(|b: Vec<Row>| places(b@))
}

/// Each row has the text of its number.
pub open spec fn rows_hold(rows: Seq<Row>, texts: Seq<Text>) -> bool {
    forall|k: int|
        0 <= k < rows.len() ==> (#[trigger] rows[k]).place < texts.len() && rows[k].text@
            == texts[rows[k].place as int].text@
}

/// The batches are the texts, packed, and each row has the text of its number.
pub open spec fn is_split(texts: Seq<Text>, limit: usize, batches: Seq<Vec<Row>>) -> bool {
    &&& all_places(batches) == packed(texts, texts.len() as int, limit)
    &&& forall|b: int| 0 <= b < batches.len() ==> rows_hold((#[trigger] batches[b])@, texts)
}

/// Split the texts into requests, by number and by size.
pub fn split(texts: &Vec<Text>, limit: usize) -> (r: Vec<Vec<Row>>)
    requires
        forall|u: int| 0 <= u < texts@.len() ==> (#[trigger] texts@[u]).bytes <= MAX_TEXT_BYTES,
    ensures
        is_split(texts@, limit, r@),
        all_places(r@) == packed(texts@, texts@.len() as int, limit),
        forall|b: int| 0 <= b < r@.len() ==> rows_hold((#[trigger] r@[b])@, texts@),
{
    let mut batches: Vec<Vec<Row>> = Vec::new();
    let mut batch: Vec<Row> = Vec::new();
    let mut bytes: usize = 0;
    let mut u: usize = 0;
    proof {
        assert(all_places(batches@) == packed(texts@, 0, limit));
        assert(places(batch@) == Seq::<int>::empty());
    }
    while u < texts.len()
        invariant
            forall|v: int| 0 <= v < texts@.len() ==> (#[trigger] texts@[v]).bytes <= MAX_TEXT_BYTES,
            u <= texts.len(),
            batch@.len() == 0 <==> u == 0,
            u == 0 ==> batches@.len() == 0,
            if u == 0 {
                packed(texts@, u as int, limit) == all_places(batches@)
            } else {
                packed(texts@, u as int, limit) == all_places(batches@).push(places(batch@))
            },
            bytes == total(texts@, places(batch@)),
            bytes <= MAX_TEXT_BYTES,
            rows_hold(batch@, texts@),
            forall|b: int| 0 <= b < batches@.len() ==> rows_hold((#[trigger] batches@[b])@, texts@),
        decreases texts.len() - u,
    {
        let t = &texts[u];
        let ghost before = packed(texts@, u as int, limit);
        let ghost open = places(batch@);
        proof {
            if u > 0 {
                assert(before.last() == open);
                assert(before.drop_last() == all_places(batches@));
            }
        }
        if batch.len() > 0 && (batch.len() >= limit || bytes + t.bytes > MAX_BATCH_BYTES) {
            let ghost closed = batches@;
            batches.push(batch);
            proof {
                assert(all_places(batches@) == all_places(closed).push(open));
                assert(all_places(batches@) == before);
            }
            batch = Vec::new();
            bytes = 0;
            proof {
                assert(places(batch@) == Seq::<int>::empty());
            }
        }
        let ghost started = places(batch@);
        bytes = bytes + t.bytes;
        batch.push(Row { place: u, text: t.text.clone() });
        proof {
            assert(places(batch@) == started.push(u as int));
            assert(places(batch@).drop_last() == started);
            assert(total(texts@, places(batch@)) == total(texts@, started) + t.bytes);
            if started.len() == 0 {
                assert(places(batch@) == seq![u as int]);
            }
            assert(packed(texts@, u + 1, limit) == all_places(batches@).push(places(batch@)));
        }
        u = u + 1;
    }
    if batch.len() > 0 {
        let ghost closed = batches@;
        let ghost open = places(batch@);
        batches.push(batch);
        proof {
            assert(all_places(batches@) == all_places(closed).push(open));
        }
    }
    batches
}

/// All numbers of the batches, one batch after the other.
pub open spec fn joined(batches: Seq<Seq<int>>) -> Seq<int>
    decreases batches.len(),
{
    if batches.len() == 0 {
        Seq::empty()
    } else {
        joined(batches.drop_last()) + batches.last()
    }
}

/// Every text is in exactly one batch, and the batches keep their order.
pub proof fn batches_cover_the_texts(texts: Seq<Text>, n: int, limit: usize)
    requires
        0 <= n <= texts.len(),
    ensures
        joined(packed(texts, n, limit)) == Seq::new(n as nat, |u: int| u),
    decreases n,
{
    let now = packed(texts, n, limit);
    if n == 0 {
        assert(joined(now) =~= Seq::new(0, |u: int| u));
    } else {
        let before = packed(texts, n - 1, limit);
        batches_cover_the_texts(texts, n - 1, limit);
        if before.len() > 0 && has_room(texts, before.last(), limit, n - 1) {
            assert(now.drop_last() == before.drop_last());
        } else {
            assert(now.drop_last() == before);
        }
        assert(joined(now) =~= joined(before).push(n - 1));
        assert(joined(now) =~= Seq::new(n as nat, |u: int| u));
    }
}

/// No batch is empty, none has more texts than allowed, and one of more than a
/// single text has no more bytes than allowed.
pub proof fn batches_keep_the_limits(texts: Seq<Text>, n: int, limit: usize)
    requires
        0 <= n <= texts.len(),
        limit >= 1,
    ensures
        forall|b: int|
            0 <= b < packed(texts, n, limit).len() ==> {
                let batch = #[trigger] packed(texts, n, limit)[b];
                &&& 1 <= batch.len() <= limit
                &&& batch.len() == 1 || total(texts, batch) <= MAX_BATCH_BYTES
            },
    decreases n,
{
    if n > 0 {
        let before = packed(texts, n - 1, limit);
        let now = packed(texts, n, limit);
        batches_keep_the_limits(texts, n - 1, limit);
        assert forall|b: int| 0 <= b < now.len() implies {
            let batch = #[trigger] now[b];
            &&& 1 <= batch.len() <= limit
            &&& batch.len() == 1 || total(texts, batch) <= MAX_BATCH_BYTES
        } by {
            if b < now.len() - 1 {
                assert(now[b] == before[b]);
            } else if before.len() > 0 && has_room(texts, before.last(), limit, n - 1) {
                assert(now[b] == before.last().push(n - 1));
                assert(now[b].drop_last() == before.last());
            }
        }
    }
}

/// A new batch is started only where the text would not fit into the one before.
pub proof fn batches_are_full(texts: Seq<Text>, n: int, limit: usize, b: int)
    requires
        0 <= n <= texts.len(),
        0 <= b < packed(texts, n, limit).len() - 1,
    ensures
        packed(texts, n, limit)[b + 1].len() > 0,
        !has_room(
            texts,
            packed(texts, n, limit)[b],
            limit,
            packed(texts, n, limit)[b + 1][0],
        ),
    decreases n,
{
    let before = packed(texts, n - 1, limit);
    let now = packed(texts, n, limit);
    if before.len() > 0 && has_room(texts, before.last(), limit, n - 1) {
        batches_are_full(texts, n - 1, limit, b);
        assert(now[b] == before[b]);
        if b + 1 < now.len() - 1 {
            assert(now[b + 1] == before[b + 1]);
        } else {
            assert(now[b + 1] == before[b + 1].push(n - 1));
            assert(now[b + 1][0] == before[b + 1][0]);
        }
    } else if b + 1 < now.len() - 1 {
        batches_are_full(texts, n - 1, limit, b);
    } else {
        assert(now[b] == before.last());
    }
}

/// An answer, or none, for the text with the number `place`.
#[derive(Debug)]
pub struct Placed {
    pub place: usize,
    pub answer: Option<Answer>,
}

/// A placed answer by the characters of its text.
pub struct PlacedView {
    pub place: usize,
    pub answer: Option<AnswerView>,
}

/// An answer that may be absent, by the characters of its text.
pub open spec fn optional_answer(a: Option<Answer>) -> Option<AnswerView> {
    match a {
        Some(a) => Some(a@),
        None => None,
    }
}

impl View for Placed {
    type V = PlacedView;

    open spec fn view(&self) -> PlacedView {
        PlacedView { place: self.place, answer: optional_answer(self.answer) }
    }
}

/// Placed answers by the characters of their text.
pub open spec fn placed_views(ps: Seq<Placed>) -> Seq<PlacedView> {
    ps.map_values(|p: Placed| p@)
}

/// The places of rows.
pub open spec fn row_places(rows: Seq<Row>) -> Seq<usize> {
    rows.map_values(|r: Row| r.place)
}

/// The answers to rows at these places, or the first thing that is wrong.
pub open spec fn answers_of(
    q: QuestionView,
    places: Seq<usize>,
    m: Map<Seq<char>, Json>,
    balanced: Seq<bool>,
) -> Result<Seq<PlacedView>, Failure<Seq<char>>>
    decreases places.len(),
{
    if places.len() == 0 {
        Ok(Seq::empty())
    } else {
        let i = places.len() - 1;
        match answers_of(q, places.drop_last(), m, balanced) {
            Err(e) => Err(e),
            Ok(before) => if !m.contains_key(row_key(i as nat)) {
                Err(Failure::OmittedRow)
            } else {
                match answer_of(q, m[row_key(i as nat)], balanced[i]) {
                    Err(e) => Err(e),
                    Ok(a) => Ok(before.push(PlacedView { place: places[i], answer: Some(a) })),
                }
            },
        }
    }
}

/// What a response says of rows at these places.
pub open spec fn reply_of(
    q: QuestionView,
    places: Seq<usize>,
    json: Json,
    balanced: Seq<bool>,
) -> Result<Seq<PlacedView>, Failure<Seq<char>>> {
    match member(json, "answers"@) {
        Json::Object(m) => answers_of(q, places, m, balanced),
        _ => Err(Failure::OmittedAnswers),
    }
}

proof fn lemma_answers_stop(
    q: QuestionView,
    places: Seq<usize>,
    m: Map<Seq<char>, Json>,
    balanced: Seq<bool>,
    i: int,
)
    requires
        0 <= i < places.len(),
        answers_of(q, places.take(i + 1), m, balanced) is Err,
    ensures
        answers_of(q, places, m, balanced) == answers_of(q, places.take(i + 1), m, balanced),
    decreases places.len(),
{
    if i == places.len() - 1 {
        assert(places.take(i + 1) == places);
    } else {
        assert(places.drop_last().take(i + 1) == places.take(i + 1));
        lemma_answers_stop(q, places.drop_last(), m, balanced, i);
    }
}

/// `r` is the outcome `s`, its text taken by its characters.
pub open spec fn placed_outcome(
    r: Result<Vec<Placed>, ExecError>,
    s: Result<Seq<PlacedView>, Failure<Seq<char>>>,
) -> bool {
    match r {
        Ok(ps) => s is Ok && placed_views(ps@) == s->Ok_0,
        Err(e) => s is Err && e@ == s->Err_0,
    }
}

/// Read the answers to the rows of a request. `balanced` says of each row whether
/// the probabilities of its answer sum to one.
pub fn read_reply(
    q: &Question,
    rows: &Vec<Row>,
    response: &serde_json::Value,
    balanced: &Vec<bool>,
) -> (r: Result<Vec<Placed>, ExecError>)
    requires
        question_problem(q@) is None,
        balanced@.len() == rows@.len(),
    ensures
        placed_outcome(r, reply_of(q@, row_places(rows@), contents(*response), balanced@)),
{
    let object = match as_object(field(response, "answers")) {
        Some(object) => object,
        None => {
            return Err(Failure::OmittedAnswers);
        },
    };
    let ghost m = entries(*object);
    let ghost places = row_places(rows@);
    let mut ps: Vec<Placed> = Vec::new();
    let mut i: usize = 0;
    proof {
        assert(places.take(0).len() == 0);
        assert(placed_views(ps@) == Seq::<PlacedView>::empty());
    }
    while i < rows.len()
        invariant
            question_problem(q@) is None,
            balanced@.len() == rows@.len(),
            m == entries(*object),
            member(contents(*response), "answers"@) == Json::Object(m),
            places == row_places(rows@),
            i <= rows.len(),
            answers_of(q@, places.take(i as int), m, balanced@) == Ok::<
                Seq<PlacedView>,
                Failure<Seq<char>>,
            >(placed_views(ps@)),
        decreases rows.len() - i,
    {
        proof {
            assert(places.take(i + 1).drop_last() == places.take(i as int));
            assert(places.take(i + 1)[i as int] == rows@[i as int].place);
        }
        let read = match get(object, row_name(i).as_str()) {
            Some(value) => answer(q, value, balanced[i]),
            None => Err(Failure::OmittedRow),
        };
        match read {
            Ok(a) => {
                let p = Placed { place: rows[i].place, answer: Some(a) };
                let ghost before = ps@;
                ps.push(p);
                proof {
                    assert(placed_views(ps@) == placed_views(before).push(p@));
                }
            },
            Err(e) => {
                proof {
                    lemma_answers_stop(q@, places, m, balanced@, i as int);
                }
                return Err(e);
            },
        }
        i = i + 1;
    }
    proof {
        assert(places.take(i as int) == places);
    }
    Ok(ps)
}

/// The probabilities in the answer to row `i`, as far as they can be read.
pub open spec fn row_probabilities_of(q: QuestionView, json: Json, i: nat) -> Option<Seq<u64>> {
    let answers = member(json, "answers"@);
    if answers is Object && answers->Object_0.contains_key(row_key(i)) {
        match readable(q, answers->Object_0[row_key(i)]) {
            Some(m) => Some(entries_of(q, m).map_values(|e: EntryView| e.probability)),
            None => None,
        }
    } else {
        None
    }
}

/// The probabilities in the answer to row `i`, by the bits of their floats, in
/// the order of the criteria. They must sum to one.
pub fn row_probabilities(q: &Question, response: &serde_json::Value, i: usize) -> (r: Option<
    Vec<u64>,
>)
    requires
        question_problem(q@) is None,
    ensures
        match row_probabilities_of(q@, contents(*response), i as nat) {
            Some(bits) => r is Some && r->0@ == bits,
            None => r is None,
        },
{
    match as_object(field(response, "answers")) {
        Some(object) => match get(object, row_name(i).as_str()) {
            Some(value) => probabilities(q, value),
            None => None,
        },
        None => None,
    }
}

/// How an attempt to get answers ended.
#[derive(Debug)]
pub enum Outcome {
    /// With a response; `balanced` says of each row whether the probabilities of
    /// its answer sum to one.
    Reply { response: serde_json::Value, balanced: Vec<bool> },
    /// With an error.
    Failed(RequestError),
    /// Without any response in time.
    TimedOut,
}

/// What to do after an attempt.
#[derive(Debug)]
pub enum Step {
    /// These are the answers; a row without one is NULL.
    Done(Vec<Placed>),
    /// The query fails.
    Fail(ExecError),
    /// Wait for so many milliseconds and try again.
    Wait(u64),
}

/// What to do after an attempt, by the characters of its text.
pub enum StepView {
    Done(Seq<PlacedView>),
    Fail(Failure<Seq<char>>),
    Wait(nat),
}

impl View for Step {
    type V = StepView;

    open spec fn view(&self) -> StepView {
        match *self {
            Step::Done(ps) => StepView::Done(placed_views(ps@)),
            Step::Fail(e) => StepView::Fail(e@),
            Step::Wait(ms) => StepView::Wait(ms as nat),
        }
    }
}

/// How often a request is tried.
pub const ATTEMPTS: u32 = 3;

/// No answer for any of the places.
pub open spec fn no_answers(places: Seq<usize>) -> Seq<PlacedView> {
    places.map_values(|p: usize| PlacedView { place: p, answer: None })
}

/// What to do when an attempt brought nothing: the last one leaves the rows
/// without answers, and after any other there is a pause, twice as long each time.
pub open spec fn retry(places: Seq<usize>, attempt: u32) -> StepView {
    if attempt + 1 < ATTEMPTS {
        StepView::Wait(250 * pow2(attempt as nat))
    } else {
        StepView::Done(no_answers(places))
    }
}

/// What to do after attempt number `attempt`, counted from zero.
pub open spec fn step_of(
    q: QuestionView,
    places: Seq<usize>,
    attempt: u32,
    outcome: Outcome,
) -> StepView {
    match outcome {
        Outcome::Reply { response, balanced } => match reply_of(
            q,
            places,
            contents(response),
            balanced@,
        ) {
            Ok(ps) => StepView::Done(ps),
            Err(e) => StepView::Fail(e),
        },
        Outcome::Failed(RequestError::Fatal(message)) => StepView::Fail(
            Failure::Rejected(message@),
        ),
        Outcome::Failed(RequestError::Unavailable) => retry(places, attempt),
        Outcome::TimedOut => retry(places, attempt),
    }
}

/// What to do when an attempt brought nothing.
fn after_silence(rows: &Vec<Row>, attempt: u32) -> (r: Step)
    requires
        attempt < ATTEMPTS,
    ensures
        r@ == retry(row_places(rows@), attempt),
{
    proof {
        lemma2_to64();
    }
    if attempt == 0 {
        return Step::Wait(250);
    }
    if attempt == 1 {
        return Step::Wait(500);
    }
    let ghost want = no_answers(row_places(rows@));
    let mut ps: Vec<Placed> = Vec::new();
    let mut i: usize = 0;
    while i < rows.len()
        invariant
            want == no_answers(row_places(rows@)),
            i <= rows.len(),
            placed_views(ps@) == want.take(i as int),
        decreases rows.len() - i,
    {
        let p = Placed { place: rows[i].place, answer: None };
        let ghost before = ps@;
        ps.push(p);
        proof {
            assert(placed_views(ps@) == placed_views(before).push(p@));
            assert(want.take(i + 1) == want.take(i as int).push(want[i as int]));
        }
        i = i + 1;
    }
    proof {
        assert(want.take(i as int) == want);
    }
    Step::Done(ps)
}

/// What to do after attempt number `attempt`, counted from zero, to get the
/// answers to these rows.
pub fn after_attempt(q: &Question, rows: &Vec<Row>, attempt: u32, outcome: Outcome) -> (r: Step)
    requires
        question_problem(q@) is None,
        attempt < ATTEMPTS,
        outcome matches Outcome::Reply { balanced, .. } ==> balanced@.len() == rows@.len(),
    ensures
        r@ == step_of(q@, row_places(rows@), attempt, outcome),
{
    match outcome {
        Outcome::Reply { response, balanced } => match read_reply(q, rows, &response, &balanced) {
            Ok(ps) => Step::Done(ps),
            Err(e) => Step::Fail(e),
        },
        Outcome::Failed(RequestError::Fatal(message)) => Step::Fail(Failure::Rejected(message)),
        Outcome::Failed(RequestError::Unavailable) => after_silence(rows, attempt),
        Outcome::TimedOut => after_silence(rows, attempt),
    }
}

/// A response that is accepted has an answer of the right form for each row, in
/// the order of the rows.
pub proof fn accepted_replies_answer_every_row(
    q: QuestionView,
    places: Seq<usize>,
    m: Map<Seq<char>, Json>,
    balanced: Seq<bool>,
)
    requires
        question_problem(q) is None,
        answers_of(q, places, m, balanced) is Ok,
    ensures
        ({
            let ps = answers_of(q, places, m, balanced)->Ok_0;
            &&& ps.len() == places.len()
            &&& forall|i: int|
                0 <= i < ps.len() ==> {
                    let p = #[trigger] ps[i];
                    p.place == places[i] && p.answer is Some && fits(q, p.answer->0)
                }
        }),
    decreases places.len(),
{
    if places.len() > 0 {
        let i = places.len() - 1;
        accepted_replies_answer_every_row(q, places.drop_last(), m, balanced);
        accepted_answers_fit(q, m[row_key(i as nat)], balanced[i]);
    }
}

/// Without any response a request is tried three times, with pauses of 250 and
/// 500 milliseconds, and then its rows stay without answers: an outage fails no
/// query.
pub proof fn an_outage_ends_in_nulls(q: QuestionView, places: Seq<usize>, silence: Outcome)
    requires
        silence is TimedOut || silence == Outcome::Failed(RequestError::Unavailable),
    ensures
        step_of(q, places, 0, silence) == StepView::Wait(250),
        step_of(q, places, 1, silence) == StepView::Wait(500),
        step_of(q, places, 2, silence) == StepView::Done(no_answers(places)),
{
    lemma2_to64();
}

/// A rejected request fails the query at once.
pub proof fn a_rejection_fails_at_once(
    q: QuestionView,
    places: Seq<usize>,
    attempt: u32,
    message: String,
)
    ensures
        step_of(q, places, attempt, Outcome::Failed(RequestError::Fatal(message)))
            == StepView::Fail(Failure::Rejected(message@)),
{
}

/// The answers of a column, by the characters of their text.
pub open spec fn answer_views(out: Seq<Option<Answer>>) -> Seq<Option<AnswerView>> {
    out.map_values(|a: Option<Answer>| optional_answer(a))
}

/// `out` with this answer in each of the rows.
pub open spec fn written(
    out: Seq<Option<AnswerView>>,
    rows: Seq<usize>,
    a: Option<AnswerView>,
) -> Seq<Option<AnswerView>> {
    Seq::new(
        out.len(),
        |i: int|
            if row_numbers(rows).contains(i) {
                a
            } else {
                out[i]
            },
    )
}

/// `out` with each of the answers in the rows of its text.
pub open spec fn all_written(
    out: Seq<Option<AnswerView>>,
    rows_for: Seq<Vec<usize>>,
    ps: Seq<PlacedView>,
) -> Seq<Option<AnswerView>>
    decreases ps.len(),
{
    if ps.len() == 0 {
        out
    } else {
        written(
            all_written(out, rows_for, ps.drop_last()),
            rows_for[ps.last().place as int]@,
            ps.last().answer,
        )
    }
}

/// A copy of an answer that may be absent.
fn copy_answer(a: &Option<Answer>) -> (r: Option<Answer>)
    ensures
        optional_answer(r) == optional_answer(*a),
{
    match a {
        Some(a) => Some(a.clone()),
        None => None,
    }
}

/// Copy one answer into each of the rows.
fn write_rows(out: &mut Vec<Option<Answer>>, rows: &Vec<usize>, a: &Option<Answer>)
    requires
        forall|k: int| 0 <= k < rows@.len() ==> #[trigger] rows@[k] < old(out)@.len(),
    ensures
        answer_views(final(out)@) == written(
            answer_views(old(out)@),
            rows@,
            optional_answer(*a),
        ),
{
    let ghost before = answer_views(out@);
    let ghost numbers = row_numbers(rows@);
    let mut k: usize = 0;
    while k < rows.len()
        invariant
            before == answer_views(old(out)@),
            numbers == row_numbers(rows@),
            forall|j: int| 0 <= j < rows@.len() ==> #[trigger] rows@[j] < before.len(),
            k <= rows.len(),
            out@.len() == before.len(),
            forall|i: int|
                0 <= i < before.len() ==> optional_answer(#[trigger] out@[i])
                    == if numbers.take(k as int).contains(i) {
                    optional_answer(*a)
                } else {
                    before[i]
                },
        decreases rows.len() - k,
    {
        let row: usize = rows[k];
        let copied = copy_answer(a);
        let ghost so_far = out@;
        out.set(row, copied);
        proof {
            assert forall|i: int| 0 <= i < before.len() implies optional_answer(#[trigger] out@[i])
                == if numbers.take(k + 1).contains(i) {
                optional_answer(*a)
            } else {
                before[i]
            } by {
                let now = numbers.take(k + 1);
                assert(now == numbers.take(k as int).push(row as int));
                assert(now[k as int] == row as int);
                assert(optional_answer(so_far[i]) == if numbers.take(k as int).contains(i) {
                    optional_answer(*a)
                } else {
                    before[i]
                });
                if numbers.take(k as int).contains(i) {
                    let j = numbers.take(k as int).index_of(i);
                    assert(now[j] == i);
                }
                if now.contains(i) && i != row {
                    let j = now.index_of(i);
                    assert(numbers.take(k as int)[j] == i);
                }
            }
        }
        k = k + 1;
    }
    proof {
        assert(numbers.take(k as int) == numbers);
        assert(answer_views(out@) == written(before, rows@, optional_answer(*a)));
    }
}

/// Copy each answer into every row that has its text.
pub fn place(out: &mut Vec<Option<Answer>>, rows_for: &Vec<Vec<usize>>, ps: &Vec<Placed>)
    requires
        forall|k: int| 0 <= k < ps@.len() ==> (#[trigger] ps@[k]).place < rows_for@.len(),
        forall|u: int, k: int|
            0 <= u < rows_for@.len() && 0 <= k < rows_for@[u]@.len()
                ==> #[trigger] rows_for@[u]@[k] < old(out)@.len(),
    ensures
        answer_views(final(out)@) == all_written(
            answer_views(old(out)@),
            rows_for@,
            placed_views(ps@),
        ),
{
    let ghost before = answer_views(out@);
    let ghost views = placed_views(ps@);
    let mut k: usize = 0;
    proof {
        assert(views.take(0).len() == 0);
    }
    while k < ps.len()
        invariant
            before == answer_views(old(out)@),
            views == placed_views(ps@),
            forall|k: int| 0 <= k < ps@.len() ==> (#[trigger] ps@[k]).place < rows_for@.len(),
            forall|u: int, k: int|
                0 <= u < rows_for@.len() && 0 <= k < rows_for@[u]@.len()
                    ==> #[trigger] rows_for@[u]@[k] < before.len(),
            k <= ps.len(),
            out@.len() == before.len(),
            answer_views(out@) == all_written(before, rows_for@, views.take(k as int)),
        decreases ps.len() - k,
    {
        let p = &ps[k];
        write_rows(out, &rows_for[p.place], &p.answer);
        proof {
            assert(views.take(k + 1).drop_last() == views.take(k as int));
            assert(views.take(k + 1).last() == p@);
            assert(answer_views(out@).len() == before.len());
        }
        k = k + 1;
    }
    proof {
        assert(views.take(k as int) == views);
    }
}

/// The rows that have a text are found, and no others.
pub proof fn rows_are_found(cells: Seq<CellView>, t: Seq<char>, i: int)
    ensures
        rows_with(cells, t).contains(i) == (0 <= i < cells.len() && cells[i] == CellView::Text(t)),
    decreases cells.len(),
{
    if cells.len() > 0 {
        let front = cells.drop_last();
        let before = rows_with(front, t);
        let now = rows_with(cells, t);
        rows_are_found(front, t, i);
        if cells.last() == CellView::Text(t) {
            assert(now[before.len() as int] == cells.len() - 1);
            if before.contains(i) {
                assert(now[before.index_of(i)] == i);
            }
            if now.contains(i) && i != cells.len() - 1 {
                assert(before[now.index_of(i)] == i);
            }
        }
    }
}

/// Each text of the column is asked about, whatever stands in the other rows,
/// and nothing else is: no NULL, and no text twice.
pub proof fn each_text_is_asked_about_once(cells: Seq<CellView>)
    ensures
        distinct_texts(cells).no_duplicates(),
        forall|t: Seq<char>| #[trigger] distinct_texts(cells).contains(t) <==> in_column(cells, t),
    decreases cells.len(),
{
    lemma_distinct_texts_differ(cells);
    if cells.len() > 0 {
        let front = cells.drop_last();
        let before = distinct_texts(front);
        let now = distinct_texts(cells);
        each_text_is_asked_about_once(front);
        assert forall|t: Seq<char>| #[trigger] now.contains(t) <==> in_column(cells, t) by {
            assert(before.contains(t) <==> in_column(front, t));
            if in_column(front, t) {
                let i = choose|i: int| 0 <= i < front.len() && front[i] == CellView::Text(t);
                assert(cells[i] == CellView::Text(t));
                assert(now[before.index_of(t)] == t);
            }
            if cells.last() == CellView::Text(t) {
                assert(cells[cells.len() - 1] == CellView::Text(t));
                if !before.contains(t) {
                    assert(now[before.len() as int] == t);
                }
            } else {
                if in_column(cells, t) {
                    let i = choose|i: int| 0 <= i < cells.len() && cells[i] == CellView::Text(t);
                    assert(front[i] == CellView::Text(t));
                }
                if now.contains(t) {
                    assert(before[now.index_of(t)] == t);
                }
            }
        }
    }
}

/// The text stands in the column.
pub open spec fn in_column(cells: Seq<CellView>, t: Seq<char>) -> bool {
    exists|i: int| 0 <= i < cells.len() && #[trigger] cells[i] == CellView::Text(t)
}

/// One of the answers is for the text with number `u`.
pub open spec fn is_placed(ps: Seq<PlacedView>, u: int) -> bool {
    exists|k: int| 0 <= k < ps.len() && (#[trigger] ps[k]).place == u
}

/// In whatever order the answers come in, every row with a text that has been
/// answered has the answer for its text, and every other row stays as it was.
/// So a NULL stays NULL.
pub proof fn every_row_gets_its_answer(
    cells: Seq<CellView>,
    d: Distinct,
    answers: Seq<Option<AnswerView>>,
    ps: Seq<PlacedView>,
    out: Seq<Option<AnswerView>>,
    i: int,
)
    requires
        is_distinct(cells, d),
        answers.len() == d.texts@.len(),
        forall|k: int|
            0 <= k < ps.len() ==> (#[trigger] ps[k]).place < d.texts@.len() && ps[k].answer
                == answers[ps[k].place as int],
        out.len() == cells.len(),
        0 <= i < cells.len(),
    ensures
        all_written(out, d.rows_for@, ps).len() == cells.len(),
        match cells[i] {
            CellView::Text(t) => {
                let u = distinct_texts(cells).index_of(t);
                all_written(out, d.rows_for@, ps)[i] == if is_placed(ps, u) {
                    answers[u]
                } else {
                    out[i]
                }
            },
            _ => all_written(out, d.rows_for@, ps)[i] == out[i],
        },
    decreases ps.len(),
{
    if ps.len() > 0 {
        let front = ps.drop_last();
        let last = ps.last();
        let v = last.place as int;
        assert forall|k: int| 0 <= k < front.len() implies (#[trigger] front[k]).place
            < d.texts@.len() && front[k].answer == answers[front[k].place as int] by {
            assert(front[k] == ps[k]);
        }
        every_row_gets_its_answer(cells, d, answers, front, out, i);
        assert(ps[ps.len() - 1] == last);
        let text = d.texts@[v].text@;
        assert(text_views(d.texts@)[v] == text);
        assert(row_numbers(d.rows_for@[v]@) == rows_with(cells, text));
        rows_are_found(cells, text, i);
        match cells[i] {
            CellView::Text(t) => {
                each_text_is_asked_about_once(cells);
                assert(in_column(cells, t));
                assert(distinct_texts(cells).contains(t));
                let u = distinct_texts(cells).index_of(t);
                assert(distinct_texts(cells)[u] == t);
                if is_placed(front, u) {
                    let k = choose|k: int| 0 <= k < front.len() && (#[trigger] front[k]).place == u;
                    assert(ps[k].place == u);
                }
                if v == u {
                    assert(is_placed(ps, u));
                } else {
                    assert(text != t);
                    if is_placed(ps, u) {
                        let k = choose|k: int| 0 <= k < ps.len() && (#[trigger] ps[k]).place == u;
                        assert(front[k].place == u);
                    }
                }
            },
            _ => {},
        }
    }
}

/// The places of the texts are where `place` can write: every row of every text
/// is a row of the column.
pub proof fn rows_stand_in_the_column(cells: Seq<CellView>, d: Distinct)
    requires
        is_distinct(cells, d),
    ensures
        forall|u: int, k: int|
            0 <= u < d.rows_for@.len() && 0 <= k < d.rows_for@[u]@.len()
                ==> #[trigger] d.rows_for@[u]@[k] < cells.len(),
{
    assert forall|u: int, k: int|
        0 <= u < d.rows_for@.len() && 0 <= k
            < d.rows_for@[u]@.len() implies #[trigger] d.rows_for@[u]@[k] < cells.len() by {
        let rows = row_numbers(d.rows_for@[u]@);
        assert(rows[k] == d.rows_for@[u]@[k]);
        assert(rows.contains(rows[k]));
        rows_are_found(cells, d.texts@[u].text@, rows[k]);
    }
}

/// A request that comes to an end has an outcome for each of its rows, in order:
/// answers if there was a response, and none if there was not.
pub proof fn every_request_settles_its_rows(
    q: QuestionView,
    places: Seq<usize>,
    attempt: u32,
    outcome: Outcome,
)
    requires
        question_problem(q) is None,
        step_of(q, places, attempt, outcome) is Done,
    ensures
        ({
            let ps = step_of(q, places, attempt, outcome)->Done_0;
            &&& ps.len() == places.len()
            &&& forall|i: int| 0 <= i < ps.len() ==> (#[trigger] ps[i]).place == places[i]
        }),
{
    match outcome {
        Outcome::Reply { response, balanced } => {
            let answers = member(contents(response), "answers"@);
            match answers {
                Json::Object(m) => accepted_replies_answer_every_row(q, places, m, balanced@),
                _ => {},
            }
        },
        _ => {},
    }
}

/// Each text of the batch has an outcome.
pub open spec fn is_settled(ps: Seq<PlacedView>, batch: Seq<int>) -> bool {
    forall|j: int| 0 <= j < batch.len() ==> is_placed(ps, #[trigger] batch[j])
}

proof fn lemma_in_some_batch(batches: Seq<Seq<int>>, u: int)
    requires
        joined(batches).contains(u),
    ensures
        exists|b: int| 0 <= b < batches.len() && (#[trigger] batches[b]).contains(u),
    decreases batches.len(),
{
    let front = joined(batches.drop_last());
    let k = joined(batches).index_of(u);
    if k < front.len() {
        assert(front[k] == u);
        lemma_in_some_batch(batches.drop_last(), u);
        let b = choose|b: int|
            0 <= b < batches.drop_last().len() && (#[trigger] batches.drop_last()[b]).contains(u);
        assert(batches[b].contains(u));
    } else {
        assert(batches.last()[k - front.len()] == u);
        assert(batches[batches.len() - 1].contains(u));
    }
}

/// Once every request has come to an end, in whatever order, each row has the
/// outcome of its own text, and a row without text has none.
pub proof fn a_column_is_answered(
    cells: Seq<CellView>,
    d: Distinct,
    limit: usize,
    answers: Seq<Option<AnswerView>>,
    ps: Seq<PlacedView>,
    out: Seq<Option<AnswerView>>,
    i: int,
)
    requires
        is_distinct(cells, d),
        answers.len() == d.texts@.len(),
        forall|k: int|
            0 <= k < ps.len() ==> (#[trigger] ps[k]).place < d.texts@.len() && ps[k].answer
                == answers[ps[k].place as int],
        forall|b: int|
            0 <= b < packed(d.texts@, d.texts@.len() as int, limit).len() ==> is_settled(
                ps,
                #[trigger] packed(d.texts@, d.texts@.len() as int, limit)[b],
            ),
        out.len() == cells.len(),
        forall|k: int| 0 <= k < out.len() ==> (#[trigger] out[k]) is None,
        0 <= i < cells.len(),
    ensures
        all_written(out, d.rows_for@, ps)[i] == match cells[i] {
            CellView::Text(t) => answers[distinct_texts(cells).index_of(t)],
            _ => None,
        },
{
    every_row_gets_its_answer(cells, d, answers, ps, out, i);
    match cells[i] {
        CellView::Text(t) => {
            let n = d.texts@.len() as int;
            let batches = packed(d.texts@, n, limit);
            each_text_is_asked_about_once(cells);
            assert(in_column(cells, t));
            assert(distinct_texts(cells).contains(t));
            let u = distinct_texts(cells).index_of(t);
            assert(distinct_texts(cells).len() == n);
            batches_cover_the_texts(d.texts@, n, limit);
            assert(joined(batches)[u] == u);
            lemma_in_some_batch(batches, u);
            let b = choose|b: int| 0 <= b < batches.len() && (#[trigger] batches[b]).contains(u);
            assert(is_settled(ps, batches[b]));
            let j = batches[b].index_of(u);
            assert(is_placed(ps, batches[b][j]));
        },
        _ => {},
    }
}

/// What a reply says of a row is read from the row's own member, whatever the
/// other members say, and goes to the row's own place.
pub proof fn a_row_is_read_from_its_own_member(
    q: QuestionView,
    places: Seq<usize>,
    m: Map<Seq<char>, Json>,
    balanced: Seq<bool>,
    i: int,
)
    requires
        answers_of(q, places, m, balanced) is Ok,
        0 <= i < places.len(),
    ensures
        ({
            let ps = answers_of(q, places, m, balanced)->Ok_0;
            let key = "row_"@ + decimal(i as nat);
            &&& ps.len() == places.len()
            &&& ps[i].place == places[i]
            &&& m.contains_key(key)
            &&& ps[i].answer is Some
            &&& answer_of(q, m[key], balanced[i]) == Ok::<AnswerView, Failure<Seq<char>>>(
                ps[i].answer->0,
            )
        }),
    decreases places.len(),
{
    let front = places.drop_last();
    lemma_answers_len(q, front, m, balanced);
    if i < front.len() {
        a_row_is_read_from_its_own_member(q, front, m, balanced, i);
    }
}

proof fn lemma_answers_len(
    q: QuestionView,
    places: Seq<usize>,
    m: Map<Seq<char>, Json>,
    balanced: Seq<bool>,
)
    requires
        answers_of(q, places, m, balanced) is Ok,
    ensures
        answers_of(q, places, m, balanced)->Ok_0.len() == places.len(),
    decreases places.len(),
{
    if places.len() > 0 {
        lemma_answers_len(q, places.drop_last(), m, balanced);
    }
}

/// Two replies that agree on the member of a row give that row the same outcome.
pub proof fn other_members_play_no_part(
    q: QuestionView,
    places: Seq<usize>,
    m: Map<Seq<char>, Json>,
    n: Map<Seq<char>, Json>,
    balanced: Seq<bool>,
    i: int,
)
    requires
        answers_of(q, places, m, balanced) is Ok,
        answers_of(q, places, n, balanced) is Ok,
        0 <= i < places.len(),
        m["row_"@ + decimal(i as nat)] == n["row_"@ + decimal(i as nat)],
    ensures
        answers_of(q, places, m, balanced)->Ok_0[i] == answers_of(q, places, n, balanced)->Ok_0[i],
{
    a_row_is_read_from_its_own_member(q, places, m, balanced, i);
    a_row_is_read_from_its_own_member(q, places, n, balanced, i);
}

/// The reply has an answer in order for row `i`.
pub open spec fn answers_row(
    q: QuestionView,
    m: Map<Seq<char>, Json>,
    balanced: Seq<bool>,
    i: int,
) -> bool {
    let key = "row_"@ + decimal(i as nat);
    m.contains_key(key) && answer_of(q, m[key], balanced[i]) is Ok
}

/// A reply is accepted exactly if it has an answer in order for each row, and the
/// first row without one decides what is wrong.
pub proof fn a_reply_is_accepted_row_by_row(
    q: QuestionView,
    places: Seq<usize>,
    m: Map<Seq<char>, Json>,
    balanced: Seq<bool>,
)
    ensures
        answers_of(q, places, m, balanced) is Ok <==> forall|i: int|
            0 <= i < places.len() ==> #[trigger] answers_row(q, m, balanced, i),
        answers_of(q, places, m, balanced) matches Err(e) ==> exists|i: int|
            {
                &&& 0 <= i < places.len()
                &&& !(#[trigger] answers_row(q, m, balanced, i))
                &&& forall|j: int| 0 <= j < i ==> #[trigger] answers_row(q, m, balanced, j)
                &&& if m.contains_key("row_"@ + decimal(i as nat)) {
                    answer_of(q, m["row_"@ + decimal(i as nat)], balanced[i]) == Err::<
                        AnswerView,
                        Failure<Seq<char>>,
                    >(e)
                } else {
                    e is OmittedRow
                }
            },
    decreases places.len(),
{
    if places.len() > 0 {
        let front = places.drop_last();
        let last = places.len() - 1;
        a_reply_is_accepted_row_by_row(q, front, m, balanced);
        if answers_of(q, front, m, balanced) is Ok {
            if answers_of(q, places, m, balanced) is Err {
                assert(!answers_row(q, m, balanced, last));
            } else {
                assert(answers_row(q, m, balanced, last));
            }
        }
    }
}

/// A response is read from its answers, and without them it fails.
pub proof fn a_response_is_read_from_its_answers(
    q: QuestionView,
    places: Seq<usize>,
    json: Json,
    balanced: Seq<bool>,
)
    ensures
        match member(json, "answers"@) {
            Json::Object(m) => reply_of(q, places, json, balanced) == answers_of(
                q,
                places,
                m,
                balanced,
            ),
            _ => reply_of(q, places, json, balanced) == Err::<
                Seq<PlacedView>,
                Failure<Seq<char>>,
            >(Failure::OmittedAnswers),
        },
{
}

/// The probabilities that are summed for a row are those of its own member: as
/// many as there are criteria, in their order.
pub proof fn a_row_is_summed_from_its_own_member(q: QuestionView, json: Json, i: nat)
    ensures
        ({
            let answers = member(json, "answers"@);
            let own = member(answers, "row_"@ + decimal(i));
            match row_probabilities_of(q, json, i) {
                Some(bits) => {
                    &&& answers is Object && answers->Object_0.contains_key("row_"@ + decimal(i))
                    &&& member(own, "type"@) == Json::Text(q.kind) && q.kind != "noul"@
                    &&& has_probabilities(q, own)
                    &&& bits.len() == q.criteria.len()
                    &&& forall|k: int|
                        0 <= k < bits.len() ==> is_number(
                            said_of(q, own, k),
                            #[trigger] bits[k],
                        )
                },
                None => !(member(own, "type"@) == Json::Text(q.kind) && q.kind != "noul"@
                    && has_probabilities(q, own)),
            }
        }),
{
    let answers = member(json, "answers"@);
    let own = member(answers, "row_"@ + decimal(i));
    the_summed_probabilities_are_those_of_the_reply(q, own);
}

/// The answer that is placed for a row of a request is read from the member under
/// which the request had the row's own text.
pub proof fn a_reply_answers_the_text_that_was_sent(
    q: QuestionView,
    rows: Seq<Row>,
    m: Map<Seq<char>, Json>,
    balanced: Seq<bool>,
    i: int,
)
    requires
        rows.len() > 1,
        0 <= i < rows.len(),
        answers_of(q, row_places(rows), m, balanced) is Ok,
    ensures
        ({
            let key = "row_"@ + decimal(i as nat);
            let sent = body_of(q, texts_of(rows));
            let ps = answers_of(q, row_places(rows), m, balanced)->Ok_0;
            &&& member(member(sent, "state"@), key) == Json::Text(rows[i].text@)
            &&& ps[i].place == rows[i].place
            &&& answer_of(q, m[key], balanced[i]) == Ok::<AnswerView, Failure<Seq<char>>>(
                ps[i].answer->0,
            )
        }),
{
    a_row_is_read_from_its_own_member(q, row_places(rows), m, balanced, i);
    each_row_is_asked_about(q, texts_of(rows), i);
}

/// A response ends the attempts: it is accepted and every row has an answer, or
/// it fails the query. Which attempt it was plays no part.
pub proof fn a_response_ends_the_attempts(
    q: QuestionView,
    places: Seq<usize>,
    attempt: u32,
    response: serde_json::Value,
    balanced: Vec<bool>,
)
    ensures
        ({
            let step = step_of(q, places, attempt, Outcome::Reply { response, balanced });
            match reply_of(q, places, contents(response), balanced@) {
                Ok(ps) => step == StepView::Done(ps),
                Err(e) => step == StepView::Fail(e),
            }
        }),
{
}

/// After the last attempt without a response every row is there, and none has an
/// answer.
pub proof fn an_outage_leaves_every_row_without_an_answer(
    q: QuestionView,
    places: Seq<usize>,
    silence: Outcome,
)
    requires
        silence is TimedOut || silence == Outcome::Failed(RequestError::Unavailable),
    ensures
        step_of(q, places, 2, silence) matches StepView::Done(ps) && ps.len() == places.len()
            && forall|i: int|
            0 <= i < places.len() ==> (#[trigger] ps[i]).place == places[i] && ps[i].answer is None,
{
}

/// A column is in order exactly if every value is NULL or text of at most 64 KiB
/// once it is written as a JSON string, and the first value that is not decides
/// what is wrong.
pub proof fn a_column_in_order_is_text(cells: Seq<CellView>)
    ensures
        cells_problem(cells) is None <==> forall|i: int|
            0 <= i < cells.len() ==> !(#[trigger] cells[i] is Other) && (
            cells[i] matches CellView::Text(t) ==> encode_utf8(quoted(t)).len() <= 64 * 1024),
        cells_problem(cells) matches Some(p) ==> exists|i: int|
            {
                &&& 0 <= i < cells.len()
                &&& match #[trigger] cells[i] {
                    CellView::Null => false,
                    CellView::Text(t) => encode_utf8(quoted(t)).len() > 64 * 1024 && p
                        is LargeInput,
                    CellView::Other => p is NotText,
                }
                &&& cells_problem(cells.take(i)) is None
            },
    decreases cells.len(),
{
    if cells.len() > 0 {
        let front = cells.drop_last();
        let n = cells.len() - 1;
        a_column_in_order_is_text(front);
        if cells_problem(front) is Some {
            let p = cells_problem(front)->0;
            let i = choose|i: int|
                {
                    &&& 0 <= i < front.len()
                    &&& match #[trigger] front[i] {
                        CellView::Null => false,
                        CellView::Text(t) => encode_utf8(quoted(t)).len() > 64 * 1024 && p
                            is LargeInput,
                        CellView::Other => p is NotText,
                    }
                    &&& cells_problem(front.take(i)) is None
                };
            assert(cells[i] == front[i]);
            assert(cells.take(i) =~= front.take(i));
        } else {
            assert forall|i: int| 0 <= i < front.len() implies !(#[trigger] cells[i] is Other) && (
            cells[i] matches CellView::Text(t) ==> encode_utf8(quoted(t)).len() <= 64 * 1024) by {
                assert(cells[i] == front[i]);
            }
            assert(cells.take(n) =~= front);
            assert(cells[n] == cells.last());
        }
    }
}

/// Each text is measured by the bytes that it takes as a JSON string.
pub proof fn texts_are_measured(cells: Seq<CellView>, d: Distinct)
    requires
        is_distinct(cells, d),
    ensures
        forall|u: int|
            0 <= u < d.texts@.len() ==> (#[trigger] d.texts@[u]).bytes == encode_utf8(
                quoted(d.texts@[u].text@),
            ).len() && d.texts@[u].bytes <= 64 * 1024,
        forall|u: int|
            0 <= u < d.texts@.len() ==> in_column(cells, (#[trigger] d.texts@[u]).text@),
        forall|u: int, i: int|
            0 <= u < d.texts@.len() ==> (row_numbers(#[trigger] d.rows_for@[u]@).contains(i) <==> {
                &&& 0 <= i < cells.len()
                &&& #[trigger] cells[i] == CellView::Text(d.texts@[u].text@)
            }),
{
    each_text_is_asked_about_once(cells);
    assert forall|u: int| 0 <= u < d.texts@.len() implies in_column(
        cells,
        (#[trigger] d.texts@[u]).text@,
    ) by {
        assert(text_views(d.texts@)[u] == d.texts@[u].text@);
        assert(distinct_texts(cells).contains(d.texts@[u].text@));
    }
    assert forall|u: int, i: int| 0 <= u < d.texts@.len() implies (row_numbers(
        #[trigger] d.rows_for@[u]@,
    ).contains(i) <==> {
        &&& 0 <= i < cells.len()
        &&& #[trigger] cells[i] == CellView::Text(d.texts@[u].text@)
    }) by {
        rows_are_found(cells, d.texts@[u].text@, i);
    }
}

/// All texts of the batches, one after the other.
pub open spec fn texts_in(batches: Seq<Vec<Row>>) -> Seq<Seq<char>>
    decreases batches.len(),
{
    if batches.len() == 0 {
        Seq::empty()
    } else {
        texts_in(batches.drop_last()) + batches.last()@.map_values(|r: Row| r.text@)
    }
}

/// The batches put together are the texts, each once and in order, and every row
/// goes to the place of its text.
pub proof fn the_batches_are_the_texts(
    texts: Seq<Text>,
    limit: usize,
    batches: Seq<Vec<Row>>,
)
    requires
        is_split(texts, limit, batches),
    ensures
        texts_in(batches) == text_views(texts),
        forall|b: int, k: int|
            0 <= b < batches.len() && 0 <= k < batches[b]@.len()
                ==> (#[trigger] batches[b]@[k]).place < texts.len() && batches[b]@[k].text@
                == texts[batches[b]@[k].place as int].text@,
{
    batches_cover_the_texts(texts, texts.len() as int, limit);
    lemma_texts_in(texts, batches);
    let numbers = joined(all_places(batches));
    assert(texts_in(batches) =~= text_views(texts)) by {
        assert forall|i: int| 0 <= i < texts.len() implies texts_in(batches)[i]
            == text_views(texts)[i] by {
            assert(numbers[i] == i);
        }
    }
    assert forall|b: int, k: int| 0 <= b < batches.len() && 0 <= k < batches[b]@.len() implies (
    #[trigger] batches[b]@[k]).place < texts.len() && batches[b]@[k].text@
        == texts[batches[b]@[k].place as int].text@ by {
        assert(rows_hold(batches[b]@, texts));
    }
}

proof fn lemma_texts_in(texts: Seq<Text>, batches: Seq<Vec<Row>>)
    requires
        forall|b: int| 0 <= b < batches.len() ==> rows_hold((#[trigger] batches[b])@, texts),
    ensures
        texts_in(batches).len() == joined(all_places(batches)).len(),
        forall|i: int|
            0 <= i < texts_in(batches).len() ==> {
                let u = #[trigger] joined(all_places(batches))[i];
                0 <= u < texts.len() && texts_in(batches)[i] == texts[u].text@
            },
    decreases batches.len(),
{
    if batches.len() > 0 {
        let front = batches.drop_last();
        let last = batches.last();
        assert forall|b: int| 0 <= b < front.len() implies rows_hold(
            (#[trigger] front[b])@,
            texts,
        ) by {
            assert(front[b] == batches[b]);
        }
        lemma_texts_in(texts, front);
        assert(all_places(batches).drop_last() =~= all_places(front));
        assert(all_places(batches).last() == places(last@));
        assert(rows_hold(batches[batches.len() - 1]@, texts));
        let n = texts_in(front).len();
        assert forall|i: int| 0 <= i < texts_in(batches).len() implies {
            let u = #[trigger] joined(all_places(batches))[i];
            0 <= u < texts.len() && texts_in(batches)[i] == texts[u].text@
        } by {
            if i < n {
                assert(joined(all_places(front))[i] == joined(all_places(batches))[i]);
            } else {
                assert(joined(all_places(batches))[i] == last@[i - n].place);
            }
        }
    }
}

/// A batch has at most so many texts as allowed, and if it has more than one, the
/// bytes of its texts come to at most 32 KiB.
pub proof fn requests_stay_small(
    texts: Seq<Text>,
    limit: usize,
    batches: Seq<Vec<Row>>,
    b: int,
)
    requires
        is_split(texts, limit, batches),
        limit >= 1,
        0 <= b < batches.len(),
    ensures
        1 <= batches[b]@.len() <= limit,
        batches[b]@.len() > 1 ==> batches[b]@.map_values(
            |r: Row| texts[r.place as int].bytes as int,
        ).fold_left(0, |sum: int, bytes: int| sum + bytes) <= 32 * 1024,
{
    let n = texts.len() as int;
    batches_keep_the_limits(texts, n, limit);
    let batch = packed(texts, n, limit)[b];
    assert(batch == all_places(batches)[b]);
    assert(batch == places(batches[b]@));
    lemma_total(texts, batches[b]@);
}

proof fn lemma_total(texts: Seq<Text>, rows: Seq<Row>)
    ensures
        rows.map_values(|r: Row| texts[r.place as int].bytes as int).fold_left(
            0,
            |sum: int, bytes: int| sum + bytes,
        ) == total(texts, places(rows)),
    decreases rows.len(),
{
    let sizes = rows.map_values(|r: Row| texts[r.place as int].bytes as int);
    if rows.len() > 0 {
        lemma_total(texts, rows.drop_last());
        assert(sizes.drop_last() =~= rows.drop_last().map_values(
            |r: Row| texts[r.place as int].bytes as int,
        ));
        assert(places(rows).drop_last() =~= places(rows.drop_last()));
        assert(sizes.last() == texts[rows.last().place as int].bytes);
        assert(places(rows).last() == rows.last().place as int);
    }
}

/// A new request is started only where the text would make the one before too
/// long or too large.
pub proof fn requests_are_not_wasted(
    texts: Seq<Text>,
    limit: usize,
    batches: Seq<Vec<Row>>,
    b: int,
)
    requires
        is_split(texts, limit, batches),
        0 <= b < batches.len() - 1,
    ensures
        batches[b + 1]@.len() > 0,
        batches[b]@.len() >= limit || batches[b]@.map_values(
            |r: Row| texts[r.place as int].bytes as int,
        ).fold_left(0, |sum: int, bytes: int| sum + bytes)
            + texts[batches[b + 1]@[0].place as int].bytes > 32 * 1024,
{
    let n = texts.len() as int;
    assert(packed(texts, n, limit)[b] == places(batches[b]@)) by {
        assert(all_places(batches)[b] == places(batches[b]@));
    }
    assert(packed(texts, n, limit)[b + 1] == places(batches[b + 1]@)) by {
        assert(all_places(batches)[b + 1] == places(batches[b + 1]@));
    }
    batches_are_full(texts, n, limit, b);
    lemma_total(texts, batches[b]@);
}

/// The texts come in the order in which they first occur: more rows may add texts,
/// but only after those that were there.
pub proof fn earlier_texts_come_first(cells: Seq<CellView>, k: int)
    requires
        0 <= k <= cells.len(),
    ensures
        distinct_texts(cells.take(k)).is_prefix_of(distinct_texts(cells)),
    decreases cells.len(),
{
    let all = distinct_texts(cells);
    if k == cells.len() {
        assert(cells.take(k) =~= cells);
        assert(all.subrange(0, all.len() as int) =~= all);
    } else {
        let front = cells.drop_last();
        let some = distinct_texts(cells.take(k));
        let before = distinct_texts(front);
        earlier_texts_come_first(front, k);
        assert(front.take(k) =~= cells.take(k));
        assert(before.subrange(0, some.len() as int) == some);
        assert(all.subrange(0, some.len() as int) =~= before.subrange(0, some.len() as int));
    }
}

/// An answer goes to the rows of its place, and to no other: these have it from then
/// on, and the rest of the column is as it was.
pub proof fn an_answer_goes_to_the_rows_of_its_place(
    out: Seq<Option<AnswerView>>,
    rows_for: Seq<Vec<usize>>,
    ps: Seq<PlacedView>,
    p: PlacedView,
    i: int,
)
    requires
        0 <= i < out.len(),
    ensures
        all_written(out, rows_for, Seq::empty()) == out,
        all_written(out, rows_for, ps).len() == out.len(),
        (exists|k: int|
            0 <= k < rows_for[p.place as int]@.len() && #[trigger] rows_for[p.place as int]@[k]
                == i) ==> all_written(out, rows_for, ps.push(p))[i] == p.answer,
        (forall|k: int|
            0 <= k < rows_for[p.place as int]@.len() ==> #[trigger] rows_for[p.place as int]@[k]
                != i) ==> all_written(out, rows_for, ps.push(p))[i] == all_written(
            out,
            rows_for,
            ps,
        )[i],
{
    lemma_written_len(out, rows_for, ps);
    assert(ps.push(p).drop_last() =~= ps);
    let rows = rows_for[p.place as int]@;
    let numbers = row_numbers(rows);
    if exists|k: int| 0 <= k < rows.len() && #[trigger] rows[k] == i {
        let k = choose|k: int| 0 <= k < rows.len() && #[trigger] rows[k] == i;
        assert(numbers[k] == i);
        assert(numbers.contains(i));
    } else if numbers.contains(i) {
        let k = numbers.index_of(i);
        assert(rows[k] == i);
    }
}

proof fn lemma_written_len(
    out: Seq<Option<AnswerView>>,
    rows_for: Seq<Vec<usize>>,
    ps: Seq<PlacedView>,
)
    ensures
        all_written(out, rows_for, ps).len() == out.len(),
    decreases ps.len(),
{
    if ps.len() > 0 {
        lemma_written_len(out, rows_for, ps.drop_last());
    }
}

/// Values, rows, answers and what to do next are told by what they hold.
pub proof fn a_run_is_told_by_what_it_holds(
    cells: Seq<Cell>,
    rows: Seq<Row>,
    ps: Seq<Placed>,
    i: int,
)
    ensures
        cell_views(cells).len() == cells.len(),
        row_places(rows).len() == rows.len(),
        placed_views(ps).len() == ps.len(),
        0 <= i < cells.len() ==> (match cells[i] {
            Cell::Null => cell_views(cells)[i] is Null,
            Cell::Text(t) => cell_views(cells)[i] == CellView::Text(t@),
            Cell::Other => cell_views(cells)[i] is Other,
        }),
        0 <= i < rows.len() ==> row_places(rows)[i] == rows[i].place,
        0 <= i < ps.len() ==> {
            &&& placed_views(ps)[i].place == ps[i].place
            &&& placed_views(ps)[i].answer is Some <==> ps[i].answer is Some
            &&& ps[i].answer matches Some(a) ==> placed_views(ps)[i].answer == Some(a@)
        },
{
}

/// What is read of a reply is what it says, row by row.
pub proof fn what_is_read_is_what_was_said(
    r: Result<Vec<Placed>, ExecError>,
    said: Result<Seq<PlacedView>, Failure<Seq<char>>>,
)
    requires
        placed_outcome(r, said),
    ensures
        r is Ok <==> said is Ok,
        r matches Ok(ps) ==> ps@.len() == said->Ok_0.len() && forall|i: int|
            0 <= i < ps@.len() ==> (#[trigger] ps@[i])@ == said->Ok_0[i],
        r matches Err(e) ==> said->Err_0 == e@,
{
    if r is Ok {
        let ps = r->Ok_0@;
        assert forall|i: int| 0 <= i < ps.len() implies (#[trigger] ps[i])@ == said->Ok_0[i] by {
            assert(placed_views(ps)[i] == ps[i]@);
        }
    }
}

/// A column in order gives its distinct texts, and any other is refused for its first
/// value that is out of order.
pub proof fn columns_in_order_are_taken(cells: Seq<CellView>, r: Result<Distinct, ExecError>)
    requires
        is_taken(cells, r),
    ensures
        r is Ok <==> forall|i: int|
            0 <= i < cells.len() ==> !(#[trigger] cells[i] is Other) && (
            cells[i] matches CellView::Text(t) ==> encode_utf8(quoted(t)).len() <= 64 * 1024),
        r matches Ok(d) ==> is_distinct(cells, d),
        r matches Err(e) ==> cells_problem(cells) == Some(e@),
{
    a_column_in_order_is_text(cells);
}

/// The rows of a text are listed from the first to the last, each once.
pub proof fn rows_are_listed_in_order(cells: Seq<CellView>, t: Seq<char>)
    ensures
        forall|k: int, l: int|
            0 <= k < l < rows_with(cells, t).len() ==> rows_with(cells, t)[k] < rows_with(
                cells,
                t,
            )[l],
    decreases cells.len(),
{
    if cells.len() > 0 {
        let front = cells.drop_last();
        let before = rows_with(front, t);
        let now = rows_with(cells, t);
        rows_are_listed_in_order(front, t);
        assert forall|k: int, l: int| 0 <= k < l < now.len() implies now[k] < now[l] by {
            assert(now[k] == before[k]);
            if l < before.len() {
                assert(before[k] < before[l]);
            } else {
                assert(before.contains(before[k]));
                rows_are_found(front, t, before[k]);
            }
        }
    }
}

/// Where a request may have no more than one text, each text is alone in its own.
pub proof fn texts_can_be_sent_alone(
    texts: Seq<Text>,
    limit: usize,
    batches: Seq<Vec<Row>>,
    b: int,
)
    requires
        is_split(texts, limit, batches),
        limit <= 1,
        0 <= b < batches.len(),
    ensures
        batches.len() == texts.len(),
        batches[b]@.len() == 1,
        batches[b]@[0].place == b,
        batches[b]@[0].text@ == texts[b].text@,
{
    let n = texts.len() as int;
    lemma_alone(texts, n, limit);
    assert(all_places(batches).len() == batches.len());
    assert(all_places(batches)[b] == places(batches[b]@));
    assert(packed(texts, n, limit)[b] == seq![b]);
    assert(places(batches[b]@)[0] == batches[b]@[0].place);
    assert(rows_hold(batches[b]@, texts));
}

proof fn lemma_alone(texts: Seq<Text>, n: int, limit: usize)
    requires
        0 <= n <= texts.len(),
        limit <= 1,
    ensures
        packed(texts, n, limit) == Seq::new(n as nat, |u: int| seq![u]),
    decreases n,
{
    let want = Seq::new(n as nat, |u: int| seq![u]);
    if n > 0 {
        lemma_alone(texts, n - 1, limit);
        let before = packed(texts, n - 1, limit);
        if before.len() > 0 {
            assert(before.last() == seq![n - 2]);
        }
    }
    assert(packed(texts, n, limit) =~= want);
}

} // verus!
