//! Physical-plan rules around the node that evaluates async calls, both of which
//! remove inference the query does not need.
//!
//! * [`FilterBeforeJev`] splits a filter that sits above the async node into the
//!   conjuncts that need no inference and the rest, and runs the cheap ones
//!   beneath the node. `WHERE cheap AND prompt_jev(...) > x` is otherwise planned
//!   as one filter above the node, so every row is sent for inference before
//!   either conjunct runs.
//! * [`DeduplicateJev`] keeps one evaluation of each distinct call and projects
//!   its result into the slots it had, so downstream column indices stay valid.
use crate::names::INTERNAL_FUNCTION;
use crate::text::same_text;
use vstd::prelude::*;

verus! {

/// An expression that the async node evaluates.
#[derive(Debug)]
pub struct AsyncExpr {
    /// The scalar function that it calls, if it is such a call.
    pub function: Option<String>,
    /// Equal expressions share a number.
    pub call: usize,
}

/// The expression calls the internal function.
pub open spec fn is_jev_async(e: AsyncExpr) -> bool {
    match e.function {
        Some(name) => name@ == INTERNAL_FUNCTION@,
        None => false,
    }
}

/// Whether the expression calls the internal function.
pub fn is_jev_expr(e: &AsyncExpr) -> (r: bool)
    ensures
        r == is_jev_async(*e),
{
    match &e.function {
        Some(name) => same_text(name.as_str(), INTERNAL_FUNCTION),
        None => false,
    }
}

/// One of the expressions calls the internal function.
pub open spec fn any_jev_async(exprs: Seq<AsyncExpr>) -> bool {
    exists|i: int| 0 <= i < exprs.len() && is_jev_async(#[trigger] exprs[i])
}

fn any_jev_expr(exprs: &Vec<AsyncExpr>) -> (r: bool)
    ensures
        r == any_jev_async(exprs@),
{
    let mut i: usize = 0;
    while i < exprs.len()
        invariant
            i <= exprs.len(),
            forall|j: int| 0 <= j < i ==> !is_jev_async(#[trigger] exprs@[j]),
        decreases exprs.len() - i,
    {
        if is_jev_expr(&exprs[i]) {
            return true;
        }
        i = i + 1;
    }
    false
}

/// A conjunct of a filter, by number, and the indices of the columns it reads.
#[derive(Debug)]
pub struct Conjunct {
    pub id: usize,
    pub columns: Vec<usize>,
}

/// What a filter has besides its predicate.
#[derive(Debug)]
pub struct Settings {
    pub fetch: Option<usize>,
    pub batch_size: usize,
    pub selectivity: u8,
    pub projection: Option<Vec<usize>>,
}

/// A filter. Without settings it is as a new filter is.
#[derive(Debug)]
pub struct Filter {
    pub conjuncts: Vec<Conjunct>,
    pub settings: Option<Settings>,
    pub input: Plan,
}

/// A physical plan, as far as the rules look into it.
#[derive(Debug)]
pub enum Plan {
    Filter(Box<Filter>),
    /// A node that spreads the rows of its input over partitions, by number.
    Repartition { id: usize, input: Box<Plan> },
    /// The async node: the columns of its input, of which there are `width`, and
    /// then one column for each expression.
    Async { exprs: Vec<AsyncExpr>, width: usize, input: Box<Plan> },
    /// Any other plan, by number.
    Other(usize),
}

/// The width of the input of the async node that evaluates a call of the
/// internal function beneath any repartition nodes, if there is such a node.
pub open spec fn inference_width(plan: Plan) -> Option<usize>
    decreases plan,
{
    match plan {
        Plan::Repartition { input, .. } => inference_width(*input),
        Plan::Async { exprs, width, .. } => if any_jev_async(exprs@) {
            Some(width)
        } else {
            None
        },
        _ => None,
    }
}

fn find_inference(plan: &Plan) -> (r: Option<usize>)
    ensures
        r == inference_width(*plan),
    decreases plan,
{
    match plan {
        Plan::Repartition { input, .. } => find_inference(input),
        Plan::Async { exprs, width, .. } => {
            if any_jev_expr(exprs) {
                Some(*width)
            } else {
                None
            }
        },
        _ => None,
    }
}

/// The conjunct reads a column that the async node computes: one at or past the
/// width of its input.
pub open spec fn needs_inference(c: Conjunct, width: usize) -> bool {
    exists|i: int| 0 <= i < c.columns@.len() && #[trigger] c.columns@[i] >= width
}

fn reads_inference(c: &Conjunct, width: usize) -> (r: bool)
    ensures
        r == needs_inference(*c, width),
{
    let mut i: usize = 0;
    while i < c.columns.len()
        invariant
            i <= c.columns.len(),
            forall|j: int| 0 <= j < i ==> #[trigger] c.columns@[j] < width,
        decreases c.columns.len() - i,
    {
        if c.columns[i] >= width {
            return true;
        }
        i = i + 1;
    }
    false
}

/// The conjuncts that need no inference, in their order.
pub open spec fn cheap(conjuncts: Seq<Conjunct>, width: usize) -> Seq<Conjunct> {
    conjuncts.filter(|c: Conjunct| !needs_inference(c, width))
}

/// The conjuncts that need inference, in their order.
pub open spec fn costly(conjuncts: Seq<Conjunct>, width: usize) -> Seq<Conjunct> {
    conjuncts.filter(|c: Conjunct| needs_inference(c, width))
}

/// The plan is a filter over inference with conjuncts of both sorts.
pub open spec fn can_split(plan: Plan) -> bool {
    &&& plan matches Plan::Filter(f)
    &&& inference_width(f.input) matches Some(width)
    &&& cheap(f.conjuncts@, width).len() > 0
    &&& costly(f.conjuncts@, width).len() > 0
}

/// `after` is `before` with a new filter, of these conjuncts, directly beneath
/// the async node. The repartition nodes stand as they stood.
pub open spec fn filtered_beneath(before: Plan, after: Plan, conjuncts: Seq<Conjunct>) -> bool
    decreases before,
{
    match (before, after) {
        (
            Plan::Repartition { id, input },
            Plan::Repartition { id: new_id, input: new_input },
        ) => new_id == id && filtered_beneath(*input, *new_input, conjuncts),
        (
            Plan::Async { exprs, width, input },
            Plan::Async { exprs: new_exprs, width: new_width, input: new_input },
        ) => {
            &&& new_exprs == exprs
            &&& new_width == width
            &&& *new_input matches Plan::Filter(pre)
            &&& pre.conjuncts@ == conjuncts
            &&& pre.settings is None
            &&& pre.input == *input
        },
        _ => false,
    }
}

/// `after` is `before` with its conjuncts split: those that need no inference
/// beneath the async node, and the rest, with all the settings, on top.
pub open spec fn split(before: Plan, after: Plan) -> bool {
    &&& before matches Plan::Filter(f)
    &&& after matches Plan::Filter(post)
    &&& inference_width(f.input) matches Some(width)
    &&& post.conjuncts@ == costly(f.conjuncts@, width)
    &&& post.settings == f.settings
    &&& filtered_beneath(f.input, post.input, cheap(f.conjuncts@, width))
}

/// A plan, and whether it is a new one.
#[derive(Debug)]
pub struct Transformed {
    pub plan: Plan,
    pub changed: bool,
}

/// `r` comes of running the cheap conjuncts of a plan first.
pub open spec fn is_filtered_first(plan: Plan, r: Transformed) -> bool {
    &&& r.changed == can_split(plan)
    &&& if r.changed {
        split(plan, r.plan)
    } else {
        r.plan == plan
    }
}

/// Whether some conjunct needs inference, and whether some other does not.
fn has_both(conjuncts: &Vec<Conjunct>, width: usize) -> (r: bool)
    ensures
        r == (cheap(conjuncts@, width).len() > 0 && costly(conjuncts@, width).len() > 0),
{
    let ghost is_costly = |c: Conjunct| needs_inference(c, width);
    let ghost is_cheap = |c: Conjunct| !needs_inference(c, width);
    let mut some_cheap = false;
    let mut some_costly = false;
    let mut i: usize = 0;
    proof {
        reveal(Seq::filter);
        assert(conjuncts@.take(0) == Seq::<Conjunct>::empty());
    }
    while i < conjuncts.len()
        invariant
            is_costly == (|c: Conjunct| needs_inference(c, width)),
            is_cheap == (|c: Conjunct| !needs_inference(c, width)),
            i <= conjuncts.len(),
            some_cheap == (conjuncts@.take(i as int).filter(is_cheap).len() > 0),
            some_costly == (conjuncts@.take(i as int).filter(is_costly).len() > 0),
        decreases conjuncts.len() - i,
    {
        proof {
            reveal(Seq::filter);
            assert(conjuncts@.take(i + 1).drop_last() == conjuncts@.take(i as int));
            assert(conjuncts@.take(i + 1).last() == conjuncts@[i as int]);
        }
        if reads_inference(&conjuncts[i], width) {
            some_costly = true;
        } else {
            some_cheap = true;
        }
        i = i + 1;
    }
    proof {
        assert(conjuncts@.take(i as int) == conjuncts@);
    }
    some_cheap && some_costly
}

/// Part the conjuncts: those that need no inference, and the rest.
fn partition(conjuncts: Vec<Conjunct>, width: usize) -> (r: (Vec<Conjunct>, Vec<Conjunct>))
    ensures
        r.0@ == cheap(conjuncts@, width),
        r.1@ == costly(conjuncts@, width),
{
    let ghost is_costly = |c: Conjunct| needs_inference(c, width);
    let ghost is_cheap = |c: Conjunct| !needs_inference(c, width);
    let ghost all = conjuncts@;
    let mut rest = conjuncts;
    let mut without: Vec<Conjunct> = Vec::new();
    let mut with: Vec<Conjunct> = Vec::new();
    let ghost mut i: int = 0;
    proof {
        reveal(Seq::filter);
        assert(all.take(0) == Seq::<Conjunct>::empty());
    }
    while rest.len() > 0
        invariant
            is_costly == (|c: Conjunct| needs_inference(c, width)),
            is_cheap == (|c: Conjunct| !needs_inference(c, width)),
            0 <= i <= all.len(),
            rest@ == all.skip(i),
            without@ == all.take(i).filter(is_cheap),
            with@ == all.take(i).filter(is_costly),
        decreases rest.len(),
    {
        let c = rest.remove(0);
        proof {
            reveal(Seq::filter);
            assert(c == all[i]);
            assert(all.take(i + 1).drop_last() == all.take(i));
            assert(all.take(i + 1).last() == c);
            assert(rest@ == all.skip(i + 1));
            i = i + 1;
        }
        if reads_inference(&c, width) {
            with.push(c);
        } else {
            without.push(c);
        }
    }
    proof {
        assert(all.take(i) == all);
    }
    (without, with)
}

/// Put a new filter directly beneath the async node.
fn filter_beneath(plan: Plan, conjuncts: Vec<Conjunct>) -> (r: Plan)
    requires
        inference_width(plan) is Some,
    ensures
        filtered_beneath(plan, r, conjuncts@),
    decreases plan,
{
    match plan {
        Plan::Repartition { id, input } => {
            let input = filter_beneath(*input, conjuncts);
            Plan::Repartition { id, input: Box::new(input) }
        },
        Plan::Async { exprs, width, input } => {
            let pre = Filter { conjuncts, settings: None, input: *input };
            Plan::Async { exprs, width, input: Box::new(Plan::Filter(Box::new(pre))) }
        },
        other => other,
    }
}

/// Runs the conjuncts that need no inference beneath the async node.
#[derive(Debug)]
pub struct FilterBeforeJev;

impl FilterBeforeJev {
    /// The name of the rule.
    pub fn name(&self) -> (r: &'static str)
        ensures
            r@ == "datafusion_jev_filter_first"@,
    {
        "datafusion_jev_filter_first"
    }

    /// The rule keeps the schema of the plan.
    pub fn schema_check(&self) -> (r: bool)
        ensures
            r,
    {
        true
    }

    /// Split a filter over inference. Any other plan stays as it is.
    pub fn optimize(&self, plan: Plan) -> (r: Transformed)
        ensures
            is_filtered_first(plan, r),
            r.changed == can_split(plan),
            if r.changed {
                split(plan, r.plan)
            } else {
                r.plan == plan
            },
    {
        match plan {
            Plan::Filter(filter) => {
                let filter: Filter = *filter;
                match find_inference(&filter.input) {
                    Some(width) => {
                        if has_both(&filter.conjuncts, width) {
                            let Filter { conjuncts, settings, input } = filter;
                            let (without, with) = partition(conjuncts, width);
                            let rebuilt = filter_beneath(input, without);
                            let post = Filter { conjuncts: with, settings, input: rebuilt };
                            Transformed { plan: Plan::Filter(Box::new(post)), changed: true }
                        } else {
                            Transformed { plan: Plan::Filter(Box::new(filter)), changed: false }
                        }
                    },
                    None => {
                        Transformed { plan: Plan::Filter(Box::new(filter)), changed: false }
                    },
                }
            },
            other => Transformed { plan: other, changed: false },
        }
    }
}

/// The conjunct's outcome rests on the columns that it reads alone.
pub open spec fn reads_its_columns<V>(
    c: Conjunct,
    holds: spec_fn(usize, Seq<V>) -> bool,
) -> bool {
    forall|a: Seq<V>, b: Seq<V>|
        (forall|i: int|
            0 <= i < c.columns@.len() ==> {
                let k = #[trigger] c.columns@[i] as int;
                k < a.len() && k < b.len() && a[k] == b[k]
            }) ==> #[trigger] holds(c.id, a) == #[trigger] holds(c.id, b)
}

/// Every conjunct holds of the row.
pub open spec fn passes<V>(
    conjuncts: Seq<Conjunct>,
    holds: spec_fn(usize, Seq<V>) -> bool,
    row: Seq<V>,
) -> bool {
    forall|i: int| 0 <= i < conjuncts.len() ==> holds((#[trigger] conjuncts[i]).id, row)
}

/// Filtering first keeps the same rows: a row passes the cheap conjuncts beneath
/// the async node, and then with its answers the others on top, exactly if with
/// its answers it passes all of them.
pub proof fn filtering_first_keeps_the_rows<V>(
    conjuncts: Seq<Conjunct>,
    width: usize,
    holds: spec_fn(usize, Seq<V>) -> bool,
    row: Seq<V>,
    answers: Seq<V>,
)
    requires
        row.len() == width,
        forall|i: int|
            0 <= i < conjuncts.len() ==> reads_its_columns(#[trigger] conjuncts[i], holds),
    ensures
        passes(conjuncts, holds, row + answers) == (passes(cheap(conjuncts, width), holds, row)
            && passes(costly(conjuncts, width), holds, row + answers)),
    decreases conjuncts.len(),
{
    reveal(Seq::filter);
    let full = row + answers;
    if conjuncts.len() > 0 {
        let front = conjuncts.drop_last();
        let last = conjuncts.last();
        filtering_first_keeps_the_rows(front, width, holds, row, answers);
        assert(reads_its_columns(conjuncts[conjuncts.len() - 1], holds));
        lemma_passes_push(front, last, holds, full);
        assert(front.push(last) == conjuncts);
        if needs_inference(last, width) {
            lemma_passes_push(costly(front, width), last, holds, full);
        } else {
            lemma_passes_push(cheap(front, width), last, holds, row);
            assert forall|i: int| 0 <= i < last.columns@.len() implies {
                let k = #[trigger] last.columns@[i] as int;
                k < row.len() && k < full.len() && row[k] == full[k]
            } by {}
            assert(holds(last.id, row) == holds(last.id, full));
        }
    }
}

proof fn lemma_passes_push<V>(
    front: Seq<Conjunct>,
    last: Conjunct,
    holds: spec_fn(usize, Seq<V>) -> bool,
    row: Seq<V>,
)
    ensures
        passes(front.push(last), holds, row) == (passes(front, holds, row) && holds(
            last.id,
            row,
        )),
{
    let all = front.push(last);
    if passes(all, holds, row) {
        assert(all[all.len() - 1] == last);
        assert forall|i: int| 0 <= i < front.len() implies holds(
            (#[trigger] front[i]).id,
            row,
        ) by {
            assert(all[i] == front[i]);
        }
    }
}

/// No conjunct is lost and none runs twice.
pub proof fn every_conjunct_runs_once(conjuncts: Seq<Conjunct>, width: usize)
    ensures
        cheap(conjuncts, width).to_multiset().add(costly(conjuncts, width).to_multiset())
            == conjuncts.to_multiset(),
    decreases conjuncts.len(),
{
    broadcast use vstd::seq_lib::group_to_multiset_ensures;

    reveal(Seq::filter);
    let both = cheap(conjuncts, width).to_multiset().add(costly(conjuncts, width).to_multiset());
    if conjuncts.len() == 0 {
        assert(both =~= conjuncts.to_multiset());
    } else {
        let front = conjuncts.drop_last();
        every_conjunct_runs_once(front, width);
        assert(front.push(conjuncts.last()) == conjuncts);
        assert(both =~= conjuncts.to_multiset());
    }
}

/// Once split, a filter is not split again.
pub proof fn splitting_settles(before: Plan, after: Plan)
    requires
        can_split(before),
        split(before, after),
    ensures
        !can_split(after),
{
    match (before, after) {
        (Plan::Filter(f), Plan::Filter(post)) => {
            lemma_same_width(
                f.input,
                post.input,
                cheap(f.conjuncts@, inference_width(f.input)->0),
            );
            let width = inference_width(f.input)->0;
            let is_costly = |c: Conjunct| needs_inference(c, width);
            let is_cheap = |c: Conjunct| !needs_inference(c, width);
            let again = cheap(post.conjuncts@, width);
            if again.len() > 0 {
                post.conjuncts@.lemma_filter_pred(is_cheap, 0);
                post.conjuncts@.lemma_filter_contains_rev(is_cheap, again[0]);
                let k = post.conjuncts@.index_of(again[0]);
                f.conjuncts@.lemma_filter_pred(is_costly, k);
            }
        },
        _ => {},
    }
}

/// What the async node reads.
pub open spec fn read_by_inference(plan: Plan) -> Option<Plan>
    decreases plan,
{
    match plan {
        Plan::Filter(f) => read_by_inference(f.input),
        Plan::Repartition { input, .. } => read_by_inference(*input),
        Plan::Async { input, .. } => Some(*input),
        Plan::Other(_) => None,
    }
}

/// After the split a row that fails a cheap conjunct is never sent for inference:
/// what the async node reads is what it read before, filtered by just these.
pub proof fn dropped_rows_are_not_sent(before: Plan, after: Plan)
    requires
        can_split(before),
        split(before, after),
    ensures
        ({
            let width = inference_width(before->Filter_0.input)->0;
            &&& read_by_inference(before) is Some
            &&& read_by_inference(after) matches Some(Plan::Filter(pre))
            &&& pre.conjuncts@ == cheap(before->Filter_0.conjuncts@, width)
            &&& pre.input == read_by_inference(before)->0
        }),
{
    match (before, after) {
        (Plan::Filter(f), Plan::Filter(post)) => {
            let width = inference_width(f.input)->0;
            lemma_read_beneath(f.input, post.input, cheap(f.conjuncts@, width));
        },
        _ => {},
    }
}

proof fn lemma_read_beneath(before: Plan, after: Plan, conjuncts: Seq<Conjunct>)
    requires
        filtered_beneath(before, after, conjuncts),
    ensures
        read_by_inference(before) is Some,
        read_by_inference(after) matches Some(Plan::Filter(pre)) && pre.conjuncts@ == conjuncts
            && pre.input == read_by_inference(before)->0,
    decreases before,
{
    match (before, after) {
        (Plan::Repartition { input, .. }, Plan::Repartition { input: new_input, .. }) => {
            lemma_read_beneath(*input, *new_input, conjuncts);
        },
        _ => {},
    }
}

proof fn lemma_same_width(before: Plan, after: Plan, conjuncts: Seq<Conjunct>)
    requires
        filtered_beneath(before, after, conjuncts),
    ensures
        inference_width(after) == inference_width(before),
    decreases before,
{
    match (before, after) {
        (Plan::Repartition { input, .. }, Plan::Repartition { input: new_input, .. }) => {
            lemma_same_width(*input, *new_input, conjuncts);
        },
        _ => {},
    }
}

/// The async node: the width of its input, and the expressions it evaluates.
#[derive(Debug)]
pub struct AsyncNode {
    pub width: usize,
    pub exprs: Vec<AsyncExpr>,
}

/// The expression at `j` answers for the one at `i`: for a call of the internal
/// function it is the first equal one, and any other answers for itself.
pub open spec fn answers_for(exprs: Seq<AsyncExpr>, j: int, i: int) -> bool {
    &&& 0 <= j <= i
    &&& if is_jev_async(exprs[i]) {
        exprs[j].call == exprs[i].call && forall|k: int|
            0 <= k < j ==> (#[trigger] exprs[k]).call != exprs[i].call
    } else {
        j == i
    }
}

/// The node evaluates some call more than once.
pub open spec fn has_repeats(exprs: Seq<AsyncExpr>) -> bool {
    exists|i: int| 0 <= i < exprs.len() && #[trigger] repeats(exprs, i)
}

/// An earlier expression answers for the one at `i`.
pub open spec fn repeats(exprs: Seq<AsyncExpr>, i: int) -> bool {
    is_jev_async(exprs[i]) && exists|j: int|
        0 <= j < i && (#[trigger] exprs[j]).call == exprs[i].call
}

/// The expressions to keep, by position, and for each column of the node the
/// column of the new one that holds it.
#[derive(Debug)]
pub struct Deduplicated {
    pub kept: Vec<usize>,
    pub sources: Vec<usize>,
}

/// The positions, in order, of the expressions that repeat none before them.
pub open spec fn firsts(exprs: Seq<AsyncExpr>, n: int) -> Seq<int>
    decreases n,
{
    if n <= 0 {
        Seq::empty()
    } else if repeats(exprs, n - 1) {
        firsts(exprs, n - 1)
    } else {
        firsts(exprs, n - 1).push(n - 1)
    }
}

/// `r` keeps the first of equal calls, and every column is found again.
pub open spec fn deduplicated(node: AsyncNode, r: Deduplicated) -> bool {
    let exprs = node.exprs@;
    &&& r.kept@.map_values(|k: usize| k as int) == firsts(exprs, exprs.len() as int)
    &&& r.sources@.len() == node.width + exprs.len()
    &&& forall|i: int| 0 <= i < node.width ==> #[trigger] r.sources@[i] == i
    &&& forall|i: int|
        0 <= i < exprs.len() ==> {
            let k = #[trigger] r.sources@[node.width + i] - node.width;
            0 <= k < r.kept@.len() && answers_for(exprs, r.kept@[k] as int, i)
        }
}

/// `r` comes of merging the equal calls of a node: nothing, if there are none.
pub open spec fn is_merged(node: AsyncNode, r: Option<Deduplicated>) -> bool {
    match r {
        Some(d) => has_repeats(node.exprs@) && deduplicated(node, d),
        None => !has_repeats(node.exprs@),
    }
}

/// The positions kept: in order, and with each call among them no later than
/// where it stands.
proof fn lemma_firsts(exprs: Seq<AsyncExpr>, n: int)
    requires
        0 <= n <= exprs.len(),
    ensures
        firsts(exprs, n).len() <= n,
        firsts(exprs, n).len() == n <==> forall|i: int|
            0 <= i < n ==> !(#[trigger] repeats(exprs, i)),
        forall|k: int| 0 <= k < firsts(exprs, n).len() ==> 0 <= #[trigger] firsts(exprs, n)[k] < n,
        forall|k: int, l: int|
            0 <= k < l < firsts(exprs, n).len() ==> firsts(exprs, n)[k] < firsts(exprs, n)[l],
        forall|i: int| 0 <= i < n ==> #[trigger] represented(exprs, n, i),
    decreases n,
{
    if n > 0 {
        lemma_firsts(exprs, n - 1);
        let before = firsts(exprs, n - 1);
        let now = firsts(exprs, n);
        assert forall|i: int| 0 <= i < n implies #[trigger] represented(exprs, n, i) by {
            if i < n - 1 {
                assert(represented(exprs, n - 1, i));
                let k = choose|k: int|
                    0 <= k < before.len() && #[trigger] before[k] <= i && exprs[before[k]].call
                        == exprs[i].call;
                assert(now[k] == before[k]);
            } else if repeats(exprs, i) {
                let j = choose|j: int| 0 <= j < i && (#[trigger] exprs[j]).call == exprs[i].call;
                assert(represented(exprs, n - 1, j));
                let k = choose|k: int|
                    0 <= k < before.len() && #[trigger] before[k] <= j && exprs[before[k]].call
                        == exprs[j].call;
                assert(now[k] == before[k]);
            } else {
                assert(now[before.len() as int] == i);
            }
        }
        if now.len() == n {
            assert forall|i: int| 0 <= i < n implies !(#[trigger] repeats(exprs, i)) by {}
        }
    }
}

/// An equal call at or before `i` is kept.
spec fn represented(exprs: Seq<AsyncExpr>, n: int, i: int) -> bool {
    exists|k: int|
        0 <= k < firsts(exprs, n).len() && #[trigger] firsts(exprs, n)[k] <= i && exprs[firsts(
            exprs,
            n,
        )[k]].call == exprs[i].call
}

/// The first kept call that equals the one at `n` answers for it.
proof fn lemma_first_answers(exprs: Seq<AsyncExpr>, n: int, k: int)
    requires
        0 <= n < exprs.len(),
        is_jev_async(exprs[n]),
        0 <= k < firsts(exprs, n).len(),
        exprs[firsts(exprs, n)[k]].call == exprs[n].call,
        forall|l: int|
            0 <= l < k ==> exprs[#[trigger] firsts(exprs, n)[l]].call != exprs[n].call,
    ensures
        repeats(exprs, n),
        answers_for(exprs, firsts(exprs, n)[k], n),
{
    lemma_firsts(exprs, n);
    let kept = firsts(exprs, n);
    let j = kept[k];
    assert(exprs[j].call == exprs[n].call);
    assert forall|i: int| 0 <= i < j implies (#[trigger] exprs[i]).call != exprs[n].call by {
        assert(represented(exprs, n, i));
        let l = choose|l: int|
            0 <= l < kept.len() && #[trigger] kept[l] <= i && exprs[kept[l]].call
                == exprs[i].call;
        if l >= k {
            assert(kept[k] <= kept[l]);
        }
    }
}

/// A call that equals none kept answers for itself, as does any other expression.
proof fn lemma_itself_answers(exprs: Seq<AsyncExpr>, n: int)
    requires
        0 <= n < exprs.len(),
        is_jev_async(exprs[n]) ==> forall|l: int|
            0 <= l < firsts(exprs, n).len() ==> exprs[#[trigger] firsts(exprs, n)[l]].call
                != exprs[n].call,
    ensures
        !repeats(exprs, n),
        answers_for(exprs, n, n),
{
    lemma_firsts(exprs, n);
    let kept = firsts(exprs, n);
    if is_jev_async(exprs[n]) {
        assert forall|i: int| 0 <= i < n implies (#[trigger] exprs[i]).call != exprs[n].call by {
            assert(represented(exprs, n, i));
            let l = choose|l: int|
                0 <= l < kept.len() && #[trigger] kept[l] <= i && exprs[kept[l]].call
                    == exprs[i].call;
        }
    }
}

/// Where among the kept expressions this call first stands.
fn find_call(exprs: &Vec<AsyncExpr>, kept: &Vec<usize>, call: usize) -> (r: Option<usize>)
    requires
        forall|k: int| 0 <= k < kept@.len() ==> #[trigger] kept@[k] < exprs@.len(),
    ensures
        match r {
            Some(k) => {
                &&& k < kept@.len()
                &&& exprs@[kept@[k as int] as int].call == call
                &&& forall|l: int| 0 <= l < k ==> exprs@[#[trigger] kept@[l] as int].call != call
            },
            None => forall|l: int|
                0 <= l < kept@.len() ==> exprs@[#[trigger] kept@[l] as int].call != call,
        },
{
    let mut k: usize = 0;
    while k < kept.len()
        invariant
            forall|k: int| 0 <= k < kept@.len() ==> #[trigger] kept@[k] < exprs@.len(),
            k <= kept.len(),
            forall|l: int| 0 <= l < k ==> exprs@[#[trigger] kept@[l] as int].call != call,
        decreases kept.len() - k,
    {
        if exprs[kept[k]].call == call {
            return Some(k);
        }
        k = k + 1;
    }
    None
}

/// Keeps one evaluation of each distinct call.
#[derive(Debug)]
pub struct DeduplicateJev;

impl DeduplicateJev {
    /// The name of the rule.
    pub fn name(&self) -> (r: &'static str)
        ensures
            r@ == "datafusion_jev_deduplicate"@,
    {
        "datafusion_jev_deduplicate"
    }

    /// The rule keeps the schema of the plan.
    pub fn schema_check(&self) -> (r: bool)
        ensures
            r,
    {
        true
    }

    /// What to keep of an async node that repeats a call. Any other stays as it
    /// is.
    pub fn optimize(&self, node: &AsyncNode) -> (r: Option<Deduplicated>)
        requires
            node.width + node.exprs@.len() <= usize::MAX,
        ensures
            is_merged(*node, r),
            match r {
                Some(d) => has_repeats(node.exprs@) && deduplicated(*node, d),
                None => !has_repeats(node.exprs@),
            },
    {
        let ghost exprs = node.exprs@;
        let mut kept: Vec<usize> = Vec::new();
        let mut sources: Vec<usize> = Vec::new();
        let mut c: usize = 0;
        while c < node.width
            invariant
                c <= node.width,
                sources@.len() == c,
                forall|i: int| 0 <= i < c ==> #[trigger] sources@[i] == i,
            decreases node.width - c,
        {
            sources.push(c);
            c = c + 1;
        }
        let mut n: usize = 0;
        while n < node.exprs.len()
            invariant
                node.width + node.exprs@.len() <= usize::MAX,
                exprs == node.exprs@,
                n <= exprs.len(),
                kept@.map_values(|k: usize| k as int) == firsts(exprs, n as int),
                sources@.len() == node.width + n,
                forall|i: int| 0 <= i < node.width ==> #[trigger] sources@[i] == i,
                forall|i: int|
                    0 <= i < n ==> {
                        let k = #[trigger] sources@[node.width + i] - node.width;
                        0 <= k < kept@.len() && answers_for(exprs, kept@[k] as int, i)
                    },
            decreases node.exprs.len() - n,
        {
            let e = &node.exprs[n];
            let ghost before = kept@;
            proof {
                lemma_firsts(exprs, n as int);
                assert(before.map_values(|k: usize| k as int) == firsts(exprs, n as int));
                assert(forall|k: int|
                    0 <= k < before.len() ==> #[trigger] before[k] as int == firsts(
                        exprs,
                        n as int,
                    )[k]);
            }
            let existing = if is_jev_expr(e) {
                find_call(&node.exprs, &kept, e.call)
            } else {
                None
            };
            let index: usize = match existing {
                Some(k) => {
                    proof {
                        lemma_first_answers(exprs, n as int, k as int);
                    }
                    k
                },
                None => {
                    proof {
                        lemma_itself_answers(exprs, n as int);
                    }
                    kept.push(n);
                    proof {
                        assert(kept@.map_values(|k: usize| k as int) == firsts(
                            exprs,
                            n as int,
                        ).push(n as int));
                    }
                    kept.len() - 1
                },
            };
            let ghost old_sources = sources@;
            sources.push(node.width + index);
            proof {
                assert(answers_for(exprs, kept@[index as int] as int, n as int));
                assert forall|i: int| 0 <= i < n + 1 implies {
                    let k = #[trigger] sources@[node.width + i] - node.width;
                    0 <= k < kept@.len() && answers_for(exprs, kept@[k] as int, i)
                } by {
                    if i < n {
                        assert(sources@[node.width + i] == old_sources[node.width + i]);
                        let k = old_sources[node.width + i] - node.width;
                        assert(kept@[k] == before[k]);
                    }
                }
            }
            n = n + 1;
        }
        proof {
            lemma_firsts(exprs, exprs.len() as int);
            assert(kept@.len() == firsts(exprs, exprs.len() as int).len());
        }
        if kept.len() == node.exprs.len() {
            None
        } else {
            Some(Deduplicated { kept, sources })
        }
    }
}

/// What the async node makes of a row: its columns, and then the value of each
/// expression.
pub open spec fn async_row<V>(
    row: Seq<V>,
    exprs: Seq<AsyncExpr>,
    value: spec_fn(usize) -> V,
) -> Seq<V> {
    row + exprs.map_values(|e: AsyncExpr| value(e.call))
}

/// What the node makes of a row when it evaluates the expressions kept and each
/// column is then taken from its source.
pub open spec fn deduplicated_row<V>(
    row: Seq<V>,
    exprs: Seq<AsyncExpr>,
    d: Deduplicated,
    value: spec_fn(usize) -> V,
) -> Seq<V> {
    let computed = row + d.kept@.map_values(|k: usize| value(exprs[k as int].call));
    d.sources@.map_values(|source: usize| computed[source as int])
}

/// Deduplication changes no column of any row.
pub proof fn deduplication_keeps_the_columns<V>(
    node: AsyncNode,
    d: Deduplicated,
    row: Seq<V>,
    value: spec_fn(usize) -> V,
)
    requires
        deduplicated(node, d),
        row.len() == node.width,
    ensures
        deduplicated_row(row, node.exprs@, d, value) == async_row(row, node.exprs@, value),
{
    let exprs = node.exprs@;
    let computed = row + d.kept@.map_values(|k: usize| value(exprs[k as int].call));
    let after = deduplicated_row(row, exprs, d, value);
    let before = async_row(row, exprs, value);
    assert forall|c: int| 0 <= c < before.len() implies after[c] == before[c] by {
        if c < node.width {
            assert(d.sources@[c] == c);
        } else {
            let i = c - node.width;
            let k = d.sources@[node.width + i] - node.width;
            assert(0 <= k < d.kept@.len() && answers_for(exprs, d.kept@[k] as int, i));
            assert(computed[node.width + k] == value(exprs[d.kept@[k] as int].call));
        }
    }
    assert(after =~= before);
}

/// After deduplication no call of the internal function is evaluated twice.
pub proof fn each_call_is_evaluated_once(node: AsyncNode, d: Deduplicated)
    requires
        deduplicated(node, d),
    ensures
        forall|k: int, l: int|
            0 <= k < l < d.kept@.len() && is_jev_async(node.exprs@[d.kept@[l] as int])
                ==> node.exprs@[#[trigger] d.kept@[k] as int].call
                != node.exprs@[#[trigger] d.kept@[l] as int].call,
{
    let exprs = node.exprs@;
    let kept = firsts(exprs, exprs.len() as int);
    lemma_firsts(exprs, exprs.len() as int);
    assert forall|k: int, l: int|
        0 <= k < l < d.kept@.len() && is_jev_async(
            exprs[d.kept@[l] as int],
        ) implies exprs[#[trigger] d.kept@[k] as int].call
        != exprs[#[trigger] d.kept@[l] as int].call by {
        assert(kept[k] == d.kept@.map_values(|k: usize| k as int)[k]);
        assert(kept[l] == d.kept@.map_values(|k: usize| k as int)[l]);
        lemma_firsts_repeat_none(exprs, exprs.len() as int, l);
    }
}

proof fn lemma_firsts_repeat_none(exprs: Seq<AsyncExpr>, n: int, l: int)
    requires
        0 <= n <= exprs.len(),
        0 <= l < firsts(exprs, n).len(),
    ensures
        !repeats(exprs, firsts(exprs, n)[l]),
    decreases n,
{
    if n > 0 && l < firsts(exprs, n - 1).len() {
        lemma_firsts_repeat_none(exprs, n - 1, l);
    }
}

/// Only calls of the internal function are ever merged: every other expression
/// is kept.
pub proof fn other_expressions_are_kept(node: AsyncNode, d: Deduplicated)
    requires
        deduplicated(node, d),
    ensures
        forall|i: int|
            0 <= i < node.exprs@.len() && !is_jev_async(#[trigger] node.exprs@[i])
                ==> d.kept@.contains(i as usize),
{
    assert forall|i: int|
        0 <= i < node.exprs@.len() && !is_jev_async(
            #[trigger] node.exprs@[i],
        ) implies d.kept@.contains(i as usize) by {
        let k = d.sources@[node.width + i] - node.width;
        assert(d.kept@[k] == i);
    }
}

/// The plan beneath any repartition nodes.
pub open spec fn beneath_repartitions(plan: Plan) -> Plan
    decreases plan,
{
    match plan {
        Plan::Repartition { input, .. } => beneath_repartitions(*input),
        _ => plan,
    }
}

/// The repartition nodes on top of the plan, by number, from the top down.
pub open spec fn repartitions(plan: Plan) -> Seq<usize>
    decreases plan,
{
    match plan {
        Plan::Repartition { id, input } => seq![id] + repartitions(*input),
        _ => Seq::empty(),
    }
}

/// The expression is a call of the function behind `prompt_jev`.
pub open spec fn calls_jev(e: AsyncExpr) -> bool {
    e.function is Some && e.function->0@ == "__datafusion_jev"@
}

/// Every column that the conjunct reads is one of the first `width`.
pub open spec fn reads_before(c: Conjunct, width: usize) -> bool {
    forall|i: int| 0 <= i < c.columns@.len() ==> (#[trigger] c.columns@[i]) < width
}

proof fn lemma_width(plan: Plan)
    ensures
        match beneath_repartitions(plan) {
            Plan::Async { exprs, width, .. } => if exists|i: int|
                0 <= i < exprs@.len() && calls_jev(#[trigger] exprs@[i]) {
                inference_width(plan) == Some(width)
            } else {
                inference_width(plan) is None
            },
            _ => inference_width(plan) is None,
        },
    decreases plan,
{
    match plan {
        Plan::Repartition { input, .. } => lemma_width(*input),
        Plan::Async { exprs, .. } => {
            assert forall|i: int| 0 <= i < exprs@.len() implies calls_jev(#[trigger] exprs@[i])
                == is_jev_async(exprs@[i]) by {}
            if any_jev_async(exprs@) {
                let i = choose|i: int| 0 <= i < exprs@.len() && is_jev_async(#[trigger] exprs@[i]);
                assert(calls_jev(exprs@[i]));
            }
        },
        _ => {},
    }
}

proof fn lemma_some_kept(conjuncts: Seq<Conjunct>, keep: spec_fn(Conjunct) -> bool)
    ensures
        conjuncts.filter(keep).len() > 0 <==> exists|i: int|
            0 <= i < conjuncts.len() && keep(#[trigger] conjuncts[i]),
{
    if conjuncts.filter(keep).len() > 0 {
        let c = conjuncts.filter(keep)[0];
        conjuncts.lemma_filter_pred(keep, 0);
        conjuncts.lemma_filter_contains_rev(keep, c);
        assert(keep(conjuncts[conjuncts.index_of(c)]));
    }
    if exists|i: int| 0 <= i < conjuncts.len() && keep(#[trigger] conjuncts[i]) {
        let i = choose|i: int| 0 <= i < conjuncts.len() && keep(#[trigger] conjuncts[i]);
        conjuncts.lemma_filter_contains(keep, i);
    }
}

/// A filter is split exactly if an async node that evaluates a call stands beneath
/// it, with at most repartition nodes between, and of its conjuncts one reads only
/// columns of that node's input and another does not.
pub proof fn a_filter_over_calls_is_split(plan: Plan)
    ensures
        can_split(plan) <==> {
            &&& plan matches Plan::Filter(f)
            &&& beneath_repartitions(f.input) matches Plan::Async { exprs, width, .. }
            &&& exists|i: int| 0 <= i < exprs@.len() && calls_jev(#[trigger] exprs@[i])
            &&& exists|i: int|
                0 <= i < f.conjuncts@.len() && reads_before(#[trigger] f.conjuncts@[i], width)
            &&& exists|i: int|
                0 <= i < f.conjuncts@.len() && !reads_before(#[trigger] f.conjuncts@[i], width)
        },
{
    match plan {
        Plan::Filter(f) => {
            lemma_width(f.input);
            match beneath_repartitions(f.input) {
                Plan::Async { width, .. } => {
                    let is_costly = |c: Conjunct| needs_inference(c, width);
                    let is_cheap = |c: Conjunct| !needs_inference(c, width);
                    lemma_some_kept(f.conjuncts@, is_costly);
                    lemma_some_kept(f.conjuncts@, is_cheap);
                    assert forall|i: int| 0 <= i < f.conjuncts@.len() implies is_cheap(
                        #[trigger] f.conjuncts@[i],
                    ) == reads_before(f.conjuncts@[i], width) && is_costly(f.conjuncts@[i])
                        == !reads_before(f.conjuncts@[i], width) by {
                        lemma_needs_inference(f.conjuncts@[i], width);
                    }
                    if cheap(f.conjuncts@, width).len() > 0 {
                        let i = choose|i: int|
                            0 <= i < f.conjuncts@.len() && is_cheap(#[trigger] f.conjuncts@[i]);
                        assert(reads_before(f.conjuncts@[i], width));
                    }
                    if costly(f.conjuncts@, width).len() > 0 {
                        let i = choose|i: int|
                            0 <= i < f.conjuncts@.len() && is_costly(#[trigger] f.conjuncts@[i]);
                        assert(!reads_before(f.conjuncts@[i], width));
                    }
                    if exists|i: int|
                        0 <= i < f.conjuncts@.len() && reads_before(
                            #[trigger] f.conjuncts@[i],
                            width,
                        ) {
                        let i = choose|i: int|
                            0 <= i < f.conjuncts@.len() && reads_before(
                                #[trigger] f.conjuncts@[i],
                                width,
                            );
                        assert(is_cheap(f.conjuncts@[i]));
                    }
                    if exists|i: int|
                        0 <= i < f.conjuncts@.len() && !reads_before(
                            #[trigger] f.conjuncts@[i],
                            width,
                        ) {
                        let i = choose|i: int|
                            0 <= i < f.conjuncts@.len() && !reads_before(
                                #[trigger] f.conjuncts@[i],
                                width,
                            );
                        assert(is_costly(f.conjuncts@[i]));
                    }
                },
                _ => {},
            }
        },
        _ => {},
    }
}

proof fn lemma_needs_inference(c: Conjunct, width: usize)
    ensures
        needs_inference(c, width) == !reads_before(c, width),
{
    if !reads_before(c, width) {
        let i = choose|i: int| 0 <= i < c.columns@.len() && !((#[trigger] c.columns@[i]) < width);
        assert(c.columns@[i] >= width);
    }
}

proof fn lemma_beneath(before: Plan, after: Plan, conjuncts: Seq<Conjunct>)
    requires
        filtered_beneath(before, after, conjuncts),
    ensures
        repartitions(after) == repartitions(before),
        beneath_repartitions(before) is Async,
        beneath_repartitions(after) is Async,
        beneath_repartitions(after)->exprs == beneath_repartitions(before)->exprs,
        beneath_repartitions(after)->width == beneath_repartitions(before)->width,
        *beneath_repartitions(after)->Async_input is Filter,
        ({
            let pre = (*beneath_repartitions(after)->Async_input)->Filter_0;
            &&& pre.conjuncts@ == conjuncts
            &&& pre.settings is None
            &&& pre.input == *beneath_repartitions(before)->Async_input
        }),
    decreases before,
{
    match (before, after) {
        (Plan::Repartition { input, .. }, Plan::Repartition { input: new_input, .. }) => {
            lemma_beneath(*input, *new_input, conjuncts);
        },
        _ => {},
    }
}

/// After the split the conjuncts that read only columns of the async node's input
/// filter that input, and the others stay on top with all the settings, both in
/// their order. The async node and the repartition nodes over it are as they were.
pub proof fn a_split_moves_conjuncts_alone(before: Plan, after: Plan)
    requires
        can_split(before),
        split(before, after),
    ensures
        before is Filter && after is Filter,
        ({
            let f = before->Filter_0;
            let post = after->Filter_0;
            let old_node = beneath_repartitions(f.input);
            let new_node = beneath_repartitions(post.input);
            &&& post.settings == f.settings
            &&& repartitions(post.input) == repartitions(f.input)
            &&& old_node is Async && new_node is Async
            &&& new_node->exprs == old_node->exprs
            &&& new_node->width == old_node->width
            &&& *new_node->Async_input is Filter
            &&& (*new_node->Async_input)->Filter_0.settings is None
            &&& (*new_node->Async_input)->Filter_0.input == *old_node->Async_input
            &&& (*new_node->Async_input)->Filter_0.conjuncts@ == f.conjuncts@.filter(
                |c: Conjunct| reads_before(c, old_node->width),
            )
            &&& post.conjuncts@ == f.conjuncts@.filter(
                |c: Conjunct| !reads_before(c, old_node->width),
            )
        }),
{
    match (before, after) {
        (Plan::Filter(f), Plan::Filter(post)) => {
            lemma_width(f.input);
            let width = inference_width(f.input)->0;
            lemma_beneath(f.input, post.input, cheap(f.conjuncts@, width));
            let is_costly = |c: Conjunct| needs_inference(c, width);
            let is_cheap = |c: Conjunct| !needs_inference(c, width);
            let stays = |c: Conjunct| !reads_before(c, width);
            let moves = |c: Conjunct| reads_before(c, width);
            assert forall|c: Conjunct| #[trigger] is_costly(c) == stays(c) && is_cheap(c) == moves(
                c,
            ) by {
                lemma_needs_inference(c, width);
            }
            assert forall|c: Conjunct| #[trigger] is_cheap(c) == moves(c) by {
                lemma_needs_inference(c, width);
            }
            assert(is_costly =~= stays);
            assert(is_cheap =~= moves);
        },
        _ => {},
    }
}

/// An async node is rebuilt exactly if it calls the function behind `prompt_jev`
/// twice with equal arguments.
pub proof fn only_repeated_calls_are_merged(exprs: Seq<AsyncExpr>)
    ensures
        has_repeats(exprs) <==> exists|i: int, j: int|
            0 <= i < j < exprs.len() && (#[trigger] exprs[i]).call == (#[trigger] exprs[j]).call
                && calls_jev(exprs[j]),
{
    if has_repeats(exprs) {
        let j = choose|j: int| 0 <= j < exprs.len() && #[trigger] repeats(exprs, j);
        let i = choose|i: int| 0 <= i < j && (#[trigger] exprs[i]).call == exprs[j].call;
        assert(calls_jev(exprs[j]));
    }
    if exists|i: int, j: int|
        0 <= i < j < exprs.len() && (#[trigger] exprs[i]).call == (#[trigger] exprs[j]).call
            && calls_jev(exprs[j]) {
        let (i, j) = choose|i: int, j: int|
            0 <= i < j < exprs.len() && (#[trigger] exprs[i]).call == (#[trigger] exprs[j]).call
                && calls_jev(exprs[j]);
        assert(exprs[i].call == exprs[j].call);
        assert(repeats(exprs, j));
    }
}

/// Of an async node every expression is kept, in order, but the calls that repeat
/// an earlier expression. Each column is found again where the first equal
/// expression is computed.
pub proof fn the_first_of_equal_calls_is_kept(node: AsyncNode, d: Deduplicated)
    requires
        deduplicated(node, d),
    ensures
        forall|k: int, l: int|
            0 <= k < l < d.kept@.len() ==> (#[trigger] d.kept@[k]) < (#[trigger] d.kept@[l]),
        forall|k: int| 0 <= k < d.kept@.len() ==> (#[trigger] d.kept@[k]) < node.exprs@.len(),
        forall|i: int|
            0 <= i < node.exprs@.len() ==> (is_kept(d, i) <==> !(calls_jev(
                #[trigger] node.exprs@[i],
            ) && exists|j: int|
                0 <= j < i && (#[trigger] node.exprs@[j]).call == node.exprs@[i].call)),
        d.sources@.len() == node.width + node.exprs@.len(),
        forall|i: int| 0 <= i < node.width ==> #[trigger] d.sources@[i] == i,
        forall|i: int|
            0 <= i < node.exprs@.len() ==> {
                let k = #[trigger] d.sources@[node.width + i] - node.width;
                &&& 0 <= k < d.kept@.len()
                &&& node.exprs@[d.kept@[k] as int].call == node.exprs@[i].call
                &&& !calls_jev(node.exprs@[i]) ==> d.kept@[k] == i
                &&& calls_jev(node.exprs@[i]) ==> forall|j: int|
                    0 <= j < d.kept@[k] ==> (#[trigger] node.exprs@[j]).call
                        != node.exprs@[i].call
            },
{
    let exprs = node.exprs@;
    let n = exprs.len() as int;
    let numbers = firsts(exprs, n);
    lemma_firsts(exprs, n);
    assert(d.kept@.map_values(|k: usize| k as int) == numbers);
    assert forall|k: int| 0 <= k < d.kept@.len() implies #[trigger] d.kept@[k] as int
        == numbers[k] by {
        assert(d.kept@.map_values(|k: usize| k as int)[k] == numbers[k]);
    }
    assert forall|k: int, l: int| 0 <= k < l < d.kept@.len() implies (#[trigger] d.kept@[k]) < (
    #[trigger] d.kept@[l]) by {
        assert(numbers[k] < numbers[l]);
    }
    assert forall|i: int| 0 <= i < n implies (is_kept(d, i) <==> !(calls_jev(
        #[trigger] exprs[i],
    ) && exists|j: int| 0 <= j < i && (#[trigger] exprs[j]).call == exprs[i].call)) by {
        lemma_first_is_found(exprs, n, i);
        if is_kept(d, i) {
            let k = choose|k: int| 0 <= k < d.kept@.len() && #[trigger] d.kept@[k] == i;
            assert(numbers[k] == i);
            lemma_firsts_repeat_none(exprs, n, k);
        } else if !repeats(exprs, i) {
            let k = choose|k: int| 0 <= k < numbers.len() && #[trigger] numbers[k] == i;
            assert(d.kept@[k] == i);
        }
    }
}

/// The expression at `i` is among those kept.
pub open spec fn is_kept(d: Deduplicated, i: int) -> bool {
    exists|k: int| 0 <= k < d.kept@.len() && #[trigger] d.kept@[k] == i
}

proof fn lemma_first_is_found(exprs: Seq<AsyncExpr>, n: int, i: int)
    requires
        0 <= i < n <= exprs.len(),
    ensures
        !repeats(exprs, i) ==> exists|k: int|
            0 <= k < firsts(exprs, n).len() && #[trigger] firsts(exprs, n)[k] == i,
    decreases n,
{
    if !repeats(exprs, i) {
        let now = firsts(exprs, n);
        let before = firsts(exprs, n - 1);
        if i == n - 1 {
            assert(now[before.len() as int] == i);
        } else {
            lemma_first_is_found(exprs, n - 1, i);
            let k = choose|k: int| 0 <= k < before.len() && #[trigger] before[k] == i;
            assert(now[k] == i);
        }
    }
}

/// A plan is changed exactly if it can be split, and then it is.
pub proof fn plans_that_can_be_split_are(plan: Plan, r: Transformed)
    requires
        is_filtered_first(plan, r),
    ensures
        r.changed <==> can_split(plan),
        r.changed ==> split(plan, r.plan),
        !r.changed ==> r.plan == plan,
{
}

/// An async node is rebuilt exactly if some call repeats an expression before it, and
/// then it keeps the first of equal calls.
pub proof fn nodes_that_repeat_calls_are_rebuilt(node: AsyncNode, r: Option<Deduplicated>)
    requires
        is_merged(node, r),
    ensures
        r is Some <==> exists|i: int, j: int|
            0 <= i < j < node.exprs@.len() && (#[trigger] node.exprs@[i]).call == (
            #[trigger] node.exprs@[j]).call && calls_jev(node.exprs@[j]),
        r matches Some(d) ==> deduplicated(node, d),
{
    only_repeated_calls_are_merged(node.exprs@);
}

} // verus!
