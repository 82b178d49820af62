//! Logical-plan adjustments so that `prompt_jev` works wherever async functions
//! are not natively planned, and is never evaluated on rows a filter discards.
//!
//! Two problems, two rules:
//!
//! * Async calls are only lifted out of projections and filters. A call in an
//!   `ORDER BY`, a window `OVER (...)`, a `GROUP BY`, or a join condition would
//!   reach the synchronous path and fail. [`HoistJev`] moves such calls into a
//!   projection beneath the node and refers to them by column.
//! * Leaf-expression pushdown moves `get_field(k, 'x')` through a filter and
//!   substitutes `k`'s definition without rechecking placement, so a
//!   `prompt_jev` call ends up below the filter and runs on every row.
//!   [`LeafPushdownGuard`] skips those rules for any plan that contains the call,
//!   and leaves every other plan alone.
use crate::error::{PlanError, Problem};
use crate::expr::{copy, is_jev, is_jev_call, lemma_view_parts, same, trees, Expr, ExprView};
use crate::plan::{
    add_columns, columns, item_columns, item_exprs, item_views, join_columns, join_schema,
    key_exprs, key_views, lemma_plan_tree, pair_trees, plan_trees, schema, Item, ItemView, Join,
    JoinView, KeyView, Plan, PlanView, SortKey,
};
use crate::sql::optional_text;
use crate::text::{decimal, decimal_text, same_text};
use vstd::prelude::*;
use vstd::string::*;

verus! {

/// The expression holds a call of the internal function.
pub open spec fn holds_call(e: ExprView) -> bool
    decreases e,
{
    is_jev_call(e) || match e {
        ExprView::Function { parts, .. } => any_holds_call(parts),
        ExprView::Other { parts, .. } => any_holds_call(parts),
        _ => false,
    }
}

/// One of the expressions holds a call.
pub open spec fn any_holds_call(es: Seq<ExprView>) -> bool
    decreases es,
{
    es.len() > 0 && (any_holds_call(es.drop_last()) || holds_call(es.last()))
}

/// One of the expressions holds a call exactly if one of them, by its position,
/// does.
pub proof fn lemma_any_holds_call(es: Seq<ExprView>)
    ensures
        any_holds_call(es) == exists|i: int| 0 <= i < es.len() && #[trigger] holds_call(es[i]),
    decreases es.len(),
{
    if es.len() > 0 {
        lemma_any_holds_call(es.drop_last());
        if any_holds_call(es) {
            if any_holds_call(es.drop_last()) {
                let i = choose|i: int|
                    0 <= i < es.drop_last().len() && #[trigger] holds_call(es.drop_last()[i]);
                assert(holds_call(es[i]));
            } else {
                assert(holds_call(es[es.len() - 1]));
            }
        }
        if exists|i: int| 0 <= i < es.len() && #[trigger] holds_call(es[i]) {
            let i = choose|i: int| 0 <= i < es.len() && #[trigger] holds_call(es[i]);
            if i < es.len() - 1 {
                assert(holds_call(es.drop_last()[i]));
            }
        }
    }
}

/// Whether one of the expressions holds a call.
pub fn any_contains_jev(es: &Vec<Expr>) -> (r: bool)
    ensures
        r == any_holds_call(trees(es@)),
    decreases es,
{
    let mut i: usize = 0;
    while i < es.len()
        invariant
            i <= es.len(),
            forall|j: int| 0 <= j < i ==> !#[trigger] holds_call(trees(es@)[j]),
        decreases es.len() - i,
    {
        if contains_jev(&es[i]) {
            proof {
                assert(holds_call(trees(es@)[i as int]));
                lemma_any_holds_call(trees(es@));
            }
            return true;
        }
        i = i + 1;
    }
    proof {
        lemma_any_holds_call(trees(es@));
    }
    false
}

/// Whether the expression holds a call.
pub fn contains_jev(e: &Expr) -> (r: bool)
    ensures
        r == holds_call(e@),
    decreases e,
{
    proof {
        lemma_view_parts(*e);
    }
    if is_jev(e) {
        return true;
    }
    match e {
        Expr::Function { parts, .. } => any_contains_jev(parts),
        Expr::Other { parts, .. } => any_contains_jev(parts),
        _ => false,
    }
}

/// One of the nodes has an expression that holds a call.
pub open spec fn plan_holds_call(nodes: Seq<Vec<Expr>>) -> bool {
    exists|i: int| 0 <= i < nodes.len() && any_holds_call(trees((#[trigger] nodes[i])@))
}

/// Whether a plan holds a call, given the expressions of each of its nodes, those
/// of subqueries too.
pub fn plan_contains_jev(nodes: &Vec<Vec<Expr>>) -> (r: bool)
    ensures
        r == plan_holds_call(nodes@),
{
    let mut i: usize = 0;
    while i < nodes.len()
        invariant
            i <= nodes.len(),
            forall|j: int| 0 <= j < i ==> !any_holds_call(trees((#[trigger] nodes@[j])@)),
        decreases nodes.len() - i,
    {
        if any_contains_jev(&nodes[i]) {
            return true;
        }
        i = i + 1;
    }
    false
}

/// In which order a rule wants to see the nodes of a plan.
#[derive(Debug)]
pub enum ApplyOrder {
    TopDown,
    BottomUp,
}

/// What the guard does with a plan.
#[derive(Debug, PartialEq, Eq, Structural, Clone, Copy)]
pub enum GuardAction {
    /// Leave the plan as it is.
    Skip,
    /// Run the wrapped rule on every node, parents first.
    TopDown,
    /// Run the wrapped rule on every node, children first.
    BottomUp,
    /// Hand the wrapped rule the whole plan.
    Whole,
}

/// Runs a wrapped optimizer rule only for plans that do not call `prompt_jev`.
#[derive(Debug)]
pub struct LeafPushdownGuard;

/// The rule moves expressions toward leaves and carries an async call along.
pub open spec fn guarded(rule: Seq<char>) -> bool {
    rule == "extract_leaf_expressions"@ || rule == "push_down_leaf_projections"@
}

/// What the guard does with a plan whose nodes have these expressions, under a rule
/// that asks for this order.
pub open spec fn guard_action(nodes: Seq<Vec<Expr>>, order: Option<ApplyOrder>) -> GuardAction {
    if plan_holds_call(nodes) {
        GuardAction::Skip
    } else {
        match order {
            Some(ApplyOrder::TopDown) => GuardAction::TopDown,
            Some(ApplyOrder::BottomUp) => GuardAction::BottomUp,
            None => GuardAction::Whole,
        }
    }
}

impl LeafPushdownGuard {
    /// Whether the rule of this name is one to wrap.
    pub fn wraps(rule: &str) -> (r: bool)
        ensures
            r == guarded(rule@),
    {
        same_text(rule, "extract_leaf_expressions") || same_text(
            rule,
            "push_down_leaf_projections",
        )
    }

    /// What to do with a plan, given the expressions of its nodes and the order
    /// that the wrapped rule asks for.
    pub fn rewrite(&self, nodes: &Vec<Vec<Expr>>, order: Option<ApplyOrder>) -> (r: GuardAction)
        ensures
            r == guard_action(nodes@, order),
            r == (if plan_holds_call(nodes@) {
                GuardAction::Skip
            } else {
                match order {
                    Some(ApplyOrder::TopDown) => GuardAction::TopDown,
                    Some(ApplyOrder::BottomUp) => GuardAction::BottomUp,
                    None => GuardAction::Whole,
                }
            }),
    {
        if plan_contains_jev(nodes) {
            return GuardAction::Skip;
        }
        match order {
            Some(ApplyOrder::TopDown) => GuardAction::TopDown,
            Some(ApplyOrder::BottomUp) => GuardAction::BottomUp,
            None => GuardAction::Whole,
        }
    }
}

/// The calls known so far, and then those of `e` that are new, from left to right.
/// Within a new call none is looked for. Within one that is known already they
/// are, so that a call inside a repeated call is collected too.
pub open spec fn collect(calls: Seq<ExprView>, e: ExprView) -> Seq<ExprView>
    decreases e,
{
    if is_jev_call(e) && !calls.contains(e) {
        calls.push(e)
    } else {
        match e {
            ExprView::Function { parts, .. } => collect_each(calls, parts),
            ExprView::Other { parts, .. } => collect_each(calls, parts),
            _ => calls,
        }
    }
}

/// The calls known so far, and then the new ones of each expression in turn.
pub open spec fn collect_each(calls: Seq<ExprView>, es: Seq<ExprView>) -> Seq<ExprView>
    decreases es,
{
    if es.len() == 0 {
        calls
    } else {
        collect(collect_each(calls, es.drop_last()), es.last())
    }
}

/// Add the calls of `e` that are new.
fn collect_from(calls: &mut Vec<Expr>, e: &Expr)
    ensures
        trees(final(calls)@) == collect(trees(old(calls)@), e@),
    decreases e,
{
    proof {
        lemma_view_parts(*e);
    }
    if is_jev(e) && !is_among(calls, e) {
        let ghost before = calls@;
        let c = copy(e);
        calls.push(c);
        proof {
            assert(trees(calls@) == trees(before).push(e@));
        }
    } else {
        match e {
            Expr::Function { parts, .. } => collect_from_each(calls, parts),
            Expr::Other { parts, .. } => collect_from_each(calls, parts),
            _ => {},
        }
    }
}

/// Add the new calls of each expression in turn.
fn collect_from_each(calls: &mut Vec<Expr>, es: &Vec<Expr>)
    ensures
        trees(final(calls)@) == collect_each(trees(old(calls)@), trees(es@)),
    decreases es,
{
    let ghost before = trees(calls@);
    let mut i: usize = 0;
    proof {
        assert(trees(es@).take(0) == Seq::<ExprView>::empty());
    }
    while i < es.len()
        invariant
            before == trees(old(calls)@),
            i <= es.len(),
            trees(calls@) == collect_each(before, trees(es@).take(i as int)),
        decreases es.len() - i,
    {
        proof {
            assert(trees(es@).take(i + 1).drop_last() == trees(es@).take(i as int));
        }
        collect_from(calls, &es[i]);
        i = i + 1;
    }
    proof {
        assert(trees(es@).take(i as int) == trees(es@));
    }
}

/// Whether `e` is one of the expressions.
fn is_among(es: &Vec<Expr>, e: &Expr) -> (r: bool)
    ensures
        r == trees(es@).contains(e@),
{
    let mut i: usize = 0;
    while i < es.len()
        invariant
            i <= es.len(),
            forall|j: int| 0 <= j < i ==> #[trigger] trees(es@)[j] != e@,
        decreases es.len() - i,
    {
        if same(&es[i], e) {
            proof {
                assert(trees(es@)[i as int] == e@);
            }
            return true;
        }
        i = i + 1;
    }
    false
}

/// Collect each distinct call.
pub fn collect_calls(exprs: &Vec<Expr>) -> (r: Vec<Expr>)
    ensures
        trees(r@) == collect_each(Seq::empty(), trees(exprs@)),
{
    let mut calls: Vec<Expr> = Vec::new();
    proof {
        assert(trees(calls@) == Seq::<ExprView>::empty());
    }
    collect_from_each(&mut calls, exprs);
    calls
}

/// A call computed beneath a node, and the name of its column.
#[derive(Debug)]
pub struct NamedCall {
    pub call: Expr,
    pub name: String,
}

/// The call and the name as plain values.
pub struct NamedCallView {
    pub call: ExprView,
    pub name: Seq<char>,
}

impl View for NamedCall {
    type V = NamedCallView;

    open spec fn view(&self) -> NamedCallView {
        NamedCallView { call: self.call@, name: self.name@ }
    }
}

/// Named calls as plain values.
pub open spec fn named_views(calls: Seq<NamedCall>) -> Seq<NamedCallView> {
    calls.map_values(|c: NamedCall| c@)
}

/// The calls, numbered under a prefix.
pub open spec fn numbered(calls: Seq<ExprView>, prefix: Seq<char>) -> Seq<NamedCallView> {
    Seq::new(
        calls.len(),
        |i: int| NamedCallView { call: calls[i], name: prefix + decimal(i as nat) },
    )
}

/// Give each call a generated name.
fn name_calls(found: &Vec<Expr>, prefix: &str) -> (r: Vec<NamedCall>)
    ensures
        named_views(r@) == numbered(trees(found@), prefix@),
{
    let ghost want = numbered(trees(found@), prefix@);
    let mut calls: Vec<NamedCall> = Vec::new();
    let mut i: usize = 0;
    while i < found.len()
        invariant
            want == numbered(trees(found@), prefix@),
            i <= found.len(),
            named_views(calls@) == want.take(i as int),
        decreases found.len() - i,
    {
        let mut name = prefix.to_owned();
        name.append(decimal_text(i).as_str());
        let c = NamedCall { call: copy(&found[i]), name };
        let ghost before = calls@;
        calls.push(c);
        proof {
            assert(named_views(calls@) == named_views(before).push(c@));
            assert(want.take(i + 1) == want.take(i as int).push(want[i as int]));
        }
        i = i + 1;
    }
    proof {
        assert(want.take(i as int) == want);
    }
    calls
}

/// The prefix of generated names, unless the node is a join.
pub const HOIST_PREFIX: &'static str = "__jev_hoist_";

/// The prefix of generated names on the left side of a join.
pub const LEFT_PREFIX: &'static str = "__jev_hoist_l";

/// The prefix of generated names on the right side of a join.
pub const RIGHT_PREFIX: &'static str = "__jev_hoist_r";

/// The name of the first call that equals `e`.
pub open spec fn replacement(e: ExprView, calls: Seq<NamedCallView>) -> Option<Seq<char>>
    decreases calls.len(),
{
    if calls.len() == 0 {
        None
    } else {
        match replacement(e, calls.drop_last()) {
            Some(name) => Some(name),
            None => if calls.last().call == e {
                Some(calls.last().name)
            } else {
                None
            },
        }
    }
}

/// `e` with each of the calls, outermost first, replaced by its column.
pub open spec fn substituted(e: ExprView, calls: Seq<NamedCallView>) -> ExprView
    decreases e,
{
    match replacement(e, calls) {
        Some(name) => ExprView::Hoisted(name),
        None => match e {
            ExprView::Function { name, shape, parts } => ExprView::Function {
                name,
                shape,
                parts: Seq::new(
                    parts.len(),
                    |i: int|
                        if 0 <= i < parts.len() {
                            substituted(parts[i], calls)
                        } else {
                            arbitrary()
                        },
                ),
            },
            ExprView::Other { shape, parts } => ExprView::Other {
                shape,
                parts: Seq::new(
                    parts.len(),
                    |i: int|
                        if 0 <= i < parts.len() {
                            substituted(parts[i], calls)
                        } else {
                            arbitrary()
                        },
                ),
            },
            _ => e,
        },
    }
}

/// Each expression with the calls replaced.
pub open spec fn substituted_each(es: Seq<ExprView>, calls: Seq<NamedCallView>) -> Seq<ExprView> {
    es.map_values(|e: ExprView| substituted(e, calls))
}

/// What substitution makes of an expression that is not itself replaced.
pub proof fn lemma_substituted_parts(e: ExprView, calls: Seq<NamedCallView>)
    requires
        replacement(e, calls) is None,
    ensures
        match e {
            ExprView::Function { name, shape, parts } => substituted(e, calls) == (
            ExprView::Function { name, shape, parts: substituted_each(parts, calls) }),
            ExprView::Other { shape, parts } => substituted(e, calls) == (ExprView::Other {
                shape,
                parts: substituted_each(parts, calls),
            }),
            _ => substituted(e, calls) == e,
        },
{
    reveal_with_fuel(substituted, 2);
    match e {
        ExprView::Function { name, shape, parts } => {
            assert(substituted(e, calls)->Function_parts =~= substituted_each(parts, calls));
        },
        ExprView::Other { shape, parts } => {
            assert(substituted(e, calls)->Other_parts =~= substituted_each(parts, calls));
        },
        _ => {},
    }
}

/// No name among the first calls decides for all of them.
proof fn lemma_replacement_found(e: ExprView, calls: Seq<NamedCallView>, i: int)
    requires
        0 <= i < calls.len(),
        calls[i].call == e,
        forall|j: int| 0 <= j < i ==> (#[trigger] calls[j]).call != e,
    ensures
        replacement(e, calls) == Some(calls[i].name),
    decreases calls.len(),
{
    if i == calls.len() - 1 {
        lemma_replacement_missing(e, calls.drop_last());
    } else {
        lemma_replacement_found(e, calls.drop_last(), i);
    }
}

proof fn lemma_replacement_missing(e: ExprView, calls: Seq<NamedCallView>)
    requires
        forall|j: int| 0 <= j < calls.len() ==> (#[trigger] calls[j]).call != e,
    ensures
        replacement(e, calls) is None,
    decreases calls.len(),
{
    if calls.len() > 0 {
        lemma_replacement_missing(e, calls.drop_last());
    }
}

/// The name of the first call that equals `e`.
fn find_replacement(e: &Expr, calls: &Vec<NamedCall>) -> (r: Option<String>)
    ensures
        match r {
            Some(name) => replacement(e@, named_views(calls@)) == Some(name@),
            None => replacement(e@, named_views(calls@)) is None,
        },
{
    let ghost views = named_views(calls@);
    let mut i: usize = 0;
    while i < calls.len()
        invariant
            views == named_views(calls@),
            i <= calls.len(),
            forall|j: int| 0 <= j < i ==> (#[trigger] views[j]).call != e@,
        decreases calls.len() - i,
    {
        if same(&calls[i].call, e) {
            proof {
                assert(views[i as int] == calls@[i as int]@);
                lemma_replacement_found(e@, views, i as int);
            }
            return Some(calls[i].name.clone());
        }
        i = i + 1;
    }
    proof {
        lemma_replacement_missing(e@, views);
    }
    None
}

/// Replace the calls in each expression.
pub fn substitute_each(es: &Vec<Expr>, calls: &Vec<NamedCall>) -> (r: Vec<Expr>)
    ensures
        trees(r@) == substituted_each(trees(es@), named_views(calls@)),
    decreases es,
{
    let ghost want = substituted_each(trees(es@), named_views(calls@));
    let mut r: Vec<Expr> = Vec::new();
    let mut i: usize = 0;
    while i < es.len()
        invariant
            want == substituted_each(trees(es@), named_views(calls@)),
            i <= es.len(),
            trees(r@) == want.take(i as int),
        decreases es.len() - i,
    {
        let e = substitute(&es[i], calls);
        let ghost before = r@;
        r.push(e);
        proof {
            assert(trees(r@) == trees(before).push(e@));
            assert(want.take(i + 1) == want.take(i as int).push(want[i as int]));
        }
        i = i + 1;
    }
    proof {
        assert(want.take(i as int) == want);
    }
    r
}

/// Replace each call by the column that holds it.
pub fn substitute(e: &Expr, calls: &Vec<NamedCall>) -> (r: Expr)
    ensures
        r@ == substituted(e@, named_views(calls@)),
    decreases e,
{
    match find_replacement(e, calls) {
        Some(name) => Expr::Hoisted(name),
        None => {
            let r = match e {
                Expr::Function { name, shape, parts } => Expr::Function {
                    name: name.clone(),
                    shape: *shape,
                    parts: substitute_each(parts, calls),
                },
                Expr::Other { shape, parts } => Expr::Other {
                    shape: *shape,
                    parts: substitute_each(parts, calls),
                },
                _ => copy(e),
            };
            proof {
                lemma_view_parts(*e);
                lemma_view_parts(r);
                lemma_substituted_parts(e@, named_views(calls@));
            }
            r
        },
    }
}

/// The former name, if the name it would now have is another.
pub open spec fn restored(before: Seq<char>, after: Seq<char>) -> Option<Seq<char>> {
    if before == after {
        None
    } else {
        Some(before)
    }
}

/// The alias that a rewritten expression needs so that the plan above still
/// finds its column: its former name, if the name it would now have is another.
pub fn restored_name(before: &str, after: &str) -> (r: Option<String>)
    ensures
        optional_text(r) == restored(before@, after@),
        match r {
            Some(name) => before@ != after@ && name@ == before@,
            None => before@ == after@,
        },
{
    if same_text(before, after) {
        None
    } else {
        Some(before.to_owned())
    }
}

/// The expression uses no column but those supplied.
pub open spec fn uses_only(e: ExprView, supplies: Seq<usize>) -> bool
    decreases e,
{
    match e {
        ExprView::Function { parts, .. } => all_use_only(parts, supplies),
        ExprView::Column(n) => supplies.contains(n),
        ExprView::Hoisted(_) => false,
        ExprView::Other { parts, .. } => all_use_only(parts, supplies),
    }
}

/// None of the expressions uses a column but those supplied.
pub open spec fn all_use_only(es: Seq<ExprView>, supplies: Seq<usize>) -> bool
    decreases es,
{
    es.len() == 0 || (all_use_only(es.drop_last(), supplies) && uses_only(es.last(), supplies))
}

/// Leaving off an expression keeps what holds of all.
proof fn lemma_all_use_only_prefix(es: Seq<ExprView>, supplies: Seq<usize>, i: int)
    requires
        0 <= i <= es.len(),
        all_use_only(es, supplies),
    ensures
        all_use_only(es.take(i), supplies),
    decreases es.len(),
{
    if i == es.len() {
        assert(es.take(i) == es);
    } else {
        assert(es.drop_last().take(i) == es.take(i));
        lemma_all_use_only_prefix(es.drop_last(), supplies, i);
    }
}

fn supplied(n: usize, supplies: &Vec<usize>) -> (r: bool)
    ensures
        r == supplies@.contains(n),
{
    let mut i: usize = 0;
    while i < supplies.len()
        invariant
            i <= supplies.len(),
            forall|j: int| 0 <= j < i ==> supplies@[j] != n,
        decreases supplies.len() - i,
    {
        if supplies[i] == n {
            return true;
        }
        i = i + 1;
    }
    false
}

fn all_belong_to(es: &Vec<Expr>, supplies: &Vec<usize>) -> (r: bool)
    ensures
        r == all_use_only(trees(es@), supplies@),
    decreases es,
{
    let mut i: usize = 0;
    proof {
        assert(trees(es@).take(0) == Seq::<ExprView>::empty());
    }
    while i < es.len()
        invariant
            i <= es.len(),
            all_use_only(trees(es@).take(i as int), supplies@),
        decreases es.len() - i,
    {
        proof {
            assert(trees(es@).take(i + 1).drop_last() == trees(es@).take(i as int));
        }
        if !belongs_to(&es[i], supplies) {
            proof {
                if all_use_only(trees(es@), supplies@) {
                    lemma_all_use_only_prefix(trees(es@), supplies@, i + 1);
                }
            }
            return false;
        }
        i = i + 1;
    }
    proof {
        assert(trees(es@).take(i as int) == trees(es@));
    }
    true
}

/// Whether the expression can be computed from the columns supplied.
pub fn belongs_to(e: &Expr, supplies: &Vec<usize>) -> (r: bool)
    ensures
        r == uses_only(e@, supplies@),
    decreases e,
{
    proof {
        lemma_view_parts(*e);
    }
    match e {
        Expr::Function { parts, .. } => all_belong_to(parts, supplies),
        Expr::Column(n) => supplied(*n, supplies),
        Expr::Hoisted(_) => false,
        Expr::Other { parts, .. } => all_belong_to(parts, supplies),
    }
}

/// Both lists of named calls, one after the other.
fn both(left: &Vec<NamedCall>, right: &Vec<NamedCall>) -> (r: Vec<NamedCall>)
    ensures
        named_views(r@) == named_views(left@) + named_views(right@),
{
    let mut r = copy_named(left);
    let mut more = copy_named(right);
    let ghost l = r@;
    let ghost m = more@;
    r.append(&mut more);
    proof {
        assert(named_views(r@) == named_views(l) + named_views(m));
    }
    r
}

fn copy_named(calls: &Vec<NamedCall>) -> (r: Vec<NamedCall>)
    ensures
        named_views(r@) == named_views(calls@),
{
    let mut r: Vec<NamedCall> = Vec::new();
    let mut i: usize = 0;
    while i < calls.len()
        invariant
            i <= calls.len(),
            named_views(r@) == named_views(calls@).take(i as int),
        decreases calls.len() - i,
    {
        let c = NamedCall { call: copy(&calls[i].call), name: calls[i].name.clone() };
        let ghost before = r@;
        r.push(c);
        proof {
            assert(named_views(r@) == named_views(before).push(c@));
            assert(named_views(calls@).take(i + 1) == named_views(calls@).take(i as int).push(
                named_views(calls@)[i as int],
            ));
        }
        i = i + 1;
    }
    proof {
        assert(named_views(calls@).take(i as int) == named_views(calls@));
    }
    r
}

/// Each column passed on as it is.
pub open spec fn passed(columns: Seq<ExprView>) -> Seq<ItemView> {
    columns.map_values(|c: ExprView| ItemView { expr: c, column: c })
}

/// Each call as a column under its name.
pub open spec fn call_items(calls: Seq<NamedCallView>) -> Seq<ItemView> {
    calls.map_values(
        |c: NamedCallView| ItemView { expr: c.call, column: ExprView::Hoisted(c.name) },
    )
}

/// The plan with the calls projected after its columns. Without calls there is
/// nothing to project.
pub open spec fn projected(input: PlanView, calls: Seq<NamedCallView>) -> PlanView {
    if calls.len() == 0 {
        input
    } else {
        PlanView::Projection {
            items: passed(columns(input)) + call_items(calls),
            input: Box::new(input),
        }
    }
}

/// Items that pass these columns on.
fn pass(columns: Vec<Expr>) -> (r: Vec<Item>)
    ensures
        item_views(r@) == passed(trees(columns@)),
{
    let ghost want = passed(trees(columns@));
    let mut r: Vec<Item> = Vec::new();
    let mut i: usize = 0;
    while i < columns.len()
        invariant
            want == passed(trees(columns@)),
            i <= columns.len(),
            item_views(r@) == want.take(i as int),
        decreases columns.len() - i,
    {
        let item = Item { expr: copy(&columns[i]), column: copy(&columns[i]) };
        let ghost before = r@;
        r.push(item);
        proof {
            assert(item_views(r@) == item_views(before).push(item@));
            assert(want.take(i + 1) == want.take(i as int).push(want[i as int]));
        }
        i = i + 1;
    }
    proof {
        assert(want.take(i as int) == want);
    }
    r
}

/// Project named calls after the columns of the plan.
fn project_calls(input: Plan, calls: &Vec<NamedCall>) -> (r: Plan)
    ensures
        r@ == projected(input@, named_views(calls@)),
{
    if calls.len() == 0 {
        return input;
    }
    let ghost views = named_views(calls@);
    let ghost first = passed(columns(input@));
    let ghost more = call_items(views);
    let mut items = pass(schema(&input));
    let mut i: usize = 0;
    proof {
        assert(first + more.take(0) == first);
    }
    while i < calls.len()
        invariant
            views == named_views(calls@),
            more == call_items(views),
            i <= calls.len(),
            item_views(items@) == first + more.take(i as int),
        decreases calls.len() - i,
    {
        let item = Item {
            expr: copy(&calls[i].call),
            column: Expr::Hoisted(calls[i].name.clone()),
        };
        let ghost before = items@;
        items.push(item);
        proof {
            assert(views[i as int] == calls@[i as int]@);
            assert(item_views(items@) == item_views(before).push(item@));
            assert(more.take(i + 1) == more.take(i as int).push(more[i as int]));
        }
        i = i + 1;
    }
    proof {
        assert(more.take(i as int) == more);
    }
    let r = Plan::Projection { items, input: Box::new(input) };
    proof {
        lemma_plan_tree(r);
    }
    r
}

/// Collect each distinct call, project it beneath under a generated name, and
/// return the new input with the names of the calls.
fn hoist_calls_named(input: Plan, exprs: &Vec<Expr>, prefix: &str) -> (r: (Plan, Vec<NamedCall>))
    ensures
        named_views(r.1@) == numbered(collect_each(Seq::empty(), trees(exprs@)), prefix@),
        r.0@ == projected(input@, named_views(r.1@)),
{
    let found = collect_calls(exprs);
    let calls = name_calls(&found, prefix);
    (project_calls(input, &calls), calls)
}

/// The calls to compute beneath a node with these expressions.
pub open spec fn hoisted(es: Seq<ExprView>) -> Seq<NamedCallView> {
    numbered(collect_each(Seq::empty(), es), HOIST_PREFIX@)
}

/// Collect each distinct call and project it beneath.
fn hoist_calls(input: Plan, exprs: &Vec<Expr>) -> (r: (Plan, Vec<NamedCall>))
    ensures
        named_views(r.1@) == hoisted(trees(exprs@)),
        r.0@ == projected(input@, named_views(r.1@)),
{
    hoist_calls_named(input, exprs, HOIST_PREFIX)
}

/// The expressions of items, one by one.
fn exprs_of(items: &Vec<Item>) -> (r: Vec<Expr>)
    ensures
        trees(r@) == item_exprs(item_views(items@)),
{
    let ghost want = item_exprs(item_views(items@));
    let mut r: Vec<Expr> = Vec::new();
    let mut i: usize = 0;
    while i < items.len()
        invariant
            want == item_exprs(item_views(items@)),
            i <= items.len(),
            trees(r@) == want.take(i as int),
        decreases items.len() - i,
    {
        let e = copy(&items[i].expr);
        let ghost before = r@;
        r.push(e);
        proof {
            assert(trees(r@) == trees(before).push(e@));
            assert(want.take(i + 1) == want.take(i as int).push(want[i as int]));
        }
        i = i + 1;
    }
    proof {
        assert(want.take(i as int) == want);
    }
    r
}

/// Items with the calls replaced. Each becomes the column that it became, so that
/// the plan above still finds it.
pub open spec fn substituted_items(
    items: Seq<ItemView>,
    calls: Seq<NamedCallView>,
) -> Seq<ItemView> {
    items.map_values(
        |i: ItemView| ItemView { expr: substituted(i.expr, calls), column: i.column },
    )
}

fn substitute_items(items: &Vec<Item>, calls: &Vec<NamedCall>) -> (r: Vec<Item>)
    ensures
        item_views(r@) == substituted_items(item_views(items@), named_views(calls@)),
{
    let ghost want = substituted_items(item_views(items@), named_views(calls@));
    let mut r: Vec<Item> = Vec::new();
    let mut i: usize = 0;
    while i < items.len()
        invariant
            want == substituted_items(item_views(items@), named_views(calls@)),
            i <= items.len(),
            item_views(r@) == want.take(i as int),
        decreases items.len() - i,
    {
        let item = Item {
            expr: substitute(&items[i].expr, calls),
            column: copy(&items[i].column),
        };
        let ghost before = r@;
        r.push(item);
        proof {
            assert(item_views(r@) == item_views(before).push(item@));
            assert(want.take(i + 1) == want.take(i as int).push(want[i as int]));
        }
        i = i + 1;
    }
    proof {
        assert(want.take(i as int) == want);
    }
    r
}

/// Sort keys with the calls replaced.
pub open spec fn substituted_keys(
    keys: Seq<KeyView>,
    calls: Seq<NamedCallView>,
) -> Seq<KeyView> {
    keys.map_values(|k: KeyView| KeyView { expr: substituted(k.expr, calls), ..k })
}

/// The expressions of sort keys, one by one.
fn exprs_of_keys(keys: &Vec<SortKey>) -> (r: Vec<Expr>)
    ensures
        trees(r@) == key_exprs(key_views(keys@)),
{
    let ghost want = key_exprs(key_views(keys@));
    let mut r: Vec<Expr> = Vec::new();
    let mut i: usize = 0;
    while i < keys.len()
        invariant
            want == key_exprs(key_views(keys@)),
            i <= keys.len(),
            trees(r@) == want.take(i as int),
        decreases keys.len() - i,
    {
        let e = copy(&keys[i].expr);
        let ghost before = r@;
        r.push(e);
        proof {
            assert(trees(r@) == trees(before).push(e@));
            assert(want.take(i + 1) == want.take(i as int).push(want[i as int]));
        }
        i = i + 1;
    }
    proof {
        assert(want.take(i as int) == want);
    }
    r
}

fn substitute_keys(keys: &Vec<SortKey>, calls: &Vec<NamedCall>) -> (r: Vec<SortKey>)
    ensures
        key_views(r@) == substituted_keys(key_views(keys@), named_views(calls@)),
{
    let ghost want = substituted_keys(key_views(keys@), named_views(calls@));
    let mut r: Vec<SortKey> = Vec::new();
    let mut i: usize = 0;
    while i < keys.len()
        invariant
            want == substituted_keys(key_views(keys@), named_views(calls@)),
            i <= keys.len(),
            key_views(r@) == want.take(i as int),
        decreases keys.len() - i,
    {
        let key = SortKey {
            expr: substitute(&keys[i].expr, calls),
            ascending: keys[i].ascending,
            nulls_first: keys[i].nulls_first,
        };
        let ghost before = r@;
        r.push(key);
        proof {
            assert(key_views(r@) == key_views(before).push(key@));
            assert(want.take(i + 1) == want.take(i as int).push(want[i as int]));
        }
        i = i + 1;
    }
    proof {
        assert(want.take(i as int) == want);
    }
    r
}

/// A plan that passes just these columns on.
pub open spec fn kept(columns: Seq<ExprView>, input: PlanView) -> PlanView {
    PlanView::Projection { items: passed(columns), input: Box::new(input) }
}

/// A sort with its calls computed beneath. On top just the columns of the sorted
/// input are kept, so that the plan above sees the schema it was planned for.
pub open spec fn hoisted_sort(
    keys: Seq<KeyView>,
    fetch: Option<usize>,
    input: PlanView,
) -> PlanView {
    let calls = hoisted(key_exprs(keys));
    kept(
        columns(input),
        PlanView::Sort {
            keys: substituted_keys(keys, calls),
            fetch,
            input: Box::new(projected(input, calls)),
        },
    )
}

/// Compute the calls of a sort beneath it.
pub fn hoist_sort(keys: &Vec<SortKey>, fetch: Option<usize>, input: Plan) -> (r: Plan)
    ensures
        r@ == hoisted_sort(key_views(keys@), fetch, input@),
{
    let planned = schema(&input);
    let exprs = exprs_of_keys(keys);
    let (beneath, calls) = hoist_calls(input, &exprs);
    let keys = substitute_keys(keys, &calls);
    let sort = Plan::Sort { keys, fetch, input: Box::new(beneath) };
    let r = Plan::Projection { items: pass(planned), input: Box::new(sort) };
    proof {
        lemma_plan_tree(sort);
        lemma_plan_tree(r);
    }
    r
}

/// A window with its calls computed beneath. On top just the columns of the
/// window are kept.
pub open spec fn hoisted_window(items: Seq<ItemView>, input: PlanView) -> PlanView {
    let calls = hoisted(item_exprs(items));
    kept(
        columns(input) + item_columns(items),
        PlanView::Window {
            items: substituted_items(items, calls),
            input: Box::new(projected(input, calls)),
        },
    )
}

/// Compute the calls of a window beneath it.
pub fn hoist_window(items: &Vec<Item>, input: Plan) -> (r: Plan)
    ensures
        r@ == hoisted_window(item_views(items@), input@),
{
    let mut planned = schema(&input);
    add_columns(&mut planned, items);
    let exprs = exprs_of(items);
    let (beneath, calls) = hoist_calls(input, &exprs);
    let items = substitute_items(items, &calls);
    let window = Plan::Window { items, input: Box::new(beneath) };
    let r = Plan::Projection { items: pass(planned), input: Box::new(window) };
    proof {
        lemma_plan_tree(window);
        lemma_plan_tree(r);
    }
    r
}

/// An aggregation with its calls computed beneath. Each expression becomes the
/// column that it became, so that there is nothing to keep on top.
pub open spec fn hoisted_aggregate(
    group: Seq<ItemView>,
    aggregates: Seq<ItemView>,
    input: PlanView,
) -> PlanView {
    let calls = hoisted(item_exprs(group) + item_exprs(aggregates));
    PlanView::Aggregate {
        group: substituted_items(group, calls),
        aggregates: substituted_items(aggregates, calls),
        input: Box::new(projected(input, calls)),
    }
}

/// The expressions of both lists, one after the other.
fn exprs_of_both(group: &Vec<Item>, aggregates: &Vec<Item>) -> (r: Vec<Expr>)
    ensures
        trees(r@) == item_exprs(item_views(group@)) + item_exprs(item_views(aggregates@)),
{
    let mut r = exprs_of(group);
    let mut more = exprs_of(aggregates);
    let ghost a = r@;
    let ghost b = more@;
    r.append(&mut more);
    proof {
        assert(trees(r@) == trees(a) + trees(b));
    }
    r
}

/// Compute the calls of an aggregation beneath it.
pub fn hoist_aggregate(group: &Vec<Item>, aggregates: &Vec<Item>, input: Plan) -> (r: Plan)
    ensures
        r@ == hoisted_aggregate(item_views(group@), item_views(aggregates@), input@),
{
    let exprs = exprs_of_both(group, aggregates);
    let (beneath, calls) = hoist_calls(input, &exprs);
    let group = substitute_items(group, &calls);
    let aggregates = substitute_items(aggregates, &calls);
    let r = Plan::Aggregate { group, aggregates, input: Box::new(beneath) };
    proof {
        lemma_plan_tree(r);
    }
    r
}

/// The two sides of each equality, in turn.
pub open spec fn sides(on: Seq<(ExprView, ExprView)>) -> Seq<ExprView>
    decreases on.len(),
{
    if on.len() == 0 {
        Seq::empty()
    } else {
        sides(on.drop_last()).push(on.last().0).push(on.last().1)
    }
}

/// The expressions of a join condition, in turn.
pub open spec fn condition(join: JoinView) -> Seq<ExprView> {
    match join.filter {
        Some(f) => sides(join.on).push(f),
        None => sides(join.on),
    }
}

/// The distinct calls of a join condition.
pub open spec fn join_calls(join: JoinView) -> Seq<ExprView> {
    collect_each(Seq::empty(), condition(join))
}

/// The call can be computed on the left side. One that uses no column at all is
/// computed there.
pub open spec fn on_left(join: JoinView, call: ExprView) -> bool {
    uses_only(call, join.left_supplies)
}

/// The call can be computed on the right side only.
pub open spec fn on_right(join: JoinView, call: ExprView) -> bool {
    !on_left(join, call) && uses_only(call, join.right_supplies)
}

/// Every call can be computed on one side.
pub open spec fn one_sided(join: JoinView) -> bool {
    forall|i: int|
        0 <= i < join_calls(join).len() ==> on_left(join, #[trigger] join_calls(join)[i])
            || on_right(join, join_calls(join)[i])
}

/// The calls to compute on the left.
pub open spec fn left_hoisted(join: JoinView) -> Seq<NamedCallView> {
    numbered(join_calls(join).filter(|c: ExprView| on_left(join, c)), LEFT_PREFIX@)
}

/// The calls to compute on the right.
pub open spec fn right_hoisted(join: JoinView) -> Seq<NamedCallView> {
    numbered(join_calls(join).filter(|c: ExprView| on_right(join, c)), RIGHT_PREFIX@)
}

/// The equalities with the calls replaced.
pub open spec fn substituted_on(
    on: Seq<(ExprView, ExprView)>,
    calls: Seq<NamedCallView>,
) -> Seq<(ExprView, ExprView)> {
    on.map_values(|p: (ExprView, ExprView)| (substituted(p.0, calls), substituted(p.1, calls)))
}

/// The join with the calls of its condition replaced, and all else as it is.
pub open spec fn substituted_join(join: JoinView, calls: Seq<NamedCallView>) -> JoinView {
    JoinView {
        on: substituted_on(join.on, calls),
        filter: match join.filter {
            Some(f) => Some(substituted(f, calls)),
            None => None,
        },
        ..join
    }
}

/// A join with the calls of its condition computed beneath, each on its side. On
/// top just the columns of the join are kept.
pub open spec fn hoisted_join(join: JoinView, left: PlanView, right: PlanView) -> PlanView {
    let calls = left_hoisted(join) + right_hoisted(join);
    kept(
        join_columns(join, columns(left), columns(right)),
        PlanView::Join {
            join: substituted_join(join, calls),
            left: Box::new(projected(left, left_hoisted(join))),
            right: Box::new(projected(right, right_hoisted(join))),
        },
    )
}

/// The expressions of a join condition, one by one.
fn exprs_of_condition(join: &Join) -> (r: Vec<Expr>)
    ensures
        trees(r@) == condition(join@),
{
    let ghost on = join@.on;
    let mut r: Vec<Expr> = Vec::new();
    let mut i: usize = 0;
    proof {
        assert(on.take(0).len() == 0);
        assert(trees(r@) == sides(on.take(0)));
    }
    while i < join.on.len()
        invariant
            on == join@.on,
            i <= join.on.len(),
            trees(r@) == sides(on.take(i as int)),
        decreases join.on.len() - i,
    {
        let a = copy(&join.on[i].0);
        let b = copy(&join.on[i].1);
        let ghost before = r@;
        r.push(a);
        r.push(b);
        proof {
            assert(on.take(i + 1).drop_last() == on.take(i as int));
            assert(on.take(i + 1).last() == (a@, b@));
            assert(trees(r@) == trees(before).push(a@).push(b@));
        }
        i = i + 1;
    }
    proof {
        assert(on.take(i as int) == on);
    }
    match &join.filter {
        Some(f) => {
            let f = copy(f);
            let ghost before = r@;
            r.push(f);
            proof {
                assert(trees(r@) == trees(before).push(f@));
            }
        },
        None => {},
    }
    r
}

/// Replace the calls of a join condition.
fn substitute_join(join: Join, calls: &Vec<NamedCall>) -> (r: Join)
    ensures
        r@ == substituted_join(join@, named_views(calls@)),
{
    let ghost views = named_views(calls@);
    let ghost want = substituted_on(join@.on, views);
    let mut on: Vec<(Expr, Expr)> = Vec::new();
    let mut k: usize = 0;
    while k < join.on.len()
        invariant
            views == named_views(calls@),
            want == substituted_on(join@.on, views),
            k <= join.on.len(),
            pair_trees(on@) == want.take(k as int),
        decreases join.on.len() - k,
    {
        let pair = (substitute(&join.on[k].0, calls), substitute(&join.on[k].1, calls));
        let ghost before = on@;
        on.push(pair);
        proof {
            assert(pair_trees(on@) == pair_trees(before).push((pair.0@, pair.1@)));
            assert(join@.on[k as int] == (join.on@[k as int].0@, join.on@[k as int].1@));
            assert(want.take(k + 1) == want.take(k as int).push(want[k as int]));
        }
        k = k + 1;
    }
    proof {
        assert(want.take(k as int) == want);
    }
    let filter = match &join.filter {
        Some(f) => Some(substitute(f, calls)),
        None => None,
    };
    Join {
        on,
        filter,
        options: join.options,
        mark: join.mark,
        left_supplies: join.left_supplies,
        right_supplies: join.right_supplies,
    }
}

/// The calls of a join condition, those of the left side and those of the right.
fn part_calls(join: &Join) -> (r: Option<(Vec<Expr>, Vec<Expr>)>)
    ensures
        match r {
            Some((left, right)) => {
                &&& one_sided(join@)
                &&& trees(left@) == join_calls(join@).filter(|c: ExprView| on_left(join@, c))
                &&& trees(right@) == join_calls(join@).filter(|c: ExprView| on_right(join@, c))
            },
            None => !one_sided(join@),
        },
{
    let condition = exprs_of_condition(join);
    let calls = collect_calls(&condition);
    let ghost all = join_calls(join@);
    let mut left_calls: Vec<Expr> = Vec::new();
    let mut right_calls: Vec<Expr> = Vec::new();
    let ghost to_left = |c: ExprView| on_left(join@, c);
    let ghost to_right = |c: ExprView| on_right(join@, c);
    let mut i: usize = 0;
    proof {
        reveal(Seq::filter);
        assert(all.take(0) == Seq::<ExprView>::empty());
        assert(trees(left_calls@) == Seq::<ExprView>::empty());
        assert(trees(right_calls@) == Seq::<ExprView>::empty());
    }
    while i < calls.len()
        invariant
            all == join_calls(join@),
            trees(calls@) == all,
            to_left == (|c: ExprView| on_left(join@, c)),
            to_right == (|c: ExprView| on_right(join@, c)),
            i <= calls.len(),
            trees(left_calls@) == all.take(i as int).filter(to_left),
            trees(right_calls@) == all.take(i as int).filter(to_right),
            forall|j: int|
                0 <= j < i ==> on_left(join@, #[trigger] all[j]) || on_right(join@, all[j]),
        decreases calls.len() - i,
    {
        let call = &calls[i];
        proof {
            reveal(Seq::filter);
            assert(all.take(i + 1).drop_last() == all.take(i as int));
            assert(all.take(i + 1).last() == all[i as int]);
            assert(all[i as int] == call@);
        }
        let ghost left_before = left_calls@;
        let ghost right_before = right_calls@;
        if belongs_to(call, &join.left_supplies) {
            let c = copy(call);
            left_calls.push(c);
            proof {
                assert(trees(left_calls@) == trees(left_before).push(c@));
            }
        } else if belongs_to(call, &join.right_supplies) {
            let c = copy(call);
            right_calls.push(c);
            proof {
                assert(trees(right_calls@) == trees(right_before).push(c@));
            }
        } else {
            return None;
        }
        i = i + 1;
    }
    proof {
        assert(all.take(i as int) == all);
    }
    Some((left_calls, right_calls))
}

/// Compute the calls of a join condition beneath the join. Every call must be
/// computable on one side. A call over both sides has no input to be projected
/// from; the user can compute it in a CTE.
pub fn hoist_join(join: Join, left: Plan, right: Plan) -> (r: Result<Plan, PlanError>)
    ensures
        match r {
            Ok(plan) => one_sided(join@) && plan@ == hoisted_join(join@, left@, right@),
            Err(p) => !one_sided(join@) && p@ == Problem::<Seq<char>>::TwoSidedCall,
        },
{
    let (left_calls, right_calls) = match part_calls(&join) {
        Some(parts) => parts,
        None => {
            return Err(Problem::TwoSidedCall);
        },
    };
    let planned = join_schema(&join, schema(&left), schema(&right));
    let left_named = name_calls(&left_calls, LEFT_PREFIX);
    let right_named = name_calls(&right_calls, RIGHT_PREFIX);
    let left = project_calls(left, &left_named);
    let right = project_calls(right, &right_named);
    let substitutions = both(&left_named, &right_named);
    let join = substitute_join(join, &substitutions);
    let joined = Plan::Join { join, left: Box::new(left), right: Box::new(right) };
    let r = Plan::Projection { items: pass(planned), input: Box::new(joined) };
    proof {
        lemma_plan_tree(joined);
        lemma_plan_tree(r);
    }
    Ok(r)
}

/// The expressions of the topmost node that would have to be planned without
/// async calls.
pub open spec fn own_exprs(p: PlanView) -> Seq<ExprView> {
    match p {
        PlanView::Sort { keys, .. } => key_exprs(keys),
        PlanView::Window { items, .. } => item_exprs(items),
        PlanView::Aggregate { group, aggregates, .. } => item_exprs(group) + item_exprs(aggregates),
        PlanView::Join { join, .. } => condition(join),
        _ => Seq::empty(),
    }
}

/// What becomes of the topmost node, or nothing if it is a join with a call over
/// both sides. A node without a call stays as it is.
pub open spec fn hoisted_node(p: PlanView) -> Option<PlanView> {
    if !any_holds_call(own_exprs(p)) {
        Some(p)
    } else {
        match p {
            PlanView::Sort { keys, fetch, input } => Some(hoisted_sort(keys, fetch, *input)),
            PlanView::Window { items, input } => Some(hoisted_window(items, *input)),
            PlanView::Aggregate { group, aggregates, input } => Some(
                hoisted_aggregate(group, aggregates, *input),
            ),
            PlanView::Join { join, left, right } => if one_sided(join) {
                Some(hoisted_join(join, *left, *right))
            } else {
                None
            },
            _ => Some(p),
        }
    }
}

/// What becomes of a plan: every node of it, and of its subqueries, from the
/// bottom up.
pub open spec fn analyzed(p: PlanView) -> Option<PlanView>
    decreases p,
{
    match p {
        PlanView::Projection { items, input } => match analyzed(*input) {
            Some(i) => Some(PlanView::Projection { items, input: Box::new(i) }),
            None => None,
        },
        PlanView::Sort { keys, fetch, input } => match analyzed(*input) {
            Some(i) => hoisted_node(PlanView::Sort { keys, fetch, input: Box::new(i) }),
            None => None,
        },
        PlanView::Window { items, input } => match analyzed(*input) {
            Some(i) => hoisted_node(PlanView::Window { items, input: Box::new(i) }),
            None => None,
        },
        PlanView::Aggregate { group, aggregates, input } => match analyzed(*input) {
            Some(i) => hoisted_node(
                PlanView::Aggregate { group, aggregates, input: Box::new(i) },
            ),
            None => None,
        },
        PlanView::Join { join, left, right } => match (analyzed(*left), analyzed(*right)) {
            (Some(l), Some(r)) => hoisted_node(
                PlanView::Join { join, left: Box::new(l), right: Box::new(r) },
            ),
            _ => None,
        },
        PlanView::Subqueries { plan, subqueries } => match (
            analyzed_each(subqueries),
            analyzed(*plan),
        ) {
            (Some(ss), Some(p)) => Some(
                PlanView::Subqueries { plan: Box::new(p), subqueries: ss },
            ),
            _ => None,
        },
        PlanView::Other { id, columns, inputs } => match analyzed_each(inputs) {
            Some(inputs) => Some(PlanView::Other { id, columns, inputs }),
            None => None,
        },
    }
}

/// What becomes of each plan.
pub open spec fn analyzed_each(ps: Seq<PlanView>) -> Option<Seq<PlanView>>
    decreases ps,
{
    if ps.len() == 0 {
        Some(Seq::empty())
    } else {
        match (analyzed_each(ps.drop_last()), analyzed(ps.last())) {
            (Some(before), Some(last)) => Some(before.push(last)),
            _ => None,
        }
    }
}

/// Moves `prompt_jev` calls out of sort keys, window expressions, grouping and
/// join conditions into a projection beneath, so that they are planned as
/// ordinary async projections.
#[derive(Debug)]
pub struct HoistJev;

/// `r` is the outcome `s`: a plan, or the problem of a call over both sides.
pub open spec fn analysis_outcome(r: Result<Plan, PlanError>, s: Option<PlanView>) -> bool {
    match r {
        Ok(plan) => s == Some(plan@),
        Err(p) => s is None && p@ == Problem::<Seq<char>>::TwoSidedCall,
    }
}

/// A plan that fails among the first fails them all.
proof fn lemma_analyzed_each_none(ps: Seq<PlanView>, i: int)
    requires
        0 <= i < ps.len(),
        analyzed(ps[i]) is None,
    ensures
        analyzed_each(ps) is None,
    decreases ps.len(),
{
    if i < ps.len() - 1 {
        lemma_analyzed_each_none(ps.drop_last(), i);
    }
}

impl HoistJev {
    /// The name of the rule.
    pub fn name(&self) -> (r: &'static str)
        ensures
            r@ == "datafusion_jev_hoist"@,
    {
        "datafusion_jev_hoist"
    }

    /// Hoist the calls of the topmost node.
    fn hoist(&self, plan: Plan) -> (r: Result<Plan, PlanError>)
        ensures
            analysis_outcome(r, hoisted_node(plan@)),
    {
        proof {
            lemma_plan_tree(plan);
        }
        match plan {
            Plan::Sort { keys, fetch, input } => {
                if any_contains_jev(&exprs_of_keys(&keys)) {
                    Ok(hoist_sort(&keys, fetch, *input))
                } else {
                    Ok(Plan::Sort { keys, fetch, input })
                }
            },
            Plan::Window { items, input } => {
                if any_contains_jev(&exprs_of(&items)) {
                    Ok(hoist_window(&items, *input))
                } else {
                    Ok(Plan::Window { items, input })
                }
            },
            Plan::Aggregate { group, aggregates, input } => {
                if any_contains_jev(&exprs_of_both(&group, &aggregates)) {
                    Ok(hoist_aggregate(&group, &aggregates, *input))
                } else {
                    Ok(Plan::Aggregate { group, aggregates, input })
                }
            },
            Plan::Join { join, left, right } => {
                if any_contains_jev(&exprs_of_condition(&join)) {
                    hoist_join(join, *left, *right)
                } else {
                    Ok(Plan::Join { join, left, right })
                }
            },
            other => {
                proof {
                    assert(!any_holds_call(own_exprs(other@)));
                }
                Ok(other)
            },
        }
    }

    /// Analyze each plan.
    fn analyze_each(&self, plans: Vec<Plan>) -> (r: Result<Vec<Plan>, PlanError>)
        ensures
            match r {
                Ok(ps) => analyzed_each(plan_trees(plans@)) == Some(plan_trees(ps@)),
                Err(p) => analyzed_each(plan_trees(plans@)) is None && p@ == Problem::<
                    Seq<char>,
                >::TwoSidedCall,
            },
        decreases plans,
    {
        let ghost all = plans@;
        let ghost views = plan_trees(all);
        let mut rest = plans;
        let mut done: Vec<Plan> = Vec::new();
        let ghost mut i: int = 0;
        proof {
            assert(views.take(0).len() == 0);
            assert(plan_trees(done@) == Seq::<PlanView>::empty());
        }
        while rest.len() > 0
            invariant
                all == plans@,
                views == plan_trees(all),
                0 <= i <= all.len(),
                rest@ == all.skip(i),
                analyzed_each(views.take(i)) == Some(plan_trees(done@)),
            decreases rest.len(),
        {
            let p = rest.remove(0);
            proof {
                assert(p == all[i]);
                assert(rest@ == all.skip(i + 1));
                assert(views[i] == p@);
                assert(views.take(i + 1).drop_last() == views.take(i));
                assert(views.take(i + 1).last() == p@);
                assert(decreases_to!(plans => all[i]));
            }
            match self.analyze(p) {
                Ok(p) => {
                    let ghost before = done@;
                    done.push(p);
                    proof {
                        assert(plan_trees(done@) == plan_trees(before).push(p@));
                    }
                },
                Err(e) => {
                    proof {
                        lemma_analyzed_each_none(views, i);
                    }
                    return Err(e);
                },
            }
            proof {
                i = i + 1;
            }
        }
        proof {
            assert(views.take(i) == views);
        }
        Ok(done)
    }

    /// Hoist the calls of every node of the plan and of its subqueries, from the
    /// bottom up.
    pub fn analyze(&self, plan: Plan) -> (r: Result<Plan, PlanError>)
        ensures
            analysis_outcome(r, analyzed(plan@)),
        decreases plan,
    {
        proof {
            lemma_plan_tree(plan);
        }
        let done = match plan {
            Plan::Projection { items, input } => match self.analyze(*input) {
                Ok(i) => Plan::Projection { items, input: Box::new(i) },
                Err(e) => {
                    return Err(e);
                },
            },
            Plan::Sort { keys, fetch, input } => match self.analyze(*input) {
                Ok(i) => Plan::Sort { keys, fetch, input: Box::new(i) },
                Err(e) => {
                    return Err(e);
                },
            },
            Plan::Window { items, input } => match self.analyze(*input) {
                Ok(i) => Plan::Window { items, input: Box::new(i) },
                Err(e) => {
                    return Err(e);
                },
            },
            Plan::Aggregate { group, aggregates, input } => match self.analyze(*input) {
                Ok(i) => Plan::Aggregate { group, aggregates, input: Box::new(i) },
                Err(e) => {
                    return Err(e);
                },
            },
            Plan::Join { join, left, right } => match self.analyze(*left) {
                Ok(l) => match self.analyze(*right) {
                    Ok(r) => Plan::Join { join, left: Box::new(l), right: Box::new(r) },
                    Err(e) => {
                        return Err(e);
                    },
                },
                Err(e) => {
                    return Err(e);
                },
            },
            Plan::Subqueries { plan, subqueries } => match self.analyze_each(subqueries) {
                Ok(ss) => match self.analyze(*plan) {
                    Ok(p) => Plan::Subqueries { plan: Box::new(p), subqueries: ss },
                    Err(e) => {
                        return Err(e);
                    },
                },
                Err(e) => {
                    return Err(e);
                },
            },
            Plan::Other { id, columns, inputs } => match self.analyze_each(inputs) {
                Ok(inputs) => Plan::Other { id, columns, inputs },
                Err(e) => {
                    return Err(e);
                },
            },
        };
        proof {
            lemma_plan_tree(done);
        }
        self.hoist(done)
    }
}

/// Whatever name a rewritten expression would have, under its alias, if it needs one,
/// the plan above finds it by the name that it had. One that kept its name needs
/// none.
pub proof fn rewritten_expressions_keep_their_names(before: Seq<char>, after: Seq<char>)
    ensures
        (match restored(before, after) {
            Some(alias) => alias,
            None => after,
        }) == before,
        restored(before, before) is None,
{
}

} // verus!
