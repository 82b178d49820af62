//! What hoisting promises: no call is left where none can be planned, nothing
//! else changes, and each distinct call is computed once.
use crate::expr::{is_jev_call, ExprView};
use crate::plan::{
    columns, item_columns, item_exprs, join_columns, key_exprs, mark_columns, JoinView, PlanView,
};
use crate::planner::{
    analyzed, analyzed_each, any_holds_call, call_items, collect, collect_each, condition,
    hoisted, hoisted_node, holds_call, join_calls, kept, left_hoisted, lemma_substituted_parts,
    numbered, on_left, on_right, one_sided, own_exprs, passed, projected, replacement,
    right_hoisted, sides, substituted, substituted_each, substituted_items, substituted_join,
    substituted_keys, substituted_on, uses_only, NamedCallView, HOIST_PREFIX, LEFT_PREFIX,
    RIGHT_PREFIX,
};
use crate::text::{decimal, decimal_injective};
use vstd::prelude::*;

verus! {

/// Every outermost call of the expression is among `calls`.
spec fn covered(e: ExprView, calls: Seq<ExprView>) -> bool
    decreases e,
{
    if is_jev_call(e) {
        calls.contains(e)
    } else {
        match e {
            ExprView::Function { parts, .. } => covered_each(parts, calls),
            ExprView::Other { parts, .. } => covered_each(parts, calls),
            _ => true,
        }
    }
}

spec fn covered_each(es: Seq<ExprView>, calls: Seq<ExprView>) -> bool
    decreases es,
{
    es.len() == 0 || (covered_each(es.drop_last(), calls) && covered(es.last(), calls))
}

/// `more` has every call that `calls` has.
spec fn within(calls: Seq<ExprView>, more: Seq<ExprView>) -> bool {
    forall|c: ExprView| calls.contains(c) ==> more.contains(c)
}

proof fn lemma_covered_more(e: ExprView, calls: Seq<ExprView>, more: Seq<ExprView>)
    requires
        covered(e, calls),
        within(calls, more),
    ensures
        covered(e, more),
    decreases e,
{
    if !is_jev_call(e) {
        match e {
            ExprView::Function { parts, .. } => lemma_covered_each_more(parts, calls, more),
            ExprView::Other { parts, .. } => lemma_covered_each_more(parts, calls, more),
            _ => {},
        }
    }
}

proof fn lemma_covered_each_more(es: Seq<ExprView>, calls: Seq<ExprView>, more: Seq<ExprView>)
    requires
        covered_each(es, calls),
        within(calls, more),
    ensures
        covered_each(es, more),
    decreases es,
{
    if es.len() > 0 {
        lemma_covered_each_more(es.drop_last(), calls, more);
        lemma_covered_more(es.last(), calls, more);
    }
}

/// Only calls are in the list, and none twice.
pub open spec fn distinct_calls(calls: Seq<ExprView>) -> bool {
    &&& calls.no_duplicates()
    &&& forall|i: int| 0 <= i < calls.len() ==> is_jev_call(#[trigger] calls[i])
}

/// Collecting keeps what was known, covers the expression, and adds no call
/// twice.
proof fn lemma_collect(calls: Seq<ExprView>, e: ExprView)
    requires
        distinct_calls(calls),
    ensures
        within(calls, collect(calls, e)),
        covered(e, collect(calls, e)),
        distinct_calls(collect(calls, e)),
    decreases e,
{
    if is_jev_call(e) && !calls.contains(e) {
        let all = calls.push(e);
        assert forall|c: ExprView| calls.contains(c) implies all.contains(c) by {
            let i = calls.index_of(c);
            assert(all[i] == c);
        }
        assert(all[all.len() - 1] == e);
    } else {
        match e {
            ExprView::Function { parts, .. } => lemma_collect_each(calls, parts),
            ExprView::Other { parts, .. } => lemma_collect_each(calls, parts),
            _ => {},
        }
    }
}

proof fn lemma_collect_each(calls: Seq<ExprView>, es: Seq<ExprView>)
    requires
        distinct_calls(calls),
    ensures
        within(calls, collect_each(calls, es)),
        covered_each(es, collect_each(calls, es)),
        distinct_calls(collect_each(calls, es)),
    decreases es,
{
    if es.len() > 0 {
        let before = collect_each(calls, es.drop_last());
        lemma_collect_each(calls, es.drop_last());
        lemma_collect(before, es.last());
        lemma_covered_each_more(es.drop_last(), before, collect(before, es.last()));
    }
}

/// Each of `calls` has a replacement.
spec fn all_replaced(calls: Seq<ExprView>, named: Seq<NamedCallView>) -> bool {
    forall|c: ExprView| #[trigger] calls.contains(c) ==> replacement(c, named) is Some
}

proof fn lemma_no_call_left(e: ExprView, calls: Seq<ExprView>, named: Seq<NamedCallView>)
    requires
        covered(e, calls),
        all_replaced(calls, named),
    ensures
        !holds_call(substituted(e, named)),
    decreases e,
{
    if replacement(e, named) is None {
        lemma_substituted_parts(e, named);
        match e {
            ExprView::Function { parts, .. } => lemma_no_call_left_each(parts, calls, named),
            ExprView::Other { parts, .. } => lemma_no_call_left_each(parts, calls, named),
            _ => {},
        }
    }
}

proof fn lemma_no_call_left_each(
    es: Seq<ExprView>,
    calls: Seq<ExprView>,
    named: Seq<NamedCallView>,
)
    requires
        covered_each(es, calls),
        all_replaced(calls, named),
    ensures
        !any_holds_call(substituted_each(es, named)),
    decreases es,
{
    if es.len() > 0 {
        lemma_no_call_left_each(es.drop_last(), calls, named);
        lemma_no_call_left(es.last(), calls, named);
        assert(substituted_each(es, named).drop_last() == substituted_each(
            es.drop_last(),
            named,
        ));
    }
}

proof fn lemma_replacement_exists(e: ExprView, named: Seq<NamedCallView>, i: int)
    requires
        0 <= i < named.len(),
        named[i].call == e,
    ensures
        replacement(e, named) is Some,
    decreases named.len(),
{
    if i < named.len() - 1 {
        lemma_replacement_exists(e, named.drop_last(), i);
    }
}

proof fn lemma_numbered_replaces(calls: Seq<ExprView>, prefix: Seq<char>)
    ensures
        all_replaced(calls, numbered(calls, prefix)),
{
    let named = numbered(calls, prefix);
    assert forall|c: ExprView| #[trigger] calls.contains(c) implies replacement(
        c,
        named,
    ) is Some by {
        let i = calls.index_of(c);
        lemma_replacement_exists(c, named, i);
    }
}

/// The calls that the topmost node has computed beneath, once it is rebuilt.
pub open spec fn node_calls(p: PlanView) -> Seq<NamedCallView> {
    match p {
        PlanView::Join { join, .. } => left_hoisted(join) + right_hoisted(join),
        _ => hoisted(own_exprs(p)),
    }
}

/// The topmost node holds a call where none can be planned, and can be rebuilt.
pub open spec fn is_rebuilt(p: PlanView) -> bool {
    any_holds_call(own_exprs(p)) && hoisted_node(p) is Some
}

/// The rebuilt node itself, beneath the projection that keeps its columns.
pub open spec fn rebuilt(p: PlanView) -> PlanView {
    match (p, hoisted_node(p)) {
        (PlanView::Aggregate { .. }, Some(r)) => r,
        (_, Some(PlanView::Projection { input, .. })) => *input,
        _ => p,
    }
}

proof fn lemma_sides_substituted(on: Seq<(ExprView, ExprView)>, calls: Seq<NamedCallView>)
    ensures
        sides(substituted_on(on, calls)) == substituted_each(sides(on), calls),
    decreases on.len(),
{
    if on.len() > 0 {
        lemma_sides_substituted(on.drop_last(), calls);
        assert(substituted_on(on, calls).drop_last() =~= substituted_on(on.drop_last(), calls));
        assert(sides(substituted_on(on, calls)) =~= substituted_each(sides(on), calls));
    } else {
        assert(sides(substituted_on(on, calls)) =~= substituted_each(sides(on), calls));
    }
}

/// A rebuilt node evaluates the expressions of the node with the calls replaced
/// by the columns beneath.
proof fn lemma_rebuilt_exprs(p: PlanView)
    requires
        is_rebuilt(p),
    ensures
        own_exprs(rebuilt(p)) == substituted_each(own_exprs(p), node_calls(p)),
{
    let calls = node_calls(p);
    let want = substituted_each(own_exprs(p), calls);
    match p {
        PlanView::Sort { keys, .. } => {
            assert(key_exprs(substituted_keys(keys, calls)) =~= want);
        },
        PlanView::Window { items, .. } => {
            assert(item_exprs(substituted_items(items, calls)) =~= want);
        },
        PlanView::Aggregate { group, aggregates, .. } => {
            assert(item_exprs(substituted_items(group, calls)) + item_exprs(
                substituted_items(aggregates, calls),
            ) =~= want);
        },
        PlanView::Join { join, .. } => {
            lemma_sides_substituted(join.on, calls);
            assert(condition(substituted_join(join, calls)) =~= want);
        },
        _ => {},
    }
}

/// Filtering keeps what passes.
proof fn lemma_filter_has(calls: Seq<ExprView>, keep: spec_fn(ExprView) -> bool, c: ExprView)
    requires
        calls.contains(c),
        keep(c),
    ensures
        calls.filter(keep).contains(c),
{
    calls.lemma_filter_contains(keep, calls.index_of(c));
}

proof fn lemma_calls_replaced(p: PlanView)
    requires
        is_rebuilt(p),
    ensures
        all_replaced(collect_each(Seq::empty(), own_exprs(p)), node_calls(p)),
{
    let calls = collect_each(Seq::empty(), own_exprs(p));
    match p {
        PlanView::Join { join, .. } => {
            let named = node_calls(p);
            let left = calls.filter(|c: ExprView| on_left(join, c));
            let right = calls.filter(|c: ExprView| on_right(join, c));
            assert forall|c: ExprView| #[trigger] calls.contains(c) implies replacement(
                c,
                named,
            ) is Some by {
                let k = calls.index_of(c);
                assert(join_calls(join)[k] == c);
                if on_left(join, c) {
                    lemma_filter_has(calls, |c: ExprView| on_left(join, c), c);
                    let i = left.index_of(c);
                    assert(named[i].call == c);
                    lemma_replacement_exists(c, named, i);
                } else {
                    lemma_filter_has(calls, |c: ExprView| on_right(join, c), c);
                    let i = right.index_of(c);
                    assert(named[left.len() + i].call == c);
                    lemma_replacement_exists(c, named, left.len() + i);
                }
            }
        },
        _ => {
            lemma_numbered_replaces(calls, HOIST_PREFIX@);
        },
    }
}

/// Once it is rebuilt, a node evaluates no call itself.
pub proof fn hoisting_leaves_no_call(p: PlanView)
    requires
        is_rebuilt(p),
    ensures
        !any_holds_call(own_exprs(rebuilt(p))),
{
    let calls = collect_each(Seq::<ExprView>::empty(), own_exprs(p));
    lemma_collect_each(Seq::empty(), own_exprs(p));
    lemma_calls_replaced(p);
    lemma_no_call_left_each(own_exprs(p), calls, node_calls(p));
    lemma_rebuilt_exprs(p);
}

/// No column of the expression stands for a call already.
pub open spec fn plain(e: ExprView) -> bool
    decreases e,
{
    match e {
        ExprView::Function { parts, .. } => all_plain(parts),
        ExprView::Hoisted(_) => false,
        ExprView::Other { parts, .. } => all_plain(parts),
        ExprView::Column(_) => true,
    }
}

/// No column of the expressions stands for a call already.
pub open spec fn all_plain(es: Seq<ExprView>) -> bool
    decreases es,
{
    es.len() == 0 || (all_plain(es.drop_last()) && plain(es.last()))
}

/// The first call that has this name.
pub open spec fn definition(name: Seq<char>, calls: Seq<NamedCallView>) -> Option<ExprView>
    decreases calls.len(),
{
    if calls.len() == 0 {
        None
    } else {
        match definition(name, calls.drop_last()) {
            Some(call) => Some(call),
            None => if calls.last().name == name {
                Some(calls.last().call)
            } else {
                None
            },
        }
    }
}

/// `e` with each named column replaced by the call that it holds.
pub open spec fn inlined(e: ExprView, calls: Seq<NamedCallView>) -> ExprView
    decreases e,
{
    match e {
        ExprView::Function { name, shape, parts } => ExprView::Function {
            name,
            shape,
            parts: Seq::new(
                parts.len(),
                |i: int|
                    if 0 <= i < parts.len() {
                        inlined(parts[i], calls)
                    } else {
                        arbitrary()
                    },
            ),
        },
        ExprView::Hoisted(name) => match definition(name, calls) {
            Some(call) => call,
            None => e,
        },
        ExprView::Other { shape, parts } => ExprView::Other {
            shape,
            parts: Seq::new(
                parts.len(),
                |i: int|
                    if 0 <= i < parts.len() {
                        inlined(parts[i], calls)
                    } else {
                        arbitrary()
                    },
            ),
        },
        ExprView::Column(_) => e,
    }
}

/// Each expression with the named columns replaced by their calls.
pub open spec fn inlined_each(es: Seq<ExprView>, calls: Seq<NamedCallView>) -> Seq<ExprView> {
    es.map_values(|e: ExprView| inlined(e, calls))
}

proof fn lemma_inlined_parts(e: ExprView, calls: Seq<NamedCallView>)
    ensures
        match e {
            ExprView::Function { name, shape, parts } => inlined(e, calls) == (
            ExprView::Function { name, shape, parts: inlined_each(parts, calls) }),
            ExprView::Other { shape, parts } => inlined(e, calls) == (ExprView::Other {
                shape,
                parts: inlined_each(parts, calls),
            }),
            _ => true,
        },
{
    reveal_with_fuel(inlined, 2);
    match e {
        ExprView::Function { name, shape, parts } => {
            assert(inlined(e, calls)->Function_parts =~= inlined_each(parts, calls));
        },
        ExprView::Other { shape, parts } => {
            assert(inlined(e, calls)->Other_parts =~= inlined_each(parts, calls));
        },
        _ => {},
    }
}

/// No two calls have the same name.
pub open spec fn names_differ(calls: Seq<NamedCallView>) -> bool {
    forall|i: int, j: int|
        0 <= i < j < calls.len() ==> (#[trigger] calls[i]).name != (#[trigger] calls[j]).name
}

proof fn lemma_definition(calls: Seq<NamedCallView>, i: int)
    requires
        names_differ(calls),
        0 <= i < calls.len(),
    ensures
        definition(calls[i].name, calls) == Some(calls[i].call),
    decreases calls.len(),
{
    if i == calls.len() - 1 {
        lemma_no_definition(calls[i].name, calls.drop_last());
    } else {
        lemma_definition(calls.drop_last(), i);
    }
}

proof fn lemma_no_definition(name: Seq<char>, calls: Seq<NamedCallView>)
    requires
        forall|j: int| 0 <= j < calls.len() ==> (#[trigger] calls[j]).name != name,
    ensures
        definition(name, calls) is None,
    decreases calls.len(),
{
    if calls.len() > 0 {
        lemma_no_definition(name, calls.drop_last());
    }
}

/// The name that replaces a call is the name of that call.
proof fn lemma_replacement_defines(e: ExprView, calls: Seq<NamedCallView>)
    requires
        names_differ(calls),
        replacement(e, calls) is Some,
    ensures
        definition(replacement(e, calls)->0, calls) == Some(e),
    decreases calls.len(),
{
    if replacement(e, calls.drop_last()) is None {
        lemma_definition(calls, calls.len() - 1);
    } else {
        lemma_replacement_defines(e, calls.drop_last());
    }
}

/// Replacing each named column by its call undoes replacing each call by its
/// column.
proof fn lemma_inlining_undoes(e: ExprView, calls: Seq<NamedCallView>)
    requires
        names_differ(calls),
        plain(e),
    ensures
        inlined(substituted(e, calls), calls) == e,
    decreases e,
{
    if replacement(e, calls) is Some {
        lemma_replacement_defines(e, calls);
    } else {
        lemma_substituted_parts(e, calls);
        lemma_inlined_parts(substituted(e, calls), calls);
        match e {
            ExprView::Function { parts, .. } => lemma_inlining_undoes_each(parts, calls),
            ExprView::Other { parts, .. } => lemma_inlining_undoes_each(parts, calls),
            _ => {},
        }
    }
}

proof fn lemma_inlining_undoes_each(es: Seq<ExprView>, calls: Seq<NamedCallView>)
    requires
        names_differ(calls),
        all_plain(es),
    ensures
        inlined_each(substituted_each(es, calls), calls) == es,
    decreases es,
{
    if es.len() > 0 {
        let front = es.drop_last();
        lemma_inlining_undoes_each(front, calls);
        lemma_inlining_undoes(es.last(), calls);
        let whole = inlined_each(substituted_each(es, calls), calls);
        assert forall|i: int| 0 <= i < es.len() implies #[trigger] whole[i] == es[i] by {
            if i < front.len() {
                assert(inlined_each(substituted_each(front, calls), calls)[i] == front[i]);
            }
        }
        assert(whole =~= es);
    } else {
        assert(inlined_each(substituted_each(es, calls), calls) =~= es);
    }
}

proof fn lemma_numbered_names_differ(calls: Seq<ExprView>, prefix: Seq<char>)
    ensures
        names_differ(numbered(calls, prefix)),
{
    let named = numbered(calls, prefix);
    assert forall|i: int, j: int| 0 <= i < j < named.len() implies (#[trigger] named[i]).name != (
    #[trigger] named[j]).name by {
        if named[i].name == named[j].name {
            assert(decimal(i as nat) =~= named[i].name.skip(prefix.len() as int));
            assert(decimal(j as nat) =~= named[j].name.skip(prefix.len() as int));
            decimal_injective(i as nat, j as nat);
        }
    }
}

proof fn lemma_node_names_differ(p: PlanView)
    requires
        is_rebuilt(p),
    ensures
        names_differ(node_calls(p)),
{
    match p {
        PlanView::Join { join, .. } => {
            let left = left_hoisted(join);
            let right = right_hoisted(join);
            lemma_numbered_names_differ(
                join_calls(join).filter(|c: ExprView| on_left(join, c)),
                LEFT_PREFIX@,
            );
            lemma_numbered_names_differ(
                join_calls(join).filter(|c: ExprView| on_right(join, c)),
                RIGHT_PREFIX@,
            );
            reveal_strlit("__jev_hoist_l");
            reveal_strlit("__jev_hoist_r");
            let named = left + right;
            assert forall|i: int, j: int| 0 <= i < j < named.len() implies (
            #[trigger] named[i]).name != (#[trigger] named[j]).name by {
                if i < left.len() && j >= left.len() {
                    assert(named[i].name[12] == LEFT_PREFIX@[12]);
                    assert(named[j].name[12] == RIGHT_PREFIX@[12]);
                } else if j < left.len() {
                    assert(left[i].name != left[j].name);
                } else {
                    assert(right[i - left.len()].name != right[j - left.len()].name);
                }
            }
        },
        _ => {
            lemma_numbered_names_differ(
                collect_each(Seq::<ExprView>::empty(), own_exprs(p)),
                HOIST_PREFIX@,
            );
        },
    }
}

/// Hoisting keeps what every expression means: with the calls put back in place
/// of the columns beneath, the rebuilt node evaluates what the node did.
pub proof fn hoisting_keeps_expressions(p: PlanView)
    requires
        is_rebuilt(p),
        all_plain(own_exprs(p)),
    ensures
        inlined_each(own_exprs(rebuilt(p)), node_calls(p)) == own_exprs(p),
{
    lemma_rebuilt_exprs(p);
    lemma_node_names_differ(p);
    lemma_inlining_undoes_each(own_exprs(p), node_calls(p));
}

/// Each column beneath is a call, no call is computed twice and no two columns
/// have the same name.
pub proof fn hoisting_computes_each_call_once(p: PlanView)
    requires
        is_rebuilt(p),
    ensures
        names_differ(node_calls(p)),
        distinct_calls(node_calls(p).map_values(|c: NamedCallView| c.call)),
{
    let all = collect_each(Seq::<ExprView>::empty(), own_exprs(p));
    lemma_collect_each(Seq::empty(), own_exprs(p));
    lemma_node_names_differ(p);
    let calls = node_calls(p).map_values(|c: NamedCallView| c.call);
    match p {
        PlanView::Join { join, .. } => {
            let to_left = |c: ExprView| on_left(join, c);
            let to_right = |c: ExprView| on_right(join, c);
            let left = all.filter(to_left);
            let right = all.filter(to_right);
            lemma_filter_distinct(all, to_left);
            lemma_filter_distinct(all, to_right);
            assert(calls =~= left + right);
            assert forall|i: int, j: int| 0 <= i < j < calls.len() implies calls[i] != calls[j] by {
                if i < left.len() && j >= left.len() {
                    all.lemma_filter_pred(to_left, i);
                    all.lemma_filter_pred(to_right, j - left.len());
                }
            }
        },
        _ => {
            assert(calls =~= all);
        },
    }
}

proof fn lemma_filter_distinct(calls: Seq<ExprView>, keep: spec_fn(ExprView) -> bool)
    requires
        distinct_calls(calls),
    ensures
        distinct_calls(calls.filter(keep)),
    decreases calls.len(),
{
    reveal(Seq::filter);
    if calls.len() > 0 {
        let front = calls.drop_last();
        lemma_filter_distinct(front, keep);
        assert forall|i: int| 0 <= i < front.filter(keep).len() implies #[trigger] front.filter(
            keep,
        )[i] != calls.last() by {
            front.lemma_filter_contains_rev(keep, front.filter(keep)[i]);
        }
    }
}

/// What a join computes on a side uses the columns of that side alone.
pub proof fn join_calls_stay_on_their_side(join: JoinView)
    ensures
        forall|i: int|
            0 <= i < left_hoisted(join).len() ==> uses_only(
                (#[trigger] left_hoisted(join)[i]).call,
                join.left_supplies,
            ),
        forall|i: int|
            0 <= i < right_hoisted(join).len() ==> uses_only(
                (#[trigger] right_hoisted(join)[i]).call,
                join.right_supplies,
            ),
{
    let all = join_calls(join);
    let to_left = |c: ExprView| on_left(join, c);
    let to_right = |c: ExprView| on_right(join, c);
    assert forall|i: int| 0 <= i < left_hoisted(join).len() implies uses_only(
        (#[trigger] left_hoisted(join)[i]).call,
        join.left_supplies,
    ) by {
        all.lemma_filter_pred(to_left, i);
    }
    assert forall|i: int| 0 <= i < right_hoisted(join).len() implies uses_only(
        (#[trigger] right_hoisted(join)[i]).call,
        join.right_supplies,
    ) by {
        all.lemma_filter_pred(to_right, i);
    }
}

/// No node of the plan, or of its subqueries, holds a call where none can be
/// planned.
pub open spec fn settled(p: PlanView) -> bool
    decreases p,
{
    !any_holds_call(own_exprs(p)) && match p {
        PlanView::Projection { input, .. } => settled(*input),
        PlanView::Sort { input, .. } => settled(*input),
        PlanView::Window { input, .. } => settled(*input),
        PlanView::Aggregate { input, .. } => settled(*input),
        PlanView::Join { left, right, .. } => settled(*left) && settled(*right),
        PlanView::Subqueries { plan, subqueries } => settled(*plan) && all_settled(subqueries),
        PlanView::Other { inputs, .. } => all_settled(inputs),
    }
}

/// No node of the plans holds a call where none can be planned.
pub open spec fn all_settled(ps: Seq<PlanView>) -> bool
    decreases ps,
{
    ps.len() == 0 || (all_settled(ps.drop_last()) && settled(ps.last()))
}

/// Each join that holds a call has every call on one side.
pub open spec fn joins_one_sided(p: PlanView) -> bool
    decreases p,
{
    match p {
        PlanView::Projection { input, .. } => joins_one_sided(*input),
        PlanView::Sort { input, .. } => joins_one_sided(*input),
        PlanView::Window { input, .. } => joins_one_sided(*input),
        PlanView::Aggregate { input, .. } => joins_one_sided(*input),
        PlanView::Join { join, left, right } => {
            &&& any_holds_call(condition(join)) ==> one_sided(join)
            &&& joins_one_sided(*left)
            &&& joins_one_sided(*right)
        },
        PlanView::Subqueries { plan, subqueries } => joins_one_sided(*plan)
            && all_joins_one_sided(subqueries),
        PlanView::Other { inputs, .. } => all_joins_one_sided(inputs),
    }
}

/// Each join of the plans that holds a call has every call on one side.
pub open spec fn all_joins_one_sided(ps: Seq<PlanView>) -> bool
    decreases ps,
{
    ps.len() == 0 || (all_joins_one_sided(ps.drop_last()) && joins_one_sided(ps.last()))
}

/// Projecting calls beneath adds no node that could hold one in a wrong place.
proof fn lemma_projected_settled(input: PlanView, calls: Seq<NamedCallView>)
    requires
        settled(input),
    ensures
        settled(projected(input, calls)),
{
    reveal_with_fuel(settled, 2);
}

/// What becomes of a node over settled inputs is settled, and has its columns.
proof fn lemma_hoisted_node(p: PlanView)
    requires
        hoisted_node(p) is Some,
        match p {
            PlanView::Projection { input, .. } => settled(*input),
            PlanView::Sort { input, .. } => settled(*input),
            PlanView::Window { input, .. } => settled(*input),
            PlanView::Aggregate { input, .. } => settled(*input),
            PlanView::Join { left, right, .. } => settled(*left) && settled(*right),
            PlanView::Subqueries { plan, subqueries } => settled(*plan) && all_settled(subqueries),
            PlanView::Other { inputs, .. } => all_settled(inputs),
        },
    ensures
        settled(hoisted_node(p)->0),
        columns(hoisted_node(p)->0) == columns(p),
{
    if any_holds_call(own_exprs(p)) {
        hoisting_leaves_no_call(p);
        let calls = node_calls(p);
        reveal_with_fuel(settled, 4);
        reveal_with_fuel(columns, 4);
        match p {
            PlanView::Sort { keys, fetch, input } => {
                lemma_projected_settled(*input, calls);
                lemma_passed(columns(*input));
            },
            PlanView::Window { items, input } => {
                lemma_projected_settled(*input, calls);
                lemma_passed(columns(*input) + item_columns(items));
            },
            PlanView::Aggregate { group, aggregates, input } => {
                lemma_projected_settled(*input, calls);
                assert(item_columns(substituted_items(group, calls)) =~= item_columns(group));
                assert(item_columns(substituted_items(aggregates, calls)) =~= item_columns(
                    aggregates,
                ));
            },
            PlanView::Join { join, left, right } => {
                lemma_projected_settled(*left, left_hoisted(join));
                lemma_projected_settled(*right, right_hoisted(join));
                lemma_passed(join_columns(join, columns(*left), columns(*right)));
            },
            _ => {},
        }
    }
}

proof fn lemma_passed(cs: Seq<ExprView>)
    ensures
        item_columns(passed(cs)) == cs,
        item_exprs(passed(cs)) == cs,
{
    assert(item_columns(passed(cs)) =~= cs);
    assert(item_exprs(passed(cs)) =~= cs);
}

/// After the analysis no node of the plan, or of its subqueries, holds a call
/// where none can be planned, and the plan has the columns that it had, in order.
pub proof fn analysis_settles_the_plan(p: PlanView)
    requires
        analyzed(p) is Some,
    ensures
        settled(analyzed(p)->0),
        columns(analyzed(p)->0) == columns(p),
    decreases p,
{
    match p {
        PlanView::Projection { items, input } => {
            analysis_settles_the_plan(*input);
        },
        PlanView::Sort { keys, fetch, input } => {
            analysis_settles_the_plan(*input);
            lemma_hoisted_node(
                PlanView::Sort { keys, fetch, input: Box::new(analyzed(*input)->0) },
            );
        },
        PlanView::Window { items, input } => {
            analysis_settles_the_plan(*input);
            lemma_hoisted_node(PlanView::Window { items, input: Box::new(analyzed(*input)->0) });
        },
        PlanView::Aggregate { group, aggregates, input } => {
            analysis_settles_the_plan(*input);
            lemma_hoisted_node(
                PlanView::Aggregate { group, aggregates, input: Box::new(analyzed(*input)->0) },
            );
        },
        PlanView::Join { join, left, right } => {
            analysis_settles_the_plan(*left);
            analysis_settles_the_plan(*right);
            lemma_hoisted_node(
                PlanView::Join {
                    join,
                    left: Box::new(analyzed(*left)->0),
                    right: Box::new(analyzed(*right)->0),
                },
            );
        },
        PlanView::Subqueries { plan, subqueries } => {
            analysis_settles_the_plan(*plan);
            lemma_analysis_settles_each(subqueries);
        },
        PlanView::Other { inputs, .. } => {
            lemma_analysis_settles_each(inputs);
        },
    }
}

proof fn lemma_analysis_settles_each(ps: Seq<PlanView>)
    requires
        analyzed_each(ps) is Some,
    ensures
        all_settled(analyzed_each(ps)->0),
    decreases ps,
{
    if ps.len() > 0 {
        lemma_analysis_settles_each(ps.drop_last());
        analysis_settles_the_plan(ps.last());
        let all = analyzed_each(ps)->0;
        assert(all.drop_last() =~= analyzed_each(ps.drop_last())->0);
    }
}

/// A plan that holds no call in a wrong place stays as it is.
pub proof fn analysis_leaves_settled_plans_alone(p: PlanView)
    requires
        settled(p),
    ensures
        analyzed(p) == Some(p),
    decreases p,
{
    match p {
        PlanView::Projection { input, .. } => analysis_leaves_settled_plans_alone(*input),
        PlanView::Sort { input, .. } => analysis_leaves_settled_plans_alone(*input),
        PlanView::Window { input, .. } => analysis_leaves_settled_plans_alone(*input),
        PlanView::Aggregate { input, .. } => analysis_leaves_settled_plans_alone(*input),
        PlanView::Join { left, right, .. } => {
            analysis_leaves_settled_plans_alone(*left);
            analysis_leaves_settled_plans_alone(*right);
        },
        PlanView::Subqueries { plan, subqueries } => {
            analysis_leaves_settled_plans_alone(*plan);
            lemma_analysis_leaves_each_alone(subqueries);
        },
        PlanView::Other { inputs, .. } => lemma_analysis_leaves_each_alone(inputs),
    }
}

proof fn lemma_analysis_leaves_each_alone(ps: Seq<PlanView>)
    requires
        all_settled(ps),
    ensures
        analyzed_each(ps) == Some(ps),
    decreases ps,
{
    if ps.len() > 0 {
        lemma_analysis_leaves_each_alone(ps.drop_last());
        analysis_leaves_settled_plans_alone(ps.last());
        assert(ps.drop_last().push(ps.last()) =~= ps);
    } else {
        assert(ps =~= Seq::empty());
    }
}

/// Analyzing twice is analyzing once.
pub proof fn analysis_idempotent(p: PlanView)
    requires
        analyzed(p) is Some,
    ensures
        analyzed(analyzed(p)->0) == analyzed(p),
{
    analysis_settles_the_plan(p);
    analysis_leaves_settled_plans_alone(analyzed(p)->0);
}

/// The analysis fails exactly where a join holds a call over both sides.
pub proof fn only_two_sided_calls_fail(p: PlanView)
    ensures
        analyzed(p) is Some <==> joins_one_sided(p),
    decreases p,
{
    match p {
        PlanView::Projection { input, .. } => only_two_sided_calls_fail(*input),
        PlanView::Sort { input, .. } => only_two_sided_calls_fail(*input),
        PlanView::Window { input, .. } => only_two_sided_calls_fail(*input),
        PlanView::Aggregate { input, .. } => only_two_sided_calls_fail(*input),
        PlanView::Join { left, right, .. } => {
            only_two_sided_calls_fail(*left);
            only_two_sided_calls_fail(*right);
        },
        PlanView::Subqueries { plan, subqueries } => {
            only_two_sided_calls_fail(*plan);
            lemma_only_two_sided_calls_fail_each(subqueries);
        },
        PlanView::Other { inputs, .. } => lemma_only_two_sided_calls_fail_each(inputs),
    }
}

proof fn lemma_only_two_sided_calls_fail_each(ps: Seq<PlanView>)
    ensures
        analyzed_each(ps) is Some <==> all_joins_one_sided(ps),
    decreases ps,
{
    if ps.len() > 0 {
        lemma_only_two_sided_calls_fail_each(ps.drop_last());
        only_two_sided_calls_fail(ps.last());
    }
}

/// The column does not hold a hoisted call.
pub open spec fn is_plain_column(c: ExprView) -> bool {
    !(c is Hoisted)
}

/// None of the columns holds a hoisted call.
pub open spec fn plain_columns(cs: Seq<ExprView>) -> bool {
    forall|i: int| 0 <= i < cs.len() ==> is_plain_column(#[trigger] cs[i])
}

proof fn lemma_filter_all(cs: Seq<ExprView>, keep: spec_fn(ExprView) -> bool)
    requires
        forall|i: int| 0 <= i < cs.len() ==> keep(#[trigger] cs[i]),
    ensures
        cs.filter(keep) == cs,
    decreases cs.len(),
{
    reveal(Seq::filter);
    if cs.len() > 0 {
        lemma_filter_all(cs.drop_last(), keep);
        assert(cs.drop_last().push(cs.last()) =~= cs);
    } else {
        assert(cs.filter(keep) =~= cs);
    }
}

proof fn lemma_filter_none(cs: Seq<ExprView>, keep: spec_fn(ExprView) -> bool)
    requires
        forall|i: int| 0 <= i < cs.len() ==> !keep(#[trigger] cs[i]),
    ensures
        cs.filter(keep) == Seq::<ExprView>::empty(),
    decreases cs.len(),
{
    reveal(Seq::filter);
    if cs.len() > 0 {
        lemma_filter_none(cs.drop_last(), keep);
    }
}

/// What projecting calls does to the columns: the plain ones stay, in order.
proof fn lemma_projected_columns(input: PlanView, calls: Seq<NamedCallView>)
    requires
        plain_columns(columns(input)),
    ensures
        columns(projected(input, calls)).filter(|c: ExprView| is_plain_column(c)) == columns(input),
{
    let keep = |c: ExprView| is_plain_column(c);
    lemma_filter_all(columns(input), keep);
    if calls.len() > 0 {
        let new = item_columns(call_items(calls));
        lemma_passed(columns(input));
        lemma_filter_none(new, keep);
        assert(columns(projected(input, calls)) =~= columns(input) + new);
        Seq::filter_distributes_over_add(columns(input), new, keep);
        assert(columns(input) + Seq::<ExprView>::empty() =~= columns(input));
    }
}

/// The projection on top keeps just the columns of the rebuilt node that hold no
/// hoisted call, in order.
pub proof fn hoisted_columns_are_dropped(p: PlanView)
    requires
        is_rebuilt(p),
        !(p is Aggregate),
        match p {
            PlanView::Sort { input, .. } => plain_columns(columns(*input)),
            PlanView::Window { items, input } => plain_columns(columns(*input)) && plain_columns(
                item_columns(items),
            ),
            PlanView::Join { join, left, right } => plain_columns(columns(*left)) && plain_columns(
                columns(*right),
            ) && plain_columns(mark_columns(join.mark)),
            _ => true,
        },
    ensures
        hoisted_node(p) == Some(
            kept(columns(rebuilt(p)).filter(|c: ExprView| is_plain_column(c)), rebuilt(p)),
        ),
{
    let keep = |c: ExprView| is_plain_column(c);
    let calls = node_calls(p);
    reveal_with_fuel(columns, 3);
    match p {
        PlanView::Sort { keys, fetch, input } => {
            lemma_projected_columns(*input, calls);
        },
        PlanView::Window { items, input } => {
            lemma_projected_columns(*input, calls);
            let new = item_columns(items);
            assert(item_columns(substituted_items(items, calls)) =~= new);
            lemma_filter_all(new, keep);
            Seq::filter_distributes_over_add(columns(projected(*input, calls)), new, keep);
        },
        PlanView::Join { join, left, right } => {
            let l = columns(projected(*left, left_hoisted(join)));
            let r = columns(projected(*right, right_hoisted(join)));
            let mark = mark_columns(join.mark);
            lemma_projected_columns(*left, left_hoisted(join));
            lemma_projected_columns(*right, right_hoisted(join));
            lemma_filter_all(mark, keep);
            Seq::filter_distributes_over_add(l, r, keep);
            Seq::filter_distributes_over_add(l, mark, keep);
            Seq::filter_distributes_over_add(r, mark, keep);
        },
        _ => {},
    }
}

} // verus!
