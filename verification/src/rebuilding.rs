//! What the analysis of a plan keeps: every node, with its settings and its
//! columns, over a projection that computes its calls.
use crate::error::PlanError;
use crate::expr::{is_jev_call, trees, Expr, ExprView};
use crate::hoisting::{hoisting_leaves_no_call, is_rebuilt};
use crate::plan::{
    columns, item_exprs, join_columns, key_exprs, ItemView, JoinView, KeyView, Plan, PlanView,
};
use crate::planner::{
    all_use_only, analysis_outcome, analyzed, analyzed_each, any_holds_call, collect, collect_each,
    condition, guard_action, guarded, hoisted, hoisted_aggregate, hoisted_join, hoisted_node,
    hoisted_sort, hoisted_window, holds_call, join_calls, left_hoisted, lemma_any_holds_call,
    lemma_substituted_parts, numbered, on_left, on_right, one_sided, plan_holds_call, projected,
    replacement, right_hoisted, sides, substituted, substituted_each, uses_only, ApplyOrder,
    NamedCallView,
};
use crate::text::decimal;
use vstd::prelude::*;

verus! {

/// `part` stands somewhere in the expression, or is all of it.
pub open spec fn occurs(part: ExprView, e: ExprView) -> bool
    decreases e,
{
    e == part || match e {
        ExprView::Function { parts, .. } => occurs_in(part, parts),
        ExprView::Other { parts, .. } => occurs_in(part, parts),
        _ => false,
    }
}

/// `part` stands somewhere in one of the expressions.
pub open spec fn occurs_in(part: ExprView, es: Seq<ExprView>) -> bool
    decreases es,
{
    es.len() > 0 && (occurs_in(part, es.drop_last()) || occurs(part, es.last()))
}

/// Something stands in one of the expressions exactly if it stands in the one at
/// some position.
pub proof fn lemma_occurs_in(part: ExprView, es: Seq<ExprView>)
    ensures
        occurs_in(part, es) <==> exists|i: int| 0 <= i < es.len() && #[trigger] occurs(part, es[i]),
    decreases es.len(),
{
    if es.len() > 0 {
        let front = es.drop_last();
        lemma_occurs_in(part, front);
        if occurs_in(part, front) {
            let i = choose|i: int| 0 <= i < front.len() && #[trigger] occurs(part, front[i]);
            assert(occurs(part, es[i]));
        }
        if occurs(part, es.last()) {
            assert(occurs(part, es[es.len() - 1]));
        }
        if exists|i: int| 0 <= i < es.len() && #[trigger] occurs(part, es[i]) {
            let i = choose|i: int| 0 <= i < es.len() && #[trigger] occurs(part, es[i]);
            if i < front.len() {
                assert(occurs(part, front[i]));
            }
        }
    }
}

/// The expression is a call of the function behind `prompt_jev`.
pub open spec fn is_call(e: ExprView) -> bool {
    e is Function && e->name == "__datafusion_jev"@
}

/// What stands in a part stands in the whole.
proof fn lemma_occurs_within(part: ExprView, middle: ExprView, e: ExprView)
    requires
        occurs(part, middle),
        occurs(middle, e),
    ensures
        occurs(part, e),
    decreases e,
{
    if e != middle {
        match e {
            ExprView::Function { parts, .. } => lemma_occurs_in_within(part, middle, parts),
            ExprView::Other { parts, .. } => lemma_occurs_in_within(part, middle, parts),
            _ => {},
        }
    }
}

proof fn lemma_occurs_in_within(part: ExprView, middle: ExprView, es: Seq<ExprView>)
    requires
        occurs(part, middle),
        occurs_in(middle, es),
    ensures
        occurs_in(part, es),
    decreases es,
{
    if occurs_in(middle, es.drop_last()) {
        lemma_occurs_in_within(part, middle, es.drop_last());
    } else {
        lemma_occurs_within(part, middle, es.last());
    }
}

/// An expression holds a call exactly if a call stands somewhere in it.
pub proof fn calls_are_found_wherever_they_stand(e: ExprView)
    ensures
        holds_call(e) <==> exists|c: ExprView| is_call(c) && #[trigger] occurs(c, e),
    decreases e,
{
    match e {
        ExprView::Function { parts, .. } => {
            calls_are_found_in_every_expression(parts);
            if any_holds_call(parts) {
                let c = choose|c: ExprView| is_call(c) && #[trigger] occurs_in(c, parts);
                assert(occurs(c, e));
            }
        },
        ExprView::Other { parts, .. } => {
            calls_are_found_in_every_expression(parts);
            if any_holds_call(parts) {
                let c = choose|c: ExprView| is_call(c) && #[trigger] occurs_in(c, parts);
                assert(occurs(c, e));
            }
        },
        _ => {},
    }
    if is_jev_call(e) {
        assert(is_call(e) && occurs(e, e));
    }
    if exists|c: ExprView| is_call(c) && #[trigger] occurs(c, e) {
        let c = choose|c: ExprView| is_call(c) && #[trigger] occurs(c, e);
        if c != e {
            match e {
                ExprView::Function { parts, .. } => assert(occurs_in(c, parts)),
                ExprView::Other { parts, .. } => assert(occurs_in(c, parts)),
                _ => {},
            }
        }
    }
}

/// One of the expressions holds a call exactly if a call stands in one of them.
pub proof fn calls_are_found_in_every_expression(es: Seq<ExprView>)
    ensures
        any_holds_call(es) <==> exists|c: ExprView| is_call(c) && #[trigger] occurs_in(c, es),
    decreases es,
{
    if es.len() > 0 {
        calls_are_found_in_every_expression(es.drop_last());
        calls_are_found_wherever_they_stand(es.last());
        if any_holds_call(es) {
            if any_holds_call(es.drop_last()) {
                let c = choose|c: ExprView| is_call(c) && #[trigger] occurs_in(c, es.drop_last());
                assert(occurs_in(c, es));
            } else {
                let c = choose|c: ExprView| is_call(c) && #[trigger] occurs(c, es.last());
                assert(occurs_in(c, es));
            }
        }
        if exists|c: ExprView| is_call(c) && #[trigger] occurs_in(c, es) {
            let c = choose|c: ExprView| is_call(c) && #[trigger] occurs_in(c, es);
            assert(occurs_in(c, es.drop_last()) || occurs(c, es.last()));
        }
    }
}

/// An expression can be computed from the columns supplied exactly if every column
/// that stands in it is one of them and none of them holds a hoisted call.
pub proof fn an_expression_uses_the_columns_in_it(e: ExprView, supplies: Seq<usize>)
    ensures
        uses_only(e, supplies) <==> {
            &&& forall|n: usize| #[trigger]
                occurs(ExprView::Column(n), e) ==> supplies.contains(n)
            &&& forall|name: Seq<char>| !(#[trigger] occurs(ExprView::Hoisted(name), e))
        },
    decreases e,
{
    match e {
        ExprView::Function { parts, .. } => {
            expressions_use_the_columns_in_them(parts, supplies);
            lemma_leaves(e, parts);
        },
        ExprView::Other { parts, .. } => {
            expressions_use_the_columns_in_them(parts, supplies);
            lemma_leaves(e, parts);
        },
        ExprView::Column(n) => {
            assert(occurs(ExprView::Column(n), e));
        },
        ExprView::Hoisted(name) => {
            assert(occurs(ExprView::Hoisted(name), e));
        },
    }
}

/// The columns of a node with parts are those of its parts.
proof fn lemma_leaves(e: ExprView, parts: Seq<ExprView>)
    requires
        e is Function && e->Function_parts == parts || e is Other && e->Other_parts == parts,
    ensures
        forall|n: usize| #[trigger]
            occurs(ExprView::Column(n), e) <==> occurs_in(ExprView::Column(n), parts),
        forall|n: usize| #[trigger]
            occurs_in(ExprView::Column(n), parts) <==> occurs(ExprView::Column(n), e),
        forall|name: Seq<char>| #[trigger]
            occurs(ExprView::Hoisted(name), e) <==> occurs_in(ExprView::Hoisted(name), parts),
        forall|name: Seq<char>| #[trigger]
            occurs_in(ExprView::Hoisted(name), parts) <==> occurs(ExprView::Hoisted(name), e),
{
}

proof fn expressions_use_the_columns_in_them(es: Seq<ExprView>, supplies: Seq<usize>)
    ensures
        all_use_only(es, supplies) <==> {
            &&& forall|n: usize| #[trigger]
                occurs_in(ExprView::Column(n), es) ==> supplies.contains(n)
            &&& forall|name: Seq<char>| !(#[trigger] occurs_in(ExprView::Hoisted(name), es))
        },
    decreases es,
{
    if es.len() > 0 {
        let front = es.drop_last();
        let last = es.last();
        expressions_use_the_columns_in_them(front, supplies);
        an_expression_uses_the_columns_in_it(last, supplies);
        if all_use_only(es, supplies) {
            assert forall|n: usize| #[trigger]
                occurs_in(ExprView::Column(n), es) implies supplies.contains(n) by {
                assert(occurs_in(ExprView::Column(n), front) || occurs(
                    ExprView::Column(n),
                    last,
                ));
            }
            assert forall|name: Seq<char>| !(#[trigger] occurs_in(
                ExprView::Hoisted(name),
                es,
            )) by {
                assert(!occurs_in(ExprView::Hoisted(name), front));
                assert(!occurs(ExprView::Hoisted(name), last));
            }
        } else if !all_use_only(front, supplies) {
            if exists|n: usize| #[trigger]
                occurs_in(ExprView::Column(n), front) && !supplies.contains(n) {
                let n = choose|n: usize| #[trigger]
                    occurs_in(ExprView::Column(n), front) && !supplies.contains(n);
                assert(occurs_in(ExprView::Column(n), es));
            } else {
                let name = choose|name: Seq<char>| #[trigger]
                    occurs_in(ExprView::Hoisted(name), front);
                assert(occurs_in(ExprView::Hoisted(name), es));
            }
        } else {
            if exists|n: usize| #[trigger]
                occurs(ExprView::Column(n), last) && !supplies.contains(n) {
                let n = choose|n: usize| #[trigger]
                    occurs(ExprView::Column(n), last) && !supplies.contains(n);
                assert(occurs_in(ExprView::Column(n), es));
            } else {
                let name = choose|name: Seq<char>| #[trigger]
                    occurs(ExprView::Hoisted(name), last);
                assert(occurs_in(ExprView::Hoisted(name), es));
            }
        }
    }
}

/// What is collected stands in the expressions or was known before.
proof fn lemma_collected_occur(calls: Seq<ExprView>, e: ExprView, c: ExprView)
    requires
        collect(calls, e).contains(c),
    ensures
        calls.contains(c) || is_call(c) && occurs(c, e),
    decreases e,
{
    if is_jev_call(e) && !calls.contains(e) {
        let all = calls.push(e);
        let i = all.index_of(c);
        if i < calls.len() {
            assert(calls[i] == c);
        }
    } else {
        match e {
            ExprView::Function { parts, .. } => lemma_collected_occur_in(calls, parts, c),
            ExprView::Other { parts, .. } => lemma_collected_occur_in(calls, parts, c),
            _ => {},
        }
    }
}

proof fn lemma_collected_occur_in(calls: Seq<ExprView>, es: Seq<ExprView>, c: ExprView)
    requires
        collect_each(calls, es).contains(c),
    ensures
        calls.contains(c) || is_call(c) && occurs_in(c, es),
    decreases es,
{
    if es.len() > 0 {
        lemma_collected_occur(collect_each(calls, es.drop_last()), es.last(), c);
        if collect_each(calls, es.drop_last()).contains(c) {
            lemma_collected_occur_in(calls, es.drop_last(), c);
        }
    }
}

/// Every call that stands in the expression stands in one that is collected, and
/// what was known stays first.
proof fn lemma_calls_collected(calls: Seq<ExprView>, e: ExprView)
    ensures
        calls.is_prefix_of(collect(calls, e)),
        forall|c: ExprView|
            is_call(c) && #[trigger] occurs(c, e) ==> occurs_in(c, collect(calls, e)),
    decreases e,
{
    if is_jev_call(e) {
        if calls.contains(e) {
            match e {
                ExprView::Function { parts, .. } => lemma_calls_collected_in(calls, parts),
                _ => {},
            }
            lemma_prefix_occurs(calls, collect(calls, e), e);
            let i = calls.index_of(e);
            assert(occurs(e, calls[i]));
            lemma_occurs_in(e, calls);
        } else {
            let all = calls.push(e);
            assert(all.subrange(0, calls.len() as int) =~= calls);
            assert(all[calls.len() as int] == e);
        }
        assert(occurs_in(e, collect(calls, e))) by {
            let all = collect(calls, e);
            if !calls.contains(e) {
                assert(occurs(e, all[calls.len() as int]));
                lemma_occurs_in(e, all);
            }
        }
        assert forall|c: ExprView| is_call(c) && #[trigger] occurs(c, e) implies occurs_in(
            c,
            collect(calls, e),
        ) by {
            lemma_occurs_in_within(c, e, collect(calls, e));
        }
    } else {
        match e {
            ExprView::Function { parts, .. } => {
                lemma_calls_collected_in(calls, parts);
                assert forall|c: ExprView| is_call(c) && #[trigger] occurs(c, e) implies occurs_in(
                    c,
                    collect(calls, e),
                ) by {
                    assert(occurs_in(c, parts));
                }
            },
            ExprView::Other { parts, .. } => {
                lemma_calls_collected_in(calls, parts);
                assert forall|c: ExprView| is_call(c) && #[trigger] occurs(c, e) implies occurs_in(
                    c,
                    collect(calls, e),
                ) by {
                    assert(occurs_in(c, parts));
                }
            },
            _ => {
                assert(calls.subrange(0, calls.len() as int) =~= calls);
            },
        }
    }
}

/// What stands in one of the first expressions stands in one of them all.
proof fn lemma_prefix_occurs(front: Seq<ExprView>, all: Seq<ExprView>, c: ExprView)
    requires
        front.is_prefix_of(all),
    ensures
        occurs_in(c, front) ==> occurs_in(c, all),
{
    lemma_occurs_in(c, front);
    lemma_occurs_in(c, all);
    if occurs_in(c, front) {
        let i = choose|i: int| 0 <= i < front.len() && #[trigger] occurs(c, front[i]);
        assert(all.subrange(0, front.len() as int)[i] == front[i]);
        assert(occurs(c, all[i]));
    }
}

proof fn lemma_calls_collected_in(calls: Seq<ExprView>, es: Seq<ExprView>)
    ensures
        calls.is_prefix_of(collect_each(calls, es)),
        forall|c: ExprView|
            is_call(c) && #[trigger] occurs_in(c, es) ==> occurs_in(c, collect_each(calls, es)),
    decreases es,
{
    if es.len() == 0 {
        assert(calls.subrange(0, calls.len() as int) =~= calls);
    } else {
        let front = es.drop_last();
        let before = collect_each(calls, front);
        let all = collect_each(calls, es);
        lemma_calls_collected_in(calls, front);
        lemma_calls_collected(before, es.last());
        assert(all.subrange(0, calls.len() as int) =~= before.subrange(0, calls.len() as int)) by {
            assert(all.subrange(0, before.len() as int) == before);
            assert forall|i: int| 0 <= i < calls.len() implies all[i] == before[i] by {
                assert(all.subrange(0, before.len() as int)[i] == all[i]);
            }
        }
        assert forall|c: ExprView| is_call(c) && #[trigger] occurs_in(c, es) implies occurs_in(
            c,
            all,
        ) by {
            if occurs_in(c, front) {
                lemma_prefix_occurs(before, all, c);
            } else {
                assert(occurs(c, es.last()));
            }
        }
    }
}

/// Exactly the calls that stand in the expressions are collected, alone or within
/// one that is; what was known before stays first, and a new call is collected
/// whole.
pub proof fn every_call_is_collected(calls: Seq<ExprView>, es: Seq<ExprView>, c: ExprView)
    ensures
        calls.is_prefix_of(collect_each(calls, es)),
        collect_each(calls, es).contains(c) ==> calls.contains(c) || is_call(c) && occurs_in(c, es),
        is_call(c) && occurs_in(c, es) ==> occurs_in(c, collect_each(calls, es)),
        is_call(c) && !calls.contains(c) ==> collect_each(calls, seq![c]) == calls.push(c),
{
    lemma_calls_collected_in(calls, es);
    if collect_each(calls, es).contains(c) {
        lemma_collected_occur_in(calls, es, c);
    }
    assert(seq![c].drop_last() =~= Seq::<ExprView>::empty());
    assert(collect_each(calls, Seq::<ExprView>::empty()) == calls);
    assert(collect_each(calls, seq![c]) == collect(calls, c));
}

/// Calls are collected from left to right: those of the later expressions come
/// after those of the earlier ones.
pub proof fn calls_are_collected_in_order(
    calls: Seq<ExprView>,
    es: Seq<ExprView>,
    more: Seq<ExprView>,
)
    ensures
        collect_each(calls, es + more) == collect_each(collect_each(calls, es), more),
    decreases more.len(),
{
    if more.len() == 0 {
        assert(es + more =~= es);
    } else {
        calls_are_collected_in_order(calls, es, more.drop_last());
        assert((es + more).drop_last() =~= es + more.drop_last());
        assert((es + more).last() == more.last());
    }
}

/// A join is refused exactly if its condition has a call that can be computed on
/// neither side: one that uses a column that the left side has not, and one that
/// the right side has not.
pub proof fn only_calls_over_both_sides_are_refused(join: JoinView)
    ensures
        one_sided(join) <==> forall|c: ExprView|
            is_call(c) && #[trigger] occurs_in(c, condition(join)) ==> uses_only(
                c,
                join.left_supplies,
            ) || uses_only(c, join.right_supplies),
{
    let all = join_calls(join);
    let es = condition(join);
    if one_sided(join) {
        assert forall|c: ExprView| is_call(c) && #[trigger] occurs_in(c, es) implies uses_only(
            c,
            join.left_supplies,
        ) || uses_only(c, join.right_supplies) by {
            every_call_is_collected(Seq::empty(), es, c);
            lemma_occurs_in(c, all);
            let i = choose|i: int| 0 <= i < all.len() && #[trigger] occurs(c, all[i]);
            assert(on_left(join, all[i]) || on_right(join, all[i]));
            lemma_part_uses_less(c, all[i], join.left_supplies);
            lemma_part_uses_less(c, all[i], join.right_supplies);
        }
    } else {
        let i = choose|i: int|
            0 <= i < all.len() && !(on_left(join, #[trigger] all[i]) || on_right(join, all[i]));
        assert(all.contains(all[i]));
        every_call_is_collected(Seq::empty(), es, all[i]);
    }
}

proof fn lemma_part_uses_less(part: ExprView, e: ExprView, supplies: Seq<usize>)
    requires
        occurs(part, e),
    ensures
        uses_only(e, supplies) ==> uses_only(part, supplies),
{
    an_expression_uses_the_columns_in_it(e, supplies);
    an_expression_uses_the_columns_in_it(part, supplies);
    if uses_only(e, supplies) {
        assert forall|n: usize| #[trigger]
            occurs(ExprView::Column(n), part) implies supplies.contains(n) by {
            lemma_occurs_within(ExprView::Column(n), part, e);
        }
        assert forall|name: Seq<char>| !(#[trigger] occurs(ExprView::Hoisted(name), part)) by {
            if occurs(ExprView::Hoisted(name), part) {
                lemma_occurs_within(ExprView::Hoisted(name), part, e);
            }
        }
    }
}

/// `after` is `before`, but that some of the calls may have given way to the
/// columns of their names.
pub open spec fn replaces(after: ExprView, before: ExprView, calls: Seq<NamedCallView>) -> bool
    decreases before,
{
    (exists|k: int|
        0 <= k < calls.len() && (#[trigger] calls[k]).call == before && after == ExprView::Hoisted(
            calls[k].name,
        )) || match before {
        ExprView::Function { name, shape, parts } => {
            &&& after matches ExprView::Function { name: n, shape: s, parts: ps }
            &&& n == name && s == shape && replaces_each(ps, parts, calls)
        },
        ExprView::Other { shape, parts } => {
            &&& after matches ExprView::Other { shape: s, parts: ps }
            &&& s == shape && replaces_each(ps, parts, calls)
        },
        _ => after == before,
    }
}

/// Each expression is the one before, but that calls may have given way to columns.
pub open spec fn replaces_each(
    after: Seq<ExprView>,
    before: Seq<ExprView>,
    calls: Seq<NamedCallView>,
) -> bool
    decreases before,
{
    after.len() == before.len() && (before.len() == 0 || replaces_each(
        after.drop_last(),
        before.drop_last(),
        calls,
    ) && replaces(after.last(), before.last(), calls))
}

proof fn lemma_replacement(e: ExprView, calls: Seq<NamedCallView>)
    ensures
        match replacement(e, calls) {
            Some(name) => exists|k: int|
                0 <= k < calls.len() && (#[trigger] calls[k]).call == e && name == calls[k].name,
            None => forall|k: int| 0 <= k < calls.len() ==> (#[trigger] calls[k]).call != e,
        },
    decreases calls.len(),
{
    if calls.len() > 0 {
        let front = calls.drop_last();
        let n = calls.len() - 1;
        lemma_replacement(e, front);
        assert(calls[n] == calls.last());
        if replacement(e, front) is Some {
            let name = replacement(e, front)->0;
            let k = choose|k: int|
                0 <= k < front.len() && (#[trigger] front[k]).call == e && name == front[k].name;
            assert(calls[k].call == e && name == calls[k].name);
        } else {
            assert forall|k: int| 0 <= k < n implies (#[trigger] calls[k]).call != e by {
                assert(front[k].call != e);
            }
        }
    }
}

/// Substitution replaces calls by their columns and changes nothing else.
pub proof fn substitution_only_replaces_calls(e: ExprView, calls: Seq<NamedCallView>)
    ensures
        replaces(substituted(e, calls), e, calls),
    decreases e,
{
    lemma_replacement(e, calls);
    if replacement(e, calls) is None {
        lemma_substituted_parts(e, calls);
        match e {
            ExprView::Function { parts, .. } => lemma_substitution_replaces_each(parts, calls),
            ExprView::Other { parts, .. } => lemma_substitution_replaces_each(parts, calls),
            _ => {},
        }
    } else {
        let name = replacement(e, calls)->0;
        let k = choose|k: int|
            0 <= k < calls.len() && (#[trigger] calls[k]).call == e && name == calls[k].name;
        assert(substituted(e, calls) == ExprView::Hoisted(calls[k].name));
    }
}

proof fn lemma_substitution_replaces_each(es: Seq<ExprView>, calls: Seq<NamedCallView>)
    ensures
        replaces_each(substituted_each(es, calls), es, calls),
    decreases es,
{
    if es.len() > 0 {
        lemma_substitution_replaces_each(es.drop_last(), calls);
        substitution_only_replaces_calls(es.last(), calls);
        assert(substituted_each(es, calls).drop_last() =~= substituted_each(
            es.drop_last(),
            calls,
        ));
        assert(substituted_each(es, calls).last() == substituted(es.last(), calls));
    }
}

/// Of an expression in which none of the calls stands, substitution changes
/// nothing. A call itself gives way to a column that stands for it.
pub proof fn substitution_leaves_others_alone(e: ExprView, calls: Seq<NamedCallView>)
    ensures
        (forall|k: int| 0 <= k < calls.len() ==> !occurs((#[trigger] calls[k]).call, e))
            ==> substituted(e, calls) == e,
        forall|k: int|
            0 <= k < calls.len() && (#[trigger] calls[k]).call == e ==> substituted(e, calls)
                is Hoisted,
    decreases e,
{
    lemma_replacement(e, calls);
    if forall|k: int| 0 <= k < calls.len() ==> !occurs((#[trigger] calls[k]).call, e) {
        assert forall|k: int| 0 <= k < calls.len() implies (#[trigger] calls[k]).call != e by {
            assert(!occurs(calls[k].call, e));
        }
        lemma_substituted_parts(e, calls);
        match e {
            ExprView::Function { parts, .. } => {
                assert forall|k: int| 0 <= k < calls.len() implies !occurs_in(
                    (#[trigger] calls[k]).call,
                    parts,
                ) by {
                    assert(!occurs(calls[k].call, e));
                }
                lemma_substitution_leaves_alone(parts, calls);
            },
            ExprView::Other { parts, .. } => {
                assert forall|k: int| 0 <= k < calls.len() implies !occurs_in(
                    (#[trigger] calls[k]).call,
                    parts,
                ) by {
                    assert(!occurs(calls[k].call, e));
                }
                lemma_substitution_leaves_alone(parts, calls);
            },
            _ => {},
        }
    }
}

proof fn lemma_substitution_leaves_alone(es: Seq<ExprView>, calls: Seq<NamedCallView>)
    requires
        forall|k: int| 0 <= k < calls.len() ==> !occurs_in((#[trigger] calls[k]).call, es),
    ensures
        substituted_each(es, calls) == es,
    decreases es,
{
    if es.len() > 0 {
        let front = es.drop_last();
        assert forall|k: int| 0 <= k < calls.len() implies !occurs_in(
            (#[trigger] calls[k]).call,
            front,
        ) && !occurs(calls[k].call, es.last()) by {
            assert(!occurs_in(calls[k].call, es));
        }
        lemma_substitution_leaves_alone(front, calls);
        substitution_leaves_others_alone(es.last(), calls);
        assert(substituted_each(es, calls) =~= substituted_each(front, calls).push(
            substituted(es.last(), calls),
        ));
        assert(front.push(es.last()) =~= es);
    } else {
        assert(substituted_each(es, calls) =~= es);
    }
}

/// The items pass just these columns on, each as it is.
pub open spec fn passes(items: Seq<ItemView>, cs: Seq<ExprView>) -> bool {
    &&& items.len() == cs.len()
    &&& forall|i: int|
        0 <= i < cs.len() ==> (#[trigger] items[i]).expr == cs[i] && items[i].column == cs[i]
}

/// The plan `beneath` gives the columns of `input` and after them each of the calls
/// as a column under its name, and nothing else. Without calls it is `input`.
pub open spec fn computes(
    beneath: PlanView,
    input: PlanView,
    calls: Seq<NamedCallView>,
) -> bool {
    if calls.len() == 0 {
        beneath == input
    } else {
        let n = columns(input).len() as int;
        &&& beneath matches PlanView::Projection { items, input: i }
        &&& *i == input
        &&& items.len() == n + calls.len()
        &&& passes(items.take(n), columns(input))
        &&& forall|k: int|
            0 <= k < calls.len() ==> {
                &&& items[n + k].expr == (#[trigger] calls[k]).call
                &&& items[n + k].column == ExprView::Hoisted(calls[k].name)
            }
    }
}

/// These are calls that stand in the expressions, none twice, numbered under the
/// prefix.
pub open spec fn are_calls_of(
    calls: Seq<NamedCallView>,
    es: Seq<ExprView>,
    prefix: Seq<char>,
) -> bool {
    &&& forall|k: int|
        0 <= k < calls.len() ==> {
            &&& is_call((#[trigger] calls[k]).call)
            &&& occurs_in(calls[k].call, es)
            &&& calls[k].name == prefix + decimal(k as nat)
        }
    &&& forall|j: int, k: int|
        0 <= j < k < calls.len() ==> (#[trigger] calls[j]).call != (#[trigger] calls[k]).call
}

/// `after` evaluates what `before` did, with its calls read from columns.
pub open spec fn stands_for(
    after: ExprView,
    before: ExprView,
    calls: Seq<NamedCallView>,
) -> bool {
    replaces(after, before, calls) && !holds_call(after)
}

/// `r` is the sort with `calls` computed beneath: the same number of keys, in the
/// same directions, the same limit, and on top the columns of the input.
pub open spec fn sorts_over(
    keys: Seq<KeyView>,
    fetch: Option<usize>,
    input: PlanView,
    r: PlanView,
    calls: Seq<NamedCallView>,
) -> bool {
    &&& r matches PlanView::Projection { items, input: top }
    &&& passes(items, columns(input))
    &&& *top matches PlanView::Sort { keys: after, fetch: limit, input: beneath }
    &&& limit == fetch
    &&& after.len() == keys.len()
    &&& forall|i: int|
        0 <= i < keys.len() ==> {
            &&& (#[trigger] after[i]).ascending == keys[i].ascending
            &&& after[i].nulls_first == keys[i].nulls_first
            &&& stands_for(after[i].expr, keys[i].expr, calls)
        }
    &&& computes(*beneath, input, calls)
    &&& are_calls_of(calls, keys.map_values(|k: KeyView| k.expr), "__jev_hoist_"@)
}

/// Items that become the columns that they became, with their calls read from
/// columns.
pub open spec fn keep_columns(
    after: Seq<ItemView>,
    before: Seq<ItemView>,
    calls: Seq<NamedCallView>,
) -> bool {
    &&& after.len() == before.len()
    &&& forall|i: int|
        0 <= i < before.len() ==> {
            &&& (#[trigger] after[i]).column == before[i].column
            &&& stands_for(after[i].expr, before[i].expr, calls)
        }
}

/// `r` is the window with `calls` computed beneath: the same window expressions,
/// and on top the columns of the input and of the window.
pub open spec fn windows_over(
    items: Seq<ItemView>,
    input: PlanView,
    r: PlanView,
    calls: Seq<NamedCallView>,
) -> bool {
    &&& r matches PlanView::Projection { items: kept, input: top }
    &&& passes(kept, columns(input) + items.map_values(|i: ItemView| i.column))
    &&& *top matches PlanView::Window { items: after, input: beneath }
    &&& keep_columns(after, items, calls)
    &&& computes(*beneath, input, calls)
    &&& are_calls_of(calls, items.map_values(|i: ItemView| i.expr), "__jev_hoist_"@)
}

/// `r` is the aggregation with `calls` computed beneath: what grouped still groups,
/// and what was aggregated still is.
pub open spec fn aggregates_over(
    group: Seq<ItemView>,
    aggregates: Seq<ItemView>,
    input: PlanView,
    r: PlanView,
    calls: Seq<NamedCallView>,
) -> bool {
    &&& r matches PlanView::Aggregate { group: g, aggregates: a, input: beneath }
    &&& keep_columns(g, group, calls)
    &&& keep_columns(a, aggregates, calls)
    &&& computes(*beneath, input, calls)
    &&& are_calls_of(
        calls,
        group.map_values(|i: ItemView| i.expr) + aggregates.map_values(|i: ItemView| i.expr),
        "__jev_hoist_"@,
    )
}

/// `r` is the join with calls computed beneath on each side: the same equalities
/// and the same rest of the condition, all else as it was, and on top the columns
/// of the join.
pub open spec fn joins_over(
    join: JoinView,
    left: PlanView,
    right: PlanView,
    r: PlanView,
    on_the_left: Seq<NamedCallView>,
    on_the_right: Seq<NamedCallView>,
) -> bool {
    let calls = on_the_left + on_the_right;
    &&& r matches PlanView::Projection { items, input: top }
    &&& passes(items, join_columns(join, columns(left), columns(right)))
    &&& *top matches PlanView::Join { join: after, left: l, right: r }
    &&& after.options == join.options
    &&& after.mark == join.mark
    &&& after.left_supplies == join.left_supplies
    &&& after.right_supplies == join.right_supplies
    &&& after.on.len() == join.on.len()
    &&& forall|i: int|
        0 <= i < join.on.len() ==> {
            &&& stands_for((#[trigger] after.on[i]).0, join.on[i].0, calls)
            &&& stands_for(after.on[i].1, join.on[i].1, calls)
        }
    &&& after.filter is Some <==> join.filter is Some
    &&& join.filter is Some ==> stands_for(after.filter->0, join.filter->0, calls)
    &&& computes(*l, left, on_the_left)
    &&& computes(*r, right, on_the_right)
    &&& are_calls_of(on_the_left, condition(join), "__jev_hoist_l"@)
    &&& are_calls_of(on_the_right, condition(join), "__jev_hoist_r"@)
    &&& forall|k: int|
        0 <= k < on_the_left.len() ==> uses_only(
            (#[trigger] on_the_left[k]).call,
            join.left_supplies,
        )
    &&& forall|k: int|
        0 <= k < on_the_right.len() ==> {
            &&& uses_only((#[trigger] on_the_right[k]).call, join.right_supplies)
            &&& !uses_only(on_the_right[k].call, join.left_supplies)
        }
}

/// The condition of a join is both sides of each equality, and the rest if there
/// is one.
pub proof fn a_condition_has_all_its_expressions(join: JoinView)
    ensures
        condition(join).len() == 2 * join.on.len() + if join.filter is Some {
            1int
        } else {
            0int
        },
        forall|i: int|
            0 <= i < join.on.len() ==> condition(join)[2 * i] == (#[trigger] join.on[i]).0
                && condition(join)[2 * i + 1] == join.on[i].1,
        join.filter is Some ==> condition(join).last() == join.filter->0,
{
    lemma_sides(join.on);
}

proof fn lemma_sides(on: Seq<(ExprView, ExprView)>)
    ensures
        sides(on).len() == 2 * on.len(),
        forall|i: int|
            0 <= i < on.len() ==> sides(on)[2 * i] == (#[trigger] on[i]).0 && sides(on)[2 * i + 1]
                == on[i].1,
    decreases on.len(),
{
    if on.len() > 0 {
        let front = on.drop_last();
        lemma_sides(front);
        assert forall|i: int| 0 <= i < on.len() implies sides(on)[2 * i] == (#[trigger] on[i]).0
            && sides(on)[2 * i + 1] == on[i].1 by {
            if i < front.len() {
                assert(front[i] == on[i]);
            }
        }
    }
}

proof fn lemma_distinct(calls: Seq<ExprView>, e: ExprView)
    requires
        calls.no_duplicates(),
    ensures
        collect(calls, e).no_duplicates(),
    decreases e,
{
    if !(is_jev_call(e) && !calls.contains(e)) {
        match e {
            ExprView::Function { parts, .. } => lemma_distinct_in(calls, parts),
            ExprView::Other { parts, .. } => lemma_distinct_in(calls, parts),
            _ => {},
        }
    }
}

proof fn lemma_distinct_in(calls: Seq<ExprView>, es: Seq<ExprView>)
    requires
        calls.no_duplicates(),
    ensures
        collect_each(calls, es).no_duplicates(),
    decreases es,
{
    if es.len() > 0 {
        lemma_distinct_in(calls, es.drop_last());
        lemma_distinct(collect_each(calls, es.drop_last()), es.last());
    }
}

proof fn lemma_numbered(calls: Seq<ExprView>, es: Seq<ExprView>, prefix: Seq<char>)
    requires
        calls.no_duplicates(),
        forall|k: int|
            0 <= k < calls.len() ==> collect_each(Seq::empty(), es).contains(#[trigger] calls[k]),
    ensures
        are_calls_of(numbered(calls, prefix), es, prefix),
{
    let named = numbered(calls, prefix);
    assert forall|k: int| 0 <= k < named.len() implies {
        &&& is_call((#[trigger] named[k]).call)
        &&& occurs_in(named[k].call, es)
        &&& named[k].name == prefix + decimal(k as nat)
    } by {
        every_call_is_collected(Seq::empty(), es, calls[k]);
    }
}

proof fn lemma_hoisted(es: Seq<ExprView>)
    ensures
        are_calls_of(hoisted(es), es, "__jev_hoist_"@),
        !any_holds_call(es) ==> hoisted(es).len() == 0,
{
    let all = collect_each(Seq::empty(), es);
    lemma_distinct_in(Seq::empty(), es);
    lemma_numbered(all, es, "__jev_hoist_"@);
    calls_are_found_in_every_expression(es);
    if hoisted(es).len() > 0 {
        let c = all[0];
        every_call_is_collected(Seq::empty(), es, c);
        assert(is_call(c) && occurs_in(c, es));
    }
}

proof fn lemma_computes(input: PlanView, calls: Seq<NamedCallView>)
    ensures
        computes(projected(input, calls), input, calls),
{
    if calls.len() > 0 {
        let n = columns(input).len() as int;
        match projected(input, calls) {
            PlanView::Projection { items, .. } => {
                assert forall|i: int| 0 <= i < n implies (#[trigger] items.take(n)[i]).expr
                    == columns(input)[i] && items.take(n)[i].column == columns(input)[i] by {}
                assert forall|k: int| 0 <= k < calls.len() implies {
                    &&& items[n + k].expr == (#[trigger] calls[k]).call
                    &&& items[n + k].column == ExprView::Hoisted(calls[k].name)
                } by {}
            },
            _ => {},
        }
    }
}

/// An expression without a call stays without one where nothing is replaced.
proof fn lemma_nothing_replaced(e: ExprView, calls: Seq<NamedCallView>)
    requires
        calls.len() == 0,
    ensures
        substituted(e, calls) == e,
{
    substitution_leaves_others_alone(e, calls);
}

/// A sort keeps the directions of its keys, its limit and its columns when its
/// calls move beneath.
pub proof fn a_sort_is_rebuilt_over_its_calls(
    keys: Seq<KeyView>,
    fetch: Option<usize>,
    input: PlanView,
)
    ensures
        exists|calls: Seq<NamedCallView>| #[trigger]
            sorts_over(keys, fetch, input, hoisted_sort(keys, fetch, input), calls),
{
    let es = key_exprs(keys);
    let calls = hoisted(es);
    let r = hoisted_sort(keys, fetch, input);
    let p = PlanView::Sort { keys, fetch, input: Box::new(input) };
    lemma_hoisted(es);
    lemma_computes(input, calls);
    lemma_any_holds_call(es);
    assert(es == keys.map_values(|k: KeyView| k.expr));
    if any_holds_call(es) {
        assert(is_rebuilt(p));
        hoisting_leaves_no_call(p);
    }
    match r {
        PlanView::Projection { input: top, .. } => match *top {
            PlanView::Sort { keys: after, .. } => {
                lemma_any_holds_call(key_exprs(after));
                assert forall|i: int| 0 <= i < keys.len() implies stands_for(
                    (#[trigger] after[i]).expr,
                    keys[i].expr,
                    calls,
                ) by {
                    substitution_only_replaces_calls(keys[i].expr, calls);
                    if any_holds_call(es) {
                        assert(!holds_call(key_exprs(after)[i]));
                    } else {
                        assert(!holds_call(es[i]));
                        lemma_nothing_replaced(keys[i].expr, calls);
                    }
                }
            },
            _ => {},
        },
        _ => {},
    }
    assert(sorts_over(keys, fetch, input, r, calls));
}

/// A window keeps its expressions and its columns when its calls move beneath.
pub proof fn a_window_is_rebuilt_over_its_calls(items: Seq<ItemView>, input: PlanView)
    ensures
        exists|calls: Seq<NamedCallView>| #[trigger]
            windows_over(items, input, hoisted_window(items, input), calls),
{
    let es = item_exprs(items);
    let calls = hoisted(es);
    let r = hoisted_window(items, input);
    let p = PlanView::Window { items, input: Box::new(input) };
    lemma_hoisted(es);
    lemma_computes(input, calls);
    lemma_any_holds_call(es);
    assert(es == items.map_values(|i: ItemView| i.expr));
    if any_holds_call(es) {
        assert(is_rebuilt(p));
        hoisting_leaves_no_call(p);
    }
    match r {
        PlanView::Projection { input: top, .. } => match *top {
            PlanView::Window { items: after, .. } => {
                lemma_any_holds_call(item_exprs(after));
                assert forall|i: int| 0 <= i < items.len() implies stands_for(
                    (#[trigger] after[i]).expr,
                    items[i].expr,
                    calls,
                ) by {
                    substitution_only_replaces_calls(items[i].expr, calls);
                    if any_holds_call(es) {
                        assert(!holds_call(item_exprs(after)[i]));
                    } else {
                        assert(!holds_call(es[i]));
                        lemma_nothing_replaced(items[i].expr, calls);
                    }
                }
            },
            _ => {},
        },
        _ => {},
    }
    assert(windows_over(items, input, r, calls));
}

/// An aggregation keeps what it groups by and what it aggregates when its calls
/// move beneath.
pub proof fn an_aggregation_is_rebuilt_over_its_calls(
    group: Seq<ItemView>,
    aggregates: Seq<ItemView>,
    input: PlanView,
)
    ensures
        exists|calls: Seq<NamedCallView>| #[trigger]
            aggregates_over(
                group,
                aggregates,
                input,
                hoisted_aggregate(group, aggregates, input),
                calls,
            ),
{
    let es = item_exprs(group) + item_exprs(aggregates);
    let calls = hoisted(es);
    let r = hoisted_aggregate(group, aggregates, input);
    let p = PlanView::Aggregate { group, aggregates, input: Box::new(input) };
    let n = group.len() as int;
    lemma_hoisted(es);
    lemma_computes(input, calls);
    lemma_any_holds_call(es);
    assert(es == group.map_values(|i: ItemView| i.expr) + aggregates.map_values(
        |i: ItemView| i.expr,
    ));
    if any_holds_call(es) {
        assert(is_rebuilt(p));
        hoisting_leaves_no_call(p);
    }
    match r {
        PlanView::Aggregate { group: g, aggregates: a, .. } => {
            let after = item_exprs(g) + item_exprs(a);
            lemma_any_holds_call(after);
            assert forall|i: int| 0 <= i < group.len() implies stands_for(
                (#[trigger] g[i]).expr,
                group[i].expr,
                calls,
            ) by {
                substitution_only_replaces_calls(group[i].expr, calls);
                if any_holds_call(es) {
                    assert(!holds_call(after[i]));
                } else {
                    assert(!holds_call(es[i]));
                    lemma_nothing_replaced(group[i].expr, calls);
                }
            }
            assert forall|i: int| 0 <= i < aggregates.len() implies stands_for(
                (#[trigger] a[i]).expr,
                aggregates[i].expr,
                calls,
            ) by {
                substitution_only_replaces_calls(aggregates[i].expr, calls);
                if any_holds_call(es) {
                    assert(!holds_call(after[n + i]));
                } else {
                    assert(!holds_call(es[n + i]));
                    lemma_nothing_replaced(aggregates[i].expr, calls);
                }
            }
        },
        _ => {},
    }
    assert(aggregates_over(group, aggregates, input, r, calls));
}

proof fn lemma_filtered(all: Seq<ExprView>, keep: spec_fn(ExprView) -> bool)
    requires
        all.no_duplicates(),
    ensures
        all.filter(keep).no_duplicates(),
        forall|k: int|
            0 <= k < all.filter(keep).len() ==> all.contains(#[trigger] all.filter(keep)[k])
                && keep(all.filter(keep)[k]),
    decreases all.len(),
{
    reveal(Seq::filter);
    if all.len() > 0 {
        let front = all.drop_last();
        let some = front.filter(keep);
        lemma_filtered(front, keep);
        assert forall|k: int| 0 <= k < all.filter(keep).len() implies all.contains(
            #[trigger] all.filter(keep)[k],
        ) && keep(all.filter(keep)[k]) by {
            if k < some.len() {
                assert(front.contains(some[k]));
                let i = front.index_of(some[k]);
                assert(all[i] == some[k]);
            } else {
                assert(all[all.len() - 1] == all.last());
            }
        }
        assert forall|k: int| 0 <= k < some.len() implies #[trigger] some[k] != all.last() by {
            assert(front.contains(some[k]));
            let i = front.index_of(some[k]);
            assert(all[i] == some[k]);
        }
    }
}

/// A join keeps its equalities, the rest of its condition, all of its options and
/// its columns when its calls move beneath, each to the side that has its columns.
pub proof fn a_join_is_rebuilt_over_its_calls(join: JoinView, left: PlanView, right: PlanView)
    requires
        one_sided(join),
    ensures
        exists|l: Seq<NamedCallView>, r: Seq<NamedCallView>| #[trigger]
            joins_over(join, left, right, hoisted_join(join, left, right), l, r),
{
    let es = condition(join);
    let all = join_calls(join);
    let to_left = |c: ExprView| on_left(join, c);
    let to_right = |c: ExprView| on_right(join, c);
    let ls = left_hoisted(join);
    let rs = right_hoisted(join);
    let calls = ls + rs;
    let r = hoisted_join(join, left, right);
    let p = PlanView::Join { join, left: Box::new(left), right: Box::new(right) };
    lemma_distinct_in(Seq::empty(), es);
    lemma_filtered(all, to_left);
    lemma_filtered(all, to_right);
    lemma_numbered(all.filter(to_left), es, "__jev_hoist_l"@);
    lemma_numbered(all.filter(to_right), es, "__jev_hoist_r"@);
    lemma_computes(left, ls);
    lemma_computes(right, rs);
    lemma_any_holds_call(es);
    a_condition_has_all_its_expressions(join);
    if any_holds_call(es) {
        assert(is_rebuilt(p));
        hoisting_leaves_no_call(p);
    } else {
        calls_are_found_in_every_expression(es);
        assert(calls.len() == 0) by {
            if calls.len() > 0 {
                let c = calls[0].call;
                if ls.len() > 0 {
                    assert(calls[0] == ls[0]);
                } else {
                    assert(calls[0] == rs[0]);
                }
                assert(is_call(c) && occurs_in(c, es));
            }
        }
    }
    match r {
        PlanView::Projection { input: top, .. } => match *top {
            PlanView::Join { join: after, .. } => {
                let now = condition(after);
                a_condition_has_all_its_expressions(after);
                lemma_any_holds_call(now);
                assert forall|i: int| 0 <= i < join.on.len() implies {
                    &&& stands_for((#[trigger] after.on[i]).0, join.on[i].0, calls)
                    &&& stands_for(after.on[i].1, join.on[i].1, calls)
                } by {
                    substitution_only_replaces_calls(join.on[i].0, calls);
                    substitution_only_replaces_calls(join.on[i].1, calls);
                    if any_holds_call(es) {
                        assert(!holds_call(now[2 * i]));
                        assert(!holds_call(now[2 * i + 1]));
                    } else {
                        assert(!holds_call(es[2 * i]));
                        assert(!holds_call(es[2 * i + 1]));
                        lemma_nothing_replaced(join.on[i].0, calls);
                        lemma_nothing_replaced(join.on[i].1, calls);
                    }
                }
                if join.filter is Some {
                    let f = join.filter->0;
                    substitution_only_replaces_calls(f, calls);
                    if any_holds_call(es) {
                        assert(!holds_call(now[now.len() - 1]));
                    } else {
                        assert(!holds_call(es[es.len() - 1]));
                        lemma_nothing_replaced(f, calls);
                    }
                }
            },
            _ => {},
        },
        _ => {},
    }
    assert(joins_over(join, left, right, r, ls, rs));
}

/// Plans are analyzed one by one, as many as there are and in their order, and the
/// analysis fails if it fails for one of them.
pub proof fn plans_are_analyzed_one_by_one(ps: Seq<PlanView>)
    ensures
        match analyzed_each(ps) {
            Some(rs) => rs.len() == ps.len() && forall|i: int|
                0 <= i < ps.len() ==> analyzed(#[trigger] ps[i]) == Some(rs[i]),
            None => exists|i: int| 0 <= i < ps.len() && analyzed(#[trigger] ps[i]) is None,
        },
    decreases ps.len(),
{
    if ps.len() > 0 {
        let front = ps.drop_last();
        let n = ps.len() - 1;
        plans_are_analyzed_one_by_one(front);
        assert(ps[n] == ps.last());
        match analyzed_each(front) {
            Some(rs) => {
                assert forall|i: int| 0 <= i < n implies analyzed(#[trigger] ps[i]) == Some(
                    rs[i],
                ) by {
                    assert(ps[i] == front[i]);
                }
            },
            None => {
                let i = choose|i: int|
                    0 <= i < front.len() && analyzed(#[trigger] front[i]) is None;
                assert(analyzed(ps[i]) is None);
            },
        }
    }
}

/// `r` is what becomes of a sort over `input`.
pub open spec fn sort_becomes(
    keys: Seq<KeyView>,
    fetch: Option<usize>,
    input: PlanView,
    r: PlanView,
) -> bool {
    if any_holds_call(keys.map_values(|k: KeyView| k.expr)) {
        exists|calls: Seq<NamedCallView>| #[trigger] sorts_over(keys, fetch, input, r, calls)
    } else {
        r == PlanView::Sort { keys, fetch, input: Box::new(input) }
    }
}

/// `r` is what becomes of a window over `input`.
pub open spec fn window_becomes(items: Seq<ItemView>, input: PlanView, r: PlanView) -> bool {
    if any_holds_call(items.map_values(|i: ItemView| i.expr)) {
        exists|calls: Seq<NamedCallView>| #[trigger] windows_over(items, input, r, calls)
    } else {
        r == PlanView::Window { items, input: Box::new(input) }
    }
}

/// `r` is what becomes of an aggregation over `input`.
pub open spec fn aggregation_becomes(
    group: Seq<ItemView>,
    aggregates: Seq<ItemView>,
    input: PlanView,
    r: PlanView,
) -> bool {
    if any_holds_call(group.map_values(|i: ItemView| i.expr)) || any_holds_call(
        aggregates.map_values(|i: ItemView| i.expr),
    ) {
        exists|calls: Seq<NamedCallView>| #[trigger]
            aggregates_over(group, aggregates, input, r, calls)
    } else {
        r == PlanView::Aggregate { group, aggregates, input: Box::new(input) }
    }
}

/// `r` is what becomes of a join of `left` and `right`.
pub open spec fn join_becomes(
    join: JoinView,
    left: PlanView,
    right: PlanView,
    r: PlanView,
) -> bool {
    if any_holds_call(condition(join)) {
        exists|ls: Seq<NamedCallView>, rs: Seq<NamedCallView>| #[trigger]
            joins_over(join, left, right, r, ls, rs)
    } else {
        r == PlanView::Join { join, left: Box::new(left), right: Box::new(right) }
    }
}

/// The analysis changes a node only by moving its calls beneath: every node stays
/// where it is, over what becomes of its inputs, and so do the subqueries. It fails
/// if it fails beneath, or on a join with a call over both sides.
pub proof fn the_analysis_keeps_every_node(p: PlanView)
    ensures
        match p {
            PlanView::Projection { items, input } => match analyzed(*input) {
                Some(i) => analyzed(p) == Some(PlanView::Projection { items, input: Box::new(i) }),
                None => analyzed(p) is None,
            },
            PlanView::Sort { keys, fetch, input } => match analyzed(*input) {
                Some(i) => analyzed(p) is Some && sort_becomes(keys, fetch, i, analyzed(p)->0),
                None => analyzed(p) is None,
            },
            PlanView::Window { items, input } => match analyzed(*input) {
                Some(i) => analyzed(p) is Some && window_becomes(items, i, analyzed(p)->0),
                None => analyzed(p) is None,
            },
            PlanView::Aggregate { group, aggregates, input } => match analyzed(*input) {
                Some(i) => analyzed(p) is Some && aggregation_becomes(
                    group,
                    aggregates,
                    i,
                    analyzed(p)->0,
                ),
                None => analyzed(p) is None,
            },
            PlanView::Join { join, left, right } => match (analyzed(*left), analyzed(*right)) {
                (Some(l), Some(r)) => if any_holds_call(condition(join)) && !one_sided(join) {
                    analyzed(p) is None
                } else {
                    analyzed(p) is Some && join_becomes(join, l, r, analyzed(p)->0)
                },
                _ => analyzed(p) is None,
            },
            PlanView::Subqueries { plan, subqueries } => match (
                analyzed(*plan),
                analyzed_each(subqueries),
            ) {
                (Some(r), Some(rs)) => analyzed(p) == Some(
                    PlanView::Subqueries { plan: Box::new(r), subqueries: rs },
                ),
                _ => analyzed(p) is None,
            },
            PlanView::Other { id, columns, inputs } => match analyzed_each(inputs) {
                Some(rs) => analyzed(p) == Some(PlanView::Other { id, columns, inputs: rs }),
                None => analyzed(p) is None,
            },
        },
{
    match p {
        PlanView::Sort { keys, fetch, input } => if analyzed(*input) is Some {
            a_sort_is_rebuilt_over_its_calls(keys, fetch, analyzed(*input)->0);
            assert(key_exprs(keys) == keys.map_values(|k: KeyView| k.expr));
        },
        PlanView::Window { items, input } => if analyzed(*input) is Some {
            a_window_is_rebuilt_over_its_calls(items, analyzed(*input)->0);
            assert(item_exprs(items) == items.map_values(|i: ItemView| i.expr));
        },
        PlanView::Aggregate { group, aggregates, input } => if analyzed(*input) is Some {
            an_aggregation_is_rebuilt_over_its_calls(group, aggregates, analyzed(*input)->0);
            lemma_any_of_both(item_exprs(group), item_exprs(aggregates));
            assert(item_exprs(group) == group.map_values(|i: ItemView| i.expr));
            assert(item_exprs(aggregates) == aggregates.map_values(|i: ItemView| i.expr));
        },
        PlanView::Join { join, left, right } => if analyzed(*left) is Some && analyzed(
            *right,
        ) is Some && one_sided(join) {
            a_join_is_rebuilt_over_its_calls(join, analyzed(*left)->0, analyzed(*right)->0);
        },
        _ => {},
    }
}

proof fn lemma_any_of_both(a: Seq<ExprView>, b: Seq<ExprView>)
    ensures
        any_holds_call(a + b) <==> any_holds_call(a) || any_holds_call(b),
{
    let both = a + b;
    lemma_any_holds_call(a);
    lemma_any_holds_call(b);
    lemma_any_holds_call(both);
    if any_holds_call(a) {
        let i = choose|i: int| 0 <= i < a.len() && #[trigger] holds_call(a[i]);
        assert(holds_call(both[i]));
    }
    if any_holds_call(b) {
        let i = choose|i: int| 0 <= i < b.len() && #[trigger] holds_call(b[i]);
        assert(holds_call(both[a.len() + i]));
    }
    if any_holds_call(both) {
        let i = choose|i: int| 0 <= i < both.len() && #[trigger] holds_call(both[i]);
        if i < a.len() {
            assert(holds_call(a[i]));
        } else {
            assert(holds_call(b[i - a.len()]));
        }
    }
}

/// A node whose expressions hold no call, or one that can be planned with calls,
/// stays as it is, and any other is rebuilt, unless it is a join with a call over
/// both sides.
pub proof fn a_node_without_a_call_stays(p: PlanView)
    ensures
        match p {
            PlanView::Sort { keys, fetch, input } => hoisted_node(p) is Some && sort_becomes(
                keys,
                fetch,
                *input,
                hoisted_node(p)->0,
            ),
            PlanView::Window { items, input } => hoisted_node(p) is Some && window_becomes(
                items,
                *input,
                hoisted_node(p)->0,
            ),
            PlanView::Aggregate { group, aggregates, input } => hoisted_node(p) is Some
                && aggregation_becomes(group, aggregates, *input, hoisted_node(p)->0),
            PlanView::Join { join, left, right } => if any_holds_call(condition(join))
                && !one_sided(join) {
                hoisted_node(p) is None
            } else {
                hoisted_node(p) is Some && join_becomes(join, *left, *right, hoisted_node(p)->0)
            },
            _ => hoisted_node(p) == Some(p),
        },
{
    match p {
        PlanView::Sort { keys, fetch, input } => {
            a_sort_is_rebuilt_over_its_calls(keys, fetch, *input);
            assert(key_exprs(keys) == keys.map_values(|k: KeyView| k.expr));
        },
        PlanView::Window { items, input } => {
            a_window_is_rebuilt_over_its_calls(items, *input);
            assert(item_exprs(items) == items.map_values(|i: ItemView| i.expr));
        },
        PlanView::Aggregate { group, aggregates, input } => {
            an_aggregation_is_rebuilt_over_its_calls(group, aggregates, *input);
            lemma_any_of_both(item_exprs(group), item_exprs(aggregates));
            assert(item_exprs(group) == group.map_values(|i: ItemView| i.expr));
            assert(item_exprs(aggregates) == aggregates.map_values(|i: ItemView| i.expr));
        },
        PlanView::Join { join, left, right } => if one_sided(join) {
            a_join_is_rebuilt_over_its_calls(join, *left, *right);
        },
        _ => {},
    }
}

/// The columns of each kind of node. A semi or anti join gives those of one side, a
/// mark join those and its mark, and any other join those of the left side and then
/// those of the right.
pub proof fn columns_are_those_of_the_node(p: PlanView)
    ensures
        match p {
            PlanView::Projection { items, .. } => columns(p) == Seq::new(
                items.len(),
                |i: int| items[i].column,
            ),
            PlanView::Sort { input, .. } => columns(p) == columns(*input),
            PlanView::Window { items, input } => columns(p) == columns(*input) + Seq::new(
                items.len(),
                |i: int| items[i].column,
            ),
            PlanView::Aggregate { group, aggregates, .. } => columns(p) == Seq::new(
                group.len(),
                |i: int| group[i].column,
            ) + Seq::new(aggregates.len(), |i: int| aggregates[i].column),
            PlanView::Join { join, left, right } => {
                let l = columns(*left);
                let r = columns(*right);
                let kind = join.options.join_type;
                let marked = join.mark is Some;
                columns(p) == (if kind is LeftSemi || kind is LeftAnti || kind is LeftMark
                    && !marked {
                    l
                } else if kind is RightSemi || kind is RightAnti || kind is RightMark && !marked {
                    r
                } else if kind is LeftMark {
                    l.push(join.mark->0)
                } else if kind is RightMark {
                    r.push(join.mark->0)
                } else {
                    l + r
                })
            },
            PlanView::Subqueries { plan, .. } => columns(p) == columns(*plan),
            PlanView::Other { columns: cs, .. } => columns(p) == cs,
        },
{
    match p {
        PlanView::Projection { items, .. } => {
            assert(columns(p) =~= Seq::new(items.len(), |i: int| items[i].column));
        },
        PlanView::Window { items, input } => {
            assert(columns(p) =~= columns(*input) + Seq::new(
                items.len(),
                |i: int| items[i].column,
            ));
        },
        PlanView::Aggregate { group, aggregates, .. } => {
            assert(columns(p) =~= Seq::new(group.len(), |i: int| group[i].column) + Seq::new(
                aggregates.len(),
                |i: int| aggregates[i].column,
            ));
        },
        PlanView::Join { join, left, right } => {
            let l = columns(*left);
            let r = columns(*right);
            if join.mark is Some {
                assert(l + seq![join.mark->0] =~= l.push(join.mark->0));
                assert(r + seq![join.mark->0] =~= r.push(join.mark->0));
            } else {
                assert(l + Seq::<ExprView>::empty() =~= l);
                assert(r + Seq::<ExprView>::empty() =~= r);
            }
        },
        _ => {},
    }
}

/// The guard leaves a plan alone exactly if a call stands in an expression of one
/// of its nodes. For any other plan it does what the wrapped rule asks for.
pub proof fn plans_with_calls_are_left_alone(
    nodes: Seq<Vec<Expr>>,
    order: Option<ApplyOrder>,
)
    ensures
        guard_action(nodes, order) is Skip <==> exists|i: int, c: ExprView|
            {
                &&& 0 <= i < nodes.len()
                &&& is_call(c)
                &&& #[trigger] occurs_in(c, trees(nodes[i]@))
            },
        !(guard_action(nodes, order) is Skip) ==> match order {
            Some(ApplyOrder::TopDown) => guard_action(nodes, order) is TopDown,
            Some(ApplyOrder::BottomUp) => guard_action(nodes, order) is BottomUp,
            None => guard_action(nodes, order) is Whole,
        },
{
    if plan_holds_call(nodes) {
        let i = choose|i: int|
            0 <= i < nodes.len() && any_holds_call(trees((#[trigger] nodes[i])@));
        calls_are_found_in_every_expression(trees(nodes[i]@));
        let c = choose|c: ExprView| is_call(c) && #[trigger] occurs_in(c, trees(nodes[i]@));
        assert(occurs_in(c, trees(nodes[i]@)));
    }
    if exists|i: int, c: ExprView|
        {
            &&& 0 <= i < nodes.len()
            &&& is_call(c)
            &&& #[trigger] occurs_in(c, trees(nodes[i]@))
        } {
        let (i, c) = choose|i: int, c: ExprView|
            {
                &&& 0 <= i < nodes.len()
                &&& is_call(c)
                &&& #[trigger] occurs_in(c, trees(nodes[i]@))
            };
        assert(occurs_in(c, trees(nodes[i]@)));
        calls_are_found_in_every_expression(trees(nodes[i]@));
        assert(any_holds_call(trees(nodes[i]@)));
    }
}

/// Just the two rules that move expressions toward the leaves are wrapped.
pub proof fn two_rules_are_wrapped(rule: Seq<char>)
    ensures
        guarded(rule) <==> rule == "extract_leaf_expressions"@ || rule
            == "push_down_leaf_projections"@,
{
}

/// What comes of the analysis is the plan that it makes, or that a call stands over
/// both sides of a join.
pub proof fn the_analysis_comes_out_as_it_is_made(
    r: Result<Plan, PlanError>,
    made: Option<PlanView>,
)
    requires
        analysis_outcome(r, made),
    ensures
        r is Ok <==> made is Some,
        r matches Ok(plan) ==> made == Some(plan@),
        r matches Err(e) ==> e@ is TwoSidedCall,
{
}

/// A new call is collected whole. From any other expression, and from a call that is
/// known, the calls of its parts are collected in turn.
pub proof fn calls_are_collected_part_by_part(calls: Seq<ExprView>, e: ExprView)
    ensures
        is_call(e) && !calls.contains(e) ==> collect(calls, e) == calls.push(e),
        !(is_call(e) && !calls.contains(e)) ==> (match e {
            ExprView::Function { parts, .. } => collect(calls, e) == collect_each(calls, parts),
            ExprView::Other { parts, .. } => collect(calls, e) == collect_each(calls, parts),
            _ => collect(calls, e) == calls,
        }),
{
}

/// The calls are computed in the order in which they are collected, on each side of
/// a join those that belong there.
pub proof fn calls_are_computed_in_order(es: Seq<ExprView>, join: JoinView)
    ensures
        hoisted(es).map_values(|c: NamedCallView| c.call) == collect_each(Seq::empty(), es),
        left_hoisted(join).map_values(|c: NamedCallView| c.call) == collect_each(
            Seq::empty(),
            condition(join),
        ).filter(|c: ExprView| uses_only(c, join.left_supplies)),
        right_hoisted(join).map_values(|c: NamedCallView| c.call) == collect_each(
            Seq::empty(),
            condition(join),
        ).filter(
            |c: ExprView| !uses_only(c, join.left_supplies) && uses_only(c, join.right_supplies),
        ),
{
    let all = join_calls(join);
    let to_left = |c: ExprView| on_left(join, c);
    let to_right = |c: ExprView| on_right(join, c);
    assert(to_left =~= |c: ExprView| uses_only(c, join.left_supplies));
    assert(to_right =~= |c: ExprView|
        !uses_only(c, join.left_supplies) && uses_only(c, join.right_supplies));
    assert(hoisted(es).map_values(|c: NamedCallView| c.call) =~= collect_each(Seq::empty(), es));
    assert(left_hoisted(join).map_values(|c: NamedCallView| c.call) =~= all.filter(to_left));
    assert(right_hoisted(join).map_values(|c: NamedCallView| c.call) =~= all.filter(to_right));
}

/// A call that several columns hold is read from the first of them.
pub proof fn a_call_is_read_from_its_first_column(e: ExprView, calls: Seq<NamedCallView>, k: int)
    requires
        0 <= k < calls.len(),
        calls[k].call == e,
        forall|j: int| 0 <= j < k ==> (#[trigger] calls[j]).call != e,
    ensures
        substituted(e, calls) == ExprView::Hoisted(calls[k].name),
{
    lemma_first_replacement(e, calls, k);
}

proof fn lemma_first_replacement(e: ExprView, calls: Seq<NamedCallView>, k: int)
    requires
        0 <= k < calls.len(),
        calls[k].call == e,
        forall|j: int| 0 <= j < k ==> (#[trigger] calls[j]).call != e,
    ensures
        replacement(e, calls) == Some(calls[k].name),
    decreases calls.len(),
{
    let front = calls.drop_last();
    lemma_replacement(e, front);
    if k < front.len() {
        lemma_first_replacement(e, front, k);
    } else if replacement(e, front) is Some {
        let name = replacement(e, front)->0;
        let j = choose|j: int|
            0 <= j < front.len() && (#[trigger] front[j]).call == e && name == front[j].name;
        assert(calls[j].call == e);
    }
}

} // verus!
