//! Plan rules: hoisting calls out of nodes where they cannot be planned, keeping
//! inference below cheap filters, and evaluating a repeated call once.
use datafusion_jev::error::Problem;
use datafusion_jev::expr::{is_jev, same, Expr};
use datafusion_jev::names::INTERNAL_FUNCTION;
use datafusion_jev::optimizer::{
    is_jev_expr, AsyncExpr, AsyncNode, Conjunct, DeduplicateJev, Filter, FilterBeforeJev, Settings,
};
use datafusion_jev::plan::{
    schema, Item, Join, JoinConstraint, JoinOptions, JoinType, NullEquality, Plan, SortKey,
};
use datafusion_jev::planner::{
    belongs_to, collect_calls, contains_jev, plan_contains_jev, restored_name, ApplyOrder,
    GuardAction, HoistJev, LeafPushdownGuard,
};

const BODY: usize = 1;

fn jev(column: usize) -> Expr {
    Expr::Function {
        name: INTERNAL_FUNCTION.to_owned(),
        shape: 0,
        parts: vec![Expr::Column(column)],
    }
}

fn function(name: &str, parts: Vec<Expr>) -> Expr {
    Expr::Function { name: name.to_owned(), shape: 7, parts }
}

fn other(parts: Vec<Expr>) -> Expr {
    Expr::Other { shape: 3, parts }
}

fn hoisted(e: &Expr) -> &str {
    match e {
        Expr::Hoisted(name) => name,
        other => panic!("{other:?}"),
    }
}

/// An input with these columns.
fn table(id: usize, columns: &[usize]) -> Plan {
    Plan::Other { id, columns: columns.iter().map(|c| Expr::Column(*c)).collect(), inputs: vec![] }
}

fn item(expr: Expr, column: usize) -> Item {
    Item { expr, column: Expr::Column(column) }
}

fn key(expr: Expr) -> SortKey {
    SortKey { expr, ascending: false, nulls_first: true }
}

fn analyzed(plan: Plan) -> Plan {
    HoistJev.analyze(plan).unwrap()
}

/// How each column is known.
fn shown(columns: &[Expr]) -> Vec<String> {
    columns
        .iter()
        .map(|c| match c {
            Expr::Column(n) => n.to_string(),
            Expr::Hoisted(name) => name.clone(),
            other => panic!("{other:?}"),
        })
        .collect()
}

/// The projection on top, which passes these columns on, and what is beneath.
fn kept(plan: Plan, columns: &[&str]) -> Plan {
    assert_eq!(shown(&schema(&plan)), columns);
    match plan {
        Plan::Projection { items, input } => {
            assert!(items.iter().all(|i| same(&i.expr, &i.column)));
            *input
        }
        other => panic!("{other:?}"),
    }
}

/// A projection of columns and calls, and the names of its columns.
fn projection(plan: &Plan) -> (&[Item], Vec<String>) {
    match plan {
        Plan::Projection { items, .. } => (items, shown(&schema(plan))),
        other => panic!("{other:?}"),
    }
}

#[test]
fn order_by_prompt_jev_is_hoisted_and_planned() {
    let sort = Plan::Sort {
        keys: vec![key(jev(BODY)), key(Expr::Column(0))],
        fetch: Some(2),
        input: Box::new(table(0, &[0, 1])),
    };
    match kept(analyzed(sort), &["0", "1"]) {
        Plan::Sort { keys, fetch, input } => {
            assert_eq!(hoisted(&keys[0].expr), "__jev_hoist_0");
            assert!(!keys[0].ascending && keys[0].nulls_first);
            assert!(same(&keys[1].expr, &Expr::Column(0)));
            assert_eq!(fetch, Some(2));
            let (items, names) = projection(&input);
            assert_eq!(names, ["0", "1", "__jev_hoist_0"]);
            assert!(same(&items[2].expr, &jev(BODY)));
        }
        other => panic!("{other:?}"),
    }
}

#[test]
fn window_over_prompt_jev_is_hoisted_and_planned() {
    // The same call twice and another one: two columns beneath.
    let window = Plan::Window {
        items: vec![
            item(function("rank", vec![jev(BODY)]), 8),
            item(other(vec![jev(BODY), function("abs", vec![jev(0)])]), 9),
        ],
        input: Box::new(table(0, &[0, 1])),
    };
    match kept(analyzed(window), &["0", "1", "8", "9"]) {
        Plan::Window { items, input } => {
            assert!(items.iter().all(|i| !contains_jev(&i.expr)));
            assert!(same(&items[0].column, &Expr::Column(8)));
            match &items[1].expr {
                Expr::Other { shape, parts } => {
                    assert_eq!(*shape, 3);
                    assert_eq!(hoisted(&parts[0]), "__jev_hoist_0");
                    assert!(same(
                        &parts[1],
                        &function("abs", vec![Expr::Hoisted("__jev_hoist_1".to_owned())])
                    ));
                }
                other => panic!("{other:?}"),
            }
            let (_, names) = projection(&input);
            assert_eq!(names, ["0", "1", "__jev_hoist_0", "__jev_hoist_1"]);
        }
        other => panic!("{other:?}"),
    }
}

#[test]
fn group_by_prompt_jev_is_planned() {
    let agg = Plan::Aggregate {
        group: vec![item(function("round", vec![jev(BODY)]), 5)],
        aggregates: vec![
            item(function("max", vec![jev(BODY)]), 6),
            item(function("sum", vec![jev(2)]), 7),
        ],
        input: Box::new(table(0, &[0, 1, 2])),
    };
    let plan = analyzed(agg);
    assert_eq!(shown(&schema(&plan)), ["5", "6", "7"]);
    match plan {
        Plan::Aggregate { group, aggregates, input } => {
            assert!(group.iter().chain(&aggregates).all(|i| !contains_jev(&i.expr)));
            let (_, names) = projection(&input);
            assert_eq!(names, ["0", "1", "2", "__jev_hoist_0", "__jev_hoist_1"]);
        }
        other => panic!("{other:?}"),
    }
    assert_eq!(restored_name("round(a)", "round(b)"), Some("round(a)".to_owned()));
    assert_eq!(restored_name("count(*)", "count(*)"), None);
}

fn options(join_type: JoinType) -> JoinOptions {
    JoinOptions {
        join_type,
        constraint: JoinConstraint::On,
        null_equality: NullEquality::NullEqualsNull,
        null_aware: true,
    }
}

/// A join of columns 0 and 1 with columns 2 and 3, which marks its rows in 4.
fn join(join_type: JoinType, filter: Expr) -> Plan {
    Plan::Join {
        join: Join {
            on: vec![(Expr::Column(0), Expr::Column(2))],
            filter: Some(filter),
            options: options(join_type),
            mark: Some(Expr::Column(4)),
            left_supplies: vec![0, 1],
            right_supplies: vec![2, 3],
        },
        left: Box::new(table(0, &[0, 1])),
        right: Box::new(table(1, &[2, 3])),
    }
}

#[test]
fn one_sided_join_condition_with_prompt_jev_is_hoisted() {
    let plan = analyzed(join(JoinType::Left, other(vec![jev(1), jev(3), jev(2)])));
    match kept(plan, &["0", "1", "2", "3"]) {
        Plan::Join { join, left, right } => {
            assert_eq!(join.options, options(JoinType::Left));
            assert_eq!(projection(&left).1, ["0", "1", "__jev_hoist_l0"]);
            assert_eq!(projection(&right).1, ["2", "3", "__jev_hoist_r0", "__jev_hoist_r1"]);
            match join.filter.unwrap() {
                Expr::Other { parts, .. } => {
                    assert_eq!(hoisted(&parts[0]), "__jev_hoist_l0");
                    assert_eq!(hoisted(&parts[1]), "__jev_hoist_r0");
                    assert_eq!(hoisted(&parts[2]), "__jev_hoist_r1");
                }
                other => panic!("{other:?}"),
            }
            assert!(same(&join.on[0].0, &Expr::Column(0)));
        }
        other => panic!("{other:?}"),
    }
    // A call in an equality is hoisted too, and one without columns goes left.
    let constant =
        Expr::Function { name: INTERNAL_FUNCTION.to_owned(), shape: 1, parts: vec![] };
    let mut keyed = join(JoinType::Inner, constant);
    if let Plan::Join { join, .. } = &mut keyed {
        join.on.push((jev(1), jev(3)));
    }
    match kept(analyzed(keyed), &["0", "1", "2", "3"]) {
        Plan::Join { join, .. } => {
            assert_eq!(hoisted(&join.on[1].0), "__jev_hoist_l0");
            assert_eq!(hoisted(&join.on[1].1), "__jev_hoist_r0");
            assert_eq!(hoisted(&join.filter.unwrap()), "__jev_hoist_l1");
        }
        other => panic!("{other:?}"),
    }
}

#[test]
fn each_kind_of_join_keeps_its_columns() {
    for (join_type, columns) in [
        (JoinType::Inner, vec!["0", "1", "2", "3"]),
        (JoinType::Right, vec!["0", "1", "2", "3"]),
        (JoinType::Full, vec!["0", "1", "2", "3"]),
        (JoinType::LeftSemi, vec!["0", "1"]),
        (JoinType::LeftAnti, vec!["0", "1"]),
        (JoinType::LeftMark, vec!["0", "1", "4"]),
        (JoinType::RightSemi, vec!["2", "3"]),
        (JoinType::RightAnti, vec!["2", "3"]),
        (JoinType::RightMark, vec!["2", "3", "4"]),
    ] {
        match kept(analyzed(join(join_type, jev(1))), &columns) {
            Plan::Join { join, right, .. } => {
                assert_eq!(join.options, options(join_type));
                // Without a call there is nothing to project on that side.
                assert!(matches!(*right, Plan::Other { id: 1, .. }));
            }
            other => panic!("{other:?}"),
        }
    }
}

#[test]
fn two_sided_join_condition_is_a_clear_planning_error() {
    let both = || Expr::Function {
        name: INTERNAL_FUNCTION.to_owned(),
        shape: 0,
        parts: vec![other(vec![Expr::Column(1), Expr::Column(3)])],
    };
    let error = HoistJev.analyze(join(JoinType::Inner, both())).err().unwrap();
    assert!(matches!(error, Problem::TwoSidedCall));
    assert_eq!(
        error.message(),
        "prompt_jev in a join condition must reference columns from one side only; \
         compute it in a CTE or subquery first"
    );
    // It fails the plan wherever it stands.
    let deep = Plan::Subqueries {
        plan: Box::new(table(7, &[0])),
        subqueries: vec![table(8, &[0]), join(JoinType::Inner, both())],
    };
    assert!(HoistJev.analyze(deep).is_err());
}

#[test]
fn nodes_without_calls_stay_as_they_are() {
    let plain = || function("lower", vec![Expr::Column(1)]);
    let input = || Box::new(table(0, &[0, 1]));
    for plan in [
        Plan::Sort { keys: vec![key(plain())], fetch: None, input: input() },
        Plan::Window { items: vec![item(plain(), 2)], input: input() },
        Plan::Aggregate { group: vec![item(plain(), 2)], aggregates: vec![], input: input() },
        join(JoinType::Inner, plain()),
        Plan::Projection { items: vec![item(jev(1), 2)], input: input() },
        table(0, &[0]),
    ] {
        let before = format!("{plan:?}");
        assert_eq!(format!("{:?}", analyzed(plan)), before);
    }
}

#[test]
fn a_whole_plan_is_analyzed_once() {
    // A sort over a join, and a window in a subquery of it, all with calls.
    let joined = join(JoinType::Inner, jev(1));
    let sort = Plan::Sort { keys: vec![key(jev(3))], fetch: None, input: Box::new(joined) };
    let window =
        Plan::Window { items: vec![item(jev(6), 9)], input: Box::new(table(2, &[6])) };
    let plan = Plan::Other {
        id: 3,
        columns: vec![Expr::Column(0)],
        inputs: vec![Plan::Subqueries { plan: Box::new(sort), subqueries: vec![window] }],
    };
    let columns = shown(&schema(&plan));
    let once = analyzed(plan);
    assert_eq!(shown(&schema(&once)), columns);
    let text = format!("{once:?}");
    match &once {
        Plan::Other { inputs, .. } => match &inputs[0] {
            Plan::Subqueries { plan, subqueries } => {
                assert_eq!(shown(&schema(plan)), ["0", "1", "2", "3"]);
                assert_eq!(shown(&schema(&subqueries[0])), ["6", "9"]);
            }
            other => panic!("{other:?}"),
        },
        other => panic!("{other:?}"),
    }
    assert_eq!(format!("{:?}", analyzed(once)), text);
}

#[test]
fn an_inner_call_is_computed_with_the_outer_one() {
    let inner = jev(1);
    let nested = Expr::Function {
        name: INTERNAL_FUNCTION.to_owned(),
        shape: 0,
        parts: vec![jev(1)],
    };
    let calls = collect_calls(&vec![nested]);
    assert_eq!(calls.len(), 1);
    assert!(!same(&calls[0], &inner));
    assert!(is_jev(&calls[0]));
    assert!(belongs_to(&calls[0], &vec![1]));
    assert!(!belongs_to(&calls[0], &vec![0, 2]));
}

#[test]
fn filter_runs_before_inference_when_a_field_is_read_through_a_cte() {
    // Leaf pushdown would move the call beneath the filter: it is skipped.
    let nodes = vec![vec![Expr::Column(0)], vec![function("get_field", vec![jev(1)])]];
    assert!(plan_contains_jev(&nodes));
    for order in [Some(ApplyOrder::TopDown), Some(ApplyOrder::BottomUp), None] {
        assert_eq!(LeafPushdownGuard.rewrite(&nodes, order), GuardAction::Skip);
    }
}

#[test]
fn leaf_pushdown_still_runs_for_queries_without_prompt_jev() {
    let nodes = vec![vec![function("get_field", vec![Expr::Column(0)])]];
    for (order, action) in [
        (Some(ApplyOrder::TopDown), GuardAction::TopDown),
        (Some(ApplyOrder::BottomUp), GuardAction::BottomUp),
        (None, GuardAction::Whole),
    ] {
        assert_eq!(LeafPushdownGuard.rewrite(&nodes, order), action);
    }
    assert!(LeafPushdownGuard::wraps("extract_leaf_expressions"));
    assert!(LeafPushdownGuard::wraps("push_down_leaf_projections"));
    assert!(!LeafPushdownGuard::wraps("push_down_filter"));
}

fn async_expr(name: &str, call: usize) -> AsyncExpr {
    AsyncExpr { function: Some(name.to_owned()), call }
}

fn conjunct(id: usize, columns: &[usize]) -> Conjunct {
    Conjunct { id, columns: columns.to_vec() }
}

fn ids(conjuncts: &[Conjunct]) -> Vec<usize> {
    conjuncts.iter().map(|c| c.id).collect()
}

/// A filter over an async node with two input columns, under two repartitions.
fn filter(function: &str, conjuncts: Vec<Conjunct>) -> datafusion_jev::optimizer::Plan {
    let node = datafusion_jev::optimizer::Plan::Async {
        exprs: vec![async_expr(function, 0)],
        width: 2,
        input: Box::new(datafusion_jev::optimizer::Plan::Other(9)),
    };
    let inner =
        datafusion_jev::optimizer::Plan::Repartition { id: 5, input: Box::new(node) };
    let outer =
        datafusion_jev::optimizer::Plan::Repartition { id: 6, input: Box::new(inner) };
    datafusion_jev::optimizer::Plan::Filter(Box::new(Filter {
        conjuncts,
        settings: Some(Settings {
            fetch: Some(1),
            batch_size: 4_096,
            selectivity: 30,
            projection: Some(vec![0]),
        }),
        input: outer,
    }))
}

#[test]
fn cheap_conjuncts_filter_rows_before_inference() {
    let conjuncts =
        vec![conjunct(0, &[0]), conjunct(1, &[2]), conjunct(2, &[1, 0]), conjunct(3, &[0, 2])];
    let r = FilterBeforeJev.optimize(filter(INTERNAL_FUNCTION, conjuncts));
    assert!(r.changed);
    let post = match r.plan {
        datafusion_jev::optimizer::Plan::Filter(post) => *post,
        other => panic!("{other:?}"),
    };
    assert_eq!(ids(&post.conjuncts), [1, 3]);
    let mut cursor = post.input;
    for expected in [6, 5] {
        cursor = match cursor {
            datafusion_jev::optimizer::Plan::Repartition { id, input } => {
                assert_eq!(id, expected);
                *input
            }
            other => panic!("{other:?}"),
        };
    }
    let pre = match cursor {
        datafusion_jev::optimizer::Plan::Async { exprs, width, input } => {
            assert_eq!((exprs.len(), width), (1, 2));
            match *input {
                datafusion_jev::optimizer::Plan::Filter(pre) => *pre,
                other => panic!("{other:?}"),
            }
        }
        other => panic!("{other:?}"),
    };
    assert_eq!(ids(&pre.conjuncts), [0, 2]);
    assert!(pre.settings.is_none());
    assert!(matches!(pre.input, datafusion_jev::optimizer::Plan::Other(9)));
}

#[test]
fn a_folded_limit_survives_the_filter_split() {
    let conjuncts = vec![conjunct(0, &[0]), conjunct(1, &[2])];
    match FilterBeforeJev.optimize(filter(INTERNAL_FUNCTION, conjuncts)).plan {
        datafusion_jev::optimizer::Plan::Filter(post) => {
            let settings = post.settings.unwrap();
            assert_eq!(settings.fetch, Some(1));
            assert_eq!(settings.batch_size, 4_096);
            assert_eq!(settings.selectivity, 30);
            assert_eq!(settings.projection, Some(vec![0]));
        }
        other => panic!("{other:?}"),
    }
}

#[test]
fn filters_that_need_no_split_stay_as_they_are() {
    let cheap = || vec![conjunct(0, &[0]), conjunct(1, &[])];
    let costly = || vec![conjunct(0, &[2]), conjunct(1, &[3])];
    let mixed = || vec![conjunct(0, &[0]), conjunct(1, &[2])];
    for plan in [
        filter(INTERNAL_FUNCTION, cheap()),
        filter(INTERNAL_FUNCTION, costly()),
        filter("other_async", mixed()),
        datafusion_jev::optimizer::Plan::Other(1),
    ] {
        let before = format!("{plan:?}");
        let r = FilterBeforeJev.optimize(plan);
        assert!(!r.changed);
        assert_eq!(format!("{:?}", r.plan), before);
    }
    // Once split, a filter is not split again.
    let once = FilterBeforeJev.optimize(filter(INTERNAL_FUNCTION, mixed()));
    assert!(once.changed);
    assert!(!FilterBeforeJev.optimize(once.plan).changed);
    assert_eq!(FilterBeforeJev.name(), "datafusion_jev_filter_first");
    assert_eq!(HoistJev.name(), "datafusion_jev_hoist");
    assert!(FilterBeforeJev.schema_check() && DeduplicateJev.schema_check());
}

#[test]
fn repeated_expressions_share_one_request_and_keep_columns() {
    // x, y and z, where z repeats x, after two columns of input.
    let node = AsyncNode {
        width: 2,
        exprs: vec![
            async_expr(INTERNAL_FUNCTION, 0),
            async_expr(INTERNAL_FUNCTION, 1),
            async_expr(INTERNAL_FUNCTION, 0),
        ],
    };
    let d = DeduplicateJev.optimize(&node).unwrap();
    assert_eq!(d.kept, [0, 1]);
    assert_eq!(d.sources, [0, 1, 2, 3, 2]);
    assert_eq!(DeduplicateJev.name(), "datafusion_jev_deduplicate");
}

#[test]
fn only_calls_of_the_function_are_merged() {
    let repeated = || vec![async_expr("other", 4), async_expr("other", 4)];
    assert!(DeduplicateJev.optimize(&AsyncNode { width: 1, exprs: repeated() }).is_none());
    let mut exprs = repeated();
    exprs.push(async_expr(INTERNAL_FUNCTION, 0));
    exprs.push(AsyncExpr { function: None, call: 5 });
    exprs.push(async_expr(INTERNAL_FUNCTION, 0));
    exprs.push(AsyncExpr { function: None, call: 5 });
    assert!(!is_jev_expr(&exprs[0]) && is_jev_expr(&exprs[2]) && !is_jev_expr(&exprs[3]));
    let d = DeduplicateJev.optimize(&AsyncNode { width: 0, exprs }).unwrap();
    assert_eq!(d.kept, [0, 1, 2, 3, 5]);
    assert_eq!(d.sources, [0, 1, 2, 3, 2, 4]);
}
