//! Logical plans, as far as the plan rules look into them: the nodes that can
//! hold a call where none is planned, with the columns that each node has.
//!
//! A column is an expression: [`Expr::Column`] for a column of the query, which
//! stands for its name and its qualifier, or [`Expr::Hoisted`] for one that holds
//! a call computed beneath.
use crate::expr::{copy, copy_all, trees, Expr, ExprView};
use vstd::prelude::*;

verus! {

/// An expression, and the column that it becomes.
#[derive(Debug)]
pub struct Item {
    pub expr: Expr,
    pub column: Expr,
}

/// An item as plain values.
pub struct ItemView {
    pub expr: ExprView,
    pub column: ExprView,
}

impl View for Item {
    type V = ItemView;

    open spec fn view(&self) -> ItemView {
        ItemView { expr: self.expr@, column: self.column@ }
    }
}

/// Items as plain values.
pub open spec fn item_views(items: Seq<Item>) -> Seq<ItemView> {
    items.map_values(|i: Item| i@)
}

/// The expressions of items.
pub open spec fn item_exprs(items: Seq<ItemView>) -> Seq<ExprView> {
    items.map_values(|i: ItemView| i.expr)
}

/// The columns that items become.
pub open spec fn item_columns(items: Seq<ItemView>) -> Seq<ExprView> {
    items.map_values(|i: ItemView| i.column)
}

/// A sort key.
#[derive(Debug)]
pub struct SortKey {
    pub expr: Expr,
    pub ascending: bool,
    pub nulls_first: bool,
}

/// A sort key as plain values.
pub struct KeyView {
    pub expr: ExprView,
    pub ascending: bool,
    pub nulls_first: bool,
}

impl View for SortKey {
    type V = KeyView;

    open spec fn view(&self) -> KeyView {
        KeyView { expr: self.expr@, ascending: self.ascending, nulls_first: self.nulls_first }
    }
}

/// Sort keys as plain values.
pub open spec fn key_views(keys: Seq<SortKey>) -> Seq<KeyView> {
    keys.map_values(|k: SortKey| k@)
}

/// The expressions of sort keys.
pub open spec fn key_exprs(keys: Seq<KeyView>) -> Seq<ExprView> {
    keys.map_values(|k: KeyView| k.expr)
}

/// Which rows of the two sides a join gives.
#[derive(Debug, Clone, Copy, PartialEq, Eq, Structural)]
pub enum JoinType {
    Inner,
    Left,
    Right,
    Full,
    LeftSemi,
    RightSemi,
    LeftAnti,
    RightAnti,
    LeftMark,
    RightMark,
}

/// How the condition of a join was written.
#[derive(Debug, Clone, Copy, PartialEq, Eq, Structural)]
pub enum JoinConstraint {
    On,
    Using,
}

/// Whether NULL equals NULL in a join.
#[derive(Debug, Clone, Copy, PartialEq, Eq, Structural)]
pub enum NullEquality {
    NullEqualsNothing,
    NullEqualsNull,
}

/// What a join has besides its condition.
#[derive(Debug, Clone, Copy, PartialEq, Eq, Structural)]
pub struct JoinOptions {
    pub join_type: JoinType,
    pub constraint: JoinConstraint,
    pub null_equality: NullEquality,
    pub null_aware: bool,
}

/// A join but for its sides: the pairs of expressions that must be equal, the
/// rest of the condition, the options, the column by which a mark join marks its
/// rows, and the numbers of the columns that each side can supply.
#[derive(Debug)]
pub struct Join {
    pub on: Vec<(Expr, Expr)>,
    pub filter: Option<Expr>,
    pub options: JoinOptions,
    pub mark: Option<Expr>,
    pub left_supplies: Vec<usize>,
    pub right_supplies: Vec<usize>,
}

/// A join as plain values.
pub struct JoinView {
    pub on: Seq<(ExprView, ExprView)>,
    pub filter: Option<ExprView>,
    pub options: JoinOptions,
    pub mark: Option<ExprView>,
    pub left_supplies: Seq<usize>,
    pub right_supplies: Seq<usize>,
}

/// An expression that may be absent, as a tree.
pub open spec fn optional_tree(e: Option<Expr>) -> Option<ExprView> {
    match e {
        Some(e) => Some(e@),
        None => None,
    }
}

/// Pairs of expressions as trees.
pub open spec fn pair_trees(on: Seq<(Expr, Expr)>) -> Seq<(ExprView, ExprView)> {
    on.map_values(|p: (Expr, Expr)| (p.0@, p.1@))
}

impl View for Join {
    type V = JoinView;

    open spec fn view(&self) -> JoinView {
        JoinView {
            on: pair_trees(self.on@),
            filter: optional_tree(self.filter),
            options: self.options,
            mark: optional_tree(self.mark),
            left_supplies: self.left_supplies@,
            right_supplies: self.right_supplies@,
        }
    }
}

/// A logical plan.
#[derive(Debug)]
pub enum Plan {
    Projection { items: Vec<Item>, input: Box<Plan> },
    Sort { keys: Vec<SortKey>, fetch: Option<usize>, input: Box<Plan> },
    /// The columns of the input, and then one for each window expression.
    Window { items: Vec<Item>, input: Box<Plan> },
    Aggregate { group: Vec<Item>, aggregates: Vec<Item>, input: Box<Plan> },
    Join { join: Join, left: Box<Plan>, right: Box<Plan> },
    /// A plan, and the subqueries in the expressions of its topmost node.
    Subqueries { plan: Box<Plan>, subqueries: Vec<Plan> },
    /// Any other node, by number, with its columns.
    Other { id: usize, columns: Vec<Expr>, inputs: Vec<Plan> },
}

/// A logical plan as a tree of plain values.
pub enum PlanView {
    Projection { items: Seq<ItemView>, input: Box<PlanView> },
    Sort { keys: Seq<KeyView>, fetch: Option<usize>, input: Box<PlanView> },
    Window { items: Seq<ItemView>, input: Box<PlanView> },
    Aggregate { group: Seq<ItemView>, aggregates: Seq<ItemView>, input: Box<PlanView> },
    Join { join: JoinView, left: Box<PlanView>, right: Box<PlanView> },
    Subqueries { plan: Box<PlanView>, subqueries: Seq<PlanView> },
    Other { id: usize, columns: Seq<ExprView>, inputs: Seq<PlanView> },
}

/// The plan as a tree.
pub open spec fn plan_tree(p: Plan) -> PlanView
    decreases p,
{
    match p {
        Plan::Projection { items, input } => PlanView::Projection {
            items: item_views(items@),
            input: Box::new(plan_tree(*input)),
        },
        Plan::Sort { keys, fetch, input } => PlanView::Sort {
            keys: key_views(keys@),
            fetch,
            input: Box::new(plan_tree(*input)),
        },
        Plan::Window { items, input } => PlanView::Window {
            items: item_views(items@),
            input: Box::new(plan_tree(*input)),
        },
        Plan::Aggregate { group, aggregates, input } => PlanView::Aggregate {
            group: item_views(group@),
            aggregates: item_views(aggregates@),
            input: Box::new(plan_tree(*input)),
        },
        Plan::Join { join, left, right } => PlanView::Join {
            join: join@,
            left: Box::new(plan_tree(*left)),
            right: Box::new(plan_tree(*right)),
        },
        Plan::Subqueries { plan, subqueries } => PlanView::Subqueries {
            plan: Box::new(plan_tree(*plan)),
            subqueries: Seq::new(
                subqueries@.len(),
                |i: int|
                    if 0 <= i < subqueries@.len() {
                        plan_tree(subqueries@[i])
                    } else {
                        arbitrary()
                    },
            ),
        },
        Plan::Other { id, columns, inputs } => PlanView::Other {
            id,
            columns: trees(columns@),
            inputs: Seq::new(
                inputs@.len(),
                |i: int|
                    if 0 <= i < inputs@.len() {
                        plan_tree(inputs@[i])
                    } else {
                        arbitrary()
                    },
            ),
        },
    }
}

impl View for Plan {
    type V = PlanView;

    open spec fn view(&self) -> PlanView {
        plan_tree(*self)
    }
}

/// Plans as trees.
pub open spec fn plan_trees(ps: Seq<Plan>) -> Seq<PlanView> {
    ps.map_values(|p: Plan| p@)
}

/// The tree of a plan by the trees of its parts.
pub proof fn lemma_plan_tree(p: Plan)
    ensures
        match p {
            Plan::Projection { items, input } => p@ == (PlanView::Projection {
                items: item_views(items@),
                input: Box::new(input@),
            }),
            Plan::Sort { keys, fetch, input } => p@ == (PlanView::Sort {
                keys: key_views(keys@),
                fetch,
                input: Box::new(input@),
            }),
            Plan::Window { items, input } => p@ == (PlanView::Window {
                items: item_views(items@),
                input: Box::new(input@),
            }),
            Plan::Aggregate { group, aggregates, input } => p@ == (PlanView::Aggregate {
                group: item_views(group@),
                aggregates: item_views(aggregates@),
                input: Box::new(input@),
            }),
            Plan::Join { join, left, right } => p@ == (PlanView::Join {
                join: join@,
                left: Box::new(left@),
                right: Box::new(right@),
            }),
            Plan::Subqueries { plan, subqueries } => p@ == (PlanView::Subqueries {
                plan: Box::new(plan@),
                subqueries: plan_trees(subqueries@),
            }),
            Plan::Other { id, columns, inputs } => p@ == (PlanView::Other {
                id,
                columns: trees(columns@),
                inputs: plan_trees(inputs@),
            }),
        },
{
    reveal_with_fuel(plan_tree, 2);
    match p {
        Plan::Subqueries { plan, subqueries } => {
            assert(p@->subqueries =~= plan_trees(subqueries@));
        },
        Plan::Other { id, columns, inputs } => {
            assert(p@->inputs =~= plan_trees(inputs@));
        },
        _ => {},
    }
}

/// The mark column, if there is one.
pub open spec fn mark_columns(mark: Option<ExprView>) -> Seq<ExprView> {
    match mark {
        Some(m) => seq![m],
        None => Seq::empty(),
    }
}

/// The columns of a join of sides with these columns.
pub open spec fn join_columns(
    join: JoinView,
    left: Seq<ExprView>,
    right: Seq<ExprView>,
) -> Seq<ExprView> {
    match join.options.join_type {
        JoinType::LeftSemi => left,
        JoinType::LeftAnti => left,
        JoinType::LeftMark => left + mark_columns(join.mark),
        JoinType::RightSemi => right,
        JoinType::RightAnti => right,
        JoinType::RightMark => right + mark_columns(join.mark),
        _ => left + right,
    }
}

/// The columns of a plan, in order.
pub open spec fn columns(p: PlanView) -> Seq<ExprView>
    decreases p,
{
    match p {
        PlanView::Projection { items, .. } => item_columns(items),
        PlanView::Sort { input, .. } => columns(*input),
        PlanView::Window { items, input } => columns(*input) + item_columns(items),
        PlanView::Aggregate { group, aggregates, .. } => item_columns(group) + item_columns(
            aggregates,
        ),
        PlanView::Join { join, left, right } => join_columns(join, columns(*left), columns(*right)),
        PlanView::Subqueries { plan, .. } => columns(*plan),
        PlanView::Other { columns, .. } => columns,
    }
}

/// Add the columns that items become.
pub(crate) fn add_columns(to: &mut Vec<Expr>, items: &Vec<Item>)
    ensures
        trees(final(to)@) == trees(old(to)@) + item_columns(item_views(items@)),
{
    let ghost before = trees(to@);
    let ghost new = item_columns(item_views(items@));
    let mut i: usize = 0;
    proof {
        assert(before + new.take(0) == before);
    }
    while i < items.len()
        invariant
            before == trees(old(to)@),
            new == item_columns(item_views(items@)),
            i <= items.len(),
            trees(to@) == before + new.take(i as int),
        decreases items.len() - i,
    {
        let c = copy(&items[i].column);
        let ghost so_far = to@;
        to.push(c);
        proof {
            assert(trees(to@) == trees(so_far).push(c@));
            assert(new.take(i + 1) == new.take(i as int).push(new[i as int]));
        }
        i = i + 1;
    }
    proof {
        assert(new.take(i as int) == new);
    }
}

/// `a` followed by `b`.
fn followed(a: Vec<Expr>, b: Vec<Expr>) -> (r: Vec<Expr>)
    ensures
        trees(r@) == trees(a@) + trees(b@),
{
    let mut r = a;
    let mut b = b;
    let ghost x = r@;
    let ghost y = b@;
    r.append(&mut b);
    proof {
        assert(trees(r@) == trees(x) + trees(y));
    }
    r
}

/// The mark column after these columns, if there is one.
fn marked(columns: Vec<Expr>, mark: &Option<Expr>) -> (r: Vec<Expr>)
    ensures
        trees(r@) == trees(columns@) + mark_columns(optional_tree(*mark)),
{
    let mut r = columns;
    let ghost before = r@;
    match mark {
        Some(m) => {
            let c = copy(m);
            r.push(c);
            proof {
                assert(trees(r@) == trees(before) + seq![c@]);
            }
        },
        None => {
            proof {
                assert(trees(r@) == trees(before) + Seq::<ExprView>::empty());
            }
        },
    }
    r
}

/// The columns of a join of sides with these columns.
pub(crate) fn join_schema(join: &Join, left: Vec<Expr>, right: Vec<Expr>) -> (r: Vec<Expr>)
    ensures
        trees(r@) == join_columns(join@, trees(left@), trees(right@)),
{
    match join.options.join_type {
        JoinType::LeftSemi => left,
        JoinType::LeftAnti => left,
        JoinType::LeftMark => marked(left, &join.mark),
        JoinType::RightSemi => right,
        JoinType::RightAnti => right,
        JoinType::RightMark => marked(right, &join.mark),
        _ => followed(left, right),
    }
}

/// The columns of a plan, in order.
pub fn schema(plan: &Plan) -> (r: Vec<Expr>)
    ensures
        trees(r@) == columns(plan@),
    decreases plan,
{
    proof {
        lemma_plan_tree(*plan);
        assert(trees(Seq::<Expr>::empty()) == Seq::<ExprView>::empty());
    }
    match plan {
        Plan::Projection { items, .. } => {
            let mut r: Vec<Expr> = Vec::new();
            add_columns(&mut r, items);
            r
        },
        Plan::Sort { input, .. } => schema(input),
        Plan::Window { items, input } => {
            let mut r = schema(input);
            add_columns(&mut r, items);
            r
        },
        Plan::Aggregate { group, aggregates, .. } => {
            let mut r: Vec<Expr> = Vec::new();
            add_columns(&mut r, group);
            add_columns(&mut r, aggregates);
            r
        },
        Plan::Join { join, left, right } => join_schema(join, schema(left), schema(right)),
        Plan::Subqueries { plan, .. } => schema(plan),
        Plan::Other { columns, .. } => copy_all(columns),
    }
}

/// A node is told by all that its parts hold: an item by its expression and its
/// column, a key by its expression and its directions, and a join by its condition,
/// its options, its mark and what its sides supply.
pub proof fn a_node_is_told_by_what_it_holds(
    items: Seq<Item>,
    keys: Seq<SortKey>,
    join: Join,
    i: int,
)
    ensures
        item_views(items).len() == items.len(),
        0 <= i < items.len() ==> item_views(items)[i].expr == items[i].expr@ && item_views(
            items,
        )[i].column == items[i].column@,
        key_views(keys).len() == keys.len(),
        0 <= i < keys.len() ==> {
            &&& key_views(keys)[i].expr == keys[i].expr@
            &&& key_views(keys)[i].ascending == keys[i].ascending
            &&& key_views(keys)[i].nulls_first == keys[i].nulls_first
        },
        join@.on.len() == join.on@.len(),
        0 <= i < join.on@.len() ==> join@.on[i] == (join.on@[i].0@, join.on@[i].1@),
        join@.filter is Some <==> join.filter is Some,
        join.filter matches Some(f) ==> join@.filter == Some(f@),
        join@.options == join.options,
        join@.mark is Some <==> join.mark is Some,
        join.mark matches Some(m) ==> join@.mark == Some(m@),
        join@.left_supplies == join.left_supplies@,
        join@.right_supplies == join.right_supplies@,
{
}

} // verus!
