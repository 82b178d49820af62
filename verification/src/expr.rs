//! Expressions of a query plan, as far as the plan rules look into them.
use crate::names::INTERNAL_FUNCTION;
use crate::text::same_text;
use vstd::prelude::*;
use vstd::string::*;

verus! {

/// An expression of a plan.
#[derive(Debug)]
pub enum Expr {
    /// A call of the scalar function `name`. Calls that are alike in all but
    /// their arguments share a `shape`.
    Function { name: String, shape: usize, parts: Vec<Expr> },
    /// A column. Equal columns share a number.
    Column(usize),
    /// The column that holds a call computed beneath, by its generated name.
    Hoisted(String),
    /// Any other expression. Those that are alike in all but their parts share a
    /// `shape`.
    Other { shape: usize, parts: Vec<Expr> },
}

/// An expression as a tree of plain values.
pub enum ExprView {
    Function { name: Seq<char>, shape: usize, parts: Seq<ExprView> },
    Column(usize),
    Hoisted(Seq<char>),
    Other { shape: usize, parts: Seq<ExprView> },
}

/// The expression as a tree.
pub open spec fn tree(e: Expr) -> ExprView
    decreases e,
{
    match e {
        Expr::Function { name, shape, parts } => ExprView::Function {
            name: name@,
            shape,
            parts: Seq::new(
                parts@.len(),
                |i: int|
                    if 0 <= i < parts@.len() {
                        tree(parts@[i])
                    } else {
                        arbitrary()
                    },
            ),
        },
        Expr::Column(n) => ExprView::Column(n),
        Expr::Hoisted(name) => ExprView::Hoisted(name@),
        Expr::Other { shape, parts } => ExprView::Other {
            shape,
            parts: Seq::new(
                parts@.len(),
                |i: int|
                    if 0 <= i < parts@.len() {
                        tree(parts@[i])
                    } else {
                        arbitrary()
                    },
            ),
        },
    }
}

impl View for Expr {
    type V = ExprView;

    open spec fn view(&self) -> ExprView {
        tree(*self)
    }
}

/// Expressions as trees.
pub open spec fn trees(es: Seq<Expr>) -> Seq<ExprView> {
    es.map_values(|e: Expr| e@)
}

/// The view of a node with parts holds the trees of its parts.
pub proof fn lemma_view_parts(e: Expr)
    ensures
        match e {
            Expr::Function { name, shape, parts } => e@ == (ExprView::Function {
                name: name@,
                shape,
                parts: trees(parts@),
            }),
            Expr::Other { shape, parts } => e@ == (ExprView::Other { shape, parts: trees(parts@) }),
            _ => true,
        },
{
    reveal_with_fuel(tree, 2);
    match e {
        Expr::Function { name, shape, parts } => {
            assert(e@->Function_parts =~= trees(parts@));
        },
        Expr::Other { shape, parts } => {
            assert(e@->Other_parts =~= trees(parts@));
        },
        _ => {},
    }
}

/// Copies of the expressions, in order.
pub fn copy_all(es: &Vec<Expr>) -> (r: Vec<Expr>)
    ensures
        trees(r@) == trees(es@),
    decreases es,
{
    let mut r: Vec<Expr> = Vec::new();
    let mut i: usize = 0;
    while i < es.len()
        invariant
            i <= es.len(),
            trees(r@) == trees(es@).take(i as int),
        decreases es.len() - i,
    {
        let e = copy(&es[i]);
        let ghost before = r@;
        r.push(e);
        proof {
            assert(trees(r@) == trees(before).push(e@));
            assert(trees(es@).take(i + 1) == trees(es@).take(i as int).push(trees(es@)[i as int]));
        }
        i = i + 1;
    }
    proof {
        assert(trees(es@).take(i as int) == trees(es@));
    }
    r
}

/// A copy of the expression.
pub fn copy(e: &Expr) -> (r: Expr)
    ensures
        r@ == e@,
    decreases e,
{
    let r = match e {
        Expr::Function { name, shape, parts } => Expr::Function {
            name: name.clone(),
            shape: *shape,
            parts: copy_all(parts),
        },
        Expr::Column(n) => Expr::Column(*n),
        Expr::Hoisted(name) => Expr::Hoisted(name.clone()),
        Expr::Other { shape, parts } => Expr::Other { shape: *shape, parts: copy_all(parts) },
    };
    proof {
        lemma_view_parts(*e);
        lemma_view_parts(r);
    }
    r
}

/// Whether the expressions are equal one by one.
fn same_all(a: &Vec<Expr>, b: &Vec<Expr>) -> (r: bool)
    ensures
        r == (trees(a@) == trees(b@)),
    decreases a,
{
    if a.len() != b.len() {
        proof {
            assert(trees(a@).len() != trees(b@).len());
        }
        return false;
    }
    let mut i: usize = 0;
    while i < a.len()
        invariant
            a.len() == b.len(),
            i <= a.len(),
            forall|j: int| 0 <= j < i ==> trees(a@)[j] == trees(b@)[j],
        decreases a.len() - i,
    {
        if !same(&a[i], &b[i]) {
            proof {
                assert(trees(a@)[i as int] != trees(b@)[i as int]);
            }
            return false;
        }
        i = i + 1;
    }
    proof {
        assert(trees(a@) =~= trees(b@));
    }
    true
}

/// Whether the two expressions are equal.
pub fn same(a: &Expr, b: &Expr) -> (r: bool)
    ensures
        r == (a@ == b@),
    decreases a,
{
    proof {
        lemma_view_parts(*a);
        lemma_view_parts(*b);
    }
    match (a, b) {
        (
            Expr::Function { name, shape, parts },
            Expr::Function { name: name2, shape: shape2, parts: parts2 },
        ) => *shape == *shape2 && same_text(name.as_str(), name2.as_str()) && same_all(
            parts,
            parts2,
        ),
        (Expr::Column(n), Expr::Column(n2)) => *n == *n2,
        (Expr::Hoisted(name), Expr::Hoisted(name2)) => same_text(name.as_str(), name2.as_str()),
        (
            Expr::Other { shape, parts },
            Expr::Other { shape: shape2, parts: parts2 },
        ) => *shape == *shape2 && same_all(parts, parts2),
        _ => false,
    }
}

/// The expression is a call of the internal function.
pub open spec fn is_jev_call(e: ExprView) -> bool {
    match e {
        ExprView::Function { name, .. } => name == INTERNAL_FUNCTION@,
        _ => false,
    }
}

/// Whether the expression is a call of the internal function.
pub fn is_jev(e: &Expr) -> (r: bool)
    ensures
        r == is_jev_call(e@),
{
    match e {
        Expr::Function { name, .. } => same_text(name.as_str(), INTERNAL_FUNCTION),
        _ => false,
    }
}

/// An expression is told by all that it holds.
pub proof fn an_expression_is_told_by_what_it_holds(e: Expr)
    ensures
        match e {
            Expr::Function { name, shape, parts } => {
                &&& e@ == (ExprView::Function { name: name@, shape, parts: trees(parts@) })
                &&& trees(parts@).len() == parts@.len()
                &&& forall|i: int|
                    0 <= i < parts@.len() ==> #[trigger] trees(parts@)[i] == parts@[i]@
            },
            Expr::Column(n) => e@ == ExprView::Column(n),
            Expr::Hoisted(name) => e@ == ExprView::Hoisted(name@),
            Expr::Other { shape, parts } => {
                &&& e@ == (ExprView::Other { shape, parts: trees(parts@) })
                &&& trees(parts@).len() == parts@.len()
                &&& forall|i: int|
                    0 <= i < parts@.len() ==> #[trigger] trees(parts@)[i] == parts@[i]@
            },
        },
{
    lemma_view_parts(e);
}

/// An expression is a call of the function behind `prompt_jev` by the name that it
/// calls, whatever its arguments are.
pub proof fn calls_are_told_by_their_name(e: ExprView)
    ensures
        is_jev_call(e) <==> e is Function && e->name == "__datafusion_jev"@,
{
}

} // verus!
