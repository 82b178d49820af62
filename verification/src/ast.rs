//! What a parsed statement holds as far as `prompt_jev` is concerned: its
//! function calls, and the literals that a call can be configured with.
use crate::sql::Question;
use vstd::prelude::*;

verus! {

/// An expression.
#[derive(Debug)]
pub enum Expr {
    /// A string literal, plain or with escapes.
    Text(String),
    /// A number literal, as it is spelled.
    Number(String),
    /// `NULL`.
    Null,
    /// `[a, b, ...]`.
    Array(Vec<Expr>),
    /// `{key: value, ...}`.
    Dictionary(Vec<Field>),
    /// The constant configuration that a rewritten call carries.
    Config(Question),
    /// Any other expression, by the number of the argument that it is part of.
    Other(usize),
}

/// One entry of a dictionary literal.
#[derive(Debug)]
pub struct Field {
    pub key: String,
    pub value: Expr,
}

/// One argument of a function call.
#[derive(Debug)]
pub enum Arg {
    /// An expression without a name.
    Positional(Expr),
    /// An expression under a name, which may have been quoted.
    Named { name: String, quoted: bool, value: Expr },
    /// A wildcard, or a name that is itself an expression.
    Other,
}

/// What stands between the parentheses of a call.
#[derive(Debug)]
pub enum Arguments {
    /// No parentheses at all.
    Absent,
    /// A subquery as the sole argument.
    Subquery,
    /// A list, with whether it holds `DISTINCT` or `ALL`, and whether clauses
    /// such as `ORDER BY` follow it.
    List { duplicate_treatment: bool, clauses: bool, args: Vec<Arg> },
}

/// A function call.
#[derive(Debug)]
pub struct Function {
    /// The parts of the name: the text of an identifier, or nothing for a part
    /// that is not an identifier.
    pub name: Vec<Option<String>>,
    /// Whether each of these modifiers is there.
    pub filter: bool,
    pub over: bool,
    pub null_treatment: bool,
    pub within_group: bool,
    pub parameters: bool,
    pub arguments: Arguments,
}

/// A statement: its function calls, innermost first.
#[derive(Debug)]
pub struct Statement {
    pub calls: Vec<Function>,
}

/// What the SQL parser hands over.
#[derive(Debug)]
pub enum Parsed {
    /// A statement of the SQL language proper.
    Statement(Statement),
    /// `COPY (query) TO ...`: the calls of the query.
    Copy(Statement),
    /// `EXPLAIN` of another one.
    Explain(Box<Parsed>),
    /// Any other statement, such as `COPY table TO ...` or `CREATE EXTERNAL
    /// TABLE`. It holds no query, and is left as it is.
    Other,
}

} // verus!
