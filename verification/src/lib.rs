//! `prompt_jev`: ask questions about text from SQL and get typed answers.
//!
//! * A call is read and checked when its statement is rewritten: [`ast`],
//!   [`sql`], [`syntax`], [`dialect`].
//! * It is planned where async functions can be, and on no more rows than needed:
//!   [`expr`], [`plan`], [`planner`], [`hoisting`], [`rebuilding`],
//!   [`optimizer`].
//! * It is run over a column: [`udf`] for types, [`request`] for what is sent,
//!   [`answer`] for what comes back, [`batch`] for the run as a whole.
//! * [`text`], [`number`] and [`json`] hold what these share, and [`error`] what
//!   can go wrong.
pub mod answer;
pub mod ast;
pub mod batch;
pub mod dialect;
pub mod error;
pub mod expr;
pub mod hoisting;
pub mod json;
pub mod names;
pub mod number;
pub mod optimizer;
pub mod plan;
pub mod planner;
pub mod rebuilding;
pub mod request;
pub mod sql;
pub mod syntax;
pub mod text;
pub mod udf;

pub use sql::{rewrite, rewrite_statement};
use vstd::prelude::*;

verus! {

/// How a request failed. Never put input text, credentials or response bodies
/// into these errors; they can surface in query error messages.
#[derive(Debug)]
pub enum RequestError {
    /// Network error, timeout, or server error. Retried; if retries run out the
    /// affected rows become NULL and the query still completes.
    Unavailable,
    /// Authentication, invalid request, or malformed response. Fails the query.
    Fatal(String),
}

} // verus!
