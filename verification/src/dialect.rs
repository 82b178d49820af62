//! Telling the user that the syntax of `prompt_jev` needs a dialect that knows it.
use crate::names::PUBLIC_FUNCTION;
use crate::sql::optional_text;
use crate::text::{
    contains, contains_text, lower, lower_text, stands_between, text_is_found_between,
};
use vstd::prelude::*;
use vstd::string::*;

verus! {

/// The SQL dialect of a session.
#[derive(Debug)]
pub enum Dialect {
    Generic,
    DuckDb,
    /// Any other dialect, by its name.
    Other(String),
}

/// Queries with this text, in lower case, may fail for want of another dialect.
/// Strict dialects either reject `:=` outright or parse it as an ordinary
/// expression, so the failure can come from parsing or from the rewrite.
pub open spec fn wants_hint(dialect: Dialect, lowered: Seq<char>) -> bool {
    dialect is Other && contains_text(lowered, PUBLIC_FUNCTION@)
}

/// The error with the hint.
pub open spec fn hinted(error: Seq<char>, name: Seq<char>) -> Seq<char> {
    error
        + ". prompt_jev syntax (':=' options and '{label: ...}' literals) requires the generic (default) or duckdb SQL dialect; the session uses "@
        + name
}

/// The error to report for a query with this text, in lower case, in place of
/// `error`, if it is another.
pub fn hint_for(dialect: &Dialect, lowered: &str, error: &str) -> (r: Option<String>)
    ensures
        optional_text(r) == hint_of(*dialect, lowered@, error@),
        if wants_hint(*dialect, lowered@) {
            r is Some && r->0@ == hinted(error@, dialect->Other_0@)
        } else {
            r is None
        },
{
    match dialect {
        Dialect::Other(name) => {
            if contains(lowered, PUBLIC_FUNCTION) {
                let mut r = error.to_owned();
                r.append(
                    ". prompt_jev syntax (':=' options and '{label: ...}' literals) requires the generic (default) or duckdb SQL dialect; the session uses ",
                );
                r.append(name.as_str());
                Some(r)
            } else {
                None
            }
        },
        _ => None,
    }
}

/// The error to report for a query in place of `error`, if it is another.
pub fn hint(dialect: &Dialect, text: &str, error: &str) -> (r: Option<String>)
    ensures
        optional_text(r) == hint_of(*dialect, lower(text@), error@),
        if wants_hint(*dialect, lower(text@)) {
            r is Some && r->0@ == hinted(error@, dialect->Other_0@)
        } else {
            r is None
        },
{
    let lowered = lower_text(text);
    hint_for(dialect, lowered.as_str(), error)
}

/// What is reported for a query with this text, in lower case, in place of `error`.
pub open spec fn hint_of(
    dialect: Dialect,
    lowered: Seq<char>,
    error: Seq<char>,
) -> Option<Seq<char>> {
    if wants_hint(dialect, lowered) {
        Some(hinted(error, dialect->Other_0@))
    } else {
        None
    }
}

/// The hint is given exactly for a query that holds `prompt_jev` in a dialect that
/// may not know its syntax. It follows the error and ends in the dialect's name.
pub proof fn other_dialects_get_the_hint(
    dialect: Dialect,
    before: Seq<char>,
    after: Seq<char>,
    lowered: Seq<char>,
    error: Seq<char>,
)
    ensures
        hint_of(dialect, lowered, error) is Some ==> dialect is Other,
        hint_of(dialect, lowered, error) is Some ==> exists|a: Seq<char>, b: Seq<char>| #[trigger]
            stands_between(lowered, a, "prompt_jev"@, b),
        dialect is Other && lowered == before + "prompt_jev"@ + after ==> hint_of(
            dialect,
            lowered,
            error,
        ) == Some(
            error
                + ". prompt_jev syntax (':=' options and '{label: ...}' literals) requires the generic (default) or duckdb SQL dialect; the session uses "@
                + dialect->Other_0@,
        ),
{
    let name = "prompt_jev"@;
    if wants_hint(dialect, lowered) {
        text_is_found_between(lowered, name, before, after);
    }
    if lowered == before + name + after {
        text_is_found_between(lowered, name, before, after);
    }
}

} // verus!
