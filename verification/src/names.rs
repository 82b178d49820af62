//! The internal function name, shared by the SQL rewrite, the function itself
//! and the plan rules.
use vstd::prelude::*;

verus! {

/// The name a `prompt_jev` call is rewritten to before planning. Callers never
/// write it, and it must match everywhere it appears.
pub const INTERNAL_FUNCTION: &'static str = "__datafusion_jev";

/// The name that users write.
pub const PUBLIC_FUNCTION: &'static str = "prompt_jev";

} // verus!
