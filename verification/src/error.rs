use vstd::prelude::*;

verus! {

/// Errors reported while parsing or while checking parser state.
#[derive(Debug, Clone, Copy, PartialEq, Eq)]
pub enum ParseError {
    /// An internal consistency check failed: a rule returned a range that is
    /// out of order, out of bounds or not on a character boundary.
    InternalError,
    /// A processing limit was reached; `limit` names it.
    Limit { limit: &'static str },
}

impl ParseError {
    /// The error for reaching the limit named `limit`.
    pub fn limit(limit: &'static str) -> (r: Self)
        ensures
            r == (ParseError::Limit { limit }),
    {
        ParseError::Limit { limit }
    }
}

} // verus!
