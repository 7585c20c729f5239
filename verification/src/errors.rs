use vstd::prelude::*;

verus! {

/// Errors reported while interpreting a query.
#[derive(Debug, Clone, Copy, PartialEq, Eq, Structural)]
pub enum SqlError {
    /// The query does not follow the expected syntax.
    InvalidSyntax,
}

} // verus!
