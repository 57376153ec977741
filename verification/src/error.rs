//! Every way a domain value can refuse to be constructed or combined.
use vstd::prelude::*;

verus! {

/// Typed rather than stringly, so a caller can tell a rejected input from a
/// broken invariant.
#[derive(Debug, Clone, PartialEq, Eq)]
pub enum DomainError {
    /// The `Qty` type invariant: long-only, so shares are never negative.
    NegativeQty(i64),
    /// An order *for* zero shares is meaningless (zero is still a legal `Qty`).
    NonPositiveQty(i64),
    NonPositivePx(i64),
    Overflow(&'static str),
    TooManyDecimals { field: &'static str, max: usize, input: String },
    ParseDecimal { field: &'static str, input: String },
    UnexpectedSign { field: &'static str, input: String },
    ParseIdent { field: &'static str, max: usize, allowed: &'static str, input: String },
    ParseDate(String),
}

} // verus!
