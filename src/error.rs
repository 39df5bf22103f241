use vstd::prelude::*;

verus! {

/// Failure of a ledger operation.
#[derive(Debug, Clone, Copy, PartialEq, Eq, Structural)]
pub enum LedgerError {
    /// The paying account holds less than the requested amount.
    InsufficientFunds,
    /// Crediting the receiver would exceed the balance type's range.
    ArithmeticOverflow,
}

} // verus!
