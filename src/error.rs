use vstd::prelude::*;

verus! {

/// Why a ledger operation was refused.
#[derive(Debug, Clone, Copy, PartialEq, Eq, Structural)]
pub enum ContractError {
    /// The address has no borrower record.
    UnauthorizedBorrower {},
    /// The borrow would take the borrower's ownership above its limit.
    BorrowLimitReached { limit: u128 },
    /// A delegate's shares would go below zero.
    Underflow {},
    /// A record that the operation reads is not in the store.
    NotFound {},
}

} // verus!
