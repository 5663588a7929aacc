use vstd::prelude::*;

verus! {

/// Every way a ledger operation can fail. A failing operation leaves the
/// ledger exactly as it was.
#[derive(Debug, Clone)]
pub enum NeuroError {
    /// Zero or otherwise out-of-domain amount.
    InvalidAmount(u128),
    /// An addition would leave the 128-bit range.
    Overflow,
    /// The account id is unknown to the ledger.
    AccountNotFound(String),
    /// The symbol is not registered, or the account holds no entry for it.
    TokenNotFound(String),
    /// The symbol is registered with other metadata.
    TokenConflict(String),
    /// A debit exceeds the holding.
    InsufficientBalance { required: u128, available: u128 },
    /// Source and destination of a transfer are the same account.
    SelfTransfer,
    /// Any other failure.
    General(String),
}

pub type NeuroResult<T> = Result<T, NeuroError>;

} // verus!
