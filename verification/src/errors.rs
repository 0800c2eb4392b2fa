//! Error channel of the engine and stores.
use vstd::prelude::*;

use crate::domain::ClientId;
use crate::domain::TransactionId;

verus! {

/// A result where the error channel is `MalipoError`.
pub type Fallible<T> = Result<T, MalipoError>;

/// All engine-level errors.
///
/// I/O and decoding failures of the surrounding program are not represented
/// here: the engine itself only speaks of accounts, transactions and amounts.
#[derive(Clone, Copy, Debug, PartialEq, Eq, Structural)]
pub enum MalipoError {
    /// No account exists for the given client id (raised only by store
    /// implementations that refuse to create accounts lazily).
    AccountNotFound(ClientId),
    /// No transaction is stored under the given transaction id.
    TransactionNotFound(TransactionId),
    /// A withdrawal asked for more than the account's available funds.
    InsufficientAccountFunds,
    /// A balance update would leave the fixed-point range of `Amount`.
    AmountOverflow,
}

} // verus!
