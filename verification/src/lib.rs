//! Malipo payments engine: replays a stream of transaction records against
//! per-client accounts while preserving exact bookkeeping invariants.
pub mod domain;
pub mod engine;
pub mod errors;
pub mod laws;
pub mod amounts;
pub mod store;

pub use crate::domain::Account;
pub use crate::domain::Amount;
pub use crate::domain::ClientId;
pub use crate::domain::Transaction;
pub use crate::domain::TransactionId;
pub use crate::domain::TransactionType;
pub use crate::engine::PaymentsEngine;
pub use crate::errors::Fallible;
pub use crate::errors::MalipoError;
pub use crate::store::AccountsMemStore;
pub use crate::store::TransactionsMemStore;
