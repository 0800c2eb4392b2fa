//! Data model: accounts, transactions, and the bookkeeping invariant.
use vstd::prelude::*;

use crate::errors::Fallible;
use crate::errors::MalipoError;

verus! {

/// Client identifier.
pub type ClientId = u16;

/// Transaction identifier.
pub type TransactionId = u32;

/// Monetary amount, as an exact fixed-point number of ten-thousandths of a
/// currency unit (so `17700` stands for `1.7700`).
pub type Amount = i64;

/// Transaction kind.
#[derive(Clone, Copy, Debug, PartialEq, Eq, Structural)]
pub enum TransactionType {
    /// Finalize a dispute as a reversal; locks the account.
    Chargeback,
    /// Credit the client's account.
    Deposit,
    /// Claim that a prior transaction is erroneous; holds its amount.
    Dispute,
    /// Cancel a dispute, releasing the held amount.
    Resolve,
    /// Debit the client's account.
    Withdrawal,
}

/// A client's account: balances plus the lock set by a chargeback.
#[derive(Clone, Copy, Debug, PartialEq, Eq, Structural)]
pub struct Account {
    /// Client identifier.
    pub client_id: ClientId,
    /// Funds usable for withdrawal.
    pub available: Amount,
    /// Funds frozen pending dispute resolution.
    pub held: Amount,
    /// Full balance; every mutator keeps it equal to `available + held`.
    pub total: Amount,
    /// True once a chargeback has occurred; never reset.
    pub locked: bool,
}

impl Account {
    /// The bookkeeping invariant: the total is exactly the sum of the
    /// available and the held funds.
    pub open spec fn wf(self) -> bool {
        self.total == self.available + self.held
    }

    /// The freshly created account for a client: all balances zero, unlocked.
    pub open spec fn initial(client_id: ClientId) -> Account {
        Account { client_id, available: 0, held: 0, total: 0, locked: false }
    }

    /// Create a new account with zero balances, unlocked.
    pub fn new(client_id: ClientId) -> (r: Account)
        ensures
            r == Account::initial(client_id),
    {
        Account { client_id, available: 0, held: 0, total: 0, locked: false }
    }

    /// Perform a chargeback on this account: the held and total funds drop by
    /// the disputed amount and the account is locked.
    pub fn chargeback(&mut self, amount: Amount)
        requires
            i64::MIN <= old(self).held - amount <= i64::MAX,
            i64::MIN <= old(self).total - amount <= i64::MAX,
        ensures
            *final(self) == (Account {
                held: (old(self).held - amount) as Amount,
                total: (old(self).total - amount) as Amount,
                locked: true,
                ..*old(self)
            }),
    {
        self.held = self.held - amount;
        self.total = self.total - amount;
        self.locked = true;
    }

    /// Deposit into this account: available and total funds rise by the amount.
    pub fn deposit(&mut self, amount: Amount)
        requires
            i64::MIN <= old(self).available + amount <= i64::MAX,
            i64::MIN <= old(self).total + amount <= i64::MAX,
        ensures
            *final(self) == (Account {
                available: (old(self).available + amount) as Amount,
                total: (old(self).total + amount) as Amount,
                ..*old(self)
            }),
    {
        self.available = self.available + amount;
        self.total = self.total + amount;
    }

    /// Dispute the amount on this account: it moves from available to held.
    /// Unconditional: this can drive `available` negative if the funds were
    /// already spent, which is accepted domain behavior.
    pub fn dispute(&mut self, amount: Amount)
        requires
            i64::MIN <= old(self).held + amount <= i64::MAX,
            i64::MIN <= old(self).available - amount <= i64::MAX,
        ensures
            *final(self) == (Account {
                held: (old(self).held + amount) as Amount,
                available: (old(self).available - amount) as Amount,
                ..*old(self)
            }),
    {
        self.held = self.held + amount;
        self.available = self.available - amount;
    }

    /// Resolve a dispute: the amount moves back from held to available.
    pub fn resolve(&mut self, amount: Amount)
        requires
            i64::MIN <= old(self).held - amount <= i64::MAX,
            i64::MIN <= old(self).available + amount <= i64::MAX,
        ensures
            *final(self) == (Account {
                held: (old(self).held - amount) as Amount,
                available: (old(self).available + amount) as Amount,
                ..*old(self)
            }),
    {
        self.held = self.held - amount;
        self.available = self.available + amount;
    }

    /// Withdraw funds: fails with `InsufficientAccountFunds` and changes
    /// nothing when the amount exceeds the available funds; otherwise the
    /// available and total funds drop by the amount.
    pub fn withdraw(&mut self, amount: Amount) -> (r: Fallible<()>)
        requires
            amount <= old(self).available ==> i64::MIN <= old(self).available - amount <= i64::MAX
                && i64::MIN <= old(self).total - amount <= i64::MAX,
        ensures
            amount > old(self).available ==> r == Fallible::<()>::Err(
                MalipoError::InsufficientAccountFunds,
            ) && *final(self) == *old(self),
            amount <= old(self).available ==> r == Fallible::<()>::Ok(()) && *final(self) == (
            Account {
                available: (old(self).available - amount) as Amount,
                total: (old(self).total - amount) as Amount,
                ..*old(self)
            }),
    {
        if amount > self.available {
            return Err(MalipoError::InsufficientAccountFunds);
        }
        self.available = self.available - amount;
        self.total = self.total - amount;
        Ok(())
    }

    /// Check if the account is frozen/locked.
    pub fn is_frozen(&self) -> (r: bool)
        ensures
            r == self.locked,
    {
        self.locked
    }

    /// Report whether the bookkeeping invariant holds of this account.
    pub fn check_invariants(&self) -> (r: bool)
        ensures
            r == self.wf(),
    {
        let wide_total: i128 = self.available as i128 + self.held as i128;
        self.total as i128 == wide_total
    }
}

/// An immutable record of a requested operation, carrying mutable dispute
/// status. Only deposits and withdrawals are ever persisted; the other kinds
/// reference a persisted record by id.
#[derive(Clone, Copy, Debug, PartialEq, Eq, Structural)]
pub struct Transaction {
    /// Transaction kind.
    pub type_: TransactionType,
    /// Client whose account the record addresses.
    pub client_id: ClientId,
    /// Transaction identifier; unique among persisted deposits/withdrawals.
    pub id: TransactionId,
    /// Amount, present exactly for deposits and withdrawals.
    pub amount: Option<Amount>,
    /// True while the record is under an active dispute.
    pub disputed: bool,
}

impl Transaction {
    /// Mark the record as disputed.
    pub fn mark_as_disputed(&mut self)
        ensures
            *final(self) == (Transaction { disputed: true, ..*old(self) }),
    {
        self.disputed = true;
    }

    /// Check if the record is under an active dispute.
    pub fn is_disputed(&self) -> (r: bool)
        ensures
            r == self.disputed,
    {
        self.disputed
    }

    /// Clear the dispute flag.
    pub fn resolve_dispute(&mut self)
        ensures
            *final(self) == (Transaction { disputed: false, ..*old(self) }),
    {
        self.disputed = false;
    }
}

} // verus!
