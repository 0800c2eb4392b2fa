//! The ledger state machine: a ghost model of the engine state, the spec-level
//! transition it makes for each transaction kind, and the executable engine
//! proved to follow that transition.
use vstd::prelude::*;

use crate::domain::Account;
use crate::domain::Amount;
use crate::domain::ClientId;
use crate::domain::Transaction;
use crate::domain::TransactionId;
use crate::domain::TransactionType;
use crate::errors::Fallible;
use crate::errors::MalipoError;
use crate::store::account_map_of;
use crate::store::distinct_clients;
use crate::store::AccountsMemStore;
use crate::store::TransactionsMemStore;

verus! {

/// The engine's abstract state: all accounts and all persisted transactions.
#[verifier::ext_equal]
pub ghost struct Ledger {
    /// Accounts by client id.
    pub accounts: Map<ClientId, Account>,
    /// Persisted deposit/withdrawal records by transaction id.
    pub transactions: Map<TransactionId, Transaction>,
}

/// The ledger invariant: every account keeps `total == available + held` and
/// sits under its own client id; every persisted record carries an amount and
/// sits under its own transaction id.
pub open spec fn inv(l: Ledger) -> bool {
    &&& forall|c: ClientId|
        l.accounts.contains_key(c) ==> (#[trigger] l.accounts[c]).wf() && l.accounts[c].client_id
            == c
    &&& forall|t: TransactionId|
        l.transactions.contains_key(t) ==> (#[trigger] l.transactions[t]).amount is Some
            && l.transactions[t].id == t
}

/// A transaction record fit to hand to the engine: monetary kinds carry an
/// amount.
pub open spec fn txn_amount_ok(t: Transaction) -> bool {
    (t.type_ == TransactionType::Deposit || t.type_ == TransactionType::Withdrawal)
        ==> t.amount is Some
}

/// The account a handler works on: the stored one, or a fresh zero-balance
/// account created lazily on first reference.
pub open spec fn account_or_initial(l: Ledger, c: ClientId) -> Account {
    if l.accounts.contains_key(c) {
        l.accounts[c]
    } else {
        Account::initial(c)
    }
}

/// The value fits the fixed-point `Amount` range.
pub open spec fn fits(x: int) -> bool {
    i64::MIN <= x <= i64::MAX
}

/// The balance updates of a deposit stay in range.
pub open spec fn deposit_ok(l: Ledger, t: Transaction) -> bool {
    let acc = account_or_initial(l, t.client_id);
    let amt = t.amount.unwrap();
    fits(acc.available + amt) && fits(acc.total + amt)
}

/// Deposit: available and total funds rise by the amount; the record is
/// persisted under its id.
pub open spec fn deposit_step(l: Ledger, t: Transaction) -> Ledger {
    let acc = account_or_initial(l, t.client_id);
    let amt = t.amount.unwrap();
    Ledger {
        accounts: l.accounts.insert(
            t.client_id,
            Account {
                available: (acc.available + amt) as Amount,
                total: (acc.total + amt) as Amount,
                ..acc
            },
        ),
        transactions: l.transactions.insert(t.id, t),
    }
}

/// The balance updates of a withdrawal stay in range (the insufficient-funds
/// path performs no arithmetic).
pub open spec fn withdrawal_ok(l: Ledger, t: Transaction) -> bool {
    let acc = account_or_initial(l, t.client_id);
    let amt = t.amount.unwrap();
    amt > acc.available || (fits(acc.available - amt) && fits(acc.total - amt))
}

/// Withdrawal: available and total funds drop by the amount, unless the
/// amount exceeds the available funds, in which case the account keeps its
/// values; either way the record is persisted under its id.
pub open spec fn withdrawal_step(l: Ledger, t: Transaction) -> Ledger {
    let acc = account_or_initial(l, t.client_id);
    let amt = t.amount.unwrap();
    let acc2 = if amt > acc.available {
        acc
    } else {
        Account {
            available: (acc.available - amt) as Amount,
            total: (acc.total - amt) as Amount,
            ..acc
        }
    };
    Ledger {
        accounts: l.accounts.insert(t.client_id, acc2),
        transactions: l.transactions.insert(t.id, t),
    }
}

/// The balance updates of a dispute stay in range (a dispute of an unknown
/// transaction performs no arithmetic).
pub open spec fn dispute_ok(l: Ledger, t: Transaction) -> bool {
    if !l.transactions.contains_key(t.id) {
        true
    } else {
        let amt = l.transactions[t.id].amount.unwrap();
        let acc = account_or_initial(l, t.client_id);
        fits(acc.held + amt) && fits(acc.available - amt)
    }
}

/// Dispute: when the referenced transaction exists, its amount moves from
/// available to held on the addressed client's account and the record is
/// marked disputed; otherwise the state is unchanged. No check is made on
/// whether the record is already disputed or belongs to the client.
pub open spec fn dispute_step(l: Ledger, t: Transaction) -> Ledger {
    if !l.transactions.contains_key(t.id) {
        l
    } else {
        let prev = l.transactions[t.id];
        let amt = prev.amount.unwrap();
        let acc = account_or_initial(l, t.client_id);
        Ledger {
            accounts: l.accounts.insert(
                t.client_id,
                Account {
                    held: (acc.held + amt) as Amount,
                    available: (acc.available - amt) as Amount,
                    ..acc
                },
            ),
            transactions: l.transactions.insert(t.id, Transaction { disputed: true, ..prev }),
        }
    }
}

/// The balance updates of a resolve stay in range (a resolve that does not
/// act performs no arithmetic).
pub open spec fn resolve_ok(l: Ledger, t: Transaction) -> bool {
    if l.transactions.contains_key(t.id) && l.transactions[t.id].disputed {
        let amt = l.transactions[t.id].amount.unwrap();
        let acc = account_or_initial(l, t.client_id);
        fits(acc.held - amt) && fits(acc.available + amt)
    } else {
        true
    }
}

/// Resolve: only when the referenced transaction exists and is currently
/// disputed, its amount moves back from held to available and the dispute
/// flag is cleared; otherwise the state is unchanged.
pub open spec fn resolve_step(l: Ledger, t: Transaction) -> Ledger {
    if l.transactions.contains_key(t.id) && l.transactions[t.id].disputed {
        let prev = l.transactions[t.id];
        let amt = prev.amount.unwrap();
        let acc = account_or_initial(l, t.client_id);
        Ledger {
            accounts: l.accounts.insert(
                t.client_id,
                Account {
                    held: (acc.held - amt) as Amount,
                    available: (acc.available + amt) as Amount,
                    ..acc
                },
            ),
            transactions: l.transactions.insert(t.id, Transaction { disputed: false, ..prev }),
        }
    } else {
        l
    }
}

/// The balance updates of a chargeback stay in range (a chargeback that does
/// not act performs no arithmetic).
pub open spec fn chargeback_ok(l: Ledger, t: Transaction) -> bool {
    if l.transactions.contains_key(t.id) && l.transactions[t.id].disputed {
        let amt = l.transactions[t.id].amount.unwrap();
        let acc = account_or_initial(l, t.client_id);
        fits(acc.held - amt) && fits(acc.total - amt)
    } else {
        true
    }
}

/// Chargeback: only when the referenced transaction exists and is currently
/// disputed, held and total funds drop by its amount and the account is
/// locked; the dispute flag is not cleared. Otherwise the state is unchanged.
pub open spec fn chargeback_step(l: Ledger, t: Transaction) -> Ledger {
    if l.transactions.contains_key(t.id) && l.transactions[t.id].disputed {
        let prev = l.transactions[t.id];
        let amt = prev.amount.unwrap();
        let acc = account_or_initial(l, t.client_id);
        Ledger {
            accounts: l.accounts.insert(
                t.client_id,
                Account {
                    held: (acc.held - amt) as Amount,
                    total: (acc.total - amt) as Amount,
                    locked: true,
                    ..acc
                },
            ),
            transactions: l.transactions,
        }
    } else {
        l
    }
}

/// The arithmetic of one transaction stays in the fixed-point range.
pub open spec fn step_ok(l: Ledger, t: Transaction) -> bool {
    match t.type_ {
        TransactionType::Chargeback => chargeback_ok(l, t),
        TransactionType::Deposit => deposit_ok(l, t),
        TransactionType::Dispute => dispute_ok(l, t),
        TransactionType::Resolve => resolve_ok(l, t),
        TransactionType::Withdrawal => withdrawal_ok(l, t),
    }
}

/// The transition the engine makes for one transaction.
pub open spec fn step(l: Ledger, t: Transaction) -> Ledger {
    match t.type_ {
        TransactionType::Chargeback => chargeback_step(l, t),
        TransactionType::Deposit => deposit_step(l, t),
        TransactionType::Dispute => dispute_step(l, t),
        TransactionType::Resolve => resolve_step(l, t),
        TransactionType::Withdrawal => withdrawal_step(l, t),
    }
}

/// The transition actually taken for one record: `step` when its arithmetic
/// stays in range, otherwise the state is left as it was (the engine reports
/// the overflow and changes nothing).
pub open spec fn step_total(l: Ledger, t: Transaction) -> Ledger {
    if step_ok(l, t) {
        step(l, t)
    } else {
        l
    }
}

/// Replay a whole sequence of records, one at a time, in arrival order.
pub open spec fn run(l: Ledger, ts: Seq<Transaction>) -> Ledger
    decreases ts.len(),
{
    if ts.len() == 0 {
        l
    } else {
        run(step_total(l, ts[0]), ts.drop_first())
    }
}

/// The whole sequence replays without any balance update leaving the
/// fixed-point range.
pub open spec fn run_ok(l: Ledger, ts: Seq<Transaction>) -> bool
    decreases ts.len(),
{
    ts.len() == 0 || (step_ok(l, ts[0]) && run_ok(step_total(l, ts[0]), ts.drop_first()))
}

/// Every record of the sequence that needs an amount carries one.
pub open spec fn all_amounts_ok(ts: Seq<Transaction>) -> bool {
    forall|i: int| 0 <= i < ts.len() ==> txn_amount_ok(#[trigger] ts[i])
}

/// Replaying one more record at the end takes one more transition.
pub proof fn lemma_run_snoc(l: Ledger, ts: Seq<Transaction>, t: Transaction)
    ensures
        run(l, ts.push(t)) == step_total(run(l, ts), t),
    decreases ts.len(),
{
    if ts.len() == 0 {
        assert(ts.push(t)[0] == t);
        assert(ts.push(t).drop_first() =~= ts);
        assert(run(l, ts.push(t)) == run(step_total(l, t), ts));
    } else {
        assert(ts.push(t)[0] == ts[0]);
        assert(ts.push(t).drop_first() =~= ts.drop_first().push(t));
        lemma_run_snoc(step_total(l, ts[0]), ts.drop_first(), t);
        assert(run(l, ts.push(t)) == run(step_total(l, ts[0]), ts.drop_first().push(t)));
        assert(run(l, ts) == run(step_total(l, ts[0]), ts.drop_first()));
    }
}

/// A run stays in range with one more record exactly when the run so far
/// stays in range and the last transition does.
pub proof fn lemma_run_ok_snoc(l: Ledger, ts: Seq<Transaction>, t: Transaction)
    ensures
        run_ok(l, ts.push(t)) == (run_ok(l, ts) && step_ok(run(l, ts), t)),
    decreases ts.len(),
{
    lemma_run_snoc(l, ts, t);
    if ts.len() == 0 {
        assert(ts.push(t)[0] == t);
        assert(ts.push(t).drop_first() =~= ts);
        assert(run_ok(l, ts.push(t)) == (step_ok(l, t) && run_ok(step_total(l, t), ts)));
    } else {
        assert(ts.push(t)[0] == ts[0]);
        assert(ts.push(t).drop_first() =~= ts.drop_first().push(t));
        lemma_run_ok_snoc(step_total(l, ts[0]), ts.drop_first(), t);
        assert(run_ok(l, ts.push(t)) == (step_ok(l, ts[0]) && run_ok(
            step_total(l, ts[0]),
            ts.drop_first().push(t),
        )));
        assert(run_ok(l, ts) == (step_ok(l, ts[0]) && run_ok(
            step_total(l, ts[0]),
            ts.drop_first(),
        )));
        assert(run(l, ts) == run(step_total(l, ts[0]), ts.drop_first()));
    }
}

/// Every prefix of a run that stays in range stays in range.
pub proof fn lemma_run_ok_prefix(l: Ledger, ts: Seq<Transaction>, j: int)
    requires
        0 <= j <= ts.len(),
        run_ok(l, ts),
    ensures
        run_ok(l, ts.take(j)),
    decreases j,
{
    if j > 0 {
        assert(ts.take(j)[0] == ts[0]);
        assert(ts.take(j).drop_first() =~= ts.drop_first().take(j - 1));
        lemma_run_ok_prefix(step_total(l, ts[0]), ts.drop_first(), j - 1);
    }
}

/// The payments engine: owns the two stores and replays transactions against
/// them, one at a time.
pub struct PaymentsEngine {
    accounts: AccountsMemStore,
    transactions: TransactionsMemStore,
}

impl View for PaymentsEngine {
    type V = Ledger;

    closed spec fn view(&self) -> Ledger {
        Ledger { accounts: self.accounts@, transactions: self.transactions@ }
    }
}

impl PaymentsEngine {
    /// Both stores are well formed and the abstract state satisfies the
    /// ledger invariant.
    pub closed spec fn wf(self) -> bool {
        self.accounts.wf() && self.transactions.wf() && inv(self@)
    }

    /// Create an engine over the given stores.
    pub fn new(accounts: AccountsMemStore, transactions: TransactionsMemStore) -> (r:
        PaymentsEngine)
        requires
            accounts.wf(),
            transactions.wf(),
            inv(Ledger { accounts: accounts@, transactions: transactions@ }),
        ensures
            r.wf(),
            r@ == (Ledger { accounts: accounts@, transactions: transactions@ }),
    {
        PaymentsEngine { accounts, transactions }
    }

    /// Execute one transaction: the state moves exactly by `step`, and the
    /// ledger invariant is preserved. The only error is `AmountOverflow`,
    /// returned with the state unchanged when a balance update would leave
    /// the fixed-point range; domain conditions (an unknown referenced
    /// transaction, insufficient funds) are recovered silently inside the
    /// matching `step` case.
    pub fn execute_transaction(&mut self, txn: Transaction) -> (r: Fallible<()>)
        requires
            old(self).wf(),
            txn_amount_ok(txn),
        ensures
            final(self).wf(),
            step_ok(old(self)@, txn) ==> r is Ok && final(self)@ == step(old(self)@, txn),
            !step_ok(old(self)@, txn) ==> r == Fallible::<()>::Err(MalipoError::AmountOverflow)
                && final(self)@ == old(self)@,
    {
        match txn.type_ {
            TransactionType::Chargeback => self.chargeback(txn),
            TransactionType::Deposit => self.deposit(txn),
            TransactionType::Dispute => self.dispute(txn),
            TransactionType::Resolve => self.resolve(txn),
            TransactionType::Withdrawal => self.withdrawal(txn),
        }
    }

    /// Replay a whole sequence of records, in order, stopping at the first
    /// error. When every balance update stays in range, the state moves
    /// exactly by `run`; otherwise the overflow is reported and the state
    /// holds the records already replayed.
    pub fn execute_all(&mut self, txns: &Vec<Transaction>) -> (r: Fallible<()>)
        requires
            old(self).wf(),
            all_amounts_ok(txns@),
        ensures
            final(self).wf(),
            run_ok(old(self)@, txns@) ==> r is Ok && final(self)@ == run(old(self)@, txns@),
            !run_ok(old(self)@, txns@) ==> r == Fallible::<()>::Err(MalipoError::AmountOverflow)
                && exists|j: int|
                #![auto]
                0 <= j < txns@.len() && run_ok(old(self)@, txns@.take(j)) && !step_ok(
                    run(old(self)@, txns@.take(j)),
                    txns@[j],
                ) && final(self)@ == run(old(self)@, txns@.take(j)),
    {
        let n = txns.len();
        let mut i: usize = 0;
        while i < n
            invariant
                n == txns.len(),
                i <= n,
                self.wf(),
                all_amounts_ok(txns@),
                run_ok(old(self)@, txns@.take(i as int)),
                self@ == run(old(self)@, txns@.take(i as int)),
            decreases n - i,
        {
            let ghost pre = self@;
            let t = txns[i];
            let r = self.execute_transaction(t);
            proof {
                lemma_run_snoc(old(self)@, txns@.take(i as int), t);
                lemma_run_ok_snoc(old(self)@, txns@.take(i as int), t);
                assert(txns@.take(i + 1) =~= txns@.take(i as int).push(t));
            }
            if let Err(e) = r {
                proof {
                    assert(!step_ok(pre, t));
                    assert(!run_ok(old(self)@, txns@.take(i + 1)));
                    if run_ok(old(self)@, txns@) {
                        lemma_run_ok_prefix(old(self)@, txns@, i + 1);
                    }
                    assert(0 <= i < txns@.len() && run_ok(old(self)@, txns@.take(i as int))
                        && !step_ok(run(old(self)@, txns@.take(i as int)), txns@[i as int])
                        && self@ == run(old(self)@, txns@.take(i as int)));
                }
                return Err(e);
            }
            i += 1;
        }
        proof {
            assert(txns@.take(n as int) =~= txns@);
        }
        Ok(())
    }

    /// Snapshot of all accounts, in insertion order: a sequence with distinct
    /// client ids that stands for exactly the ledger's account map.
    pub fn accounts(&self) -> (r: Fallible<Vec<Account>>)
        requires
            self.wf(),
        ensures
            r matches Ok(v) && account_map_of(v@) == self@.accounts && distinct_clients(v@)
                && v@.len() == self@.accounts.dom().len(),
    {
        self.accounts.iter()
    }

    /// The stored account for the client, or a fresh one, matching
    /// `account_or_initial` on the abstract state.
    fn fetch_account(&self, client_id: ClientId) -> (r: Account)
        requires
            self.wf(),
        ensures
            r == account_or_initial(self@, client_id),
    {
        match self.accounts.lookup(client_id) {
            Some(a) => a,
            None => Account::new(client_id),
        }
    }

    /// The checked sum, or `None` when it leaves the `Amount` range.
    fn add_amount(a: Amount, b: Amount) -> (r: Option<Amount>)
        ensures
            fits(a + b) ==> r == Some((a + b) as Amount),
            !fits(a + b) ==> r is None,
    {
        let wide: i128 = a as i128 + b as i128;
        if wide < i64::MIN as i128 || wide > i64::MAX as i128 {
            None
        } else {
            Some(wide as i64)
        }
    }

    /// The checked difference, or `None` when it leaves the `Amount` range.
    fn sub_amount(a: Amount, b: Amount) -> (r: Option<Amount>)
        ensures
            fits(a - b) ==> r == Some((a - b) as Amount),
            !fits(a - b) ==> r is None,
    {
        let wide: i128 = a as i128 - b as i128;
        if wide < i64::MIN as i128 || wide > i64::MAX as i128 {
            None
        } else {
            Some(wide as i64)
        }
    }

    /// A deposit is a credit to the client's asset account: it increases the
    /// available and total funds and persists the record.
    fn deposit(&mut self, txn: Transaction) -> (r: Fallible<()>)
        requires
            old(self).wf(),
            txn.type_ == TransactionType::Deposit,
            txn.amount is Some,
        ensures
            final(self).wf(),
            deposit_ok(old(self)@, txn) ==> r is Ok && final(self)@ == deposit_step(
                old(self)@,
                txn,
            ),
            !deposit_ok(old(self)@, txn) ==> r == Fallible::<()>::Err(MalipoError::AmountOverflow)
                && final(self)@ == old(self)@,
    {
        let amount = txn.amount.unwrap();
        let mut acc = self.fetch_account(txn.client_id);
        let available = Self::add_amount(acc.available, amount);
        let total = Self::add_amount(acc.total, amount);
        if available.is_none() || total.is_none() {
            return Err(MalipoError::AmountOverflow);
        }
        acc.deposit(amount);
        self.accounts.update(acc)?;
        self.transactions.create(txn)?;
        proof {
            assert(self@ =~= deposit_step(old(self)@, txn));
            lemma_insert_keeps_inv(
                old(self)@,
                self@,
                txn.client_id,
                self@.accounts[txn.client_id],
                txn.id,
                txn,
            );
        }
        Ok(())
    }

    /// A withdrawal is a debit to the client's asset account: it decreases
    /// the available and total funds; one that exceeds the available funds
    /// changes no balance. Either way the record is persisted.
    fn withdrawal(&mut self, txn: Transaction) -> (r: Fallible<()>)
        requires
            old(self).wf(),
            txn.type_ == TransactionType::Withdrawal,
            txn.amount is Some,
        ensures
            final(self).wf(),
            withdrawal_ok(old(self)@, txn) ==> r is Ok && final(self)@ == withdrawal_step(
                old(self)@,
                txn,
            ),
            !withdrawal_ok(old(self)@, txn) ==> r == Fallible::<()>::Err(
                MalipoError::AmountOverflow,
            ) && final(self)@ == old(self)@,
    {
        let amount = txn.amount.unwrap();
        let mut acc = self.fetch_account(txn.client_id);
        if amount <= acc.available {
            let available = Self::sub_amount(acc.available, amount);
            let total = Self::sub_amount(acc.total, amount);
            if available.is_none() || total.is_none() {
                return Err(MalipoError::AmountOverflow);
            }
        }
        match acc.withdraw(amount) {
            Ok(_) => {},
            Err(MalipoError::InsufficientAccountFunds) => {},
            Err(e) => {
                return Err(e);
            },
        }
        self.accounts.update(acc)?;
        self.transactions.create(txn)?;
        proof {
            assert(self@ =~= withdrawal_step(old(self)@, txn));
            lemma_insert_keeps_inv(
                old(self)@,
                self@,
                txn.client_id,
                self@.accounts[txn.client_id],
                txn.id,
                txn,
            );
        }
        Ok(())
    }

    /// A dispute holds the referenced transaction's amount: available funds
    /// drop and held funds rise by it, and the record is marked disputed. An
    /// unknown reference is silently ignored.
    fn dispute(&mut self, txn: Transaction) -> (r: Fallible<()>)
        requires
            old(self).wf(),
            txn.type_ == TransactionType::Dispute,
        ensures
            final(self).wf(),
            dispute_ok(old(self)@, txn) ==> r is Ok && final(self)@ == dispute_step(
                old(self)@,
                txn,
            ),
            !dispute_ok(old(self)@, txn) ==> r == Fallible::<()>::Err(MalipoError::AmountOverflow)
                && final(self)@ == old(self)@,
    {
        let mut prev = match self.transactions.get(txn.id) {
            Ok(p) => p,
            Err(MalipoError::TransactionNotFound(_)) => {
                return Ok(());
            },
            Err(e) => {
                return Err(e);
            },
        };
        let amount = prev.amount.unwrap();
        let mut acc = self.fetch_account(txn.client_id);
        let held = Self::add_amount(acc.held, amount);
        let available = Self::sub_amount(acc.available, amount);
        if held.is_none() || available.is_none() {
            return Err(MalipoError::AmountOverflow);
        }
        acc.dispute(amount);
        self.accounts.update(acc)?;
        prev.mark_as_disputed();
        self.transactions.update(prev)?;
        proof {
            assert(self@ =~= dispute_step(old(self)@, txn));
            lemma_insert_keeps_inv(
                old(self)@,
                self@,
                txn.client_id,
                self@.accounts[txn.client_id],
                prev.id,
                prev,
            );
        }
        Ok(())
    }

    /// A resolve releases held funds: only when the referenced transaction is
    /// currently disputed, held funds drop and available funds rise by its
    /// amount, and the dispute flag is cleared. Anything else is silently
    /// ignored.
    fn resolve(&mut self, txn: Transaction) -> (r: Fallible<()>)
        requires
            old(self).wf(),
            txn.type_ == TransactionType::Resolve,
        ensures
            final(self).wf(),
            resolve_ok(old(self)@, txn) ==> r is Ok && final(self)@ == resolve_step(
                old(self)@,
                txn,
            ),
            !resolve_ok(old(self)@, txn) ==> r == Fallible::<()>::Err(MalipoError::AmountOverflow)
                && final(self)@ == old(self)@,
    {
        let mut prev = match self.transactions.get(txn.id) {
            Ok(p) => p,
            Err(MalipoError::TransactionNotFound(_)) => {
                return Ok(());
            },
            Err(e) => {
                return Err(e);
            },
        };
        if !prev.is_disputed() {
            return Ok(());
        }
        let amount = prev.amount.unwrap();
        let mut acc = self.fetch_account(txn.client_id);
        let held = Self::sub_amount(acc.held, amount);
        let available = Self::add_amount(acc.available, amount);
        if held.is_none() || available.is_none() {
            return Err(MalipoError::AmountOverflow);
        }
        acc.resolve(amount);
        self.accounts.update(acc)?;
        prev.resolve_dispute();
        self.transactions.update(prev)?;
        proof {
            assert(self@ =~= resolve_step(old(self)@, txn));
            lemma_insert_keeps_inv(
                old(self)@,
                self@,
                txn.client_id,
                self@.accounts[txn.client_id],
                prev.id,
                prev,
            );
        }
        Ok(())
    }

    /// A chargeback finalizes a dispute as a reversal: only when the
    /// referenced transaction is currently disputed, held and total funds
    /// drop by its amount and the account is locked. The dispute flag stays
    /// set. Anything else is silently ignored.
    fn chargeback(&mut self, txn: Transaction) -> (r: Fallible<()>)
        requires
            old(self).wf(),
            txn.type_ == TransactionType::Chargeback,
        ensures
            final(self).wf(),
            chargeback_ok(old(self)@, txn) ==> r is Ok && final(self)@ == chargeback_step(
                old(self)@,
                txn,
            ),
            !chargeback_ok(old(self)@, txn) ==> r == Fallible::<()>::Err(
                MalipoError::AmountOverflow,
            ) && final(self)@ == old(self)@,
    {
        let prev = match self.transactions.get(txn.id) {
            Ok(p) => p,
            Err(MalipoError::TransactionNotFound(_)) => {
                return Ok(());
            },
            Err(e) => {
                return Err(e);
            },
        };
        if !prev.is_disputed() {
            return Ok(());
        }
        let amount = prev.amount.unwrap();
        let mut acc = self.fetch_account(txn.client_id);
        let held = Self::sub_amount(acc.held, amount);
        let total = Self::sub_amount(acc.total, amount);
        if held.is_none() || total.is_none() {
            return Err(MalipoError::AmountOverflow);
        }
        acc.chargeback(amount);
        self.accounts.update(acc)?;
        proof {
            assert(self@ =~= chargeback_step(old(self)@, txn));
            assert forall|c2: ClientId| self@.accounts.contains_key(c2) implies (
            #[trigger] self@.accounts[c2]).wf() && self@.accounts[c2].client_id == c2 by {
                if c2 != txn.client_id {
                    assert(old(self)@.accounts.contains_key(c2));
                }
            };
        }
        Ok(())
    }
}

/// Inserting a well-formed account under its client id and a record with an
/// amount under its transaction id keeps the ledger invariant.
pub(crate) proof fn lemma_insert_keeps_inv(
    l0: Ledger,
    l1: Ledger,
    c: ClientId,
    a: Account,
    t: TransactionId,
    x: Transaction,
)
    requires
        inv(l0),
        a.wf(),
        a.client_id == c,
        x.amount is Some,
        x.id == t,
        l1.accounts == l0.accounts.insert(c, a),
        l1.transactions == l0.transactions.insert(t, x),
    ensures
        inv(l1),
{
    assert forall|c2: ClientId| l1.accounts.contains_key(c2) implies (
    #[trigger] l1.accounts[c2]).wf() && l1.accounts[c2].client_id == c2 by {
        if c2 != c {
            assert(l0.accounts.contains_key(c2));
        }
    };
    assert forall|t2: TransactionId| l1.transactions.contains_key(t2) implies (
    #[trigger] l1.transactions[t2]).amount is Some && l1.transactions[t2].id == t2 by {
        if t2 != t {
            assert(l0.transactions.contains_key(t2));
        }
    };
}

} // verus!
