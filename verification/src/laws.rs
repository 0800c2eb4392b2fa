//! Laws of the ledger state machine, stated and proved over the spec-level
//! transition `step`: what whole runs preserve, and which records are no-ops.
use vstd::prelude::*;

use crate::domain::ClientId;
use crate::domain::Transaction;
use crate::domain::TransactionType;
use crate::engine::account_or_initial;
use crate::engine::all_amounts_ok;
use crate::engine::chargeback_step;
use crate::engine::inv;
use crate::engine::lemma_insert_keeps_inv;
use crate::engine::run;
use crate::engine::step;
use crate::engine::step_ok;
use crate::engine::step_total;
use crate::engine::txn_amount_ok;
use crate::engine::Ledger;

verus! {

/// Every record of the sequence is a deposit (with its amount).
pub open spec fn all_deposits(ts: Seq<Transaction>) -> bool {
    forall|i: int|
        0 <= i < ts.len() ==> (#[trigger] ts[i]).type_ == TransactionType::Deposit
            && ts[i].amount is Some
}

/// No account holds any disputed funds.
pub open spec fn no_held(l: Ledger) -> bool {
    forall|c: ClientId| l.accounts.contains_key(c) ==> (#[trigger] l.accounts[c]).held == 0
}

/// One transition keeps the ledger invariant: afterwards every account still
/// satisfies `total == available + held` exactly, since every handler updates
/// the balances in matching pairs.
pub proof fn lemma_step_preserves_inv(l: Ledger, t: Transaction)
    requires
        inv(l),
        txn_amount_ok(t),
    ensures
        inv(step_total(l, t)),
{
    if step_ok(l, t) {
        let l1 = step(l, t);
        let acc = account_or_initial(l, t.client_id);
        assert(acc.wf() && acc.client_id == t.client_id);
        match t.type_ {
            TransactionType::Deposit => {
                lemma_insert_keeps_inv(l, l1, t.client_id, l1.accounts[t.client_id], t.id, t);
            },
            TransactionType::Withdrawal => {
                lemma_insert_keeps_inv(l, l1, t.client_id, l1.accounts[t.client_id], t.id, t);
            },
            TransactionType::Dispute => {
                if l.transactions.contains_key(t.id) {
                    let prev = l.transactions[t.id];
                    lemma_insert_keeps_inv(
                        l,
                        l1,
                        t.client_id,
                        l1.accounts[t.client_id],
                        t.id,
                        Transaction { disputed: true, ..prev },
                    );
                }
            },
            TransactionType::Resolve => {
                if l.transactions.contains_key(t.id) && l.transactions[t.id].disputed {
                    let prev = l.transactions[t.id];
                    lemma_insert_keeps_inv(
                        l,
                        l1,
                        t.client_id,
                        l1.accounts[t.client_id],
                        t.id,
                        Transaction { disputed: false, ..prev },
                    );
                }
            },
            TransactionType::Chargeback => {
                if l.transactions.contains_key(t.id) && l.transactions[t.id].disputed {
                    assert forall|c2: ClientId| l1.accounts.contains_key(c2) implies (
                    #[trigger] l1.accounts[c2]).wf() && l1.accounts[c2].client_id == c2 by {
                        if c2 != t.client_id {
                            assert(l.accounts.contains_key(c2));
                        }
                    };
                }
            },
        }
    }
}

/// A whole run keeps the ledger invariant: at all times, every account
/// satisfies `total == available + held` exactly.
pub proof fn lemma_run_preserves_inv(l: Ledger, ts: Seq<Transaction>)
    requires
        inv(l),
        all_amounts_ok(ts),
    ensures
        inv(run(l, ts)),
    decreases ts.len(),
{
    if ts.len() > 0 {
        lemma_step_preserves_inv(l, ts[0]);
        assert(all_amounts_ok(ts.drop_first()));
        lemma_run_preserves_inv(step_total(l, ts[0]), ts.drop_first());
    }
}

/// For a run of only deposits, every account keeps `held == 0` and therefore
/// `total == available`.
pub proof fn lemma_deposits_only(l: Ledger, ts: Seq<Transaction>)
    requires
        inv(l),
        no_held(l),
        all_deposits(ts),
    ensures
        inv(run(l, ts)),
        no_held(run(l, ts)),
        forall|c: ClientId|
            run(l, ts).accounts.contains_key(c) ==> (#[trigger] run(l, ts).accounts[c]).total
                == run(l, ts).accounts[c].available,
    decreases ts.len(),
{
    if ts.len() == 0 {
    } else {
        let t = ts[0];
        let l1 = step_total(l, t);
        lemma_step_preserves_inv(l, t);
        assert forall|c: ClientId| l1.accounts.contains_key(c) implies (
        #[trigger] l1.accounts[c]).held == 0 by {
            if step_ok(l, t) && c == t.client_id {
                assert(account_or_initial(l, c).held == 0);
            } else {
                assert(l.accounts.contains_key(c));
            }
        };
        assert(all_deposits(ts.drop_first()));
        lemma_deposits_only(l1, ts.drop_first());
    }
}

/// Disputing a transaction that does not exist is a no-op: the ledger before
/// and after is identical (and no overflow can arise).
pub proof fn lemma_dispute_unknown_is_noop(l: Ledger, t: Transaction)
    requires
        t.type_ == TransactionType::Dispute,
        !l.transactions.contains_key(t.id),
    ensures
        step_ok(l, t),
        step_total(l, t) == l,
{
}

/// Resolving a transaction that is not currently disputed (or unknown) is a
/// no-op.
pub proof fn lemma_resolve_undisputed_is_noop(l: Ledger, t: Transaction)
    requires
        t.type_ == TransactionType::Resolve,
        l.transactions.contains_key(t.id) ==> !l.transactions[t.id].disputed,
    ensures
        step_ok(l, t),
        step_total(l, t) == l,
{
}

/// Charging back a transaction that is not currently disputed (or unknown) is
/// a no-op.
pub proof fn lemma_chargeback_undisputed_is_noop(l: Ledger, t: Transaction)
    requires
        t.type_ == TransactionType::Chargeback,
        l.transactions.contains_key(t.id) ==> !l.transactions[t.id].disputed,
    ensures
        step_ok(l, t),
        step_total(l, t) == l,
{
}

/// A chargeback that acts locks the account.
pub proof fn lemma_chargeback_locks(l: Ledger, t: Transaction)
    requires
        t.type_ == TransactionType::Chargeback,
        l.transactions.contains_key(t.id),
        l.transactions[t.id].disputed,
        step_ok(l, t),
    ensures
        step(l, t).accounts.contains_key(t.client_id),
        step(l, t).accounts[t.client_id].locked,
{
    assert(step(l, t) == chargeback_step(l, t));
}

/// A locked account never unlocks: no single transition resets `locked`.
pub proof fn lemma_locked_stays(l: Ledger, t: Transaction, c: ClientId)
    requires
        l.accounts.contains_key(c),
        l.accounts[c].locked,
    ensures
        step_total(l, t).accounts.contains_key(c),
        step_total(l, t).accounts[c].locked,
{
    if step_ok(l, t) && t.client_id == c {
        assert(account_or_initial(l, c) == l.accounts[c]);
    }
}

/// A locked account never unlocks, over a whole run.
pub proof fn lemma_locked_stays_run(l: Ledger, ts: Seq<Transaction>, c: ClientId)
    requires
        l.accounts.contains_key(c),
        l.accounts[c].locked,
    ensures
        run(l, ts).accounts.contains_key(c),
        run(l, ts).accounts[c].locked,
    decreases ts.len(),
{
    if ts.len() > 0 {
        lemma_locked_stays(l, ts[0], c);
        lemma_locked_stays_run(step_total(l, ts[0]), ts.drop_first(), c);
    }
}

/// Applying a second resolve immediately after a successful resolve changes
/// nothing: the first one cleared the dispute flag.
pub proof fn lemma_resolve_idempotent(l: Ledger, t: Transaction)
    requires
        t.type_ == TransactionType::Resolve,
        l.transactions.contains_key(t.id),
        l.transactions[t.id].disputed,
        step_ok(l, t),
    ensures
        step_total(step(l, t), t) == step(l, t),
{
    let l1 = step(l, t);
    assert(l1.transactions.contains_key(t.id));
    assert(!l1.transactions[t.id].disputed);
    lemma_resolve_undisputed_is_noop(l1, t);
}

/// A withdrawal exceeding the available funds leaves the account numerically
/// unchanged, but the record is still persisted, so a later dispute can
/// reference it.
pub proof fn lemma_withdrawal_insufficient(l: Ledger, t: Transaction)
    requires
        t.type_ == TransactionType::Withdrawal,
        t.amount is Some,
        t.amount.unwrap() > account_or_initial(l, t.client_id).available,
    ensures
        step_ok(l, t),
        step(l, t).accounts == l.accounts.insert(t.client_id, account_or_initial(l, t.client_id)),
        step(l, t).accounts[t.client_id] == account_or_initial(l, t.client_id),
        step(l, t).transactions == l.transactions.insert(t.id, t),
        step(l, t).transactions.contains_key(t.id),
        step(l, t).transactions[t.id] == t,
{
}

} // verus!
