//! Scenario tests for the payments engine. Amounts are fixed-point in
//! ten-thousandths of a unit, so `1.77` is written `17700`.
use malipo::Account;
use malipo::AccountsMemStore;
use malipo::Amount;
use malipo::ClientId;
use malipo::MalipoError;
use malipo::PaymentsEngine;
use malipo::Transaction;
use malipo::TransactionId;
use malipo::TransactionsMemStore;
use malipo::TransactionType;

fn engine() -> PaymentsEngine {
    PaymentsEngine::new(AccountsMemStore::new(), TransactionsMemStore::new())
}

fn deposit(client_id: ClientId, id: TransactionId, amount: Amount) -> Transaction {
    Transaction { type_: TransactionType::Deposit, client_id, id, amount: Some(amount), disputed: false }
}

fn withdrawal(client_id: ClientId, id: TransactionId, amount: Amount) -> Transaction {
    Transaction { type_: TransactionType::Withdrawal, client_id, id, amount: Some(amount), disputed: false }
}

fn dispute(client_id: ClientId, id: TransactionId) -> Transaction {
    Transaction { type_: TransactionType::Dispute, client_id, id, amount: None, disputed: false }
}

fn resolve(client_id: ClientId, id: TransactionId) -> Transaction {
    Transaction { type_: TransactionType::Resolve, client_id, id, amount: None, disputed: false }
}

fn chargeback(client_id: ClientId, id: TransactionId) -> Transaction {
    Transaction { type_: TransactionType::Chargeback, client_id, id, amount: None, disputed: false }
}

fn account_of(engine: &PaymentsEngine, client_id: ClientId) -> Account {
    let accounts = engine.accounts().unwrap();
    accounts
        .into_iter()
        .find(|a| a.client_id == client_id)
        .expect("no account for client")
}

#[test]
fn two_deposits() {
    let mut eng = engine();
    eng.execute_transaction(deposit(2, 12, 17700)).unwrap();
    eng.execute_transaction(deposit(2, 13, 17700)).unwrap();
    let acc = account_of(&eng, 2);
    assert_eq!(acc.available, 35400);
    assert_eq!(acc.held, 0);
    assert_eq!(acc.total, 35400);
    assert!(!acc.locked);
    assert_eq!(eng.accounts().unwrap().len(), 1);
}

#[test]
fn deposits_after_dispute() {
    let mut eng = engine();
    eng.execute_transaction(deposit(2, 12, 17700)).unwrap();
    eng.execute_transaction(dispute(2, 12)).unwrap();
    eng.execute_transaction(deposit(2, 13, 17700)).unwrap();
    eng.execute_transaction(deposit(2, 14, 17700)).unwrap();
    let acc = account_of(&eng, 2);
    assert_eq!(acc.available, 35400);
    assert_eq!(acc.held, 17700);
    assert_eq!(acc.total, 53100);
    assert!(!acc.locked);
}

#[test]
fn chargeback_only_after_dispute() {
    let mut eng = engine();
    eng.execute_transaction(deposit(1, 1, 1001000)).unwrap();
    // Not yet disputed: this chargeback is a no-op.
    eng.execute_transaction(chargeback(1, 1)).unwrap();
    let acc = account_of(&eng, 1);
    assert_eq!(acc.available, 1001000);
    assert!(!acc.locked);
    eng.execute_transaction(dispute(1, 1)).unwrap();
    eng.execute_transaction(chargeback(1, 1)).unwrap();
    let acc = account_of(&eng, 1);
    assert_eq!(acc.available, 0);
    assert_eq!(acc.held, 0);
    assert_eq!(acc.total, 0);
    assert!(acc.locked);
}

#[test]
fn mixed_run_with_insufficient_withdrawal() {
    let mut eng = engine();
    eng.execute_transaction(deposit(1, 1, 10000)).unwrap();
    eng.execute_transaction(deposit(1, 3, 20000)).unwrap();
    eng.execute_transaction(withdrawal(1, 5, 15000)).unwrap();
    eng.execute_transaction(dispute(1, 3)).unwrap();
    eng.execute_transaction(deposit(2, 2, 20000)).unwrap();
    // Insufficient funds: silently recorded, no balance change.
    eng.execute_transaction(withdrawal(2, 4, 30000)).unwrap();
    let one = account_of(&eng, 1);
    assert_eq!(one.available, -5000);
    assert_eq!(one.held, 20000);
    assert_eq!(one.total, 15000);
    assert!(!one.locked);
    let two = account_of(&eng, 2);
    assert_eq!(two.available, 20000);
    assert_eq!(two.held, 0);
    assert_eq!(two.total, 20000);
    assert!(!two.locked);
}

#[test]
fn repeated_resolves_are_idempotent() {
    let mut eng = engine();
    eng.execute_transaction(deposit(1, 1, 1001000)).unwrap();
    eng.execute_transaction(dispute(1, 1)).unwrap();
    eng.execute_transaction(deposit(2, 12, 17700)).unwrap();
    eng.execute_transaction(dispute(2, 12)).unwrap();
    eng.execute_transaction(resolve(2, 12)).unwrap();
    eng.execute_transaction(resolve(2, 12)).unwrap();
    eng.execute_transaction(resolve(2, 12)).unwrap();
    eng.execute_transaction(resolve(2, 12)).unwrap();
    let one = account_of(&eng, 1);
    assert_eq!(one.available, 0);
    assert_eq!(one.held, 1001000);
    assert_eq!(one.total, 1001000);
    assert!(!one.locked);
    let two = account_of(&eng, 2);
    assert_eq!(two.available, 17700);
    assert_eq!(two.held, 0);
    assert_eq!(two.total, 17700);
    assert!(!two.locked);
}

#[test]
fn deposits_only_leave_nothing_held() {
    let mut eng = engine();
    eng.execute_transaction(deposit(1, 1, 123)).unwrap();
    eng.execute_transaction(deposit(2, 2, 456)).unwrap();
    eng.execute_transaction(deposit(1, 3, 789)).unwrap();
    for acc in eng.accounts().unwrap() {
        assert_eq!(acc.held, 0);
        assert_eq!(acc.total, acc.available);
    }
}

#[test]
fn invariant_total_is_available_plus_held() {
    let mut eng = engine();
    eng.execute_transaction(deposit(1, 1, 10000)).unwrap();
    eng.execute_transaction(dispute(1, 1)).unwrap();
    eng.execute_transaction(deposit(1, 2, 5000)).unwrap();
    eng.execute_transaction(withdrawal(1, 4, 2000)).unwrap();
    eng.execute_transaction(chargeback(1, 1)).unwrap();
    for acc in eng.accounts().unwrap() {
        assert!(acc.check_invariants());
        assert_eq!(acc.total, acc.available + acc.held);
    }
}

#[test]
fn dispute_of_unknown_transaction_is_noop() {
    let mut eng = engine();
    eng.execute_transaction(deposit(1, 1, 10000)).unwrap();
    eng.execute_transaction(dispute(1, 99)).unwrap();
    let acc = account_of(&eng, 1);
    assert_eq!(acc.available, 10000);
    assert_eq!(acc.held, 0);
    assert_eq!(acc.total, 10000);
    assert_eq!(eng.accounts().unwrap().len(), 1);
}

#[test]
fn resolve_of_unknown_or_undisputed_is_noop() {
    let mut eng = engine();
    eng.execute_transaction(deposit(1, 1, 10000)).unwrap();
    eng.execute_transaction(resolve(1, 99)).unwrap();
    eng.execute_transaction(resolve(1, 1)).unwrap();
    let acc = account_of(&eng, 1);
    assert_eq!(acc.available, 10000);
    assert_eq!(acc.held, 0);
    assert_eq!(acc.total, 10000);
}

#[test]
fn withdrawal_beyond_available_is_still_recorded() {
    let mut eng = engine();
    eng.execute_transaction(deposit(1, 1, 10000)).unwrap();
    eng.execute_transaction(withdrawal(1, 2, 99999)).unwrap();
    let acc = account_of(&eng, 1);
    assert_eq!(acc.available, 10000);
    assert_eq!(acc.total, 10000);
    // The failed withdrawal was persisted: disputing it moves its amount.
    eng.execute_transaction(dispute(1, 2)).unwrap();
    let acc = account_of(&eng, 1);
    assert_eq!(acc.available, 10000 - 99999);
    assert_eq!(acc.held, 99999);
    assert_eq!(acc.total, 10000);
}

#[test]
fn locked_account_stays_locked() {
    let mut eng = engine();
    eng.execute_transaction(deposit(1, 1, 10000)).unwrap();
    eng.execute_transaction(dispute(1, 1)).unwrap();
    eng.execute_transaction(chargeback(1, 1)).unwrap();
    assert!(account_of(&eng, 1).locked);
    eng.execute_transaction(deposit(1, 2, 5000)).unwrap();
    eng.execute_transaction(withdrawal(1, 3, 1000)).unwrap();
    assert!(account_of(&eng, 1).locked);
}

#[test]
fn redispute_double_counts_the_hold() {
    let mut eng = engine();
    eng.execute_transaction(deposit(1, 1, 10000)).unwrap();
    eng.execute_transaction(dispute(1, 1)).unwrap();
    eng.execute_transaction(dispute(1, 1)).unwrap();
    let acc = account_of(&eng, 1);
    assert_eq!(acc.available, -10000);
    assert_eq!(acc.held, 20000);
    assert_eq!(acc.total, 10000);
}

#[test]
fn deposit_overflow_is_reported_and_changes_nothing() {
    let mut eng = engine();
    eng.execute_transaction(deposit(1, 1, i64::MAX)).unwrap();
    let r = eng.execute_transaction(deposit(1, 2, 1));
    assert_eq!(r, Err(MalipoError::AmountOverflow));
    let acc = account_of(&eng, 1);
    assert_eq!(acc.available, i64::MAX);
    assert_eq!(acc.total, i64::MAX);
    // The overflowing deposit was not persisted either.
    eng.execute_transaction(dispute(1, 2)).unwrap();
    let acc = account_of(&eng, 1);
    assert_eq!(acc.held, 0);
}

#[test]
fn execute_routes_every_kind() {
    let mut eng = engine();
    eng.execute_transaction(deposit(7, 1, 40000)).unwrap();
    eng.execute_transaction(withdrawal(7, 2, 10000)).unwrap();
    eng.execute_transaction(dispute(7, 1)).unwrap();
    eng.execute_transaction(resolve(7, 1)).unwrap();
    eng.execute_transaction(dispute(7, 2)).unwrap();
    eng.execute_transaction(chargeback(7, 2)).unwrap();
    let acc = account_of(&eng, 7);
    assert_eq!(acc.available, 20000);
    assert_eq!(acc.held, 0);
    assert_eq!(acc.total, 20000);
    assert!(acc.locked);
}

#[test]
fn execute_all_replays_in_order() {
    let mut eng = engine();
    let txns = vec![
        deposit(1, 1, 10000),
        deposit(1, 3, 20000),
        withdrawal(1, 5, 15000),
        dispute(1, 3),
        deposit(2, 2, 20000),
        withdrawal(2, 4, 30000),
    ];
    eng.execute_all(&txns).unwrap();
    let one = account_of(&eng, 1);
    assert_eq!((one.available, one.held, one.total), (-5000, 20000, 15000));
    let two = account_of(&eng, 2);
    assert_eq!((two.available, two.held, two.total), (20000, 0, 20000));
}

#[test]
fn execute_all_stops_at_the_first_overflow() {
    let mut eng = engine();
    let txns = vec![deposit(1, 1, i64::MAX), deposit(1, 2, 1), deposit(2, 3, 7)];
    assert_eq!(eng.execute_all(&txns), Err(MalipoError::AmountOverflow));
    // The record after the overflow was never replayed.
    assert!(eng.accounts().unwrap().iter().all(|a| a.client_id != 2));
}
