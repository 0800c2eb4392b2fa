//! Unit tests for the account/transaction data model and the in-memory
//! stores.
use malipo::Account;
use malipo::AccountsMemStore;
use malipo::MalipoError;
use malipo::Transaction;
use malipo::TransactionsMemStore;
use malipo::TransactionType;

#[test]
fn new_account_is_zeroed_and_unlocked() {
    let acc = Account::new(9);
    assert_eq!(acc.client_id, 9);
    assert_eq!(acc.available, 0);
    assert_eq!(acc.held, 0);
    assert_eq!(acc.total, 0);
    assert!(!acc.locked);
    assert!(!acc.is_frozen());
    assert!(acc.check_invariants());
}

#[test]
fn account_deposit_and_withdraw() {
    let mut acc = Account::new(1);
    acc.deposit(25000);
    assert_eq!(acc.available, 25000);
    assert_eq!(acc.total, 25000);
    assert_eq!(acc.withdraw(10000), Ok(()));
    assert_eq!(acc.available, 15000);
    assert_eq!(acc.total, 15000);
    assert!(acc.check_invariants());
}

#[test]
fn withdraw_beyond_available_fails_without_mutation() {
    let mut acc = Account::new(1);
    acc.deposit(5000);
    assert_eq!(acc.withdraw(5001), Err(MalipoError::InsufficientAccountFunds));
    assert_eq!(acc.available, 5000);
    assert_eq!(acc.held, 0);
    assert_eq!(acc.total, 5000);
}

#[test]
fn dispute_resolve_and_chargeback_move_matching_pairs() {
    let mut acc = Account::new(1);
    acc.deposit(30000);
    acc.dispute(30000);
    assert_eq!(acc.available, 0);
    assert_eq!(acc.held, 30000);
    assert_eq!(acc.total, 30000);
    assert!(acc.check_invariants());
    acc.resolve(30000);
    assert_eq!(acc.available, 30000);
    assert_eq!(acc.held, 0);
    assert_eq!(acc.total, 30000);
    acc.dispute(30000);
    acc.chargeback(30000);
    assert_eq!(acc.available, 0);
    assert_eq!(acc.held, 0);
    assert_eq!(acc.total, 0);
    assert!(acc.locked);
    assert!(acc.is_frozen());
    assert!(acc.check_invariants());
}

#[test]
fn dispute_can_drive_available_negative() {
    let mut acc = Account::new(1);
    acc.deposit(10000);
    assert_eq!(acc.withdraw(8000), Ok(()));
    acc.dispute(10000);
    assert_eq!(acc.available, -8000);
    assert_eq!(acc.held, 10000);
    assert_eq!(acc.total, 2000);
    assert!(acc.check_invariants());
}

#[test]
fn transaction_dispute_flag_toggles() {
    let mut txn = Transaction {
        type_: TransactionType::Deposit,
        client_id: 1,
        id: 42,
        amount: Some(100),
        disputed: false,
    };
    assert!(!txn.is_disputed());
    txn.mark_as_disputed();
    assert!(txn.is_disputed());
    txn.resolve_dispute();
    assert!(!txn.is_disputed());
}

#[test]
fn accounts_store_get_creates_lazily() {
    let mut store = AccountsMemStore::new();
    let acc = store.get(5).unwrap();
    assert_eq!(acc, Account::new(5));
    let again = store.get(5).unwrap();
    assert_eq!(again, acc);
    assert_eq!(store.iter().unwrap().len(), 1);
}

#[test]
fn accounts_store_update_and_delete() {
    let mut store = AccountsMemStore::new();
    let mut acc = Account::new(3);
    acc.deposit(700);
    store.create(acc).unwrap();
    let mut acc2 = Account::new(3);
    acc2.deposit(900);
    store.update(acc2).unwrap();
    assert_eq!(store.get(3).unwrap().available, 900);
    assert_eq!(store.iter().unwrap().len(), 1);
    store.delete(3).unwrap();
    assert_eq!(store.iter().unwrap().len(), 0);
}

#[test]
fn transactions_store_get_reports_missing_ids() {
    let mut store = TransactionsMemStore::new();
    assert_eq!(store.get(7), Err(MalipoError::TransactionNotFound(7)));
    let txn = Transaction {
        type_: TransactionType::Withdrawal,
        client_id: 2,
        id: 7,
        amount: Some(50),
        disputed: false,
    };
    store.create(txn).unwrap();
    assert_eq!(store.get(7), Ok(txn));
    store.delete(7).unwrap();
    assert_eq!(store.get(7), Err(MalipoError::TransactionNotFound(7)));
}

#[test]
fn transactions_store_update_replaces_by_id() {
    let mut store = TransactionsMemStore::new();
    let mut txn = Transaction {
        type_: TransactionType::Deposit,
        client_id: 2,
        id: 7,
        amount: Some(50),
        disputed: false,
    };
    store.create(txn).unwrap();
    txn.mark_as_disputed();
    store.update(txn).unwrap();
    assert!(store.get(7).unwrap().is_disputed());
    let all = store.iter().unwrap();
    assert_eq!(all.len(), 1);
    assert_eq!(all[0], txn);
}

#[test]
fn account_not_found_error_carries_the_client() {
    let err = MalipoError::AccountNotFound(4);
    assert_eq!(err, MalipoError::AccountNotFound(4));
    assert_ne!(err, MalipoError::AccountNotFound(5));
    assert_ne!(err, MalipoError::InsufficientAccountFunds);
}
