//! In-memory key-value stores: accounts keyed by client id, transactions
//! keyed by transaction id. Both are association vectors with distinct keys,
//! abstracted as a `Map` view.
use vstd::prelude::*;
use vstd::pervasive::VecAdditionalExecFns;

use crate::domain::Account;
use crate::domain::ClientId;
use crate::domain::Transaction;
use crate::domain::TransactionId;
use crate::errors::Fallible;
use crate::errors::MalipoError;

verus! {

/// No two entries share a client id.
pub open spec fn distinct_clients(s: Seq<Account>) -> bool {
    forall|i: int, j: int|
        0 <= i < j < s.len() ==> s[i].client_id != s[j].client_id
}

/// The mapping that an account sequence stands for: each entry keyed by its
/// client id, later entries shadowing earlier ones.
pub open spec fn account_map_of(s: Seq<Account>) -> Map<ClientId, Account>
    decreases s.len(),
{
    if s.len() == 0 {
        Map::empty()
    } else {
        account_map_of(s.drop_last()).insert(s.last().client_id, s.last())
    }
}

proof fn lemma_account_map_dom(s: Seq<Account>)
    ensures
        forall|c: ClientId|
            #[trigger] account_map_of(s).contains_key(c) <==> exists|i: int|
                0 <= i < s.len() && s[i].client_id == c,
    decreases s.len(),
{
    if s.len() > 0 {
        let pre = s.drop_last();
        lemma_account_map_dom(pre);
        assert forall|c: ClientId| #[trigger] account_map_of(s).contains_key(c) implies exists|
            i: int,
        | 0 <= i < s.len() && s[i].client_id == c by {
            if c == s.last().client_id {
                assert(s[s.len() - 1].client_id == c);
            } else {
                assert(account_map_of(pre).contains_key(c));
                let i = choose|i: int| 0 <= i < pre.len() && pre[i].client_id == c;
                assert(s[i].client_id == c);
            }
        };
        assert forall|c: ClientId| (exists|i: int| 0 <= i < s.len() && s[i].client_id == c)
            implies #[trigger] account_map_of(s).contains_key(c) by {
            let i = choose|i: int| 0 <= i < s.len() && s[i].client_id == c;
            if i < s.len() - 1 {
                assert(pre[i].client_id == c);
                assert(account_map_of(pre).contains_key(c));
            }
        };
    }
}

proof fn lemma_account_map_index(s: Seq<Account>, i: int)
    requires
        distinct_clients(s),
        0 <= i < s.len(),
    ensures
        account_map_of(s).contains_key(s[i].client_id),
        account_map_of(s)[s[i].client_id] == s[i],
    decreases s.len(),
{
    if i < s.len() - 1 {
        let pre = s.drop_last();
        assert(distinct_clients(pre));
        lemma_account_map_index(pre, i);
        assert(s.last().client_id != s[i].client_id);
    }
}

proof fn lemma_account_map_push(s: Seq<Account>, a: Account)
    ensures
        account_map_of(s.push(a)) == account_map_of(s).insert(a.client_id, a),
{
    assert(s.push(a).drop_last() =~= s);
}

proof fn lemma_account_map_update(s: Seq<Account>, i: int, a: Account)
    requires
        distinct_clients(s),
        0 <= i < s.len(),
        s[i].client_id == a.client_id,
    ensures
        account_map_of(s.update(i, a)) == account_map_of(s).insert(a.client_id, a),
    decreases s.len(),
{
    let k = a.client_id;
    if i == s.len() - 1 {
        assert(s.update(i, a).drop_last() =~= s.drop_last());
        assert(s.update(i, a).last() == a);
        assert(account_map_of(s.drop_last()).insert(s.last().client_id, s.last()).insert(k, a)
            =~= account_map_of(s.drop_last()).insert(k, a));
    } else {
        let pre = s.drop_last();
        assert(distinct_clients(pre));
        lemma_account_map_update(pre, i, a);
        assert(s.update(i, a).drop_last() =~= pre.update(i, a));
        assert(s.update(i, a).last() == s.last());
        assert(s.last().client_id != k);
        assert(account_map_of(pre).insert(k, a).insert(s.last().client_id, s.last())
            =~= account_map_of(pre).insert(s.last().client_id, s.last()).insert(k, a));
    }
}

proof fn lemma_account_map_remove(s: Seq<Account>, i: int)
    requires
        distinct_clients(s),
        0 <= i < s.len(),
    ensures
        account_map_of(s.remove(i)) == account_map_of(s).remove(s[i].client_id),
    decreases s.len(),
{
    let k = s[i].client_id;
    if i == s.len() - 1 {
        assert(s.remove(i) =~= s.drop_last());
        lemma_account_map_dom(s.drop_last());
        assert(forall|j: int| 0 <= j < s.len() - 1 ==> s.drop_last()[j].client_id != k);
        assert(!account_map_of(s.drop_last()).contains_key(k));
        assert(account_map_of(s.drop_last()).insert(k, s.last()).remove(k)
            =~= account_map_of(s.drop_last()));
    } else {
        let pre = s.drop_last();
        assert(distinct_clients(pre));
        lemma_account_map_remove(pre, i);
        assert(s.remove(i).drop_last() =~= pre.remove(i));
        assert(s.remove(i).last() == s.last());
        assert(s.last().client_id != k);
        assert(account_map_of(pre).remove(k).insert(s.last().client_id, s.last())
            =~= account_map_of(pre).insert(s.last().client_id, s.last()).remove(k));
    }
}

proof fn lemma_account_map_len(s: Seq<Account>)
    requires
        distinct_clients(s),
    ensures
        account_map_of(s).dom().finite(),
        account_map_of(s).dom().len() == s.len(),
    decreases s.len(),
{
    if s.len() > 0 {
        let pre = s.drop_last();
        assert(distinct_clients(pre));
        lemma_account_map_len(pre);
        lemma_account_map_dom(pre);
        assert(forall|j: int| 0 <= j < pre.len() ==> pre[j].client_id != s.last().client_id);
        assert(!account_map_of(pre).contains_key(s.last().client_id));
    }
}

/// In-memory store for accounts, keyed by client id. Lookup creates a
/// missing account lazily.
pub struct AccountsMemStore {
    items: Vec<Account>,
}

impl View for AccountsMemStore {
    type V = Map<ClientId, Account>;

    closed spec fn view(&self) -> Map<ClientId, Account> {
        account_map_of(self.items@)
    }
}

impl AccountsMemStore {
    /// Keys are distinct, so the vector and its map view carry the same
    /// information.
    pub closed spec fn wf(self) -> bool {
        distinct_clients(self.items@)
    }

    /// Create an empty accounts store.
    pub fn new() -> (r: AccountsMemStore)
        ensures
            r.wf(),
            r@ == Map::<ClientId, Account>::empty(),
    {
        AccountsMemStore { items: Vec::new() }
    }

    /// Store an account (an upsert, like `update`).
    pub fn create(&mut self, item: Account) -> (r: Fallible<()>)
        requires
            old(self).wf(),
        ensures
            final(self).wf(),
            r is Ok,
            final(self)@ == old(self)@.insert(item.client_id, item),
    {
        self.update(item)
    }

    /// Fetch the account of a client, creating and remembering a fresh
    /// zero-balance account when none is stored yet.
    pub fn get(&mut self, id: ClientId) -> (r: Fallible<Account>)
        requires
            old(self).wf(),
        ensures
            final(self).wf(),
            r matches Ok(a) && a == (if old(self)@.contains_key(id) {
                old(self)@[id]
            } else {
                Account::initial(id)
            }) && a.client_id == id && final(self)@ == old(self)@.insert(id, a),
    {
        proof {
            lemma_account_map_dom(self.items@);
        }
        let n = self.items.len();
        let mut i: usize = 0;
        while i < n
            invariant
                n == self.items.len(),
                i <= n,
                forall|j: int| 0 <= j < i ==> self.items@[j].client_id != id,
                *self == *old(self),
                self.wf(),
            decreases n - i,
        {
            if self.items[i].client_id == id {
                let a = self.items[i];
                proof {
                    lemma_account_map_index(self.items@, i as int);
                    assert(self@.insert(id, a) =~= self@);
                }
                return Ok(a);
            }
            i += 1;
        }
        let a = Account::new(id);
        self.items.push(a);
        proof {
            lemma_account_map_push(old(self).items@, a);
            assert(distinct_clients(self.items@));
        }
        Ok(a)
    }

    /// Look up the account of a client without creating one.
    pub fn lookup(&self, id: ClientId) -> (r: Option<Account>)
        requires
            self.wf(),
        ensures
            self@.contains_key(id) ==> r == Some(self@[id]),
            !self@.contains_key(id) ==> r is None,
    {
        proof {
            lemma_account_map_dom(self.items@);
        }
        let n = self.items.len();
        let mut i: usize = 0;
        while i < n
            invariant
                n == self.items.len(),
                i <= n,
                forall|j: int| 0 <= j < i ==> self.items@[j].client_id != id,
                self.wf(),
            decreases n - i,
        {
            if self.items[i].client_id == id {
                proof {
                    lemma_account_map_index(self.items@, i as int);
                }
                return Some(self.items[i]);
            }
            i += 1;
        }
        None
    }

    /// Remove the account of a client, if any.
    pub fn delete(&mut self, id: ClientId) -> (r: Fallible<()>)
        requires
            old(self).wf(),
        ensures
            final(self).wf(),
            r is Ok,
            final(self)@ == old(self)@.remove(id),
    {
        proof {
            lemma_account_map_dom(self.items@);
        }
        let n = self.items.len();
        let mut i: usize = 0;
        while i < n
            invariant
                n == self.items.len(),
                i <= n,
                forall|j: int| 0 <= j < i ==> self.items@[j].client_id != id,
                *self == *old(self),
                self.wf(),
            decreases n - i,
        {
            if self.items[i].client_id == id {
                proof {
                    lemma_account_map_remove(self.items@, i as int);
                    assert(distinct_clients(self.items@.remove(i as int)));
                }
                self.items.remove(i);
                return Ok(());
            }
            i += 1;
        }
        proof {
            assert(!self@.contains_key(id));
            assert(self@.remove(id) =~= self@);
        }
        Ok(())
    }

    /// Store an account under its client id, replacing any stored one.
    pub fn update(&mut self, item: Account) -> (r: Fallible<()>)
        requires
            old(self).wf(),
        ensures
            final(self).wf(),
            r is Ok,
            final(self)@ == old(self)@.insert(item.client_id, item),
    {
        let n = self.items.len();
        let mut i: usize = 0;
        while i < n
            invariant
                n == self.items.len(),
                i <= n,
                forall|j: int| 0 <= j < i ==> self.items@[j].client_id != item.client_id,
                *self == *old(self),
                self.wf(),
            decreases n - i,
        {
            if self.items[i].client_id == item.client_id {
                proof {
                    lemma_account_map_update(self.items@, i as int, item);
                    assert(distinct_clients(self.items@.update(i as int, item)));
                }
                self.items.set(i, item);
                return Ok(());
            }
            i += 1;
        }
        self.items.push(item);
        proof {
            lemma_account_map_push(old(self).items@, item);
            assert(distinct_clients(self.items@));
        }
        Ok(())
    }

    /// All stored accounts, in insertion order: a sequence with distinct
    /// client ids that stands for exactly the store's mapping.
    pub fn iter(&self) -> (r: Fallible<Vec<Account>>)
        requires
            self.wf(),
        ensures
            r matches Ok(v) && account_map_of(v@) == self@ && distinct_clients(v@) && v@.len()
                == self@.dom().len(),
    {
        proof {
            lemma_account_map_len(self.items@);
        }
        let n = self.items.len();
        let mut out: Vec<Account> = Vec::new();
        let mut i: usize = 0;
        while i < n
            invariant
                n == self.items.len(),
                i <= n,
                out@ == self.items@.subrange(0, i as int),
            decreases n - i,
        {
            out.push(self.items[i]);
            proof {
                assert(out@ =~= self.items@.subrange(0, i + 1));
            }
            i += 1;
        }
        proof {
            assert(out@ =~= self.items@);
        }
        Ok(out)
    }
}

/// No two entries share a transaction id.
pub open spec fn distinct_txn_ids(s: Seq<Transaction>) -> bool {
    forall|i: int, j: int| 0 <= i < j < s.len() ==> s[i].id != s[j].id
}

/// The mapping that a transaction sequence stands for, keyed by transaction
/// id, later entries shadowing earlier ones.
pub open spec fn txn_map_of(s: Seq<Transaction>) -> Map<TransactionId, Transaction>
    decreases s.len(),
{
    if s.len() == 0 {
        Map::empty()
    } else {
        txn_map_of(s.drop_last()).insert(s.last().id, s.last())
    }
}

proof fn lemma_txn_map_dom(s: Seq<Transaction>)
    ensures
        forall|t: TransactionId|
            #[trigger] txn_map_of(s).contains_key(t) <==> exists|i: int|
                0 <= i < s.len() && s[i].id == t,
    decreases s.len(),
{
    if s.len() > 0 {
        let pre = s.drop_last();
        lemma_txn_map_dom(pre);
        assert forall|t: TransactionId| #[trigger] txn_map_of(s).contains_key(t) implies exists|
            i: int,
        | 0 <= i < s.len() && s[i].id == t by {
            if t == s.last().id {
                assert(s[s.len() - 1].id == t);
            } else {
                assert(txn_map_of(pre).contains_key(t));
                let i = choose|i: int| 0 <= i < pre.len() && pre[i].id == t;
                assert(s[i].id == t);
            }
        };
        assert forall|t: TransactionId| (exists|i: int| 0 <= i < s.len() && s[i].id == t)
            implies #[trigger] txn_map_of(s).contains_key(t) by {
            let i = choose|i: int| 0 <= i < s.len() && s[i].id == t;
            if i < s.len() - 1 {
                assert(pre[i].id == t);
                assert(txn_map_of(pre).contains_key(t));
            }
        };
    }
}

proof fn lemma_txn_map_index(s: Seq<Transaction>, i: int)
    requires
        distinct_txn_ids(s),
        0 <= i < s.len(),
    ensures
        txn_map_of(s).contains_key(s[i].id),
        txn_map_of(s)[s[i].id] == s[i],
    decreases s.len(),
{
    if i < s.len() - 1 {
        let pre = s.drop_last();
        assert(distinct_txn_ids(pre));
        lemma_txn_map_index(pre, i);
        assert(s.last().id != s[i].id);
    }
}

proof fn lemma_txn_map_push(s: Seq<Transaction>, t: Transaction)
    ensures
        txn_map_of(s.push(t)) == txn_map_of(s).insert(t.id, t),
{
    assert(s.push(t).drop_last() =~= s);
}

proof fn lemma_txn_map_update(s: Seq<Transaction>, i: int, t: Transaction)
    requires
        distinct_txn_ids(s),
        0 <= i < s.len(),
        s[i].id == t.id,
    ensures
        txn_map_of(s.update(i, t)) == txn_map_of(s).insert(t.id, t),
    decreases s.len(),
{
    let k = t.id;
    if i == s.len() - 1 {
        assert(s.update(i, t).drop_last() =~= s.drop_last());
        assert(s.update(i, t).last() == t);
        assert(txn_map_of(s.drop_last()).insert(s.last().id, s.last()).insert(k, t)
            =~= txn_map_of(s.drop_last()).insert(k, t));
    } else {
        let pre = s.drop_last();
        assert(distinct_txn_ids(pre));
        lemma_txn_map_update(pre, i, t);
        assert(s.update(i, t).drop_last() =~= pre.update(i, t));
        assert(s.update(i, t).last() == s.last());
        assert(s.last().id != k);
        assert(txn_map_of(pre).insert(k, t).insert(s.last().id, s.last())
            =~= txn_map_of(pre).insert(s.last().id, s.last()).insert(k, t));
    }
}

proof fn lemma_txn_map_remove(s: Seq<Transaction>, i: int)
    requires
        distinct_txn_ids(s),
        0 <= i < s.len(),
    ensures
        txn_map_of(s.remove(i)) == txn_map_of(s).remove(s[i].id),
    decreases s.len(),
{
    let k = s[i].id;
    if i == s.len() - 1 {
        assert(s.remove(i) =~= s.drop_last());
        lemma_txn_map_dom(s.drop_last());
        assert(forall|j: int| 0 <= j < s.len() - 1 ==> s.drop_last()[j].id != k);
        assert(!txn_map_of(s.drop_last()).contains_key(k));
        assert(txn_map_of(s.drop_last()).insert(k, s.last()).remove(k)
            =~= txn_map_of(s.drop_last()));
    } else {
        let pre = s.drop_last();
        assert(distinct_txn_ids(pre));
        lemma_txn_map_remove(pre, i);
        assert(s.remove(i).drop_last() =~= pre.remove(i));
        assert(s.remove(i).last() == s.last());
        assert(s.last().id != k);
        assert(txn_map_of(pre).remove(k).insert(s.last().id, s.last())
            =~= txn_map_of(pre).insert(s.last().id, s.last()).remove(k));
    }
}

proof fn lemma_txn_map_len(s: Seq<Transaction>)
    requires
        distinct_txn_ids(s),
    ensures
        txn_map_of(s).dom().finite(),
        txn_map_of(s).dom().len() == s.len(),
    decreases s.len(),
{
    if s.len() > 0 {
        let pre = s.drop_last();
        assert(distinct_txn_ids(pre));
        lemma_txn_map_len(pre);
        lemma_txn_map_dom(pre);
        assert(forall|j: int| 0 <= j < pre.len() ==> pre[j].id != s.last().id);
        assert(!txn_map_of(pre).contains_key(s.last().id));
    }
}

/// In-memory store for transactions, keyed by transaction id. Lookup of a
/// missing id reports `TransactionNotFound`.
pub struct TransactionsMemStore {
    items: Vec<Transaction>,
}

impl View for TransactionsMemStore {
    type V = Map<TransactionId, Transaction>;

    closed spec fn view(&self) -> Map<TransactionId, Transaction> {
        txn_map_of(self.items@)
    }
}

impl TransactionsMemStore {
    /// Keys are distinct, so the vector and its map view carry the same
    /// information.
    pub closed spec fn wf(self) -> bool {
        distinct_txn_ids(self.items@)
    }

    /// Create an empty transactions store.
    pub fn new() -> (r: TransactionsMemStore)
        ensures
            r.wf(),
            r@ == Map::<TransactionId, Transaction>::empty(),
    {
        TransactionsMemStore { items: Vec::new() }
    }

    /// Store a transaction (an upsert, like `update`).
    pub fn create(&mut self, txn: Transaction) -> (r: Fallible<()>)
        requires
            old(self).wf(),
        ensures
            final(self).wf(),
            r is Ok,
            final(self)@ == old(self)@.insert(txn.id, txn),
    {
        self.update(txn)
    }

    /// Remove the transaction stored under an id, if any.
    pub fn delete(&mut self, id: TransactionId) -> (r: Fallible<()>)
        requires
            old(self).wf(),
        ensures
            final(self).wf(),
            r is Ok,
            final(self)@ == old(self)@.remove(id),
    {
        proof {
            lemma_txn_map_dom(self.items@);
        }
        let n = self.items.len();
        let mut i: usize = 0;
        while i < n
            invariant
                n == self.items.len(),
                i <= n,
                forall|j: int| 0 <= j < i ==> self.items@[j].id != id,
                *self == *old(self),
                self.wf(),
            decreases n - i,
        {
            if self.items[i].id == id {
                proof {
                    lemma_txn_map_remove(self.items@, i as int);
                    assert(distinct_txn_ids(self.items@.remove(i as int)));
                }
                self.items.remove(i);
                return Ok(());
            }
            i += 1;
        }
        proof {
            assert(!self@.contains_key(id));
            assert(self@.remove(id) =~= self@);
        }
        Ok(())
    }

    /// Look up the transaction stored under an id; fails with
    /// `TransactionNotFound` when there is none.
    pub fn get(&mut self, id: TransactionId) -> (r: Fallible<Transaction>)
        requires
            old(self).wf(),
        ensures
            *final(self) == *old(self),
            old(self)@.contains_key(id) ==> r == Fallible::<Transaction>::Ok(old(self)@[id]),
            !old(self)@.contains_key(id) ==> r == Fallible::<Transaction>::Err(
                MalipoError::TransactionNotFound(id),
            ),
    {
        proof {
            lemma_txn_map_dom(self.items@);
        }
        let n = self.items.len();
        let mut i: usize = 0;
        while i < n
            invariant
                n == self.items.len(),
                i <= n,
                forall|j: int| 0 <= j < i ==> self.items@[j].id != id,
                *self == *old(self),
                self.wf(),
            decreases n - i,
        {
            if self.items[i].id == id {
                proof {
                    lemma_txn_map_index(self.items@, i as int);
                }
                return Ok(self.items[i]);
            }
            i += 1;
        }
        Err(MalipoError::TransactionNotFound(id))
    }

    /// Store a transaction under its id, replacing any stored one.
    pub fn update(&mut self, txn: Transaction) -> (r: Fallible<()>)
        requires
            old(self).wf(),
        ensures
            final(self).wf(),
            r is Ok,
            final(self)@ == old(self)@.insert(txn.id, txn),
    {
        let n = self.items.len();
        let mut i: usize = 0;
        while i < n
            invariant
                n == self.items.len(),
                i <= n,
                forall|j: int| 0 <= j < i ==> self.items@[j].id != txn.id,
                *self == *old(self),
                self.wf(),
            decreases n - i,
        {
            if self.items[i].id == txn.id {
                proof {
                    lemma_txn_map_update(self.items@, i as int, txn);
                    assert(distinct_txn_ids(self.items@.update(i as int, txn)));
                }
                self.items.set(i, txn);
                return Ok(());
            }
            i += 1;
        }
        self.items.push(txn);
        proof {
            lemma_txn_map_push(old(self).items@, txn);
            assert(distinct_txn_ids(self.items@));
        }
        Ok(())
    }

    /// All stored transactions, in insertion order: a sequence with distinct
    /// ids that stands for exactly the store's mapping.
    pub fn iter(&self) -> (r: Fallible<Vec<Transaction>>)
        requires
            self.wf(),
        ensures
            r matches Ok(v) && txn_map_of(v@) == self@ && distinct_txn_ids(v@) && v@.len()
                == self@.dom().len(),
    {
        proof {
            lemma_txn_map_len(self.items@);
        }
        let n = self.items.len();
        let mut out: Vec<Transaction> = Vec::new();
        let mut i: usize = 0;
        while i < n
            invariant
                n == self.items.len(),
                i <= n,
                out@ == self.items@.subrange(0, i as int),
            decreases n - i,
        {
            out.push(self.items[i]);
            proof {
                assert(out@ =~= self.items@.subrange(0, i + 1));
            }
            i += 1;
        }
        proof {
            assert(out@ =~= self.items@);
        }
        Ok(out)
    }
}

} // verus!
