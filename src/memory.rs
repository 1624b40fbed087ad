use vstd::prelude::*;

use crate::account::FullAccount;
use crate::amount::{fits_i128, Amount};
use crate::storage::{
    binds, cover_len_from, is_input, lemma_commit_consistent, lemma_cover_bounds, lemma_cover_skip,
    lemma_lookup, lemma_lookup_take, lemma_sum_push, lemma_unspent_prefix, lookup, new_records,
    output_accounts, spend, unspent_of, account_listing, lemma_listing_unique, sorted_by_rank, Error, Storage, StoreModel, StoredTx, UtxoRecord,
};
use crate::transaction::{same_hash, sum_inputs, tx_hash, HashId, Transaction, Utxo, UtxoId};

verus! {

/// A store held in memory: committed transactions, every output ever created, and the
/// sorted list of sub-accounts.
pub struct Memory {
    txs: Vec<(HashId, Transaction)>,
    utxos: Vec<UtxoRecord>,
    accounts: Vec<FullAccount>,
}

impl Memory {
    /// An empty store.
    pub fn new() -> (r: Memory)
        ensures
            r.valid(),
            r.model() == StoreModel::empty(),
    {
        let r = Memory { txs: Vec::new(), utxos: Vec::new(), accounts: Vec::new() };
        assert(r.model().txs =~= Seq::<StoredTx>::empty());
        assert(r.model().accounts =~= Set::<FullAccount>::empty());
        r
    }

    /// The sorted list of accounts is the listing of the account set.
    proof fn lemma_listing(&self)
        requires
            sorted_by_rank(self.accounts@),
        ensures
            account_listing(self.model().accounts) == self.accounts@,
            self.accounts@.len() <= usize::MAX,
    {
        assert(self.accounts@.len() == self.accounts.len());
        let q = self.accounts@;
        assert(sorted_by_rank(q) && q.to_set() == self.model().accounts);
        let l = account_listing(self.model().accounts);
        lemma_listing_unique(l, q);
    }

    /// Index of the last record with the given identifier.
    fn find_utxo(&self, id: &UtxoId) -> (r: Option<usize>)
        ensures
            r matches Some(j) ==> lookup(self.utxos@, *id) == Some(j as int),
            r is None ==> lookup(self.utxos@, *id) is None,
    {
        let mut i: usize = self.utxos.len();
        while i > 0
            invariant
                0 <= i <= self.utxos@.len(),
                forall|k: int| i <= k < self.utxos@.len() ==> !(#[trigger] self.utxos@[k].id).same_as(*id),
            decreases i,
        {
            i = i - 1;
            if self.utxos[i].id.same(id) {
                proof {
                    lemma_lookup_take(self.utxos@, *id, i + 1);
                    assert(self.utxos@.take(i + 1).last() == self.utxos@[i as int]);
                }
                return Some(i);
            }
        }
        proof {
            lemma_lookup_take(self.utxos@, *id, 0);
            assert(self.utxos@.take(0).len() == 0);
        }
        None
    }

    /// Whether a stored transaction has this hash.
    fn knows_hash(&self, h: &HashId) -> (r: bool)
        ensures
            r == self.model().has_tx(h@),
    {
        let mut i: usize = 0;
        while i < self.txs.len()
            invariant
                0 <= i <= self.txs@.len(),
                forall|k: int| 0 <= k < i ==> self.txs@[k].0@ != h@,
            decreases self.txs@.len() - i,
        {
            if same_hash(&self.txs[i].0, h) {
                assert(self.model().txs[i as int].id@ == h@);
                return true;
            }
            i = i + 1;
        }
        assert forall|k: int| 0 <= k < self.model().txs.len() implies #[trigger] self.model().txs[k].id@ != h@ by {
            assert(self.model().txs[k].id == self.txs@[k].0);
        }
        false
    }

    /// Index of the stored transaction recorded under `(account, reference)`.
    fn find_by_reference(&self, account: &FullAccount, reference: &String) -> (r: Option<usize>)
        ensures
            r is None ==> !self.model().reference_bound(*account, reference@),
            r matches Some(i) ==> i < self.txs@.len() && binds(self.model().txs[i as int].tx, *account, reference@),
    {
        let mut i: usize = 0;
        while i < self.txs.len()
            invariant
                0 <= i <= self.txs@.len(),
                forall|k: int| 0 <= k < i ==> !binds(#[trigger] self.model().txs[k].tx, *account, reference@),
            decreases self.txs@.len() - i,
        {
            assert(self.model().txs[i as int].tx == self.txs@[i as int].1@);
            if binds_exec(&self.txs[i].1, account, reference) {
                return Some(i);
            }
            i = i + 1;
        }
        None
    }

    /// Inserts an account into the sorted list unless it is there.
    fn add_account(&mut self, a: FullAccount)
        requires
            sorted_by_rank(old(self).accounts@),
        ensures
            sorted_by_rank(final(self).accounts@),
            final(self).accounts@.to_set() == old(self).accounts@.to_set().insert(a),
            final(self).txs == old(self).txs,
            final(self).utxos == old(self).utxos,
    {
        let mut i: usize = 0;
        while i < self.accounts.len() && self.accounts[i].precedes(&a)
            invariant
                0 <= i <= self.accounts@.len(),
                forall|k: int| 0 <= k < i ==> (#[trigger] self.accounts@[k]).rank() < a.rank(),
            decreases self.accounts@.len() - i,
        {
            i = i + 1;
        }
        if i < self.accounts.len() && self.accounts[i].same(&a) {
            assert(self.accounts@.to_set().insert(a) =~= self.accounts@.to_set());
            return;
        }
        let ghost before = self.accounts@;
        self.accounts.insert(i, a);
        proof {
            assert(self.accounts@ == before.insert(i as int, a));
            if i < before.len() {
                assert(before[i as int].rank() != a.rank());
            }
            assert forall|x: int, y: int| 0 <= x < y < self.accounts@.len() implies (
            #[trigger] self.accounts@[x]).rank() < (#[trigger] self.accounts@[y]).rank() by {
                if y < i {
                } else if x > i {
                    assert(self.accounts@[x] == before[x - 1]);
                    assert(self.accounts@[y] == before[y - 1]);
                } else if x == i {
                    assert(self.accounts@[y] == before[y - 1]);
                    assert(before[i as int].rank() >= a.rank());
                    if y - 1 > i {
                        assert(before[i as int].rank() < before[y - 1].rank());
                    }
                } else {
                    if y > i {
                        assert(self.accounts@[y] == before[y - 1]);
                    }
                }
            }
            assert(self.accounts@.to_set() =~= before.to_set().insert(a)) by {
                assert forall|b: FullAccount| self.accounts@.to_set().contains(b) implies before.to_set().insert(a).contains(b) by {
                    let k = choose|k: int| 0 <= k < self.accounts@.len() && self.accounts@[k] == b;
                    if k < i {
                        assert(before[k] == b);
                    } else if k > i {
                        assert(before[k - 1] == b);
                    }
                }
                assert forall|b: FullAccount| before.to_set().insert(a).contains(b) implies self.accounts@.to_set().contains(b) by {
                    if b == a {
                        assert(self.accounts@[i as int] == a);
                    } else {
                        let k = choose|k: int| 0 <= k < before.len() && before[k] == b;
                        if k < i {
                            assert(self.accounts@[k] == b);
                        } else {
                            assert(self.accounts@[k + 1] == b);
                        }
                    }
                }
            }
        }
    }
}

/// Whether the transaction is recorded under `(account, reference)`.
fn binds_exec(t: &Transaction, account: &FullAccount, reference: &String) -> (r: bool)
    ensures
        r == binds(t@, *account, reference@),
{
    if !(*t.reference() == *reference) {
        return false;
    }
    let outs = t.outputs();
    let mut k: usize = 0;
    while k < outs.len()
        invariant
            0 <= k <= outs@.len(),
            outs@ == t@.outputs,
            t@.reference == reference@,
            forall|q: int| 0 <= q < k ==> (#[trigger] outs@[q]).0 != *account,
        decreases outs@.len() - k,
    {
        if outs[k].0.same(account) {
            assert(t@.outputs[k as int] == (*account, t@.outputs[k as int].1));
            return true;
        }
        k = k + 1;
    }
    assert forall|q: int| 0 <= q < t@.outputs.len() implies !(#[trigger] t@.outputs[q] == (*account, t@.outputs[q].1)) by {
        assert(outs@[q].0 != *account);
    }
    false
}

/// Whether an input of the list names the identifier.
fn is_input_exec(ins: &[Utxo], id: &UtxoId) -> (r: bool)
    ensures
        r == is_input(ins@, *id),
{
    let mut k: usize = 0;
    while k < ins.len()
        invariant
            0 <= k <= ins@.len(),
            forall|q: int| 0 <= q < k ==> !(#[trigger] ins@[q].id.same_as(*id)),
        decreases ins@.len() - k,
    {
        if ins[k].id.same(id) {
            return true;
        }
        k = k + 1;
    }
    false
}

impl Default for Memory {
    fn default() -> (r: Memory)
        ensures
            r.valid(),
            r.model() == StoreModel::empty(),
    {
        Memory::new()
    }
}

impl Storage for Memory {
    closed spec fn model(&self) -> StoreModel {
        StoreModel {
            txs: self.txs@.map_values(|p: (HashId, Transaction)| StoredTx { id: p.0, tx: p.1@ }),
            utxos: self.utxos@,
            accounts: self.accounts@.to_set(),
        }
    }

    closed spec fn valid(&self) -> bool {
        self.model().consistent() && sorted_by_rank(self.accounts@)
    }

    proof fn lemma_valid_consistent(&self) {
        self.lemma_listing();
    }

    fn get_unspent(&self, account: &FullAccount, target_amount: Option<Amount>) -> (r: Result<
        Vec<Utxo>,
        Error,
    >) {
        let ghost s = self.utxos@;
        let ghost all = unspent_of(s, *account);
        let mut result: Vec<Utxo> = Vec::new();
        let mut total: i128 = 0;
        let mut i: usize = 0;
        proof {
            assert(s.take(0) =~= Seq::<UtxoRecord>::empty());
            assert(all.take(0) =~= Seq::<Utxo>::empty());
        }
        while i < self.utxos.len()
            invariant
                0 <= i <= s.len(),
                s == self.utxos@,
                all == unspent_of(s, *account),
                result@ == unspent_of(s.take(i as int), *account),
                result@.len() <= all.len(),
                result@ == all.take(result@.len() as int),
                target_amount matches Some(t) ==> {
                    &&& total == sum_inputs(result@)
                    &&& forall|j: int| 1 <= j <= result@.len() ==> #[trigger] sum_inputs(all.take(j)) < t.0
                    &&& forall|j: int| 0 <= j <= result@.len() ==> fits_i128(#[trigger] sum_inputs(all.take(j)))
                },
            decreases s.len() - i,
        {
            let rec = self.utxos[i];
            proof {
                assert(s.take(i + 1).drop_last() =~= s.take(i as int));
                assert(s.take(i + 1).last() == rec);
                lemma_unspent_prefix(s, *account, i + 1);
            }
            if rec.account.same(account) && rec.spent_at.is_none() {
                let u = Utxo::new(rec.id, rec.amount);
                let ghost n = result@.len() as int;
                result.push(u);
                assert(result@ == unspent_of(s.take(i + 1), *account));
                match target_amount {
                    Some(t) => {
                        proof {
                            lemma_sum_push(result@.drop_last(), u);
                            assert(result@.drop_last() =~= all.take(n));
                            assert(all.take(n + 1) == result@);
                            lemma_cover_skip(all, t.0 as int, 0, n);
                            lemma_cover_bounds(all, t.0 as int, n);
                        }
                        match total.checked_add(u.amount.0) {
                            None => {
                                proof {
                                    assert(!fits_i128(sum_inputs(all.take(n + 1))));
                                }
                                return Err(Error::Math);
                            },
                            Some(nt) => {
                                assert(sum_inputs(all.take(n + 1)) == nt);
                                total = nt;
                                if t.0 <= total {
                                    proof {
                                        assert(cover_len_from(all, t.0 as int, n) == n + 1);
                                        assert(sum_inputs(all.take(n + 1)) == nt);
                                        assert forall|j: int| 1 <= j <= n + 1 implies fits_i128(#[trigger] sum_inputs(all.take(j))) by {
                                            if j <= n {
                                            }
                                        }
                                    }
                                    return Ok(result);
                                }
                            },
                        }
                    },
                    None => {},
                }
            } else {
                assert(result@ == unspent_of(s.take(i + 1), *account));
            }
            i = i + 1;
        }
        proof {
            assert(s.take(s.len() as int) =~= s);
            assert(all.take(all.len() as int) =~= all);
            if let Some(t) = target_amount {
                lemma_cover_skip(all, t.0 as int, 0, all.len() as int);
            }
        }
        Ok(result)
    }

    fn get_tx_by_reference(&self, account: &FullAccount, reference: &String) -> (r: Result<
        Option<Transaction>,
        Error,
    >) {
        match self.find_by_reference(account, reference) {
            None => Ok(None),
            Some(i) => {
                let t = self.txs[i].1.copy();
                assert(self.model().txs[i as int].tx == t@);
                Ok(Some(t))
            },
        }
    }

    fn account_at(&self, offset: usize) -> (r: Option<FullAccount>) {
        proof {
            self.lemma_listing();
        }
        if offset < self.accounts.len() {
            Some(self.accounts[offset])
        } else {
            None
        }
    }

    fn store_tx(&mut self, tx: Transaction) -> (r: Result<(), Error>) {
        let h = tx.id();
        if self.knows_hash(&h) {
            return Err(Error::Duplicate);
        }
        let ins = tx.inputs();
        let outs = tx.outputs();
        let mut k: usize = 0;
        while k < outs.len()
            invariant
                0 <= k <= outs@.len(),
                outs@ == tx@.outputs,
                self.valid(),
                *self == *old(self),
                !self.model().has_tx(tx_hash(tx@)),
                forall|q: int| 0 <= q < k ==> !#[trigger] self.model().reference_bound(tx@.outputs[q].0, tx@.reference),
            decreases outs@.len() - k,
        {
            if let Some(i) = self.find_by_reference(&outs[k].0, tx.reference()) {
                proof {
                    assert(binds(self.model().txs[i as int].tx, tx@.outputs[k as int].0, tx@.reference));
                    assert(self.model().reference_bound(tx@.outputs[k as int].0, tx@.reference));
                }
                return Err(Error::Duplicate);
            }
            k = k + 1;
        }
        let mut m: usize = 0;
        while m < ins.len()
            invariant
                0 <= m <= ins@.len(),
                ins@ == tx@.inputs,
                self.valid(),
                *self == *old(self),
                !self.model().has_tx(tx_hash(tx@)),
                !(exists|q: int| 0 <= q < tx@.outputs.len() && #[trigger] self.model().reference_bound(tx@.outputs[q].0, tx@.reference)),
                self.model().input_error_from(tx@.inputs, 0) == self.model().input_error_from(
                    tx@.inputs,
                    m as int,
                ),
            decreases ins@.len() - m,
        {
            let u = ins[m];
            match self.find_utxo(&u.id) {
                None => {
                    return Err(Error::MissingUtxo(u.id));
                },
                Some(j) => {
                    proof {
                        lemma_lookup(self.utxos@, u.id);
                    }
                    if self.utxos[j].spent_at.is_some() {
                        return Err(Error::SpentUtxo(u.id));
                    }
                    if self.utxos[j].amount.0 != u.amount.0 {
                        return Err(Error::MismatchAmount);
                    }
                },
            }
            m = m + 1;
        }
        if outs.len() > 256 {
            return Err(Error::Math);
        }
        let ghost before = self.model();
        let ghost old_accounts = self.accounts@;
        proof {
            lemma_commit_consistent(before, tx@, h);
        }
        let mut i: usize = 0;
        while i < self.utxos.len()
            invariant
                0 <= i <= self.utxos@.len(),
                self.utxos@.len() == before.utxos.len(),
                ins@ == tx@.inputs,
                forall|x: int| 0 <= x < i ==> self.utxos@[x] == spend(before.utxos, ins@, h)[x],
                forall|x: int| i <= x < self.utxos@.len() ==> self.utxos@[x] == before.utxos[x],
                self.model().txs == before.txs,
                self.accounts@ == old_accounts,
            decreases self.utxos@.len() - i,
        {
            if is_input_exec(ins, &self.utxos[i].id) {
                let mut rec = self.utxos[i];
                rec.spent_at = Some(h);
                self.utxos.set(i, rec);
            }
            i = i + 1;
        }
        assert(self.utxos@ =~= spend(before.utxos, ins@, h));
        let ghost spent = self.utxos@;
        let mut p: usize = 0;
        proof {
            assert(outs@.take(0) =~= Seq::<(FullAccount, Amount)>::empty());
            assert(output_accounts(outs@.take(0)) =~= Set::<FullAccount>::empty());
            assert(self.accounts@.to_set() =~= before.accounts + output_accounts(outs@.take(0)));
            assert(spent + new_records(h, outs@).take(0) =~= spent);
        }
        while p < outs.len()
            invariant
                0 <= p <= outs@.len(),
                outs@.len() <= 256,
                outs@ == tx@.outputs,
                self.utxos@ == spent + new_records(h, outs@).take(p as int),
                self.model().txs == before.txs,
                sorted_by_rank(self.accounts@),
                self.accounts@.to_set() == before.accounts + output_accounts(outs@.take(p as int)),
            decreases outs@.len() - p,
        {
            let rec = UtxoRecord {
                id: UtxoId { id: h, pos: p as u8 },
                account: outs[p].0,
                amount: outs[p].1,
                spent_at: None,
            };
            self.utxos.push(rec);
            self.add_account(outs[p].0);
            proof {
                assert(spent + new_records(h, outs@).take(p + 1) =~= (spent + new_records(h, outs@).take(p as int)).push(rec));
                assert(output_accounts(outs@.take(p + 1)) =~= output_accounts(outs@.take(p as int)).insert(outs@[p as int].0)) by {
                    assert forall|a: FullAccount| output_accounts(outs@.take(p + 1)).contains(a) implies output_accounts(outs@.take(p as int)).insert(outs@[p as int].0).contains(a) by {
                        let q = choose|q: int| 0 <= q < outs@.take(p + 1).len() && #[trigger] outs@.take(p + 1)[q].0 == a;
                        if q < p {
                            assert(outs@.take(p as int)[q].0 == a);
                        }
                    }
                    assert forall|a: FullAccount| output_accounts(outs@.take(p as int)).insert(outs@[p as int].0).contains(a) implies output_accounts(outs@.take(p + 1)).contains(a) by {
                        if a == outs@[p as int].0 {
                            assert(outs@.take(p + 1)[p as int].0 == a);
                        } else {
                            let q = choose|q: int| 0 <= q < outs@.take(p as int).len() && #[trigger] outs@.take(p as int)[q].0 == a;
                            assert(outs@.take(p + 1)[q].0 == a);
                        }
                    }
                }
                assert(self.accounts@.to_set() =~= before.accounts + output_accounts(outs@.take(p + 1)));
            }
            p = p + 1;
        }
        proof {
            assert(outs@.take(outs@.len() as int) =~= outs@);
            assert(new_records(h, outs@).take(outs@.len() as int) =~= new_records(h, outs@));
        }
        let ghost t = tx@;
        self.txs.push((h, tx));
        proof {
            assert(self.model().txs =~= before.txs.push(StoredTx { id: h, tx: t }));
            assert(self.model() == before.commit(t, h));
        }
        Ok(())
    }
}

} // verus!
