use vstd::prelude::*;

use crate::account::FullAccount;
use crate::amount::{fits_i128, Amount};
use crate::transaction::{
    sum_inputs, sum_outputs, tx_hash, well_formed_sides, HashId, Transaction, TxView, Utxo, UtxoId,
};

verus! {

/// Failures of the storage layer.
#[derive(Debug, Clone, Copy, PartialEq, Eq)]
pub enum Error {
    /// An input names an output that was never created.
    MissingUtxo(UtxoId),
    /// An input names an output that is already spent.
    SpentUtxo(UtxoId),
    /// An input asserts another amount than the stored output holds.
    MismatchAmount,
    /// Arithmetic overflow, or more outputs than a position byte can number.
    Math,
    /// The transaction, or its reference in one of its sub-accounts, is already stored.
    Duplicate,
    /// A broken internal invariant.
    Internal,
}

/// An output as the storage layer keeps it: where it belongs, what it holds, and the
/// transaction that spent it, if any.
#[derive(Debug, Clone, Copy)]
pub struct UtxoRecord {
    pub id: UtxoId,
    pub account: FullAccount,
    pub amount: Amount,
    pub spent_at: Option<HashId>,
}

/// A committed transaction and its hash.
pub struct StoredTx {
    pub id: HashId,
    pub tx: TxView,
}

/// The state of a store: committed transactions in commit order, every output ever
/// created in creation order, and the sub-accounts that received an output.
pub struct StoreModel {
    pub txs: Seq<StoredTx>,
    pub utxos: Seq<UtxoRecord>,
    pub accounts: Set<FullAccount>,
}

/// Whether the transaction is recorded under `(account, reference)`: it carries the
/// reference and pays an output to the account.
pub open spec fn binds(t: TxView, account: FullAccount, reference: Seq<char>) -> bool {
    &&& t.reference == reference
    &&& exists|k: int| 0 <= k < t.outputs.len() && #[trigger] t.outputs[k] == (account, t.outputs[k].1)
}

/// Index of the last record with the given identifier.
pub open spec fn lookup(s: Seq<UtxoRecord>, id: UtxoId) -> Option<int>
    decreases s.len(),
{
    if s.len() == 0 {
        None
    } else if s.last().id.same_as(id) {
        Some(s.len() - 1)
    } else {
        lookup(s.drop_last(), id)
    }
}

/// The output reference for a record.
pub open spec fn as_utxo(r: UtxoRecord) -> Utxo {
    Utxo { id: r.id, amount: r.amount }
}

/// Whether the record is an unspent output of the account.
pub open spec fn unspent_in(r: UtxoRecord, a: FullAccount) -> bool {
    r.account == a && r.spent_at is None
}

/// The unspent outputs of an account, oldest first.
pub open spec fn unspent_of(s: Seq<UtxoRecord>, a: FullAccount) -> Seq<Utxo>
    decreases s.len(),
{
    if s.len() == 0 {
        Seq::empty()
    } else if unspent_in(s.last(), a) {
        unspent_of(s.drop_last(), a).push(as_utxo(s.last()))
    } else {
        unspent_of(s.drop_last(), a)
    }
}

/// The balance of an account: the sum of its unspent outputs.
pub open spec fn balance_of(s: Seq<UtxoRecord>, a: FullAccount) -> int {
    sum_inputs(unspent_of(s, a))
}

/// Length of the shortest prefix of `s`, of at least `j + 1` items, whose sum reaches
/// `t`; all of `s` if none does.
pub open spec fn cover_len_from(s: Seq<Utxo>, t: int, j: int) -> int
    decreases s.len() - j,
{
    if j < 0 || j >= s.len() {
        s.len() as int
    } else if sum_inputs(s.take(j + 1)) >= t {
        j + 1
    } else {
        cover_len_from(s, t, j + 1)
    }
}

/// The oldest outputs of `s` up to the first whose running sum reaches `t`, or an
/// overflow error when a running sum on the way leaves the 128-bit range.
pub open spec fn covering(s: Seq<Utxo>, t: int) -> Result<Seq<Utxo>, Error> {
    let k = cover_len_from(s, t, 0);
    if exists|j: int| 1 <= j <= k && !fits_i128(#[trigger] sum_inputs(s.take(j))) {
        Err(Error::Math)
    } else {
        Ok(s.take(k))
    }
}

/// What an unspent-output query answers.
pub open spec fn unspent_query(s: Seq<UtxoRecord>, a: FullAccount, target: Option<Amount>) -> Result<
    Seq<Utxo>,
    Error,
> {
    match target {
        None => Ok(unspent_of(s, a)),
        Some(t) => covering(unspent_of(s, a), t.0 as int),
    }
}

/// Whether an input of the list names the identifier.
pub open spec fn is_input(ins: Seq<Utxo>, id: UtxoId) -> bool {
    exists|k: int| 0 <= k < ins.len() && #[trigger] ins[k].id.same_as(id)
}

/// The records after the inputs are marked as spent by the transaction `h`.
pub open spec fn spend(s: Seq<UtxoRecord>, ins: Seq<Utxo>, h: HashId) -> Seq<UtxoRecord> {
    Seq::new(
        s.len(),
        |i: int|
            if is_input(ins, s[i].id) {
                UtxoRecord { spent_at: Some(h), ..s[i] }
            } else {
                s[i]
            },
    )
}

/// The records of the outputs created by transaction `h`.
pub open spec fn new_records(h: HashId, outs: Seq<(FullAccount, Amount)>) -> Seq<UtxoRecord> {
    Seq::new(
        outs.len(),
        |p: int|
            UtxoRecord {
                id: UtxoId { id: h, pos: p as u8 },
                account: outs[p].0,
                amount: outs[p].1,
                spent_at: None,
            },
    )
}

/// The sub-accounts that the outputs pay.
pub open spec fn output_accounts(outs: Seq<(FullAccount, Amount)>) -> Set<FullAccount> {
    Set::new(|a: FullAccount| exists|k: int| 0 <= k < outs.len() && #[trigger] outs[k].0 == a)
}

/// The sum of the outputs paid to an account.
pub open spec fn paid_to(outs: Seq<(FullAccount, Amount)>, a: FullAccount) -> int
    decreases outs.len(),
{
    if outs.len() == 0 {
        0
    } else {
        paid_to(outs.drop_last(), a) + if outs.last().0 == a {
            outs.last().1.0 as int
        } else {
            0
        }
    }
}

impl StoreModel {
    /// Whether a transaction with this hash is stored.
    pub open spec fn has_tx(self, h: Seq<u8>) -> bool {
        exists|i: int| 0 <= i < self.txs.len() && #[trigger] self.txs[i].id@ == h
    }

    /// Whether `(account, reference)` is taken.
    pub open spec fn reference_bound(self, a: FullAccount, reference: Seq<char>) -> bool {
        exists|i: int| 0 <= i < self.txs.len() && #[trigger] binds(self.txs[i].tx, a, reference)
    }

    /// The first failure among the inputs from position `i` on, checked in order.
    pub open spec fn input_error_from(self, ins: Seq<Utxo>, i: int) -> Option<Error>
        decreases ins.len() - i,
    {
        if i < 0 || i >= ins.len() {
            None
        } else {
            match lookup(self.utxos, ins[i].id) {
                None => Some(Error::MissingUtxo(ins[i].id)),
                Some(j) => if self.utxos[j].spent_at is Some {
                    Some(Error::SpentUtxo(ins[i].id))
                } else if self.utxos[j].amount != ins[i].amount {
                    Some(Error::MismatchAmount)
                } else {
                    self.input_error_from(ins, i + 1)
                },
            }
        }
    }

    /// Why storing the transaction fails, if it does: a known hash or a taken
    /// reference, then the inputs in order, then too many outputs.
    pub open spec fn store_error(self, t: TxView) -> Option<Error> {
        if self.has_tx(tx_hash(t)) {
            Some(Error::Duplicate)
        } else if exists|k: int|
            0 <= k < t.outputs.len() && #[trigger] self.reference_bound(t.outputs[k].0, t.reference) {
            Some(Error::Duplicate)
        } else if self.input_error_from(t.inputs, 0) is Some {
            self.input_error_from(t.inputs, 0)
        } else if t.outputs.len() > 256 {
            Some(Error::Math)
        } else {
            None
        }
    }

    /// The state after committing `t` under hash `h`.
    pub open spec fn commit(self, t: TxView, h: HashId) -> StoreModel {
        StoreModel {
            txs: self.txs.push(StoredTx { id: h, tx: t }),
            utxos: spend(self.utxos, t.inputs, h) + new_records(h, t.outputs),
            accounts: self.accounts + output_accounts(t.outputs),
        }
    }

    /// The stored transaction that is recorded under `(account, reference)`.
    pub open spec fn found_by_reference(self, a: FullAccount, reference: Seq<char>, t: TxView) -> bool {
        exists|i: int|
            0 <= i < self.txs.len() && binds(self.txs[i].tx, a, reference) && #[trigger] self.txs[i].tx
                == t
    }

    /// What holds of every reachable state.
    pub open spec fn consistent(self) -> bool {
        &&& forall|i: int|
            0 <= i < self.txs.len() ==> #[trigger] self.txs[i].id@ == tx_hash(self.txs[i].tx)
                && well_formed_sides(self.txs[i].tx.inputs, self.txs[i].tx.outputs)
        &&& forall|i: int, j: int|
            0 <= i < j < self.txs.len() ==> #[trigger] self.txs[i].id@ != #[trigger] self.txs[j].id@
        &&& forall|i: int, j: int, a: FullAccount, r: Seq<char>|
            0 <= i < self.txs.len() && 0 <= j < self.txs.len() && #[trigger] binds(self.txs[i].tx, a, r)
                && #[trigger] binds(self.txs[j].tx, a, r) ==> i == j
        &&& forall|i: int, j: int|
            0 <= i < j < self.utxos.len() ==> !(#[trigger] self.utxos[i].id).same_as(
                #[trigger] self.utxos[j].id,
            )
        &&& forall|i: int| 0 <= i < self.utxos.len() ==> self.has_tx(#[trigger] self.utxos[i].id.id@)
        &&& forall|i: int, m: int|
            0 <= i < self.txs.len() && 0 <= m < self.txs[i].tx.inputs.len() ==> #[trigger] self.spent_by(
                self.txs[i].tx.inputs[m].id,
                self.txs[i].id@,
            )
        &&& forall|a: FullAccount|
            self.accounts.contains(a) <==> exists|j: int|
                0 <= j < self.utxos.len() && #[trigger] self.utxos[j].account == a
    }

    /// Whether the output `id` is stored and marked as spent by transaction `h`.
    pub open spec fn spent_by(self, id: UtxoId, h: Seq<u8>) -> bool {
        exists|j: int|
            0 <= j < self.utxos.len() && #[trigger] self.utxos[j].id.same_as(id)
                && (self.utxos[j].spent_at matches Some(s) && s@ == h)
    }

    /// The empty store.
    pub open spec fn empty() -> StoreModel {
        StoreModel { txs: Seq::empty(), utxos: Seq::empty(), accounts: Set::empty() }
    }
}

/// Whether the accounts are in strictly ascending order.
pub open spec fn sorted_by_rank(s: Seq<FullAccount>) -> bool {
    forall|i: int, j: int| 0 <= i < j < s.len() ==> (#[trigger] s[i]).rank() < (#[trigger] s[j]).rank()
}

/// The accounts of a set in ascending order.
pub open spec fn account_listing(accounts: Set<FullAccount>) -> Seq<FullAccount> {
    choose|q: Seq<FullAccount>| sorted_by_rank(q) && q.to_set() == accounts
}

/// Two ascending lists of the same accounts are the same list.
pub proof fn lemma_listing_unique(q1: Seq<FullAccount>, q2: Seq<FullAccount>)
    requires
        sorted_by_rank(q1),
        sorted_by_rank(q2),
        q1.to_set() == q2.to_set(),
    ensures
        q1 == q2,
    decreases q1.len() + q2.len(),
{
    if q1.len() == 0 || q2.len() == 0 {
        if q2.len() > 0 {
            assert(q2.contains(q2[0]));
            assert(q2.to_set().contains(q2[0]));
            assert(q1.contains(q2[0]));
        }
        if q1.len() > 0 {
            assert(q1.contains(q1[0]));
            assert(q1.to_set().contains(q1[0]));
            assert(q2.contains(q1[0]));
        }
        assert(q1 =~= q2);
    } else {
        assert(q2.to_set().contains(q1[0]));
        assert(q1.to_set().contains(q2[0]));
        let j2 = choose|j: int| 0 <= j < q2.len() && q2[j] == q1[0];
        let j1 = choose|j: int| 0 <= j < q1.len() && q1[j] == q2[0];
        if j2 > 0 {
            assert(q2[0].rank() < q2[j2].rank());
        }
        if j1 > 0 {
            assert(q1[0].rank() < q1[j1].rank());
        }
        assert(q1[0] == q2[0]);
        let r1 = q1.drop_first();
        let r2 = q2.drop_first();
        assert forall|x: FullAccount| r1.to_set().contains(x) implies r2.to_set().contains(x) by {
            let k = choose|k: int| 0 <= k < r1.len() && r1[k] == x;
            assert(q1[k + 1] == x);
            assert(q1[0].rank() < q1[k + 1].rank());
            assert(q2.to_set().contains(x));
            let m = choose|m: int| 0 <= m < q2.len() && q2[m] == x;
            assert(m != 0);
            assert(r2[m - 1] == x);
        }
        assert forall|x: FullAccount| r2.to_set().contains(x) implies r1.to_set().contains(x) by {
            let k = choose|k: int| 0 <= k < r2.len() && r2[k] == x;
            assert(q2[k + 1] == x);
            assert(q2[0].rank() < q2[k + 1].rank());
            assert(q1.to_set().contains(x));
            let m = choose|m: int| 0 <= m < q1.len() && q1[m] == x;
            assert(m != 0);
            assert(r1[m - 1] == x);
        }
        assert(r1.to_set() =~= r2.to_set());
        lemma_listing_unique(r1, r2);
        assert forall|i: int| 0 <= i < q1.len() implies q1[i] == q2[i] by {
            if i > 0 {
                assert(q1[i] == r1[i - 1]);
                assert(q2[i] == r2[i - 1]);
            }
        }
        assert(q1 =~= q2);
    }
}

/// In an ascending list of accounts the client ids never decrease.
pub proof fn lemma_listing_ids_ascending(q: Seq<FullAccount>, i: int, j: int)
    requires
        sorted_by_rank(q),
        0 <= i <= j < q.len(),
    ensures
        q[i].0.0 <= q[j].0.0,
{
    if i < j {
        assert(q[i].rank() < q[j].rank());
    }
}

/// Committed transactions with inputs and outputs balance to a positive sum.
pub proof fn lemma_committed_balanced(m: StoreModel, i: int)
    requires
        m.consistent(),
        0 <= i < m.txs.len(),
        m.txs[i].tx.inputs.len() > 0,
        m.txs[i].tx.outputs.len() > 0,
    ensures
        sum_inputs(m.txs[i].tx.inputs) == sum_outputs(m.txs[i].tx.outputs),
        sum_inputs(m.txs[i].tx.inputs) > 0,
{
    assert(m.txs[i].id@ == tx_hash(m.txs[i].tx));
}

/// An output is an input of at most one committed transaction.
pub proof fn lemma_single_spend(m: StoreModel, i1: int, m1: int, i2: int, m2: int)
    requires
        m.consistent(),
        0 <= i1 < m.txs.len(),
        0 <= i2 < m.txs.len(),
        0 <= m1 < m.txs[i1].tx.inputs.len(),
        0 <= m2 < m.txs[i2].tx.inputs.len(),
        m.txs[i1].tx.inputs[m1].id.same_as(m.txs[i2].tx.inputs[m2].id),
    ensures
        i1 == i2,
{
    assert(m.spent_by(m.txs[i1].tx.inputs[m1].id, m.txs[i1].id@));
    assert(m.spent_by(m.txs[i2].tx.inputs[m2].id, m.txs[i2].id@));
    let j1 = choose|j: int|
        0 <= j < m.utxos.len() && #[trigger] m.utxos[j].id.same_as(m.txs[i1].tx.inputs[m1].id) && (
        m.utxos[j].spent_at matches Some(s) && s@ == m.txs[i1].id@);
    let j2 = choose|j: int|
        0 <= j < m.utxos.len() && #[trigger] m.utxos[j].id.same_as(m.txs[i2].tx.inputs[m2].id) && (
        m.utxos[j].spent_at matches Some(s) && s@ == m.txs[i2].id@);
    if j1 != j2 {
        if j1 < j2 {
            assert(!m.utxos[j1].id.same_as(m.utxos[j2].id));
        } else {
            assert(!m.utxos[j2].id.same_as(m.utxos[j1].id));
        }
    }
    if i1 != i2 {
        if i1 < i2 {
            assert(m.txs[i1].id@ != m.txs[i2].id@);
        } else {
            assert(m.txs[i2].id@ != m.txs[i1].id@);
        }
    }
}

/// A `(sub-account, reference)` pair names at most one committed transaction.
pub proof fn lemma_reference_unique(m: StoreModel, i: int, j: int, a: FullAccount, r: Seq<char>)
    requires
        m.consistent(),
        0 <= i < m.txs.len(),
        0 <= j < m.txs.len(),
        binds(m.txs[i].tx, a, r),
        binds(m.txs[j].tx, a, r),
    ensures
        i == j,
{
}

/// What `lookup` finds is a record with that identifier, and when it finds nothing
/// there is none.
pub proof fn lemma_lookup(s: Seq<UtxoRecord>, id: UtxoId)
    ensures
        lookup(s, id) matches Some(j) ==> 0 <= j < s.len() && s[j].id.same_as(id),
        lookup(s, id) is None ==> forall|j: int| 0 <= j < s.len() ==> !(#[trigger] s[j].id).same_as(id),
    decreases s.len(),
{
    if s.len() > 0 {
        lemma_lookup(s.drop_last(), id);
        if lookup(s, id) is None {
            assert forall|j: int| 0 <= j < s.len() implies !(#[trigger] s[j].id).same_as(id) by {
                if j < s.len() - 1 {
                    assert(s.drop_last()[j] == s[j]);
                }
            }
        }
    }
}

/// Searching a prefix after the tail holds no match gives the same answer.
pub proof fn lemma_lookup_take(s: Seq<UtxoRecord>, id: UtxoId, i: int)
    requires
        0 <= i <= s.len(),
        forall|k: int| i <= k < s.len() ==> !(#[trigger] s[k].id).same_as(id),
    ensures
        lookup(s, id) == lookup(s.take(i), id),
    decreases s.len() - i,
{
    if i < s.len() {
        lemma_lookup_take(s, id, i + 1);
        assert(s.take(i + 1).drop_last() =~= s.take(i));
    } else {
        assert(s.take(i) =~= s);
    }
}

/// With unique identifiers, a record's own identifier finds that record.
pub proof fn lemma_lookup_unique(s: Seq<UtxoRecord>, id: UtxoId, j: int)
    requires
        0 <= j < s.len(),
        s[j].id.same_as(id),
        forall|a: int, b: int| 0 <= a < b < s.len() ==> !(#[trigger] s[a].id).same_as(#[trigger] s[b].id),
    ensures
        lookup(s, id) == Some(j),
{
    lemma_lookup(s, id);
    match lookup(s, id) {
        Some(k) => {
            if k != j {
                if k < j {
                    assert(!s[k].id.same_as(s[j].id));
                } else {
                    assert(!s[j].id.same_as(s[k].id));
                }
            }
        },
        None => {
            assert(!s[j].id.same_as(id));
        },
    }
}

/// Unspent outputs of a concatenation.
pub proof fn lemma_unspent_concat(x: Seq<UtxoRecord>, y: Seq<UtxoRecord>, a: FullAccount)
    ensures
        unspent_of(x + y, a) == unspent_of(x, a) + unspent_of(y, a),
    decreases y.len(),
{
    if y.len() == 0 {
        assert(x + y =~= x);
        assert(unspent_of(x, a) + unspent_of(y, a) =~= unspent_of(x, a));
    } else {
        lemma_unspent_concat(x, y.drop_last(), a);
        assert((x + y).drop_last() =~= x + y.drop_last());
        assert((x + y).last() == y.last());
        if unspent_in(y.last(), a) {
            assert(unspent_of(x, a) + unspent_of(y.drop_last(), a).push(as_utxo(y.last())) =~= (
            unspent_of(x, a) + unspent_of(y.drop_last(), a)).push(as_utxo(y.last())));
        }
    }
}

/// The unspent outputs of a prefix of the records are a prefix of the unspent outputs.
pub proof fn lemma_unspent_prefix(s: Seq<UtxoRecord>, a: FullAccount, i: int)
    requires
        0 <= i <= s.len(),
    ensures
        unspent_of(s.take(i), a).len() <= unspent_of(s, a).len(),
        unspent_of(s.take(i), a) == unspent_of(s, a).take(unspent_of(s.take(i), a).len() as int),
{
    lemma_unspent_concat(s.take(i), s.skip(i), a);
    assert(s.take(i) + s.skip(i) =~= s);
    let x = unspent_of(s.take(i), a);
    let y = unspent_of(s.skip(i), a);
    assert((x + y).take(x.len() as int) =~= x);
}

/// Sum of a concatenation.
pub proof fn lemma_sum_concat(x: Seq<Utxo>, y: Seq<Utxo>)
    ensures
        sum_inputs(x + y) == sum_inputs(x) + sum_inputs(y),
    decreases y.len(),
{
    if y.len() == 0 {
        assert(x + y =~= x);
    } else {
        lemma_sum_concat(x, y.drop_last());
        assert((x + y).drop_last() =~= x + y.drop_last());
    }
}

/// Sum of one more item.
pub proof fn lemma_sum_push(x: Seq<Utxo>, u: Utxo)
    ensures
        sum_inputs(x.push(u)) == sum_inputs(x) + u.amount.0,
{
    assert(x.push(u).drop_last() =~= x);
}

/// Positions before `n` whose running sums stay under the target are passed over.
pub proof fn lemma_cover_skip(s: Seq<Utxo>, t: int, j: int, n: int)
    requires
        0 <= j <= n <= s.len(),
        forall|k: int| 1 <= k <= n ==> #[trigger] sum_inputs(s.take(k)) < t,
    ensures
        cover_len_from(s, t, j) == cover_len_from(s, t, n),
    decreases n - j,
{
    if j < n {
        lemma_cover_skip(s, t, j + 1, n);
        assert(sum_inputs(s.take(j + 1)) < t);
    }
}

/// Bounds of the covering length.
pub proof fn lemma_cover_bounds(s: Seq<Utxo>, t: int, j: int)
    requires
        0 <= j < s.len(),
    ensures
        j + 1 <= cover_len_from(s, t, j) <= s.len(),
    decreases s.len() - j,
{
    if j + 1 < s.len() {
        lemma_cover_bounds(s, t, j + 1);
    } else {
        assert(cover_len_from(s, t, j + 1) == s.len());
    }
}

/// History only grows: committing a transaction that passes the checks keeps every
/// stored transaction and every output, and leaves each spent output as it was.
pub proof fn lemma_commit_append_only(m: StoreModel, t: TxView, h: HashId)
    requires
        m.consistent(),
        m.store_error(t) is None,
    ensures
        m.commit(t, h).txs.take(m.txs.len() as int) == m.txs,
        m.commit(t, h).utxos.len() >= m.utxos.len(),
        forall|i: int|
            0 <= i < m.utxos.len() ==> (#[trigger] m.commit(t, h).utxos[i]).id == m.utxos[i].id
                && m.commit(t, h).utxos[i].amount == m.utxos[i].amount && m.commit(t, h).utxos[i].account
                == m.utxos[i].account,
        forall|i: int|
            0 <= i < m.utxos.len() && m.utxos[i].spent_at is Some ==> #[trigger] m.commit(t, h).utxos[i]
                == m.utxos[i],
{
    let n = m.commit(t, h);
    assert(n.txs.take(m.txs.len() as int) =~= m.txs);
    lemma_inputs_checked(m, t.inputs, 0);
    assert forall|i: int| 0 <= i < m.utxos.len() && m.utxos[i].spent_at is Some implies #[trigger] n.utxos[i]
        == m.utxos[i] by {
        if is_input(t.inputs, m.utxos[i].id) {
            let k = choose|k: int| 0 <= k < t.inputs.len() && #[trigger] t.inputs[k].id.same_as(m.utxos[i].id);
            let j = lookup(m.utxos, t.inputs[k].id).unwrap();
            if j < i {
                assert(!m.utxos[j].id.same_as(m.utxos[i].id));
            } else if i < j {
                assert(!m.utxos[i].id.same_as(m.utxos[j].id));
            }
        }
    }
}

/// Each input of a list that passes the checks names an unspent stored output holding
/// the asserted amount.
pub proof fn lemma_inputs_checked(m: StoreModel, ins: Seq<Utxo>, i: int)
    requires
        0 <= i,
        m.input_error_from(ins, i) is None,
    ensures
        forall|k: int|
            i <= k < ins.len() ==> (#[trigger] lookup(m.utxos, ins[k].id) matches Some(j) && 0 <= j
                < m.utxos.len() && m.utxos[j].id.same_as(ins[k].id) && m.utxos[j].spent_at is None
                && m.utxos[j].amount == ins[k].amount),
    decreases ins.len() - i,
{
    if i < ins.len() {
        lemma_lookup(m.utxos, ins[i].id);
        lemma_inputs_checked(m, ins, i + 1);
    }
}

/// Committing a transaction that passes the checks keeps the state consistent.
pub proof fn lemma_commit_consistent(m: StoreModel, t: TxView, h: HashId)
    requires
        m.consistent(),
        m.store_error(t) is None,
        h@ == tx_hash(t),
        well_formed_sides(t.inputs, t.outputs),
    ensures
        m.commit(t, h).consistent(),
{
    let n = m.commit(t, h);
    let sp = spend(m.utxos, t.inputs, h);
    let nr = new_records(h, t.outputs);
    let last = m.txs.len() as int;
    lemma_inputs_checked(m, t.inputs, 0);
    assert(!m.has_tx(h@));
    assert(n.utxos == sp + nr);
    assert forall|i: int|
        0 <= i < n.txs.len() implies #[trigger] n.txs[i].id@ == tx_hash(n.txs[i].tx)
        && well_formed_sides(n.txs[i].tx.inputs, n.txs[i].tx.outputs) by {
        if i < last {
            assert(n.txs[i] == m.txs[i]);
            assert(m.txs[i].id@ == tx_hash(m.txs[i].tx));
        }
    }
    assert forall|i: int, j: int|
        0 <= i < j < n.txs.len() implies #[trigger] n.txs[i].id@ != #[trigger] n.txs[j].id@ by {
        if j < last {
            assert(m.txs[i].id@ != m.txs[j].id@);
        } else {
            assert(n.txs[i] == m.txs[i]);
            if m.txs[i].id@ == h@ {
                assert(m.has_tx(h@));
            }
        }
    }
    assert forall|i: int, j: int, a: FullAccount, r: Seq<char>|
        0 <= i < n.txs.len() && 0 <= j < n.txs.len() && #[trigger] binds(n.txs[i].tx, a, r)
            && #[trigger] binds(n.txs[j].tx, a, r) implies i == j by {
        if i < last && j < last {
            assert(n.txs[i] == m.txs[i]);
            assert(n.txs[j] == m.txs[j]);
        } else if i < last || j < last {
            let o = if i < last { i } else { j };
            assert(n.txs[o] == m.txs[o]);
            assert(n.txs[last].tx == t);
            let k = choose|k: int| 0 <= k < t.outputs.len() && #[trigger] t.outputs[k] == (a, t.outputs[k].1);
            assert(r == t.reference);
            assert(t.outputs[k].0 == a);
            assert(binds(m.txs[o].tx, t.outputs[k].0, t.reference));
            assert(m.reference_bound(t.outputs[k].0, t.reference));
        }
    }
    assert forall|i: int, j: int|
        0 <= i < j < n.utxos.len() implies !(#[trigger] n.utxos[i].id).same_as(
        #[trigger] n.utxos[j].id) by {
        let ls = sp.len() as int;
        if j < ls {
            assert(!m.utxos[i].id.same_as(m.utxos[j].id));
        } else if i >= ls {
            assert(n.utxos[i] == nr[i - ls]);
            assert(n.utxos[j] == nr[j - ls]);
        } else {
            assert(n.utxos[i].id == m.utxos[i].id);
            assert(m.has_tx(m.utxos[i].id.id@));
        }
    }
    assert forall|i: int| 0 <= i < n.utxos.len() implies n.has_tx(#[trigger] n.utxos[i].id.id@) by {
        let ls = sp.len() as int;
        if i < ls {
            assert(m.has_tx(m.utxos[i].id.id@));
            let k = choose|k: int| 0 <= k < m.txs.len() && #[trigger] m.txs[k].id@ == m.utxos[i].id.id@;
            assert(n.txs[k] == m.txs[k]);
        } else {
            assert(n.utxos[i] == nr[i - ls]);
            assert(n.txs[last].id == h);
        }
    }
    assert forall|i: int, q: int|
        0 <= i < n.txs.len() && 0 <= q < n.txs[i].tx.inputs.len() implies #[trigger] n.spent_by(
        n.txs[i].tx.inputs[q].id,
        n.txs[i].id@,
    ) by {
        if i < last {
            assert(n.txs[i] == m.txs[i]);
            assert(m.spent_by(m.txs[i].tx.inputs[q].id, m.txs[i].id@));
            let j = choose|j: int|
                0 <= j < m.utxos.len() && #[trigger] m.utxos[j].id.same_as(m.txs[i].tx.inputs[q].id)
                    && (m.utxos[j].spent_at matches Some(s) && s@ == m.txs[i].id@);
            if is_input(t.inputs, m.utxos[j].id) {
                let k = choose|k: int| 0 <= k < t.inputs.len() && #[trigger] t.inputs[k].id.same_as(m.utxos[j].id);
                let j2 = lookup(m.utxos, t.inputs[k].id).unwrap();
                assert(m.utxos[j2].spent_at is None);
                if j2 < j {
                    assert(!m.utxos[j2].id.same_as(m.utxos[j].id));
                } else if j < j2 {
                    assert(!m.utxos[j].id.same_as(m.utxos[j2].id));
                }
            }
            assert(n.utxos[j] == m.utxos[j]);
        } else {
            assert(n.txs[i].tx == t);
            let j = lookup(m.utxos, t.inputs[q].id).unwrap();
            assert(t.inputs[q].id.same_as(m.utxos[j].id));
            assert(is_input(t.inputs, m.utxos[j].id));
            assert(n.utxos[j].spent_at == Some(h));
            assert(n.utxos[j].id.same_as(t.inputs[q].id));
        }
    }
    assert forall|a: FullAccount|
        n.accounts.contains(a) <==> exists|j: int|
            0 <= j < n.utxos.len() && #[trigger] n.utxos[j].account == a by {
        let ls = sp.len() as int;
        if m.accounts.contains(a) {
            let j = choose|j: int| 0 <= j < m.utxos.len() && #[trigger] m.utxos[j].account == a;
            assert(n.utxos[j].account == a);
        }
        if output_accounts(t.outputs).contains(a) {
            let k = choose|k: int| 0 <= k < t.outputs.len() && #[trigger] t.outputs[k].0 == a;
            assert(n.utxos[ls + k] == nr[k]);
            assert(n.utxos[ls + k].account == a);
        }
        if exists|j: int| 0 <= j < n.utxos.len() && #[trigger] n.utxos[j].account == a {
            let j = choose|j: int| 0 <= j < n.utxos.len() && #[trigger] n.utxos[j].account == a;
            if j < ls {
                assert(m.utxos[j].account == a);
            } else {
                assert(n.utxos[j] == nr[j - ls]);
                assert(t.outputs[j - ls].0 == a);
                assert(output_accounts(t.outputs).contains(a));
            }
        }
    }
}

/// Whether no two inputs of the list name the same output.
pub open spec fn distinct_inputs(ins: Seq<Utxo>) -> bool {
    forall|k1: int, k2: int| 0 <= k1 < k2 < ins.len() ==> !(#[trigger] ins[k1].id).same_as(#[trigger] ins[k2].id)
}

/// Whether no two records have the same identifier.
pub open spec fn distinct_records(s: Seq<UtxoRecord>) -> bool {
    forall|a: int, b: int| 0 <= a < b < s.len() ==> !(#[trigger] s[a].id).same_as(#[trigger] s[b].id)
}

/// Whether the input names an unspent record of `src` holding the asserted amount.
pub open spec fn input_ok(s: Seq<UtxoRecord>, u: Utxo, src: FullAccount) -> bool {
    match lookup(s, u.id) {
        Some(j) => unspent_in(s[j], src) && s[j].amount == u.amount,
        None => false,
    }
}

/// Whether every input names an unspent record of `src` holding the asserted amount.
pub open spec fn inputs_unspent_in(s: Seq<UtxoRecord>, ins: Seq<Utxo>, src: FullAccount) -> bool {
    forall|k: int| 0 <= k < ins.len() ==> #[trigger] input_ok(s, ins[k], src)
}

/// Sum after removing one item.
pub proof fn lemma_sum_remove(ins: Seq<Utxo>, k: int)
    requires
        0 <= k < ins.len(),
    ensures
        sum_inputs(ins) == sum_inputs(ins.remove(k)) + ins[k].amount.0,
    decreases ins.len(),
{
    if k == ins.len() - 1 {
        assert(ins.remove(k) =~= ins.drop_last());
    } else {
        lemma_sum_remove(ins.drop_last(), k);
        assert(ins.remove(k).drop_last() =~= ins.drop_last().remove(k));
        assert(ins.remove(k).last() == ins.last());
    }
}

/// Marking inputs as spent takes their sum off the balance of the account they belong
/// to, and leaves every other account alone.
pub proof fn lemma_spend_balance(s: Seq<UtxoRecord>, ins: Seq<Utxo>, h: HashId, src: FullAccount, a: FullAccount)
    requires
        distinct_records(s),
        distinct_inputs(ins),
        inputs_unspent_in(s, ins, src),
    ensures
        balance_of(spend(s, ins, h), a) == balance_of(s, a) - if a == src {
            sum_inputs(ins)
        } else {
            0
        },
    decreases s.len(),
{
    if s.len() == 0 {
        if ins.len() > 0 {
            assert(input_ok(s, ins[0], src));
        }
        assert(spend(s, ins, h) =~= s);
    } else {
        let r = s.last();
        let s1 = s.drop_last();
        let sp = spend(s, ins, h);
        if is_input(ins, r.id) {
            let k0 = choose|k: int| 0 <= k < ins.len() && #[trigger] ins[k].id.same_as(r.id);
            assert(input_ok(s, ins[k0], src));
            let ins1 = ins.remove(k0);
            assert forall|k1: int, k2: int| 0 <= k1 < k2 < ins1.len() implies !(#[trigger] ins1[k1].id).same_as(
                #[trigger] ins1[k2].id) by {
                let a1 = if k1 < k0 { k1 } else { k1 + 1 };
                let a2 = if k2 < k0 { k2 } else { k2 + 1 };
                assert(ins1[k1] == ins[a1]);
                assert(ins1[k2] == ins[a2]);
                assert(!ins[a1].id.same_as(ins[a2].id));
            }
            assert forall|k: int| 0 <= k < ins1.len() implies #[trigger] input_ok(s1, ins1[k], src) by {
                let ak = if k < k0 { k } else { k + 1 };
                assert(ins1[k] == ins[ak]);
                assert(input_ok(s, ins[ak], src));
                if ak < k0 {
                    assert(!ins[ak].id.same_as(ins[k0].id));
                } else {
                    assert(!ins[k0].id.same_as(ins[ak].id));
                }
                assert(lookup(s, ins[ak].id) == lookup(s1, ins[ak].id));
                lemma_lookup(s1, ins[ak].id);
                let j = lookup(s1, ins[ak].id).unwrap();
                assert(s1[j] == s[j]);
            }
            lemma_spend_balance(s1, ins1, h, src, a);
            assert forall|i: int| 0 <= i < s1.len() implies is_input(ins, #[trigger] s1[i].id) == is_input(ins1, s1[i].id) by {
                assert(!s[i].id.same_as(s[s.len() - 1].id));
                if is_input(ins, s1[i].id) {
                    let k = choose|k: int| 0 <= k < ins.len() && #[trigger] ins[k].id.same_as(s1[i].id);
                    if k < k0 {
                        assert(ins1[k] == ins[k]);
                    } else if k > k0 {
                        assert(ins1[k - 1] == ins[k]);
                    }
                }
                if is_input(ins1, s1[i].id) {
                    let k = choose|k: int| 0 <= k < ins1.len() && #[trigger] ins1[k].id.same_as(s1[i].id);
                    if k < k0 {
                        assert(ins1[k] == ins[k]);
                    } else {
                        assert(ins1[k] == ins[k + 1]);
                    }
                }
            }
            assert(sp.drop_last() =~= spend(s1, ins1, h));
            assert(sp.last().spent_at is Some);
            assert(unspent_of(sp, a) == unspent_of(spend(s1, ins1, h), a));
            lemma_sum_remove(ins, k0);
            assert(lookup(s, ins[k0].id) == Some(s.len() - 1));
            if a == src {
                assert(unspent_of(s, a) == unspent_of(s1, a).push(as_utxo(r)));
                lemma_sum_push(unspent_of(s1, a), as_utxo(r));
            }
        } else {
            assert forall|k: int| 0 <= k < ins.len() implies #[trigger] input_ok(s1, ins[k], src) by {
                assert(input_ok(s, ins[k], src));
                if ins[k].id.same_as(r.id) {
                    assert(is_input(ins, r.id));
                }
                assert(lookup(s, ins[k].id) == lookup(s1, ins[k].id));
                lemma_lookup(s1, ins[k].id);
                let j = lookup(s1, ins[k].id).unwrap();
                assert(s1[j] == s[j]);
            }
            lemma_spend_balance(s1, ins, h, src, a);
            assert(sp.drop_last() =~= spend(s1, ins, h));
            assert(sp.last() == r);
            if unspent_in(r, a) {
                lemma_sum_push(unspent_of(s1, a), as_utxo(r));
                lemma_sum_push(unspent_of(spend(s1, ins, h), a), as_utxo(r));
            }
        }
    }
}

/// The balance an account gets from freshly created outputs.
pub proof fn lemma_new_records_balance(h: HashId, outs: Seq<(FullAccount, Amount)>, a: FullAccount)
    ensures
        balance_of(new_records(h, outs), a) == paid_to(outs, a),
    decreases outs.len(),
{
    if outs.len() > 0 {
        lemma_new_records_balance(h, outs.drop_last(), a);
        assert(new_records(h, outs).drop_last() =~= new_records(h, outs.drop_last()));
        if outs.last().0 == a {
            lemma_sum_push(unspent_of(new_records(h, outs.drop_last()), a), as_utxo(new_records(h, outs).last()));
        }
    }
}

/// Balances after a commit: the spent inputs are taken off the account they belong to
/// and the outputs are added to theirs.
pub proof fn lemma_commit_balance(m: StoreModel, t: TxView, h: HashId, src: FullAccount, a: FullAccount)
    requires
        m.consistent(),
        distinct_inputs(t.inputs),
        inputs_unspent_in(m.utxos, t.inputs, src),
    ensures
        balance_of(m.commit(t, h).utxos, a) == balance_of(m.utxos, a) - (if a == src {
            sum_inputs(t.inputs)
        } else {
            0
        }) + paid_to(t.outputs, a),
{
    let sp = spend(m.utxos, t.inputs, h);
    let nr = new_records(h, t.outputs);
    lemma_spend_balance(m.utxos, t.inputs, h, src, a);
    lemma_new_records_balance(h, t.outputs, a);
    lemma_unspent_concat(sp, nr, a);
    lemma_sum_concat(unspent_of(sp, a), unspent_of(nr, a));
}

/// The unspent outputs of an account name distinct unspent records of that account.
pub proof fn lemma_unspent_sound(s: Seq<UtxoRecord>, src: FullAccount)
    requires
        distinct_records(s),
    ensures
        distinct_inputs(unspent_of(s, src)),
        inputs_unspent_in(s, unspent_of(s, src), src),
    decreases s.len(),
{
    if s.len() > 0 {
        let s1 = s.drop_last();
        let r = s.last();
        let u1 = unspent_of(s1, src);
        let u = unspent_of(s, src);
        lemma_unspent_sound(s1, src);
        assert forall|k: int| 0 <= k < u1.len() implies #[trigger] input_ok(s, u1[k], src)
            && !u1[k].id.same_as(r.id) by {
            assert(input_ok(s1, u1[k], src));
            lemma_lookup(s1, u1[k].id);
            let j = lookup(s1, u1[k].id).unwrap();
            assert(s[j] == s1[j]);
            assert(!s[j].id.same_as(s[s.len() - 1].id));
        }
        if unspent_in(r, src) {
            assert(u == u1.push(as_utxo(r)));
            assert forall|k: int| 0 <= k < u.len() implies #[trigger] input_ok(s, u[k], src) by {
                if k < u1.len() {
                    assert(u[k] == u1[k]);
                }
            }
            assert forall|k1: int, k2: int| 0 <= k1 < k2 < u.len() implies !(#[trigger] u[k1].id).same_as(
                #[trigger] u[k2].id) by {
                assert(u[k1] == u1[k1]);
                assert(input_ok(s, u1[k1], src));
                if k2 < u1.len() {
                    assert(u[k2] == u1[k2]);
                }
            }
        }
    }
}

/// Inputs that name unspent records with their amounts pass the input checks.
pub proof fn lemma_inputs_pass(m: StoreModel, ins: Seq<Utxo>, src: FullAccount, i: int)
    requires
        0 <= i,
        inputs_unspent_in(m.utxos, ins, src),
    ensures
        m.input_error_from(ins, i) is None,
    decreases ins.len() - i,
{
    if i < ins.len() {
        assert(input_ok(m.utxos, ins[i], src));
        lemma_inputs_pass(m, ins, src, i + 1);
    }
}

/// Whether every running sum of the list fits in 128 bits.
pub open spec fn sums_fit(s: Seq<Utxo>) -> bool {
    forall|j: int| 0 <= j <= s.len() ==> fits_i128(#[trigger] sum_inputs(s.take(j)))
}

/// What a covering query returns has running sums that fit in 128 bits, is made of
/// the oldest unspent outputs, and reaches the target unless it holds them all.
pub proof fn lemma_covering_fits(s: Seq<Utxo>, t: int)
    requires
        covering(s, t) is Ok,
    ensures
        covering(s, t) matches Ok(sel) && sums_fit(sel) && sel == s.take(sel.len() as int) && sel.len() <= s.len()
            && (sel.len() < s.len() ==> sum_inputs(sel) >= t),
{
    let k = cover_len_from(s, t, 0);
    if s.len() > 0 {
        lemma_cover_bounds(s, t, 0);
        lemma_cover_reach(s, t, 0);
    } else {
        assert(k == 0);
    }
    let sel = s.take(k);
    assert forall|j: int| 0 <= j <= sel.len() implies fits_i128(#[trigger] sum_inputs(sel.take(j))) by {
        assert(sel.take(j) =~= s.take(j));
        if j == 0 {
            assert(s.take(0) =~= Seq::<Utxo>::empty());
        }
    }
}

/// A covering length short of the whole list is reached by its running sum.
pub proof fn lemma_cover_reach(s: Seq<Utxo>, t: int, j: int)
    requires
        0 <= j < s.len(),
    ensures
        cover_len_from(s, t, j) < s.len() ==> sum_inputs(s.take(cover_len_from(s, t, j))) >= t,
    decreases s.len() - j,
{
    if j + 1 < s.len() {
        lemma_cover_reach(s, t, j + 1);
    } else {
        assert(cover_len_from(s, t, j + 1) == s.len());
    }
}

/// The storage contract: atomic validation and commit of transactions, unspent-output
/// queries, lookup by reference, and the sorted list of sub-accounts.
pub trait Storage {
    /// The state the store holds.
    spec fn model(&self) -> StoreModel;

    /// Well-formedness of the representation.
    spec fn valid(&self) -> bool;

    /// A valid store holds a consistent state, whose sub-accounts can be listed.
    proof fn lemma_valid_consistent(&self)
        requires
            self.valid(),
        ensures
            self.model().consistent(),
            sorted_by_rank(account_listing(self.model().accounts)),
            account_listing(self.model().accounts).to_set() == self.model().accounts,
            account_listing(self.model().accounts).len() <= usize::MAX,
    ;

    /// The unspent outputs of `account`, oldest first; with a target, only up to the
    /// first whose running sum reaches it.
    fn get_unspent(&self, account: &FullAccount, target_amount: Option<Amount>) -> (r: Result<
        Vec<Utxo>,
        Error,
    >)
        requires
            self.valid(),
        ensures
            match r {
                Ok(v) => unspent_query(self.model().utxos, *account, target_amount) == Ok::<
                    Seq<Utxo>,
                    Error,
                >(v@),
                Err(e) => unspent_query(self.model().utxos, *account, target_amount) == Err::<
                    Seq<Utxo>,
                    Error,
                >(e),
            },
    ;

    /// The transaction recorded under `(account, reference)`, if any.
    fn get_tx_by_reference(&self, account: &FullAccount, reference: &String) -> (r: Result<
        Option<Transaction>,
        Error,
    >)
        requires
            self.valid(),
        ensures
            r matches Ok(o) && (o is Some <==> self.model().reference_bound(*account, reference@)),
            r matches Ok(Some(t)) ==> self.model().found_by_reference(*account, reference@, t@),
    ;

    /// The sub-account at position `offset` in the ascending list of every sub-account
    /// that received an output; `None` past its end.
    fn account_at(&self, offset: usize) -> (r: Option<FullAccount>)
        requires
            self.valid(),
        ensures
            offset < account_listing(self.model().accounts).len() ==> r == Some(
                account_listing(self.model().accounts)[offset as int],
            ),
            offset >= account_listing(self.model().accounts).len() ==> r is None,
    ;

    /// Validates and commits a transaction, atomically.
    fn store_tx(&mut self, tx: Transaction) -> (r: Result<(), Error>)
        requires
            old(self).valid(),
        ensures
            final(self).valid(),
            match r {
                Ok(_) => {
                    &&& old(self).model().store_error(tx@) is None
                    &&& exists|h: HashId|
                        h@ == tx_hash(tx@) && final(self).model() == old(self).model().commit(tx@, h)
                },
                Err(e) => {
                    &&& old(self).model().store_error(tx@) == Some(e)
                    &&& final(self).model() == old(self).model()
                },
            },
    ;
}

} // verus!
