//! A UTXO-based ledger for client accounts: deposits, withdrawals, and the dispute,
//! resolve and chargeback protocol, over a storage layer that commits transactions
//! atomically and lets each output be spent once.
use vstd::prelude::*;

mod account;
mod amount;
mod memory;
pub mod storage;
pub mod transaction;

pub use account::{AccountId, FullAccount, Type as AccountType};
pub use amount::Amount;
pub use memory::Memory;

use amount::fits_i128;
use storage::{
    account_listing, binds, balance_of, lemma_listing_ids_ascending, sorted_by_rank, covering, distinct_inputs, inputs_unspent_in, lemma_commit_balance,
    lemma_covering_fits, lemma_inputs_pass, lemma_unspent_sound, paid_to, sums_fit, unspent_of,
    Storage, StoreModel,
};
use transaction::{sum_inputs, tx_hash, HashId, Transaction, TxView, Utxo};

verus! {

/// A caller-supplied identifier of a transaction, unique within a sub-account.
pub type Reference = String;

/// Errors of ledger operations.
#[derive(Debug, Clone, Copy, PartialEq, Eq)]
pub enum Error {
    /// A transaction could not be built.
    Tx(transaction::Error),
    /// The reference is unknown.
    NotFound,
    /// Only deposits can be disputed.
    WrongType,
    /// The storage layer refused.
    Storage(storage::Error),
    /// Not enough funds.
    NotEnough,
    /// Arithmetic overflow.
    Math,
    /// A broken internal invariant.
    Internal,
}

/// The balances of a client: available, disputed, charged back, and the total of the
/// first two.
#[derive(Debug, Clone, Copy)]
pub struct Balances {
    pub available: Amount,
    pub disputed: Amount,
    pub chargeback: Amount,
    pub total: Amount,
}

/// The sub-account `t` of client `c`.
pub open spec fn sub_account(c: AccountId, t: AccountType) -> FullAccount {
    FullAccount((c, t))
}

/// The value a client holds over all its sub-accounts.
pub open spec fn client_value(m: StoreModel, c: AccountId) -> int {
    balance_of(m.utxos, sub_account(c, AccountType::Main)) + balance_of(m.utxos, sub_account(c, AccountType::Disputed))
        + balance_of(m.utxos, sub_account(c, AccountType::Chargeback))
}

/// The sum of the amounts recorded for client `c`.
pub open spec fn total_for(s: Seq<(AccountId, int)>, c: AccountId) -> int
    decreases s.len(),
{
    if s.len() == 0 {
        0
    } else {
        total_for(s.drop_last(), c) + if s.last().0 == c {
            s.last().1
        } else {
            0
        }
    }
}

/// Each balance of `after` is that of `before`, with `x` added to account `a0`.
pub open spec fn credited(before: StoreModel, after: StoreModel, a0: FullAccount, x: int) -> bool {
    forall|a: FullAccount|
        #[trigger] balance_of(after.utxos, a) == balance_of(before.utxos, a) + if a == a0 {
            x
        } else {
            0
        }
}

/// Each balance of `after` is that of `before`, with `x` moved from `from` to `to`.
pub open spec fn moved(before: StoreModel, after: StoreModel, from: FullAccount, to: FullAccount, x: int) -> bool {
    forall|a: FullAccount|
        #[trigger] balance_of(after.utxos, a) == balance_of(before.utxos, a) - (if a == from {
            x
        } else {
            0
        }) + (if a == to {
            x
        } else {
            0
        })
}

/// Every balance is unchanged.
pub open spec fn same_balances(before: StoreModel, after: StoreModel) -> bool {
    forall|a: FullAccount| #[trigger] balance_of(after.utxos, a) == balance_of(before.utxos, a)
}

/// The deposit transaction of `amount` to client `c` under `reference`.
pub open spec fn deposit_view(c: AccountId, reference: Seq<char>, amount: Amount, ts: u64) -> TxView {
    TxView {
        inputs: Seq::empty(),
        outputs: seq![(sub_account(c, AccountType::Main), amount)],
        reference,
        timestamp: ts,
    }
}

/// A withdrawal: the inputs are spent and nothing is paid out.
pub open spec fn withdrawal_view(inputs: Seq<Utxo>, reference: Seq<char>, ts: u64) -> TxView {
    TxView { inputs, outputs: Seq::empty(), reference, timestamp: ts }
}

/// The exchange that splits the selected main outputs of client `c` into `amount` and
/// the change, both paid back to main.
pub open spec fn exchange_view(c: AccountId, inputs: Seq<Utxo>, amount: Amount, reference: Seq<char>, ts: u64) -> TxView {
    TxView {
        inputs,
        outputs: seq![
            (sub_account(c, AccountType::Main), amount),
            (sub_account(c, AccountType::Main), Amount((sum_inputs(inputs) - amount.0) as i128)),
        ],
        reference: "Exchange for "@ + reference,
        timestamp: ts,
    }
}

/// The first output of the exchange `hx`, holding `amount`.
pub open spec fn exchange_output(hx: HashId, amount: Amount) -> Seq<Utxo> {
    seq![Utxo { id: transaction::UtxoId { id: hx, pos: 0 }, amount }]
}

/// The outputs of a transaction that moves `amount` to `to` out of inputs worth
/// `avail`, with the change, if any, paid back to `back`.
pub open spec fn move_outputs(to: FullAccount, amount: Amount, back: FullAccount, avail: int) -> Seq<
    (FullAccount, Amount),
> {
    if avail == amount.0 {
        seq![(to, amount)]
    } else {
        seq![(to, amount), (back, Amount((avail - amount.0) as i128))]
    }
}

/// The transaction that moves `amount` to `to` out of `inputs`, with change to `back`.
pub open spec fn move_view(
    inputs: Seq<Utxo>,
    to: FullAccount,
    amount: Amount,
    back: FullAccount,
    reference: Seq<char>,
    ts: u64,
) -> TxView {
    TxView { inputs, outputs: move_outputs(to, amount, back, sum_inputs(inputs)), reference, timestamp: ts }
}

/// The dispute of a deposit of `d` by client `c`: `d` moves from main to disputed out
/// of the selected main outputs `sel`, with the change back to main.
pub open spec fn dispute_view(c: AccountId, sel: Seq<Utxo>, d: Amount, reference: Seq<char>, ts: u64) -> TxView {
    move_view(
        sel,
        sub_account(c, AccountType::Disputed),
        d,
        sub_account(c, AccountType::Main),
        "dispute:"@ + reference,
        ts,
    )
}

/// The store `after` is `before` with the withdrawal of `amount` by client `c` out of
/// the selected outputs `sel` committed, under hash `h`: the withdrawal alone when `sel`
/// holds exactly the amount, else the exchange first and then the withdrawal of its
/// first output.
pub open spec fn withdrawn_store(
    before: StoreModel,
    after: StoreModel,
    c: AccountId,
    sel: Seq<Utxo>,
    amount: Amount,
    reference: Seq<char>,
    h: HashId,
) -> bool {
    if sum_inputs(sel) == amount.0 {
        exists|ts: u64, h2: HashId|
            h2@ == h@ && h@ == tx_hash(withdrawal_view(sel, reference, ts)) && after == before.commit(
                withdrawal_view(sel, reference, ts),
                h2,
            )
    } else {
        exists|ts1: u64, hx: HashId, hxc: HashId, ts2: u64, h2: HashId|
            hx@ == tx_hash(exchange_view(c, sel, amount, reference, ts1)) && hxc@ == hx@ && h2@ == h@
                && h@ == tx_hash(withdrawal_view(exchange_output(hx, amount), reference, ts2)) && after
                == before.commit(exchange_view(c, sel, amount, reference, ts1), hxc).commit(
                withdrawal_view(exchange_output(hx, amount), reference, ts2),
                h2,
            )
    }
}

/// Why storing a withdrawal of `amount` by client `c` out of `sel` can meet a
/// duplicate: a known hash of the withdrawal, or of the exchange or a taken exchange
/// reference when change is needed.
pub open spec fn withdraw_duplicate(
    before: StoreModel,
    c: AccountId,
    sel: Seq<Utxo>,
    amount: Amount,
    reference: Seq<char>,
) -> bool {
    if sum_inputs(sel) == amount.0 {
        exists|ts: u64| before.has_tx(tx_hash(withdrawal_view(sel, reference, ts)))
    } else {
        ||| before.reference_bound(sub_account(c, AccountType::Main), "Exchange for "@ + reference)
        ||| exists|ts: u64| before.has_tx(tx_hash(exchange_view(c, sel, amount, reference, ts)))
        ||| exists|ts1: u64, hx: HashId, hxc: HashId, ts2: u64|
            hx@ == tx_hash(exchange_view(c, sel, amount, reference, ts1)) && hxc@ == hx@ && before.commit(
                exchange_view(c, sel, amount, reference, ts1),
                hxc,
            ).has_tx(tx_hash(withdrawal_view(exchange_output(hx, amount), reference, ts2)))
    }
}

/// The ledger as a value: its store, the store it started from, and the deposits and
/// withdrawals it performed, per client.
pub struct LedgerView {
    pub store: StoreModel,
    pub initial: StoreModel,
    pub deposits: Seq<(AccountId, int)>,
    pub withdrawals: Seq<(AccountId, int)>,
}

/// Conservation of value: what each client holds over its sub-accounts is what it held
/// at the start, plus its deposits, minus its withdrawals.
pub open spec fn conserves(v: LedgerView) -> bool {
    forall|c: AccountId|
        #[trigger] client_value(v.store, c) == client_value(v.initial, c) + total_for(v.deposits, c)
            - total_for(v.withdrawals, c)
}

/// The ledger: turns deposits, withdrawals, disputes, resolutions and chargebacks into
/// transactions on a storage backend.
pub struct Ledger<S: Storage> {
    storage: S,
    initial: Ghost<StoreModel>,
    deposits: Ghost<Seq<(AccountId, int)>>,
    withdrawals: Ghost<Seq<(AccountId, int)>>,
}

impl<S: Storage> View for Ledger<S> {
    type V = LedgerView;

    closed spec fn view(&self) -> LedgerView {
        LedgerView {
            store: self.storage.model(),
            initial: self.initial@,
            deposits: self.deposits@,
            withdrawals: self.withdrawals@,
        }
    }
}

/// Conservation of value holds in every state a ledger reaches: for each client, the sum
/// of its unspent outputs over its main, disputed and chargeback sub-accounts equals what
/// it held at the start plus its deposits minus its withdrawals.
pub proof fn lemma_value_conserved<S: Storage>(l: &Ledger<S>, c: AccountId)
    requires
        l.wf(),
    ensures
        client_value(l@.store, c) == client_value(l@.initial, c) + total_for(l@.deposits, c)
            - total_for(l@.withdrawals, c),
{
}

/// The sum of a list of outputs, or `None` when a running sum leaves the 128-bit range.
fn sum_checked(v: &Vec<Utxo>) -> (r: Option<i128>)
    ensures
        r matches Some(x) ==> x == sum_inputs(v@),
        r is None <==> !sums_fit(v@),
{
    let mut total: i128 = 0;
    let mut i: usize = 0;
    proof {
        assert(v@.take(0) =~= Seq::<Utxo>::empty());
    }
    while i < v.len()
        invariant
            0 <= i <= v@.len(),
            total == sum_inputs(v@.take(i as int)),
            forall|j: int| 0 <= j <= i ==> fits_i128(#[trigger] sum_inputs(v@.take(j))),
        decreases v@.len() - i,
    {
        proof {
            assert(v@.take(i + 1).drop_last() =~= v@.take(i as int));
        }
        match total.checked_add(v[i].amount.0) {
            None => {
                assert(!fits_i128(sum_inputs(v@.take(i + 1))));
                return None;
            },
            Some(t) => {
                total = t;
            },
        }
        i = i + 1;
    }
    assert(v@.take(v@.len() as int) =~= v@);
    Some(total)
}

impl<S: Storage> Ledger<S> {
    /// Well-formedness: a valid store, and conservation of value.
    pub closed spec fn wf(&self) -> bool {
        &&& self.storage.valid()
        &&& self.storage.model().consistent()
        &&& conserves(self@)
    }

    /// A ledger over the given storage backend.
    pub fn new(storage: S) -> (r: Self)
        requires
            storage.valid(),
        ensures
            r.wf(),
            r@.store == storage.model(),
            r@.initial == storage.model(),
            r@.deposits == Seq::<(AccountId, int)>::empty(),
            r@.withdrawals == Seq::<(AccountId, int)>::empty(),
    {
        proof {
            storage.lemma_valid_consistent();
        }
        Ledger {
            storage,
            initial: Ghost(storage.model()),
            deposits: Ghost(Seq::empty()),
            withdrawals: Ghost(Seq::empty()),
        }
    }

    /// The storage backend.
    pub fn storage(&self) -> (r: &S)
        ensures
            r.model() == self@.store,
    {
        &self.storage
    }

    /// Hashes and stores a transaction whose inputs are distinct unspent outputs of
    /// `src`.
    fn commit(&mut self, tx: Transaction, Ghost(src): Ghost<FullAccount>) -> (r: Result<HashId, Error>)
        requires
            old(self).storage.valid(),
            distinct_inputs(tx@.inputs),
            inputs_unspent_in(old(self)@.store.utxos, tx@.inputs, src),
        ensures
            final(self).storage.valid(),
            final(self)@.store.consistent(),
            final(self)@.initial == old(self)@.initial,
            final(self)@.deposits == old(self)@.deposits,
            final(self)@.withdrawals == old(self)@.withdrawals,
            match r {
                Ok(h) => {
                    &&& h@ == tx_hash(tx@)
                    &&& old(self)@.store.store_error(tx@) is None
                    &&& final(self)@.store.txs.len() == old(self)@.store.txs.len() + 1
                    &&& final(self)@.store.txs.last().tx == tx@
                    &&& final(self)@.store.txs.last().id@ == h@
                    &&& final(self)@.store.txs.drop_last() == old(self)@.store.txs
                    &&& exists|h2: HashId| h2@ == h@ && final(self)@.store == old(self)@.store.commit(tx@, h2)
                    &&& forall|a: FullAccount|
                        #[trigger] balance_of(final(self)@.store.utxos, a) == balance_of(
                            old(self)@.store.utxos,
                            a,
                        ) - (if a == src {
                            sum_inputs(tx@.inputs)
                        } else {
                            0
                        }) + paid_to(tx@.outputs, a)
                },
                Err(e) => {
                    &&& old(self)@.store.store_error(tx@) matches Some(se) && e == Error::Storage(se)
                    &&& e == Error::Storage(storage::Error::Duplicate) ==> old(self)@.store.has_tx(tx_hash(tx@))
                        || exists|k: int|
                        0 <= k < tx@.outputs.len() && #[trigger] old(self)@.store.reference_bound(
                            tx@.outputs[k].0,
                            tx@.reference,
                        )
                    &&& final(self)@ == old(self)@
                },
            },
    {
        proof {
            lemma_inputs_pass(old(self)@.store, tx@.inputs, src, 0);
        }
        let h = tx.id();
        let ghost t = tx@;
        proof {
            self.storage.lemma_valid_consistent();
        }
        match self.storage.store_tx(tx) {
            Ok(()) => {
                proof {
                    self.storage.lemma_valid_consistent();
                    let old_store = old(self)@.store;
                    let h2 = choose|h2: HashId| h2@ == tx_hash(t) && self@.store == old_store.commit(t, h2);
                    assert(self@.store.txs.drop_last() =~= old_store.txs);
                    assert forall|a: FullAccount|
                        #[trigger] balance_of(self@.store.utxos, a) == balance_of(old_store.utxos, a) - (if a == src {
                            sum_inputs(t.inputs)
                        } else {
                            0
                        }) + paid_to(t.outputs, a) by {
                        lemma_commit_balance(old_store, t, h2, src, a);
                    }
                }
                Ok(h)
            },
            Err(e) => Err(Error::Storage(e)),
        }
    }
}

impl<S: Storage> Ledger<S> {
    /// Deposits `amount` into the client's main sub-account, as a transaction with no
    /// inputs and one output. Returns the transaction's hash.
    pub fn deposit(&mut self, account: AccountId, reference: Reference, amount: Amount) -> (r: Result<
        HashId,
        Error,
    >)
        requires
            old(self).wf(),
        ensures
            final(self).wf(),
            final(self)@.initial == old(self)@.initial,
            final(self)@.withdrawals == old(self)@.withdrawals,
            old(self)@.store.reference_bound(sub_account(account, AccountType::Main), reference@) ==> r
                == Err::<HashId, Error>(Error::Storage(storage::Error::Duplicate)),
            match r {
                Ok(h) => {
                    &&& final(self)@.deposits == old(self)@.deposits.push((account, amount.0 as int))
                    &&& credited(
                        old(self)@.store,
                        final(self)@.store,
                        sub_account(account, AccountType::Main),
                        amount.0 as int,
                    )
                    &&& final(self)@.store.txs.drop_last() == old(self)@.store.txs
                    &&& final(self)@.store.txs.len() == old(self)@.store.txs.len() + 1
                    &&& exists|ts: u64|
                        final(self)@.store.txs.last().tx == deposit_view(account, reference@, amount, ts)
                    &&& exists|ts: u64, h2: HashId|
                        h2@ == h@ && h@ == tx_hash(deposit_view(account, reference@, amount, ts))
                            && final(self)@.store == old(self)@.store.commit(
                            deposit_view(account, reference@, amount, ts),
                            h2,
                        )
                    &&& final(self)@.store.txs.last().id@ == h@
                },
                Err(e) => {
                    &&& e == Error::Storage(storage::Error::Duplicate)
                    &&& final(self)@ == old(self)@
                    &&& (old(self)@.store.reference_bound(sub_account(account, AccountType::Main), reference@)
                        || exists|ts: u64|
                        old(self)@.store.has_tx(tx_hash(deposit_view(account, reference@, amount, ts))))
                },
            },
    {
        let ghost main = sub_account(account, AccountType::Main);
        let ghost reference_view = reference@;
        let outputs = vec![(FullAccount((account, AccountType::Main)), amount)];
        assert(outputs@ =~= seq![(main, amount)]);
        let inputs: Vec<Utxo> = Vec::new();
        let tx = match Transaction::new(inputs, outputs, reference, None) {
            Ok(t) => t,
            Err(e) => {
                return Err(Error::Tx(e));
            },
        };
        let ghost t = tx@;
        proof {
            assert(t.inputs =~= Seq::<Utxo>::empty());
            assert(t.outputs =~= seq![(main, amount)]);
            assert(t == deposit_view(account, reference_view, amount, t.timestamp));
            assert(self@.store.input_error_from(t.inputs, 0) is None);
        }
        let r = self.commit(tx, Ghost(main));
        proof {
            let before = old(self)@;
            if r is Ok {
                let h = r.unwrap();
                let h2 = choose|h2: HashId| h2@ == h@ && self@.store == before.store.commit(t, h2);
                assert(sum_inputs(t.inputs) == 0);
                assert(t.outputs.drop_last() =~= Seq::<(FullAccount, Amount)>::empty());
                assert(paid_to(t.outputs.drop_last(), main) == 0);
                assert(paid_to(t.outputs, main) == amount.0);
                assert forall|a: FullAccount| a != main implies paid_to(t.outputs, a) == 0 by {
                    assert(paid_to(t.outputs.drop_last(), a) == 0);
                }
                let dep = before.deposits.push((account, amount.0 as int));
                assert(dep.drop_last() =~= before.deposits);
                assert forall|c: AccountId|
                    #[trigger] client_value(self@.store, c) == client_value(before.initial, c) + total_for(dep, c)
                        - total_for(before.withdrawals, c) by {
                    assert(client_value(before.store, c) == client_value(before.initial, c) + total_for(before.deposits, c)
                        - total_for(before.withdrawals, c));
                }
            } else {
                if !before.store.reference_bound(main, reference_view) {
                    assert(before.store.has_tx(tx_hash(deposit_view(account, reference_view, amount, t.timestamp))));
                }
            }
        }
        match r {
            Ok(h) => {
                self.deposits = Ghost(self.deposits@.push((account, amount.0 as int)));
                Ok(h)
            },
            Err(e) => Err(e),
        }
    }

    /// The balances of a client: the sums of the unspent outputs of its main, disputed
    /// and chargeback sub-accounts, and the total of the first two.
    pub fn get_balances(&self, account: AccountId) -> (r: Result<Balances, Error>)
        requires
            self.wf(),
        ensures
            ({
                let s = self@.store.utxos;
                let m = unspent_of(s, sub_account(account, AccountType::Main));
                let d = unspent_of(s, sub_account(account, AccountType::Disputed));
                let c = unspent_of(s, sub_account(account, AccountType::Chargeback));
                &&& r is Ok <==> (sums_fit(m) && sums_fit(d) && sums_fit(c) && fits_i128(
                    sum_inputs(m) + sum_inputs(d),
                ))
                &&& r is Err ==> r == Err::<Balances, Error>(Error::Math)
                &&& r matches Ok(b) ==> {
                    &&& b.available.0 == balance_of(s, sub_account(account, AccountType::Main))
                    &&& b.disputed.0 == balance_of(s, sub_account(account, AccountType::Disputed))
                    &&& b.chargeback.0 == balance_of(s, sub_account(account, AccountType::Chargeback))
                    &&& b.total.0 == b.available.0 + b.disputed.0
                }
            }),
    {
        let main = self.unspent_sum(FullAccount((account, AccountType::Main)));
        let disputed = self.unspent_sum(FullAccount((account, AccountType::Disputed)));
        let chargeback = self.unspent_sum(FullAccount((account, AccountType::Chargeback)));
        match (main, disputed, chargeback) {
            (Some(m), Some(d), Some(c)) => match m.checked_add(d) {
                Some(t) => Ok(Balances { available: Amount(m), disputed: Amount(d), chargeback: Amount(c), total: Amount(t) }),
                None => Err(Error::Math),
            },
            _ => Err(Error::Math),
        }
    }

    /// The balance of a sub-account, or `None` on overflow.
    fn unspent_sum(&self, a: FullAccount) -> (r: Option<i128>)
        requires
            self.storage.valid(),
        ensures
            r is None <==> !sums_fit(unspent_of(self@.store.utxos, a)),
            r matches Some(x) ==> x == balance_of(self@.store.utxos, a),
    {
        match self.storage.get_unspent(&a, None) {
            Ok(v) => sum_checked(&v),
            Err(_) => None,
        }
    }

    /// The distinct client ids that own a sub-account, pulled one at a time in
    /// ascending order.
    pub fn get_accounts<'a>(&'a self) -> (r: AccountIterator<'a, S>)
        requires
            self.wf(),
        ensures
            r.wf(),
            r.listing() == account_listing(self@.store.accounts),
            r.position() == 0,
            r.latest() is None,
            r.yielded() == Seq::<AccountId>::empty(),
    {
        proof {
            self.storage.lemma_valid_consistent();
        }
        proof {
            assert(account_listing(self@.store.accounts).take(0) =~= Seq::<FullAccount>::empty());
        }
        AccountIterator { storage: &self.storage, offset: 0, latest: None, yielded: Ghost(Seq::empty()) }
    }
}

/// Walks the storage's ascending list of sub-accounts and yields each client id once:
/// the sub-accounts of a client are adjacent, so one id of lookahead suffices.
pub struct AccountIterator<'a, S: Storage> {
    storage: &'a S,
    offset: usize,
    latest: Option<AccountId>,
    yielded: Ghost<Seq<AccountId>>,
}

/// The client ids of a listing of sub-accounts, each run of equal ids taken once.
pub open spec fn client_ids(l: Seq<FullAccount>) -> Seq<AccountId>
    decreases l.len(),
{
    if l.len() == 0 {
        Seq::empty()
    } else if l.len() > 1 && l[l.len() - 2].0.0 == l.last().0.0 {
        client_ids(l.drop_last())
    } else {
        client_ids(l.drop_last()).push(l.last().0.0)
    }
}

/// Over an ascending listing of sub-accounts, the client ids come out strictly
/// ascending, hence distinct, and every client id of the listing comes out.
pub proof fn lemma_client_ids(l: Seq<FullAccount>)
    requires
        sorted_by_rank(l),
    ensures
        forall|i: int, j: int| 0 <= i < j < client_ids(l).len() ==> client_ids(l)[i] < client_ids(l)[j],
        forall|id: AccountId| client_ids(l).contains(id) <==> exists|k: int| 0 <= k < l.len() && #[trigger] l[k].0.0 == id,
        l.len() > 0 ==> client_ids(l).len() > 0 && client_ids(l).last() == l.last().0.0,
    decreases l.len(),
{
    if l.len() > 0 {
        let l1 = l.drop_last();
        let p = client_ids(l1);
        let n = l.len() as int;
        assert forall|i: int, j: int| 0 <= i < j < l1.len() implies (#[trigger] l1[i]).rank() < (#[trigger] l1[j]).rank() by {
            assert(l1[i] == l[i] && l1[j] == l[j]);
        }
        lemma_client_ids(l1);
        if n > 1 {
            lemma_listing_ids_ascending(l, n - 2, n - 1);
        }
        if n > 1 && l[n - 2].0.0 == l.last().0.0 {
            assert forall|id: AccountId| client_ids(l).contains(id) <==> exists|k: int| 0 <= k < l.len() && #[trigger] l[k].0.0 == id by {
                if exists|k: int| 0 <= k < l.len() && #[trigger] l[k].0.0 == id {
                    let k = choose|k: int| 0 <= k < l.len() && #[trigger] l[k].0.0 == id;
                    if k == n - 1 {
                        assert(l1[n - 2].0.0 == id);
                    } else {
                        assert(l1[k].0.0 == id);
                    }
                }
                if p.contains(id) {
                    let k = choose|k: int| 0 <= k < l1.len() && #[trigger] l1[k].0.0 == id;
                    assert(l[k].0.0 == id);
                }
            }
        } else {
            let q = client_ids(l);
            assert(q == p.push(l.last().0.0));
            assert forall|i: int, j: int| 0 <= i < j < q.len() implies q[i] < q[j] by {
                if j == q.len() - 1 && n > 1 {
                    assert(q[i] == p[i]);
                    if i < p.len() - 1 {
                        assert(p[i] < p[p.len() - 1]);
                    }
                } else if j < q.len() - 1 {
                    assert(q[i] == p[i] && q[j] == p[j]);
                }
            }
            assert forall|id: AccountId| q.contains(id) <==> exists|k: int| 0 <= k < l.len() && #[trigger] l[k].0.0 == id by {
                if exists|k: int| 0 <= k < l.len() && #[trigger] l[k].0.0 == id {
                    let k = choose|k: int| 0 <= k < l.len() && #[trigger] l[k].0.0 == id;
                    if k == n - 1 {
                        assert(q[q.len() - 1] == id);
                    } else {
                        assert(l1[k].0.0 == id);
                        assert(p.contains(id));
                        let m = choose|m: int| 0 <= m < p.len() && p[m] == id;
                        assert(q[m] == id);
                    }
                }
                if q.contains(id) {
                    let m = choose|m: int| 0 <= m < q.len() && q[m] == id;
                    if m == q.len() - 1 {
                        assert(l[n - 1].0.0 == id);
                    } else {
                        assert(p[m] == id);
                        assert(p.contains(id));
                        let k = choose|k: int| 0 <= k < l1.len() && #[trigger] l1[k].0.0 == id;
                        assert(l[k].0.0 == id);
                    }
                }
            }
        }
    }
}

/// One more sub-account read: its client id is added unless it repeats the previous one.
proof fn lemma_client_ids_step(l: Seq<FullAccount>, k: int)
    requires
        0 <= k < l.len(),
    ensures
        client_ids(l.take(k + 1)) == if k > 0 && l[k - 1].0.0 == l[k].0.0 {
            client_ids(l.take(k))
        } else {
            client_ids(l.take(k)).push(l[k].0.0)
        },
{
    assert(l.take(k + 1).drop_last() =~= l.take(k));
    assert(l.take(k + 1).last() == l[k]);
    if k > 0 {
        assert(l.take(k + 1)[k - 1] == l[k - 1]);
    }
}

/// What a full run of an account iterator yields: client ids in strictly ascending
/// order, and every client id that owns a sub-account once the listing is exhausted.
pub proof fn lemma_accounts_run<'a, S: Storage>(it: &AccountIterator<'a, S>)
    requires
        it.wf(),
    ensures
        forall|i: int, j: int| 0 <= i < j < it.yielded().len() ==> it.yielded()[i] < it.yielded()[j],
        it.position() == it.listing().len() ==> forall|id: AccountId|
            it.yielded().contains(id) <==> exists|k: int|
                0 <= k < it.listing().len() && #[trigger] it.listing()[k].0.0 == id,
{
    let l = it.listing();
    let t = l.take(it.position());
    assert forall|i: int, j: int| 0 <= i < j < t.len() implies (#[trigger] t[i]).rank() < (#[trigger] t[j]).rank() by {
        assert(t[i] == l[i] && t[j] == l[j]);
    }
    lemma_client_ids(t);
    if it.position() == l.len() {
        assert(t =~= l);
    }
}

impl<'a, S: Storage> AccountIterator<'a, S> {
    /// The ascending list of sub-accounts being walked.
    pub closed spec fn listing(&self) -> Seq<FullAccount> {
        account_listing(self.storage.model().accounts)
    }

    /// How many sub-accounts have been read.
    pub closed spec fn position(&self) -> int {
        self.offset as int
    }

    /// The client id yielded last.
    pub closed spec fn latest(&self) -> Option<AccountId> {
        self.latest
    }

    /// The client ids yielded so far.
    pub closed spec fn yielded(&self) -> Seq<AccountId> {
        self.yielded@
    }

    /// Well-formedness: the position lies within the listing, and the last id yielded is
    /// that of the last sub-account read.
    pub closed spec fn wf(&self) -> bool {
        &&& self.storage.valid()
        &&& sorted_by_rank(self.listing())
        &&& self.listing().len() <= usize::MAX
        &&& self.offset <= self.listing().len()
        &&& self.yielded@ == client_ids(self.listing().take(self.offset as int))
        &&& self.latest == if self.offset == 0 {
            None::<AccountId>
        } else {
            Some(self.listing()[self.offset - 1].0.0)
        }
    }

    /// The next client id, greater than every id yielded before; `None` once every
    /// sub-account has been read.
    pub fn next(&mut self) -> (r: Option<AccountId>)
        requires
            old(self).wf(),
        ensures
            final(self).wf(),
            final(self).listing() == old(self).listing(),
            match r {
                Some(id) => {
                    &&& old(self).latest() matches Some(l) ==> l < id
                    &&& final(self).yielded() == old(self).yielded().push(id)
                    &&& final(self).latest() == Some(id)
                    &&& old(self).position() < final(self).position()
                    &&& old(self).listing()[final(self).position() - 1].0.0 == id
                    &&& forall|k: int|
                        old(self).position() <= k < final(self).position() - 1 ==> Some(
                            #[trigger] old(self).listing()[k].0.0,
                        ) == old(self).latest()
                },
                None => {
                    &&& final(self).yielded() == old(self).yielded()
                    &&& final(self).yielded() == client_ids(old(self).listing())
                    &&& final(self).position() == old(self).listing().len()
                    &&& forall|k: int|
                        old(self).position() <= k < old(self).listing().len() ==> Some(
                            #[trigger] old(self).listing()[k].0.0,
                        ) == old(self).latest()
                },
            },
    {
        let ghost l = self.listing();
        let ghost start = self.offset as int;
        loop
            invariant
                self.storage == old(self).storage,
                l == self.listing(),
                self.storage.valid(),
                sorted_by_rank(l),
                l.len() <= usize::MAX,
                start == old(self).offset,
                start <= self.offset <= l.len(),
                self.latest == old(self).latest,
                self.yielded == old(self).yielded,
                self.yielded@ == client_ids(l.take(self.offset as int)),
                old(self).latest == if start == 0 {
                    None::<AccountId>
                } else {
                    Some(l[start - 1].0.0)
                },
                forall|k: int| start <= k < self.offset ==> Some(#[trigger] l[k].0.0) == self.latest,
            decreases l.len() - self.offset,
        {
            match self.storage.account_at(self.offset) {
                None => {
                    proof {
                        if l.len() > 0 && start == 0 {
                            assert(Some(l[0].0.0) == self.latest);
                        }
                        assert(l.take(l.len() as int) =~= l);
                    }
                    return None;
                },
                Some(a) => {
                    let id = a.id();
                    let ghost k = self.offset as int;
                    proof {
                        lemma_client_ids_step(l, k);
                        if k > start {
                            assert(Some(l[k - 1].0.0) == self.latest);
                        }
                    }
                    self.offset = self.offset + 1;
                    let fresh = match self.latest {
                        Some(x) => x != id,
                        None => true,
                    };
                    if fresh {
                        proof {
                            if start > 0 {
                                lemma_listing_ids_ascending(l, start - 1, self.offset - 1);
                            }
                        }
                        self.latest = Some(id);
                        self.yielded = Ghost(self.yielded@.push(id));
                        return Some(id);
                    }
                }
            }
        }
    }
}


/// The text `prefix` followed by `reference`.
fn prefixed(prefix: &str, reference: &String) -> (r: String)
    ensures
        r@ == prefix@ + reference@,
{
    let mut s = String::from_str(prefix);
    s.append(reference.as_str());
    s
}

/// The balance moved by outputs that pay `x` and `y` to the same account.
proof fn lemma_paid_pair(a0: FullAccount, x: Amount, y: Amount, a: FullAccount)
    ensures
        paid_to(seq![(a0, x), (a0, y)], a) == if a == a0 {
            x.0 + y.0
        } else {
            0
        },
        transaction::sum_outputs(seq![(a0, x), (a0, y)]) == x.0 + y.0,
{
    lemma_paid_two(a0, x, a0, y, a);
}

/// The balance moved by outputs that pay `x` to `p` and `y` to `q`.
proof fn lemma_paid_two(p: FullAccount, x: Amount, q: FullAccount, y: Amount, a: FullAccount)
    ensures
        paid_to(seq![(p, x), (q, y)], a) == (if a == p {
            x.0 as int
        } else {
            0
        }) + (if a == q {
            y.0 as int
        } else {
            0
        }),
        transaction::sum_outputs(seq![(p, x), (q, y)]) == x.0 + y.0,
{
    let s = seq![(p, x), (q, y)];
    assert(s.drop_last() =~= seq![(p, x)]);
    assert(s.last() == (q, y));
    lemma_paid_one(p, x, a);
}

/// The balance moved by a single output.
proof fn lemma_paid_one(p: FullAccount, x: Amount, a: FullAccount)
    ensures
        paid_to(seq![(p, x)], a) == if a == p {
            x.0 as int
        } else {
            0
        },
        transaction::sum_outputs(seq![(p, x)]) == x.0,
{
    let s = seq![(p, x)];
    assert(s.drop_last() =~= Seq::<(FullAccount, Amount)>::empty());
    assert(s.last() == (p, x));
    assert(paid_to(s.drop_last(), a) == 0);
    assert(transaction::sum_outputs(s.drop_last()) == 0);
}

/// A single output spent whole.
proof fn lemma_sum_one(u: Utxo)
    ensures
        sum_inputs(seq![u]) == u.amount.0,
{
    assert(seq![u].drop_last() =~= Seq::<Utxo>::empty());
    assert(seq![u].last() == u);
    assert(sum_inputs(seq![u].drop_last()) == 0);
}

impl<S: Storage> Ledger<S> {
    /// Withdraws `amount` from the client's main sub-account. The oldest unspent outputs
    /// are selected until they cover the amount; when they hold more, an exchange
    /// transaction first splits them into the amount and the change, and the withdrawal
    /// then spends the first output of the exchange. Returns the withdrawal's hash.
    pub fn withdraw(&mut self, account: AccountId, reference: Reference, amount: Amount) -> (r: Result<
        HashId,
        Error,
    >)
        requires
            old(self).wf(),
        ensures
            final(self).wf(),
            final(self)@.initial == old(self)@.initial,
            final(self)@.deposits == old(self)@.deposits,
            ({
                let q = covering(
                    unspent_of(old(self)@.store.utxos, sub_account(account, AccountType::Main)),
                    amount.0 as int,
                );
                &&& q is Err ==> r == Err::<HashId, Error>(Error::Storage(storage::Error::Math))
                &&& (q matches Ok(sel) && sum_inputs(sel) < amount.0) <==> r == Err::<HashId, Error>(
                    Error::NotEnough,
                )
                &&& (q matches Ok(sel) && sum_inputs(sel) >= amount.0 && amount.0 > 0 && r is Err) ==> r
                    == Err::<HashId, Error>(Error::Storage(storage::Error::Duplicate))
                &&& r == Err::<HashId, Error>(Error::Storage(storage::Error::Duplicate)) ==> (q matches Ok(sel)
                    && sum_inputs(sel) >= amount.0 && withdraw_duplicate(
                    old(self)@.store,
                    account,
                    sel,
                    amount,
                    reference@,
                ))
                &&& r matches Ok(h) ==> {
                    &&& q matches Ok(sel) && sum_inputs(sel) >= amount.0 && withdrawn_store(
                        old(self)@.store,
                        final(self)@.store,
                        account,
                        sel,
                        amount,
                        reference@,
                        h,
                    )
                    &&& final(self)@.withdrawals == old(self)@.withdrawals.push((account, amount.0 as int))
                    &&& credited(
                        old(self)@.store,
                        final(self)@.store,
                        sub_account(account, AccountType::Main),
                        -amount.0,
                    )
                    &&& final(self)@.store.txs.last().id@ == h@
                    &&& final(self)@.store.txs.last().tx.outputs.len() == 0
                    &&& final(self)@.store.txs.last().tx.reference == reference@
                    &&& sum_inputs(final(self)@.store.txs.last().tx.inputs) == amount.0
                }
                &&& r is Err ==> final(self)@.withdrawals == old(self)@.withdrawals && same_balances(
                    old(self)@.store,
                    final(self)@.store,
                )
            }),
    {
        let main = FullAccount((account, AccountType::Main));
        let ghost before = self@;
        let ghost all = unspent_of(before.store.utxos, main);
        let ghost reference_view = reference@;
        let inputs = match self.storage.get_unspent(&main, Some(amount)) {
            Ok(v) => v,
            Err(e) => {
                return Err(Error::Storage(e));
            },
        };
        proof {
            lemma_covering_fits(all, amount.0 as int);
            lemma_unspent_sound(before.store.utxos, main);
            assert(distinct_inputs(inputs@));
            assert forall|k: int| 0 <= k < inputs@.len() implies #[trigger] storage::input_ok(before.store.utxos, inputs@[k], main) by {
                assert(inputs@[k] == all[k]);
            }
            lemma_inputs_pass(before.store, inputs@, main, 0);
        }
        let total = match sum_checked(&inputs) {
            Some(t) => t,
            None => {
                return Err(Error::Math);
            },
        };
        if total < amount.0 {
            return Err(Error::NotEnough);
        }
        if total == amount.0 {
            let tx = match Transaction::new(inputs, Vec::new(), reference, None) {
                Ok(t) => t,
                Err(e) => {
                    return Err(Error::Tx(e));
                },
            };
            let ghost t = tx@;
            proof {
                assert(t.outputs =~= Seq::<(FullAccount, Amount)>::empty());
                assert(t == withdrawal_view(inputs@, reference_view, t.timestamp));
            }
            let r = self.commit(tx, Ghost(main));
            match r {
                Ok(h) => {
                    proof {
                        let h2 = choose|h2: HashId| h2@ == h@ && self@.store == before.store.commit(t, h2);
                        assert(withdrawn_store(before.store, self@.store, account, inputs@, amount, reference_view, h));
                        let w = before.withdrawals.push((account, amount.0 as int));
                        assert(w.drop_last() =~= before.withdrawals);
                        assert forall|a: FullAccount| #[trigger] paid_to(t.outputs, a) == 0 by {}
                        assert forall|c: AccountId|
                            #[trigger] client_value(self@.store, c) == client_value(before.initial, c) + total_for(before.deposits, c)
                                - total_for(w, c) by {
                            assert(client_value(before.store, c) == client_value(before.initial, c) + total_for(before.deposits, c)
                                - total_for(before.withdrawals, c));
                        }
                    }
                    self.withdrawals = Ghost(self.withdrawals@.push((account, amount.0 as int)));
                    Ok(h)
                },
                Err(e) => Err(e),
            }
        } else {
            let change = match total.checked_sub(amount.0) {
                Some(c) => c,
                None => {
                    return Err(Error::Math);
                },
            };
            let outputs = vec![(main, amount), (main, Amount(change))];
            assert(outputs@ =~= seq![(main, amount), (main, Amount(change))]);
            let exchange_reference = prefixed("Exchange for ", &reference);
            let exchange = match Transaction::new(inputs, outputs, exchange_reference, None) {
                Ok(t) => t,
                Err(e) => {
                    proof {
                        lemma_paid_pair(main, amount, Amount(change), main);
                    }
                    return Err(Error::Tx(e));
                },
            };
            let ghost x = exchange@;
            proof {
                assert(x == exchange_view(account, inputs@, amount, reference_view, x.timestamp));
            }
            let hx = match self.commit(exchange, Ghost(main)) {
                Ok(h) => h,
                Err(e) => {
                    proof {
                        if e == Error::Storage(storage::Error::Duplicate) && !before.store.has_tx(tx_hash(x)) {
                            let k = choose|k: int|
                                0 <= k < x.outputs.len() && #[trigger] before.store.reference_bound(x.outputs[k].0, x.reference);
                            assert(x.outputs[k].0 == main);
                        }
                    }
                    return Err(e);
                },
            };
            let ghost mid = self@;
            proof {
                assert forall|a: FullAccount| #[trigger] balance_of(mid.store.utxos, a) == balance_of(before.store.utxos, a) by {
                    lemma_paid_pair(main, amount, Amount(change), a);
                }
                let h2 = choose|h2: HashId| h2@ == hx@ && mid.store == before.store.commit(x, h2);
                let ls = storage::spend(before.store.utxos, x.inputs, h2).len() as int;
                let id0 = transaction::UtxoId { id: hx, pos: 0 };
                assert(mid.store.utxos[ls] == storage::new_records(h2, x.outputs)[0]);
                storage::lemma_lookup_unique(mid.store.utxos, id0, ls);
                assert(storage::input_ok(mid.store.utxos, Utxo { id: id0, amount }, main));
            }
            let winputs = vec![Utxo::new(transaction::UtxoId { id: hx, pos: 0 }, amount)];
            let ghost win = winputs@;
            assert(winputs@ =~= seq![Utxo { id: transaction::UtxoId { id: hx, pos: 0 }, amount }]);
            let withdrawal = match Transaction::new(winputs, Vec::new(), reference, None) {
                Ok(t) => t,
                Err(e) => {
                    return Err(Error::Tx(e));
                },
            };
            let ghost wt = withdrawal@;
            proof {
                assert(wt.outputs =~= Seq::<(FullAccount, Amount)>::empty());
                assert(wt.inputs =~= exchange_output(hx, amount));
                assert(wt == withdrawal_view(exchange_output(hx, amount), reference_view, wt.timestamp));
                lemma_sum_one(wt.inputs[0]);
                assert(storage::inputs_unspent_in(mid.store.utxos, wt.inputs, main));
                lemma_inputs_pass(mid.store, wt.inputs, main, 0);
            }
            match self.commit(withdrawal, Ghost(main)) {
                Ok(h) => {
                    proof {
                        let hxc = choose|h2: HashId| h2@ == hx@ && mid.store == before.store.commit(x, h2);
                        let h2 = choose|h2: HashId| h2@ == h@ && self@.store == mid.store.commit(wt, h2);
                        assert(withdrawn_store(before.store, self@.store, account, inputs@, amount, reference_view, h));
                        let w = before.withdrawals.push((account, amount.0 as int));
                        assert(w.drop_last() =~= before.withdrawals);
                        assert forall|a: FullAccount| #[trigger] paid_to(wt.outputs, a) == 0 by {}
                        assert forall|c: AccountId|
                            #[trigger] client_value(self@.store, c) == client_value(before.initial, c) + total_for(before.deposits, c)
                                - total_for(w, c) by {
                            assert(client_value(before.store, c) == client_value(before.initial, c) + total_for(before.deposits, c)
                                - total_for(before.withdrawals, c));
                        }
                    }
                    self.withdrawals = Ghost(self.withdrawals@.push((account, amount.0 as int)));
                    Ok(h)
                },
                Err(e) => {
                    proof {
                        let hxc = choose|h2: HashId| h2@ == hx@ && mid.store == before.store.commit(x, h2);
                        if e == Error::Storage(storage::Error::Duplicate) {
                            assert(mid.store.has_tx(tx_hash(wt)));
                            assert(withdraw_duplicate(before.store, account, inputs@, amount, reference_view));
                        }
                        assert forall|c: AccountId|
                            #[trigger] client_value(self@.store, c) == client_value(before.initial, c) + total_for(before.deposits, c)
                                - total_for(before.withdrawals, c) by {
                            assert(client_value(before.store, c) == client_value(before.initial, c) + total_for(before.deposits, c)
                                - total_for(before.withdrawals, c));
                        }
                    }
                    Err(e)
                },
            }
        }
    }
}

/// Whether the transaction is a deposit: no inputs and a single output.
pub open spec fn is_deposit(t: TxView) -> bool {
    t.inputs.len() == 0 && t.outputs.len() == 1
}

/// Two transactions found under the same `(sub-account, reference)` are the same.
pub proof fn lemma_found_unique(m: StoreModel, a: FullAccount, r: Seq<char>, t1: TxView, t2: TxView)
    requires
        m.consistent(),
        m.found_by_reference(a, r, t1),
        m.found_by_reference(a, r, t2),
    ensures
        t1 == t2,
{
    let i = choose|i: int| 0 <= i < m.txs.len() && binds(m.txs[i].tx, a, r) && #[trigger] m.txs[i].tx == t1;
    let j = choose|j: int| 0 <= j < m.txs.len() && binds(m.txs[j].tx, a, r) && #[trigger] m.txs[j].tx == t2;
    storage::lemma_reference_unique(m, i, j, a, r);
}

/// The sum of the outputs paid to `a`, or `None` when a running sum leaves the 128-bit
/// range.
fn paid_sum(outs: &[(FullAccount, Amount)], a: &FullAccount) -> (r: Option<i128>)
    ensures
        r matches Some(x) ==> x == paid_to(outs@, *a),
        r is Some ==> paid_sums_fit(outs@, *a),
        r is None ==> exists|j: int| 0 <= j <= outs@.len() && !fits_i128(#[trigger] paid_to(outs@.take(j), *a)),
{
    let mut total: i128 = 0;
    let mut i: usize = 0;
    proof {
        assert(outs@.take(0) =~= Seq::<(FullAccount, Amount)>::empty());
    }
    while i < outs.len()
        invariant
            0 <= i <= outs@.len(),
            total == paid_to(outs@.take(i as int), *a),
            forall|j: int| 0 <= j <= i ==> fits_i128(#[trigger] paid_to(outs@.take(j), *a)),
        decreases outs@.len() - i,
    {
        proof {
            assert(outs@.take(i + 1).drop_last() =~= outs@.take(i as int));
        }
        if outs[i].0.same(a) {
            match total.checked_add(outs[i].1.0) {
                None => {
                    assert(!fits_i128(paid_to(outs@.take(i + 1), *a)));
                    return None;
                },
                Some(t) => {
                    total = t;
                },
            }
        }
        i = i + 1;
    }
    assert(outs@.take(outs@.len() as int) =~= outs@);
    assert forall|j: int| 0 <= j <= outs@.len() implies fits_i128(#[trigger] paid_to(outs@.take(j), *a)) by {
        assert(outs@.take(outs@.len() as int).take(j) =~= outs@.take(j));
    }
    Some(total)
}

impl<S: Storage> Ledger<S> {
    /// Disputes a deposit: the deposited amount moves from the client's main sub-account
    /// to its disputed one, with change back to main when the selected outputs hold more.
    /// Only deposits can be disputed; when the main sub-account cannot cover the amount
    /// the dispute is refused with `NotEnough`.
    pub fn dispute(&mut self, account: AccountId, reference: Reference) -> (r: Result<(), Error>)
        requires
            old(self).wf(),
        ensures
            final(self).wf(),
            final(self)@.initial == old(self)@.initial,
            final(self)@.deposits == old(self)@.deposits,
            final(self)@.withdrawals == old(self)@.withdrawals,
            ({
                let main = sub_account(account, AccountType::Main);
                let disputed = sub_account(account, AccountType::Disputed);
                let before = old(self)@.store;
                &&& r == Err::<(), Error>(Error::NotFound) <==> !before.reference_bound(main, reference@)
                &&& r == Err::<(), Error>(Error::WrongType) <==> exists|t: TxView|
                    before.found_by_reference(main, reference@, t) && !is_deposit(t)
                &&& r == Err::<(), Error>(Error::NotEnough) <==> exists|t: TxView|
                    before.found_by_reference(main, reference@, t) && is_deposit(t) && (covering(
                        unspent_of(before.utxos, main),
                        t.outputs[0].1.0 as int,
                    ) matches Ok(sel) && sum_inputs(sel) < t.outputs[0].1.0)
                &&& r == Err::<(), Error>(Error::Storage(storage::Error::Duplicate)) ==> exists|t: TxView|
                    before.found_by_reference(main, reference@, t) && is_deposit(t) && (covering(
                        unspent_of(before.utxos, main),
                        t.outputs[0].1.0 as int,
                    ) matches Ok(sel) && sum_inputs(sel) >= t.outputs[0].1.0 && (before.reference_bound(
                        disputed,
                        "dispute:"@ + reference@,
                    ) || (sum_inputs(sel) > t.outputs[0].1.0 && before.reference_bound(
                        main,
                        "dispute:"@ + reference@,
                    )) || exists|ts: u64|
                        before.has_tx(tx_hash(dispute_view(account, sel, t.outputs[0].1, reference@, ts)))))
                &&& r is Ok ==> exists|t: TxView|
                    before.found_by_reference(main, reference@, t) && is_deposit(t) && (covering(
                        unspent_of(before.utxos, main),
                        t.outputs[0].1.0 as int,
                    ) matches Ok(sel) && sum_inputs(sel) >= t.outputs[0].1.0 && exists|ts: u64, h: HashId|
                        h@ == tx_hash(dispute_view(account, sel, t.outputs[0].1, reference@, ts))
                            && final(self)@.store == before.commit(
                            dispute_view(account, sel, t.outputs[0].1, reference@, ts),
                            h,
                        ))
                &&& r is Ok ==> exists|t: TxView|
                    before.found_by_reference(main, reference@, t) && is_deposit(t) && moved(
                        before,
                        final(self)@.store,
                        main,
                        disputed,
                        t.outputs[0].1.0 as int,
                    )
                &&& (exists|t: TxView|
                    before.found_by_reference(main, reference@, t) && is_deposit(t) && t.outputs[0].1.0 > 0
                        && (covering(unspent_of(before.utxos, main), t.outputs[0].1.0 as int) matches Ok(sel)
                        && sum_inputs(sel) >= t.outputs[0].1.0)) && r is Err ==> r == Err::<(), Error>(
                    Error::Storage(storage::Error::Duplicate),
                )
                &&& r is Err ==> final(self)@ == old(self)@
            }),
    {
        let main = FullAccount((account, AccountType::Main));
        let disputed = FullAccount((account, AccountType::Disputed));
        let ghost before = self@;
        proof {
            self.storage.lemma_valid_consistent();
        }
        let found = match self.storage.get_tx_by_reference(&main, &reference) {
            Ok(Some(t)) => t,
            Ok(None) => {
                return Err(Error::NotFound);
            },
            Err(e) => {
                return Err(Error::Storage(e));
            },
        };
        let ghost ft = found@;
        proof {
            assert forall|t: TxView| before.store.found_by_reference(main, reference@, t) implies t == ft by {
                lemma_found_unique(before.store, main, reference@, t, ft);
            }
        }
        assert(before.store.found_by_reference(main, reference@, ft));
        if found.inputs().len() != 0 || found.outputs().len() != 1 {
            assert(!is_deposit(ft));
            return Err(Error::WrongType);
        }
        assert(is_deposit(ft));
        let d = found.outputs()[0].1;
        let ghost all = unspent_of(before.store.utxos, main);
        let inputs = match self.storage.get_unspent(&main, Some(d)) {
            Ok(v) => v,
            Err(e) => {
                return Err(Error::Storage(e));
            },
        };
        proof {
            lemma_covering_fits(all, d.0 as int);
            lemma_unspent_sound(before.store.utxos, main);
            assert(distinct_inputs(inputs@));
            assert forall|k: int| 0 <= k < inputs@.len() implies #[trigger] storage::input_ok(before.store.utxos, inputs@[k], main) by {
                assert(inputs@[k] == all[k]);
            }
        }
        let avail = match sum_checked(&inputs) {
            Some(t) => t,
            None => {
                return Err(Error::Math);
            },
        };
        if avail < d.0 {
            assert(covering(all, d.0 as int) == Ok::<Seq<Utxo>, storage::Error>(inputs@));
            return Err(Error::NotEnough);
        }
        let disputed_reference = prefixed("dispute:", &reference);
        let outputs = if avail == d.0 {
            let o = vec![(disputed, d)];
            assert(o@ =~= seq![(disputed, d)]);
            o
        } else {
            let change = match avail.checked_sub(d.0) {
                Some(c) => c,
                None => {
                    return Err(Error::Math);
                },
            };
            let o = vec![(disputed, d), (main, Amount(change))];
            assert(o@ =~= seq![(disputed, d), (main, Amount(change))]);
            o
        };
        let ghost outs = outputs@;
        proof {
            assert forall|a: FullAccount| #[trigger] paid_to(outs, a) == (if a == disputed { d.0 as int } else { 0 }) + (if a == main { avail - d.0 } else { 0 }) by {
                if avail == d.0 {
                    lemma_paid_one(disputed, d, a);
                } else {
                    lemma_paid_two(disputed, d, main, Amount((avail - d.0) as i128), a);
                }
            }
        }
        proof {
            if avail == d.0 {
                lemma_paid_one(disputed, d, main);
            } else {
                lemma_paid_two(disputed, d, main, Amount((avail - d.0) as i128), main);
            }
            if inputs@.len() == 0 {
                assert(inputs@ =~= Seq::<Utxo>::empty());
            }
            lemma_inputs_pass(before.store, inputs@, main, 0);
        }
        let ghost sel = inputs@;
        let tx = match Transaction::new(inputs, outputs, disputed_reference, None) {
            Ok(t) => t,
            Err(e) => {
                return Err(Error::Tx(e));
            },
        };
        let ghost t = tx@;
        proof {
            assert(t.outputs =~= move_outputs(disputed, d, main, avail as int));
            assert(t == dispute_view(account, sel, d, reference@, t.timestamp));
            assert(covering(all, d.0 as int) == Ok::<Seq<Utxo>, storage::Error>(sel));
        }
        match self.commit(tx, Ghost(main)) {
            Ok(_) => {
                proof {
                    let h = choose|h2: HashId| h2@ == tx_hash(t) && self@.store == before.store.commit(t, h2);
                    assert(moved(before.store, self@.store, main, disputed, ft.outputs[0].1.0 as int));
                    assert forall|c: AccountId|
                        #[trigger] client_value(self@.store, c) == client_value(before.initial, c) + total_for(before.deposits, c)
                            - total_for(before.withdrawals, c) by {
                        assert(client_value(before.store, c) == client_value(before.initial, c) + total_for(before.deposits, c)
                            - total_for(before.withdrawals, c));
                    }
                }
                Ok(())
            },
            Err(e) => {
                proof {
                    if e == Error::Storage(storage::Error::Duplicate) && !before.store.has_tx(tx_hash(t)) {
                        let k = choose|k: int|
                            0 <= k < t.outputs.len() && #[trigger] before.store.reference_bound(t.outputs[k].0, t.reference);
                        if k == 1 {
                            assert(t.outputs[1].0 == main);
                        } else {
                            assert(t.outputs[0].0 == disputed);
                        }
                    }
                }
                Err(e)
            },
        }
    }

    /// Resolves a dispute in the client's favour: the disputed amount moves back from
    /// the disputed sub-account to main.
    pub fn resolve(&mut self, account: AccountId, reference: Reference) -> (r: Result<(), Error>)
        requires
            old(self).wf(),
        ensures
            final(self).wf(),
            final(self)@.initial == old(self)@.initial,
            final(self)@.deposits == old(self)@.deposits,
            final(self)@.withdrawals == old(self)@.withdrawals,
            release_outcome(
                old(self)@.store,
                final(self)@.store,
                account,
                reference@,
                AccountType::Main,
                "resolved:"@,
                r,
            ),
    {
        self.release(account, reference, AccountType::Main, "resolved:")
    }

    /// Charges a disputed deposit back: the disputed amount moves from the disputed
    /// sub-account to the chargeback one, where it stays as a record of lost funds.
    pub fn chargeback(&mut self, account: AccountId, reference: Reference) -> (r: Result<(), Error>)
        requires
            old(self).wf(),
        ensures
            final(self).wf(),
            final(self)@.initial == old(self)@.initial,
            final(self)@.deposits == old(self)@.deposits,
            final(self)@.withdrawals == old(self)@.withdrawals,
            release_outcome(
                old(self)@.store,
                final(self)@.store,
                account,
                reference@,
                AccountType::Chargeback,
                "chargeback:"@,
                r,
            ),
    {
        self.release(account, reference, AccountType::Chargeback, "chargeback:")
    }

    /// Moves what the dispute of `reference` froze out of the disputed sub-account, to
    /// the sub-account `dest`, under the reference `prefix` + `reference`.
    fn release(&mut self, account: AccountId, reference: Reference, dest: AccountType, prefix: &str) -> (r: Result<(), Error>)
        requires
            old(self).wf(),
            dest != AccountType::Disputed,
        ensures
            final(self).wf(),
            final(self)@.initial == old(self)@.initial,
            final(self)@.deposits == old(self)@.deposits,
            final(self)@.withdrawals == old(self)@.withdrawals,
            release_outcome(old(self)@.store, final(self)@.store, account, reference@, dest, prefix@, r),
    {
        let disputed = FullAccount((account, AccountType::Disputed));
        let target = FullAccount((account, dest));
        let ghost before = self@;
        proof {
            self.storage.lemma_valid_consistent();
            reveal_strlit("dispute:");
        }
        let disputed_reference = prefixed("dispute:", &reference);
        let found = match self.storage.get_tx_by_reference(&disputed, &disputed_reference) {
            Ok(Some(t)) => t,
            Ok(None) => {
                return Err(Error::NotFound);
            },
            Err(e) => {
                return Err(Error::Storage(e));
            },
        };
        let ghost ft = found@;
        assert(before.store.found_by_reference(disputed, "dispute:"@ + reference@, ft));
        proof {
            assert forall|t: TxView| before.store.found_by_reference(disputed, "dispute:"@ + reference@, t) implies t == ft by {
                lemma_found_unique(before.store, disputed, "dispute:"@ + reference@, t, ft);
            }
        }
        let amount = match paid_sum(found.outputs(), &disputed) {
            Some(x) => x,
            None => {
                return Err(Error::Math);
            },
        };
        let ghost all = unspent_of(before.store.utxos, disputed);
        let inputs = match self.storage.get_unspent(&disputed, Some(Amount(amount))) {
            Ok(v) => v,
            Err(e) => {
                return Err(Error::Storage(e));
            },
        };
        proof {
            lemma_covering_fits(all, amount as int);
            lemma_unspent_sound(before.store.utxos, disputed);
            assert(distinct_inputs(inputs@));
            assert forall|k: int| 0 <= k < inputs@.len() implies #[trigger] storage::input_ok(before.store.utxos, inputs@[k], disputed) by {
                assert(inputs@[k] == all[k]);
            }
        }
        let avail = match sum_checked(&inputs) {
            Some(t) => t,
            None => {
                return Err(Error::Math);
            },
        };
        if avail < amount {
            assert(covering(all, amount as int) == Ok::<Seq<Utxo>, storage::Error>(inputs@));
            assert(released_from(before.store, account, reference@, ft, inputs@));
            return Err(Error::Internal);
        }
        let out_reference = prefixed(prefix, &reference);
        let outputs = if avail == amount {
            let o = vec![(target, Amount(amount))];
            assert(o@ =~= seq![(target, Amount(amount))]);
            o
        } else {
            let change = match avail.checked_sub(amount) {
                Some(c) => c,
                None => {
                    return Err(Error::Math);
                },
            };
            let o = vec![(target, Amount(amount)), (disputed, Amount(change))];
            assert(o@ =~= seq![(target, Amount(amount)), (disputed, Amount(change))]);
            o
        };
        let ghost outs = outputs@;
        proof {
            assert forall|a: FullAccount| #[trigger] paid_to(outs, a) == (if a == target { amount as int } else { 0 }) + (if a == disputed { avail - amount } else { 0 }) by {
                if avail == amount {
                    lemma_paid_one(target, Amount(amount), a);
                } else {
                    lemma_paid_two(target, Amount(amount), disputed, Amount((avail - amount) as i128), a);
                }
            }
        }
        proof {
            if avail == amount {
                lemma_paid_one(target, Amount(amount), disputed);
            } else {
                lemma_paid_two(target, Amount(amount), disputed, Amount((avail - amount) as i128), disputed);
            }
            if inputs@.len() == 0 {
                assert(inputs@ =~= Seq::<Utxo>::empty());
            }
            lemma_inputs_pass(before.store, inputs@, disputed, 0);
        }
        let ghost sel = inputs@;
        let tx = match Transaction::new(inputs, outputs, out_reference, None) {
            Ok(t) => t,
            Err(e) => {
                return Err(Error::Tx(e));
            },
        };
        let ghost t = tx@;
        proof {
            assert(t.outputs =~= move_outputs(target, Amount(amount), disputed, avail as int));
            assert(t == release_view(account, dest, sel, amount as int, prefix@, reference@, t.timestamp));
            assert(released_from(before.store, account, reference@, ft, sel));
        }
        match self.commit(tx, Ghost(disputed)) {
            Ok(_) => {
                proof {
                    let h = choose|h2: HashId| h2@ == tx_hash(t) && self@.store == before.store.commit(t, h2);
                    assert(moved(before.store, self@.store, disputed, target, paid_to(ft.outputs, disputed)));
                    assert(before.store.reference_bound(disputed, "dispute:"@ + reference@));
                    assert forall|c: AccountId|
                        #[trigger] client_value(self@.store, c) == client_value(before.initial, c) + total_for(before.deposits, c)
                            - total_for(before.withdrawals, c) by {
                        assert(client_value(before.store, c) == client_value(before.initial, c) + total_for(before.deposits, c)
                            - total_for(before.withdrawals, c));
                    }
                }
                Ok(())
            },
            Err(e) => {
                proof {
                    if e == Error::Storage(storage::Error::Duplicate) && !before.store.has_tx(tx_hash(t)) {
                        let q = choose|q: int|
                            0 <= q < t.outputs.len() && #[trigger] before.store.reference_bound(t.outputs[q].0, t.reference);
                        if q == 1 {
                            assert(t.outputs[1].0 == disputed);
                        } else {
                            assert(t.outputs[0].0 == target);
                        }
                    }
                }
                Err(e)
            },
        }
    }
}

/// Whether every running sum of what the outputs pay to `a` fits in 128 bits.
pub open spec fn paid_sums_fit(outs: Seq<(FullAccount, Amount)>, a: FullAccount) -> bool {
    forall|j: int| 0 <= j <= outs.len() ==> fits_i128(#[trigger] paid_to(outs.take(j), a))
}

/// What resolving or charging back the dispute of `reference` does: `NotFound` exactly
/// when no dispute of it is recorded; on success the amount the dispute moved to the
/// disputed sub-account moves on to `dest`; on failure nothing changes.
pub open spec fn release_outcome(
    before: StoreModel,
    after: StoreModel,
    account: AccountId,
    reference: Seq<char>,
    dest: AccountType,
    prefix: Seq<char>,
    r: Result<(), Error>,
) -> bool {
    let disputed = sub_account(account, AccountType::Disputed);
    let key = "dispute:"@ + reference;
    &&& r == Err::<(), Error>(Error::NotFound) <==> !before.reference_bound(disputed, key)
    &&& r == Err::<(), Error>(Error::Internal) <==> exists|t: TxView, sel: Seq<Utxo>|
        #[trigger] released_from(before, account, reference, t, sel) && sum_inputs(sel) < paid_to(
            t.outputs,
            disputed,
        )
    &&& (exists|t: TxView|
        before.found_by_reference(disputed, key, t) && paid_sums_fit(t.outputs, disputed) && paid_to(
            t.outputs,
            disputed,
        ) > 0 && (covering(unspent_of(before.utxos, disputed), paid_to(t.outputs, disputed)) matches Ok(
            sel,
        ) && sum_inputs(sel) >= paid_to(t.outputs, disputed))) && r is Err ==> r == Err::<(), Error>(
        Error::Storage(storage::Error::Duplicate),
    )
    &&& r == Err::<(), Error>(Error::Storage(storage::Error::Duplicate)) ==> exists|
        t: TxView,
        sel: Seq<Utxo>,
    |
        #[trigger] released_from(before, account, reference, t, sel) && sum_inputs(sel) >= paid_to(
            t.outputs,
            disputed,
        ) && (before.reference_bound(sub_account(account, dest), prefix + reference) || (sum_inputs(sel)
            > paid_to(t.outputs, disputed) && before.reference_bound(disputed, prefix + reference))
            || exists|ts: u64|
            before.has_tx(tx_hash(release_view(account, dest, sel, paid_to(t.outputs, disputed), prefix, reference, ts))))
    &&& r is Ok ==> exists|t: TxView, sel: Seq<Utxo>|
        #[trigger] released_from(before, account, reference, t, sel) && sum_inputs(sel) >= paid_to(
            t.outputs,
            disputed,
        ) && exists|ts: u64, h: HashId|
            h@ == tx_hash(release_view(account, dest, sel, paid_to(t.outputs, disputed), prefix, reference, ts))
                && after == before.commit(
                release_view(account, dest, sel, paid_to(t.outputs, disputed), prefix, reference, ts),
                h,
            )
    &&& r is Ok ==> exists|t: TxView|
        before.found_by_reference(disputed, key, t) && moved(
            before,
            after,
            disputed,
            sub_account(account, dest),
            paid_to(t.outputs, disputed),
        )
    &&& r is Err ==> after == before
}

/// The dispute of `reference` by client `account` is the stored transaction `t`, what
/// it froze fits in 128 bits, and the disputed outputs selected to cover it are `sel`.
pub open spec fn released_from(before: StoreModel, account: AccountId, reference: Seq<char>, t: TxView, sel: Seq<Utxo>) -> bool {
    let disputed = sub_account(account, AccountType::Disputed);
    &&& before.found_by_reference(disputed, "dispute:"@ + reference, t)
    &&& paid_sums_fit(t.outputs, disputed)
    &&& covering(unspent_of(before.utxos, disputed), paid_to(t.outputs, disputed)) == Ok::<
        Seq<Utxo>,
        storage::Error,
    >(sel)
}

/// The transaction that moves `amount` of client `account` from disputed to `dest` out
/// of the selected disputed outputs `sel`, with the change back to disputed.
pub open spec fn release_view(
    account: AccountId,
    dest: AccountType,
    sel: Seq<Utxo>,
    amount: int,
    prefix: Seq<char>,
    reference: Seq<char>,
    ts: u64,
) -> TxView {
    move_view(
        sel,
        sub_account(account, dest),
        Amount(amount as i128),
        sub_account(account, AccountType::Disputed),
        prefix + reference,
        ts,
    )
}

impl Default for Ledger<Memory> {
    fn default() -> (r: Self)
        ensures
            r.wf(),
            r@.store == StoreModel::empty(),
            r@.initial == StoreModel::empty(),
            r@.deposits == Seq::<(AccountId, int)>::empty(),
            r@.withdrawals == Seq::<(AccountId, int)>::empty(),
    {
        Ledger::new(Memory::new())
    }
}

} // verus!
