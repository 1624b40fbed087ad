use vstd::prelude::*;

use sha2::Digest;

use crate::account::FullAccount;
use crate::amount::{le_bytes, Amount};

verus! {

/// Identity of a committed transaction: a SHA-256 digest.
pub type HashId = [u8; 32];

/// What SHA-256 yields for the given bytes.
pub uninterp spec fn sha256_of(data: Seq<u8>) -> Seq<u8>;

/// Relies on sha2's `Sha256::digest`: the SHA-256 digest of the bytes.
#[verifier::external_body]
fn sha256(data: &[u8]) -> (r: HashId)
    ensures
        r@ == sha256_of(data@),
{
    sha2::Sha256::digest(data).into()
}

/// Identifier of a transaction output: the producing transaction and the output position.
#[derive(Debug, Hash, Eq, PartialEq, PartialOrd, Ord, Clone, Copy)]
pub struct UtxoId {
    pub id: HashId,
    pub pos: u8,
}

impl UtxoId {
    /// Whether the two identifiers name the same output.
    pub open spec fn same_as(self, other: UtxoId) -> bool {
        self.id@ == other.id@ && self.pos == other.pos
    }

    /// Whether the two identifiers name the same output.
    pub fn same(&self, other: &UtxoId) -> (r: bool)
        ensures
            r == self.same_as(*other),
    {
        self.pos == other.pos && same_hash(&self.id, &other.id)
    }

    /// Returns the hash of the producing transaction.
    pub fn hash_id(&self) -> (r: HashId)
        ensures
            r == self.id,
    {
        self.id
    }

    /// Returns the output position within the producing transaction.
    pub fn pos(&self) -> (r: u8)
        ensures
            r == self.pos,
    {
        self.pos
    }
}

/// Compares two hashes byte by byte.
pub fn same_hash(a: &HashId, b: &HashId) -> (r: bool)
    ensures
        r == (a@ == b@),
{
    let mut i: usize = 0;
    while i < 32
        invariant
            0 <= i <= 32,
            a@.len() == 32,
            b@.len() == 32,
            forall|j: int| 0 <= j < i ==> a@[j] == b@[j],
        decreases 32 - i,
    {
        if a[i] != b[i] {
            return false;
        }
        i = i + 1;
    }
    assert(a@ =~= b@);
    true
}

impl From<(HashId, u8)> for UtxoId {
    fn from(value: (HashId, u8)) -> (r: UtxoId) {
        UtxoId { id: value.0, pos: value.1 }
    }
}

impl vstd::std_specs::convert::FromSpecImpl<(HashId, u8)> for UtxoId {
    open spec fn obeys_from_spec() -> bool {
        true
    }

    open spec fn from_spec(v: (HashId, u8)) -> UtxoId {
        UtxoId { id: v.0, pos: v.1 }
    }
}

/// Errors of transaction construction.
#[derive(Debug, Clone, Copy, PartialEq, Eq, Structural)]
pub enum Error {
    /// Both sides are empty, or a two-sided transaction moves no positive value.
    InvalidFrom,
    /// The outputs are not acceptable.
    InvalidTo,
    /// Inputs and outputs do not sum to the same amount.
    Imbalanced,
}

/// An unspent transaction output: an output identifier and the amount it holds.
#[derive(Debug, Clone, Copy)]
pub struct Utxo {
    pub id: UtxoId,
    pub amount: Amount,
}

impl Utxo {
    /// The 33-byte encoding: producing hash, then position.
    pub open spec fn spec_bytes(self) -> Seq<u8> {
        self.id.id@ + seq![self.id.pos]
    }

    /// Builds an output reference with the amount it is asserted to hold.
    pub fn new(id: UtxoId, amount: Amount) -> (r: Utxo)
        ensures
            r.id == id,
            r.amount == amount,
    {
        Utxo { id, amount }
    }

    fn to_bytes(&self) -> (r: [u8; 33])
        ensures
            r@ == self.spec_bytes(),
    {
        let mut r = [0u8; 33];
        let mut i: usize = 0;
        while i < 32
            invariant
                0 <= i <= 32,
                r@.len() == 33,
                self.id.id@.len() == 32,
                forall|j: int| 0 <= j < i ==> r@[j] == self.id.id@[j],
            decreases 32 - i,
        {
            r[i] = self.id.id[i];
            i = i + 1;
        }
        r[32] = self.id.pos;
        assert(r@ =~= self.spec_bytes());
        r
    }

    /// Returns the output identifier.
    pub fn id(&self) -> (r: UtxoId)
        ensures
            r == self.id,
    {
        self.id
    }

    /// Returns the amount.
    pub fn amount(&self) -> (r: Amount)
        ensures
            r == self.amount,
    {
        self.amount
    }
}

/// Sum of the amounts of a list of inputs.
pub open spec fn sum_inputs(s: Seq<Utxo>) -> int
    decreases s.len(),
{
    if s.len() == 0 {
        0
    } else {
        sum_inputs(s.drop_last()) + s.last().amount.0
    }
}

/// Sum of the amounts of a list of outputs.
pub open spec fn sum_outputs(s: Seq<(FullAccount, Amount)>) -> int
    decreases s.len(),
{
    if s.len() == 0 {
        0
    } else {
        sum_outputs(s.drop_last()) + s.last().1.0
    }
}

/// The rule every transaction obeys: not empty on both sides, and balanced with a
/// positive sum when both sides are present.
pub open spec fn well_formed_sides(inputs: Seq<Utxo>, outputs: Seq<(FullAccount, Amount)>) -> bool {
    &&& !(inputs.len() == 0 && outputs.len() == 0)
    &&& (inputs.len() > 0 && outputs.len() > 0) ==> (sum_inputs(inputs) == sum_outputs(outputs)
        && sum_inputs(inputs) > 0)
}

/// The bytes hashed for the inputs.
pub open spec fn inputs_bytes(s: Seq<Utxo>) -> Seq<u8>
    decreases s.len(),
{
    if s.len() == 0 {
        Seq::empty()
    } else {
        inputs_bytes(s.drop_last()) + s.last().spec_bytes()
    }
}

/// The bytes hashed for the outputs.
pub open spec fn outputs_bytes(s: Seq<(FullAccount, Amount)>) -> Seq<u8>
    decreases s.len(),
{
    if s.len() == 0 {
        Seq::empty()
    } else {
        outputs_bytes(s.drop_last()) + s.last().0.spec_bytes() + s.last().1.spec_bytes()
    }
}

/// The contents of a transaction.
pub struct TxView {
    pub inputs: Seq<Utxo>,
    pub outputs: Seq<(FullAccount, Amount)>,
    pub reference: Seq<char>,
    pub timestamp: u64,
}

/// The content hash of a transaction.
pub open spec fn tx_hash(t: TxView) -> Seq<u8> {
    sha256_of(
        sha256_of(inputs_bytes(t.inputs)) + sha256_of(outputs_bytes(t.outputs)) + le_bytes(
            t.timestamp as nat,
            8,
        ) + vstd::utf8::encode_utf8(t.reference),
    )
}

/// A set of spent outputs, a list of new outputs, a reference and a timestamp.
#[derive(Debug)]
pub struct Transaction {
    from: Vec<Utxo>,
    to: Vec<(FullAccount, Amount)>,
    reference: String,
    timestamp: u64,
}

impl View for Transaction {
    type V = TxView;

    closed spec fn view(&self) -> TxView {
        TxView {
            inputs: self.from@,
            outputs: self.to@,
            reference: self.reference@,
            timestamp: self.timestamp,
        }
    }
}

/// Two to the 128th power.
pub open spec fn pow2_128() -> int {
    0x1_0000_0000_0000_0000_0000_0000_0000_0000int
}

/// Adds `v` to the wide number `carry * 2^128 + low`.
fn wide_add(carry: i128, low: u128, v: i128) -> (r: (i128, u128))
    requires
        -0x1_0000_0000_0000_0000 < carry < 0x1_0000_0000_0000_0000,
    ensures
        r.0 * pow2_128() + r.1 == carry * pow2_128() + low + v,
        carry - 1 <= r.0 <= carry + 1,
{
    let (c, vu) = if v >= 0 {
        (carry, v as u128)
    } else {
        (carry - 1, ((v + i128::MAX) + 1) as u128 + 0x8000_0000_0000_0000_0000_0000_0000_0000)
    };
    if low > u128::MAX - vu {
        (c + 1, low - (u128::MAX - vu) - 1)
    } else {
        (c, low + vu)
    }
}

/// The sum of the input amounts, as `carry * 2^128 + low`.
fn wide_sum_inputs(s: &Vec<Utxo>) -> (r: (i128, u128))
    ensures
        r.0 * pow2_128() + r.1 == sum_inputs(s@),
{
    let mut carry: i128 = 0;
    let mut low: u128 = 0;
    let mut i: usize = 0;
    while i < s.len()
        invariant
            0 <= i <= s@.len(),
            -(i as int) <= carry <= i,
            carry * pow2_128() + low == sum_inputs(s@.subrange(0, i as int)),
        decreases s@.len() - i,
    {
        let (c, l) = wide_add(carry, low, s[i].amount.0);
        assert(s@.subrange(0, i as int + 1).drop_last() =~= s@.subrange(0, i as int));
        carry = c;
        low = l;
        i = i + 1;
    }
    assert(s@.subrange(0, s@.len() as int) =~= s@);
    (carry, low)
}

/// The sum of the output amounts, as `carry * 2^128 + low`.
fn wide_sum_outputs(s: &Vec<(FullAccount, Amount)>) -> (r: (i128, u128))
    ensures
        r.0 * pow2_128() + r.1 == sum_outputs(s@),
{
    let mut carry: i128 = 0;
    let mut low: u128 = 0;
    let mut i: usize = 0;
    while i < s.len()
        invariant
            0 <= i <= s@.len(),
            -(i as int) <= carry <= i,
            carry * pow2_128() + low == sum_outputs(s@.subrange(0, i as int)),
        decreases s@.len() - i,
    {
        let (c, l) = wide_add(carry, low, s[i].1.0);
        assert(s@.subrange(0, i as int + 1).drop_last() =~= s@.subrange(0, i as int));
        carry = c;
        low = l;
        i = i + 1;
    }
    assert(s@.subrange(0, s@.len() as int) =~= s@);
    (carry, low)
}

/// The error that building a transaction from these sides yields, if any.
pub open spec fn construction_error(inputs: Seq<Utxo>, outputs: Seq<(FullAccount, Amount)>) -> Option<
    Error,
> {
    if inputs.len() == 0 && outputs.len() == 0 {
        Some(Error::InvalidFrom)
    } else if inputs.len() > 0 && outputs.len() > 0 && sum_inputs(inputs) != sum_outputs(outputs) {
        Some(Error::Imbalanced)
    } else if inputs.len() > 0 && outputs.len() > 0 && sum_inputs(inputs) <= 0 {
        Some(Error::InvalidFrom)
    } else {
        None
    }
}

/// Relies on std's `SystemTime::now` and `SystemTime::duration_since`: the wall clock in
/// microseconds since the Unix epoch, or 0 when the clock is set before it. Nothing is
/// promised of the value.
#[verifier::external_body]
fn now_micros() -> (r: u64) {
    match std::time::SystemTime::now().duration_since(std::time::UNIX_EPOCH) {
        Ok(d) => d.as_micros() as u64,
        Err(_) => 0,
    }
}

/// Appends the bytes of `b` to `out`.
fn push_bytes(out: &mut Vec<u8>, b: &[u8])
    ensures
        final(out)@ == old(out)@ + b@,
{
    let ghost start = out@;
    let mut i: usize = 0;
    while i < b.len()
        invariant
            0 <= i <= b@.len(),
            out@ == start + b@.subrange(0, i as int),
        decreases b@.len() - i,
    {
        out.push(b[i]);
        assert(b@.subrange(0, i as int + 1) =~= b@.subrange(0, i as int).push(b@[i as int]));
        i = i + 1;
    }
    assert(b@.subrange(0, b@.len() as int) =~= b@);
}

/// The 8 little-endian bytes of `x`.
fn u64_le_bytes(x: u64) -> (r: Vec<u8>)
    ensures
        r@ == le_bytes(x as nat, 8),
{
    let mut u: u64 = x;
    let mut r: Vec<u8> = Vec::new();
    let mut k: usize = 0;
    while k < 8
        invariant
            0 <= k <= 8,
            r@.len() == k,
            le_bytes(x as nat, 8) == r@ + le_bytes(u as nat, (8 - k) as nat),
        decreases 8 - k,
    {
        let b = (u % 256) as u8;
        proof {
            let rest = le_bytes(u as nat, (8 - k) as nat);
            assert(rest == seq![b] + le_bytes((u / 256) as nat, (8 - k - 1) as nat));
            assert(r@ + rest =~= r@.push(b) + le_bytes((u / 256) as nat, (8 - k - 1) as nat));
        }
        r.push(b);
        u = u / 256;
        k = k + 1;
    }
    assert(le_bytes(u as nat, 0) =~= Seq::<u8>::empty());
    assert(r@ + Seq::<u8>::empty() =~= r@);
    r
}

/// Copies a vector of plain values.
fn copy_vec<T: Copy>(v: &Vec<T>) -> (r: Vec<T>)
    ensures
        r@ == v@,
{
    let mut r: Vec<T> = Vec::new();
    let mut i: usize = 0;
    while i < v.len()
        invariant
            0 <= i <= v@.len(),
            r@ == v@.subrange(0, i as int),
        decreases v@.len() - i,
    {
        r.push(v[i]);
        assert(v@.subrange(0, i as int + 1) =~= v@.subrange(0, i as int).push(v@[i as int]));
        i = i + 1;
    }
    assert(v@.subrange(0, v@.len() as int) =~= v@);
    r
}

/// Cloning goes through `copy`, which keeps the contents and hence the invariant.
impl Clone for Transaction {
    fn clone(&self) -> Self {
        self.copy()
    }
}

impl Transaction {
    #[verifier::type_invariant]
    spec fn sides_ok(self) -> bool {
        well_formed_sides(self.from@, self.to@)
    }

    /// Builds a transaction, checking that it is not empty and, when it has both
    /// inputs and outputs, that they balance to a positive sum. Without a timestamp
    /// the wall clock is read.
    pub fn new(
        from: Vec<Utxo>,
        to: Vec<(FullAccount, Amount)>,
        reference: String,
        timestamp: Option<u64>,
    ) -> (r: Result<Transaction, Error>)
        ensures
            match r {
                Ok(t) => {
                    &&& construction_error(from@, to@) is None
                    &&& t@.inputs == from@
                    &&& t@.outputs == to@
                    &&& t@.reference == reference@
                    &&& (timestamp matches Some(ts) ==> t@.timestamp == ts)
                },
                Err(e) => construction_error(from@, to@) == Some(e),
            },
    {
        if from.len() == 0 && to.len() == 0 {
            return Err(Error::InvalidFrom);
        }
        if from.len() > 0 && to.len() > 0 {
            let (ci, li) = wide_sum_inputs(&from);
            let (co, lo) = wide_sum_outputs(&to);
            if ci != co || li != lo {
                return Err(Error::Imbalanced);
            }
            if ci < 0 || (ci == 0 && li == 0) {
                return Err(Error::InvalidFrom);
            }
        }
        let timestamp = match timestamp {
            Some(ts) => ts,
            None => now_micros(),
        };
        Ok(Transaction { from, to, reference, timestamp })
    }

    /// The spent outputs.
    pub fn inputs(&self) -> (r: &[Utxo])
        ensures
            r@ == self@.inputs,
            well_formed_sides(self@.inputs, self@.outputs),
    {
        proof {
            use_type_invariant(self);
        }
        self.from.as_slice()
    }

    /// The new outputs: destination sub-account and amount.
    pub fn outputs(&self) -> (r: &[(FullAccount, Amount)])
        ensures
            r@ == self@.outputs,
            well_formed_sides(self@.inputs, self@.outputs),
    {
        proof {
            use_type_invariant(self);
        }
        self.to.as_slice()
    }

    /// The reference the transaction is recorded under.
    pub fn reference(&self) -> (r: &String)
        ensures
            r@ == self@.reference,
    {
        &self.reference
    }

    /// A copy of the transaction.
    pub fn copy(&self) -> (r: Transaction)
        ensures
            r@ == self@,
    {
        proof {
            use_type_invariant(self);
        }
        Transaction {
            from: copy_vec(&self.from),
            to: copy_vec(&self.to),
            reference: self.reference.clone(),
            timestamp: self.timestamp,
        }
    }

    /// The content hash: SHA-256 over the digest of the inputs, the digest of the
    /// outputs, the timestamp and the reference.
    pub fn id(&self) -> (r: HashId)
        ensures
            r@ == tx_hash(self@),
    {
        let mut ins: Vec<u8> = Vec::new();
        let mut i: usize = 0;
        while i < self.from.len()
            invariant
                0 <= i <= self.from@.len(),
                ins@ == inputs_bytes(self.from@.subrange(0, i as int)),
            decreases self.from@.len() - i,
        {
            let b = self.from[i].to_bytes();
            push_bytes(&mut ins, &b);
            assert(self.from@.subrange(0, i as int + 1).drop_last() =~= self.from@.subrange(0, i as int));
            i = i + 1;
        }
        assert(self.from@.subrange(0, self.from@.len() as int) =~= self.from@);
        let h_in = sha256(ins.as_slice());

        let mut outs: Vec<u8> = Vec::new();
        let mut j: usize = 0;
        while j < self.to.len()
            invariant
                0 <= j <= self.to@.len(),
                outs@ == outputs_bytes(self.to@.subrange(0, j as int)),
            decreases self.to@.len() - j,
        {
            let a = self.to[j].0.to_bytes();
            let m = self.to[j].1.to_bytes();
            push_bytes(&mut outs, &a);
            push_bytes(&mut outs, &m);
            assert(self.to@.subrange(0, j as int + 1).drop_last() =~= self.to@.subrange(0, j as int));
            j = j + 1;
        }
        assert(self.to@.subrange(0, self.to@.len() as int) =~= self.to@);
        let h_out = sha256(outs.as_slice());

        let mut all: Vec<u8> = Vec::new();
        push_bytes(&mut all, &h_in);
        push_bytes(&mut all, &h_out);
        let ts = u64_le_bytes(self.timestamp);
        push_bytes(&mut all, ts.as_slice());
        push_bytes(&mut all, self.reference.as_str().as_bytes());
        sha256(all.as_slice())
    }
}

} // verus!
