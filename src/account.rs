use vstd::prelude::*;

verus! {

/// Identifier of a client account.
pub type AccountId = u16;

/// Sub-account of a client: the state its funds are in.
#[derive(Debug, Copy, Clone, Hash, PartialEq, Eq, PartialOrd, Ord, Structural)]
pub enum Type {
    /// Spendable funds.
    Main,
    /// Funds frozen while a dispute is open.
    Disputed,
    /// Funds reversed by a chargeback, kept as an audit trail.
    Chargeback,
}

impl Type {
    /// The byte that stands for the sub-account type: 0, 1 or 2.
    pub open spec fn spec_byte(self) -> u8 {
        match self {
            Type::Main => 0,
            Type::Disputed => 1,
            Type::Chargeback => 2,
        }
    }

    /// Encodes the sub-account type as a single byte.
    pub fn to_byte(&self) -> (r: u8)
        ensures
            r == self.spec_byte(),
    {
        match self {
            Type::Main => 0,
            Type::Disputed => 1,
            Type::Chargeback => 2,
        }
    }
}

/// A client id together with one of its sub-accounts.
#[derive(Debug, Copy, Clone, Hash, PartialEq, Eq, PartialOrd, Ord)]
pub struct FullAccount(pub (AccountId, Type));

impl FullAccount {
    /// The client id.
    pub open spec fn spec_id(self) -> AccountId {
        self.0.0
    }

    /// The sub-account type.
    pub open spec fn spec_typ(self) -> Type {
        self.0.1
    }

    /// Position of the account in the ledger's order: by client id, then by type.
    pub open spec fn rank(self) -> int {
        self.0.0 as int * 3 + self.0.1.spec_byte() as int
    }

    /// The 3-byte encoding: client id little-endian, then the type byte.
    pub open spec fn spec_bytes(self) -> Seq<u8> {
        seq![(self.0.0 % 256) as u8, (self.0.0 / 256) as u8, self.0.1.spec_byte()]
    }

    /// Returns the client id.
    pub fn id(&self) -> (r: AccountId)
        ensures
            r == self.spec_id(),
    {
        self.0.0
    }

    /// Returns the sub-account type.
    pub fn typ(&self) -> (r: Type)
        ensures
            r == self.spec_typ(),
    {
        self.0.1
    }

    /// Serialises the account as 2 bytes of client id (little-endian) and 1 byte of type.
    pub fn to_bytes(&self) -> (r: [u8; 3])
        ensures
            r@ == self.spec_bytes(),
    {
        let id = self.0.0;
        let r = [(id % 256) as u8, (id / 256) as u8, self.0.1.to_byte()];
        assert(r@ =~= self.spec_bytes());
        r
    }

    /// Whether `self` comes strictly before `other` in the account order.
    pub fn precedes(&self, other: &FullAccount) -> (r: bool)
        ensures
            r == (self.rank() < other.rank()),
    {
        let a = self.0.1.to_byte();
        let b = other.0.1.to_byte();
        self.0.0 < other.0.0 || (self.0.0 == other.0.0 && a < b)
    }

    /// Whether the two keys name the same sub-account.
    pub fn same(&self, other: &FullAccount) -> (r: bool)
        ensures
            r == (self == other),
    {
        self.0.0 == other.0.0 && self.0.1.to_byte() == other.0.1.to_byte()
    }
}

impl From<AccountId> for FullAccount {
    fn from(value: AccountId) -> (r: FullAccount) {
        FullAccount((value, Type::Main))
    }
}

impl vstd::std_specs::convert::FromSpecImpl<AccountId> for FullAccount {
    open spec fn obeys_from_spec() -> bool {
        true
    }

    open spec fn from_spec(v: AccountId) -> FullAccount {
        FullAccount((v, Type::Main))
    }
}

impl From<(AccountId, Type)> for FullAccount {
    fn from(value: (AccountId, Type)) -> (r: FullAccount) {
        FullAccount(value)
    }
}

impl vstd::std_specs::convert::FromSpecImpl<(AccountId, Type)> for FullAccount {
    open spec fn obeys_from_spec() -> bool {
        true
    }

    open spec fn from_spec(v: (AccountId, Type)) -> FullAccount {
        FullAccount(v)
    }
}

} // verus!
