use vstd::prelude::*;

verus! {

/// Largest value of a signed 128-bit integer.
pub open spec fn i128_max() -> int {
    0x7fff_ffff_ffff_ffff_ffff_ffff_ffff_ffff
}

/// Whether `v` fits in a signed 128-bit integer.
pub open spec fn fits_i128(v: int) -> bool {
    -i128_max() - 1 <= v <= i128_max()
}

/// The `n` low bytes of `v`, least significant first.
pub open spec fn le_bytes(v: nat, n: nat) -> Seq<u8>
    decreases n,
{
    if n == 0 {
        Seq::empty()
    } else {
        seq![(v % 256) as u8] + le_bytes(v / 256, (n - 1) as nat)
    }
}

/// A signed fixed-point money quantity, in the ledger's smallest denomination.
#[derive(Debug, Clone, Copy, Hash, PartialEq, Eq, Structural)]
pub struct Amount(pub i128);

impl Amount {
    /// The 16-byte little-endian two's complement encoding of the amount.
    pub open spec fn spec_bytes(self) -> Seq<u8> {
        if self.0 >= 0 {
            le_bytes(self.0 as nat, 16)
        } else {
            le_bytes((self.0 + 0x1_0000_0000_0000_0000_0000_0000_0000_0000) as nat, 16)
        }
    }

    /// Serialises the amount to 16 little-endian bytes.
    pub fn to_bytes(&self) -> (r: [u8; 16])
        ensures
            r@ == self.spec_bytes(),
    {
        let mut u: u128 = if self.0 >= 0 {
            self.0 as u128
        } else {
            ((self.0 + i128::MAX) + 1) as u128 + 0x8000_0000_0000_0000_0000_0000_0000_0000
        };
        let ghost start: nat = if self.0 >= 0 {
            self.0 as nat
        } else {
            (self.0 + 0x1_0000_0000_0000_0000_0000_0000_0000_0000) as nat
        };
        assert(u == start);
        let mut r = [0u8; 16];
        let mut k: usize = 0;
        while k < 16
            invariant
                0 <= k <= 16,
                r@.len() == 16,
                le_bytes(start, 16) == r@.subrange(0, k as int) + le_bytes(u as nat, (16 - k) as nat),
            decreases 16 - k,
        {
            let ghost before = r@;
            let b = (u % 256) as u8;
            r[k] = b;
            proof {
                let rest = le_bytes(u as nat, (16 - k) as nat);
                assert(rest == seq![b] + le_bytes((u / 256) as nat, (16 - k - 1) as nat));
                assert(r@.subrange(0, k as int + 1) =~= before.subrange(0, k as int) + seq![b]);
                assert(before.subrange(0, k as int) + rest =~= r@.subrange(0, k as int + 1) + le_bytes((u / 256) as nat, (16 - k - 1) as nat));
            }
            u = u / 256;
            k = k + 1;
        }
        assert(r@.subrange(0, 16) =~= r@);
        assert(le_bytes(u as nat, 0) =~= Seq::<u8>::empty());
        assert(r@ =~= le_bytes(start, 16));
        r
    }
}

impl Amount {
    /// The sum of two amounts, or `Math` when it leaves the 128-bit range.
    pub fn checked_add(&self, other: Amount) -> (r: Result<Amount, crate::Error>)
        ensures
            fits_i128(self.0 + other.0) ==> r == Ok::<Amount, crate::Error>(Amount((self.0 + other.0) as i128)),
            !fits_i128(self.0 + other.0) ==> r == Err::<Amount, crate::Error>(crate::Error::Math),
    {
        match self.0.checked_add(other.0) {
            Some(v) => Ok(Amount(v)),
            None => Err(crate::Error::Math),
        }
    }

    /// The difference of two amounts, or `Math` when it leaves the 128-bit range.
    pub fn checked_sub(&self, other: Amount) -> (r: Result<Amount, crate::Error>)
        ensures
            fits_i128(self.0 - other.0) ==> r == Ok::<Amount, crate::Error>(Amount((self.0 - other.0) as i128)),
            !fits_i128(self.0 - other.0) ==> r == Err::<Amount, crate::Error>(crate::Error::Math),
    {
        match self.0.checked_sub(other.0) {
            Some(v) => Ok(Amount(v)),
            None => Err(crate::Error::Math),
        }
    }
}

impl From<i128> for Amount {
    fn from(value: i128) -> (r: Amount) {
        Amount(value)
    }
}

impl vstd::std_specs::convert::FromSpecImpl<i128> for Amount {
    open spec fn obeys_from_spec() -> bool {
        true
    }

    open spec fn from_spec(v: i128) -> Amount {
        Amount(v)
    }
}

impl core::ops::Deref for Amount {
    type Target = i128;

    fn deref(&self) -> (r: &i128)
        ensures
            *r == self.0,
    {
        &self.0
    }
}

} // verus!
