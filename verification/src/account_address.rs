use vstd::prelude::*;

verus! {

/// Number of bytes in the canonical encoding of an account address.
pub const ADDRESS_LENGTH: usize = 16;

/// Identity of a transaction sender.
///
/// An address is a fixed 16-byte identifier; it is held here as the
/// little-endian integer value of those bytes, which makes equality and
/// map keys primitive while `canonical` turns it back into bytes.
#[derive(Clone, Copy, PartialEq, Eq, Structural, Hash, Debug)]
pub struct AccountAddress {
    pub value: u128,
}

impl AccountAddress {
    pub fn new(value: u128) -> (r: AccountAddress)
        ensures
            r.value == value,
    {
        AccountAddress { value }
    }
}

} // verus!
