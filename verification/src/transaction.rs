use vstd::prelude::*;

use crate::account_address::AccountAddress;

verus! {

/// Whether an entry is already part of the broadcast timeline when it is
/// admitted. Client submissions enter as `NotReady`; transactions staged by a
/// peer broadcast enter as `Ready`. Either way an entry only joins the
/// timeline once its sequence number is contiguous with the committed prefix.
#[derive(Clone, Copy, PartialEq, Eq, Structural, Debug)]
pub enum TimelineState {
    NotReady,
    Ready,
}

/// Capability class of a transaction's sender, used for preferential
/// admission: entries of a non-governance sender are the only eviction
/// candidates, and `get_block` orders by class first.
#[derive(Clone, Copy, PartialEq, Eq, Structural, Debug)]
pub enum GovernanceRole {
    NonGovernance,
    ValidatorOperator,
    Validator,
    Root,
}

impl GovernanceRole {
    /// Rank of the capability class; a larger rank is served first.
    pub open spec fn rank(self) -> int {
        match self {
            GovernanceRole::NonGovernance => 0,
            GovernanceRole::ValidatorOperator => 1,
            GovernanceRole::Validator => 2,
            GovernanceRole::Root => 3,
        }
    }

    pub fn priority(&self) -> (r: u8)
        ensures
            r as int == self.rank(),
    {
        match self {
            GovernanceRole::NonGovernance => 0,
            GovernanceRole::ValidatorOperator => 1,
            GovernanceRole::Validator => 2,
            GovernanceRole::Root => 3,
        }
    }
}

/// A signed transaction, opaque to the pool except for the attributes the
/// pool reads: sender, per-sender sequence number, declared gas, expiration
/// timestamp (microseconds since the epoch), and a fingerprint of the signed
/// payload. Transactions are compared for equality by fingerprint.
pub struct Txn {
    pub sender: AccountAddress,
    pub sequence_number: u64,
    pub gas_amount: u64,
    pub expiration_time: u64,
    pub fingerprint: Vec<u8>,
}

/// Mathematical value of a `Txn`.
#[verifier::ext_equal]
pub struct TxnView {
    pub sender: AccountAddress,
    pub sequence_number: u64,
    pub gas_amount: u64,
    pub expiration_time: u64,
    pub fingerprint: Seq<u8>,
}

impl View for Txn {
    type V = TxnView;

    open spec fn view(&self) -> TxnView {
        TxnView {
            sender: self.sender,
            sequence_number: self.sequence_number,
            gas_amount: self.gas_amount,
            expiration_time: self.expiration_time,
            fingerprint: self.fingerprint@,
        }
    }
}

impl Clone for Txn {
    fn clone(&self) -> (r: Self)
        ensures
            r@ == self@,
    {
        Txn {
            sender: self.sender,
            sequence_number: self.sequence_number,
            gas_amount: self.gas_amount,
            expiration_time: self.expiration_time,
            fingerprint: vstd::slice::slice_to_vec(self.fingerprint.as_slice()),
        }
    }
}

impl Txn {
    pub fn new(
        sender: AccountAddress,
        sequence_number: u64,
        gas_amount: u64,
        expiration_time: u64,
        fingerprint: Vec<u8>,
    ) -> (r: Txn)
        ensures
            r@ == (TxnView {
                sender,
                sequence_number,
                gas_amount,
                expiration_time,
                fingerprint: fingerprint@,
            }),
    {
        Txn { sender, sequence_number, gas_amount, expiration_time, fingerprint }
    }
}

/// Unique in-pool identity of an entry.
pub type TxnPointer = (AccountAddress, u64);

/// Compares two byte strings for equality.
pub fn bytes_eq(a: &Vec<u8>, b: &Vec<u8>) -> (r: bool)
    ensures
        r == (a@ == b@),
{
    if a.len() != b.len() {
        proof {
            assert(a@.len() != b@.len());
        }
        return false;
    }
    let n = a.len();
    let mut i: usize = 0;
    while i < n
        invariant
            n == a@.len(),
            n == b@.len(),
            i <= n,
            forall|j: int| 0 <= j < i ==> a@[j] == b@[j],
        decreases n - i,
    {
        if a[i] != b[i] {
            return false;
        }
        i += 1;
    }
    proof {
        assert(a@ =~= b@);
    }
    true
}

} // verus!
