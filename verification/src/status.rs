use vstd::prelude::*;

use crate::transaction::Txn;

verus! {

/// Outcome codes of an admission attempt.
#[derive(Clone, Copy, PartialEq, Eq, Structural, Debug)]
pub enum MempoolStatusCode {
    Accepted,
    TooManyTransactions,
    MempoolIsFull,
    InvalidSeqNumber,
    VmError,
    InvalidUpdate,
    UnknownStatus,
}

/// Status of an admission attempt.
#[derive(Clone, Copy, PartialEq, Eq, Structural, Debug)]
pub struct MempoolStatus {
    pub code: MempoolStatusCode,
}

impl MempoolStatus {
    pub fn new(code: MempoolStatusCode) -> (r: MempoolStatus)
        ensures
            r.code == code,
    {
        MempoolStatus { code }
    }
}

/// Reason the validation stage discarded a transaction. Codes the validator
/// capability itself returns are carried through as `Validation`.
#[derive(Clone, Copy, PartialEq, Eq, Structural, Debug)]
pub enum DiscardedVMStatus {
    SequenceNumberTooOld,
    ResourceDoesNotExist,
    Validation(u64),
}

/// Per-transaction result of ingress processing: the admission status and,
/// where the transaction was discarded before admission, the reason.
pub type SubmissionStatus = (MempoolStatus, Option<DiscardedVMStatus>);

/// A processed transaction paired with its submission status.
pub type SubmissionStatusBundle = (Txn, SubmissionStatus);

} // verus!
