use vstd::prelude::*;

use crate::account_address::AccountAddress;
use crate::batch_id::{serialize_batch_id, spec_serialize_batch_id, BatchId};
use crate::core_mempool::{
    add_txn_rel, block_before, excluded_in, ready_id_in, spec_filter_timeline, spec_max_u64,
    txn_for_id, CoreMempool, PoolEntryView,
};
use crate::peer_manager::PeerState;
use crate::status::{DiscardedVMStatus, MempoolStatus, MempoolStatusCode, SubmissionStatus, SubmissionStatusBundle};
use crate::transaction::{GovernanceRole, TimelineState, Txn, TxnPointer, TxnView};

verus! {

/// Wire message between peers: a broadcast of transactions, or the
/// acknowledgement it is answered with.
pub enum MempoolSyncMsg {
    BroadcastTransactionsRequest { request_id: Vec<u8>, transactions: Vec<Txn> },
    BroadcastTransactionsResponse { request_id: Vec<u8>, retry_txns: Vec<u64>, backoff: bool },
}

/// What the validator capability reported for one transaction: the ranking
/// inputs on success, or the status it discarded the transaction with.
pub struct ValidationResult {
    pub score: u64,
    pub governance_role: GovernanceRole,
    pub status: Option<DiscardedVMStatus>,
}

/// An in-pool entry named by consensus for exclusion from a pulled block.
pub struct TransactionSummary {
    pub sender: AccountAddress,
    pub sequence_number: u64,
}

/// A transaction committed on chain (or rejected by consensus), named by its
/// pointer.
pub struct CommittedTransaction {
    pub sender: AccountAddress,
    pub sequence_number: u64,
}

/// State-sync's commit notification: the committed transactions and the
/// block's timestamp in microseconds (zero when unknown).
pub struct CommitNotification {
    pub transactions: Vec<CommittedTransaction>,
    pub block_timestamp_usecs: u64,
}

/// Reply to a commit notification.
pub struct CommitResponse {
    pub success: bool,
}

/// Request from consensus: pull a block, or reject transactions.
pub enum ConsensusRequest {
    GetBlockRequest(u64, Vec<TransactionSummary>),
    RejectNotification(Vec<CommittedTransaction>),
}

/// Reply to consensus.
pub enum ConsensusResponse {
    GetBlockResponse(Vec<Txn>),
    CommitResponse,
}

/// A refused transaction is worth resending exactly when the pool refused it
/// for want of room.
pub open spec fn spec_is_txn_retryable(result: SubmissionStatus) -> bool {
    result.0.code == MempoolStatusCode::TooManyTransactions || result.0.code
        == MempoolStatusCode::MempoolIsFull
}

pub fn is_txn_retryable(result: SubmissionStatus) -> (r: bool)
    ensures
        r == spec_is_txn_retryable(result),
{
    result.0.code == MempoolStatusCode::TooManyTransactions || result.0.code
        == MempoolStatusCode::MempoolIsFull
}

/// Zero-based positions, in broadcast order, of the results worth resending.
pub open spec fn spec_retry_indices(results: Seq<SubmissionStatusBundle>) -> Seq<u64>
    decreases results.len(),
{
    if results.len() == 0 {
        Seq::empty()
    } else {
        let rest = spec_retry_indices(results.drop_last());
        if spec_is_txn_retryable(results.last().1) {
            rest.push((results.len() - 1) as u64)
        } else {
            rest
        }
    }
}

/// The acknowledgement for a processed broadcast: it echoes the request
/// identifier, names the positions whose transactions are worth resending,
/// and asks for backoff exactly when the pool reported itself full.
pub fn gen_ack_response(request_id: Vec<u8>, results: &Vec<SubmissionStatusBundle>) -> (r:
    MempoolSyncMsg)
    requires
        results@.len() <= u64::MAX,
    ensures
        r matches MempoolSyncMsg::BroadcastTransactionsResponse {
            request_id: rid,
            retry_txns,
            backoff,
        } && rid@ == request_id@ && retry_txns@ == spec_retry_indices(results@) && backoff == (
        exists|i: int|
            0 <= i < results@.len() && (#[trigger] results@[i]).1.0.code
                == MempoolStatusCode::MempoolIsFull),
{
    let n = results.len();
    let mut retry_txns: Vec<u64> = Vec::new();
    let mut backoff = false;
    let mut i: usize = 0;
    while i < n
        invariant
            n == results@.len(),
            n <= u64::MAX,
            i <= n,
            retry_txns@ == spec_retry_indices(results@.take(i as int)),
            backoff == (exists|j: int|
                0 <= j < i && (#[trigger] results@[j]).1.0.code
                    == MempoolStatusCode::MempoolIsFull),
        decreases n - i,
    {
        proof {
            assert(results@.take(i + 1).drop_last() =~= results@.take(i as int));
            assert(results@.take(i + 1).last() == results@[i as int]);
        }
        let code = results[i].1.0.code;
        let ghost pre_backoff = backoff;
        backoff = backoff || code == MempoolStatusCode::MempoolIsFull;
        proof {
            if backoff && !pre_backoff {
                assert(results@[i as int].1.0.code == MempoolStatusCode::MempoolIsFull);
            }
        }
        if code == MempoolStatusCode::TooManyTransactions || code
            == MempoolStatusCode::MempoolIsFull {
            retry_txns.push(i as u64);
        }
        i += 1;
    }
    proof {
        assert(results@.take(n as int) =~= results@);
    }
    MempoolSyncMsg::BroadcastTransactionsResponse { request_id, retry_txns, backoff }
}

/// Status a transaction earns before it reaches the pool: a missed account
/// lookup, a stale sequence number, a validator failure, or a validation
/// status. `None` means the transaction goes on to pool admission.
pub open spec fn ingress_status(
    txn: TxnView,
    seq_lookup: Option<u64>,
    validation: Option<ValidationResult>,
) -> Option<SubmissionStatus> {
    match seq_lookup {
        None => Some(
            (
                MempoolStatus { code: MempoolStatusCode::VmError },
                Some(DiscardedVMStatus::ResourceDoesNotExist),
            ),
        ),
        Some(committed) => if txn.sequence_number < committed {
            Some(
                (
                    MempoolStatus { code: MempoolStatusCode::VmError },
                    Some(DiscardedVMStatus::SequenceNumberTooOld),
                ),
            )
        } else {
            match validation {
                None => Some((MempoolStatus { code: MempoolStatusCode::VmError }, None)),
                Some(v) => match v.status {
                    Some(st) => Some(
                        (MempoolStatus { code: MempoolStatusCode::VmError }, Some(st)),
                    ),
                    None => None,
                },
            }
        },
    }
}

/// Effect of serving one transaction of a batch: a transaction that
/// `ingress_status` discards gets exactly that status and leaves the pool
/// untouched; everything else is admitted with `add_txn`, whose full effect
/// is `add_txn_rel`, and its status is the admission outcome.
pub open spec fn admission_step(
    pre: CoreMempool,
    post: CoreMempool,
    txn: TxnView,
    lookup: Option<u64>,
    validation: Option<ValidationResult>,
    status: SubmissionStatus,
) -> bool {
    match ingress_status(txn, lookup, validation) {
        Some(st) => status == st && post == pre,
        None => {
            &&& status.1 is None
            &&& lookup matches Some(committed) && validation matches Some(v) && v.status is None
                && add_txn_rel(
                pre,
                post,
                txn,
                v.score,
                committed,
                v.governance_role,
                status.0.code,
            )
        },
    }
}

/// A whole batch admission: `trace` lists the pool state before each
/// transaction was served, with the final state last; every transaction is
/// carried into its status bundle and served by one `admission_step`.
pub open spec fn batch_admission(
    trace: Seq<CoreMempool>,
    txns: Seq<Txn>,
    lookups: Seq<Option<u64>>,
    validations: Seq<Option<ValidationResult>>,
    statuses: Seq<SubmissionStatusBundle>,
) -> bool {
    &&& trace.len() == txns.len() + 1
    &&& statuses.len() == txns.len()
    &&& forall|i: int| 0 <= i < trace.len() ==> (#[trigger] trace[i]).wf()
    &&& forall|i: int|
        0 <= i < txns.len() ==> (#[trigger] statuses[i]).0@ == txns[i]@ && admission_step(
            trace[i],
            trace[i + 1],
            txns[i]@,
            lookups[i],
            validations[i],
            statuses[i].1,
        )
}

/// Admits a batch of transactions. The account lookups and validation
/// results were obtained from the storage and validator capabilities, one
/// per transaction, and enter here as plain values. Every transaction gets a
/// status, in the order the batch was given: transactions the lookup,
/// sequence filter or validator discarded get the status `ingress_status`
/// assigns, and the rest are admitted to the pool in batch order, each
/// receiving its admission status.
pub fn process_incoming_transactions(
    pool: &mut CoreMempool,
    transactions: Vec<Txn>,
    sequence_lookups: &Vec<Option<u64>>,
    validations: &Vec<Option<ValidationResult>>,
    timeline_state: TimelineState,
) -> (statuses: Vec<SubmissionStatusBundle>)
    requires
        old(pool).wf(),
        sequence_lookups@.len() == transactions@.len(),
        validations@.len() == transactions@.len(),
        old(pool).next_insertion_order() + transactions@.len() <= u64::MAX,
        old(pool).next_timeline_id() + (old(pool).capacity() + 1) * (transactions@.len() + 1)
            <= u64::MAX,
    ensures
        final(pool).wf(),
        final(pool).capacity() == old(pool).capacity(),
        final(pool).max_per_sender() == old(pool).max_per_sender(),
        statuses@.len() == transactions@.len(),
        forall|i: int| 0 <= i < statuses@.len() ==> (#[trigger] statuses@[i]).0@ == transactions@[i]@,
        forall|i: int|
            0 <= i < statuses@.len() ==> match ingress_status(
                transactions@[i]@,
                sequence_lookups@[i],
                validations@[i],
            ) {
                Some(st) => (#[trigger] statuses@[i]).1 == st,
                None => (#[trigger] statuses@[i]).1.1 is None,
            },
        exists|trace: Seq<CoreMempool>|
            #[trigger] batch_admission(
                trace,
                transactions@,
                sequence_lookups@,
                validations@,
                statuses@,
            ) && trace[0] == *old(pool) && trace[transactions@.len() as int] == *final(pool),
{
    let n = transactions.len();
    let mut statuses: Vec<SubmissionStatusBundle> = Vec::new();
    let ghost mut trace: Seq<CoreMempool> = seq![*old(pool)];
    let mut txns = transactions;
    let mut i: usize = 0;
    while i < n
        invariant
            pool.wf(),
            pool.capacity() == old(pool).capacity(),
            pool.max_per_sender() == old(pool).max_per_sender(),
            n == txns@.len(),
            sequence_lookups@.len() == n,
            validations@.len() == n,
            forall|j: int| i <= j < n ==> (#[trigger] txns@[j])@ == transactions@[j]@,
            i <= n,
            statuses@.len() == i,
            pool.next_insertion_order() <= old(pool).next_insertion_order() + i,
            old(pool).next_insertion_order() + n <= u64::MAX,
            pool.next_timeline_id() + (pool.capacity() + 1) * (n - i + 1) <= u64::MAX,
            forall|j: int|
                0 <= j < i ==> (#[trigger] statuses@[j]).0@ == transactions@[j]@,
            forall|j: int|
                0 <= j < i ==> match ingress_status(
                    transactions@[j]@,
                    sequence_lookups@[j],
                    validations@[j],
                ) {
                    Some(st) => (#[trigger] statuses@[j]).1 == st,
                    None => (#[trigger] statuses@[j]).1.1 is None,
                },
            trace.len() == i + 1,
            trace[0] == *old(pool),
            trace[i as int] == *pool,
            forall|j: int| 0 <= j < trace.len() ==> (#[trigger] trace[j]).wf(),
            forall|j: int|
                0 <= j < i ==> admission_step(
                    #[trigger] trace[j],
                    trace[j + 1],
                    transactions@[j]@,
                    sequence_lookups@[j],
                    validations@[j],
                    statuses@[j].1,
                ),
        decreases n - i,
    {
        let ghost pre_state = *pool;
        let txn = txns[i].clone();
        let status: SubmissionStatus = match sequence_lookups[i] {
            None => (
                MempoolStatus::new(MempoolStatusCode::VmError),
                Some(DiscardedVMStatus::ResourceDoesNotExist),
            ),
            Some(committed) => {
                if txn.sequence_number < committed {
                    (
                        MempoolStatus::new(MempoolStatusCode::VmError),
                        Some(DiscardedVMStatus::SequenceNumberTooOld),
                    )
                } else {
                    match &validations[i] {
                        None => (MempoolStatus::new(MempoolStatusCode::VmError), None),
                        Some(v) => match v.status {
                            Some(st) => (
                                MempoolStatus::new(MempoolStatusCode::VmError),
                                Some(st),
                            ),
                            None => {
                                proof {
                                    assert((pool.capacity() + 1) * (n - i + 1) >= (pool.capacity()
                                        + 1) + (pool.capacity() + 1) * (n - i)) by (nonlinear_arith)
                                        requires
                                            pool.capacity() >= 0,
                                            n - i >= 1,
                                    ;
                                    assert((pool.capacity() + 1) * (n - i) >= 0) by (
                                    nonlinear_arith)
                                        requires
                                            pool.capacity() >= 0,
                                            n - i >= 0,
                                    ;
                                }
                                let gas = txn.gas_amount;
                                let score = v.score;
                                let role = v.governance_role;
                                let mempool_status = pool.add_txn(
                                    txn.clone(),
                                    gas,
                                    score,
                                    committed,
                                    timeline_state,
                                    role,
                                );
                                proof {
                                    assert((pool.capacity() + 1) * (n - i) >= 0) by (
                                    nonlinear_arith)
                                        requires
                                            pool.capacity() >= 0,
                                            n - i >= 0,
                                    ;
                                    assert((pool.capacity() + 1) * ((n - i - 1) + 1) == (
                                    pool.capacity() + 1) * (n - i));
                                }
                                (mempool_status, None)
                            },
                        },
                    }
                }
            },
        };
        statuses.push((txn, status));
        proof {
            assert((pool.capacity() + 1) * (n - i) <= (pool.capacity() + 1) * (n - i + 1)) by (
            nonlinear_arith)
                requires
                    pool.capacity() >= 0,
                    n - i >= 0,
            ;
            trace = trace.push(*pool);
            assert(trace[i as int] == pre_state && trace[i + 1] == *pool);
            assert(admission_step(
                trace[i as int],
                trace[i + 1],
                transactions@[i as int]@,
                sequence_lookups@[i as int],
                validations@[i as int],
                status,
            ));
        }
        i += 1;
    }
    proof {
        assert(trace[n as int] == *pool);
        assert(batch_admission(trace, transactions@, sequence_lookups@, validations@, statuses@));
    }
    statuses
}

/// Admits one client-submitted transaction and returns its status. Client
/// submissions enter the pool buffered (`NotReady` marking).
pub fn process_client_transaction_submission(
    pool: &mut CoreMempool,
    transaction: Txn,
    sequence_lookup: Option<u64>,
    validation: Option<ValidationResult>,
) -> (r: SubmissionStatus)
    requires
        old(pool).wf(),
        old(pool).next_insertion_order() + 1 <= u64::MAX,
        old(pool).next_timeline_id() + (old(pool).capacity() + 1) * 2 <= u64::MAX,
    ensures
        final(pool).wf(),
        final(pool).capacity() == old(pool).capacity(),
        final(pool).max_per_sender() == old(pool).max_per_sender(),
        match ingress_status(transaction@, sequence_lookup, validation) {
            Some(st) => r == st && *final(pool) == *old(pool),
            None => r.1 is None && (sequence_lookup matches Some(committed) && validation matches
                Some(v) && add_txn_rel(
                *old(pool),
                *final(pool),
                transaction@,
                v.score,
                committed,
                v.governance_role,
                r.0.code,
            )),
        },
{
    let mut txns: Vec<Txn> = Vec::new();
    let ghost txn_view = transaction@;
    txns.push(transaction);
    let mut lookups: Vec<Option<u64>> = Vec::new();
    lookups.push(sequence_lookup);
    let mut vals: Vec<Option<ValidationResult>> = Vec::new();
    vals.push(validation);
    proof {
        assert(txns@[0]@ == txn_view);
        assert(lookups@[0] == sequence_lookup);
        assert(vals@[0] == validation);
    }
    let mut statuses = process_incoming_transactions(
        pool,
        txns,
        &lookups,
        &vals,
        TimelineState::NotReady,
    );
    proof {
        assert(statuses@.len() == 1);
        let tr = choose|tr: Seq<CoreMempool>|
            #[trigger] batch_admission(tr, txns@, lookups@, vals@, statuses@) && tr[0] == *old(
                pool,
            ) && tr[1] == *pool;
        assert(admission_step(
            tr[0],
            tr[1],
            txns@[0]@,
            lookups@[0],
            vals@[0],
            statuses@[0].1,
        ));
    }
    let (_txn, status) = statuses.remove(0);
    status
}

/// Admits a batch broadcast by a peer (`Ready` marking) and assembles the
/// acknowledgement to send back: the request identifier echoed, the retry
/// positions, and the backoff flag.
pub fn process_transaction_broadcast(
    pool: &mut CoreMempool,
    transactions: Vec<Txn>,
    sequence_lookups: &Vec<Option<u64>>,
    validations: &Vec<Option<ValidationResult>>,
    request_id: Vec<u8>,
) -> (r: (Vec<SubmissionStatusBundle>, MempoolSyncMsg))
    requires
        old(pool).wf(),
        sequence_lookups@.len() == transactions@.len(),
        validations@.len() == transactions@.len(),
        transactions@.len() <= u64::MAX,
        old(pool).next_insertion_order() + transactions@.len() <= u64::MAX,
        old(pool).next_timeline_id() + (old(pool).capacity() + 1) * (transactions@.len() + 1)
            <= u64::MAX,
    ensures
        final(pool).wf(),
        final(pool).capacity() == old(pool).capacity(),
        final(pool).max_per_sender() == old(pool).max_per_sender(),
        r.0@.len() == transactions@.len(),
        forall|i: int| 0 <= i < r.0@.len() ==> (#[trigger] r.0@[i]).0@ == transactions@[i]@,
        forall|i: int|
            0 <= i < r.0@.len() ==> match ingress_status(
                transactions@[i]@,
                sequence_lookups@[i],
                validations@[i],
            ) {
                Some(st) => (#[trigger] r.0@[i]).1 == st,
                None => (#[trigger] r.0@[i]).1.1 is None,
            },
        exists|trace: Seq<CoreMempool>|
            #[trigger] batch_admission(
                trace,
                transactions@,
                sequence_lookups@,
                validations@,
                r.0@,
            ) && trace[0] == *old(pool) && trace[transactions@.len() as int] == *final(pool),
        r.1 matches MempoolSyncMsg::BroadcastTransactionsResponse {
            request_id: rid,
            retry_txns,
            backoff,
        } && rid@ == request_id@ && retry_txns@ == spec_retry_indices(r.0@) && backoff == (exists|
            i: int,
        |
            0 <= i < r.0@.len() && (#[trigger] r.0@[i]).1.0.code
                == MempoolStatusCode::MempoolIsFull),
{
    let results = process_incoming_transactions(
        pool,
        transactions,
        sequence_lookups,
        validations,
        TimelineState::Ready,
    );
    let ack = gen_ack_response(request_id, &results);
    (results, ack)
}

/// What one broadcast tick decides: stay silent, or send a batch.
pub enum BroadcastAction {
    /// Nothing is sent; the next tick is scheduled in backoff cadence when
    /// the flag is set.
    Skip { backoff: bool },
    /// Send the batch and, on transport success, record it with
    /// `update_peer_broadcast`.
    Send {
        batch_id: BatchId,
        request_id: Vec<u8>,
        timeline_ids: Vec<u64>,
        transactions: Vec<Txn>,
        new_timeline_id: u64,
        backoff: bool,
    },
}

/// Whether the tick after this action runs in backoff cadence.
pub open spec fn action_backoff(a: BroadcastAction) -> bool {
    match a {
        BroadcastAction::Skip { backoff } => backoff,
        BroadcastAction::Send { backoff, .. } => backoff,
    }
}

/// Every element of a filtered timeline read is a live timeline entry.
proof fn lemma_spec_filter_elements(entries: Seq<PoolEntryView>, ids: Seq<u64>)
    ensures
        forall|k: int|
            0 <= k < spec_filter_timeline(entries, ids).len() ==> ready_id_in(
                entries,
                (#[trigger] spec_filter_timeline(entries, ids)[k]).0,
            ) && spec_filter_timeline(entries, ids)[k].1 == txn_for_id(
                entries,
                spec_filter_timeline(entries, ids)[k].0,
            ),
    decreases ids.len(),
{
    if ids.len() > 0 {
        lemma_spec_filter_elements(entries, ids.drop_last());
        let rest = spec_filter_timeline(entries, ids.drop_last());
        let cur = spec_filter_timeline(entries, ids);
        assert forall|k: int|
            0 <= k < cur.len() implies ready_id_in(entries, (#[trigger] cur[k]).0) && cur[k].1
            == txn_for_id(entries, cur[k].0) by {
            if ready_id_in(entries, ids.last()) {
                if k < rest.len() {
                    assert(cur[k] == rest[k]);
                } else {
                    assert(cur[k] == (ids.last(), txn_for_id(entries, ids.last())));
                }
            } else {
                assert(cur[k] == rest[k]);
            }
        }
    }
}

/// Something is there to broadcast to a peer at this position: a flagged
/// retry entry is still live, or the timeline has a live position past it.
pub open spec fn has_broadcastable(pool: CoreMempool, state: PeerState) -> bool {
    ||| spec_filter_timeline(pool.entries(), state.broadcast_info.total_retry_txns@).len() > 0
    ||| exists|id: u64| #[trigger] ready_id_in(pool.entries(), id) && id > state.timeline_id
}

/// What an assembled batch holds: the still-live flagged-for-retry entries
/// first, in the retry list's order, then the exact in-order live timeline
/// prefix past the peer's position, the whole batch capped at `batch_size`;
/// the batch identity spans from the peer's position to the last fresh
/// position handed out (the position itself when nothing fresh was read).
/// These clauses determine the batch from the pool and peer state alone, so
/// an unrecorded (failed) send is rebuilt identically on the next tick.
pub open spec fn batch_assembled(
    pool: CoreMempool,
    state: PeerState,
    batch_size: int,
    batch_id: BatchId,
    request_id: Seq<u8>,
    ids: Seq<u64>,
    txs: Seq<Txn>,
    new_timeline_id: u64,
    backoff: bool,
) -> bool {
    let retry = spec_filter_timeline(pool.entries(), state.broadcast_info.total_retry_txns@);
    let rn = if retry.len() <= batch_size {
        retry.len() as int
    } else {
        batch_size
    };
    &&& backoff == state.broadcast_info.backoff_mode
    &&& batch_id == BatchId(state.timeline_id, new_timeline_id)
    &&& request_id == spec_serialize_batch_id(batch_id)
    &&& ids.len() == txs.len()
    &&& 0 < ids.len() <= batch_size
    &&& rn <= ids.len()
    &&& state.timeline_id <= new_timeline_id
    &&& forall|k: int| 0 <= k < rn ==> ((#[trigger] ids[k]), txs[k]@) == retry[k]
    &&& forall|k: int|
        rn <= k < ids.len() ==> ready_id_in(pool.entries(), #[trigger] ids[k]) && ids[k]
            > state.timeline_id && txs[k]@ == txn_for_id(pool.entries(), ids[k])
    &&& forall|k1: int, k2: int| rn <= k1 < k2 < ids.len() ==> ids[k1] < ids[k2]
    &&& (retry.len() < batch_size ==> {
        &&& (ids.len() == rn ==> new_timeline_id == state.timeline_id)
        &&& (ids.len() > rn ==> new_timeline_id == ids[ids.len() - 1])
        &&& forall|id: u64|
            #[trigger] ready_id_in(pool.entries(), id) && id > state.timeline_id ==> (exists|
                k: int,
            | rn <= k < ids.len() && #[trigger] ids[k] == id) || (ids.len() == batch_size && id
                > new_timeline_id)
    })
    &&& (retry.len() >= batch_size ==> ids.len() == batch_size && new_timeline_id
        == state.timeline_id)
}

/// Decides one broadcast tick for a peer, as the scheduler dispatched it
/// (`dispatched_backoff`) and as the peer-picking policy chose
/// (`is_picked`). An unpicked peer is skipped without backoff; a dead peer
/// is skipped keeping its backoff mode; a tick dispatched as normal cadence
/// while the peer has entered backoff is dropped. Otherwise the decision is
/// a send exactly when something is broadcastable, and the batch is
/// `batch_assembled`: the flagged-for-retry entries still live, padded with
/// the in-order fresh timeline prefix past the peer's position, up to
/// `batch_size`. Once an acknowledgement turns backoff on, every following
/// decision for the peer carries the backoff flag until an acknowledgement
/// turns it off.
#[verifier::rlimit(100)]
pub fn broadcast_single_peer(
    pool: &CoreMempool,
    state: &PeerState,
    is_picked: bool,
    dispatched_backoff: bool,
    batch_size: usize,
) -> (r: BroadcastAction)
    requires
        pool.wf(),
        state.wf(),
    ensures
        !is_picked ==> r == (BroadcastAction::Skip { backoff: false }),
        is_picked && !state.is_alive ==> r == (BroadcastAction::Skip {
            backoff: state.broadcast_info.backoff_mode,
        }),
        is_picked && state.is_alive && !dispatched_backoff && state.broadcast_info.backoff_mode
            ==> r == (BroadcastAction::Skip { backoff: true }),
        is_picked && state.is_alive && state.broadcast_info.backoff_mode ==> action_backoff(r),
        is_picked && state.is_alive && (dispatched_backoff || !state.broadcast_info.backoff_mode)
            && batch_size >= 1 && has_broadcastable(*pool, *state) ==> r is Send,
        is_picked && state.is_alive && (dispatched_backoff || !state.broadcast_info.backoff_mode)
            ==> match r {
            BroadcastAction::Skip { backoff } => backoff == state.broadcast_info.backoff_mode,
            BroadcastAction::Send {
                batch_id,
                request_id,
                timeline_ids,
                transactions,
                new_timeline_id,
                backoff,
            } => batch_assembled(
                *pool,
                *state,
                batch_size as int,
                batch_id,
                request_id@,
                timeline_ids@,
                transactions@,
                new_timeline_id,
                backoff,
            ),
        },
{
    if !is_picked {
        return BroadcastAction::Skip { backoff: false };
    }
    let next_backoff = state.broadcast_info.backoff_mode;
    if !state.is_alive {
        return BroadcastAction::Skip { backoff: next_backoff };
    }
    if !dispatched_backoff && next_backoff {
        return BroadcastAction::Skip { backoff: next_backoff };
    }

    let ghost retry_spec = spec_filter_timeline(
        pool.entries(),
        state.broadcast_info.total_retry_txns@,
    );
    let retry_ids = vstd::slice::slice_to_vec(state.broadcast_info.total_retry_txns.as_slice());
    let retry = pool.filter_read_timeline(retry_ids);
    proof {
        lemma_spec_filter_elements(pool.entries(), state.broadcast_info.total_retry_txns@);
        assert(retry@.len() == retry_spec.len());
    }
    let (fresh, new_timeline_id) = if retry.len() < batch_size {
        pool.read_timeline(state.timeline_id, batch_size - retry.len())
    } else {
        (Vec::new(), state.timeline_id)
    };

    let mut timeline_ids: Vec<u64> = Vec::new();
    let mut transactions: Vec<Txn> = Vec::new();
    let mut i: usize = 0;
    while i < retry.len() && timeline_ids.len() < batch_size
        invariant
            pool.wf(),
            i <= retry@.len(),
            retry@.len() == retry_spec.len(),
            forall|k: int|
                0 <= k < retry@.len() ==> ((#[trigger] retry@[k]).0, retry@[k].1@) == retry_spec[k],
            timeline_ids@.len() == i,
            timeline_ids@.len() == transactions@.len(),
            timeline_ids@.len() <= batch_size,
            forall|k: int|
                0 <= k < i ==> ((#[trigger] timeline_ids@[k]), transactions@[k]@) == retry_spec[k],
        decreases retry@.len() - i,
    {
        timeline_ids.push(retry[i].0);
        transactions.push(retry[i].1.clone());
        i += 1;
    }
    let ghost rn = i as int;
    proof {
        assert(rn == if retry_spec.len() <= batch_size {
            retry_spec.len() as int
        } else {
            batch_size as int
        });
    }
    let mut j: usize = 0;
    while j < fresh.len() && timeline_ids.len() < batch_size
        invariant
            pool.wf(),
            j <= fresh@.len(),
            retry@.len() < batch_size ==> fresh@.len() <= batch_size - retry@.len(),
            retry@.len() >= batch_size ==> fresh@.len() == 0,
            rn == if retry_spec.len() <= batch_size {
                retry_spec.len() as int
            } else {
                batch_size as int
            },
            retry@.len() == retry_spec.len(),
            timeline_ids@.len() == rn + j,
            timeline_ids@.len() == transactions@.len(),
            timeline_ids@.len() <= batch_size,
            forall|k: int|
                0 <= k < rn ==> ((#[trigger] timeline_ids@[k]), transactions@[k]@) == retry_spec[k],
            forall|k: int|
                0 <= k < j ==> #[trigger] timeline_ids@[rn + k] == fresh@[k].0
                    && transactions@[rn + k]@ == fresh@[k].1@,
        decreases fresh@.len() - j,
    {
        timeline_ids.push(fresh[j].0);
        transactions.push(fresh[j].1.clone());
        proof {
            assert(timeline_ids@[rn + j] == fresh@[j as int].0);
            assert(transactions@[rn + j]@ == fresh@[j as int].1@);
            assert(forall|k: int|
                0 <= k < rn ==> ((#[trigger] timeline_ids@[k]), transactions@[k]@)
                    == retry_spec[k]);
        }
        j += 1;
    }

    if timeline_ids.len() == 0 {
        proof {
            if batch_size >= 1 {
                assert(retry_spec.len() == 0);
                if exists|id: u64|
                    #[trigger] ready_id_in(pool.entries(), id) && id > state.timeline_id {
                    let id = choose|id: u64|
                        #[trigger] ready_id_in(pool.entries(), id) && id > state.timeline_id;
                    assert(fresh@.len() >= 1);
                    assert(false);
                }
                assert(!has_broadcastable(*pool, *state));
            }
        }
        return BroadcastAction::Skip { backoff: next_backoff };
    }
    let batch_id = BatchId(state.timeline_id, new_timeline_id);
    let request_id = serialize_batch_id(&batch_id);
    proof {
        assert forall|k: int|
            rn <= k < timeline_ids@.len() implies ready_id_in(
            pool.entries(),
            #[trigger] timeline_ids@[k],
        ) && timeline_ids@[k] > state.timeline_id && transactions@[k]@ == txn_for_id(
            pool.entries(),
            timeline_ids@[k],
        ) by {
            let f = k - rn;
            assert(timeline_ids@[rn + f] == fresh@[f].0);
            assert(transactions@[rn + f]@ == fresh@[f].1@);
        }
        assert forall|k1: int, k2: int|
            rn <= k1 < k2 < timeline_ids@.len() implies timeline_ids@[k1] < timeline_ids@[k2] by {
            let f1 = k1 - rn;
            let f2 = k2 - rn;
            assert(timeline_ids@[rn + f1] == fresh@[f1].0);
            assert(timeline_ids@[rn + f2] == fresh@[f2].0);
        }
        if retry@.len() >= batch_size {
            assert(timeline_ids@.len() == batch_size);
            assert(new_timeline_id == state.timeline_id);
        }
        if retry@.len() < batch_size {
            assert(j == fresh@.len());
            if timeline_ids@.len() == rn {
                assert(fresh@.len() == 0);
                assert(new_timeline_id == state.timeline_id);
            } else {
                assert(fresh@.len() > 0);
                assert(new_timeline_id == fresh@[fresh@.len() - 1].0);
                assert(timeline_ids@[rn + (fresh@.len() - 1)] == fresh@[fresh@.len() - 1].0);
                assert(timeline_ids@[timeline_ids@.len() - 1] == fresh@[fresh@.len() - 1].0);
                assert(new_timeline_id > state.timeline_id);
            }
            assert forall|id: u64|
                #[trigger] ready_id_in(pool.entries(), id) && id > state.timeline_id implies (
            exists|k: int| rn <= k < timeline_ids@.len() && #[trigger] timeline_ids@[k] == id) || (
            timeline_ids@.len() == batch_size && id > new_timeline_id) by {
                if exists|k: int| 0 <= k < fresh@.len() && (#[trigger] fresh@[k]).0 == id {
                    let k = choose|k: int| 0 <= k < fresh@.len() && (#[trigger] fresh@[k]).0 == id;
                    assert(timeline_ids@[rn + k] == id);
                } else {
                    assert(fresh@.len() == batch_size - retry@.len());
                    assert(id > new_timeline_id);
                    assert(timeline_ids@.len() == batch_size);
                }
            }
        }
        assert(batch_assembled(
            *pool,
            *state,
            batch_size as int,
            batch_id,
            request_id@,
            timeline_ids@,
            transactions@,
            new_timeline_id,
            next_backoff,
        ));
    }
    BroadcastAction::Send {
        batch_id,
        request_id,
        timeline_ids,
        transactions,
        new_timeline_id,
        backoff: next_backoff,
    }
}

/// Decides one broadcast tick and the interval to the next one: the backoff
/// cadence exactly when the decision carries the backoff flag. The decision
/// itself is `broadcast_single_peer`'s: a send, with the assembled batch,
/// exactly when the peer is picked, alive, not dropped by backoff
/// stickiness, and something is broadcastable.
pub fn execute_broadcast(
    pool: &CoreMempool,
    state: &PeerState,
    is_picked: bool,
    dispatched_backoff: bool,
    batch_size: usize,
    tick_interval_ms: u64,
    backoff_interval_ms: u64,
) -> (r: (BroadcastAction, u64))
    requires
        pool.wf(),
        state.wf(),
    ensures
        r.1 == if action_backoff(r.0) {
            backoff_interval_ms
        } else {
            tick_interval_ms
        },
        !is_picked ==> r.0 == (BroadcastAction::Skip { backoff: false }),
        is_picked && !state.is_alive ==> r.0 == (BroadcastAction::Skip {
            backoff: state.broadcast_info.backoff_mode,
        }),
        is_picked && state.is_alive && !dispatched_backoff && state.broadcast_info.backoff_mode
            ==> r.0 == (BroadcastAction::Skip { backoff: true }),
        is_picked && state.is_alive && state.broadcast_info.backoff_mode ==> action_backoff(r.0)
            && r.1 == backoff_interval_ms,
        is_picked && state.is_alive && (dispatched_backoff || !state.broadcast_info.backoff_mode)
            && batch_size >= 1 && has_broadcastable(*pool, *state) ==> r.0 is Send,
        is_picked && state.is_alive && (dispatched_backoff || !state.broadcast_info.backoff_mode)
            ==> match r.0 {
            BroadcastAction::Skip { backoff } => backoff == state.broadcast_info.backoff_mode,
            BroadcastAction::Send {
                batch_id,
                request_id,
                timeline_ids,
                transactions,
                new_timeline_id,
                backoff,
            } => batch_assembled(
                *pool,
                *state,
                batch_size as int,
                batch_id,
                request_id@,
                timeline_ids@,
                transactions@,
                new_timeline_id,
                backoff,
            ),
        },
{
    let action = broadcast_single_peer(pool, state, is_picked, dispatched_backoff, batch_size);
    let backoff = match &action {
        BroadcastAction::Skip { backoff } => *backoff,
        BroadcastAction::Send { backoff, .. } => *backoff,
    };
    let interval = if backoff {
        backoff_interval_ms
    } else {
        tick_interval_ms
    };
    (action, interval)
}

/// A committed (or rejected) pointer takes the pool entry at (s, q) out.
pub open spec fn commit_removes(
    txns: Seq<CommittedTransaction>,
    is_rejected: bool,
    s: AccountAddress,
    q: u64,
) -> bool {
    exists|i: int|
        0 <= i < txns.len() && (#[trigger] txns[i]).sender == s && (if is_rejected {
            q >= txns[i].sequence_number
        } else {
            q <= txns[i].sequence_number
        })
}

/// Removes the listed transactions from the pool — on a commit, each
/// sender's entries up to the committed sequence; on a rejection, each
/// sender's entries from the rejected sequence on — and, when the block
/// timestamp is known, collects entries expired at that time.
pub fn commit_txns(
    pool: &mut CoreMempool,
    transactions: &Vec<CommittedTransaction>,
    block_timestamp_usecs: u64,
    is_rejected: bool,
)
    requires
        old(pool).wf(),
        !is_rejected ==> forall|i: int|
            0 <= i < transactions@.len() ==> (#[trigger] transactions@[i]).sequence_number
                < u64::MAX,
        old(pool).next_timeline_id() + (old(pool).capacity() + 1) * (transactions@.len() + 1)
            <= u64::MAX,
    ensures
        final(pool).wf(),
        final(pool).capacity() == old(pool).capacity(),
        final(pool).max_per_sender() == old(pool).max_per_sender(),
        final(pool).next_insertion_order() == old(pool).next_insertion_order(),
        forall|s: AccountAddress, q: u64|
            #![trigger final(pool).has_entry(s, q)]
            #![trigger old(pool).has_entry(s, q)]
            final(pool).has_entry(s, q) <==> (old(pool).has_entry(s, q) && !commit_removes(
                transactions@,
                is_rejected,
                s,
                q,
            ) && (block_timestamp_usecs > 0 ==> old(pool).entry_of(s, q).txn.expiration_time
                > block_timestamp_usecs)),
        forall|s: AccountAddress, q: u64|
            #[trigger] final(pool).has_entry(s, q) ==> final(pool).entry_of(s, q).txn == old(pool).entry_of(s, q).txn,
        block_timestamp_usecs > 0 ==> forall|i: int|
            0 <= i < final(pool).entries().len() ==> (#[trigger] final(pool).entries()[i]).txn.expiration_time > block_timestamp_usecs,
{
    let n = transactions.len();
    let mut i: usize = 0;
    while i < n
        invariant
            pool.wf(),
            n == transactions@.len(),
            i <= n,
            pool.capacity() == old(pool).capacity(),
            pool.max_per_sender() == old(pool).max_per_sender(),
            pool.next_insertion_order() == old(pool).next_insertion_order(),
            !is_rejected ==> forall|k: int|
                0 <= k < n ==> (#[trigger] transactions@[k]).sequence_number < u64::MAX,
            pool.next_timeline_id() + (pool.capacity() + 1) * (n - i + 1) <= u64::MAX,
            forall|s: AccountAddress, q: u64|
                #![trigger pool.has_entry(s, q)]
                #![trigger old(pool).has_entry(s, q)]
                pool.has_entry(s, q) <==> (old(pool).has_entry(s, q) && !(exists|k: int|
                    0 <= k < i && (#[trigger] transactions@[k]).sender == s && (if is_rejected {
                        q >= transactions@[k].sequence_number
                    } else {
                        q <= transactions@[k].sequence_number
                    }))),
            forall|s: AccountAddress, q: u64|
                #[trigger] pool.has_entry(s, q) ==> pool.entry_of(s, q).txn == old(pool).entry_of(
                    s,
                    q,
                ).txn,
        decreases n - i,
    {
        let ghost pre = *pool;
        let sender = transactions[i].sender;
        let seqno = transactions[i].sequence_number;
        proof {
            assert((pool.capacity() + 1) * (n - i + 1) >= (pool.capacity() + 1) + (pool.capacity()
                + 1) * (n - i)) by (nonlinear_arith)
                requires
                    pool.capacity() >= 0,
                    n - i >= 1,
            ;
        }
        pool.remove_transaction(&sender, seqno, is_rejected);
        proof {
            assert((pool.capacity() + 1) * (n - i) >= 0) by (nonlinear_arith)
                requires
                    pool.capacity() >= 0,
                    n - i >= 0,
            ;
            assert forall|s: AccountAddress, q: u64|
                #![trigger pool.has_entry(s, q)]
                #![trigger old(pool).has_entry(s, q)]
                pool.has_entry(s, q) <==> (old(pool).has_entry(s, q) && !(exists|k: int|
                    0 <= k < i + 1 && (#[trigger] transactions@[k]).sender == s && (if is_rejected {
                        q >= transactions@[k].sequence_number
                    } else {
                        q <= transactions@[k].sequence_number
                    }))) by {
                if pool.has_entry(s, q) {
                    assert(pre.has_entry(s, q));
                    assert forall|k: int|
                        0 <= k < i + 1 implies !((#[trigger] transactions@[k]).sender == s && (
                    if is_rejected {
                        q >= transactions@[k].sequence_number
                    } else {
                        q <= transactions@[k].sequence_number
                    })) by {
                        if k == i {
                            assert(!crate::core_mempool::removes(
                                sender,
                                seqno,
                                is_rejected,
                                s,
                                q,
                            ));
                        }
                    }
                }
                if old(pool).has_entry(s, q) && !(exists|k: int|
                    0 <= k < i + 1 && (#[trigger] transactions@[k]).sender == s && (if is_rejected {
                        q >= transactions@[k].sequence_number
                    } else {
                        q <= transactions@[k].sequence_number
                    })) {
                    assert(forall|k: int|
                        0 <= k < i ==> !((#[trigger] transactions@[k]).sender == s && (
                        if is_rejected {
                            q >= transactions@[k].sequence_number
                        } else {
                            q <= transactions@[k].sequence_number
                        })));
                    assert(pre.has_entry(s, q));
                    assert(!crate::core_mempool::removes(sender, seqno, is_rejected, s, q));
                }
            }
            assert forall|s: AccountAddress, q: u64| #[trigger] pool.has_entry(s, q) implies pool.entry_of(
                s,
                q,
            ).txn == old(pool).entry_of(s, q).txn by {
                assert(pre.has_entry(s, q));
                assert(same_except_timeline_txn(pool.entry_of(s, q), pre.entry_of(s, q)));
            }
        }
        i += 1;
    }
    if block_timestamp_usecs > 0 {
        let ghost pre = *pool;
        pool.gc_by_expiration_time(block_timestamp_usecs);
        proof {
            assert forall|s: AccountAddress, q: u64|
                #![trigger pool.has_entry(s, q)]
                #![trigger old(pool).has_entry(s, q)]
                pool.has_entry(s, q) <==> (old(pool).has_entry(s, q) && !commit_removes(
                    transactions@,
                    is_rejected,
                    s,
                    q,
                ) && old(pool).entry_of(s, q).txn.expiration_time > block_timestamp_usecs) by {
                if pool.has_entry(s, q) {
                    assert(pre.has_entry(s, q));
                    assert(pre.entry_of(s, q).txn.expiration_time > block_timestamp_usecs);
                }
                if old(pool).has_entry(s, q) && !commit_removes(transactions@, is_rejected, s, q)
                    && old(pool).entry_of(s, q).txn.expiration_time > block_timestamp_usecs {
                    assert(pre.has_entry(s, q));
                    assert(pre.entry_of(s, q).txn.expiration_time > block_timestamp_usecs);
                }
            }
            assert forall|s: AccountAddress, q: u64| #[trigger] pool.has_entry(
                s,
                q,
            ) implies pool.entry_of(s, q).txn == old(pool).entry_of(s, q).txn by {
                assert(pre.has_entry(s, q));
                assert(crate::core_mempool::same_except_timeline(
                    pool.entry_of(s, q),
                    pre.entry_of(s, q),
                ));
            }
        }
    }
}

/// Helper: the two entries carry the same transaction.
pub open spec fn same_except_timeline_txn(a: PoolEntryView, b: PoolEntryView) -> bool {
    a.txn == b.txn
}

/// Everything a block pull guarantees: the pool kept exactly its unexpired
/// entries (payloads intact), and the response is a distinct, block-ordered,
/// complete selection of up to `max(max_block_size, 1)` ready entries not
/// named by the exclusion list.
pub open spec fn block_pull_ok(
    pre: CoreMempool,
    post: CoreMempool,
    max_block_size: u64,
    exclude_txns: Seq<TransactionSummary>,
    txns: Seq<Txn>,
    now: u64,
) -> bool {
    &&& txns.len() <= spec_max_u64(max_block_size, 1)
    &&& forall|k: int|
        0 <= k < txns.len() ==> #[trigger] post.has_entry(txns[k].sender, txns[k].sequence_number)
            && post.entry_of(txns[k].sender, txns[k].sequence_number).txn == txns[k]@
            && post.entry_of(txns[k].sender, txns[k].sequence_number).is_ready() && !(exists|
            i: int,
        |
            0 <= i < exclude_txns.len() && (#[trigger] exclude_txns[i]).sender == txns[k].sender
                && exclude_txns[i].sequence_number == txns[k].sequence_number)
    &&& forall|k1: int, k2: int|
        0 <= k1 < k2 < txns.len() ==> !((#[trigger] txns[k1]).sender == (#[trigger] txns[k2]).sender
            && txns[k1].sequence_number == txns[k2].sequence_number)
    &&& forall|k1: int, k2: int|
        0 <= k1 < k2 < txns.len() ==> block_before(
            post.entry_of((#[trigger] txns[k1]).sender, txns[k1].sequence_number),
            post.entry_of((#[trigger] txns[k2]).sender, txns[k2].sequence_number),
        )
    &&& forall|i: int|
        0 <= i < post.entries().len() && (#[trigger] post.entries()[i]).is_ready() && !(exists|
            i2: int,
        |
            0 <= i2 < exclude_txns.len() && (#[trigger] exclude_txns[i2]).sender
                == post.entries()[i].sender() && exclude_txns[i2].sequence_number
                == post.entries()[i].seq()) ==> (exists|k: int|
            0 <= k < txns.len() && (#[trigger] txns[k]).sender == post.entries()[i].sender()
                && txns[k].sequence_number == post.entries()[i].seq()) || (txns.len()
            == spec_max_u64(max_block_size, 1) && (txns.len() == 0 || block_before(
            post.entry_of(txns[txns.len() - 1].sender, txns[txns.len() - 1].sequence_number),
            post.entries()[i],
        )))
    &&& forall|s: AccountAddress, q: u64|
        #![trigger post.has_entry(s, q)]
        #![trigger pre.has_entry(s, q)]
        post.has_entry(s, q) <==> (pre.has_entry(s, q) && pre.entry_of(s, q).txn.expiration_time
            > now)
    &&& forall|s: AccountAddress, q: u64|
        #[trigger] post.has_entry(s, q) ==> post.entry_of(s, q).txn == pre.entry_of(s, q).txn
    &&& forall|i: int|
        0 <= i < post.entries().len() ==> (#[trigger] post.entries()[i]).txn.expiration_time > now
}

/// Serves one consensus request. A block pull first collects entries expired
/// at `now`, then pulls up to `max(max_block_size, 1)` eligible entries in
/// the block order, excluding the listed pointers and leaving the pool
/// unchanged otherwise. A reject notification removes each rejected
/// sender's entries from the rejected sequence on.
#[verifier::rlimit(100)]
pub fn process_consensus_request(pool: &mut CoreMempool, req: ConsensusRequest, now: u64) -> (r:
    ConsensusResponse)
    requires
        old(pool).wf(),
        match req {
            ConsensusRequest::GetBlockRequest(_, _) => true,
            ConsensusRequest::RejectNotification(txns) => old(pool).next_timeline_id() + (old(pool).capacity() + 1) * (txns@.len() + 1) <= u64::MAX,
        },
    ensures
        final(pool).wf(),
        final(pool).capacity() == old(pool).capacity(),
        final(pool).max_per_sender() == old(pool).max_per_sender(),
        match req {
            ConsensusRequest::GetBlockRequest(max_block_size, exclude_txns) => {
                &&& r matches ConsensusResponse::GetBlockResponse(txns)
                &&& (r matches ConsensusResponse::GetBlockResponse(txns) ==> block_pull_ok(
                    *old(pool),
                    *final(pool),
                    max_block_size,
                    exclude_txns@,
                    txns@,
                    now,
                ))
            },
            ConsensusRequest::RejectNotification(txns) => {
                &&& r is CommitResponse
                &&& forall|s: AccountAddress, q: u64|
                    #![trigger final(pool).has_entry(s, q)]
                    #![trigger old(pool).has_entry(s, q)]
                    final(pool).has_entry(s, q) <==> (old(pool).has_entry(s, q) && !commit_removes(
                        txns@,
                        true,
                        s,
                        q,
                    ))
            },
        },
{
    match req {
        ConsensusRequest::GetBlockRequest(max_block_size, exclude_txns) => {
            pool.gc_by_expiration_time(now);
            let block_size: u64 = if max_block_size >= 1 {
                max_block_size
            } else {
                1
            };
            let mut exclude: Vec<TxnPointer> = Vec::new();
            let n = exclude_txns.len();
            let mut i: usize = 0;
            while i < n
                invariant
                    n == exclude_txns@.len(),
                    i <= n,
                    exclude@.len() == i,
                    forall|k: int|
                        0 <= k < i ==> #[trigger] exclude@[k] == (
                            exclude_txns@[k].sender,
                            exclude_txns@[k].sequence_number,
                        ),
                decreases n - i,
            {
                exclude.push((exclude_txns[i].sender, exclude_txns[i].sequence_number));
                i += 1;
            }
            let txns = pool.get_block(block_size, &exclude);
            proof {
                assert forall|k: int| 0 <= k < txns@.len() implies !(exists|i2: int|
                    0 <= i2 < exclude_txns@.len() && (#[trigger] exclude_txns@[i2]).sender
                        == (#[trigger] txns@[k]).sender && exclude_txns@[i2].sequence_number
                        == txns@[k].sequence_number) by {
                    if exists|i2: int|
                        0 <= i2 < exclude_txns@.len() && (#[trigger] exclude_txns@[i2]).sender
                            == txns@[k].sender && exclude_txns@[i2].sequence_number
                            == txns@[k].sequence_number {
                        let i2 = choose|i2: int|
                            0 <= i2 < exclude_txns@.len() && (#[trigger] exclude_txns@[i2]).sender
                                == txns@[k].sender && exclude_txns@[i2].sequence_number
                                == txns@[k].sequence_number;
                        assert(exclude@[i2] == (txns@[k].sender, txns@[k].sequence_number));
                        assert(excluded_in(exclude@, txns@[k].sender, txns@[k].sequence_number));
                        assert(pool.has_entry(txns@[k].sender, txns@[k].sequence_number));
                        assert(false);
                    }
                }
                assert forall|i: int|
                    0 <= i < pool.entries().len() && (#[trigger] pool.entries()[i]).is_ready()
                        && !(exists|i2: int|
                        0 <= i2 < exclude_txns@.len() && (#[trigger] exclude_txns@[i2]).sender
                            == pool.entries()[i].sender() && exclude_txns@[i2].sequence_number
                            == pool.entries()[i].seq()) implies (exists|k: int|
                    0 <= k < txns@.len() && (#[trigger] txns@[k]).sender
                        == pool.entries()[i].sender() && txns@[k].sequence_number
                        == pool.entries()[i].seq()) || (txns@.len() == spec_max_u64(
                    max_block_size,
                    1,
                ) && (txns@.len() == 0 || block_before(
                    pool.entry_of(
                        txns@[txns@.len() - 1].sender,
                        txns@[txns@.len() - 1].sequence_number,
                    ),
                    pool.entries()[i],
                ))) by {
                    if excluded_in(exclude@, pool.entries()[i].sender(), pool.entries()[i].seq()) {
                        let i2 = choose|i2: int|
                            0 <= i2 < exclude@.len() && #[trigger] exclude@[i2] == (
                                pool.entries()[i].sender(),
                                pool.entries()[i].seq(),
                            );
                        assert(exclude_txns@[i2].sender == pool.entries()[i].sender()
                            && exclude_txns@[i2].sequence_number == pool.entries()[i].seq());
                        assert(false);
                    }
                }
                assert forall|s: AccountAddress, q: u64| #[trigger] pool.has_entry(
                    s,
                    q,
                ) implies pool.entry_of(s, q).txn == old(pool).entry_of(s, q).txn by {
                    assert(crate::core_mempool::same_except_timeline(
                        pool.entry_of(s, q),
                        old(pool).entry_of(s, q),
                    ));
                }
                assert(block_pull_ok(
                    *old(pool),
                    *pool,
                    max_block_size,
                    exclude_txns@,
                    txns@,
                    now,
                ));
            }
            ConsensusResponse::GetBlockResponse(txns)
        },
        ConsensusRequest::RejectNotification(txns) => {
            commit_txns(pool, &txns, 0, true);
            ConsensusResponse::CommitResponse
        },
    }
}

/// Serves a state-sync commit notification: removes each committed sender's
/// entries up to the committed sequence and, when the block timestamp is
/// known, collects entries expired at that time.
pub fn process_state_sync_request(pool: &mut CoreMempool, req: CommitNotification) -> (r:
    CommitResponse)
    requires
        old(pool).wf(),
        forall|i: int|
            0 <= i < req.transactions@.len()
                ==> (#[trigger] req.transactions@[i]).sequence_number < u64::MAX,
        old(pool).next_timeline_id() + (old(pool).capacity() + 1) * (req.transactions@.len() + 1)
            <= u64::MAX,
    ensures
        final(pool).wf(),
        final(pool).capacity() == old(pool).capacity(),
        final(pool).max_per_sender() == old(pool).max_per_sender(),
        r.success,
        forall|s: AccountAddress, q: u64|
            #![trigger final(pool).has_entry(s, q)]
            #![trigger old(pool).has_entry(s, q)]
            final(pool).has_entry(s, q) <==> (old(pool).has_entry(s, q) && !commit_removes(
                req.transactions@,
                false,
                s,
                q,
            ) && (req.block_timestamp_usecs > 0 ==> old(pool).entry_of(s, q).txn.expiration_time
                > req.block_timestamp_usecs)),
        forall|s: AccountAddress, q: u64|
            #[trigger] final(pool).has_entry(s, q) ==> final(pool).entry_of(s, q).txn == old(pool).entry_of(s, q).txn,
        req.block_timestamp_usecs > 0 ==> forall|i: int|
            0 <= i < final(pool).entries().len() ==> (#[trigger] final(pool).entries()[i]).txn.expiration_time > req.block_timestamp_usecs,
{
    commit_txns(pool, &req.transactions, req.block_timestamp_usecs, false);
    CommitResponse { success: true }
}

} // verus!
