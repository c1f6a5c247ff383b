use shared_mempool::account_address::AccountAddress;
use shared_mempool::core_mempool::CoreMempool;
use shared_mempool::status::{DiscardedVMStatus, MempoolStatusCode};
use shared_mempool::tasks::{
    commit_txns, gen_ack_response, is_txn_retryable, process_client_transaction_submission,
    process_consensus_request, process_incoming_transactions, process_state_sync_request,
    process_transaction_broadcast, CommitNotification, CommittedTransaction, ConsensusRequest,
    ConsensusResponse, MempoolSyncMsg, TransactionSummary, ValidationResult,
};
use shared_mempool::transaction::{GovernanceRole, TimelineState, Txn};

fn addr(x: u128) -> AccountAddress {
    AccountAddress::new(x)
}

fn txn(sender: u128, seq: u64, exp: u64, fp: u8) -> Txn {
    Txn::new(addr(sender), seq, 100, exp, vec![fp])
}

fn ok_validation(score: u64) -> Option<ValidationResult> {
    Some(ValidationResult {
        score,
        governance_role: GovernanceRole::NonGovernance,
        status: None,
    })
}

fn status_of(
    pool: &mut CoreMempool,
    t: Txn,
    lookup: Option<u64>,
    validation: Option<ValidationResult>,
) -> (MempoolStatusCode, Option<DiscardedVMStatus>) {
    let st = process_client_transaction_submission(pool, t, lookup, validation);
    (st.0.code, st.1)
}

#[test]
fn ingress_statuses_cover_every_stage() {
    let mut pool = CoreMempool::new(100, 10);
    // storage miss
    let (code, vm) = status_of(&mut pool, txn(1, 0, 9999, 0), None, ok_validation(1));
    assert_eq!(code, MempoolStatusCode::VmError);
    assert_eq!(vm, Some(DiscardedVMStatus::ResourceDoesNotExist));
    // stale sequence
    let (code, vm) = status_of(&mut pool, txn(1, 0, 9999, 0), Some(3), ok_validation(1));
    assert_eq!(code, MempoolStatusCode::VmError);
    assert_eq!(vm, Some(DiscardedVMStatus::SequenceNumberTooOld));
    // validator failure
    let (code, vm) = status_of(&mut pool, txn(1, 0, 9999, 0), Some(0), None);
    assert_eq!(code, MempoolStatusCode::VmError);
    assert_eq!(vm, None);
    // validation status
    let bad = Some(ValidationResult {
        score: 0,
        governance_role: GovernanceRole::NonGovernance,
        status: Some(DiscardedVMStatus::Validation(7)),
    });
    let (code, vm) = status_of(&mut pool, txn(1, 0, 9999, 0), Some(0), bad);
    assert_eq!(code, MempoolStatusCode::VmError);
    assert_eq!(vm, Some(DiscardedVMStatus::Validation(7)));
    // clean admission
    let (code, vm) = status_of(&mut pool, txn(1, 0, 9999, 0), Some(0), ok_validation(1));
    assert_eq!(code, MempoolStatusCode::Accepted);
    assert_eq!(vm, None);
}

#[test]
fn retryable_statuses_and_ack_assembly() {
    let mut pool = CoreMempool::new(1, 10);
    let txns = vec![txn(1, 0, 9999, 0), txn(2, 0, 9999, 1)];
    let lookups = vec![Some(0), Some(0)];
    let validations = vec![ok_validation(1), ok_validation(1)];
    let (results, ack) = process_transaction_broadcast(
        &mut pool,
        txns,
        &lookups,
        &validations,
        vec![9, 9],
    );
    // first fills the single slot; second finds the pool full
    assert_eq!(results[0].1 .0.code, MempoolStatusCode::Accepted);
    assert_eq!(results[1].1 .0.code, MempoolStatusCode::MempoolIsFull);
    assert!(!is_txn_retryable(results[0].1));
    assert!(is_txn_retryable(results[1].1));
    match ack {
        MempoolSyncMsg::BroadcastTransactionsResponse { request_id, retry_txns, backoff } => {
            assert_eq!(request_id, vec![9, 9]);
            assert_eq!(retry_txns, vec![1]);
            assert!(backoff);
        },
        MempoolSyncMsg::BroadcastTransactionsRequest { .. } => panic!("expected a response"),
    }
}

#[test]
fn ack_without_full_pool_has_no_backoff() {
    let results = Vec::new();
    match gen_ack_response(vec![1], &results) {
        MempoolSyncMsg::BroadcastTransactionsResponse { retry_txns, backoff, .. } => {
            assert!(retry_txns.is_empty());
            assert!(!backoff);
        },
        MempoolSyncMsg::BroadcastTransactionsRequest { .. } => panic!("expected a response"),
    }
}

#[test]
fn batch_statuses_follow_input_order() {
    let mut pool = CoreMempool::new(100, 10);
    let txns = vec![txn(1, 5, 9999, 0), txn(2, 0, 9999, 1)];
    let lookups = vec![Some(9), Some(0)];
    let validations = vec![ok_validation(1), ok_validation(1)];
    let statuses = process_incoming_transactions(
        &mut pool,
        txns,
        &lookups,
        &validations,
        TimelineState::Ready,
    );
    assert_eq!(statuses.len(), 2);
    assert_eq!(statuses[0].0.sender.value, 1);
    assert_eq!(statuses[0].1 .0.code, MempoolStatusCode::VmError);
    assert_eq!(statuses[1].0.sender.value, 2);
    assert_eq!(statuses[1].1 .0.code, MempoolStatusCode::Accepted);
}

#[test]
fn consensus_block_pull_gc_then_order() {
    let mut pool = CoreMempool::new(100, 10);
    let st = process_client_transaction_submission(&mut pool, txn(1, 0, 500, 0), Some(0), ok_validation(1));
    assert_eq!(st.0.code, MempoolStatusCode::Accepted);
    let st = process_client_transaction_submission(&mut pool, txn(2, 0, 9999, 1), Some(0), ok_validation(5));
    assert_eq!(st.0.code, MempoolStatusCode::Accepted);
    // pulling at time 1000 first drops the expired entry of sender 1
    let resp = process_consensus_request(
        &mut pool,
        ConsensusRequest::GetBlockRequest(10, Vec::new()),
        1000,
    );
    match resp {
        ConsensusResponse::GetBlockResponse(block) => {
            assert_eq!(block.len(), 1);
            assert_eq!(block[0].sender.value, 2);
        },
        ConsensusResponse::CommitResponse => panic!("expected a block"),
    }
}

#[test]
fn consensus_block_pull_excludes_pointers() {
    let mut pool = CoreMempool::new(100, 10);
    let st = process_client_transaction_submission(&mut pool, txn(1, 0, 9999, 0), Some(0), ok_validation(1));
    assert_eq!(st.0.code, MempoolStatusCode::Accepted);
    let exclude = vec![TransactionSummary { sender: addr(1), sequence_number: 0 }];
    let resp = process_consensus_request(
        &mut pool,
        ConsensusRequest::GetBlockRequest(10, exclude),
        0,
    );
    match resp {
        ConsensusResponse::GetBlockResponse(block) => assert!(block.is_empty()),
        ConsensusResponse::CommitResponse => panic!("expected a block"),
    }
}

#[test]
fn consensus_reject_removes_suffix() {
    let mut pool = CoreMempool::new(100, 10);
    for seq in 0..3u64 {
        let st = process_client_transaction_submission(
            &mut pool,
            txn(1, seq, 9999, seq as u8),
            Some(0),
            ok_validation(1),
        );
        assert_eq!(st.0.code, MempoolStatusCode::Accepted);
    }
    let rejected = vec![CommittedTransaction { sender: addr(1), sequence_number: 1 }];
    let resp = process_consensus_request(
        &mut pool,
        ConsensusRequest::RejectNotification(rejected),
        0,
    );
    assert!(matches!(resp, ConsensusResponse::CommitResponse));
    let block = pool.get_block(10, &Vec::new());
    assert_eq!(block.len(), 1);
    assert_eq!(block[0].sequence_number, 0);
}

#[test]
fn state_sync_commit_removes_and_collects_expired() {
    // Two entries of sender A in the timeline; committing sequence 0 at a
    // block time past the survivor's expiration leaves nothing.
    let mut pool = CoreMempool::new(100, 10);
    let st = process_client_transaction_submission(&mut pool, txn(1, 0, 9999, 0), Some(0), ok_validation(1));
    assert_eq!(st.0.code, MempoolStatusCode::Accepted);
    let st = process_client_transaction_submission(&mut pool, txn(1, 1, 800_000, 1), Some(0), ok_validation(1));
    assert_eq!(st.0.code, MempoolStatusCode::Accepted);
    let req = CommitNotification {
        transactions: vec![CommittedTransaction { sender: addr(1), sequence_number: 0 }],
        block_timestamp_usecs: 1_000_000,
    };
    let resp = process_state_sync_request(&mut pool, req);
    assert!(resp.success);
    let block = pool.get_block(10, &Vec::new());
    assert!(block.is_empty());
}

#[test]
fn state_sync_commit_keeps_unexpired_survivor() {
    let mut pool = CoreMempool::new(100, 10);
    let st = process_client_transaction_submission(&mut pool, txn(1, 0, 9999, 0), Some(0), ok_validation(1));
    assert_eq!(st.0.code, MempoolStatusCode::Accepted);
    let st = process_client_transaction_submission(
        &mut pool,
        txn(1, 1, 2_000_000, 1),
        Some(0),
        ok_validation(1),
    );
    assert_eq!(st.0.code, MempoolStatusCode::Accepted);
    commit_txns(
        &mut pool,
        &vec![CommittedTransaction { sender: addr(1), sequence_number: 0 }],
        1_000_000,
        false,
    );
    let block = pool.get_block(10, &Vec::new());
    assert_eq!(block.len(), 1);
    assert_eq!(block[0].sequence_number, 1);
}

#[test]
fn block_pull_removes_nothing_unexpired() {
    let mut pool = CoreMempool::new(100, 10);
    let st = process_client_transaction_submission(&mut pool, txn(1, 0, 9999, 0), Some(0), ok_validation(1));
    assert_eq!(st.0.code, MempoolStatusCode::Accepted);
    // two pulls in a row see the same entry: pulling leaves the pool as it was
    for _ in 0..2 {
        let resp = process_consensus_request(
            &mut pool,
            ConsensusRequest::GetBlockRequest(10, Vec::new()),
            0,
        );
        match resp {
            ConsensusResponse::GetBlockResponse(block) => {
                assert_eq!(block.len(), 1);
                assert_eq!(block[0].sender.value, 1);
            },
            ConsensusResponse::CommitResponse => panic!("expected a block"),
        }
    }
}
