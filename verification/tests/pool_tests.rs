use shared_mempool::account_address::AccountAddress;
use shared_mempool::core_mempool::CoreMempool;
use shared_mempool::status::MempoolStatusCode;
use shared_mempool::transaction::{GovernanceRole, TimelineState, Txn};

fn addr(x: u128) -> AccountAddress {
    AccountAddress::new(x)
}

fn txn(sender: u128, seq: u64, exp: u64, fp: u8) -> Txn {
    Txn::new(addr(sender), seq, 100, exp, vec![fp])
}

fn add(pool: &mut CoreMempool, t: Txn, score: u64, committed: u64) -> MempoolStatusCode {
    pool.add_txn(t, 100, score, committed, TimelineState::NotReady, GovernanceRole::NonGovernance)
        .code
}

#[test]
fn client_submit_then_block_pull() {
    // Pool empty, committed sequence for A is 0; one submission is pulled back.
    let mut pool = CoreMempool::new(100, 10);
    let st = add(&mut pool, txn(1, 0, 9999, 7), 5, 0);
    assert_eq!(st, MempoolStatusCode::Accepted);
    let block = pool.get_block(10, &Vec::new());
    assert_eq!(block.len(), 1);
    assert_eq!(block[0].sender.value, 1);
    assert_eq!(block[0].sequence_number, 0);
}

#[test]
fn out_of_order_admission_assigns_timeline_in_sequence_order() {
    let mut pool = CoreMempool::new(100, 10);
    assert_eq!(add(&mut pool, txn(1, 2, 9999, 2), 1, 0), MempoolStatusCode::Accepted);
    assert_eq!(add(&mut pool, txn(1, 1, 9999, 1), 1, 0), MempoolStatusCode::Accepted);
    assert_eq!(add(&mut pool, txn(1, 0, 9999, 0), 1, 0), MempoolStatusCode::Accepted);
    let (batch, last) = pool.read_timeline(0, 10);
    assert_eq!(batch.len(), 3);
    // positions are handed out in sequence order, starting at 1
    assert_eq!(batch[0].0, 1);
    assert_eq!(batch[0].1.sequence_number, 0);
    assert_eq!(batch[1].0, 2);
    assert_eq!(batch[1].1.sequence_number, 1);
    assert_eq!(batch[2].0, 3);
    assert_eq!(batch[2].1.sequence_number, 2);
    assert_eq!(last, 3);
}

#[test]
fn sequence_gap_stays_buffered_until_bridged() {
    let mut pool = CoreMempool::new(100, 10);
    // sequence 2 with committed 0 is two ahead: buffered, not in the timeline
    assert_eq!(add(&mut pool, txn(1, 2, 9999, 2), 1, 0), MempoolStatusCode::Accepted);
    let (batch, last) = pool.read_timeline(0, 10);
    assert_eq!(batch.len(), 0);
    assert_eq!(last, 0);
    // bridging the gap promotes everything in order
    assert_eq!(add(&mut pool, txn(1, 1, 9999, 1), 1, 0), MempoolStatusCode::Accepted);
    assert_eq!(add(&mut pool, txn(1, 0, 9999, 0), 1, 0), MempoolStatusCode::Accepted);
    let (batch, _) = pool.read_timeline(0, 10);
    assert_eq!(batch.len(), 3);
    assert!(batch[0].0 < batch[1].0 && batch[1].0 < batch[2].0);
}

#[test]
fn full_pool_evicts_gapped_entry() {
    // Capacity one: a buffered future-sequence entry makes room for a
    // next-in-line submission from another sender.
    let mut pool = CoreMempool::new(1, 10);
    assert_eq!(add(&mut pool, txn(1, 1, 9999, 1), 1, 0), MempoolStatusCode::Accepted);
    assert_eq!(add(&mut pool, txn(2, 0, 9999, 2), 5, 0), MempoolStatusCode::Accepted);
    let block = pool.get_block(10, &Vec::new());
    assert_eq!(block.len(), 1);
    assert_eq!(block[0].sender.value, 2);
}

#[test]
fn full_pool_without_candidate_refuses() {
    // Capacity one holding a timeline entry: nothing can be evicted.
    let mut pool = CoreMempool::new(1, 10);
    assert_eq!(add(&mut pool, txn(1, 0, 9999, 1), 1, 0), MempoolStatusCode::Accepted);
    assert_eq!(add(&mut pool, txn(2, 0, 9999, 2), 5, 0), MempoolStatusCode::MempoolIsFull);
}

#[test]
fn stale_sequence_is_refused() {
    let mut pool = CoreMempool::new(100, 10);
    assert_eq!(add(&mut pool, txn(1, 1, 9999, 1), 1, 5), MempoolStatusCode::InvalidSeqNumber);
}

#[test]
fn conflicting_resubmission_is_refused_identical_is_idempotent() {
    let mut pool = CoreMempool::new(100, 10);
    assert_eq!(add(&mut pool, txn(1, 0, 9999, 1), 1, 0), MempoolStatusCode::Accepted);
    // same slot, different fingerprint
    assert_eq!(add(&mut pool, txn(1, 0, 9999, 2), 1, 0), MempoolStatusCode::InvalidUpdate);
    // the identical transaction again
    assert_eq!(add(&mut pool, txn(1, 0, 9999, 1), 1, 0), MempoolStatusCode::Accepted);
}

#[test]
fn per_sender_limit_is_refused() {
    let mut pool = CoreMempool::new(100, 2);
    assert_eq!(add(&mut pool, txn(1, 0, 9999, 0), 1, 0), MempoolStatusCode::Accepted);
    assert_eq!(add(&mut pool, txn(1, 1, 9999, 1), 1, 0), MempoolStatusCode::Accepted);
    assert_eq!(
        add(&mut pool, txn(1, 2, 9999, 2), 1, 0),
        MempoolStatusCode::TooManyTransactions
    );
}

#[test]
fn gc_removes_expired_entries() {
    let mut pool = CoreMempool::new(100, 10);
    assert_eq!(add(&mut pool, txn(1, 0, 500, 0), 1, 0), MempoolStatusCode::Accepted);
    assert_eq!(add(&mut pool, txn(2, 0, 2000, 1), 1, 0), MempoolStatusCode::Accepted);
    pool.gc_by_expiration_time(1000);
    let block = pool.get_block(10, &Vec::new());
    assert_eq!(block.len(), 1);
    assert_eq!(block[0].sender.value, 2);
}

#[test]
fn commit_removes_entry_and_promotes_successor() {
    let mut pool = CoreMempool::new(100, 10);
    assert_eq!(add(&mut pool, txn(1, 0, 9999, 0), 1, 0), MempoolStatusCode::Accepted);
    assert_eq!(add(&mut pool, txn(1, 1, 9999, 1), 1, 0), MempoolStatusCode::Accepted);
    pool.remove_transaction(&addr(1), 0, false);
    let block = pool.get_block(10, &Vec::new());
    assert_eq!(block.len(), 1);
    assert_eq!(block[0].sequence_number, 1);
}

#[test]
fn reject_removes_suffix() {
    let mut pool = CoreMempool::new(100, 10);
    assert_eq!(add(&mut pool, txn(1, 0, 9999, 0), 1, 0), MempoolStatusCode::Accepted);
    assert_eq!(add(&mut pool, txn(1, 1, 9999, 1), 1, 0), MempoolStatusCode::Accepted);
    assert_eq!(add(&mut pool, txn(1, 2, 9999, 2), 1, 0), MempoolStatusCode::Accepted);
    pool.remove_transaction(&addr(1), 1, true);
    let block = pool.get_block(10, &Vec::new());
    assert_eq!(block.len(), 1);
    assert_eq!(block[0].sequence_number, 0);
}

#[test]
fn get_block_orders_by_role_then_score_then_age() {
    let mut pool = CoreMempool::new(100, 10);
    let s1 = pool.add_txn(
        txn(1, 0, 9999, 1),
        100,
        1,
        0,
        TimelineState::NotReady,
        GovernanceRole::NonGovernance,
    );
    let s2 = pool.add_txn(
        txn(2, 0, 9999, 2),
        100,
        9,
        0,
        TimelineState::NotReady,
        GovernanceRole::NonGovernance,
    );
    let s3 = pool.add_txn(
        txn(3, 0, 9999, 3),
        100,
        1,
        0,
        TimelineState::NotReady,
        GovernanceRole::Validator,
    );
    assert_eq!(s1.code, MempoolStatusCode::Accepted);
    assert_eq!(s2.code, MempoolStatusCode::Accepted);
    assert_eq!(s3.code, MempoolStatusCode::Accepted);
    let block = pool.get_block(10, &Vec::new());
    assert_eq!(block.len(), 3);
    assert_eq!(block[0].sender.value, 3); // governance class first
    assert_eq!(block[1].sender.value, 2); // then higher score
    assert_eq!(block[2].sender.value, 1);
}

#[test]
fn get_block_honours_exclusions() {
    let mut pool = CoreMempool::new(100, 10);
    assert_eq!(add(&mut pool, txn(1, 0, 9999, 0), 1, 0), MempoolStatusCode::Accepted);
    assert_eq!(add(&mut pool, txn(2, 0, 9999, 1), 1, 0), MempoolStatusCode::Accepted);
    let exclude = vec![(addr(1), 0u64)];
    let block = pool.get_block(10, &exclude);
    assert_eq!(block.len(), 1);
    assert_eq!(block[0].sender.value, 2);
}

#[test]
fn filter_read_timeline_keeps_live_positions_in_given_order() {
    let mut pool = CoreMempool::new(100, 10);
    assert_eq!(add(&mut pool, txn(1, 0, 9999, 0), 1, 0), MempoolStatusCode::Accepted);
    assert_eq!(add(&mut pool, txn(2, 0, 9999, 1), 1, 0), MempoolStatusCode::Accepted);
    // positions 1 and 2 are live; 9 never existed
    let kept = pool.filter_read_timeline(vec![2, 9, 1]);
    assert_eq!(kept.len(), 2);
    assert_eq!(kept[0].0, 2);
    assert_eq!(kept[1].0, 1);
    // commit sender 1: its position dies
    pool.remove_transaction(&addr(1), 0, false);
    let kept = pool.filter_read_timeline(vec![2, 1]);
    assert_eq!(kept.len(), 1);
    assert_eq!(kept[0].0, 2);
}

#[test]
fn read_timeline_resumes_after_given_position() {
    let mut pool = CoreMempool::new(100, 10);
    assert_eq!(add(&mut pool, txn(1, 0, 9999, 0), 1, 0), MempoolStatusCode::Accepted);
    assert_eq!(add(&mut pool, txn(2, 0, 9999, 1), 1, 0), MempoolStatusCode::Accepted);
    assert_eq!(add(&mut pool, txn(3, 0, 9999, 2), 1, 0), MempoolStatusCode::Accepted);
    let (first, last) = pool.read_timeline(0, 2);
    assert_eq!(first.len(), 2);
    assert_eq!(last, 2);
    let (rest, last2) = pool.read_timeline(last, 2);
    assert_eq!(rest.len(), 1);
    assert_eq!(rest[0].0, 3);
    assert_eq!(last2, 3);
}
