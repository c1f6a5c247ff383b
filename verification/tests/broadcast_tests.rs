use shared_mempool::account_address::AccountAddress;
use shared_mempool::batch_id::{deserialize_batch_id, serialize_batch_id, BatchId};
use shared_mempool::core_mempool::CoreMempool;
use shared_mempool::peer_manager::PeerState;
use shared_mempool::status::MempoolStatusCode;
use shared_mempool::tasks::{broadcast_single_peer, execute_broadcast, BroadcastAction};
use shared_mempool::transaction::{GovernanceRole, TimelineState, Txn};

fn txn(sender: u128, seq: u64, fp: u8) -> Txn {
    Txn::new(AccountAddress::new(sender), seq, 100, 9999, vec![fp])
}

fn add(pool: &mut CoreMempool, t: Txn) {
    let st = pool.add_txn(t, 100, 1, 0, TimelineState::Ready, GovernanceRole::NonGovernance);
    assert_eq!(st.code, MempoolStatusCode::Accepted);
}

#[test]
fn batch_id_round_trip() {
    let b = BatchId(0, 2);
    let bytes = serialize_batch_id(&b);
    assert_eq!(bytes.len(), 16);
    // canonical little-endian layout: start then end
    assert_eq!(&bytes[0..8], &[0, 0, 0, 0, 0, 0, 0, 0]);
    assert_eq!(&bytes[8..16], &[2, 0, 0, 0, 0, 0, 0, 0]);
    assert_eq!(deserialize_batch_id(&bytes), Some(b));
}

#[test]
fn batch_id_wrong_length_is_refused() {
    assert_eq!(deserialize_batch_id(&vec![1, 2, 3]), None);
    assert_eq!(deserialize_batch_id(&Vec::new()), None);
}

#[test]
fn broadcast_ack_retry_and_next_batch() {
    // Peer alive and picked, position 0, batch size 2; the pool carries
    // positions 1 and 2.
    let mut pool = CoreMempool::new(100, 10);
    add(&mut pool, txn(1, 0, 1));
    add(&mut pool, txn(2, 0, 2));
    let mut peer = PeerState::new(true);

    let action = broadcast_single_peer(&pool, &peer, true, false, 2);
    let (batch_id, request_id, timeline_ids, new_timeline_id) = match action {
        BroadcastAction::Send { batch_id, request_id, timeline_ids, new_timeline_id, backoff, .. } => {
            assert!(!backoff);
            (batch_id, request_id, timeline_ids, new_timeline_id)
        },
        BroadcastAction::Skip { .. } => panic!("expected a batch"),
    };
    assert_eq!(batch_id, BatchId(0, 2));
    assert_eq!(request_id, serialize_batch_id(&BatchId(0, 2)));
    assert_eq!(timeline_ids, vec![1, 2]);
    assert_eq!(new_timeline_id, 2);

    // transport succeeded: record, then the peer acknowledges asking to
    // resend the second element (index 1)
    peer.update_peer_broadcast(batch_id, timeline_ids, new_timeline_id, 10);
    peer.process_broadcast_ack(&request_id, &vec![1], false);
    assert_eq!(peer.timeline_id, 2);
    assert!(!peer.broadcast_info.backoff_mode);
    assert_eq!(peer.broadcast_info.total_retry_txns, vec![2]);

    // a third transaction arrives; the next batch is the retried position
    // plus the fresh one
    add(&mut pool, txn(3, 0, 3));
    let action = broadcast_single_peer(&pool, &peer, true, false, 2);
    match action {
        BroadcastAction::Send { batch_id, timeline_ids, transactions, .. } => {
            assert_eq!(batch_id, BatchId(2, 3));
            assert_eq!(timeline_ids, vec![2, 3]);
            assert_eq!(transactions[0].sender.value, 2);
            assert_eq!(transactions[1].sender.value, 3);
        },
        BroadcastAction::Skip { .. } => panic!("expected a batch"),
    }
}

#[test]
fn transport_failure_leaves_state_and_batch_unchanged() {
    let mut pool = CoreMempool::new(100, 10);
    add(&mut pool, txn(1, 0, 1));
    let peer = PeerState::new(true);
    let first = broadcast_single_peer(&pool, &peer, true, false, 2);
    // the send failed: nothing is recorded, so the next tick plans the same
    // batch under the same identity
    let second = broadcast_single_peer(&pool, &peer, true, false, 2);
    match (first, second) {
        (
            BroadcastAction::Send { batch_id: b1, timeline_ids: t1, .. },
            BroadcastAction::Send { batch_id: b2, timeline_ids: t2, .. },
        ) => {
            assert_eq!(b1, b2);
            assert_eq!(t1, t2);
        },
        _ => panic!("expected two batches"),
    }
}

#[test]
fn backoff_sticks_until_cleared() {
    let mut pool = CoreMempool::new(100, 10);
    add(&mut pool, txn(1, 0, 1));
    let mut peer = PeerState::new(true);

    let action = broadcast_single_peer(&pool, &peer, true, false, 2);
    let (batch_id, request_id, timeline_ids, new_timeline_id) = match action {
        BroadcastAction::Send { batch_id, request_id, timeline_ids, new_timeline_id, .. } => {
            (batch_id, request_id, timeline_ids, new_timeline_id)
        },
        BroadcastAction::Skip { .. } => panic!("expected a batch"),
    };
    peer.update_peer_broadcast(batch_id, timeline_ids, new_timeline_id, 10);
    // the peer asks for backoff
    peer.process_broadcast_ack(&request_id, &Vec::new(), true);
    assert!(peer.broadcast_info.backoff_mode);

    // a tick dispatched in normal cadence is dropped, and reschedules in
    // backoff cadence
    let (action, interval) = execute_broadcast(&pool, &peer, true, false, 2, 50, 500);
    assert!(matches!(action, BroadcastAction::Skip { backoff: true }));
    assert_eq!(interval, 500);

    // a tick dispatched in backoff cadence proceeds, still in backoff
    add(&mut pool, txn(2, 0, 2));
    let (action, interval) = execute_broadcast(&pool, &peer, true, true, 2, 50, 500);
    match action {
        BroadcastAction::Send { backoff, .. } => assert!(backoff),
        BroadcastAction::Skip { .. } => panic!("expected a batch"),
    }
    assert_eq!(interval, 500);
}

#[test]
fn unpicked_and_dead_peers_are_skipped() {
    let pool = CoreMempool::new(100, 10);
    let mut peer = PeerState::new(true);
    assert!(matches!(
        broadcast_single_peer(&pool, &peer, false, false, 2),
        BroadcastAction::Skip { backoff: false }
    ));
    peer.is_alive = false;
    peer.broadcast_info.backoff_mode = true;
    assert!(matches!(
        broadcast_single_peer(&pool, &peer, true, true, 2),
        BroadcastAction::Skip { backoff: true }
    ));
}

#[test]
fn unknown_ack_is_ignored() {
    let mut peer = PeerState::new(true);
    let rid = serialize_batch_id(&BatchId(0, 7));
    peer.process_broadcast_ack(&rid, &vec![0], true);
    assert!(!peer.broadcast_info.backoff_mode);
    assert!(peer.broadcast_info.total_retry_txns.is_empty());
    // a malformed identifier is ignored as well
    peer.process_broadcast_ack(&vec![1, 2, 3], &vec![0], true);
    assert!(!peer.broadcast_info.backoff_mode);
}

#[test]
fn stale_batches_are_reclassified_as_retry() {
    let mut peer = PeerState::new(true);
    peer.update_peer_broadcast(BatchId(0, 2), vec![1, 2], 2, 10);
    peer.update_peer_broadcast(BatchId(2, 3), vec![3], 3, 50);
    // everything sent before time 20 is treated as refused
    peer.expire_stale_batches(20);
    let mut retry = peer.broadcast_info.total_retry_txns.clone();
    retry.sort();
    assert_eq!(retry, vec![1, 2]);
    assert_eq!(peer.broadcast_info.sent_batches.len(), 1);
    assert_eq!(peer.broadcast_info.sent_batches[0].0, BatchId(2, 3));
}

#[test]
fn batch_is_truncated_to_batch_size() {
    let mut pool = CoreMempool::new(100, 10);
    add(&mut pool, txn(1, 0, 1));
    add(&mut pool, txn(2, 0, 2));
    add(&mut pool, txn(3, 0, 3));
    let peer = PeerState::new(true);
    match broadcast_single_peer(&pool, &peer, true, false, 2) {
        BroadcastAction::Send { timeline_ids, transactions, new_timeline_id, .. } => {
            assert_eq!(timeline_ids.len(), 2);
            assert_eq!(transactions.len(), 2);
            assert_eq!(timeline_ids, vec![1, 2]);
            assert_eq!(new_timeline_id, 2);
        },
        BroadcastAction::Skip { .. } => panic!("expected a batch"),
    }
}

#[test]
fn empty_pool_is_skipped() {
    let pool = CoreMempool::new(100, 10);
    let peer = PeerState::new(true);
    assert!(matches!(
        broadcast_single_peer(&pool, &peer, true, false, 2),
        BroadcastAction::Skip { backoff: false }
    ));
}
