use vstd::prelude::*;

use crate::batch_id::{deserialize_batch_id, spec_deserialize_batch_id, BatchId};

verus! {

/// Record of one in-flight batch: the timeline positions it carried, in
/// batch order, and when it was sent.
pub struct BatchInfo {
    pub timeline_ids: Vec<u64>,
    pub send_time: u64,
}

impl Clone for BatchInfo {
    fn clone(&self) -> (r: Self)
        ensures
            r.timeline_ids@ == self.timeline_ids@,
            r.send_time == self.send_time,
    {
        BatchInfo {
            timeline_ids: vstd::slice::slice_to_vec(self.timeline_ids.as_slice()),
            send_time: self.send_time,
        }
    }
}

/// Broadcast bookkeeping of one peer: its in-flight batches, the timeline
/// positions flagged for resending, and whether the peer asked for backoff.
pub struct BroadcastInfo {
    pub sent_batches: Vec<(BatchId, BatchInfo)>,
    pub total_retry_txns: Vec<u64>,
    pub backoff_mode: bool,
}

/// Per-peer broadcast state: liveness, the timeline position the peer has
/// been sent up through, and the broadcast bookkeeping.
pub struct PeerState {
    pub is_alive: bool,
    pub timeline_id: u64,
    pub broadcast_info: BroadcastInfo,
}

/// A batch with this identity is in flight.
pub open spec fn has_batch(batches: Seq<(BatchId, BatchInfo)>, bid: BatchId) -> bool {
    exists|i: int| 0 <= i < batches.len() && (#[trigger] batches[i]).0 == bid
}

/// The record of the batch with identity `bid` — its positions and send
/// time; meaningful when `has_batch` holds and identities are distinct.
pub open spec fn batch_record(batches: Seq<(BatchId, BatchInfo)>, bid: BatchId) -> (Seq<u64>, u64) {
    let i = choose|i: int| 0 <= i < batches.len() && (#[trigger] batches[i]).0 == bid;
    (batches[i].1.timeline_ids@, batches[i].1.send_time)
}

/// No two in-flight batches share an identity.
pub open spec fn batch_keys_distinct(batches: Seq<(BatchId, BatchInfo)>) -> bool {
    forall|i: int, j: int|
        0 <= i < j < batches.len() ==> (#[trigger] batches[i]).0 != (#[trigger] batches[j]).0
}

/// A timeline position is flagged for resending.
pub open spec fn in_retry(retry: Seq<u64>, id: u64) -> bool {
    retry.contains(id)
}

/// The ACK's retry indices name this timeline position of the acknowledged
/// batch (an index out of the batch's range names nothing).
pub open spec fn ack_names(batch_ids: Seq<u64>, retry_txns: Seq<u64>, id: u64) -> bool {
    exists|k: int|
        0 <= k < retry_txns.len() && #[trigger] retry_txns[k] < batch_ids.len() && batch_ids[
            retry_txns[k] as int
        ] == id
}

/// Every position an acknowledgement's retry indices name belongs to the
/// acknowledged batch. Together with the request-identifier round trip
/// (`lemma_batch_id_roundtrip`) and the contract of `process_broadcast_ack`,
/// an acknowledgement of a broadcast — whose wire identifier is the
/// serialization of its batch identity — flags, beyond what was already
/// flagged, only positions that batch originally carried.
pub proof fn lemma_ack_names_within_batch(batch_ids: Seq<u64>, retry_txns: Seq<u64>, id: u64)
    requires
        ack_names(batch_ids, retry_txns, id),
    ensures
        batch_ids.contains(id),
{
    let k = choose|k: int|
        0 <= k < retry_txns.len() && #[trigger] retry_txns[k] < batch_ids.len() && batch_ids[
            retry_txns[k] as int
        ] == id;
    assert(batch_ids[retry_txns[k] as int] == id);
}

/// Two batch records with the same identity, positions and send time.
pub open spec fn batch_entry_like(a: (BatchId, BatchInfo), b: (BatchId, BatchInfo)) -> bool {
    a.0 == b.0 && a.1.timeline_ids@ == b.1.timeline_ids@ && a.1.send_time == b.1.send_time
}

/// `e` reproduces a record among the first `bound` whose identity is not
/// `bid`.
pub open spec fn from_kept_except(
    e: (BatchId, BatchInfo),
    batches: Seq<(BatchId, BatchInfo)>,
    bound: int,
    bid: BatchId,
) -> bool {
    exists|j: int|
        0 <= j < bound && #[trigger] batch_entry_like(e, batches[j]) && batches[j].0 != bid
}

proof fn lemma_from_kept_except_mono(
    e: (BatchId, BatchInfo),
    batches: Seq<(BatchId, BatchInfo)>,
    b1: int,
    b2: int,
    bid: BatchId,
)
    requires
        from_kept_except(e, batches, b1, bid),
        b1 <= b2,
    ensures
        from_kept_except(e, batches, b2, bid),
{
    let j = choose|j: int|
        0 <= j < b1 && #[trigger] batch_entry_like(e, batches[j]) && batches[j].0 != bid;
    assert(0 <= j < b2 && batch_entry_like(e, batches[j]) && batches[j].0 != bid);
}

/// `e` reproduces a record among the first `bound` that was sent at or after
/// `cutoff`.
pub open spec fn from_kept_fresh(
    e: (BatchId, BatchInfo),
    batches: Seq<(BatchId, BatchInfo)>,
    bound: int,
    cutoff: u64,
) -> bool {
    exists|j: int|
        0 <= j < bound && #[trigger] batch_entry_like(e, batches[j]) && batches[j].1.send_time
            >= cutoff
}

proof fn lemma_from_kept_fresh_mono(
    e: (BatchId, BatchInfo),
    batches: Seq<(BatchId, BatchInfo)>,
    b1: int,
    b2: int,
    cutoff: u64,
)
    requires
        from_kept_fresh(e, batches, b1, cutoff),
        b1 <= b2,
    ensures
        from_kept_fresh(e, batches, b2, cutoff),
{
    let j = choose|j: int|
        0 <= j < b1 && #[trigger] batch_entry_like(e, batches[j]) && batches[j].1.send_time
            >= cutoff;
    assert(0 <= j < b2 && batch_entry_like(e, batches[j]) && batches[j].1.send_time >= cutoff);
}

/// Some element of `s` reproduces the record `e`.
pub open spec fn present_like(e: (BatchId, BatchInfo), s: Seq<(BatchId, BatchInfo)>) -> bool {
    exists|k: int| 0 <= k < s.len() && #[trigger] batch_entry_like(s[k], e)
}

/// Nothing about the peer changed.
pub open spec fn unchanged_peer(a: PeerState, b: PeerState) -> bool {
    &&& b.is_alive == a.is_alive
    &&& b.timeline_id == a.timeline_id
    &&& b.broadcast_info.backoff_mode == a.broadcast_info.backoff_mode
    &&& b.broadcast_info.sent_batches@ == a.broadcast_info.sent_batches@
    &&& b.broadcast_info.total_retry_txns@ == a.broadcast_info.total_retry_txns@
}

/// The in-flight record at index `i` is the record its identity resolves to,
/// when identities are distinct.
pub proof fn lemma_batch_record_is(batches: Seq<(BatchId, BatchInfo)>, i: int)
    requires
        batch_keys_distinct(batches),
        0 <= i < batches.len(),
    ensures
        has_batch(batches, batches[i].0),
        batch_record(batches, batches[i].0) == (batches[i].1.timeline_ids@, batches[i].1.send_time),
{
    let b = batches[i].0;
    let j = choose|j: int| 0 <= j < batches.len() && (#[trigger] batches[j]).0 == b;
    if i < j {
        assert(batches[i].0 != batches[j].0);
    } else if j < i {
        assert(batches[j].0 != batches[i].0);
    }
}

fn contains_u64(v: &Vec<u64>, x: u64) -> (r: bool)
    ensures
        r == v@.contains(x),
{
    let n = v.len();
    let mut i: usize = 0;
    while i < n
        invariant
            n == v@.len(),
            i <= n,
            forall|j: int| 0 <= j < i ==> v@[j] != x,
        decreases n - i,
    {
        if v[i] == x {
            return true;
        }
        i += 1;
    }
    proof {
        if v@.contains(x) {
            let j = choose|j: int| 0 <= j < v@.len() && v@[j] == x;
        }
    }
    false
}

/// The elements of `v`, in order, without those named in `remove`.
fn retain_not_in(v: &Vec<u64>, remove: &Vec<u64>) -> (r: Vec<u64>)
    requires
        forall|i: int, j: int| 0 <= i < j < v@.len() ==> v@[i] != v@[j],
    ensures
        forall|i: int, j: int| 0 <= i < j < r@.len() ==> r@[i] != r@[j],
        forall|x: u64| #[trigger] r@.contains(x) == (v@.contains(x) && !remove@.contains(x)),
{
    let n = v.len();
    let mut out: Vec<u64> = Vec::new();
    let mut i: usize = 0;
    while i < n
        invariant
            n == v@.len(),
            i <= n,
            forall|i1: int, j1: int| 0 <= i1 < j1 < v@.len() ==> v@[i1] != v@[j1],
            forall|i1: int, j1: int| 0 <= i1 < j1 < out@.len() ==> out@[i1] != out@[j1],
            forall|x: u64| #[trigger]
                out@.contains(x) == (v@.take(i as int).contains(x) && !remove@.contains(x)),
        decreases n - i,
    {
        let ghost pre = out@;
        let x = v[i];
        if !contains_u64(remove, x) {
            proof {
                if pre.contains(x) {
                    assert(v@.take(i as int).contains(x));
                    let j = choose|j: int| 0 <= j < i && v@.take(i as int)[j] == x;
                    assert(v@[j] == x && v@[i as int] == x);
                    assert(false);
                }
            }
            out.push(x);
        }
        proof {
            assert(v@.take(i + 1).drop_last() =~= v@.take(i as int));
            assert forall|y: u64| #[trigger] out@.contains(y) == (v@.take(i + 1).contains(y)
                && !remove@.contains(y)) by {
                if out@.contains(y) {
                    let j = choose|j: int| 0 <= j < out@.len() && out@[j] == y;
                    if j < pre.len() {
                        assert(pre.contains(y));
                        let j2 = choose|j2: int| 0 <= j2 < i && v@.take(i as int)[j2] == y;
                        assert(v@.take(i + 1)[j2] == y);
                    } else {
                        assert(y == x);
                        assert(v@.take(i + 1)[i as int] == y);
                    }
                }
                if v@.take(i + 1).contains(y) && !remove@.contains(y) {
                    let j = choose|j: int| 0 <= j < i + 1 && #[trigger] v@.take(i + 1)[j] == y;
                    if j < i {
                        assert(v@.take(i as int)[j] == y);
                        assert(v@.take(i as int).contains(y));
                        assert(pre.contains(y));
                        let j2 = choose|j2: int| 0 <= j2 < pre.len() && pre[j2] == y;
                        assert(out@[j2] == y);
                    } else {
                        assert(y == x);
                        assert(out@[out@.len() - 1] == y);
                    }
                }
            }
        }
        i += 1;
    }
    proof {
        assert(v@.take(n as int) =~= v@);
    }
    out
}

/// Flags one position for resending, once.
fn insert_retry_id(v: &mut Vec<u64>, id: u64)
    requires
        forall|i: int, j: int| 0 <= i < j < old(v)@.len() ==> old(v)@[i] != old(v)@[j],
    ensures
        forall|i: int, j: int| 0 <= i < j < final(v)@.len() ==> final(v)@[i] != final(v)@[j],
        forall|x: u64| #[trigger] final(v)@.contains(x) == (old(v)@.contains(x) || x == id),
{
    let ghost pre = v@;
    if !contains_u64(v, id) {
        v.push(id);
        proof {
            assert(v@[v@.len() - 1] == id);
            assert forall|x: u64| #[trigger] v@.contains(x) == (pre.contains(x) || x == id) by {
                if v@.contains(x) {
                    let j = choose|j: int| 0 <= j < v@.len() && v@[j] == x;
                    if j < pre.len() {
                        assert(pre.contains(x));
                    }
                }
                if pre.contains(x) {
                    let j = choose|j: int| 0 <= j < pre.len() && pre[j] == x;
                    assert(v@[j] == x);
                }
            }
            assert forall|i: int, j: int| 0 <= i < j < v@.len() implies v@[i] != v@[j] by {
                if j == v@.len() - 1 {
                    if v@[i] == id {
                        assert(pre[i] == id);
                        assert(pre.contains(id));
                    }
                }
            }
        }
    }
}

/// Index of the in-flight batch with this identity.
fn find_batch(batches: &Vec<(BatchId, BatchInfo)>, bid: &BatchId) -> (r: Option<usize>)
    ensures
        match r {
            Some(i) => i < batches@.len() && batches@[i as int].0 == *bid,
            None => !has_batch(batches@, *bid),
        },
{
    let n = batches.len();
    let mut i: usize = 0;
    while i < n
        invariant
            n == batches@.len(),
            i <= n,
            forall|j: int| 0 <= j < i ==> (#[trigger] batches@[j]).0 != *bid,
        decreases n - i,
    {
        if batches[i].0 == *bid {
            return Some(i);
        }
        i += 1;
    }
    None
}

/// The in-flight set without the batch of this identity; every other batch
/// keeps its record.
#[verifier::rlimit(100)]
fn remove_batch(batches: &Vec<(BatchId, BatchInfo)>, bid: &BatchId) -> (r: Vec<(BatchId, BatchInfo)>)
    requires
        batch_keys_distinct(batches@),
    ensures
        batch_keys_distinct(r@),
        !has_batch(r@, *bid),
        forall|b: BatchId|
            b != *bid ==> (#[trigger] has_batch(r@, b) == has_batch(batches@, b)) && (has_batch(
                batches@,
                b,
            ) ==> batch_record(r@, b) == batch_record(batches@, b)),
{
    let n = batches.len();
    let mut out: Vec<(BatchId, BatchInfo)> = Vec::new();
    let mut i: usize = 0;
    while i < n
        invariant
            n == batches@.len(),
            i <= n,
            batch_keys_distinct(batches@),
            forall|k: int|
                0 <= k < out@.len() ==> from_kept_except(#[trigger] out@[k], batches@, i as int, *bid),
            forall|j: int|
                0 <= j < i && (#[trigger] batches@[j]).0 != *bid ==> present_like(
                    batches@[j],
                    out@,
                ),
            forall|k1: int, k2: int|
                0 <= k1 < k2 < out@.len() ==> (#[trigger] out@[k1]).0 != (#[trigger] out@[k2]).0,
        decreases n - i,
    {
        let ghost pre = out@;
        if !(batches[i].0 == *bid) {
            let e = (batches[i].0, batches[i].1.clone());
            proof {
                assert(batch_entry_like(e, batches@[i as int]));
            }
            out.push(e);
            proof {
                assert(batch_entry_like(out@[out@.len() - 1], batches@[i as int]));
                assert forall|k1: int, k2: int| 0 <= k1 < k2 < out@.len() implies (
                #[trigger] out@[k1]).0 != (#[trigger] out@[k2]).0 by {
                    if k2 == out@.len() - 1 {
                        assert(out@[k1] == pre[k1]);
                        assert(from_kept_except(pre[k1], batches@, i as int, *bid));
                        let j = choose|j: int|
                            0 <= j < i && #[trigger] batch_entry_like(pre[k1], batches@[j])
                                && batches@[j].0 != *bid;
                        assert(batches@[j].0 != batches@[i as int].0);
                    }
                }
            }
        }
        proof {
            assert forall|k: int| 0 <= k < out@.len() implies from_kept_except(
                #[trigger] out@[k],
                batches@,
                i + 1,
                *bid,
            ) by {
                if k < pre.len() {
                    assert(out@[k] == pre[k]);
                    assert(from_kept_except(pre[k], batches@, i as int, *bid));
                    lemma_from_kept_except_mono(pre[k], batches@, i as int, i + 1, *bid);
                } else {
                    assert(batch_entry_like(out@[k], batches@[i as int]) && batches@[i as int].0
                        != *bid);
                }
            }
            assert forall|j: int|
                0 <= j < i + 1 && (#[trigger] batches@[j]).0 != *bid implies present_like(
                batches@[j],
                out@,
            ) by {
                if j < i {
                    assert(present_like(batches@[j], pre));
                    let k = choose|k: int|
                        0 <= k < pre.len() && #[trigger] batch_entry_like(pre[k], batches@[j]);
                    assert(out@[k] == pre[k]);
                    assert(batch_entry_like(out@[k], batches@[j]));
                } else {
                    assert(batch_entry_like(out@[out@.len() - 1], batches@[j]));
                }
            }
        }
        i += 1;
    }
    proof {
        assert forall|b: BatchId| b != *bid implies (#[trigger] has_batch(out@, b) == has_batch(
            batches@,
            b,
        )) && (has_batch(batches@, b) ==> batch_record(out@, b) == batch_record(batches@, b)) by {
            if has_batch(out@, b) {
                let k = choose|k: int| 0 <= k < out@.len() && (#[trigger] out@[k]).0 == b;
                assert(from_kept_except(out@[k], batches@, n as int, *bid));
                let j = choose|j: int|
                    0 <= j < n && #[trigger] batch_entry_like(out@[k], batches@[j]) && batches@[
                        j
                    ].0 != *bid;
                assert(batches@[j].0 == b);
            }
            if has_batch(batches@, b) {
                let j = choose|j: int| 0 <= j < batches@.len() && (#[trigger] batches@[j]).0 == b;
                assert(present_like(batches@[j], out@));
                let k = choose|k: int|
                    0 <= k < out@.len() && #[trigger] batch_entry_like(out@[k], batches@[j]);
                assert(out@[k].0 == b);
                lemma_batch_record_is(out@, k);
                lemma_batch_record_is(batches@, j);
            }
        }
        if has_batch(out@, *bid) {
            let k = choose|k: int| 0 <= k < out@.len() && (#[trigger] out@[k]).0 == *bid;
            assert(from_kept_except(out@[k], batches@, n as int, *bid));
            let j = choose|j: int|
                0 <= j < n && #[trigger] batch_entry_like(out@[k], batches@[j]) && batches@[j].0
                    != *bid;
        }
    }
    out
}

/// For an identity other than the pushed one, pushing a record changes
/// nothing.
proof fn lemma_push_other(
    kept: Seq<(BatchId, BatchInfo)>,
    pushed: Seq<(BatchId, BatchInfo)>,
    b: BatchId,
)
    requires
        pushed.len() == kept.len() + 1,
        forall|k: int| 0 <= k < kept.len() ==> #[trigger] pushed[k] == kept[k],
        pushed[pushed.len() - 1].0 != b,
        batch_keys_distinct(pushed),
        batch_keys_distinct(kept),
    ensures
        has_batch(pushed, b) == has_batch(kept, b),
        has_batch(kept, b) ==> batch_record(pushed, b) == batch_record(kept, b),
{
    if has_batch(pushed, b) {
        let k = choose|k: int| 0 <= k < pushed.len() && (#[trigger] pushed[k]).0 == b;
        assert(k < kept.len());
        assert(kept[k].0 == b);
    }
    if has_batch(kept, b) {
        let k = choose|k: int| 0 <= k < kept.len() && (#[trigger] kept[k]).0 == b;
        assert(pushed[k].0 == b);
        lemma_batch_record_is(kept, k);
        lemma_batch_record_is(pushed, k);
    }
}

impl PeerState {
    pub open spec fn wf(self) -> bool {
        &&& batch_keys_distinct(self.broadcast_info.sent_batches@)
        &&& forall|i: int, j: int|
            0 <= i < j < self.broadcast_info.total_retry_txns@.len()
                ==> self.broadcast_info.total_retry_txns@[i]
                != self.broadcast_info.total_retry_txns@[j]
    }

    /// Fresh state for a peer, with nothing sent and nothing in flight.
    pub fn new(is_alive: bool) -> (r: PeerState)
        ensures
            r.wf(),
            r.is_alive == is_alive,
            r.timeline_id == 0,
            r.broadcast_info.sent_batches@.len() == 0,
            r.broadcast_info.total_retry_txns@.len() == 0,
            !r.broadcast_info.backoff_mode,
    {
        PeerState {
            is_alive,
            timeline_id: 0,
            broadcast_info: BroadcastInfo {
                sent_batches: Vec::new(),
                total_retry_txns: Vec::new(),
                backoff_mode: false,
            },
        }
    }

    /// Records a successfully sent batch: the batch joins the in-flight set
    /// (replacing any record under the same identity), the peer's timeline
    /// position advances to `new_timeline_id`, and the sent positions are no
    /// longer flagged for resending.
    pub fn update_peer_broadcast(
        &mut self,
        batch_id: BatchId,
        batch_timeline_ids: Vec<u64>,
        new_timeline_id: u64,
        send_time: u64,
    )
        requires
            old(self).wf(),
        ensures
            final(self).wf(),
            final(self).is_alive == old(self).is_alive,
            final(self).timeline_id == new_timeline_id,
            final(self).broadcast_info.backoff_mode == old(self).broadcast_info.backoff_mode,
            has_batch(final(self).broadcast_info.sent_batches@, batch_id),
            batch_record(final(self).broadcast_info.sent_batches@, batch_id) == (
                batch_timeline_ids@,
                send_time,
            ),
            forall|b: BatchId|
                b != batch_id ==> (#[trigger] has_batch(
                    final(self).broadcast_info.sent_batches@,
                    b,
                ) == has_batch(old(self).broadcast_info.sent_batches@, b)) && (has_batch(
                    old(self).broadcast_info.sent_batches@,
                    b,
                ) ==> batch_record(final(self).broadcast_info.sent_batches@, b) == batch_record(
                    old(self).broadcast_info.sent_batches@,
                    b,
                )),
            forall|id: u64| #[trigger]
                in_retry(final(self).broadcast_info.total_retry_txns@, id) == (in_retry(
                    old(self).broadcast_info.total_retry_txns@,
                    id,
                ) && !batch_timeline_ids@.contains(id)),
    {
        let retry = retain_not_in(&self.broadcast_info.total_retry_txns, &batch_timeline_ids);
        self.broadcast_info.total_retry_txns = retry;

        let kept = remove_batch(&self.broadcast_info.sent_batches, &batch_id);
        let ghost kept_view = kept@;
        let mut batches = kept;
        batches.push((batch_id, BatchInfo { timeline_ids: batch_timeline_ids, send_time }));
        proof {
            assert(batches@[batches@.len() - 1].0 == batch_id);
            assert forall|i: int, j: int| 0 <= i < j < batches@.len() implies (
            #[trigger] batches@[i]).0 != (#[trigger] batches@[j]).0 by {
                if j == batches@.len() - 1 {
                    assert(batches@[i] == kept_view[i]);
                    if batches@[i].0 == batch_id {
                        assert(has_batch(kept_view, batch_id));
                    }
                }
            }
        }
        self.broadcast_info.sent_batches = batches;
        self.timeline_id = new_timeline_id;
        proof {
            let bs = self.broadcast_info.sent_batches@;
            lemma_batch_record_is(bs, bs.len() - 1);
            assert forall|b: BatchId| b != batch_id implies (#[trigger] has_batch(bs, b)
                == has_batch(old(self).broadcast_info.sent_batches@, b)) && (has_batch(
                old(self).broadcast_info.sent_batches@,
                b,
            ) ==> batch_record(bs, b) == batch_record(
                old(self).broadcast_info.sent_batches@,
                b,
            )) by {
                lemma_push_other(kept_view, bs, b);
            }
        }
    }

    /// Applies a peer's acknowledgement. The request identifier is read back
    /// into a batch identity; an identifier that does not parse, or that
    /// names no in-flight batch, leaves the state untouched. Otherwise the
    /// named batch leaves the in-flight set, the positions its retry indices
    /// name are flagged for resending, and the peer's backoff mode becomes
    /// the acknowledgement's backoff flag.
    pub fn process_broadcast_ack(
        &mut self,
        request_id: &Vec<u8>,
        retry_txns: &Vec<u64>,
        backoff: bool,
    )
        requires
            old(self).wf(),
        ensures
            final(self).wf(),
            final(self).is_alive == old(self).is_alive,
            final(self).timeline_id == old(self).timeline_id,
            match spec_deserialize_batch_id(request_id@) {
                Some(bid) => {
                    if has_batch(old(self).broadcast_info.sent_batches@, bid) {
                        &&& final(self).broadcast_info.backoff_mode == backoff
                        &&& !has_batch(final(self).broadcast_info.sent_batches@, bid)
                        &&& forall|b: BatchId|
                            b != bid ==> (#[trigger] has_batch(
                                final(self).broadcast_info.sent_batches@,
                                b,
                            ) == has_batch(old(self).broadcast_info.sent_batches@, b)) && (
                            has_batch(old(self).broadcast_info.sent_batches@, b) ==> batch_record(
                                final(self).broadcast_info.sent_batches@,
                                b,
                            ) == batch_record(old(self).broadcast_info.sent_batches@, b))
                        &&& forall|id: u64| #[trigger]
                            in_retry(final(self).broadcast_info.total_retry_txns@, id) == (
                            in_retry(old(self).broadcast_info.total_retry_txns@, id) || ack_names(
                                batch_record(old(self).broadcast_info.sent_batches@, bid).0,
                                retry_txns@,
                                id,
                            ))
                    } else {
                        unchanged_peer(*old(self), *final(self))
                    }
                },
                None => unchanged_peer(*old(self), *final(self)),
            },
    {
        let bid = match deserialize_batch_id(request_id) {
            Some(bid) => bid,
            None => {
                return ;
            },
        };
        let idx = match find_batch(&self.broadcast_info.sent_batches, &bid) {
            Some(i) => i,
            None => {
                return ;
            },
        };
        proof {
            lemma_batch_record_is(self.broadcast_info.sent_batches@, idx as int);
        }
        let ghost old_batches = self.broadcast_info.sent_batches@;
        let ghost old_retry = self.broadcast_info.total_retry_txns@;
        let ghost batch_ids = batch_record(old_batches, bid).0;

        let n = retry_txns.len();
        let mut k: usize = 0;
        while k < n
            invariant
                self.wf(),
                n == retry_txns@.len(),
                k <= n,
                self.broadcast_info.sent_batches@ == old_batches,
                self.is_alive == old(self).is_alive,
                self.timeline_id == old(self).timeline_id,
                self.broadcast_info.backoff_mode == old(self).broadcast_info.backoff_mode,
                idx < old_batches.len() && old_batches[idx as int].0 == bid,
                batch_ids == old_batches[idx as int].1.timeline_ids@,
                batch_keys_distinct(old_batches),
                forall|id: u64| #[trigger]
                    in_retry(self.broadcast_info.total_retry_txns@, id) == (in_retry(old_retry, id)
                        || exists|k2: int|
                        0 <= k2 < k && #[trigger] retry_txns@[k2] < batch_ids.len() && batch_ids[
                            retry_txns@[k2] as int
                        ] == id),
            decreases n - k,
        {
            let index = retry_txns[k];
            let ghost pre_retry = self.broadcast_info.total_retry_txns@;
            let blen = self.broadcast_info.sent_batches[idx].1.timeline_ids.len();
            let in_range = index < (blen as u64);
            if in_range {
                let id = self.broadcast_info.sent_batches[idx].1.timeline_ids[index as usize];
                proof {
                    assert(index == retry_txns@[k as int]);
                    assert(retry_txns@[k as int] < batch_ids.len());
                    assert(batch_ids[retry_txns@[k as int] as int] == id);
                }
                insert_retry_id(&mut self.broadcast_info.total_retry_txns, id);
            }
            proof {
                assert forall|id: u64| #[trigger] in_retry(
                    self.broadcast_info.total_retry_txns@,
                    id,
                ) == (in_retry(old_retry, id) || exists|k2: int|
                    0 <= k2 < k + 1 && #[trigger] retry_txns@[k2] < batch_ids.len() && batch_ids[
                        retry_txns@[k2] as int
                    ] == id) by {
                    if in_retry(self.broadcast_info.total_retry_txns@, id) && !in_retry(
                        pre_retry,
                        id,
                    ) {
                        assert(in_range);
                        assert(retry_txns@[k as int] < batch_ids.len() && batch_ids[retry_txns@[
                            k as int
                        ] as int] == id);
                    }
                    if in_retry(pre_retry, id) && !in_retry(old_retry, id) {
                        let k2 = choose|k2: int|
                            0 <= k2 < k && #[trigger] retry_txns@[k2] < batch_ids.len()
                                && batch_ids[retry_txns@[k2] as int] == id;
                    }
                    if exists|k2: int|
                        0 <= k2 < k + 1 && #[trigger] retry_txns@[k2] < batch_ids.len()
                            && batch_ids[retry_txns@[k2] as int] == id {
                        let k2 = choose|k2: int|
                            0 <= k2 < k + 1 && #[trigger] retry_txns@[k2] < batch_ids.len()
                                && batch_ids[retry_txns@[k2] as int] == id;
                        if k2 < k {
                            assert(in_retry(pre_retry, id));
                            assert(in_retry(self.broadcast_info.total_retry_txns@, id));
                        } else {
                            assert(retry_txns@[k as int] < batch_ids.len());
                            assert(in_range);
                            assert(in_retry(self.broadcast_info.total_retry_txns@, id));
                        }
                    }
                }
            }
            k += 1;
        }

        let kept = remove_batch(&self.broadcast_info.sent_batches, &bid);
        self.broadcast_info.sent_batches = kept;
        self.broadcast_info.backoff_mode = backoff;
    }

    /// Removes every in-flight batch sent strictly before `cutoff` and flags
    /// all of its positions for resending: a batch unacknowledged for too
    /// long is treated as refused.
    pub fn expire_stale_batches(&mut self, cutoff: u64)
        requires
            old(self).wf(),
        ensures
            final(self).wf(),
            final(self).is_alive == old(self).is_alive,
            final(self).timeline_id == old(self).timeline_id,
            final(self).broadcast_info.backoff_mode == old(self).broadcast_info.backoff_mode,
            forall|b: BatchId| #[trigger]
                has_batch(final(self).broadcast_info.sent_batches@, b) == (has_batch(
                    old(self).broadcast_info.sent_batches@,
                    b,
                ) && batch_record(old(self).broadcast_info.sent_batches@, b).1 >= cutoff),
            forall|b: BatchId|
                #[trigger] has_batch(final(self).broadcast_info.sent_batches@, b) ==> batch_record(
                    final(self).broadcast_info.sent_batches@,
                    b,
                ) == batch_record(old(self).broadcast_info.sent_batches@, b),
            forall|id: u64| #[trigger]
                in_retry(final(self).broadcast_info.total_retry_txns@, id) == (in_retry(
                    old(self).broadcast_info.total_retry_txns@,
                    id,
                ) || exists|b: BatchId|
                    #[trigger] has_batch(old(self).broadcast_info.sent_batches@, b)
                        && batch_record(old(self).broadcast_info.sent_batches@, b).1 < cutoff
                        && batch_record(old(self).broadcast_info.sent_batches@, b).0.contains(id)),
    {
        let n = self.broadcast_info.sent_batches.len();
        let ghost old_batches = self.broadcast_info.sent_batches@;
        let ghost old_retry = self.broadcast_info.total_retry_txns@;
        let mut kept: Vec<(BatchId, BatchInfo)> = Vec::new();
        let mut i: usize = 0;
        while i < n
            invariant
                self.wf(),
                n == self.broadcast_info.sent_batches@.len(),
                self.broadcast_info.sent_batches@ == old_batches,
                batch_keys_distinct(old_batches),
                self.is_alive == old(self).is_alive,
                self.timeline_id == old(self).timeline_id,
                self.broadcast_info.backoff_mode == old(self).broadcast_info.backoff_mode,
                i <= n,
                forall|k: int|
                    0 <= k < kept@.len() ==> from_kept_fresh(
                        #[trigger] kept@[k],
                        old_batches,
                        i as int,
                        cutoff,
                    ),
                forall|j: int|
                    0 <= j < i && (#[trigger] old_batches[j]).1.send_time >= cutoff
                        ==> present_like(old_batches[j], kept@),
                forall|k1: int, k2: int|
                    0 <= k1 < k2 < kept@.len() ==> (#[trigger] kept@[k1]).0 != (
                    #[trigger] kept@[k2]).0,
                forall|id: u64| #[trigger]
                    in_retry(self.broadcast_info.total_retry_txns@, id) == (in_retry(old_retry, id)
                        || exists|j: int|
                        0 <= j < i && (#[trigger] old_batches[j]).1.send_time < cutoff
                            && old_batches[j].1.timeline_ids@.contains(id)),
            decreases n - i,
        {
            let ghost pre_retry = self.broadcast_info.total_retry_txns@;
            if self.broadcast_info.sent_batches[i].1.send_time >= cutoff {
                let b = (
                    self.broadcast_info.sent_batches[i].0,
                    self.broadcast_info.sent_batches[i].1.clone(),
                );
                let ghost pre_kept = kept@;
                kept.push(b);
                proof {
                    assert(batch_entry_like(kept@[kept@.len() - 1], old_batches[i as int]));
                    assert forall|k1: int, k2: int| 0 <= k1 < k2 < kept@.len() implies (
                    #[trigger] kept@[k1]).0 != (#[trigger] kept@[k2]).0 by {
                        if k2 == kept@.len() - 1 {
                            assert(kept@[k1] == pre_kept[k1]);
                            assert(from_kept_fresh(pre_kept[k1], old_batches, i as int, cutoff));
                            let j = choose|j: int|
                                0 <= j < i && #[trigger] batch_entry_like(
                                    pre_kept[k1],
                                    old_batches[j],
                                ) && old_batches[j].1.send_time >= cutoff;
                            assert(old_batches[j].0 != old_batches[i as int].0);
                        }
                    }
                    assert forall|k: int| 0 <= k < kept@.len() implies from_kept_fresh(
                        #[trigger] kept@[k],
                        old_batches,
                        i + 1,
                        cutoff,
                    ) by {
                        if k < pre_kept.len() {
                            assert(kept@[k] == pre_kept[k]);
                            assert(from_kept_fresh(pre_kept[k], old_batches, i as int, cutoff));
                            lemma_from_kept_fresh_mono(pre_kept[k], old_batches, i as int, i + 1, cutoff);
                        } else {
                            assert(batch_entry_like(kept@[k], old_batches[i as int]));
                        }
                    }
                    assert forall|j: int|
                        0 <= j < i + 1 && (#[trigger] old_batches[j]).1.send_time
                            >= cutoff implies present_like(old_batches[j], kept@) by {
                        if j < i {
                            assert(present_like(old_batches[j], pre_kept));
                            let k = choose|k: int|
                                0 <= k < pre_kept.len() && #[trigger] batch_entry_like(
                                    pre_kept[k],
                                    old_batches[j],
                                );
                            assert(kept@[k] == pre_kept[k]);
                            assert(batch_entry_like(kept@[k], old_batches[j]));
                        } else {
                            assert(batch_entry_like(kept@[kept@.len() - 1], old_batches[j]));
                        }
                    }
                }
            } else {
                let ids_len = self.broadcast_info.sent_batches[i].1.timeline_ids.len();
                let mut t: usize = 0;
                while t < ids_len
                    invariant
                        self.wf(),
                        n == self.broadcast_info.sent_batches@.len(),
                        self.broadcast_info.sent_batches@ == old_batches,
                        i < n,
                        ids_len == old_batches[i as int].1.timeline_ids@.len(),
                        old_batches[i as int].1.send_time < cutoff,
                        self.is_alive == old(self).is_alive,
                        self.timeline_id == old(self).timeline_id,
                        self.broadcast_info.backoff_mode == old(self).broadcast_info.backoff_mode,
                        t <= ids_len,
                        forall|id: u64| #[trigger]
                            in_retry(self.broadcast_info.total_retry_txns@, id) == (in_retry(
                                pre_retry,
                                id,
                            ) || exists|u: int|
                                0 <= u < t && #[trigger] old_batches[i as int].1.timeline_ids@[u]
                                    == id),
                    decreases ids_len - t,
                {
                    let ghost step_retry = self.broadcast_info.total_retry_txns@;
                    let id = self.broadcast_info.sent_batches[i].1.timeline_ids[t];
                    insert_retry_id(&mut self.broadcast_info.total_retry_txns, id);
                    proof {
                        assert forall|x: u64| #[trigger] in_retry(
                            self.broadcast_info.total_retry_txns@,
                            x,
                        ) == (in_retry(pre_retry, x) || exists|u: int|
                            0 <= u < t + 1 && #[trigger] old_batches[i as int].1.timeline_ids@[u]
                                == x) by {
                            if in_retry(self.broadcast_info.total_retry_txns@, x) && !in_retry(
                                step_retry,
                                x,
                            ) {
                                assert(old_batches[i as int].1.timeline_ids@[t as int] == x);
                            }
                            if exists|u: int|
                                0 <= u < t + 1 && #[trigger] old_batches[
                                    i as int
                                ].1.timeline_ids@[u] == x {
                                let u = choose|u: int|
                                    0 <= u < t + 1 && #[trigger] old_batches[
                                        i as int
                                    ].1.timeline_ids@[u] == x;
                                if u < t {
                                    assert(in_retry(step_retry, x));
                                }
                            }
                        }
                    }
                    t += 1;
                }
                proof {
                    assert forall|k: int| 0 <= k < kept@.len() implies from_kept_fresh(
                        #[trigger] kept@[k],
                        old_batches,
                        i + 1,
                        cutoff,
                    ) by {
                        lemma_from_kept_fresh_mono(kept@[k], old_batches, i as int, i + 1, cutoff);
                    }
                    assert(old_batches[i as int].1.timeline_ids@.len() == ids_len);
                    assert forall|id: u64| #[trigger] in_retry(
                        self.broadcast_info.total_retry_txns@,
                        id,
                    ) == (in_retry(old_retry, id) || exists|j: int|
                        0 <= j < i + 1 && (#[trigger] old_batches[j]).1.send_time < cutoff
                            && old_batches[j].1.timeline_ids@.contains(id)) by {
                        if in_retry(self.broadcast_info.total_retry_txns@, id) && !in_retry(
                            old_retry,
                            id,
                        ) && !in_retry(pre_retry, id) {
                            let u = choose|u: int|
                                0 <= u < ids_len && #[trigger] old_batches[
                                    i as int
                                ].1.timeline_ids@[u] == id;
                            assert(old_batches[i as int].1.timeline_ids@.contains(id));
                        }
                        if exists|j: int|
                            0 <= j < i + 1 && (#[trigger] old_batches[j]).1.send_time < cutoff
                                && old_batches[j].1.timeline_ids@.contains(id) {
                            let j = choose|j: int|
                                0 <= j < i + 1 && (#[trigger] old_batches[j]).1.send_time < cutoff
                                    && old_batches[j].1.timeline_ids@.contains(id);
                            if j < i {
                                assert(in_retry(pre_retry, id));
                            } else {
                                let u = choose|u: int|
                                    0 <= u < old_batches[j].1.timeline_ids@.len()
                                        && old_batches[j].1.timeline_ids@[u] == id;
                                assert(in_retry(self.broadcast_info.total_retry_txns@, id));
                            }
                        }
                    }
                }
            }
            i += 1;
        }
        self.broadcast_info.sent_batches = kept;
        proof {
            let bs = self.broadcast_info.sent_batches@;
            assert forall|b: BatchId| #[trigger] has_batch(bs, b) == (has_batch(old_batches, b)
                && batch_record(old_batches, b).1 >= cutoff) by {
                if has_batch(bs, b) {
                    let k = choose|k: int| 0 <= k < bs.len() && (#[trigger] bs[k]).0 == b;
                    assert(from_kept_fresh(bs[k], old_batches, n as int, cutoff));
                    let j = choose|j: int|
                        0 <= j < n && #[trigger] batch_entry_like(bs[k], old_batches[j])
                            && old_batches[j].1.send_time >= cutoff;
                    assert(old_batches[j].0 == b);
                    lemma_batch_record_is(old_batches, j);
                }
                if has_batch(old_batches, b) && batch_record(old_batches, b).1 >= cutoff {
                    let j = choose|j: int|
                        0 <= j < old_batches.len() && (#[trigger] old_batches[j]).0 == b;
                    lemma_batch_record_is(old_batches, j);
                    assert(present_like(old_batches[j], bs));
                    let k = choose|k: int|
                        0 <= k < bs.len() && #[trigger] batch_entry_like(bs[k], old_batches[j]);
                    assert(bs[k].0 == b);
                }
            }
            assert forall|b: BatchId| #[trigger] has_batch(bs, b) implies batch_record(bs, b)
                == batch_record(old_batches, b) by {
                let k = choose|k: int| 0 <= k < bs.len() && (#[trigger] bs[k]).0 == b;
                assert(from_kept_fresh(bs[k], old_batches, n as int, cutoff));
                let j = choose|j: int|
                    0 <= j < n && #[trigger] batch_entry_like(bs[k], old_batches[j])
                        && old_batches[j].1.send_time >= cutoff;
                assert(old_batches[j].0 == b);
                lemma_batch_record_is(bs, k);
                lemma_batch_record_is(old_batches, j);
            }
            assert forall|id: u64| #[trigger] in_retry(
                self.broadcast_info.total_retry_txns@,
                id,
            ) == (in_retry(old_retry, id) || exists|b: BatchId|
                #[trigger] has_batch(old_batches, b) && batch_record(old_batches, b).1 < cutoff
                    && batch_record(old_batches, b).0.contains(id)) by {
                if in_retry(self.broadcast_info.total_retry_txns@, id) && !in_retry(
                    old_retry,
                    id,
                ) {
                    let j = choose|j: int|
                        0 <= j < n && (#[trigger] old_batches[j]).1.send_time < cutoff
                            && old_batches[j].1.timeline_ids@.contains(id);
                    lemma_batch_record_is(old_batches, j);
                    assert(has_batch(old_batches, old_batches[j].0));
                }
                if exists|b: BatchId|
                    #[trigger] has_batch(old_batches, b) && batch_record(old_batches, b).1 < cutoff
                        && batch_record(old_batches, b).0.contains(id) {
                    let b = choose|b: BatchId|
                        #[trigger] has_batch(old_batches, b) && batch_record(old_batches, b).1
                            < cutoff && batch_record(old_batches, b).0.contains(id);
                    let j = choose|j: int|
                        0 <= j < old_batches.len() && (#[trigger] old_batches[j]).0 == b;
                    lemma_batch_record_is(old_batches, j);
                }
            }
        }
    }
}

} // verus!
