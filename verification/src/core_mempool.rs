use vstd::prelude::*;

use crate::account_address::AccountAddress;
use crate::status::{MempoolStatus, MempoolStatusCode};
use crate::transaction::{bytes_eq, GovernanceRole, TimelineState, Txn, TxnPointer, TxnView};

verus! {

/// A pending transaction as the pool holds it: the transaction itself, the
/// ranking inputs the validator supplied, a logical insertion instant used to
/// break priority ties, and the timeline position once the entry is ready.
pub struct PoolEntry {
    pub txn: Txn,
    pub ranking_score: u64,
    pub governance_role: GovernanceRole,
    pub insertion_order: u64,
    pub timeline_id: Option<u64>,
}

/// Mathematical value of a `PoolEntry`.
#[verifier::ext_equal]
pub struct PoolEntryView {
    pub txn: TxnView,
    pub ranking_score: u64,
    pub governance_role: GovernanceRole,
    pub insertion_order: u64,
    pub timeline_id: Option<u64>,
}

impl View for PoolEntry {
    type V = PoolEntryView;

    open spec fn view(&self) -> PoolEntryView {
        PoolEntryView {
            txn: self.txn@,
            ranking_score: self.ranking_score,
            governance_role: self.governance_role,
            insertion_order: self.insertion_order,
            timeline_id: self.timeline_id,
        }
    }
}

impl Clone for PoolEntry {
    fn clone(&self) -> (r: Self)
        ensures
            r@ == self@,
    {
        PoolEntry {
            txn: self.txn.clone(),
            ranking_score: self.ranking_score,
            governance_role: self.governance_role,
            insertion_order: self.insertion_order,
            timeline_id: self.timeline_id,
        }
    }
}

impl PoolEntryView {
    pub open spec fn sender(self) -> AccountAddress {
        self.txn.sender
    }

    pub open spec fn seq(self) -> u64 {
        self.txn.sequence_number
    }

    pub open spec fn is_ready(self) -> bool {
        self.timeline_id is Some
    }
}

/// Two entries address the same (sender, sequence) slot.
pub open spec fn same_pointer(a: PoolEntryView, b: PoolEntryView) -> bool {
    a.sender() == b.sender() && a.seq() == b.seq()
}

/// `a` is `b` with at most the timeline position changed.
pub open spec fn same_except_timeline(a: PoolEntryView, b: PoolEntryView) -> bool {
    a.txn == b.txn && a.ranking_score == b.ranking_score && a.governance_role == b.governance_role
        && a.insertion_order == b.insertion_order
}

/// `e`, taken out of the timeline.
pub open spec fn demoted(e: PoolEntryView) -> PoolEntryView {
    PoolEntryView { timeline_id: None, ..e }
}

/// Some entry in `entries` occupies the (sender, seq) slot.
pub open spec fn live_in(entries: Seq<PoolEntryView>, sender: AccountAddress, seq: u64) -> bool {
    exists|i: int|
        0 <= i < entries.len() && (#[trigger] entries[i]).sender() == sender && entries[i].seq()
            == seq
}

/// Every sequence from `committed` up to `seq` is occupied by `sender` in
/// `entries`: the slot at `seq` is bridged to the committed prefix.
pub open spec fn chain_complete_in(
    entries: Seq<PoolEntryView>,
    committed: u64,
    sender: AccountAddress,
    seq: u64,
) -> bool {
    forall|s: u64| committed <= s <= seq ==> #[trigger] live_in(entries, sender, s)
}

/// No two entries share a (sender, sequence) slot.
pub open spec fn distinct_in(entries: Seq<PoolEntryView>) -> bool {
    forall|i: int, j: int|
        0 <= i < j < entries.len() ==> !same_pointer(#[trigger] entries[i], #[trigger] entries[j])
}

/// The entry at the (sender, seq) slot; meaningful when `live_in` holds and
/// the entries are distinct.
pub open spec fn entry_in(
    entries: Seq<PoolEntryView>,
    sender: AccountAddress,
    seq: u64,
) -> PoolEntryView {
    entries[choose|i: int|
        0 <= i < entries.len() && (#[trigger] entries[i]).sender() == sender && entries[i].seq()
            == seq]
}

/// In a distinct sequence, the slot of entry `i` resolves to entry `i`.
pub proof fn lemma_entry_in_is(entries: Seq<PoolEntryView>, i: int)
    requires
        distinct_in(entries),
        0 <= i < entries.len(),
    ensures
        entry_in(entries, entries[i].sender(), entries[i].seq()) == entries[i],
{
    let s = entries[i].sender();
    let q = entries[i].seq();
    let j = choose|j: int|
        0 <= j < entries.len() && (#[trigger] entries[j]).sender() == s && entries[j].seq() == q;
    if i < j {
        assert(!same_pointer(entries[i], entries[j]));
    } else if j < i {
        assert(!same_pointer(entries[j], entries[i]));
    }
}

/// Occupancy of a slot depends only on the pointers of the entries.
pub proof fn lemma_live_same_pointers(
    a: Seq<PoolEntryView>,
    b: Seq<PoolEntryView>,
    sender: AccountAddress,
    seq: u64,
)
    requires
        a.len() == b.len(),
        forall|i: int| 0 <= i < a.len() ==> same_pointer(#[trigger] a[i], #[trigger] b[i]),
    ensures
        live_in(a, sender, seq) == live_in(b, sender, seq),
{
    if live_in(a, sender, seq) {
        let i = choose|i: int|
            0 <= i < a.len() && (#[trigger] a[i]).sender() == sender && a[i].seq() == seq;
        assert(b[i].sender() == sender && b[i].seq() == seq);
    }
    if live_in(b, sender, seq) {
        let i = choose|i: int|
            0 <= i < b.len() && (#[trigger] b[i]).sender() == sender && b[i].seq() == seq;
        assert(a[i].sender() == sender && a[i].seq() == seq);
    }
}

/// Chain completeness depends only on the pointers of the entries.
pub proof fn lemma_chain_same_pointers(
    a: Seq<PoolEntryView>,
    b: Seq<PoolEntryView>,
    committed: u64,
    sender: AccountAddress,
    seq: u64,
)
    requires
        a.len() == b.len(),
        forall|i: int| 0 <= i < a.len() ==> same_pointer(#[trigger] a[i], #[trigger] b[i]),
    ensures
        chain_complete_in(a, committed, sender, seq) == chain_complete_in(b, committed, sender, seq),
{
    if chain_complete_in(a, committed, sender, seq) {
        assert forall|s: u64| committed <= s <= seq implies #[trigger] live_in(b, sender, s) by {
            assert(live_in(a, sender, s));
            lemma_live_same_pointers(a, b, sender, s);
        }
    }
    if chain_complete_in(b, committed, sender, seq) {
        assert forall|s: u64| committed <= s <= seq implies #[trigger] live_in(a, sender, s) by {
            assert(live_in(b, sender, s));
            lemma_live_same_pointers(a, b, sender, s);
        }
    }
}

/// Committed sequence recorded for `sender`; zero when none is recorded.
pub open spec fn lookup_committed(s: Seq<(AccountAddress, u64)>, sender: AccountAddress) -> u64
    decreases s.len(),
{
    if s.len() == 0 {
        0
    } else if s[0].0 == sender {
        s[0].1
    } else {
        lookup_committed(s.drop_first(), sender)
    }
}

proof fn lemma_lookup_absent(s: Seq<(AccountAddress, u64)>, sender: AccountAddress)
    requires
        forall|i: int| 0 <= i < s.len() ==> (#[trigger] s[i]).0 != sender,
    ensures
        lookup_committed(s, sender) == 0,
    decreases s.len(),
{
    if s.len() > 0 {
        assert(s[0].0 != sender);
        assert(forall|i: int|
            0 <= i < s.drop_first().len() ==> (#[trigger] s.drop_first()[i]).0 != sender) by {
            assert(forall|i: int|
                0 <= i < s.drop_first().len() ==> s.drop_first()[i] == s[i + 1]);
        }
        lemma_lookup_absent(s.drop_first(), sender);
    }
}

proof fn lemma_lookup_found(s: Seq<(AccountAddress, u64)>, sender: AccountAddress, i: int)
    requires
        0 <= i < s.len(),
        s[i].0 == sender,
        forall|j: int, k: int| 0 <= j < k < s.len() ==> (#[trigger] s[j]).0 != (#[trigger] s[k]).0,
    ensures
        lookup_committed(s, sender) == s[i].1,
    decreases s.len(),
{
    if i == 0 {
    } else {
        assert(s[0].0 != sender);
        let t = s.drop_first();
        assert(forall|j: int| 0 <= j < t.len() ==> t[j] == s[j + 1]);
        assert(t[i - 1].0 == sender);
        lemma_lookup_found(t, sender, i - 1);
    }
}

/// In-memory pool of pending transactions, keyed by (sender, sequence).
///
/// An entry is *ready* — part of the broadcast timeline and eligible for
/// block pulls — exactly when every sequence from the sender's committed
/// point up to the entry's own is present in the pool. Timeline positions
/// are assigned from a strictly increasing counter at the moment an entry
/// becomes ready and are never reused.
pub struct CoreMempool {
    entries: Vec<PoolEntry>,
    committed: Vec<(AccountAddress, u64)>,
    next_timeline_id: u64,
    next_insertion_order: u64,
    capacity: usize,
    max_per_sender: usize,
}

impl CoreMempool {
    /// The live entries.
    pub closed spec fn entries(self) -> Seq<PoolEntryView> {
        self.entries@.map_values(|e: PoolEntry| e@)
    }

    /// Highest committed sequence recorded for `sender` (its next valid
    /// sequence); zero when the sender has never been seen.
    pub closed spec fn committed_of(self, sender: AccountAddress) -> u64 {
        lookup_committed(self.committed@, sender)
    }

    pub closed spec fn capacity(self) -> int {
        self.capacity as int
    }

    pub closed spec fn max_per_sender(self) -> int {
        self.max_per_sender as int
    }

    /// The next timeline position to be assigned; every assigned position is
    /// smaller.
    pub closed spec fn next_timeline_id(self) -> u64 {
        self.next_timeline_id
    }

    /// The next logical insertion instant.
    pub closed spec fn next_insertion_order(self) -> u64 {
        self.next_insertion_order
    }

    /// Internal representation invariant: one committed record per sender.
    pub closed spec fn rep_inv(self) -> bool {
        forall|j: int, k: int|
            0 <= j < k < self.committed@.len() ==> (#[trigger] self.committed@[j]).0 != (
            #[trigger] self.committed@[k]).0
    }

    pub open spec fn has_entry(self, sender: AccountAddress, seq: u64) -> bool {
        live_in(self.entries(), sender, seq)
    }

    pub open spec fn chain_complete(self, sender: AccountAddress, seq: u64) -> bool {
        chain_complete_in(self.entries(), self.committed_of(sender), sender, seq)
    }

    /// No two live entries share a (sender, sequence) slot.
    pub open spec fn entries_distinct(self) -> bool {
        distinct_in(self.entries())
    }

    /// The live entry at the (sender, seq) slot; meaningful when
    /// `has_entry(sender, seq)` holds.
    pub open spec fn entry_of(self, sender: AccountAddress, seq: u64) -> PoolEntryView {
        entry_in(self.entries(), sender, seq)
    }

    /// Pool invariant.
    pub open spec fn wf(self) -> bool {
        &&& self.rep_inv()
        &&& 1 <= self.next_timeline_id()
        &&& self.entries().len() <= self.capacity()
        &&& self.entries_distinct()
        &&& forall|i: int|
            0 <= i < self.entries().len() ==> (#[trigger] self.entries()[i]).seq()
                >= self.committed_of(self.entries()[i].sender())
        &&& forall|i: int|
            0 <= i < self.entries().len() ==> ((#[trigger] self.entries()[i]).is_ready()
                <==> self.chain_complete(self.entries()[i].sender(), self.entries()[i].seq()))
        &&& forall|i: int|
            0 <= i < self.entries().len() && (#[trigger] self.entries()[i]).is_ready() ==> 1
                <= self.entries()[i].timeline_id->0 < self.next_timeline_id()
        &&& forall|i: int, j: int|
            0 <= i < j < self.entries().len() && (#[trigger] self.entries()[i]).is_ready() && (
            #[trigger] self.entries()[j]).is_ready() ==> self.entries()[i].timeline_id->0
                != self.entries()[j].timeline_id->0
        &&& forall|i: int, j: int|
            0 <= i < self.entries().len() && 0 <= j < self.entries().len() && (
            #[trigger] self.entries()[i]).is_ready() && (#[trigger] self.entries()[j]).is_ready()
                && self.entries()[i].sender() == self.entries()[j].sender()
                && self.entries()[i].seq() < self.entries()[j].seq() ==> self.entries()[
                i
            ].timeline_id->0 < self.entries()[j].timeline_id->0
        &&& forall|i: int|
            0 <= i < self.entries().len() ==> (#[trigger] self.entries()[i]).insertion_order
                < self.next_insertion_order()
        &&& forall|i: int, j: int|
            0 <= i < j < self.entries().len() ==> (#[trigger] self.entries()[i]).insertion_order
                != (#[trigger] self.entries()[j]).insertion_order
    }

    /// An empty pool bounded by `capacity` entries in total and
    /// `max_per_sender` entries per sender.
    pub fn new(capacity: usize, max_per_sender: usize) -> (r: CoreMempool)
        ensures
            r.wf(),
            r.entries().len() == 0,
            r.capacity() == capacity,
            r.max_per_sender() == max_per_sender,
            r.next_timeline_id() == 1,
            r.next_insertion_order() == 0,
            forall|s: AccountAddress| #[trigger] r.committed_of(s) == 0,
    {
        let r = CoreMempool {
            entries: Vec::new(),
            committed: Vec::new(),
            next_timeline_id: 1,
            next_insertion_order: 0,
            capacity,
            max_per_sender,
        };
        proof {
            assert(forall|s: AccountAddress| #[trigger] r.committed_of(s) == 0) by {
                assert(forall|s: AccountAddress|
                    lookup_committed(Seq::<(AccountAddress, u64)>::empty(), s) == 0);
                assert(r.committed@ =~= Seq::<(AccountAddress, u64)>::empty());
            }
        }
        r
    }

    /// Number of live entries.
    pub fn len(&self) -> (r: usize)
        ensures
            r == self.entries().len(),
    {
        self.entries.len()
    }

    /// The configured capacity.
    pub fn capacity_limit(&self) -> (r: usize)
        ensures
            r == self.capacity(),
    {
        self.capacity
    }

    /// The next timeline position to be assigned.
    pub fn next_position(&self) -> (r: u64)
        ensures
            r == self.next_timeline_id(),
    {
        self.next_timeline_id
    }

    /// The next logical insertion instant.
    pub fn next_instant(&self) -> (r: u64)
        ensures
            r == self.next_insertion_order(),
    {
        self.next_insertion_order
    }

    /// Index of the live entry at (sender, seq), if one exists.
    fn find_entry(&self, sender: &AccountAddress, seq: u64) -> (r: Option<usize>)
        ensures
            match r {
                Some(i) => i < self.entries().len() && self.entries()[i as int].sender() == *sender
                    && self.entries()[i as int].seq() == seq,
                None => !self.has_entry(*sender, seq),
            },
    {
        let n = self.entries.len();
        let mut i: usize = 0;
        while i < n
            invariant
                n == self.entries().len(),
                i <= n,
                forall|j: int|
                    0 <= j < i ==> !((#[trigger] self.entries()[j]).sender() == *sender
                        && self.entries()[j].seq() == seq),
            decreases n - i,
        {
            let e = &self.entries[i];
            if e.txn.sender == *sender && e.txn.sequence_number == seq {
                return Some(i);
            }
            i += 1;
        }
        None
    }

    /// Committed sequence recorded for `sender`.
    fn committed_for(&self, sender: &AccountAddress) -> (r: u64)
        requires
            self.rep_inv(),
        ensures
            r == self.committed_of(*sender),
    {
        let n = self.committed.len();
        let mut i: usize = 0;
        while i < n
            invariant
                self.rep_inv(),
                n == self.committed@.len(),
                i <= n,
                forall|j: int| 0 <= j < i ==> (#[trigger] self.committed@[j]).0 != *sender,
            decreases n - i,
        {
            if self.committed[i].0 == *sender {
                proof {
                    lemma_lookup_found(self.committed@, *sender, i as int);
                }
                return self.committed[i].1;
            }
            i += 1;
        }
        proof {
            lemma_lookup_absent(self.committed@, *sender);
        }
        0
    }

    /// Records `value` as the committed sequence of `sender`, leaving every
    /// other sender's record unchanged.
    fn set_committed(&mut self, sender: &AccountAddress, value: u64)
        requires
            old(self).rep_inv(),
        ensures
            final(self).rep_inv(),
            final(self).committed_of(*sender) == value,
            forall|s: AccountAddress|
                s != *sender ==> #[trigger] final(self).committed_of(s) == old(self).committed_of(
                    s,
                ),
            final(self).entries() == old(self).entries(),
            final(self).capacity() == old(self).capacity(),
            final(self).max_per_sender() == old(self).max_per_sender(),
            final(self).next_timeline_id() == old(self).next_timeline_id(),
            final(self).next_insertion_order() == old(self).next_insertion_order(),
    {
        let n = self.committed.len();
        let mut i: usize = 0;
        while i < n
            invariant
                *self == *old(self),
                self.rep_inv(),
                n == self.committed@.len(),
                i <= n,
                forall|j: int| 0 <= j < i ==> (#[trigger] self.committed@[j]).0 != *sender,
            decreases n - i,
        {
            if self.committed[i].0 == *sender {
                let ghost prev = self.committed@;
                self.committed.set(i, (*sender, value));
                proof {
                    assert(forall|j: int|
                        0 <= j < self.committed@.len() && j != i ==> self.committed@[j] == prev[j]);
                    assert forall|j: int, k: int| 0 <= j < k < self.committed@.len() implies (
                    #[trigger] self.committed@[j]).0 != (#[trigger] self.committed@[k]).0 by {
                        assert(self.committed@[j].0 == prev[j].0);
                        assert(self.committed@[k].0 == prev[k].0);
                    }
                    lemma_lookup_found(self.committed@, *sender, i as int);
                    assert forall|s: AccountAddress| s != *sender implies #[trigger] lookup_committed(
                        self.committed@,
                        s,
                    ) == lookup_committed(prev, s) by {
                        lemma_lookup_update(prev, self.committed@, s, i as int);
                    }
                }
                return ;
            }
            i += 1;
        }
        let ghost prev = self.committed@;
        self.committed.push((*sender, value));
        proof {
            assert(self.committed@ =~= prev.push((*sender, value)));
            assert forall|j: int, k: int| 0 <= j < k < self.committed@.len() implies (
            #[trigger] self.committed@[j]).0 != (#[trigger] self.committed@[k]).0 by {
                if k < prev.len() {
                    assert(prev[j].0 != prev[k].0);
                } else {
                    assert(prev[j].0 != *sender);
                }
            }
            lemma_lookup_found(self.committed@, *sender, prev.len() as int);
            assert forall|s: AccountAddress| s != *sender implies #[trigger] lookup_committed(
                self.committed@,
                s,
            ) == lookup_committed(prev, s) by {
                lemma_lookup_push(prev, (*sender, value), s);
            }
        }
    }
    /// Removes every entry the rule rejects, keeping the survivors in order.
    /// Returns the map from surviving positions to their old positions.
    fn retain_entries(&mut self, rule: RetainRule) -> (m: Ghost<Seq<int>>)
        ensures
            final(self).capacity() == old(self).capacity(),
            final(self).max_per_sender() == old(self).max_per_sender(),
            final(self).next_timeline_id() == old(self).next_timeline_id(),
            final(self).next_insertion_order() == old(self).next_insertion_order(),
            forall|s: AccountAddress| #[trigger]
                final(self).committed_of(s) == old(self).committed_of(s),
            final(self).rep_inv() == old(self).rep_inv(),
            m@.len() == final(self).entries().len(),
            forall|k: int| 0 <= k < m@.len() ==> 0 <= #[trigger] m@[k] < old(self).entries().len(),
            forall|k: int|
                0 <= k < m@.len() ==> final(self).entries()[k] == old(self).entries()[
                    #[trigger] m@[k]
                ],
            forall|k1: int, k2: int| 0 <= k1 < k2 < m@.len() ==> m@[k1] < m@[k2],
            forall|i: int|
                0 <= i < old(self).entries().len() ==> (retain_keeps(
                    rule,
                    #[trigger] old(self).entries()[i],
                ) <==> exists|k: int| 0 <= k < m@.len() && #[trigger] m@[k] == i),
    {
        let n = self.entries.len();
        let mut kept: Vec<PoolEntry> = Vec::new();
        let ghost mut m: Seq<int> = Seq::empty();
        let mut i: usize = 0;
        while i < n
            invariant
                *self == *old(self),
                n == self.entries@.len(),
                i <= n,
                m.len() == kept@.len(),
                forall|k: int| 0 <= k < m.len() ==> 0 <= #[trigger] m[k] < i,
                forall|k: int|
                    0 <= k < m.len() ==> kept@[k]@ == self.entries()[#[trigger] m[k]],
                forall|k1: int, k2: int| 0 <= k1 < k2 < m.len() ==> m[k1] < m[k2],
                forall|j: int|
                    0 <= j < i ==> (retain_keeps(rule, #[trigger] self.entries()[j]) <==> exists|
                        k: int,
                    | 0 <= k < m.len() && #[trigger] m[k] == j),
            decreases n - i,
        {
            let keep = retain_matches(&rule, &self.entries[i]);
            proof {
                let mold = m;
                if keep {
                    m = m.push(i as int);
                    assert(m[m.len() - 1] == i as int);
                }
                assert forall|j: int|
                    0 <= j < i + 1 implies (retain_keeps(rule, self.entries()[j]) <==> exists|
                    k: int,
                | 0 <= k < m.len() && #[trigger] m[k] == j) by {
                    if j == i {
                        if keep {
                            assert(m[m.len() - 1] == j);
                        } else {
                            assert(forall|k: int| 0 <= k < m.len() ==> #[trigger] m[k] < i);
                        }
                    } else {
                        if retain_keeps(rule, self.entries()[j]) {
                            let k0 = choose|k: int| 0 <= k < mold.len() && #[trigger] mold[k] == j;
                            assert(m[k0] == j);
                        } else {
                            assert forall|k: int| 0 <= k < m.len() implies #[trigger] m[k] != j by {
                                if k < mold.len() {
                                    assert(mold[k] == m[k]);
                                } else {
                                    assert(m[k] == i as int);
                                }
                            }
                        }
                    }
                }
            }
            if keep {
                kept.push(self.entries[i].clone());
            }
            i += 1;
        }
        self.entries = kept;
        proof {
            assert(forall|k: int|
                0 <= k < m.len() ==> self.entries()[k] == old(self).entries()[#[trigger] m[k]]);
        }
        Ghost(m)
    }

    /// Whether every sequence from the sender's committed point up to `seq`
    /// is live: whether the slot at `seq` is bridged to the committed prefix.
    fn chain_ok(&self, sender: &AccountAddress, seq: u64) -> (r: bool)
        requires
            self.rep_inv(),
        ensures
            r == self.chain_complete(*sender, seq),
    {
        let c = self.committed_for(sender);
        if seq < c {
            return true;
        }
        let mut s = c;
        loop
            invariant
                self.rep_inv(),
                c == self.committed_of(*sender),
                c <= s <= seq,
                forall|t: u64| c <= t < s ==> #[trigger] live_in(self.entries(), *sender, t),
            decreases seq - s,
        {
            match self.find_entry(sender, s) {
                Some(_) => {
                    assert(live_in(self.entries(), *sender, s));
                },
                None => {
                    assert(!self.chain_complete(*sender, seq)) by {
                        assert(c <= s <= seq && !live_in(self.entries(), *sender, s));
                    }
                    return false;
                },
            }
            if s == seq {
                return true;
            }
            s += 1;
        }
    }

    /// Takes out of the timeline every entry whose chain to the committed
    /// prefix is broken; everything else is left exactly as it was.
    fn demote_broken(&mut self)
        requires
            old(self).rep_inv(),
        ensures
            final(self).rep_inv(),
            final(self).capacity() == old(self).capacity(),
            final(self).max_per_sender() == old(self).max_per_sender(),
            final(self).next_timeline_id() == old(self).next_timeline_id(),
            final(self).next_insertion_order() == old(self).next_insertion_order(),
            forall|s: AccountAddress| #[trigger]
                final(self).committed_of(s) == old(self).committed_of(s),
            final(self).entries().len() == old(self).entries().len(),
            forall|i: int|
                0 <= i < old(self).entries().len() ==> #[trigger] final(self).entries()[i] == (
                if chain_complete_in(
                    old(self).entries(),
                    old(self).committed_of(old(self).entries()[i].sender()),
                    old(self).entries()[i].sender(),
                    old(self).entries()[i].seq(),
                ) {
                    old(self).entries()[i]
                } else {
                    demoted(old(self).entries()[i])
                }),
    {
        let n = self.entries.len();
        let mut i: usize = 0;
        while i < n
            invariant
                self.rep_inv(),
                self.committed@ == old(self).committed@,
                self.capacity == old(self).capacity,
                self.max_per_sender == old(self).max_per_sender,
                self.next_timeline_id == old(self).next_timeline_id,
                self.next_insertion_order == old(self).next_insertion_order,
                n == self.entries@.len(),
                self.entries@.len() == old(self).entries@.len(),
                i <= n,
                forall|j: int|
                    i <= j < n ==> #[trigger] self.entries()[j] == old(self).entries()[j],
                forall|j: int|
                    0 <= j < n ==> same_pointer(
                        #[trigger] self.entries()[j],
                        old(self).entries()[j],
                    ),
                forall|j: int|
                    0 <= j < i ==> #[trigger] self.entries()[j] == (if chain_complete_in(
                        old(self).entries(),
                        old(self).committed_of(old(self).entries()[j].sender()),
                        old(self).entries()[j].sender(),
                        old(self).entries()[j].seq(),
                    ) {
                        old(self).entries()[j]
                    } else {
                        demoted(old(self).entries()[j])
                    }),
            decreases n - i,
        {
            let ghost oe = old(self).entries();
            let ghost cc_i = chain_complete_in(
                oe,
                old(self).committed_of(oe[i as int].sender()),
                oe[i as int].sender(),
                oe[i as int].seq(),
            );
            let ready = self.entries[i].timeline_id.is_some();
            if ready {
                let sender = self.entries[i].txn.sender;
                let sq = self.entries[i].txn.sequence_number;
                let ok = self.chain_ok(&sender, sq);
                proof {
                    assert(self.committed_of(sender) == old(self).committed_of(sender));
                    lemma_chain_same_pointers(
                        self.entries(),
                        oe,
                        old(self).committed_of(sender),
                        sender,
                        sq,
                    );
                    assert(self.entries()[i as int] == oe[i as int]);
                    assert(sender == oe[i as int].sender() && sq == oe[i as int].seq());
                    assert(ok == cc_i);
                }
                if !ok {
                    let mut ne = self.entries[i].clone();
                    ne.timeline_id = None;
                    let ghost prev = self.entries@;
                    self.entries.set(i, ne);
                    proof {
                        assert(forall|j: int|
                            0 <= j < n && j != i ==> self.entries@[j] == prev[j]);
                        assert(forall|j: int|
                            0 <= j < n && j != i ==> #[trigger] self.entries()[j]
                                == prev.map_values(|e: PoolEntry| e@)[j]);
                        assert(ne@ =~= demoted(prev[i as int]@));
                        assert(self.entries()[i as int] == demoted(oe[i as int]));
                        assert(same_pointer(self.entries()[i as int], oe[i as int]));
                    }
                } else {
                    proof {
                        assert(self.entries()[i as int] == oe[i as int]);
                    }
                }
            } else {
                proof {
                    assert(self.entries()[i as int] == oe[i as int]);
                    assert(oe[i as int].timeline_id is None);
                    assert(oe[i as int] =~= demoted(oe[i as int]));
                }
            }
            i += 1;
        }
    }

    /// Number of live entries belonging to `sender`.
    fn count_sender_entries(&self, sender: &AccountAddress) -> (r: usize)
        ensures
            r == count_sender(self.entries(), *sender),
    {
        let n = self.entries.len();
        let mut cnt: usize = 0;
        let mut i: usize = 0;
        while i < n
            invariant
                n == self.entries().len(),
                i <= n,
                cnt == count_sender(self.entries().take(i as int), *sender),
                cnt <= i,
            decreases n - i,
        {
            proof {
                assert(self.entries().take(i + 1).drop_last() =~= self.entries().take(i as int));
                assert(self.entries().take(i + 1).last() == self.entries()[i as int]);
            }
            if self.entries[i].txn.sender == *sender {
                cnt += 1;
            }
            i += 1;
        }
        proof {
            assert(self.entries().take(n as int) =~= self.entries());
        }
        cnt
    }

    /// Number of live entries of `sender` below the committed point `eff`.
    fn count_stale_entries(&self, sender: &AccountAddress, eff: u64) -> (r: usize)
        ensures
            r == count_stale(self.entries(), *sender, eff),
    {
        let n = self.entries.len();
        let mut cnt: usize = 0;
        let mut i: usize = 0;
        while i < n
            invariant
                n == self.entries().len(),
                i <= n,
                cnt == count_stale(self.entries().take(i as int), *sender, eff),
                cnt <= i,
            decreases n - i,
        {
            proof {
                assert(self.entries().take(i + 1).drop_last() =~= self.entries().take(i as int));
                assert(self.entries().take(i + 1).last() == self.entries()[i as int]);
            }
            if self.entries[i].txn.sender == *sender && self.entries[i].txn.sequence_number < eff {
                cnt += 1;
            }
            i += 1;
        }
        proof {
            assert(self.entries().take(n as int) =~= self.entries());
        }
        cnt
    }

    /// Index of an eviction candidate with the lowest ranking score, if one
    /// exists.
    fn find_victim(&self) -> (r: Option<usize>)
        ensures
            match r {
                Some(v) => {
                    &&& v < self.entries().len()
                    &&& eviction_candidate(self.entries()[v as int])
                    &&& forall|j: int|
                        0 <= j < self.entries().len() && eviction_candidate(
                            #[trigger] self.entries()[j],
                        ) ==> self.entries()[v as int].ranking_score
                            <= self.entries()[j].ranking_score
                },
                None => forall|j: int|
                    0 <= j < self.entries().len() ==> !eviction_candidate(
                        #[trigger] self.entries()[j],
                    ),
            },
    {
        let n = self.entries.len();
        let mut best: Option<usize> = None;
        let mut i: usize = 0;
        while i < n
            invariant
                n == self.entries().len(),
                i <= n,
                match best {
                    Some(v) => {
                        &&& v < i
                        &&& eviction_candidate(self.entries()[v as int])
                        &&& forall|j: int|
                            0 <= j < i && eviction_candidate(#[trigger] self.entries()[j])
                                ==> self.entries()[v as int].ranking_score
                                <= self.entries()[j].ranking_score
                    },
                    None => forall|j: int|
                        0 <= j < i ==> !eviction_candidate(#[trigger] self.entries()[j]),
                },
            decreases n - i,
        {
            let is_candidate = self.entries[i].timeline_id.is_none() && matches!(
                self.entries[i].governance_role,
                GovernanceRole::NonGovernance
            );
            if is_candidate {
                let take = match best {
                    Some(v) => self.entries[i].ranking_score < self.entries[v].ranking_score,
                    None => true,
                };
                if take {
                    best = Some(i);
                }
            }
            i += 1;
        }
        best
    }

    /// Index of the timeline entry with the smallest position above `after`,
    /// if any.
    fn find_next_ready(&self, after: u64) -> (r: Option<usize>)
        ensures
            match r {
                Some(i) => {
                    &&& i < self.entries().len()
                    &&& self.entries()[i as int].timeline_id is Some
                    &&& self.entries()[i as int].timeline_id->0 > after
                    &&& forall|j: int|
                        0 <= j < self.entries().len() && (#[trigger] self.entries()[j]).timeline_id
                            is Some && self.entries()[j].timeline_id->0 > after
                            ==> self.entries()[i as int].timeline_id->0
                            <= self.entries()[j].timeline_id->0
                },
                None => forall|j: int|
                    0 <= j < self.entries().len() && (#[trigger] self.entries()[j]).timeline_id
                        is Some ==> self.entries()[j].timeline_id->0 <= after,
            },
    {
        let n = self.entries.len();
        let mut best: Option<usize> = None;
        let mut i: usize = 0;
        while i < n
            invariant
                n == self.entries().len(),
                i <= n,
                match best {
                    Some(b) => {
                        &&& b < i
                        &&& self.entries()[b as int].timeline_id is Some
                        &&& self.entries()[b as int].timeline_id->0 > after
                        &&& forall|j: int|
                            0 <= j < i && (#[trigger] self.entries()[j]).timeline_id is Some
                                && self.entries()[j].timeline_id->0 > after ==> self.entries()[
                                b as int
                            ].timeline_id->0 <= self.entries()[j].timeline_id->0
                    },
                    None => forall|j: int|
                        0 <= j < i && (#[trigger] self.entries()[j]).timeline_id is Some
                            ==> self.entries()[j].timeline_id->0 <= after,
                },
            decreases n - i,
        {
            match self.entries[i].timeline_id {
                Some(id) => {
                    if id > after {
                        let take = match best {
                            Some(b) => match self.entries[b].timeline_id {
                                Some(bid) => id < bid,
                                None => true,
                            },
                            None => true,
                        };
                        if take {
                            best = Some(i);
                        }
                    }
                },
                None => {},
            }
            i += 1;
        }
        best
    }

    /// Up to `count` timeline entries with positions above `timeline_id`, in
    /// increasing position order, together with the last position handed out
    /// (`timeline_id` itself when there is none). The result is the exact
    /// in-order prefix of the live timeline above `timeline_id`: a position is
    /// left out only when the result is full and the position lies beyond its
    /// end.
    pub fn read_timeline(&self, timeline_id: u64, count: usize) -> (r: (Vec<(u64, Txn)>, u64))
        requires
            self.wf(),
        ensures
            r.0@.len() <= count,
            forall|k: int| 0 <= k < r.0@.len() ==> (#[trigger] r.0@[k]).0 > timeline_id,
            forall|k1: int, k2: int| 0 <= k1 < k2 < r.0@.len() ==> r.0@[k1].0 < r.0@[k2].0,
            forall|k: int|
                0 <= k < r.0@.len() ==> ready_id_in(self.entries(), (#[trigger] r.0@[k]).0)
                    && r.0@[k].1@ == txn_for_id(self.entries(), r.0@[k].0),
            forall|id: u64|
                #[trigger] ready_id_in(self.entries(), id) && id > timeline_id ==> (exists|k: int|
                    0 <= k < r.0@.len() && (#[trigger] r.0@[k]).0 == id) || (r.0@.len() == count
                    && id > r.1),
            r.0@.len() == 0 ==> r.1 == timeline_id,
            r.0@.len() > 0 ==> r.1 == r.0@[r.0@.len() - 1].0,
    {
        let mut out: Vec<(u64, Txn)> = Vec::new();
        let mut last = timeline_id;
        while out.len() < count
            invariant
                self.wf(),
                out@.len() <= count,
                timeline_id <= last,
                out@.len() == 0 ==> last == timeline_id,
                out@.len() > 0 ==> last == out@[out@.len() - 1].0,
                forall|k: int| 0 <= k < out@.len() ==> (#[trigger] out@[k]).0 > timeline_id,
                forall|k1: int, k2: int| 0 <= k1 < k2 < out@.len() ==> out@[k1].0 < out@[k2].0,
                forall|k: int|
                    0 <= k < out@.len() ==> ready_id_in(self.entries(), (#[trigger] out@[k]).0)
                        && out@[k].1@ == txn_for_id(self.entries(), out@[k].0),
                forall|id: u64|
                    #[trigger] ready_id_in(self.entries(), id) && timeline_id < id <= last
                        ==> exists|k: int| 0 <= k < out@.len() && (#[trigger] out@[k]).0 == id,
            decreases count - out@.len(),
        {
            match self.find_next_ready(last) {
                None => {
                    proof {
                        assert forall|id: u64|
                            #[trigger] ready_id_in(self.entries(), id) && id > timeline_id implies exists|
                            k: int,
                        | 0 <= k < out@.len() && (#[trigger] out@[k]).0 == id by {
                            let j = choose|j: int|
                                0 <= j < self.entries().len() && (
                                #[trigger] self.entries()[j]).timeline_id == Some(id);
                            assert(self.entries()[j].timeline_id->0 <= last);
                        }
                    }
                    return (out, last);
                },
                Some(i) => {
                    let id = match self.entries[i].timeline_id {
                        Some(id) => id,
                        None => 0,
                    };
                    proof {
                        lemma_txn_for_id_is(self.entries(), i as int);
                    }
                    let ghost old_last = last;
                    let ghost old_out = out@;
                    out.push((id, self.entries[i].txn.clone()));
                    last = id;
                    proof {
                        assert(out@[out@.len() - 1].0 == id);
                        assert forall|id2: u64|
                            #[trigger] ready_id_in(self.entries(), id2) && timeline_id < id2
                                <= last implies exists|k: int|
                            0 <= k < out@.len() && (#[trigger] out@[k]).0 == id2 by {
                            if id2 == id {
                                assert(out@[out@.len() - 1].0 == id2);
                            } else {
                                let j = choose|j: int|
                                    0 <= j < self.entries().len() && (
                                    #[trigger] self.entries()[j]).timeline_id == Some(id2);
                                if id2 > old_last {
                                    assert(self.entries()[j].timeline_id->0 > old_last);
                                    assert(id <= self.entries()[j].timeline_id->0);
                                    assert(false);
                                }
                                assert(exists|k: int|
                                    0 <= k < old_out.len() && (#[trigger] old_out[k]).0 == id2);
                                let k = choose|k: int|
                                    0 <= k < old_out.len() && (#[trigger] old_out[k]).0 == id2;
                                assert(out@[k].0 == id2);
                            }
                        }
                    }
                },
            }
        }
        proof {
            assert(out@.len() == count);
        }
        (out, last)
    }

    /// The transactions still at the given timeline positions, in the order
    /// the positions were given.
    pub fn filter_read_timeline(&self, timeline_ids: Vec<u64>) -> (r: Vec<(u64, Txn)>)
        requires
            self.wf(),
        ensures
            r@.len() == spec_filter_timeline(self.entries(), timeline_ids@).len(),
            forall|k: int|
                0 <= k < r@.len() ==> ((#[trigger] r@[k]).0, r@[k].1@) == spec_filter_timeline(
                    self.entries(),
                    timeline_ids@,
                )[k],
    {
        let n = timeline_ids.len();
        let mut out: Vec<(u64, Txn)> = Vec::new();
        let mut i: usize = 0;
        while i < n
            invariant
                self.wf(),
                n == timeline_ids@.len(),
                i <= n,
                out@.len() == spec_filter_timeline(self.entries(), timeline_ids@.take(i as int)).len(),
                forall|k: int|
                    0 <= k < out@.len() ==> ((#[trigger] out@[k]).0, out@[k].1@)
                        == spec_filter_timeline(self.entries(), timeline_ids@.take(i as int))[k],
            decreases n - i,
        {
            let id = timeline_ids[i];
            proof {
                assert(timeline_ids@.take(i + 1).drop_last() =~= timeline_ids@.take(i as int));
                assert(timeline_ids@.take(i + 1).last() == id);
            }
            match self.find_entry_with_id(id) {
                Some(j) => {
                    proof {
                        lemma_txn_for_id_is(self.entries(), j as int);
                    }
                    out.push((id, self.entries[j].txn.clone()));
                },
                None => {},
            }
            i += 1;
        }
        proof {
            assert(timeline_ids@.take(n as int) =~= timeline_ids@);
        }
        out
    }

    /// Index of the entry at timeline position `id`, if that position is
    /// still live.
    fn find_entry_with_id(&self, id: u64) -> (r: Option<usize>)
        ensures
            match r {
                Some(j) => j < self.entries().len() && self.entries()[j as int].timeline_id
                    == Some(id),
                None => !ready_id_in(self.entries(), id),
            },
    {
        let n = self.entries.len();
        let mut i: usize = 0;
        while i < n
            invariant
                n == self.entries().len(),
                i <= n,
                forall|j: int|
                    0 <= j < i ==> (#[trigger] self.entries()[j]).timeline_id != Some(id),
            decreases n - i,
        {
            match self.entries[i].timeline_id {
                Some(eid) => {
                    if eid == id {
                        return Some(i);
                    }
                },
                None => {},
            }
            i += 1;
        }
        None
    }

    /// Whether the entry at index `x` can go into a block pull: it is in the
    /// timeline and its pointer is not excluded.
    pub open spec fn block_eligible(self, x: int, exclude: Seq<TxnPointer>) -> bool {
        &&& self.entries()[x].is_ready()
        &&& !excluded_in(exclude, self.entries()[x].sender(), self.entries()[x].seq())
    }

    /// Index of the eligible entry that comes first in the block order among
    /// those after `prev` (after everything, when `prev` is `None`).
    fn find_block_next(&self, exclude: &Vec<TxnPointer>, prev: Option<usize>) -> (r: Option<usize>)
        requires
            self.wf(),
            prev matches Some(p) ==> p < self.entries().len(),
        ensures
            match r {
                Some(i) => {
                    &&& i < self.entries().len()
                    &&& self.block_eligible(i as int, exclude@)
                    &&& (prev matches Some(p) ==> block_before(
                        self.entries()[p as int],
                        self.entries()[i as int],
                    ))
                    &&& forall|j: int|
                        0 <= j < self.entries().len() && j != i && #[trigger] self.block_eligible(
                            j,
                            exclude@,
                        ) && (prev matches Some(p) ==> block_before(
                            self.entries()[p as int],
                            self.entries()[j],
                        )) ==> block_before(self.entries()[i as int], self.entries()[j])
                },
                None => forall|j: int|
                    0 <= j < self.entries().len() ==> !(#[trigger] self.block_eligible(j, exclude@)
                        && (prev matches Some(p) ==> block_before(
                        self.entries()[p as int],
                        self.entries()[j],
                    ))),
            },
    {
        let n = self.entries.len();
        let mut best: Option<usize> = None;
        let mut i: usize = 0;
        while i < n
            invariant
                self.wf(),
                n == self.entries().len(),
                i <= n,
                prev matches Some(p) ==> p < n,
                match best {
                    Some(b) => {
                        &&& b < i
                        &&& self.block_eligible(b as int, exclude@)
                        &&& (prev matches Some(p) ==> block_before(
                            self.entries()[p as int],
                            self.entries()[b as int],
                        ))
                        &&& forall|j: int|
                            0 <= j < i && j != b && #[trigger] self.block_eligible(j, exclude@)
                                && (prev matches Some(p) ==> block_before(
                                self.entries()[p as int],
                                self.entries()[j],
                            )) ==> block_before(self.entries()[b as int], self.entries()[j])
                    },
                    None => forall|j: int|
                        0 <= j < i ==> !(#[trigger] self.block_eligible(j, exclude@) && (
                        prev matches Some(p) ==> block_before(
                            self.entries()[p as int],
                            self.entries()[j],
                        ))),
                },
            decreases n - i,
        {
            let eligible = self.entries[i].timeline_id.is_some() && !is_excluded(
                exclude,
                &self.entries[i].txn.sender,
                self.entries[i].txn.sequence_number,
            );
            let after_prev = match prev {
                Some(p) => block_before_exec(&self.entries[p], &self.entries[i]),
                None => true,
            };
            if eligible && after_prev {
                let take = match best {
                    Some(b) => block_before_exec(&self.entries[i], &self.entries[b]),
                    None => true,
                };
                if take {
                    proof {
                        assert forall|j: int|
                            0 <= j < i + 1 && j != i && #[trigger] self.block_eligible(j, exclude@)
                                && (prev matches Some(p) ==> block_before(
                                self.entries()[p as int],
                                self.entries()[j],
                            )) implies block_before(self.entries()[i as int], self.entries()[j]) by {
                            let b = best->0;
                            assert(block_before(self.entries()[b as int], self.entries()[j])
                                || j == b as int);
                            if j != b as int {
                                lemma_block_before_trans(
                                    self.entries()[i as int],
                                    self.entries()[b as int],
                                    self.entries()[j],
                                );
                            }
                        }
                    }
                    best = Some(i);
                } else {
                    proof {
                        let b = best->0;
                        assert(!block_before(self.entries()[i as int], self.entries()[b as int]));
                        assert(self.entries()[i as int].insertion_order != self.entries()[
                            b as int
                        ].insertion_order);
                        assert(block_before(self.entries()[b as int], self.entries()[i as int]));
                    }
                }
            }
            i += 1;
        }
        best
    }

    /// Up to `max_size` timeline entries eligible against the exclusion list,
    /// in the block order: higher governance class first, then higher ranking
    /// score, then earlier insertion. The pool is not changed; an eligible
    /// entry is left out only when the block is full and the entry comes
    /// after everything in it.
    pub fn get_block(&self, max_size: u64, exclude: &Vec<TxnPointer>) -> (r: Vec<Txn>)
        requires
            self.wf(),
        ensures
            r@.len() <= max_size,
            forall|k: int|
                0 <= k < r@.len() ==> #[trigger] self.has_entry(r@[k].sender, r@[k].sequence_number)
                    && self.entry_of(r@[k].sender, r@[k].sequence_number).txn == r@[k]@
                    && self.entry_of(r@[k].sender, r@[k].sequence_number).is_ready()
                    && !excluded_in(exclude@, r@[k].sender, r@[k].sequence_number),
            forall|k1: int, k2: int|
                0 <= k1 < k2 < r@.len() ==> !((#[trigger] r@[k1]).sender == (
                #[trigger] r@[k2]).sender && r@[k1].sequence_number == r@[k2].sequence_number),
            forall|k1: int, k2: int|
                0 <= k1 < k2 < r@.len() ==> block_before(
                    self.entry_of((#[trigger] r@[k1]).sender, r@[k1].sequence_number),
                    self.entry_of((#[trigger] r@[k2]).sender, r@[k2].sequence_number),
                ),
            forall|i: int|
                0 <= i < self.entries().len() && (#[trigger] self.entries()[i]).is_ready()
                    && !excluded_in(exclude@, self.entries()[i].sender(), self.entries()[i].seq())
                    ==> (exists|k: int|
                    0 <= k < r@.len() && (#[trigger] r@[k]).sender == self.entries()[i].sender()
                        && r@[k].sequence_number == self.entries()[i].seq()) || (r@.len() == max_size
                    && (r@.len() == 0 || block_before(
                    self.entry_of(r@[r@.len() - 1].sender, r@[r@.len() - 1].sequence_number),
                    self.entries()[i],
                ))),
    {
        let mut out: Vec<Txn> = Vec::new();
        let ghost mut sel: Seq<int> = Seq::empty();
        let mut prev: Option<usize> = None;
        while (out.len() as u64) < max_size
            invariant
                self.wf(),
                sel.len() == out@.len(),
                out@.len() <= max_size,
                forall|k: int| 0 <= k < sel.len() ==> 0 <= #[trigger] sel[k] < self.entries().len(),
                forall|k: int|
                    0 <= k < sel.len() ==> #[trigger] out@[k]@ == self.entries()[sel[k]].txn,
                forall|k: int| 0 <= k < sel.len() ==> self.block_eligible(#[trigger] sel[k], exclude@),
                forall|k1: int, k2: int|
                    0 <= k1 < k2 < sel.len() ==> block_before(
                        self.entries()[#[trigger] sel[k1]],
                        self.entries()[#[trigger] sel[k2]],
                    ),
                match prev {
                    Some(p) => sel.len() > 0 && p as int == sel[sel.len() - 1],
                    None => sel.len() == 0,
                },
                forall|i: int|
                    0 <= i < self.entries().len() && #[trigger] self.block_eligible(i, exclude@)
                        && !(exists|k: int| 0 <= k < sel.len() && #[trigger] sel[k] == i)
                        ==> sel.len() == 0 || block_before(
                        self.entries()[sel[sel.len() - 1]],
                        self.entries()[i],
                    ),
            decreases max_size - out@.len(),
        {
            match self.find_block_next(exclude, prev) {
                None => {
                    proof {
                        self.lemma_block_result(out@, sel, exclude@, max_size);
                        assert forall|i: int|
                            0 <= i < self.entries().len() && (
                            #[trigger] self.entries()[i]).is_ready() && !excluded_in(
                            exclude@,
                            self.entries()[i].sender(),
                            self.entries()[i].seq(),
                        ) implies (exists|k: int|
                            0 <= k < out@.len() && (#[trigger] out@[k]).sender == self.entries()[
                                i
                            ].sender() && out@[k].sequence_number == self.entries()[i].seq()) || (
                        out@.len() == max_size && (out@.len() == 0 || block_before(
                            self.entry_of(
                                out@[out@.len() - 1].sender,
                                out@[out@.len() - 1].sequence_number,
                            ),
                            self.entries()[i],
                        ))) by {
                            assert(self.block_eligible(i, exclude@));
                            if !(exists|k: int| 0 <= k < sel.len() && #[trigger] sel[k] == i) {
                                if sel.len() == 0 {
                                    assert(false);
                                } else {
                                    assert(block_before(
                                        self.entries()[sel[sel.len() - 1]],
                                        self.entries()[i],
                                    ));
                                    assert(false);
                                }
                            } else {
                                let k = choose|k: int| 0 <= k < sel.len() && #[trigger] sel[k] == i;
                                assert(out@[k]@ == self.entries()[i].txn);
                                assert(out@[k].sender == self.entries()[i].sender());
                            }
                        }
                    }
                    return out;
                },
                Some(i) => {
                    proof {
                        if exists|k: int| 0 <= k < sel.len() && #[trigger] sel[k] == i {
                            let k = choose|k: int| 0 <= k < sel.len() && #[trigger] sel[k] == i;
                            assert(k == sel.len() - 1 || block_before(
                                self.entries()[sel[k]],
                                self.entries()[sel[sel.len() - 1]],
                            ));
                            assert(block_before(
                                self.entries()[sel[sel.len() - 1]],
                                self.entries()[i as int],
                            ));
                            if k < sel.len() - 1 {
                                lemma_block_before_trans(
                                    self.entries()[sel[k]],
                                    self.entries()[sel[sel.len() - 1]],
                                    self.entries()[sel[k]],
                                );
                            }
                            assert(false);
                        }
                    }
                    let ghost old_sel = sel;
                    out.push(self.entries[i].txn.clone());
                    proof {
                        sel = sel.push(i as int);
                        assert(sel[sel.len() - 1] == i as int);
                        assert forall|k1: int, k2: int|
                            0 <= k1 < k2 < sel.len() implies block_before(
                            self.entries()[#[trigger] sel[k1]],
                            self.entries()[#[trigger] sel[k2]],
                        ) by {
                            if k2 == sel.len() - 1 && k1 < old_sel.len() - 1 {
                                lemma_block_before_trans(
                                    self.entries()[old_sel[k1]],
                                    self.entries()[old_sel[old_sel.len() - 1]],
                                    self.entries()[i as int],
                                );
                            }
                        }
                        assert forall|j: int|
                            0 <= j < self.entries().len() && #[trigger] self.block_eligible(
                                j,
                                exclude@,
                            ) && !(exists|k: int| 0 <= k < sel.len() && #[trigger] sel[k] == j) implies sel.len()
                            == 0 || block_before(
                            self.entries()[sel[sel.len() - 1]],
                            self.entries()[j],
                        ) by {
                            assert(j != i as int) by {
                                assert(sel[sel.len() - 1] == i as int);
                            }
                            if old_sel.len() > 0 {
                                if exists|k: int| 0 <= k < old_sel.len() && #[trigger] old_sel[k] == j {
                                    let k = choose|k: int|
                                        0 <= k < old_sel.len() && #[trigger] old_sel[k] == j;
                                    assert(sel[k] == j);
                                    assert(false);
                                }
                                assert(block_before(
                                    self.entries()[old_sel[old_sel.len() - 1]],
                                    self.entries()[j],
                                ));
                            }
                        }
                    }
                    prev = Some(i);
                },
            }
        }
        proof {
            self.lemma_block_result(out@, sel, exclude@, max_size);
            assert forall|i: int|
                0 <= i < self.entries().len() && (#[trigger] self.entries()[i]).is_ready()
                    && !excluded_in(
                    exclude@,
                    self.entries()[i].sender(),
                    self.entries()[i].seq(),
                ) implies (exists|k: int|
                0 <= k < out@.len() && (#[trigger] out@[k]).sender == self.entries()[i].sender()
                    && out@[k].sequence_number == self.entries()[i].seq()) || (out@.len() == max_size
                && (out@.len() == 0 || block_before(
                self.entry_of(out@[out@.len() - 1].sender, out@[out@.len() - 1].sequence_number),
                self.entries()[i],
            ))) by {
                assert(self.block_eligible(i, exclude@));
                if exists|k: int| 0 <= k < sel.len() && #[trigger] sel[k] == i {
                    let k = choose|k: int| 0 <= k < sel.len() && #[trigger] sel[k] == i;
                    assert(out@[k]@ == self.entries()[i].txn);
                    assert(out@[k].sender == self.entries()[i].sender());
                } else if sel.len() > 0 {
                    assert(block_before(self.entries()[sel[sel.len() - 1]], self.entries()[i]));
                    let p = sel[sel.len() - 1];
                    lemma_entry_in_is(self.entries(), p);
                    assert(out@[out@.len() - 1]@ == self.entries()[p].txn);
                }
            }
        }
        out
    }

    /// Shared part of the block-pull postconditions: membership, distinct
    /// pointers, and ordering of the result.
    proof fn lemma_block_result(
        &self,
        outv: Seq<Txn>,
        sel: Seq<int>,
        exclude: Seq<TxnPointer>,
        max_size: u64,
    )
        requires
            self.wf(),
            sel.len() == outv.len(),
            forall|k: int| 0 <= k < sel.len() ==> 0 <= #[trigger] sel[k] < self.entries().len(),
            forall|k: int| 0 <= k < sel.len() ==> #[trigger] outv[k]@ == self.entries()[sel[k]].txn,
            forall|k: int| 0 <= k < sel.len() ==> self.block_eligible(#[trigger] sel[k], exclude),
            forall|k1: int, k2: int|
                0 <= k1 < k2 < sel.len() ==> block_before(
                    self.entries()[#[trigger] sel[k1]],
                    self.entries()[#[trigger] sel[k2]],
                ),
        ensures
            forall|k: int|
                0 <= k < outv.len() ==> #[trigger] self.has_entry(
                    outv[k].sender,
                    outv[k].sequence_number,
                ) && self.entry_of(outv[k].sender, outv[k].sequence_number).txn == outv[k]@
                    && self.entry_of(outv[k].sender, outv[k].sequence_number).is_ready()
                    && !excluded_in(exclude, outv[k].sender, outv[k].sequence_number),
            forall|k1: int, k2: int|
                0 <= k1 < k2 < outv.len() ==> !((#[trigger] outv[k1]).sender == (
                #[trigger] outv[k2]).sender && outv[k1].sequence_number
                    == outv[k2].sequence_number),
            forall|k1: int, k2: int|
                0 <= k1 < k2 < outv.len() ==> block_before(
                    self.entry_of((#[trigger] outv[k1]).sender, outv[k1].sequence_number),
                    self.entry_of((#[trigger] outv[k2]).sender, outv[k2].sequence_number),
                ),
    {
        assert forall|k: int| 0 <= k < outv.len() implies #[trigger] self.has_entry(
            outv[k].sender,
            outv[k].sequence_number,
        ) && self.entry_of(outv[k].sender, outv[k].sequence_number).txn == outv[k]@
            && self.entry_of(outv[k].sender, outv[k].sequence_number).is_ready() && !excluded_in(
            exclude,
            outv[k].sender,
            outv[k].sequence_number,
        ) by {
            lemma_entry_in_is(self.entries(), sel[k]);
            assert(outv[k]@ == self.entries()[sel[k]].txn);
            assert(self.entries()[sel[k]].sender() == outv[k].sender);
            assert(self.entries()[sel[k]].seq() == outv[k].sequence_number);
        }
        assert forall|k1: int, k2: int| 0 <= k1 < k2 < outv.len() implies !((
        #[trigger] outv[k1]).sender == (#[trigger] outv[k2]).sender && outv[k1].sequence_number
            == outv[k2].sequence_number) by {
            assert(block_before(self.entries()[sel[k1]], self.entries()[sel[k2]]));
            assert(sel[k1] != sel[k2]);
            if sel[k1] < sel[k2] {
                assert(!same_pointer(self.entries()[sel[k1]], self.entries()[sel[k2]]));
            } else {
                assert(!same_pointer(self.entries()[sel[k2]], self.entries()[sel[k1]]));
            }
            assert(outv[k1]@ == self.entries()[sel[k1]].txn);
            assert(outv[k2]@ == self.entries()[sel[k2]].txn);
        }
        assert forall|k1: int, k2: int| 0 <= k1 < k2 < outv.len() implies block_before(
            self.entry_of((#[trigger] outv[k1]).sender, outv[k1].sequence_number),
            self.entry_of((#[trigger] outv[k2]).sender, outv[k2].sequence_number),
        ) by {
            lemma_entry_in_is(self.entries(), sel[k1]);
            lemma_entry_in_is(self.entries(), sel[k2]);
            assert(outv[k1]@ == self.entries()[sel[k1]].txn);
            assert(outv[k2]@ == self.entries()[sel[k2]].txn);
        }
    }

    /// Index of the sender's lowest-sequence entry that is not in the
    /// timeline, if any.
    fn find_min_nonready(&self, sender: &AccountAddress) -> (r: Option<usize>)
        ensures
            match r {
                Some(k) => {
                    &&& k < self.entries().len()
                    &&& self.entries()[k as int].sender() == *sender
                    &&& !self.entries()[k as int].is_ready()
                    &&& forall|j: int|
                        0 <= j < self.entries().len() && (#[trigger] self.entries()[j]).sender()
                            == *sender && !self.entries()[j].is_ready() ==> self.entries()[
                            k as int
                        ].seq() <= self.entries()[j].seq()
                },
                None => forall|j: int|
                    0 <= j < self.entries().len() ==> !((#[trigger] self.entries()[j]).sender()
                        == *sender && !self.entries()[j].is_ready()),
            },
    {
        let n = self.entries.len();
        let mut best: Option<usize> = None;
        let mut i: usize = 0;
        while i < n
            invariant
                n == self.entries().len(),
                i <= n,
                match best {
                    Some(k) => {
                        &&& k < i
                        &&& self.entries()[k as int].sender() == *sender
                        &&& !self.entries()[k as int].is_ready()
                        &&& forall|j: int|
                            0 <= j < i && (#[trigger] self.entries()[j]).sender() == *sender
                                && !self.entries()[j].is_ready() ==> self.entries()[k as int].seq()
                                <= self.entries()[j].seq()
                    },
                    None => forall|j: int|
                        0 <= j < i ==> !((#[trigger] self.entries()[j]).sender() == *sender
                            && !self.entries()[j].is_ready()),
                },
            decreases n - i,
        {
            if self.entries[i].txn.sender == *sender && self.entries[i].timeline_id.is_none() {
                let take = match best {
                    Some(k) => self.entries[i].txn.sequence_number
                        < self.entries[k].txn.sequence_number,
                    None => true,
                };
                if take {
                    best = Some(i);
                }
            }
            i += 1;
        }
        best
    }

    /// Brings the sender's buffered entries into the timeline, in sequence
    /// order with fresh positions, for as long as their chains to the
    /// committed prefix are complete. Nothing else changes.
    fn promote_sender(&mut self, sender: &AccountAddress)
        requires
            old(self).rep_inv(),
            distinct_in(old(self).entries()),
            1 <= old(self).next_timeline_id(),
            old(self).next_timeline_id() + count_not_ready(old(self).entries()) <= u64::MAX,
            forall|i: int|
                0 <= i < old(self).entries().len() && (#[trigger] old(self).entries()[i]).is_ready() ==> 1 <= old(self).entries()[i].timeline_id->0 < old(self).next_timeline_id(),
            forall|i: int, j: int|
                0 <= i < j < old(self).entries().len() && (#[trigger] old(self).entries()[i]).is_ready() && (#[trigger] old(self).entries()[j]).is_ready() ==> old(self).entries()[i].timeline_id->0 != old(self).entries()[j].timeline_id->0,
            forall|i: int, j: int|
                0 <= i < old(self).entries().len() && 0 <= j < old(self).entries().len() && (
                #[trigger] old(self).entries()[i]).is_ready() && (#[trigger] old(self).entries()[j]).is_ready() && old(self).entries()[i].sender() == old(self).entries()[j].sender() && old(self).entries()[i].seq() < old(self).entries()[j].seq() ==> old(self).entries()[i].timeline_id->0 < old(self).entries()[j].timeline_id->0,
            forall|i: int|
                0 <= i < old(self).entries().len() && (#[trigger] old(self).entries()[i]).is_ready() ==> old(self).chain_complete(
                    old(self).entries()[i].sender(),
                    old(self).entries()[i].seq(),
                ),
            forall|i: int|
                0 <= i < old(self).entries().len() && (#[trigger] old(self).entries()[i]).sender()
                    != *sender && old(self).chain_complete(
                    old(self).entries()[i].sender(),
                    old(self).entries()[i].seq(),
                ) ==> old(self).entries()[i].is_ready(),
            forall|i: int, j: int|
                0 <= i < old(self).entries().len() && 0 <= j < old(self).entries().len() && (
                #[trigger] old(self).entries()[i]).sender() == *sender && (#[trigger] old(self).entries()[j]).sender() == *sender && old(self).entries()[i].is_ready() && !old(self).entries()[j].is_ready() ==> old(self).entries()[i].seq() < old(self).entries()[j].seq(),
        ensures
            final(self).rep_inv(),
            forall|s: AccountAddress| #[trigger]
                final(self).committed_of(s) == old(self).committed_of(s),
            final(self).capacity() == old(self).capacity(),
            final(self).max_per_sender() == old(self).max_per_sender(),
            final(self).next_insertion_order() == old(self).next_insertion_order(),
            final(self).entries().len() == old(self).entries().len(),
            old(self).next_timeline_id() <= final(self).next_timeline_id(),
            final(self).next_timeline_id() + count_not_ready(final(self).entries()) == old(
                self,
            ).next_timeline_id() + count_not_ready(old(self).entries()),
            final(self).next_timeline_id() + count_not_ready(final(self).entries()) <= u64::MAX,
            forall|i: int|
                0 <= i < old(self).entries().len() ==> same_pointer(
                    #[trigger] final(self).entries()[i],
                    old(self).entries()[i],
                ) && same_except_timeline(final(self).entries()[i], old(self).entries()[i]),
            forall|i: int|
                0 <= i < old(self).entries().len() && (#[trigger] old(self).entries()[i]).is_ready() ==> final(self).entries()[i] == old(self).entries()[i],
            forall|i: int|
                0 <= i < old(self).entries().len() && !(#[trigger] old(self).entries()[i]).is_ready() && final(self).entries()[i].is_ready() ==> final(self).entries()[i].sender() == *sender && old(self).next_timeline_id() <= final(self).entries()[i].timeline_id->0 < final(self).next_timeline_id(),
            forall|i: int|
                0 <= i < final(self).entries().len() && (#[trigger] final(self).entries()[i]).is_ready() ==> 1 <= final(self).entries()[i].timeline_id->0 < final(self).next_timeline_id(),
            forall|i: int, j: int|
                0 <= i < j < final(self).entries().len() && (#[trigger] final(self).entries()[i]).is_ready() && (#[trigger] final(self).entries()[j]).is_ready()
                    ==> final(self).entries()[i].timeline_id->0 != final(self).entries()[j].timeline_id->0,
            forall|i: int, j: int|
                0 <= i < final(self).entries().len() && 0 <= j < final(self).entries().len() && (
                #[trigger] final(self).entries()[i]).is_ready() && (#[trigger] final(self).entries()[j]).is_ready() && final(self).entries()[i].sender() == final(self).entries()[j].sender() && final(self).entries()[i].seq() < final(self).entries()[j].seq() ==> final(self).entries()[i].timeline_id->0 < final(self).entries()[j].timeline_id->0,
            forall|i: int|
                0 <= i < final(self).entries().len() ==> ((#[trigger] final(self).entries()[i]).is_ready() <==> final(self).chain_complete(
                    final(self).entries()[i].sender(),
                    final(self).entries()[i].seq(),
                )),
    {
        loop
            invariant
                self.rep_inv(),
                distinct_in(self.entries()),
                self.committed@ == old(self).committed@,
                self.capacity == old(self).capacity,
                self.max_per_sender == old(self).max_per_sender,
                self.next_insertion_order == old(self).next_insertion_order,
                self.entries@.len() == old(self).entries@.len(),
                1 <= self.next_timeline_id,
                old(self).next_timeline_id() <= self.next_timeline_id,
                self.next_timeline_id + count_not_ready(self.entries()) == old(
                    self,
                ).next_timeline_id() + count_not_ready(old(self).entries()),
                self.next_timeline_id + count_not_ready(self.entries()) <= u64::MAX,
                forall|i: int|
                    0 <= i < old(self).entries().len() ==> same_pointer(
                        #[trigger] self.entries()[i],
                        old(self).entries()[i],
                    ) && same_except_timeline(self.entries()[i], old(self).entries()[i]),
                forall|i: int|
                    0 <= i < old(self).entries().len() && (#[trigger] old(self).entries()[i]).is_ready() ==> self.entries()[i] == old(self).entries()[i],
                forall|i: int|
                    0 <= i < old(self).entries().len() && !(#[trigger] old(self).entries()[i]).is_ready() && self.entries()[i].is_ready() ==> self.entries()[
                        i
                    ].sender() == *sender && old(self).next_timeline_id() <= self.entries()[
                        i
                    ].timeline_id->0 < self.next_timeline_id,
                forall|i: int|
                    0 <= i < self.entries().len() && (#[trigger] self.entries()[i]).is_ready()
                        ==> 1 <= self.entries()[i].timeline_id->0 < self.next_timeline_id,
                forall|i: int, j: int|
                    0 <= i < j < self.entries().len() && (#[trigger] self.entries()[i]).is_ready()
                        && (#[trigger] self.entries()[j]).is_ready() ==> self.entries()[
                        i
                    ].timeline_id->0 != self.entries()[j].timeline_id->0,
                forall|i: int, j: int|
                    0 <= i < self.entries().len() && 0 <= j < self.entries().len() && (
                    #[trigger] self.entries()[i]).is_ready() && (
                    #[trigger] self.entries()[j]).is_ready() && self.entries()[i].sender()
                        == self.entries()[j].sender() && self.entries()[i].seq()
                        < self.entries()[j].seq() ==> self.entries()[i].timeline_id->0
                        < self.entries()[j].timeline_id->0,
                forall|i: int|
                    0 <= i < self.entries().len() && (#[trigger] self.entries()[i]).is_ready()
                        ==> self.chain_complete(
                        self.entries()[i].sender(),
                        self.entries()[i].seq(),
                    ),
                forall|i: int|
                    0 <= i < self.entries().len() && (#[trigger] self.entries()[i]).sender()
                        != *sender && self.chain_complete(
                        self.entries()[i].sender(),
                        self.entries()[i].seq(),
                    ) ==> self.entries()[i].is_ready(),
                forall|i: int, j: int|
                    0 <= i < self.entries().len() && 0 <= j < self.entries().len() && (
                    #[trigger] self.entries()[i]).sender() == *sender && (
                    #[trigger] self.entries()[j]).sender() == *sender
                        && self.entries()[i].is_ready() && !self.entries()[j].is_ready()
                        ==> self.entries()[i].seq() < self.entries()[j].seq(),
            ensures
                forall|i: int|
                    0 <= i < self.entries().len() && (#[trigger] self.entries()[i]).sender()
                        == *sender && !self.entries()[i].is_ready() ==> !self.chain_complete(
                        self.entries()[i].sender(),
                        self.entries()[i].seq(),
                    ),
            decreases count_not_ready(self.entries()),
        {
            let k = match self.find_min_nonready(sender) {
                None => { break ; },
                Some(k) => k,
            };
            let sq = self.entries[k].txn.sequence_number;
            let ok = self.chain_ok(sender, sq);
            if !ok {
                proof {
                    assert forall|i: int|
                        0 <= i < self.entries().len() && (#[trigger] self.entries()[i]).sender()
                            == *sender && !self.entries()[i].is_ready() implies !self.chain_complete(
                        self.entries()[i].sender(),
                        self.entries()[i].seq(),
                    ) by {
                        let c = self.committed_of(*sender);
                        assert(sq <= self.entries()[i].seq());
                        if chain_complete_in(self.entries(), c, *sender, self.entries()[i].seq()) {
                            assert forall|t: u64| c <= t <= sq implies #[trigger] live_in(
                                self.entries(),
                                *sender,
                                t,
                            ) by {
                                assert(c <= t <= self.entries()[i].seq());
                            }
                            assert(self.chain_complete(*sender, sq));
                        }
                    }
                }
                break ;
            }
            let id = self.next_timeline_id;
            proof {
                lemma_count_not_ready_pos(self.entries(), k as int);
            }
            let mut ne = self.entries[k].clone();
            ne.timeline_id = Some(id);
            let ghost prev = *self;
            self.entries.set(k, ne);
            self.next_timeline_id = id + 1;
            proof {
                assert(ne@ =~= PoolEntryView {
                    timeline_id: Some(id),
                    ..prev.entries()[k as int]
                });
                assert(forall|j: int|
                    0 <= j < self.entries@.len() && j != k ==> self.entries@[j]
                        == prev.entries@[j]);
                assert(forall|j: int|
                    0 <= j < self.entries().len() && j != k ==> #[trigger] self.entries()[j]
                        == prev.entries()[j]);
                assert(self.entries()[k as int] == ne@);
                assert(self.entries() =~= prev.entries().update(k as int, ne@));
                lemma_count_not_ready_update(prev.entries(), k as int, ne@);
                assert forall|s2: AccountAddress, q2: u64, c2: u64| true implies #[trigger] chain_complete_in(
                    self.entries(),
                    c2,
                    s2,
                    q2,
                ) == chain_complete_in(prev.entries(), c2, s2, q2) by {
                    lemma_chain_same_pointers(self.entries(), prev.entries(), c2, s2, q2);
                }
                assert forall|i: int, j: int|
                    0 <= i < j < self.entries().len() implies !same_pointer(
                    #[trigger] self.entries()[i],
                    #[trigger] self.entries()[j],
                ) by {
                    assert(same_pointer(self.entries()[i], prev.entries()[i]));
                    assert(same_pointer(self.entries()[j], prev.entries()[j]));
                    assert(!same_pointer(prev.entries()[i], prev.entries()[j]));
                }
                assert forall|i: int, j: int|
                    0 <= i < self.entries().len() && 0 <= j < self.entries().len() && (
                    #[trigger] self.entries()[i]).sender() == *sender && (
                    #[trigger] self.entries()[j]).sender() == *sender
                        && self.entries()[i].is_ready() && !self.entries()[j].is_ready() implies self.entries()[
                    i
                ].seq() < self.entries()[j].seq() by {
                    assert(j != k as int);
                    assert(self.entries()[j] == prev.entries()[j]);
                    if i == k as int {
                        assert(prev.entries()[k as int].seq() <= prev.entries()[j].seq());
                        if j < k as int {
                            assert(!same_pointer(prev.entries()[j], prev.entries()[k as int]));
                        } else {
                            assert(!same_pointer(prev.entries()[k as int], prev.entries()[j]));
                        }
                    } else {
                        assert(self.entries()[i] == prev.entries()[i]);
                    }
                }
            }
        }
        proof {
            assert forall|i: int|
                0 <= i < self.entries().len() implies ((#[trigger] self.entries()[i]).is_ready()
                <==> self.chain_complete(self.entries()[i].sender(), self.entries()[i].seq())) by {
                if self.entries()[i].sender() == *sender && !self.entries()[i].is_ready() {
                    assert(!self.chain_complete(
                        self.entries()[i].sender(),
                        self.entries()[i].seq(),
                    ));
                }
            }
        }
    }

    /// Admits `txn` into the pool, returning the status that `add_outcome`
    /// classifies; the full effect, state change included, is `add_txn_rel`,
    /// so that a caller admitting a batch can fold one admission step per
    /// transaction. On a fresh acceptance the sender's committed point
    /// advances to the larger of `committed_seq` and the recorded one, stale
    /// entries below it leave, at capacity one lowest-ranked non-governance
    /// buffered entry is evicted, the transaction enters with the given
    /// ranking inputs, and every buffered entry of the sender whose chain to
    /// the committed prefix is now complete joins the timeline in sequence
    /// order. On any refusal, and on an idempotent re-submission, the pool is
    /// unchanged.
    ///
    /// Whichever initial timeline marking a transaction arrives with, it
    /// joins the timeline exactly when its chain is complete, so the marking
    /// parameter does not influence the outcome.
    #[verifier::rlimit(100)]
    pub fn add_txn(
        &mut self,
        txn: Txn,
        _gas_amount: u64,
        ranking_score: u64,
        committed_seq: u64,
        _timeline_state: TimelineState,
        governance_role: GovernanceRole,
    ) -> (r: MempoolStatus)
        requires
            old(self).wf(),
            old(self).next_insertion_order() < u64::MAX,
            old(self).next_timeline_id() + old(self).capacity() + 1 <= u64::MAX,
        ensures
            final(self).wf(),
            add_txn_rel(
                *old(self),
                *final(self),
                txn@,
                ranking_score,
                committed_seq,
                governance_role,
                r.code,
            ),
    {
        let ghost o = *old(self);
        let sender = txn.sender;
        let q = txn.sequence_number;
        let c = self.committed_for(&sender);
        let eff = if committed_seq > c {
            committed_seq
        } else {
            c
        };
        if q < eff {
            return MempoolStatus::new(MempoolStatusCode::InvalidSeqNumber);
        }
        match self.find_entry(&sender, q) {
            Some(i) => {
                proof {
                    lemma_entry_in_is(self.entries(), i as int);
                }
                let same = bytes_eq(&self.entries[i].txn.fingerprint, &txn.fingerprint);
                if same {
                    return MempoolStatus::new(MempoolStatusCode::Accepted);
                } else {
                    return MempoolStatus::new(MempoolStatusCode::InvalidUpdate);
                }
            },
            None => {},
        }
        let cnt = self.count_sender_entries(&sender);
        if cnt >= self.max_per_sender {
            return MempoolStatus::new(MempoolStatusCode::TooManyTransactions);
        }
        let stale = self.count_stale_entries(&sender, eff);
        let mut victim_rule = RetainRule::NotPointer(sender, q);
        let ghost mut victim: Option<TxnPointer> = None;
        if self.entries.len() == self.capacity && stale == 0 {
            match self.find_victim() {
                None => {
                    return MempoolStatus::new(MempoolStatusCode::MempoolIsFull);
                },
                Some(v) => {
                    let vs = self.entries[v].txn.sender;
                    let vq = self.entries[v].txn.sequence_number;
                    victim_rule = RetainRule::NotPointer(vs, vq);
                    proof {
                        victim = Some((vs, vq));
                        lemma_entry_in_is(self.entries(), v as int);
                    }
                },
            }
        } else if stale > 0 {
            proof {
                lemma_count_stale_pos(self.entries(), sender, eff);
            }
            victim_rule = RetainRule::SenderAbove(sender, eff - 1);
        }
        self.set_committed(&sender, eff);
        let Ghost(m) = self.retain_entries(victim_rule);
        let ghost mid = *self;
        proof {
            lemma_add_prune_mid(o, mid, m, victim_rule, sender, eff, q, stale as int, victim);
        }
        let entry = PoolEntry {
            txn,
            ranking_score,
            governance_role,
            insertion_order: self.next_insertion_order,
            timeline_id: None,
        };
        self.entries.push(entry);
        self.next_insertion_order = self.next_insertion_order + 1;
        let ghost m2 = *self;
        proof {
            lemma_add_insert(o, mid, m2, sender, eff, q);
        }
        self.promote_sender(&sender);
        proof {
            lemma_add_reassemble(o, mid, m2, *self, txn@, eff, victim, ranking_score,
                governance_role);
            lemma_count_not_ready_bounds(m2.entries());
            lemma_count_not_ready_bounds(self.entries());
        }
        MempoolStatus::new(MempoolStatusCode::Accepted)
    }

    /// Removes the entry at (sender, sequence_number). On a commit
    /// (`is_rejected == false`) the sender's committed point advances past
    /// `sequence_number`, every entry of the sender at or below it leaves the
    /// pool (none of them can become valid any more), and buffered successors
    /// whose chain is now complete join the timeline. On a rejection every
    /// entry of the sender at or above `sequence_number` leaves the pool.
    pub fn remove_transaction(
        &mut self,
        sender: &AccountAddress,
        sequence_number: u64,
        is_rejected: bool,
    )
        requires
            old(self).wf(),
            !is_rejected ==> sequence_number < u64::MAX,
            old(self).next_timeline_id() + old(self).capacity() <= u64::MAX,
        ensures
            final(self).wf(),
            final(self).capacity() == old(self).capacity(),
            final(self).max_per_sender() == old(self).max_per_sender(),
            final(self).next_insertion_order() == old(self).next_insertion_order(),
            old(self).next_timeline_id() <= final(self).next_timeline_id(),
            final(self).next_timeline_id() <= old(self).next_timeline_id() + old(self).capacity()
                + 1,
            is_rejected ==> forall|s: AccountAddress| #[trigger]
                final(self).committed_of(s) == old(self).committed_of(s),
            !is_rejected ==> final(self).committed_of(*sender) == spec_max_u64(
                old(self).committed_of(*sender),
                (sequence_number + 1) as u64,
            ) && forall|s: AccountAddress|
                s != *sender ==> #[trigger] final(self).committed_of(s) == old(self).committed_of(
                    s,
                ),
            forall|s: AccountAddress, q: u64|
                #![trigger final(self).has_entry(s, q)]
                #![trigger old(self).has_entry(s, q)]
                final(self).has_entry(s, q) <==> (old(self).has_entry(s, q) && !removes(
                    *sender,
                    sequence_number,
                    is_rejected,
                    s,
                    q,
                )),
            forall|s: AccountAddress, q: u64|
                #[trigger] final(self).has_entry(s, q) ==> same_except_timeline(
                    final(self).entry_of(s, q),
                    old(self).entry_of(s, q),
                ) && (old(self).entry_of(s, q).is_ready() ==> final(self).entry_of(s, q) == old(
                    self,
                ).entry_of(s, q)) && (final(self).entry_of(s, q).is_ready() && !old(self).entry_of(
                    s,
                    q,
                ).is_ready() ==> final(self).entry_of(s, q).timeline_id->0 >= old(
                    self,
                ).next_timeline_id()),
    {
        let ghost o = *old(self);
        if is_rejected {
            let Ghost(m) = self.retain_entries(
                RetainRule::SenderBelow(*sender, sequence_number),
            );
            proof {
                lemma_remove_reject_reassemble(o, *self, m, *sender, sequence_number);
            }
        } else {
            let c = self.committed_for(sender);
            let nc = if sequence_number + 1 > c {
                sequence_number + 1
            } else {
                c
            };
            let Ghost(m) = self.retain_entries(
                RetainRule::SenderAbove(*sender, sequence_number),
            );
            self.set_committed(sender, nc);
            let ghost mid = *self;
            proof {
                lemma_remove_commit_mid(o, mid, m, *sender, sequence_number);
            }
            self.promote_sender(sender);
            proof {
                lemma_remove_commit_reassemble(o, mid, *self, m, *sender, sequence_number);
                lemma_count_not_ready_bounds(mid.entries());
                lemma_count_not_ready_bounds(self.entries());
            }
        }
    }

    /// Removes every entry whose transaction has expired at time `now`
    /// (expiration at or before `now`), and takes out of the timeline any
    /// remaining entry whose chain to the committed prefix was broken by a
    /// removal. Everything else — identity, ranking and timeline position of
    /// the survivors, the committed table, and both counters — is unchanged.
    pub fn gc_by_expiration_time(&mut self, now: u64)
        requires
            old(self).wf(),
        ensures
            final(self).wf(),
            final(self).capacity() == old(self).capacity(),
            final(self).max_per_sender() == old(self).max_per_sender(),
            final(self).next_timeline_id() == old(self).next_timeline_id(),
            final(self).next_insertion_order() == old(self).next_insertion_order(),
            forall|s: AccountAddress| #[trigger]
                final(self).committed_of(s) == old(self).committed_of(s),
            forall|i: int|
                0 <= i < final(self).entries().len()
                    ==> (#[trigger] final(self).entries()[i]).txn.expiration_time > now,
            forall|s: AccountAddress, q: u64|
                #![trigger final(self).has_entry(s, q)]
                #![trigger old(self).has_entry(s, q)]
                final(self).has_entry(s, q) <==> (old(self).has_entry(s, q) && old(self).entry_of(
                    s,
                    q,
                ).txn.expiration_time > now),
            forall|s: AccountAddress, q: u64|
                #[trigger] final(self).has_entry(s, q) ==> same_except_timeline(
                    final(self).entry_of(s, q),
                    old(self).entry_of(s, q),
                ) && (final(self).entry_of(s, q).is_ready() ==> final(self).entry_of(s, q).timeline_id
                    == old(self).entry_of(s, q).timeline_id),
    {
        let ghost o = *old(self);
        let Ghost(m) = self.retain_entries(RetainRule::NotExpired(now));
        let ghost mid = *self;
        self.demote_broken();
        proof {
            lemma_gc_reassemble(o, mid, *self, m, now);
        }
    }
}

/// The larger of two sequence numbers.
pub open spec fn spec_max_u64(a: u64, b: u64) -> u64 {
    if a >= b {
        a
    } else {
        b
    }
}

/// Whether `remove_transaction(sender, sequence_number, is_rejected)` takes
/// the entry at (s, q) out of the pool.
pub open spec fn removes(
    sender: AccountAddress,
    sequence_number: u64,
    is_rejected: bool,
    s: AccountAddress,
    q: u64,
) -> bool {
    s == sender && if is_rejected {
        q >= sequence_number
    } else {
        q <= sequence_number
    }
}

/// Number of entries belonging to `sender`.
pub open spec fn count_sender(entries: Seq<PoolEntryView>, sender: AccountAddress) -> int
    decreases entries.len(),
{
    if entries.len() == 0 {
        0
    } else {
        count_sender(entries.drop_last(), sender) + if entries.last().sender() == sender {
            1int
        } else {
            0int
        }
    }
}

/// Number of entries of `sender` below the committed point `eff`.
pub open spec fn count_stale(entries: Seq<PoolEntryView>, sender: AccountAddress, eff: u64) -> int
    decreases entries.len(),
{
    if entries.len() == 0 {
        0
    } else {
        count_stale(entries.drop_last(), sender, eff) + if entries.last().sender() == sender
            && entries.last().seq() < eff {
            1int
        } else {
            0int
        }
    }
}

/// With a stale count of zero, no entry of the sender sits below `eff`.
proof fn lemma_count_stale_zero(entries: Seq<PoolEntryView>, sender: AccountAddress, eff: u64)
    requires
        count_stale(entries, sender, eff) == 0,
    ensures
        forall|i: int|
            0 <= i < entries.len() ==> !((#[trigger] entries[i]).sender() == sender
                && entries[i].seq() < eff),
    decreases entries.len(),
{
    if entries.len() > 0 {
        lemma_count_stale_nonneg(entries.drop_last(), sender, eff);
        lemma_count_stale_zero(entries.drop_last(), sender, eff);
        assert(forall|i: int|
            0 <= i < entries.len() - 1 ==> entries.drop_last()[i] == entries[i]);
    }
}

proof fn lemma_count_stale_nonneg(entries: Seq<PoolEntryView>, sender: AccountAddress, eff: u64)
    ensures
        count_stale(entries, sender, eff) >= 0,
    decreases entries.len(),
{
    if entries.len() > 0 {
        lemma_count_stale_nonneg(entries.drop_last(), sender, eff);
    }
}

/// With at least one stale entry, a removal pass for them removes at least
/// one entry.
proof fn lemma_count_stale_pos(entries: Seq<PoolEntryView>, sender: AccountAddress, eff: u64)
    requires
        count_stale(entries, sender, eff) > 0,
    ensures
        exists|i: int|
            0 <= i < entries.len() && (#[trigger] entries[i]).sender() == sender
                && entries[i].seq() < eff,
    decreases entries.len(),
{
    if entries.len() > 0 {
        if entries.last().sender() == sender && entries.last().seq() < eff {
            assert(entries[entries.len() - 1].sender() == sender);
        } else {
            lemma_count_stale_pos(entries.drop_last(), sender, eff);
            let i = choose|i: int|
                0 <= i < entries.drop_last().len() && (#[trigger] entries.drop_last()[
                    i
                ]).sender() == sender && entries.drop_last()[i].seq() < eff;
            assert(entries[i].sender() == sender && entries[i].seq() < eff);
        }
    }
}

/// Whether an entry may be evicted to make room: it is not in the timeline
/// and its sender holds no governance capability.
pub open spec fn eviction_candidate(e: PoolEntryView) -> bool {
    !e.is_ready() && e.governance_role == GovernanceRole::NonGovernance
}

/// Some entry occupies timeline position `id`.
pub open spec fn ready_id_in(entries: Seq<PoolEntryView>, id: u64) -> bool {
    exists|i: int| 0 <= i < entries.len() && (#[trigger] entries[i]).timeline_id == Some(id)
}

/// The transaction at timeline position `id`; meaningful when `ready_id_in`
/// holds and positions are unique.
pub open spec fn txn_for_id(entries: Seq<PoolEntryView>, id: u64) -> TxnView {
    entries[choose|i: int| 0 <= i < entries.len() && (#[trigger] entries[i]).timeline_id == Some(id)].txn
}

/// A pointer in the exclusion list.
pub open spec fn excluded_in(exclude: Seq<TxnPointer>, sender: AccountAddress, seq: u64) -> bool {
    exists|i: int| 0 <= i < exclude.len() && #[trigger] exclude[i] == (sender, seq)
}

/// Whether `a` is served strictly before `b` in a block pull: higher
/// governance class first, then higher ranking score, then earlier insertion.
pub open spec fn block_before(a: PoolEntryView, b: PoolEntryView) -> bool {
    ||| a.governance_role.rank() > b.governance_role.rank()
    ||| (a.governance_role.rank() == b.governance_role.rank() && a.ranking_score > b.ranking_score)
    ||| (a.governance_role.rank() == b.governance_role.rank() && a.ranking_score == b.ranking_score
        && a.insertion_order < b.insertion_order)
}

fn block_before_exec(a: &PoolEntry, b: &PoolEntry) -> (r: bool)
    ensures
        r == block_before(a@, b@),
{
    let ar = a.governance_role.priority();
    let br = b.governance_role.priority();
    if ar != br {
        ar > br
    } else if a.ranking_score != b.ranking_score {
        a.ranking_score > b.ranking_score
    } else {
        a.insertion_order < b.insertion_order
    }
}

fn is_excluded(exclude: &Vec<TxnPointer>, sender: &AccountAddress, seq: u64) -> (r: bool)
    ensures
        r == excluded_in(exclude@, *sender, seq),
{
    let n = exclude.len();
    let mut i: usize = 0;
    while i < n
        invariant
            n == exclude@.len(),
            i <= n,
            forall|j: int| 0 <= j < i ==> #[trigger] exclude@[j] != (*sender, seq),
        decreases n - i,
    {
        if exclude[i].0 == *sender && exclude[i].1 == seq {
            proof {
                assert(exclude@[i as int] == (*sender, seq));
            }
            return true;
        }
        i += 1;
    }
    false
}

/// The block order is transitive.
pub proof fn lemma_block_before_trans(a: PoolEntryView, b: PoolEntryView, c: PoolEntryView)
    requires
        block_before(a, b),
        block_before(b, c),
    ensures
        block_before(a, c),
{
}

/// In a sequence with unique timeline positions, position of entry `i`
/// resolves to entry `i`'s transaction.
pub proof fn lemma_txn_for_id_is(entries: Seq<PoolEntryView>, i: int)
    requires
        forall|i1: int, j1: int|
            0 <= i1 < j1 < entries.len() && (#[trigger] entries[i1]).is_ready() && (
            #[trigger] entries[j1]).is_ready() ==> entries[i1].timeline_id->0
                != entries[j1].timeline_id->0,
        0 <= i < entries.len(),
        entries[i].timeline_id is Some,
    ensures
        ready_id_in(entries, entries[i].timeline_id->0),
        txn_for_id(entries, entries[i].timeline_id->0) == entries[i].txn,
{
    let id = entries[i].timeline_id->0;
    assert(entries[i].timeline_id == Some(id));
    let j = choose|j: int| 0 <= j < entries.len() && (#[trigger] entries[j]).timeline_id == Some(id);
    if i < j {
        assert(entries[i].is_ready() && entries[j].is_ready());
        assert(false);
    } else if j < i {
        assert(entries[i].is_ready() && entries[j].is_ready());
        assert(false);
    }
}

/// The transactions at the given timeline positions, in the order the
/// positions were given, skipping positions that are no longer live.
pub open spec fn spec_filter_timeline(entries: Seq<PoolEntryView>, ids: Seq<u64>) -> Seq<
    (u64, TxnView),
>
    decreases ids.len(),
{
    if ids.len() == 0 {
        Seq::empty()
    } else {
        let rest = spec_filter_timeline(entries, ids.drop_last());
        if ready_id_in(entries, ids.last()) {
            rest.push((ids.last(), txn_for_id(entries, ids.last())))
        } else {
            rest
        }
    }
}

/// Status that `add_txn` returns, as a function of the prior pool state and
/// the arguments. A submission is refused when its sequence sits below the
/// sender's committed point (`InvalidSeqNumber`); when its slot is taken by a
/// transaction with a different fingerprint (`InvalidUpdate`; the identical
/// transaction is accepted idempotently); when the sender already buffers
/// `max_per_sender` entries (`TooManyTransactions`); and when the pool is at
/// capacity with nothing stale to drop and no eviction candidate
/// (`MempoolIsFull`). Everything else is accepted.
pub open spec fn add_outcome(o: CoreMempool, txn: TxnView, committed_seq: u64) -> MempoolStatusCode {
    let sender = txn.sender;
    let q = txn.sequence_number;
    let eff = spec_max_u64(o.committed_of(sender), committed_seq);
    if q < eff {
        MempoolStatusCode::InvalidSeqNumber
    } else if o.has_entry(sender, q) {
        if o.entry_of(sender, q).txn.fingerprint == txn.fingerprint {
            MempoolStatusCode::Accepted
        } else {
            MempoolStatusCode::InvalidUpdate
        }
    } else if count_sender(o.entries(), sender) >= o.max_per_sender() {
        MempoolStatusCode::TooManyTransactions
    } else if o.entries().len() == o.capacity() && count_stale(o.entries(), sender, eff) == 0 && !(
    exists|i: int|
        0 <= i < o.entries().len() && eviction_candidate(#[trigger] o.entries()[i])) {
        MempoolStatusCode::MempoolIsFull
    } else {
        MempoolStatusCode::Accepted
    }
}

/// How admission changes the set of live slots: the new pointer is live; when
/// room had to be made, one lowest-ranked eviction candidate left; when the
/// committed point advanced, the sender's entries below it left.
pub open spec fn add_liveness_ok(
    o: CoreMempool,
    fin: CoreMempool,
    txn: TxnView,
    eff: u64,
    victim: Option<TxnPointer>,
) -> bool {
    let sender = txn.sender;
    let q = txn.sequence_number;
    match victim {
        Some(vp) => {
            &&& o.entries().len() == o.capacity()
            &&& o.has_entry(vp.0, vp.1)
            &&& eviction_candidate(o.entry_of(vp.0, vp.1))
            &&& forall|i: int|
                0 <= i < o.entries().len() && eviction_candidate(#[trigger] o.entries()[i])
                    ==> o.entry_of(vp.0, vp.1).ranking_score <= o.entries()[i].ranking_score
            &&& forall|s: AccountAddress, q2: u64|
                #![trigger fin.has_entry(s, q2)]
                #![trigger o.has_entry(s, q2)]
                fin.has_entry(s, q2) <==> ((o.has_entry(s, q2) && !(s == vp.0 && q2 == vp.1)) || (
                s == sender && q2 == q))
        },
        None => forall|s: AccountAddress, q2: u64|
            #![trigger fin.has_entry(s, q2)]
            #![trigger o.has_entry(s, q2)]
            fin.has_entry(s, q2) <==> ((o.has_entry(s, q2) && !(s == sender && q2 < eff)) || (s
                == sender && q2 == q)),
    }
}

/// Full effect of one admission: the status is `add_outcome`, a refusal or
/// idempotent re-submission leaves the pool untouched, and a fresh
/// acceptance advances the sender's committed point, inserts the transaction
/// with its ranking inputs, removes at most the stale entries and one
/// eviction victim, and preserves every other surviving entry up to timeline
/// promotion with fresh positions.
pub open spec fn add_txn_rel(
    pre: CoreMempool,
    post: CoreMempool,
    txn: TxnView,
    ranking_score: u64,
    committed_seq: u64,
    governance_role: GovernanceRole,
    code: MempoolStatusCode,
) -> bool {
    &&& post.capacity() == pre.capacity()
    &&& post.max_per_sender() == pre.max_per_sender()
    &&& pre.next_timeline_id() <= post.next_timeline_id()
    &&& post.next_timeline_id() <= pre.next_timeline_id() + pre.capacity() + 1
    &&& code == add_outcome(pre, txn, committed_seq)
    &&& (code != MempoolStatusCode::Accepted || pre.has_entry(txn.sender, txn.sequence_number)
        ==> post.entries() == pre.entries() && post.next_timeline_id() == pre.next_timeline_id()
            && post.next_insertion_order() == pre.next_insertion_order() && (
        forall|s: AccountAddress| #[trigger] post.committed_of(s) == pre.committed_of(s)))
    &&& (code == MempoolStatusCode::Accepted && !pre.has_entry(txn.sender, txn.sequence_number)
        ==> {
        let eff = spec_max_u64(pre.committed_of(txn.sender), committed_seq);
        &&& post.committed_of(txn.sender) == eff
        &&& forall|s: AccountAddress|
            s != txn.sender ==> #[trigger] post.committed_of(s) == pre.committed_of(s)
        &&& post.next_insertion_order() == pre.next_insertion_order() + 1
        &&& post.has_entry(txn.sender, txn.sequence_number)
        &&& post.entry_of(txn.sender, txn.sequence_number).txn == txn
        &&& post.entry_of(txn.sender, txn.sequence_number).ranking_score == ranking_score
        &&& post.entry_of(txn.sender, txn.sequence_number).governance_role == governance_role
        &&& post.entry_of(txn.sender, txn.sequence_number).insertion_order
            == pre.next_insertion_order()
        &&& exists|victim: Option<TxnPointer>| add_liveness_ok(pre, post, txn, eff, victim)
        &&& forall|s: AccountAddress, q2: u64|
            #[trigger] post.has_entry(s, q2) && pre.has_entry(s, q2) && !(s == txn.sender && q2
                == txn.sequence_number) ==> same_except_timeline(
                post.entry_of(s, q2),
                pre.entry_of(s, q2),
            ) && (pre.entry_of(s, q2).is_ready() ==> post.entry_of(s, q2) == pre.entry_of(s, q2))
                && (post.entry_of(s, q2).is_ready() && !pre.entry_of(s, q2).is_ready()
                ==> post.entry_of(s, q2).timeline_id->0 >= pre.next_timeline_id())
    })
}

/// Number of entries that are not in the timeline.
pub open spec fn count_not_ready(entries: Seq<PoolEntryView>) -> int
    decreases entries.len(),
{
    if entries.len() == 0 {
        0
    } else {
        count_not_ready(entries.drop_last()) + if entries.last().is_ready() {
            0int
        } else {
            1int
        }
    }
}

proof fn lemma_count_not_ready_bounds(entries: Seq<PoolEntryView>)
    ensures
        0 <= count_not_ready(entries) <= entries.len(),
    decreases entries.len(),
{
    if entries.len() > 0 {
        lemma_count_not_ready_bounds(entries.drop_last());
    }
}

/// A sequence with a non-ready entry has a positive count.
proof fn lemma_count_not_ready_pos(entries: Seq<PoolEntryView>, k: int)
    requires
        0 <= k < entries.len(),
        !entries[k].is_ready(),
    ensures
        count_not_ready(entries) >= 1,
    decreases entries.len(),
{
    if k == entries.len() - 1 {
        lemma_count_not_ready_bounds(entries.drop_last());
    } else {
        lemma_count_not_ready_pos(entries.drop_last(), k);
    }
}

/// Promoting one entry into the timeline lowers the count by one.
proof fn lemma_count_not_ready_update(entries: Seq<PoolEntryView>, k: int, e: PoolEntryView)
    requires
        0 <= k < entries.len(),
        !entries[k].is_ready(),
        e.is_ready(),
    ensures
        count_not_ready(entries.update(k, e)) == count_not_ready(entries) - 1,
    decreases entries.len(),
{
    let u = entries.update(k, e);
    if k == entries.len() - 1 {
        assert(u.drop_last() =~= entries.drop_last());
        assert(u.last() == e);
    } else {
        assert(u.drop_last() =~= entries.drop_last().update(k, e));
        assert(u.last() == entries.last());
        lemma_count_not_ready_update(entries.drop_last(), k, e);
    }
}

/// A rule selecting which entries a removal pass keeps.
enum RetainRule {
    /// Keep entries that expire strictly after the given time.
    NotExpired(u64),
    /// Keep everything but the given sender's entries at or below the bound.
    SenderAbove(AccountAddress, u64),
    /// Keep everything but the given sender's entries at or above the bound.
    SenderBelow(AccountAddress, u64),
    /// Keep everything but the entry at the given (sender, sequence) slot.
    NotPointer(AccountAddress, u64),
}

spec fn retain_keeps(rule: RetainRule, e: PoolEntryView) -> bool {
    match rule {
        RetainRule::NotExpired(now) => e.txn.expiration_time > now,
        RetainRule::SenderAbove(sender, bound) => !(e.sender() == sender && e.seq() <= bound),
        RetainRule::SenderBelow(sender, bound) => !(e.sender() == sender && e.seq() >= bound),
        RetainRule::NotPointer(sender, seq) => !(e.sender() == sender && e.seq() == seq),
    }
}

fn retain_matches(rule: &RetainRule, e: &PoolEntry) -> (r: bool)
    ensures
        r == retain_keeps(*rule, e@),
{
    match rule {
        RetainRule::NotExpired(now) => e.txn.expiration_time > *now,
        RetainRule::SenderAbove(sender, bound) => !(e.txn.sender == *sender
            && e.txn.sequence_number <= *bound),
        RetainRule::SenderBelow(sender, bound) => !(e.txn.sender == *sender
            && e.txn.sequence_number >= *bound),
        RetainRule::NotPointer(sender, seq) => !(e.txn.sender == *sender
            && e.txn.sequence_number == *seq),
    }
}

/// A strictly increasing map into [0, n) has entries at or above their index,
/// and so no more than n of them.
proof fn lemma_increasing_bounds(m: Seq<int>, n: int)
    requires
        n >= 0,
        forall|k: int| 0 <= k < m.len() ==> 0 <= #[trigger] m[k] < n,
        forall|k1: int, k2: int| 0 <= k1 < k2 < m.len() ==> m[k1] < m[k2],
    ensures
        forall|k: int| 0 <= k < m.len() ==> #[trigger] m[k] >= k,
        m.len() <= n,
    decreases m.len(),
{
    if m.len() > 0 {
        let d = m.drop_last();
        assert(forall|k: int| 0 <= k < d.len() ==> #[trigger] d[k] == m[k]);
        lemma_increasing_bounds(d, n);
        assert forall|k: int| 0 <= k < m.len() implies #[trigger] m[k] >= k by {
            if k < m.len() - 1 {
                assert(d[k] >= k);
            } else if k > 0 {
                assert(d[k - 1] >= k - 1);
                assert(m[k - 1] < m[k]);
            }
        }
        assert(m[m.len() - 1] >= m.len() - 1);
        assert(m[m.len() - 1] < n);
    }
}

/// After the committed point of `sender` advanced to `eff` and the admission
/// pass removed what it had to — the stale entries of `sender`, or one
/// eviction victim, or nothing — the intermediate state satisfies every pool
/// invariant except that newly bridged entries of `sender` are not yet in the
/// timeline, and it has room for the new entry.
#[verifier::rlimit(100)]
proof fn lemma_add_prune_mid(
    o: CoreMempool,
    mid: CoreMempool,
    m: Seq<int>,
    rule: RetainRule,
    sender: AccountAddress,
    eff: u64,
    q: u64,
    stale: int,
    victim: Option<TxnPointer>,
)
    requires
        o.wf(),
        eff >= o.committed_of(sender),
        q >= eff,
        !o.has_entry(sender, q),
        stale == count_stale(o.entries(), sender, eff),
        match victim {
            Some(vp) => rule == RetainRule::NotPointer(vp.0, vp.1) && o.has_entry(vp.0, vp.1)
                && eviction_candidate(o.entry_of(vp.0, vp.1)) && o.entries().len() == o.capacity()
                && stale == 0,
            None => (stale == 0 ==> rule == RetainRule::NotPointer(sender, q)
                && o.entries().len() < o.capacity()) && (stale > 0 ==> rule
                == RetainRule::SenderAbove(sender, (eff - 1) as u64) && eff > 0),
        },
        mid.rep_inv(),
        mid.capacity() == o.capacity(),
        mid.max_per_sender() == o.max_per_sender(),
        mid.next_timeline_id() == o.next_timeline_id(),
        mid.next_insertion_order() == o.next_insertion_order(),
        mid.committed_of(sender) == eff,
        forall|s: AccountAddress|
            s != sender ==> #[trigger] mid.committed_of(s) == o.committed_of(s),
        m.len() == mid.entries().len(),
        forall|k: int| 0 <= k < m.len() ==> 0 <= #[trigger] m[k] < o.entries().len(),
        forall|k: int| 0 <= k < m.len() ==> mid.entries()[k] == o.entries()[#[trigger] m[k]],
        forall|k1: int, k2: int| 0 <= k1 < k2 < m.len() ==> m[k1] < m[k2],
        forall|i: int|
            0 <= i < o.entries().len() ==> (retain_keeps(rule, #[trigger] o.entries()[i]) <==> exists|
                k: int,
            | 0 <= k < m.len() && #[trigger] m[k] == i),
    ensures
        distinct_in(mid.entries()),
        1 <= mid.next_timeline_id(),
        mid.entries().len() + 1 <= mid.capacity(),
        !live_in(mid.entries(), sender, q),
        forall|s: AccountAddress, q2: u64|
            #![trigger live_in(mid.entries(), s, q2)]
            #![trigger live_in(o.entries(), s, q2)]
            live_in(mid.entries(), s, q2) <==> (live_in(o.entries(), s, q2) && retain_keeps(
                rule,
                entry_in(o.entries(), s, q2),
            )),
        forall|s: AccountAddress, q2: u64|
            #[trigger] live_in(mid.entries(), s, q2) ==> entry_in(mid.entries(), s, q2) == entry_in(
                o.entries(),
                s,
                q2,
            ),
        match victim {
            Some(vp) => forall|s: AccountAddress, q2: u64|
                #![trigger live_in(mid.entries(), s, q2)]
                #![trigger live_in(o.entries(), s, q2)]
                live_in(mid.entries(), s, q2) <==> (live_in(o.entries(), s, q2) && !(s == vp.0 && q2
                    == vp.1)),
            None => forall|s: AccountAddress, q2: u64|
                #![trigger live_in(mid.entries(), s, q2)]
                #![trigger live_in(o.entries(), s, q2)]
                live_in(mid.entries(), s, q2) <==> (live_in(o.entries(), s, q2) && !(s == sender
                    && q2 < eff)),
        },
        forall|i: int|
            0 <= i < mid.entries().len() ==> (#[trigger] mid.entries()[i]).seq()
                >= mid.committed_of(mid.entries()[i].sender()),
        forall|i: int|
            0 <= i < mid.entries().len() && (#[trigger] mid.entries()[i]).is_ready() ==> 1
                <= mid.entries()[i].timeline_id->0 < mid.next_timeline_id(),
        forall|i: int, j: int|
            0 <= i < j < mid.entries().len() && (#[trigger] mid.entries()[i]).is_ready() && (
            #[trigger] mid.entries()[j]).is_ready() ==> mid.entries()[i].timeline_id->0
                != mid.entries()[j].timeline_id->0,
        forall|i: int, j: int|
            0 <= i < mid.entries().len() && 0 <= j < mid.entries().len() && (
            #[trigger] mid.entries()[i]).is_ready() && (#[trigger] mid.entries()[j]).is_ready()
                && mid.entries()[i].sender() == mid.entries()[j].sender()
                && mid.entries()[i].seq() < mid.entries()[j].seq() ==> mid.entries()[
                i
            ].timeline_id->0 < mid.entries()[j].timeline_id->0,
        forall|i: int|
            0 <= i < mid.entries().len() ==> (#[trigger] mid.entries()[i]).insertion_order
                < mid.next_insertion_order(),
        forall|i: int, j: int|
            0 <= i < j < mid.entries().len() ==> (#[trigger] mid.entries()[i]).insertion_order != (
            #[trigger] mid.entries()[j]).insertion_order,
        forall|i: int|
            0 <= i < mid.entries().len() && (#[trigger] mid.entries()[i]).is_ready()
                ==> mid.chain_complete(mid.entries()[i].sender(), mid.entries()[i].seq()),
        forall|i: int|
            0 <= i < mid.entries().len() && (#[trigger] mid.entries()[i]).sender() != sender
                && mid.chain_complete(mid.entries()[i].sender(), mid.entries()[i].seq())
                ==> mid.entries()[i].is_ready(),
        forall|i: int, j: int|
            0 <= i < mid.entries().len() && 0 <= j < mid.entries().len() && (
            #[trigger] mid.entries()[i]).sender() == sender && (
            #[trigger] mid.entries()[j]).sender() == sender && mid.entries()[i].is_ready()
                && !mid.entries()[j].is_ready() ==> mid.entries()[i].seq() < mid.entries()[
                j
            ].seq(),
{
    let oe = o.entries();
    let me = mid.entries();
    let n = me.len() as int;

    lemma_count_stale_nonneg(oe, sender, eff);

    assert forall|i: int, j: int| 0 <= i < j < n implies !same_pointer(
        #[trigger] me[i],
        #[trigger] me[j],
    ) by {
        assert(m[i] < m[j]);
        assert(!same_pointer(oe[m[i]], oe[m[j]]));
    }

    lemma_increasing_bounds(m, oe.len() as int);

    // Room for the new entry: some index is outside the image of the map, or
    // the pool was below capacity to begin with.
    if m.len() == oe.len() {
        lemma_increasing_full(m, oe.len() as int);
        match victim {
            Some(vp) => {
                let iv = choose|iv: int|
                    0 <= iv < oe.len() && (#[trigger] oe[iv]).sender() == vp.0 && oe[iv].seq()
                        == vp.1;
                lemma_entry_in_is(oe, iv);
                assert(!retain_keeps(rule, oe[iv]));
                assert(m[iv] == iv);
                assert(exists|k: int| 0 <= k < m.len() && #[trigger] m[k] == iv);
                assert(false);
            },
            None => {
                if stale > 0 {
                    lemma_count_stale_pos(oe, sender, eff);
                    let iv = choose|iv: int|
                        0 <= iv < oe.len() && (#[trigger] oe[iv]).sender() == sender && oe[
                            iv
                        ].seq() < eff;
                    assert(!retain_keeps(rule, oe[iv]));
                    assert(m[iv] == iv);
                    assert(exists|k: int| 0 <= k < m.len() && #[trigger] m[k] == iv);
                    assert(false);
                }
            },
        }
    }
    assert(me.len() + 1 <= mid.capacity());

    assert forall|s: AccountAddress, q2: u64|
        live_in(me, s, q2) <==> (#[trigger] live_in(oe, s, q2) && retain_keeps(
            rule,
            entry_in(oe, s, q2),
        )) by {
        if live_in(me, s, q2) {
            let k = choose|k: int|
                0 <= k < me.len() && (#[trigger] me[k]).sender() == s && me[k].seq() == q2;
            assert(me[k] == oe[m[k]]);
            assert(retain_keeps(rule, oe[m[k]]));
            lemma_entry_in_is(oe, m[k]);
        }
        if live_in(oe, s, q2) && retain_keeps(rule, entry_in(oe, s, q2)) {
            let i = choose|i: int|
                0 <= i < oe.len() && (#[trigger] oe[i]).sender() == s && oe[i].seq() == q2;
            lemma_entry_in_is(oe, i);
            assert(retain_keeps(rule, oe[i]));
            let k = choose|k: int| 0 <= k < m.len() && #[trigger] m[k] == i;
            assert(me[k].sender() == s && me[k].seq() == q2);
        }
    }

    assert(!live_in(me, sender, q));

    // The liveness change in terms of what the pass was asked to remove.
    match victim {
        Some(vp) => {
            assert forall|s: AccountAddress, q2: u64|
                live_in(me, s, q2) <==> (#[trigger] live_in(oe, s, q2) && !(s == vp.0 && q2
                    == vp.1)) by {
                if live_in(oe, s, q2) {
                    let i = choose|i: int|
                        0 <= i < oe.len() && (#[trigger] oe[i]).sender() == s && oe[i].seq() == q2;
                    lemma_entry_in_is(oe, i);
                }
            }
        },
        None => {
            assert forall|s: AccountAddress, q2: u64|
                live_in(me, s, q2) <==> (#[trigger] live_in(oe, s, q2) && !(s == sender && q2
                    < eff)) by {
                if live_in(oe, s, q2) {
                    let i = choose|i: int|
                        0 <= i < oe.len() && (#[trigger] oe[i]).sender() == s && oe[i].seq() == q2;
                    lemma_entry_in_is(oe, i);
                    if stale == 0 {
                        lemma_count_stale_zero(oe, sender, eff);
                    }
                }
            }
        },
    }

    assert forall|s: AccountAddress, q2: u64| #[trigger] live_in(me, s, q2) implies entry_in(
        me,
        s,
        q2,
    ) == entry_in(oe, s, q2) by {
        let k = choose|k: int|
            0 <= k < me.len() && (#[trigger] me[k]).sender() == s && me[k].seq() == q2;
        lemma_entry_in_is(me, k);
        assert(me[k] == oe[m[k]]);
        lemma_entry_in_is(oe, m[k]);
    }

    // Survivors of the sender sit at or above the new committed point.
    assert forall|i: int| 0 <= i < n implies (#[trigger] me[i]).seq() >= mid.committed_of(
        me[i].sender(),
    ) by {
        assert(me[i] == oe[m[i]]);
        assert(oe[m[i]].seq() >= o.committed_of(oe[m[i]].sender()));
        if me[i].sender() == sender {
            assert(retain_keeps(rule, oe[m[i]]));
            if stale == 0 {
                lemma_count_stale_zero(oe, sender, eff);
            }
        }
    }

    assert forall|i: int| 0 <= i < n && (#[trigger] me[i]).is_ready() implies 1
        <= me[i].timeline_id->0 < mid.next_timeline_id() by {
        assert(me[i] == oe[m[i]]);
    }
    assert forall|i: int, j: int|
        0 <= i < j < n && (#[trigger] me[i]).is_ready() && (#[trigger] me[j]).is_ready() implies me[
        i
    ].timeline_id->0 != me[j].timeline_id->0 by {
        assert(me[i] == oe[m[i]] && me[j] == oe[m[j]]);
        assert(m[i] < m[j]);
    }
    assert forall|i: int, j: int|
        0 <= i < n && 0 <= j < n && (#[trigger] me[i]).is_ready() && (
        #[trigger] me[j]).is_ready() && me[i].sender() == me[j].sender() && me[i].seq() < me[
        j
    ].seq() implies me[i].timeline_id->0 < me[j].timeline_id->0 by {
        assert(me[i] == oe[m[i]] && me[j] == oe[m[j]]);
    }
    assert forall|i: int| 0 <= i < n implies (#[trigger] me[i]).insertion_order
        < mid.next_insertion_order() by {
        assert(me[i] == oe[m[i]]);
    }
    assert forall|i: int, j: int| 0 <= i < j < n implies (#[trigger] me[i]).insertion_order != (
    #[trigger] me[j]).insertion_order by {
        assert(me[i] == oe[m[i]] && me[j] == oe[m[j]]);
        assert(m[i] < m[j]);
    }

    // Ready survivors keep complete chains: every chain member is itself in
    // the timeline, so no removal rule of this pass touches it.
    assert forall|i: int|
        0 <= i < n && (#[trigger] me[i]).is_ready() implies mid.chain_complete(
        me[i].sender(),
        me[i].seq(),
    ) by {
        let s = me[i].sender();
        let qe = me[i].seq();
        let cm = mid.committed_of(s);
        assert(me[i] == oe[m[i]]);
        assert(o.chain_complete(s, qe));
        assert(o.committed_of(s) <= cm);
        assert forall|t: u64| cm <= t <= qe implies #[trigger] live_in(me, s, t) by {
            assert(live_in(oe, s, t));
            let j = choose|j: int|
                0 <= j < oe.len() && (#[trigger] oe[j]).sender() == s && oe[j].seq() == t;
            assert(o.chain_complete(s, t)) by {
                assert forall|u: u64| o.committed_of(s) <= u <= t implies #[trigger] live_in(
                    oe,
                    s,
                    u,
                ) by {
                    assert(o.committed_of(s) <= u <= qe);
                }
            }
            assert(oe[j].is_ready());
            lemma_entry_in_is(oe, j);
            assert(retain_keeps(rule, oe[j])) by {
                match victim {
                    Some(vp) => {
                        if oe[j].sender() == vp.0 && oe[j].seq() == vp.1 {
                            assert(oe[j] == o.entry_of(vp.0, vp.1));
                            assert(eviction_candidate(oe[j]));
                        }
                    },
                    None => {
                        if stale == 0 {
                            if oe[j].sender() == sender && oe[j].seq() == q {
                                assert(live_in(oe, sender, q));
                            }
                        } else {
                            if s == sender {
                                assert(t >= cm);
                            }
                        }
                    },
                }
            }
        }
    }

    assert forall|i: int|
        0 <= i < n && (#[trigger] me[i]).sender() != sender && mid.chain_complete(
        me[i].sender(),
        me[i].seq(),
    ) implies me[i].is_ready() by {
        let s = me[i].sender();
        let qe = me[i].seq();
        let c = mid.committed_of(s);
        assert(c == o.committed_of(s));
        assert forall|t: u64| c <= t <= qe implies #[trigger] live_in(oe, s, t) by {
            assert(live_in(me, s, t));
        }
        assert(o.chain_complete(s, qe));
        assert(me[i] == oe[m[i]]);
        assert(oe[m[i]].is_ready());
    }

    assert forall|i: int, j: int|
        0 <= i < n && 0 <= j < n && (#[trigger] me[i]).sender() == sender && (
        #[trigger] me[j]).sender() == sender && me[i].is_ready() && !me[j].is_ready() implies me[
        i
    ].seq() < me[j].seq() by {
        let c = o.committed_of(sender);
        assert(me[i] == oe[m[i]] && me[j] == oe[m[j]]);
        assert(oe[m[i]].is_ready());
        assert(o.chain_complete(sender, oe[m[i]].seq()));
        assert(!oe[m[j]].is_ready());
        assert(!o.chain_complete(sender, oe[m[j]].seq()));
        let t = choose|t: u64| c <= t <= oe[m[j]].seq() && !live_in(oe, sender, t);
        if me[i].seq() > me[j].seq() {
            assert(c <= t <= oe[m[i]].seq());
            assert(live_in(oe, sender, t));
        }
        if me[i].seq() == me[j].seq() {
            assert(m[i] != m[j]);
            if m[i] < m[j] {
                assert(!same_pointer(oe[m[i]], oe[m[j]]));
            } else {
                assert(!same_pointer(oe[m[j]], oe[m[i]]));
            }
        }
    }
}

/// Appending the admitted entry, buffered and not yet in the timeline,
/// preserves every intermediate invariant and leaves the state ready for the
/// promotion pass.
#[verifier::rlimit(100)]
proof fn lemma_add_insert(
    o: CoreMempool,
    mid: CoreMempool,
    m2: CoreMempool,
    sender: AccountAddress,
    eff: u64,
    q: u64,
)
    requires
        distinct_in(mid.entries()),
        1 <= mid.next_timeline_id(),
        mid.entries().len() + 1 <= mid.capacity(),
        !live_in(mid.entries(), sender, q),
        mid.next_timeline_id() + mid.capacity() <= u64::MAX,
        mid.committed_of(sender) == eff,
        q >= eff,
        forall|i: int|
            0 <= i < mid.entries().len() ==> (#[trigger] mid.entries()[i]).seq()
                >= mid.committed_of(mid.entries()[i].sender()),
        forall|i: int|
            0 <= i < mid.entries().len() && (#[trigger] mid.entries()[i]).is_ready() ==> 1
                <= mid.entries()[i].timeline_id->0 < mid.next_timeline_id(),
        forall|i: int, j: int|
            0 <= i < j < mid.entries().len() && (#[trigger] mid.entries()[i]).is_ready() && (
            #[trigger] mid.entries()[j]).is_ready() ==> mid.entries()[i].timeline_id->0
                != mid.entries()[j].timeline_id->0,
        forall|i: int, j: int|
            0 <= i < mid.entries().len() && 0 <= j < mid.entries().len() && (
            #[trigger] mid.entries()[i]).is_ready() && (#[trigger] mid.entries()[j]).is_ready()
                && mid.entries()[i].sender() == mid.entries()[j].sender()
                && mid.entries()[i].seq() < mid.entries()[j].seq() ==> mid.entries()[
                i
            ].timeline_id->0 < mid.entries()[j].timeline_id->0,
        forall|i: int|
            0 <= i < mid.entries().len() ==> (#[trigger] mid.entries()[i]).insertion_order
                < mid.next_insertion_order(),
        forall|i: int, j: int|
            0 <= i < j < mid.entries().len() ==> (#[trigger] mid.entries()[i]).insertion_order != (
            #[trigger] mid.entries()[j]).insertion_order,
        forall|i: int|
            0 <= i < mid.entries().len() && (#[trigger] mid.entries()[i]).is_ready()
                ==> mid.chain_complete(mid.entries()[i].sender(), mid.entries()[i].seq()),
        forall|i: int|
            0 <= i < mid.entries().len() && (#[trigger] mid.entries()[i]).sender() != sender
                && mid.chain_complete(mid.entries()[i].sender(), mid.entries()[i].seq())
                ==> mid.entries()[i].is_ready(),
        forall|i: int, j: int|
            0 <= i < mid.entries().len() && 0 <= j < mid.entries().len() && (
            #[trigger] mid.entries()[i]).sender() == sender && (
            #[trigger] mid.entries()[j]).sender() == sender && mid.entries()[i].is_ready()
                && !mid.entries()[j].is_ready() ==> mid.entries()[i].seq() < mid.entries()[
                j
            ].seq(),
        m2.rep_inv(),
        m2.capacity() == mid.capacity(),
        m2.max_per_sender() == mid.max_per_sender(),
        m2.next_timeline_id() == mid.next_timeline_id(),
        m2.next_insertion_order() == mid.next_insertion_order() + 1,
        forall|s: AccountAddress| #[trigger] m2.committed_of(s) == mid.committed_of(s),
        m2.entries().len() == mid.entries().len() + 1,
        forall|i: int|
            0 <= i < mid.entries().len() ==> #[trigger] m2.entries()[i] == mid.entries()[i],
        m2.entries().last().sender() == sender,
        m2.entries().last().seq() == q,
        !m2.entries().last().is_ready(),
        m2.entries().last().insertion_order == mid.next_insertion_order(),
    ensures
        distinct_in(m2.entries()),
        1 <= m2.next_timeline_id(),
        m2.entries().len() <= m2.capacity(),
        m2.next_timeline_id() + count_not_ready(m2.entries()) <= u64::MAX,
        forall|s: AccountAddress, q2: u64|
            #![trigger live_in(m2.entries(), s, q2)]
            #![trigger live_in(mid.entries(), s, q2)]
            live_in(m2.entries(), s, q2) <==> (live_in(mid.entries(), s, q2) || (s == sender && q2
                == q)),
        forall|s: AccountAddress, q2: u64|
            #[trigger] live_in(mid.entries(), s, q2) ==> entry_in(m2.entries(), s, q2) == entry_in(
                mid.entries(),
                s,
                q2,
            ),
        entry_in(m2.entries(), sender, q) == m2.entries().last(),
        forall|i: int|
            0 <= i < m2.entries().len() ==> (#[trigger] m2.entries()[i]).seq() >= m2.committed_of(
                m2.entries()[i].sender(),
            ),
        forall|i: int|
            0 <= i < m2.entries().len() && (#[trigger] m2.entries()[i]).is_ready() ==> 1
                <= m2.entries()[i].timeline_id->0 < m2.next_timeline_id(),
        forall|i: int, j: int|
            0 <= i < j < m2.entries().len() && (#[trigger] m2.entries()[i]).is_ready() && (
            #[trigger] m2.entries()[j]).is_ready() ==> m2.entries()[i].timeline_id->0
                != m2.entries()[j].timeline_id->0,
        forall|i: int, j: int|
            0 <= i < m2.entries().len() && 0 <= j < m2.entries().len() && (
            #[trigger] m2.entries()[i]).is_ready() && (#[trigger] m2.entries()[j]).is_ready()
                && m2.entries()[i].sender() == m2.entries()[j].sender() && m2.entries()[i].seq()
                < m2.entries()[j].seq() ==> m2.entries()[i].timeline_id->0 < m2.entries()[
                j
            ].timeline_id->0,
        forall|i: int|
            0 <= i < m2.entries().len() ==> (#[trigger] m2.entries()[i]).insertion_order
                < m2.next_insertion_order(),
        forall|i: int, j: int|
            0 <= i < j < m2.entries().len() ==> (#[trigger] m2.entries()[i]).insertion_order != (
            #[trigger] m2.entries()[j]).insertion_order,
        forall|i: int|
            0 <= i < m2.entries().len() && (#[trigger] m2.entries()[i]).is_ready()
                ==> m2.chain_complete(m2.entries()[i].sender(), m2.entries()[i].seq()),
        forall|i: int|
            0 <= i < m2.entries().len() && (#[trigger] m2.entries()[i]).sender() != sender
                && m2.chain_complete(m2.entries()[i].sender(), m2.entries()[i].seq())
                ==> m2.entries()[i].is_ready(),
        forall|i: int, j: int|
            0 <= i < m2.entries().len() && 0 <= j < m2.entries().len() && (
            #[trigger] m2.entries()[i]).sender() == sender && (
            #[trigger] m2.entries()[j]).sender() == sender && m2.entries()[i].is_ready()
                && !m2.entries()[j].is_ready() ==> m2.entries()[i].seq() < m2.entries()[j].seq(),
{
    let a = mid.entries();
    let b = m2.entries();
    let n = a.len() as int;
    let newv = b.last();

    assert forall|i: int, j: int| 0 <= i < j < b.len() implies !same_pointer(
        #[trigger] b[i],
        #[trigger] b[j],
    ) by {
        if j < n {
            assert(!same_pointer(a[i], a[j]));
        } else {
            assert(b[i] == a[i]);
            if b[i].sender() == sender && b[i].seq() == q {
                assert(live_in(a, sender, q));
            }
        }
    }

    assert forall|s: AccountAddress, q2: u64|
        live_in(b, s, q2) <==> (#[trigger] live_in(a, s, q2) || (s == sender && q2 == q)) by {
        if live_in(b, s, q2) {
            let k = choose|k: int|
                0 <= k < b.len() && (#[trigger] b[k]).sender() == s && b[k].seq() == q2;
            if k < n {
                assert(a[k].sender() == s && a[k].seq() == q2);
            }
        }
        if live_in(a, s, q2) {
            let k = choose|k: int|
                0 <= k < a.len() && (#[trigger] a[k]).sender() == s && a[k].seq() == q2;
            assert(b[k].sender() == s && b[k].seq() == q2);
        }
        if s == sender && q2 == q {
            assert(b[n].sender() == s && b[n].seq() == q2);
        }
    }

    assert forall|s: AccountAddress, q2: u64| #[trigger] live_in(a, s, q2) implies entry_in(
        b,
        s,
        q2,
    ) == entry_in(a, s, q2) by {
        let k = choose|k: int|
            0 <= k < a.len() && (#[trigger] a[k]).sender() == s && a[k].seq() == q2;
        lemma_entry_in_is(a, k);
        assert(b[k] == a[k]);
        lemma_entry_in_is(b, k);
    }

    assert(live_in(b, sender, q)) by {
        assert(b[n].sender() == sender && b[n].seq() == q);
    }
    lemma_entry_in_is(b, n);

    lemma_count_not_ready_bounds(a);
    assert(b.drop_last() =~= a);
    assert(count_not_ready(b) == count_not_ready(a) + 1);

    // Chains only grow when an entry is added.
    assert forall|c2: u64, s2: AccountAddress, q2: u64| #[trigger] chain_complete_in(
        a,
        c2,
        s2,
        q2,
    ) implies chain_complete_in(b, c2, s2, q2) by {
        assert forall|t: u64| c2 <= t <= q2 implies #[trigger] live_in(b, s2, t) by {
            assert(live_in(a, s2, t));
        }
    }

    assert forall|i: int|
        0 <= i < b.len() && (#[trigger] b[i]).is_ready() implies m2.chain_complete(
        b[i].sender(),
        b[i].seq(),
    ) by {
        assert(i < n);
        assert(b[i] == a[i]);
        assert(mid.chain_complete(a[i].sender(), a[i].seq()));
    }

    // For other senders the new entry is irrelevant to their chains.
    assert forall|i: int|
        0 <= i < b.len() && (#[trigger] b[i]).sender() != sender && m2.chain_complete(
        b[i].sender(),
        b[i].seq(),
    ) implies b[i].is_ready() by {
        let s = b[i].sender();
        let qe = b[i].seq();
        assert(i < n && b[i] == a[i]);
        let c = mid.committed_of(s);
        assert forall|t: u64| c <= t <= qe implies #[trigger] live_in(a, s, t) by {
            assert(live_in(b, s, t));
        }
        assert(mid.chain_complete(s, qe));
    }

    assert forall|i: int, j: int|
        0 <= i < b.len() && 0 <= j < b.len() && (#[trigger] b[i]).sender() == sender && (
        #[trigger] b[j]).sender() == sender && b[i].is_ready() && !b[j].is_ready() implies b[
        i
    ].seq() < b[j].seq() by {
        assert(i < n && b[i] == a[i]);
        if j == n {
            if a[i].seq() >= q {
                assert(mid.chain_complete(sender, a[i].seq()));
                if a[i].seq() == q {
                    assert(live_in(a, sender, q));
                } else {
                    assert(mid.committed_of(sender) <= q <= a[i].seq());
                    assert(live_in(a, sender, q));
                }
            }
        } else {
            assert(b[j] == a[j]);
        }
    }
}

/// After removing the committed prefix of `sender` and advancing its
/// committed point, the intermediate state satisfies every pool invariant
/// except that newly bridged entries of `sender` are not yet in the timeline.
#[verifier::rlimit(60)]
proof fn lemma_remove_commit_mid(
    o: CoreMempool,
    mid: CoreMempool,
    m: Seq<int>,
    sender: AccountAddress,
    sequence_number: u64,
)
    requires
        o.wf(),
        sequence_number < u64::MAX,
        o.next_timeline_id() + o.capacity() <= u64::MAX,
        mid.rep_inv(),
        mid.capacity() == o.capacity(),
        mid.max_per_sender() == o.max_per_sender(),
        mid.next_timeline_id() == o.next_timeline_id(),
        mid.next_insertion_order() == o.next_insertion_order(),
        mid.committed_of(sender) == spec_max_u64(
            o.committed_of(sender),
            (sequence_number + 1) as u64,
        ),
        forall|s: AccountAddress|
            s != sender ==> #[trigger] mid.committed_of(s) == o.committed_of(s),
        m.len() == mid.entries().len(),
        forall|k: int| 0 <= k < m.len() ==> 0 <= #[trigger] m[k] < o.entries().len(),
        forall|k: int| 0 <= k < m.len() ==> mid.entries()[k] == o.entries()[#[trigger] m[k]],
        forall|k1: int, k2: int| 0 <= k1 < k2 < m.len() ==> m[k1] < m[k2],
        forall|i: int|
            0 <= i < o.entries().len() ==> (retain_keeps(
                RetainRule::SenderAbove(sender, sequence_number),
                #[trigger] o.entries()[i],
            ) <==> exists|k: int| 0 <= k < m.len() && #[trigger] m[k] == i),
    ensures
        distinct_in(mid.entries()),
        1 <= mid.next_timeline_id(),
        mid.entries().len() <= mid.capacity(),
        mid.next_timeline_id() + count_not_ready(mid.entries()) <= u64::MAX,
        forall|s: AccountAddress, q: u64|
            #![trigger live_in(mid.entries(), s, q)]
            #![trigger live_in(o.entries(), s, q)]
            live_in(mid.entries(), s, q) <==> (live_in(o.entries(), s, q) && !(s == sender && q
                <= sequence_number)),
        forall|s: AccountAddress, q: u64|
            #[trigger] live_in(mid.entries(), s, q) ==> entry_in(mid.entries(), s, q) == entry_in(
                o.entries(),
                s,
                q,
            ),
        forall|i: int|
            0 <= i < mid.entries().len() ==> (#[trigger] mid.entries()[i]).seq()
                >= mid.committed_of(mid.entries()[i].sender()),
        forall|i: int|
            0 <= i < mid.entries().len() && (#[trigger] mid.entries()[i]).is_ready() ==> 1
                <= mid.entries()[i].timeline_id->0 < mid.next_timeline_id(),
        forall|i: int, j: int|
            0 <= i < j < mid.entries().len() && (#[trigger] mid.entries()[i]).is_ready() && (
            #[trigger] mid.entries()[j]).is_ready() ==> mid.entries()[i].timeline_id->0
                != mid.entries()[j].timeline_id->0,
        forall|i: int, j: int|
            0 <= i < mid.entries().len() && 0 <= j < mid.entries().len() && (
            #[trigger] mid.entries()[i]).is_ready() && (#[trigger] mid.entries()[j]).is_ready()
                && mid.entries()[i].sender() == mid.entries()[j].sender()
                && mid.entries()[i].seq() < mid.entries()[j].seq() ==> mid.entries()[
                i
            ].timeline_id->0 < mid.entries()[j].timeline_id->0,
        forall|i: int|
            0 <= i < mid.entries().len() ==> (#[trigger] mid.entries()[i]).insertion_order
                < mid.next_insertion_order(),
        forall|i: int, j: int|
            0 <= i < j < mid.entries().len() ==> (#[trigger] mid.entries()[i]).insertion_order != (
            #[trigger] mid.entries()[j]).insertion_order,
        forall|i: int|
            0 <= i < mid.entries().len() && (#[trigger] mid.entries()[i]).is_ready()
                ==> mid.chain_complete(mid.entries()[i].sender(), mid.entries()[i].seq()),
        forall|i: int|
            0 <= i < mid.entries().len() && (#[trigger] mid.entries()[i]).sender() != sender
                && mid.chain_complete(mid.entries()[i].sender(), mid.entries()[i].seq())
                ==> mid.entries()[i].is_ready(),
        forall|i: int, j: int|
            0 <= i < mid.entries().len() && 0 <= j < mid.entries().len() && (
            #[trigger] mid.entries()[i]).sender() == sender && (
            #[trigger] mid.entries()[j]).sender() == sender && mid.entries()[i].is_ready()
                && !mid.entries()[j].is_ready() ==> mid.entries()[i].seq() < mid.entries()[
                j
            ].seq(),
{
    let oe = o.entries();
    let me = mid.entries();
    let n = me.len() as int;
    let nc = mid.committed_of(sender);
    let rule = RetainRule::SenderAbove(sender, sequence_number);
    assert(nc > sequence_number);

    assert forall|i: int, j: int| 0 <= i < j < n implies !same_pointer(
        #[trigger] me[i],
        #[trigger] me[j],
    ) by {
        assert(m[i] < m[j]);
        assert(!same_pointer(oe[m[i]], oe[m[j]]));
    }

    lemma_increasing_bounds(m, oe.len() as int);
    lemma_count_not_ready_bounds(me);

    assert forall|s: AccountAddress, q: u64|
        live_in(me, s, q) <==> (#[trigger] live_in(oe, s, q) && !(s == sender && q
            <= sequence_number)) by {
        if live_in(me, s, q) {
            let k = choose|k: int|
                0 <= k < me.len() && (#[trigger] me[k]).sender() == s && me[k].seq() == q;
            assert(me[k] == oe[m[k]]);
            assert(retain_keeps(rule, oe[m[k]]));
        }
        if live_in(oe, s, q) && !(s == sender && q <= sequence_number) {
            let i = choose|i: int|
                0 <= i < oe.len() && (#[trigger] oe[i]).sender() == s && oe[i].seq() == q;
            assert(retain_keeps(rule, oe[i]));
            let k = choose|k: int| 0 <= k < m.len() && #[trigger] m[k] == i;
            assert(me[k].sender() == s && me[k].seq() == q);
        }
    }

    assert forall|s: AccountAddress, q: u64| #[trigger] live_in(me, s, q) implies entry_in(
        me,
        s,
        q,
    ) == entry_in(oe, s, q) by {
        let k = choose|k: int|
            0 <= k < me.len() && (#[trigger] me[k]).sender() == s && me[k].seq() == q;
        lemma_entry_in_is(me, k);
        assert(me[k] == oe[m[k]]);
        lemma_entry_in_is(oe, m[k]);
    }

    assert forall|i: int| 0 <= i < n implies (#[trigger] me[i]).seq() >= mid.committed_of(
        me[i].sender(),
    ) by {
        assert(me[i] == oe[m[i]]);
        assert(oe[m[i]].seq() >= o.committed_of(oe[m[i]].sender()));
        if me[i].sender() == sender {
            assert(retain_keeps(rule, oe[m[i]]));
            assert(me[i].seq() > sequence_number);
        }
    }

    assert forall|i: int|
        0 <= i < n && (#[trigger] me[i]).is_ready() implies mid.chain_complete(
        me[i].sender(),
        me[i].seq(),
    ) by {
        let s = me[i].sender();
        let q = me[i].seq();
        let c = mid.committed_of(s);
        assert(me[i] == oe[m[i]]);
        assert(o.chain_complete(s, q));
        assert forall|t: u64| c <= t <= q implies #[trigger] live_in(me, s, t) by {
            assert(o.committed_of(s) <= c);
            assert(live_in(oe, s, t));
            if s == sender {
                assert(t >= nc > sequence_number);
            }
        }
    }

    assert forall|i: int|
        0 <= i < n && (#[trigger] me[i]).sender() != sender && mid.chain_complete(
        me[i].sender(),
        me[i].seq(),
    ) implies me[i].is_ready() by {
        let s = me[i].sender();
        let q = me[i].seq();
        let c = mid.committed_of(s);
        assert(c == o.committed_of(s));
        assert forall|t: u64| c <= t <= q implies #[trigger] live_in(oe, s, t) by {
            assert(live_in(me, s, t));
        }
        assert(o.chain_complete(s, q));
        assert(me[i] == oe[m[i]]);
        assert(oe[m[i]].is_ready());
    }

    assert forall|i: int| 0 <= i < n && (#[trigger] me[i]).is_ready() implies 1
        <= me[i].timeline_id->0 < mid.next_timeline_id() by {
        assert(me[i] == oe[m[i]]);
    }
    assert forall|i: int, j: int|
        0 <= i < j < n && (#[trigger] me[i]).is_ready() && (#[trigger] me[j]).is_ready() implies me[
        i
    ].timeline_id->0 != me[j].timeline_id->0 by {
        assert(me[i] == oe[m[i]] && me[j] == oe[m[j]]);
        assert(m[i] < m[j]);
    }
    assert forall|i: int, j: int|
        0 <= i < n && 0 <= j < n && (#[trigger] me[i]).is_ready() && (
        #[trigger] me[j]).is_ready() && me[i].sender() == me[j].sender() && me[i].seq() < me[
        j
    ].seq() implies me[i].timeline_id->0 < me[j].timeline_id->0 by {
        assert(me[i] == oe[m[i]] && me[j] == oe[m[j]]);
    }
    assert forall|i: int| 0 <= i < n implies (#[trigger] me[i]).insertion_order
        < mid.next_insertion_order() by {
        assert(me[i] == oe[m[i]]);
    }
    assert forall|i: int, j: int| 0 <= i < j < n implies (#[trigger] me[i]).insertion_order != (
    #[trigger] me[j]).insertion_order by {
        assert(me[i] == oe[m[i]] && me[j] == oe[m[j]]);
        assert(m[i] < m[j]);
    }

    assert forall|i: int, j: int|
        0 <= i < n && 0 <= j < n && (#[trigger] me[i]).sender() == sender && (
        #[trigger] me[j]).sender() == sender && me[i].is_ready() && !me[j].is_ready() implies me[
        i
    ].seq() < me[j].seq() by {
        let c = o.committed_of(sender);
        assert(me[i] == oe[m[i]] && me[j] == oe[m[j]]);
        assert(oe[m[i]].is_ready());
        assert(o.chain_complete(sender, oe[m[i]].seq()));
        assert(!oe[m[j]].is_ready());
        assert(!o.chain_complete(sender, oe[m[j]].seq()));
        let t = choose|t: u64| c <= t <= oe[m[j]].seq() && !live_in(oe, sender, t);
        if me[i].seq() > me[j].seq() {
            assert(c <= t <= oe[m[i]].seq());
            assert(live_in(oe, sender, t));
        }
        if me[i].seq() == me[j].seq() {
            assert(m[i] != m[j]);
            if m[i] < m[j] {
                assert(!same_pointer(oe[m[i]], oe[m[j]]));
            } else {
                assert(!same_pointer(oe[m[j]], oe[m[i]]));
            }
        }
    }
}

/// Reassembles the admission postconditions from the pruned state, the
/// inserted entry, and the promotion pass.
#[verifier::rlimit(100)]
proof fn lemma_add_reassemble(
    o: CoreMempool,
    mid: CoreMempool,
    m2: CoreMempool,
    fin: CoreMempool,
    txn: TxnView,
    eff: u64,
    victim: Option<TxnPointer>,
    ranking_score: u64,
    governance_role: GovernanceRole,
)
    requires
        o.wf(),
        !o.has_entry(txn.sender, txn.sequence_number),
        eff >= o.committed_of(txn.sender),
        match victim {
            Some(vp) => o.entries().len() == o.capacity() && o.has_entry(vp.0, vp.1)
                && eviction_candidate(o.entry_of(vp.0, vp.1)) && (forall|i: int|
                0 <= i < o.entries().len() && eviction_candidate(#[trigger] o.entries()[i])
                    ==> o.entry_of(vp.0, vp.1).ranking_score <= o.entries()[i].ranking_score),
            None => true,
        },
        mid.capacity() == o.capacity(),
        mid.max_per_sender() == o.max_per_sender(),
        mid.next_timeline_id() == o.next_timeline_id(),
        mid.next_insertion_order() == o.next_insertion_order(),
        mid.committed_of(txn.sender) == eff,
        forall|s: AccountAddress|
            s != txn.sender ==> #[trigger] mid.committed_of(s) == o.committed_of(s),
        match victim {
            Some(vp) => forall|s: AccountAddress, q2: u64|
                #![trigger live_in(mid.entries(), s, q2)]
                #![trigger live_in(o.entries(), s, q2)]
                live_in(mid.entries(), s, q2) <==> (live_in(o.entries(), s, q2) && !(s == vp.0 && q2
                    == vp.1)),
            None => forall|s: AccountAddress, q2: u64|
                #![trigger live_in(mid.entries(), s, q2)]
                #![trigger live_in(o.entries(), s, q2)]
                live_in(mid.entries(), s, q2) <==> (live_in(o.entries(), s, q2) && !(s == txn.sender
                    && q2 < eff)),
        },
        forall|s: AccountAddress, q2: u64|
            #[trigger] live_in(mid.entries(), s, q2) ==> entry_in(mid.entries(), s, q2) == entry_in(
                o.entries(),
                s,
                q2,
            ),
        // the inserted entry
        m2.capacity() == mid.capacity(),
        m2.max_per_sender() == mid.max_per_sender(),
        m2.next_timeline_id() == mid.next_timeline_id(),
        m2.next_insertion_order() == mid.next_insertion_order() + 1,
        forall|s: AccountAddress| #[trigger] m2.committed_of(s) == mid.committed_of(s),
        m2.entries().len() == mid.entries().len() + 1,
        m2.entries().len() <= m2.capacity(),
        forall|i: int|
            0 <= i < mid.entries().len() ==> #[trigger] m2.entries()[i] == mid.entries()[i],
        m2.entries().last() == (PoolEntryView {
            txn,
            ranking_score,
            governance_role,
            insertion_order: mid.next_insertion_order(),
            timeline_id: None,
        }),
        distinct_in(m2.entries()),
        forall|s: AccountAddress, q2: u64|
            #![trigger live_in(m2.entries(), s, q2)]
            #![trigger live_in(mid.entries(), s, q2)]
            live_in(m2.entries(), s, q2) <==> (live_in(mid.entries(), s, q2) || (s == txn.sender
                && q2 == txn.sequence_number)),
        forall|s: AccountAddress, q2: u64|
            #[trigger] live_in(mid.entries(), s, q2) ==> entry_in(m2.entries(), s, q2) == entry_in(
                mid.entries(),
                s,
                q2,
            ),
        entry_in(m2.entries(), txn.sender, txn.sequence_number) == m2.entries().last(),
        forall|i: int|
            0 <= i < m2.entries().len() ==> (#[trigger] m2.entries()[i]).seq() >= m2.committed_of(
                m2.entries()[i].sender(),
            ),
        forall|i: int|
            0 <= i < m2.entries().len() ==> (#[trigger] m2.entries()[i]).insertion_order
                < m2.next_insertion_order(),
        forall|i: int, j: int|
            0 <= i < j < m2.entries().len() ==> (#[trigger] m2.entries()[i]).insertion_order != (
            #[trigger] m2.entries()[j]).insertion_order,
        // shape of the promotion pass
        fin.rep_inv(),
        forall|s: AccountAddress| #[trigger] fin.committed_of(s) == m2.committed_of(s),
        fin.capacity() == m2.capacity(),
        fin.max_per_sender() == m2.max_per_sender(),
        fin.next_insertion_order() == m2.next_insertion_order(),
        fin.entries().len() == m2.entries().len(),
        m2.next_timeline_id() <= fin.next_timeline_id(),
        forall|i: int|
            0 <= i < m2.entries().len() ==> same_pointer(
                #[trigger] fin.entries()[i],
                m2.entries()[i],
            ) && same_except_timeline(fin.entries()[i], m2.entries()[i]),
        forall|i: int|
            0 <= i < m2.entries().len() && (#[trigger] m2.entries()[i]).is_ready()
                ==> fin.entries()[i] == m2.entries()[i],
        forall|i: int|
            0 <= i < m2.entries().len() && !(#[trigger] m2.entries()[i]).is_ready() && fin.entries()[i].is_ready()
                ==> fin.entries()[i].sender() == txn.sender && m2.next_timeline_id()
                <= fin.entries()[i].timeline_id->0 < fin.next_timeline_id(),
        forall|i: int|
            0 <= i < fin.entries().len() && (#[trigger] fin.entries()[i]).is_ready() ==> 1
                <= fin.entries()[i].timeline_id->0 < fin.next_timeline_id(),
        forall|i: int, j: int|
            0 <= i < j < fin.entries().len() && (#[trigger] fin.entries()[i]).is_ready() && (
            #[trigger] fin.entries()[j]).is_ready() ==> fin.entries()[i].timeline_id->0
                != fin.entries()[j].timeline_id->0,
        forall|i: int, j: int|
            0 <= i < fin.entries().len() && 0 <= j < fin.entries().len() && (
            #[trigger] fin.entries()[i]).is_ready() && (#[trigger] fin.entries()[j]).is_ready()
                && fin.entries()[i].sender() == fin.entries()[j].sender() && fin.entries()[i].seq()
                < fin.entries()[j].seq() ==> fin.entries()[i].timeline_id->0 < fin.entries()[
                j
            ].timeline_id->0,
        forall|i: int|
            0 <= i < fin.entries().len() ==> ((#[trigger] fin.entries()[i]).is_ready()
                <==> fin.chain_complete(fin.entries()[i].sender(), fin.entries()[i].seq())),
    ensures
        fin.wf(),
        fin.capacity() == o.capacity(),
        fin.max_per_sender() == o.max_per_sender(),
        o.next_timeline_id() <= fin.next_timeline_id(),
        fin.committed_of(txn.sender) == eff,
        forall|s: AccountAddress|
            s != txn.sender ==> #[trigger] fin.committed_of(s) == o.committed_of(s),
        fin.next_insertion_order() == o.next_insertion_order() + 1,
        fin.has_entry(txn.sender, txn.sequence_number),
        fin.entry_of(txn.sender, txn.sequence_number).txn == txn,
        fin.entry_of(txn.sender, txn.sequence_number).ranking_score == ranking_score,
        fin.entry_of(txn.sender, txn.sequence_number).governance_role == governance_role,
        fin.entry_of(txn.sender, txn.sequence_number).insertion_order == o.next_insertion_order(),
        add_liveness_ok(o, fin, txn, eff, victim),
        forall|s: AccountAddress, q2: u64|
            #[trigger] fin.has_entry(s, q2) && o.has_entry(s, q2) && !(s == txn.sender && q2
                == txn.sequence_number) ==> same_except_timeline(
                fin.entry_of(s, q2),
                o.entry_of(s, q2),
            ) && (o.entry_of(s, q2).is_ready() ==> fin.entry_of(s, q2) == o.entry_of(s, q2)) && (
            fin.entry_of(s, q2).is_ready() && !o.entry_of(s, q2).is_ready() ==> fin.entry_of(
                s,
                q2,
            ).timeline_id->0 >= o.next_timeline_id()),
{
    let oe = o.entries();
    let ae = mid.entries();
    let be = m2.entries();
    let fe = fin.entries();
    let n = fe.len() as int;
    let sender = txn.sender;
    let q = txn.sequence_number;

    assert forall|s: AccountAddress, q2: u64| #[trigger] live_in(fe, s, q2) == live_in(
        be,
        s,
        q2,
    ) by {
        lemma_live_same_pointers(fe, be, s, q2);
    }

    assert forall|i: int, j: int| 0 <= i < j < n implies !same_pointer(
        #[trigger] fe[i],
        #[trigger] fe[j],
    ) by {
        assert(same_pointer(fe[i], be[i]) && same_pointer(fe[j], be[j]));
        assert(!same_pointer(be[i], be[j]));
    }

    assert forall|i: int| 0 <= i < n implies (#[trigger] fe[i]).seq() >= fin.committed_of(
        fe[i].sender(),
    ) by {
        assert(same_pointer(fe[i], be[i]));
        assert(be[i].seq() >= m2.committed_of(be[i].sender()));
    }

    assert forall|i: int| 0 <= i < n implies (#[trigger] fe[i]).insertion_order
        < fin.next_insertion_order() by {
        assert(same_except_timeline(fe[i], be[i]));
    }
    assert forall|i: int, j: int| 0 <= i < j < n implies (#[trigger] fe[i]).insertion_order != (
    #[trigger] fe[j]).insertion_order by {
        assert(same_except_timeline(fe[i], be[i]) && same_except_timeline(fe[j], be[j]));
    }

    assert(fin.has_entry(sender, q)) by {
        assert(live_in(be, sender, q)) by {
            assert(live_in(ae, sender, q) || (sender == txn.sender && q == txn.sequence_number));
        }
    }

    // The admitted entry under its slot.
    let kn = choose|k: int|
        0 <= k < fe.len() && (#[trigger] fe[k]).sender() == sender && fe[k].seq() == q;
    lemma_entry_in_is(fe, kn);
    assert(same_pointer(fe[kn], be[kn]));
    lemma_entry_in_is(be, kn);
    assert(entry_in(be, sender, q) == be[kn]);
    assert(be[kn] == be.last());
    assert(same_except_timeline(fe[kn], be[kn]));
    assert(fin.entry_of(sender, q).txn == txn);

    assert(add_liveness_ok(o, fin, txn, eff, victim)) by {
        match victim {
            Some(vp) => {
                assert forall|s: AccountAddress, q2: u64|
                    fin.has_entry(s, q2) <==> ((#[trigger] o.has_entry(s, q2) && !(s == vp.0 && q2
                        == vp.1)) || (s == sender && q2 == q)) by {
                    assert(live_in(fe, s, q2) == live_in(be, s, q2));
                }
            },
            None => {
                assert forall|s: AccountAddress, q2: u64|
                    fin.has_entry(s, q2) <==> ((#[trigger] o.has_entry(s, q2) && !(s == sender && q2
                        < eff)) || (s == sender && q2 == q)) by {
                    assert(live_in(fe, s, q2) == live_in(be, s, q2));
                    if s == sender && q2 == q && live_in(oe, s, q2) {
                        assert(false);
                    }
                }
            },
        }
    }

    assert forall|s: AccountAddress, q2: u64|
        #[trigger] fin.has_entry(s, q2) && o.has_entry(s, q2) && !(s == sender && q2
            == q) implies same_except_timeline(fin.entry_of(s, q2), o.entry_of(s, q2)) && (
    o.entry_of(s, q2).is_ready() ==> fin.entry_of(s, q2) == o.entry_of(s, q2)) && (fin.entry_of(
        s,
        q2,
    ).is_ready() && !o.entry_of(s, q2).is_ready() ==> fin.entry_of(s, q2).timeline_id->0
        >= o.next_timeline_id()) by {
        let k = choose|k: int|
            0 <= k < fe.len() && (#[trigger] fe[k]).sender() == s && fe[k].seq() == q2;
        lemma_entry_in_is(fe, k);
        assert(same_pointer(fe[k], be[k]));
        lemma_entry_in_is(be, k);
        assert(live_in(be, s, q2));
        assert(live_in(ae, s, q2));
        assert(entry_in(be, s, q2) == entry_in(ae, s, q2));
        assert(entry_in(ae, s, q2) == entry_in(oe, s, q2));
        assert(be[k] == o.entry_of(s, q2));
        assert(same_except_timeline(fe[k], be[k]));
        if be[k].is_ready() {
            assert(fe[k] == be[k]);
        }
    }
}

/// Reassembles the commit-removal postconditions from the intermediate state
/// and the promotion pass that follows it.
#[verifier::rlimit(60)]
proof fn lemma_remove_commit_reassemble(
    o: CoreMempool,
    mid: CoreMempool,
    fin: CoreMempool,
    m: Seq<int>,
    sender: AccountAddress,
    sequence_number: u64,
)
    requires
        o.wf(),
        sequence_number < u64::MAX,
        mid.capacity() == o.capacity(),
        mid.max_per_sender() == o.max_per_sender(),
        mid.next_timeline_id() == o.next_timeline_id(),
        mid.next_insertion_order() == o.next_insertion_order(),
        mid.committed_of(sender) == spec_max_u64(
            o.committed_of(sender),
            (sequence_number + 1) as u64,
        ),
        forall|s: AccountAddress|
            s != sender ==> #[trigger] mid.committed_of(s) == o.committed_of(s),
        distinct_in(mid.entries()),
        mid.entries().len() <= mid.capacity(),
        forall|s: AccountAddress, q: u64|
            #![trigger live_in(mid.entries(), s, q)]
            #![trigger live_in(o.entries(), s, q)]
            live_in(mid.entries(), s, q) <==> (live_in(o.entries(), s, q) && !(s == sender && q
                <= sequence_number)),
        forall|s: AccountAddress, q: u64|
            #[trigger] live_in(mid.entries(), s, q) ==> entry_in(mid.entries(), s, q) == entry_in(
                o.entries(),
                s,
                q,
            ),
        forall|i: int|
            0 <= i < mid.entries().len() ==> (#[trigger] mid.entries()[i]).seq()
                >= mid.committed_of(mid.entries()[i].sender()),
        forall|i: int|
            0 <= i < mid.entries().len() ==> (#[trigger] mid.entries()[i]).insertion_order
                < mid.next_insertion_order(),
        forall|i: int, j: int|
            0 <= i < j < mid.entries().len() ==> (#[trigger] mid.entries()[i]).insertion_order != (
            #[trigger] mid.entries()[j]).insertion_order,
        // shape of the promotion pass
        fin.rep_inv(),
        forall|s: AccountAddress| #[trigger] fin.committed_of(s) == mid.committed_of(s),
        fin.capacity() == mid.capacity(),
        fin.max_per_sender() == mid.max_per_sender(),
        fin.next_insertion_order() == mid.next_insertion_order(),
        fin.entries().len() == mid.entries().len(),
        mid.next_timeline_id() <= fin.next_timeline_id(),
        forall|i: int|
            0 <= i < mid.entries().len() ==> same_pointer(
                #[trigger] fin.entries()[i],
                mid.entries()[i],
            ) && same_except_timeline(fin.entries()[i], mid.entries()[i]),
        forall|i: int|
            0 <= i < mid.entries().len() && (#[trigger] mid.entries()[i]).is_ready()
                ==> fin.entries()[i] == mid.entries()[i],
        forall|i: int|
            0 <= i < mid.entries().len() && !(#[trigger] mid.entries()[i]).is_ready() && fin.entries()[i].is_ready()
                ==> fin.entries()[i].sender() == sender && mid.next_timeline_id() <= fin.entries()[
                i
            ].timeline_id->0 < fin.next_timeline_id(),
        forall|i: int|
            0 <= i < fin.entries().len() && (#[trigger] fin.entries()[i]).is_ready() ==> 1
                <= fin.entries()[i].timeline_id->0 < fin.next_timeline_id(),
        forall|i: int, j: int|
            0 <= i < j < fin.entries().len() && (#[trigger] fin.entries()[i]).is_ready() && (
            #[trigger] fin.entries()[j]).is_ready() ==> fin.entries()[i].timeline_id->0
                != fin.entries()[j].timeline_id->0,
        forall|i: int, j: int|
            0 <= i < fin.entries().len() && 0 <= j < fin.entries().len() && (
            #[trigger] fin.entries()[i]).is_ready() && (#[trigger] fin.entries()[j]).is_ready()
                && fin.entries()[i].sender() == fin.entries()[j].sender() && fin.entries()[i].seq()
                < fin.entries()[j].seq() ==> fin.entries()[i].timeline_id->0 < fin.entries()[
                j
            ].timeline_id->0,
        forall|i: int|
            0 <= i < fin.entries().len() ==> ((#[trigger] fin.entries()[i]).is_ready()
                <==> fin.chain_complete(fin.entries()[i].sender(), fin.entries()[i].seq())),
    ensures
        fin.wf(),
        fin.capacity() == o.capacity(),
        fin.max_per_sender() == o.max_per_sender(),
        fin.next_insertion_order() == o.next_insertion_order(),
        o.next_timeline_id() <= fin.next_timeline_id(),
        fin.committed_of(sender) == spec_max_u64(
            o.committed_of(sender),
            (sequence_number + 1) as u64,
        ),
        forall|s: AccountAddress|
            s != sender ==> #[trigger] fin.committed_of(s) == o.committed_of(s),
        forall|s: AccountAddress, q: u64|
            #![trigger fin.has_entry(s, q)]
            #![trigger o.has_entry(s, q)]
            fin.has_entry(s, q) <==> (o.has_entry(s, q) && !removes(
                sender,
                sequence_number,
                false,
                s,
                q,
            )),
        forall|s: AccountAddress, q: u64|
            #[trigger] fin.has_entry(s, q) ==> same_except_timeline(
                fin.entry_of(s, q),
                o.entry_of(s, q),
            ) && (o.entry_of(s, q).is_ready() ==> fin.entry_of(s, q) == o.entry_of(s, q)) && (
            fin.entry_of(s, q).is_ready() && !o.entry_of(s, q).is_ready() ==> fin.entry_of(
                s,
                q,
            ).timeline_id->0 >= o.next_timeline_id()),
{
    let oe = o.entries();
    let me = mid.entries();
    let fe = fin.entries();
    let n = fe.len() as int;

    assert forall|s: AccountAddress, q: u64| #[trigger] live_in(fe, s, q) == live_in(me, s, q) by {
        lemma_live_same_pointers(fe, me, s, q);
    }

    assert forall|i: int, j: int| 0 <= i < j < n implies !same_pointer(
        #[trigger] fe[i],
        #[trigger] fe[j],
    ) by {
        assert(same_pointer(fe[i], me[i]) && same_pointer(fe[j], me[j]));
        assert(!same_pointer(me[i], me[j]));
    }

    assert forall|i: int| 0 <= i < n implies (#[trigger] fe[i]).seq() >= fin.committed_of(
        fe[i].sender(),
    ) by {
        assert(same_pointer(fe[i], me[i]));
        assert(me[i].seq() >= mid.committed_of(me[i].sender()));
    }

    assert forall|i: int| 0 <= i < n implies (#[trigger] fe[i]).insertion_order
        < fin.next_insertion_order() by {
        assert(same_except_timeline(fe[i], me[i]));
    }
    assert forall|i: int, j: int| 0 <= i < j < n implies (#[trigger] fe[i]).insertion_order != (
    #[trigger] fe[j]).insertion_order by {
        assert(same_except_timeline(fe[i], me[i]) && same_except_timeline(fe[j], me[j]));
    }

    assert forall|s: AccountAddress, q: u64| #[trigger] fin.has_entry(s, q) implies same_except_timeline(
        fin.entry_of(s, q),
        o.entry_of(s, q),
    ) && (o.entry_of(s, q).is_ready() ==> fin.entry_of(s, q) == o.entry_of(s, q)) && (fin.entry_of(
        s,
        q,
    ).is_ready() && !o.entry_of(s, q).is_ready() ==> fin.entry_of(s, q).timeline_id->0
        >= o.next_timeline_id()) by {
        let k = choose|k: int|
            0 <= k < fe.len() && (#[trigger] fe[k]).sender() == s && fe[k].seq() == q;
        lemma_entry_in_is(fe, k);
        assert(same_pointer(fe[k], me[k]));
        lemma_entry_in_is(me, k);
        assert(live_in(me, s, q));
        assert(entry_in(me, s, q) == entry_in(oe, s, q));
        assert(o.entry_of(s, q) == me[k]);
        assert(same_except_timeline(fe[k], me[k]));
    }
}

/// Reassembles the reject-removal postconditions from the removal pass: the
/// sender's suffix is gone and everything else is untouched, timeline
/// positions included.
#[verifier::rlimit(60)]
proof fn lemma_remove_reject_reassemble(
    o: CoreMempool,
    fin: CoreMempool,
    m: Seq<int>,
    sender: AccountAddress,
    sequence_number: u64,
)
    requires
        o.wf(),
        fin.rep_inv(),
        fin.capacity() == o.capacity(),
        fin.max_per_sender() == o.max_per_sender(),
        fin.next_timeline_id() == o.next_timeline_id(),
        fin.next_insertion_order() == o.next_insertion_order(),
        forall|s: AccountAddress| #[trigger] fin.committed_of(s) == o.committed_of(s),
        m.len() == fin.entries().len(),
        forall|k: int| 0 <= k < m.len() ==> 0 <= #[trigger] m[k] < o.entries().len(),
        forall|k: int| 0 <= k < m.len() ==> fin.entries()[k] == o.entries()[#[trigger] m[k]],
        forall|k1: int, k2: int| 0 <= k1 < k2 < m.len() ==> m[k1] < m[k2],
        forall|i: int|
            0 <= i < o.entries().len() ==> (retain_keeps(
                RetainRule::SenderBelow(sender, sequence_number),
                #[trigger] o.entries()[i],
            ) <==> exists|k: int| 0 <= k < m.len() && #[trigger] m[k] == i),
    ensures
        fin.wf(),
        o.next_timeline_id() <= fin.next_timeline_id(),
        forall|s: AccountAddress, q: u64|
            #![trigger fin.has_entry(s, q)]
            #![trigger o.has_entry(s, q)]
            fin.has_entry(s, q) <==> (o.has_entry(s, q) && !removes(
                sender,
                sequence_number,
                true,
                s,
                q,
            )),
        forall|s: AccountAddress, q: u64|
            #[trigger] fin.has_entry(s, q) ==> fin.entry_of(s, q) == o.entry_of(s, q),
{
    let oe = o.entries();
    let fe = fin.entries();
    let n = fe.len() as int;
    let rule = RetainRule::SenderBelow(sender, sequence_number);

    assert forall|i: int, j: int| 0 <= i < j < n implies !same_pointer(
        #[trigger] fe[i],
        #[trigger] fe[j],
    ) by {
        assert(m[i] < m[j]);
        assert(!same_pointer(oe[m[i]], oe[m[j]]));
    }

    lemma_increasing_bounds(m, oe.len() as int);

    assert forall|s: AccountAddress, q: u64|
        fin.has_entry(s, q) <==> (#[trigger] o.has_entry(s, q) && !(s == sender && q
            >= sequence_number)) by {
        if fin.has_entry(s, q) {
            let k = choose|k: int|
                0 <= k < fe.len() && (#[trigger] fe[k]).sender() == s && fe[k].seq() == q;
            assert(fe[k] == oe[m[k]]);
            assert(retain_keeps(rule, oe[m[k]]));
        }
        if o.has_entry(s, q) && !(s == sender && q >= sequence_number) {
            let i = choose|i: int|
                0 <= i < oe.len() && (#[trigger] oe[i]).sender() == s && oe[i].seq() == q;
            assert(retain_keeps(rule, oe[i]));
            let k = choose|k: int| 0 <= k < m.len() && #[trigger] m[k] == i;
            assert(fe[k].sender() == s && fe[k].seq() == q);
        }
    }

    assert forall|s: AccountAddress, q: u64| #[trigger] fin.has_entry(s, q) implies fin.entry_of(
        s,
        q,
    ) == o.entry_of(s, q) by {
        let k = choose|k: int|
            0 <= k < fe.len() && (#[trigger] fe[k]).sender() == s && fe[k].seq() == q;
        lemma_entry_in_is(fe, k);
        assert(fe[k] == oe[m[k]]);
        lemma_entry_in_is(oe, m[k]);
    }

    assert forall|i: int| 0 <= i < n implies (#[trigger] fe[i]).seq() >= fin.committed_of(
        fe[i].sender(),
    ) by {
        assert(fe[i] == oe[m[i]]);
    }
    assert forall|i: int| 0 <= i < n && (#[trigger] fe[i]).is_ready() implies 1
        <= fe[i].timeline_id->0 < fin.next_timeline_id() by {
        assert(fe[i] == oe[m[i]]);
    }
    assert forall|i: int, j: int|
        0 <= i < j < n && (#[trigger] fe[i]).is_ready() && (#[trigger] fe[j]).is_ready() implies fe[
        i
    ].timeline_id->0 != fe[j].timeline_id->0 by {
        assert(fe[i] == oe[m[i]] && fe[j] == oe[m[j]]);
        assert(m[i] < m[j]);
    }
    assert forall|i: int, j: int|
        0 <= i < n && 0 <= j < n && (#[trigger] fe[i]).is_ready() && (
        #[trigger] fe[j]).is_ready() && fe[i].sender() == fe[j].sender() && fe[i].seq() < fe[
        j
    ].seq() implies fe[i].timeline_id->0 < fe[j].timeline_id->0 by {
        assert(fe[i] == oe[m[i]] && fe[j] == oe[m[j]]);
    }
    assert forall|i: int| 0 <= i < n implies (#[trigger] fe[i]).insertion_order
        < fin.next_insertion_order() by {
        assert(fe[i] == oe[m[i]]);
    }
    assert forall|i: int, j: int| 0 <= i < j < n implies (#[trigger] fe[i]).insertion_order != (
    #[trigger] fe[j]).insertion_order by {
        assert(fe[i] == oe[m[i]] && fe[j] == oe[m[j]]);
        assert(m[i] < m[j]);
    }

    assert forall|i: int| 0 <= i < n implies ((#[trigger] fe[i]).is_ready() <==> fin.chain_complete(
        fe[i].sender(),
        fe[i].seq(),
    )) by {
        let s = fe[i].sender();
        let q = fe[i].seq();
        let c = fin.committed_of(s);
        assert(fe[i] == oe[m[i]]);
        assert(retain_keeps(rule, oe[m[i]]));
        if fe[i].is_ready() {
            assert(o.chain_complete(s, q));
            assert forall|t: u64| c <= t <= q implies #[trigger] live_in(fe, s, t) by {
                assert(live_in(oe, s, t));
                if s == sender {
                    assert(q < sequence_number);
                    assert(t < sequence_number);
                }
                assert(fin.has_entry(s, t));
            }
        } else {
            assert(!o.chain_complete(s, q));
            if fin.chain_complete(s, q) {
                assert forall|t2: u64| c <= t2 <= q implies #[trigger] live_in(oe, s, t2) by {
                    assert(live_in(fe, s, t2));
                    assert(o.has_entry(s, t2));
                }
                assert(o.chain_complete(s, q));
            }
        }
    }
}

/// Reassembles the garbage-collection postconditions from the removal pass
/// (with its position map `m`) followed by the demotion pass.
#[verifier::rlimit(60)]
proof fn lemma_gc_reassemble(o: CoreMempool, mid: CoreMempool, fin: CoreMempool, m: Seq<int>, now: u64)
    requires
        o.wf(),
        mid.capacity() == o.capacity(),
        mid.max_per_sender() == o.max_per_sender(),
        mid.next_timeline_id() == o.next_timeline_id(),
        mid.next_insertion_order() == o.next_insertion_order(),
        forall|s: AccountAddress| #[trigger] mid.committed_of(s) == o.committed_of(s),
        m.len() == mid.entries().len(),
        forall|k: int| 0 <= k < m.len() ==> 0 <= #[trigger] m[k] < o.entries().len(),
        forall|k: int| 0 <= k < m.len() ==> mid.entries()[k] == o.entries()[#[trigger] m[k]],
        forall|k1: int, k2: int| 0 <= k1 < k2 < m.len() ==> m[k1] < m[k2],
        forall|i: int|
            0 <= i < o.entries().len() ==> (retain_keeps(
                RetainRule::NotExpired(now),
                #[trigger] o.entries()[i],
            ) <==> exists|k: int| 0 <= k < m.len() && #[trigger] m[k] == i),
        fin.rep_inv(),
        fin.capacity() == mid.capacity(),
        fin.max_per_sender() == mid.max_per_sender(),
        fin.next_timeline_id() == mid.next_timeline_id(),
        fin.next_insertion_order() == mid.next_insertion_order(),
        forall|s: AccountAddress| #[trigger] fin.committed_of(s) == mid.committed_of(s),
        fin.entries().len() == mid.entries().len(),
        forall|i: int|
            0 <= i < mid.entries().len() ==> #[trigger] fin.entries()[i] == (if chain_complete_in(
                mid.entries(),
                mid.committed_of(mid.entries()[i].sender()),
                mid.entries()[i].sender(),
                mid.entries()[i].seq(),
            ) {
                mid.entries()[i]
            } else {
                demoted(mid.entries()[i])
            }),
    ensures
        fin.wf(),
        fin.capacity() == o.capacity(),
        fin.max_per_sender() == o.max_per_sender(),
        fin.next_timeline_id() == o.next_timeline_id(),
        fin.next_insertion_order() == o.next_insertion_order(),
        forall|s: AccountAddress| #[trigger] fin.committed_of(s) == o.committed_of(s),
        forall|i: int|
            0 <= i < fin.entries().len() ==> (#[trigger] fin.entries()[i]).txn.expiration_time
                > now,
        forall|s: AccountAddress, q: u64|
            #![trigger fin.has_entry(s, q)]
            #![trigger o.has_entry(s, q)]
            fin.has_entry(s, q) <==> (o.has_entry(s, q) && o.entry_of(s, q).txn.expiration_time
                > now),
        forall|s: AccountAddress, q: u64|
            #[trigger] fin.has_entry(s, q) ==> same_except_timeline(
                fin.entry_of(s, q),
                o.entry_of(s, q),
            ) && (fin.entry_of(s, q).is_ready() ==> fin.entry_of(s, q).timeline_id == o.entry_of(
                s,
                q,
            ).timeline_id),
{
    let oe = o.entries();
    let me = mid.entries();
    let fe = fin.entries();
    let n = fe.len() as int;

    // Shape of the demotion pass: pointers and ranking are preserved, and a
    // ready survivor is an unchanged survivor.
    assert forall|i: int| 0 <= i < n implies same_pointer(#[trigger] fe[i], me[i])
        && same_except_timeline(fe[i], me[i]) && (fe[i].is_ready() ==> fe[i] == me[i]) by {}

    // Survivor liveness implies old liveness.
    assert forall|s: AccountAddress, q: u64| #[trigger] live_in(me, s, q) implies live_in(oe, s, q) by {
        let k = choose|k: int| 0 <= k < me.len() && (#[trigger] me[k]).sender() == s && me[k].seq() == q;
        assert(oe[m[k]].sender() == s && oe[m[k]].seq() == q);
    }

    // Chain completeness for a survivor implies chain completeness before.
    assert forall|c: u64, s: AccountAddress, q: u64| #[trigger] chain_complete_in(me, c, s, q) implies chain_complete_in(oe, c, s, q) by {
        assert forall|t: u64| c <= t <= q implies #[trigger] live_in(oe, s, t) by {
            assert(live_in(me, s, t));
        }
    }

    // Chains are the same in the final state as in the intermediate one.
    assert forall|c: u64, s: AccountAddress, q: u64| #[trigger] chain_complete_in(fe, c, s, q) == chain_complete_in(me, c, s, q) by {
        lemma_chain_same_pointers(fe, me, c, s, q);
    }

    // Distinctness of the survivors.
    assert forall|i: int, j: int| 0 <= i < j < n implies !same_pointer(#[trigger] fe[i], #[trigger] fe[j]) by {
        assert(m[i] < m[j]);
        assert(!same_pointer(oe[m[i]], oe[m[j]]));
    }

    lemma_increasing_bounds(m, oe.len() as int);

    // Readiness in the final state is exactly chain completeness.
    assert forall|i: int| 0 <= i < n implies ((#[trigger] fe[i]).is_ready() <==> fin.chain_complete(
        fe[i].sender(),
        fe[i].seq(),
    )) by {
        let s = me[i].sender();
        let q = me[i].seq();
        let c = mid.committed_of(s);
        assert(fin.committed_of(s) == c);
        assert(fe[i].sender() == s && fe[i].seq() == q);
        if chain_complete_in(me, c, s, q) {
            assert(chain_complete_in(oe, c, s, q));
            assert(o.committed_of(s) == c);
            assert(oe[m[i]] == me[i]);
            assert(o.chain_complete(oe[m[i]].sender(), oe[m[i]].seq()));
            assert(oe[m[i]].is_ready());
            assert(fe[i] == me[i]);
            assert(chain_complete_in(fe, c, s, q));
        } else {
            assert(fe[i] == demoted(me[i]));
            assert(!fe[i].is_ready());
            assert(!chain_complete_in(fe, c, s, q));
        }
    }

    // Remaining well-formedness clauses transfer from the old state.
    assert forall|i: int| 0 <= i < n implies (#[trigger] fe[i]).seq() >= fin.committed_of(
        fe[i].sender(),
    ) by {
        assert(oe[m[i]].seq() >= o.committed_of(oe[m[i]].sender()));
    }
    assert forall|i: int| 0 <= i < n && (#[trigger] fe[i]).is_ready() implies 1 <= fe[i].timeline_id->0
        < fin.next_timeline_id() by {
        assert(fe[i] == me[i] && me[i] == oe[m[i]]);
    }
    assert forall|i: int, j: int|
        0 <= i < j < n && (#[trigger] fe[i]).is_ready() && (#[trigger] fe[j]).is_ready() implies fe[
        i
    ].timeline_id->0 != fe[j].timeline_id->0 by {
        assert(fe[i] == me[i] && fe[j] == me[j]);
        assert(m[i] < m[j]);
        assert(oe[m[i]].is_ready() && oe[m[j]].is_ready());
    }
    assert forall|i: int, j: int|
        0 <= i < n && 0 <= j < n && (#[trigger] fe[i]).is_ready() && (#[trigger] fe[j]).is_ready()
            && fe[i].sender() == fe[j].sender() && fe[i].seq() < fe[j].seq() implies fe[
        i
    ].timeline_id->0 < fe[j].timeline_id->0 by {
        assert(fe[i] == me[i] && fe[j] == me[j]);
        assert(me[i] == oe[m[i]] && me[j] == oe[m[j]]);
    }
    assert forall|i: int| 0 <= i < n implies (#[trigger] fe[i]).insertion_order
        < fin.next_insertion_order() by {
        assert(same_except_timeline(fe[i], oe[m[i]]));
    }
    assert forall|i: int, j: int| 0 <= i < j < n implies (#[trigger] fe[i]).insertion_order != (
    #[trigger] fe[j]).insertion_order by {
        assert(m[i] < m[j]);
        assert(same_except_timeline(fe[i], oe[m[i]]) && same_except_timeline(fe[j], oe[m[j]]));
    }

    // Expiry of every survivor.
    assert forall|i: int| 0 <= i < n implies (#[trigger] fe[i]).txn.expiration_time > now by {
        assert(m[i] == m[i] && 0 <= i < m.len());
        assert(retain_keeps(RetainRule::NotExpired(now), oe[m[i]]));
        assert(same_except_timeline(fe[i], oe[m[i]]));
    }

    // Liveness: exactly the unexpired old entries survive.
    assert forall|s: AccountAddress, q: u64|
        fin.has_entry(s, q) <==> (o.has_entry(s, q) && #[trigger] o.entry_of(s, q).txn.expiration_time > now) by {
        if fin.has_entry(s, q) {
            let k = choose|k: int| 0 <= k < fe.len() && (#[trigger] fe[k]).sender() == s && fe[k].seq() == q;
            assert(same_pointer(fe[k], me[k]));
            assert(oe[m[k]].sender() == s && oe[m[k]].seq() == q);
            assert(o.has_entry(s, q));
            lemma_entry_in_is(oe, m[k]);
            assert(o.entry_of(s, q) == oe[m[k]]);
            assert(retain_keeps(RetainRule::NotExpired(now), oe[m[k]]));
        }
        if o.has_entry(s, q) && o.entry_of(s, q).txn.expiration_time > now {
            let i = choose|i: int| 0 <= i < oe.len() && (#[trigger] oe[i]).sender() == s && oe[i].seq() == q;
            lemma_entry_in_is(oe, i);
            assert(retain_keeps(RetainRule::NotExpired(now), oe[i]));
            let k = choose|k: int| 0 <= k < m.len() && #[trigger] m[k] == i;
            assert(me[k] == oe[i]);
            assert(same_pointer(fe[k], me[k]));
            assert(fe[k].sender() == s && fe[k].seq() == q);
        }
    }

    // Framing of each survivor against its old self.
    assert forall|s: AccountAddress, q: u64| #[trigger] fin.has_entry(s, q) implies same_except_timeline(
        fin.entry_of(s, q),
        o.entry_of(s, q),
    ) && (fin.entry_of(s, q).is_ready() ==> fin.entry_of(s, q).timeline_id == o.entry_of(
        s,
        q,
    ).timeline_id) by {
        let k = choose|k: int| 0 <= k < fe.len() && (#[trigger] fe[k]).sender() == s && fe[k].seq() == q;
        lemma_entry_in_is(fe, k);
        assert(fin.entry_of(s, q) == fe[k]);
        assert(same_pointer(fe[k], me[k]));
        assert(oe[m[k]].sender() == s && oe[m[k]].seq() == q);
        lemma_entry_in_is(oe, m[k]);
        assert(o.entry_of(s, q) == oe[m[k]]);
        assert(same_except_timeline(fe[k], me[k]));
        assert(me[k] == oe[m[k]]);
    }
}

/// A strictly increasing map into [0, n) that uses all of its room is the
/// identity.
proof fn lemma_increasing_full(m: Seq<int>, n: int)
    requires
        n >= 0,
        m.len() == n,
        forall|k: int| 0 <= k < m.len() ==> 0 <= #[trigger] m[k] < n,
        forall|k1: int, k2: int| 0 <= k1 < k2 < m.len() ==> m[k1] < m[k2],
    ensures
        forall|k: int| 0 <= k < m.len() ==> #[trigger] m[k] == k,
    decreases n,
{
    if n > 0 {
        let d = m.drop_last();
        assert(forall|k: int| 0 <= k < d.len() ==> #[trigger] d[k] == m[k]);
        assert(m[n - 1] >= n - 1) by {
            lemma_increasing_bounds(m, n);
        }
        assert(m[n - 1] == n - 1);
        assert forall|k: int| 0 <= k < d.len() implies 0 <= #[trigger] d[k] < n - 1 by {
            assert(m[k] < m[n - 1]);
        }
        lemma_increasing_full(d, n - 1);
        assert forall|k: int| 0 <= k < m.len() implies #[trigger] m[k] == k by {
            if k < n - 1 {
                assert(d[k] == k);
            }
        }
    }
}

/// Updating the value of a record whose sender is not `s` leaves the value
/// recorded for `s` unchanged.
proof fn lemma_lookup_update(
    a: Seq<(AccountAddress, u64)>,
    b: Seq<(AccountAddress, u64)>,
    s: AccountAddress,
    i: int,
)
    requires
        b.len() == a.len(),
        0 <= i < b.len(),
        forall|j: int| 0 <= j < b.len() && j != i ==> #[trigger] b[j] == a[j],
        a[i].0 == b[i].0,
        a[i].0 != s,
    ensures
        lookup_committed(a, s) == lookup_committed(b, s),
    decreases a.len(),
{
    if i == 0 {
        let at = a.drop_first();
        let bt = b.drop_first();
        assert(forall|j: int| 0 <= j < at.len() ==> at[j] == a[j + 1]);
        assert(forall|j: int| 0 <= j < bt.len() ==> bt[j] == b[j + 1]);
        assert(at =~= bt);
    } else {
        assert(b[0] == a[0]);
        if a[0].0 == s {
        } else {
            let at = a.drop_first();
            let bt = b.drop_first();
            assert(forall|j: int| 0 <= j < at.len() ==> at[j] == a[j + 1]);
            assert(forall|j: int| 0 <= j < bt.len() ==> bt[j] == b[j + 1]);
            lemma_lookup_update(at, bt, s, i - 1);
        }
    }
}

/// Appending a record for another sender leaves the value recorded for `s`
/// unchanged.
proof fn lemma_lookup_push(a: Seq<(AccountAddress, u64)>, x: (AccountAddress, u64), s: AccountAddress)
    requires
        x.0 != s,
    ensures
        lookup_committed(a.push(x), s) == lookup_committed(a, s),
    decreases a.len(),
{
    let b = a.push(x);
    assert(b.len() == a.len() + 1);
    if a.len() == 0 {
        assert(b[0] == x);
        assert(b[0].0 != s);
        assert(lookup_committed(b, s) == lookup_committed(b.drop_first(), s));
        assert(b.drop_first() =~= Seq::<(AccountAddress, u64)>::empty());
        assert(lookup_committed(b.drop_first(), s) == 0);
    } else {
        assert(b[0] == a[0]);
        if a[0].0 == s {
            assert(lookup_committed(b, s) == b[0].1);
            assert(lookup_committed(a, s) == a[0].1);
        } else {
            assert(lookup_committed(b, s) == lookup_committed(b.drop_first(), s));
            assert(lookup_committed(a, s) == lookup_committed(a.drop_first(), s));
            assert(b.drop_first() =~= a.drop_first().push(x));
            lemma_lookup_push(a.drop_first(), x, s);
        }
    }
}

} // verus!
