use vstd::prelude::*;

use crate::account_address::AccountAddress;
use crate::canonical::{
    decode_u128_le, decode_u32_le, decode_u64_le, encode_u128_le, encode_u64_le,
    lemma_u128_le_roundtrip, lemma_u64_le_roundtrip, u128_from_le, u128_le_bytes, u32_from_le,
    u64_from_le, u64_le_bytes,
};

verus! {

/// Why reading a resource out of an account state failed.
#[derive(Clone, Copy, PartialEq, Eq, Structural, Debug)]
pub enum StateError {
    /// The stored bytes do not decode as the requested resource.
    MalformedResource,
    /// The query path names no known event handle.
    UnknownQueryPath,
}

/// Identity of an event stream: a per-account salt and the address that
/// created the stream.
#[derive(Clone, Copy, PartialEq, Eq, Structural, Debug)]
pub struct EventKey {
    pub salt: u64,
    pub creator: AccountAddress,
}

impl EventKey {
    /// The address that created the stream.
    pub fn get_creator_address(&self) -> (r: AccountAddress)
        ensures
            r == self.creator,
    {
        self.creator
    }
}

/// Counter and key of one event stream.
#[derive(Clone, Copy, PartialEq, Eq, Structural, Debug)]
pub struct EventHandle {
    pub count: u64,
    pub key: EventKey,
}

impl EventHandle {
    pub fn key(&self) -> (r: EventKey)
        ensures
            r == self.key,
    {
        self.key
    }
}

/// The account resource: the attributes of an on-chain account that this
/// library reads — its sequence number and its two event streams.
#[derive(Clone, Copy, PartialEq, Eq, Structural, Debug)]
pub struct AccountResource {
    pub sequence_number: u64,
    pub sent_events: EventHandle,
    pub received_events: EventHandle,
}

impl AccountResource {
    pub fn sequence_number(&self) -> (r: u64)
        ensures
            r == self.sequence_number,
    {
        self.sequence_number
    }

    pub fn sent_events(&self) -> (r: EventHandle)
        ensures
            r == self.sent_events,
    {
        self.sent_events
    }

    pub fn received_events(&self) -> (r: EventHandle)
        ensures
            r == self.received_events,
    {
        self.received_events
    }
}

/// The on-chain configuration resource.
#[derive(Clone, Copy, PartialEq, Eq, Structural, Debug)]
pub struct ConfigurationResource {
    pub epoch: u64,
    pub last_reconfiguration_time: u64,
}

/// The on-chain clock resource, in microseconds.
#[derive(Clone, Copy, PartialEq, Eq, Structural, Debug)]
pub struct LibraTimestampResource {
    pub microseconds: u64,
}

/// A validator's consensus configuration: its consensus public key bytes.
pub struct ValidatorConfigResource {
    pub consensus_pubkey: Vec<u8>,
}

/// The on-chain validator set: the validators' addresses.
pub struct ValidatorSet {
    pub validators: Vec<AccountAddress>,
}

/// The block metadata resource.
#[derive(Clone, Copy, PartialEq, Eq, Structural, Debug)]
pub struct LibraBlockResource {
    pub height: u64,
    pub new_block_events: EventHandle,
}

/// Canonical bytes of an event key: salt then creator address.
pub open spec fn spec_event_key_bytes(k: EventKey) -> Seq<u8> {
    u64_le_bytes(k.salt) + u128_le_bytes(k.creator.value)
}

/// Canonical bytes of an event handle: count then key.
pub open spec fn spec_event_handle_bytes(h: EventHandle) -> Seq<u8> {
    u64_le_bytes(h.count) + spec_event_key_bytes(h.key)
}

/// Canonical bytes of the account resource: sequence number, sent handle,
/// received handle.
pub open spec fn spec_account_resource_bytes(a: AccountResource) -> Seq<u8> {
    u64_le_bytes(a.sequence_number) + spec_event_handle_bytes(a.sent_events)
        + spec_event_handle_bytes(a.received_events)
}

/// The event handle read back from 32 canonical bytes.
pub open spec fn spec_decode_event_handle(b: Seq<u8>) -> EventHandle {
    EventHandle {
        count: u64_from_le(b.subrange(0, 8)),
        key: EventKey {
            salt: u64_from_le(b.subrange(8, 16)),
            creator: AccountAddress { value: u128_from_le(b.subrange(16, 32)) },
        },
    }
}

/// The account resource read back from its canonical bytes; `None` unless
/// the length is exactly 72.
pub open spec fn spec_decode_account_resource(b: Seq<u8>) -> Option<AccountResource> {
    if b.len() == 72 {
        Some(
            AccountResource {
                sequence_number: u64_from_le(b.subrange(0, 8)),
                sent_events: spec_decode_event_handle(b.subrange(8, 40)),
                received_events: spec_decode_event_handle(b.subrange(40, 72)),
            },
        )
    } else {
        None
    }
}

/// The configuration resource read back from 16 canonical bytes.
pub open spec fn spec_decode_configuration(b: Seq<u8>) -> Option<ConfigurationResource> {
    if b.len() == 16 {
        Some(
            ConfigurationResource {
                epoch: u64_from_le(b.subrange(0, 8)),
                last_reconfiguration_time: u64_from_le(b.subrange(8, 16)),
            },
        )
    } else {
        None
    }
}

/// The timestamp resource read back from 8 canonical bytes.
pub open spec fn spec_decode_timestamp(b: Seq<u8>) -> Option<LibraTimestampResource> {
    if b.len() == 8 {
        Some(LibraTimestampResource { microseconds: u64_from_le(b) })
    } else {
        None
    }
}

/// The validator configuration read back from a length-prefixed key.
pub open spec fn spec_decode_validator_config(b: Seq<u8>) -> Option<Seq<u8>> {
    if b.len() >= 4 && b.len() == 4 + u32_from_le(b.subrange(0, 4)) {
        Some(b.subrange(4, b.len() as int))
    } else {
        None
    }
}

/// The validator set read back from a count-prefixed list of addresses.
pub open spec fn spec_decode_validator_set(b: Seq<u8>) -> Option<Seq<AccountAddress>> {
    if b.len() >= 4 && b.len() == 4 + 16 * u32_from_le(b.subrange(0, 4)) {
        Some(
            Seq::new(
                u32_from_le(b.subrange(0, 4)) as nat,
                |i: int|
                    AccountAddress { value: u128_from_le(b.subrange(4 + 16 * i, 20 + 16 * i)) },
            ),
        )
    } else {
        None
    }
}

/// The block resource read back from 40 canonical bytes.
pub open spec fn spec_decode_block_resource(b: Seq<u8>) -> Option<LibraBlockResource> {
    if b.len() == 40 {
        Some(
            LibraBlockResource {
                height: u64_from_le(b.subrange(0, 8)),
                new_block_events: spec_decode_event_handle(b.subrange(8, 40)),
            },
        )
    } else {
        None
    }
}

/// Canonical bytes always read back as the account resource they were made
/// from.
pub proof fn lemma_account_resource_roundtrip(a: AccountResource)
    ensures
        spec_decode_account_resource(spec_account_resource_bytes(a)) == Some(a),
{
    let b = spec_account_resource_bytes(a);
    assert(b.len() == 72);
    assert(b.subrange(0, 8) =~= u64_le_bytes(a.sequence_number));
    assert(b.subrange(8, 40) =~= spec_event_handle_bytes(a.sent_events));
    assert(b.subrange(40, 72) =~= spec_event_handle_bytes(a.received_events));
    lemma_u64_le_roundtrip(a.sequence_number);
    lemma_event_handle_roundtrip(a.sent_events);
    lemma_event_handle_roundtrip(a.received_events);
}

/// Canonical bytes always read back as the event handle they were made from.
pub proof fn lemma_event_handle_roundtrip(h: EventHandle)
    ensures
        spec_decode_event_handle(spec_event_handle_bytes(h)) == h,
{
    let b = spec_event_handle_bytes(h);
    assert(b.subrange(0, 8) =~= u64_le_bytes(h.count));
    assert(b.subrange(8, 16) =~= u64_le_bytes(h.key.salt));
    assert(b.subrange(16, 32) =~= u128_le_bytes(h.key.creator.value));
    lemma_u64_le_roundtrip(h.count);
    lemma_u64_le_roundtrip(h.key.salt);
    lemma_u128_le_roundtrip(h.key.creator.value);
}

/// Encodes an event handle canonically.
pub fn encode_event_handle(out: &mut Vec<u8>, h: &EventHandle)
    ensures
        final(out)@ == old(out)@ + spec_event_handle_bytes(*h),
{
    let ghost prior = out@;
    encode_u64_le(out, h.count);
    encode_u64_le(out, h.key.salt);
    encode_u128_le(out, h.key.creator.value);
    proof {
        assert(out@ =~= prior + spec_event_handle_bytes(*h));
    }
}

/// Canonical bytes of an account resource.
pub fn account_resource_to_bytes(a: &AccountResource) -> (r: Vec<u8>)
    ensures
        r@ == spec_account_resource_bytes(*a),
{
    let mut out: Vec<u8> = Vec::new();
    encode_u64_le(&mut out, a.sequence_number);
    encode_event_handle(&mut out, &a.sent_events);
    encode_event_handle(&mut out, &a.received_events);
    proof {
        assert(out@ =~= spec_account_resource_bytes(*a));
    }
    out
}

fn decode_event_handle_at(bytes: &Vec<u8>, pos: usize) -> (r: EventHandle)
    requires
        pos + 32 <= bytes@.len(),
    ensures
        r == spec_decode_event_handle(bytes@.subrange(pos as int, pos as int + 32)),
{
    let n = bytes.len();
    let count = decode_u64_le(bytes, pos);
    let salt = decode_u64_le(bytes, pos + 8);
    let creator = decode_u128_le(bytes, pos + 16);
    proof {
        let s = bytes@.subrange(pos as int, pos as int + 32);
        assert(s.subrange(0, 8) =~= bytes@.subrange(pos as int, pos as int + 8));
        assert(s.subrange(8, 16) =~= bytes@.subrange(pos as int + 8, pos as int + 16));
        assert(s.subrange(16, 32) =~= bytes@.subrange(pos as int + 16, pos as int + 32));
    }
    EventHandle { count, key: EventKey { salt, creator: AccountAddress { value: creator } } }
}

/// Reads an account resource back from canonical bytes.
pub fn decode_account_resource(bytes: &Vec<u8>) -> (r: Option<AccountResource>)
    ensures
        r == spec_decode_account_resource(bytes@),
{
    if bytes.len() != 72 {
        return None;
    }
    let sequence_number = decode_u64_le(bytes, 0);
    let sent_events = decode_event_handle_at(bytes, 8);
    let received_events = decode_event_handle_at(bytes, 40);
    proof {
        assert(bytes@.subrange(0, 8) =~= bytes@.subrange(0int, 8int));
    }
    Some(AccountResource { sequence_number, sent_events, received_events })
}

/// Byte-lexicographic order on keys.
pub open spec fn lex_less(a: Seq<u8>, b: Seq<u8>) -> bool
    decreases a.len(),
{
    if b.len() == 0 {
        false
    } else if a.len() == 0 {
        true
    } else if a[0] < b[0] {
        true
    } else if a[0] > b[0] {
        false
    } else {
        lex_less(a.drop_first(), b.drop_first())
    }
}

pub proof fn lemma_lex_irrefl(a: Seq<u8>)
    ensures
        !lex_less(a, a),
    decreases a.len(),
{
    if a.len() > 0 {
        lemma_lex_irrefl(a.drop_first());
    }
}

pub proof fn lemma_lex_total(a: Seq<u8>, b: Seq<u8>)
    ensures
        lex_less(a, b) || lex_less(b, a) || a == b,
    decreases a.len(),
{
    if a.len() == 0 {
        if b.len() == 0 {
            assert(a =~= b);
        }
    } else if b.len() == 0 {
    } else if a[0] == b[0] {
        lemma_lex_total(a.drop_first(), b.drop_first());
        if !lex_less(a, b) && !lex_less(b, a) {
            assert(a.drop_first() == b.drop_first());
            assert(a.len() == b.len());
            assert forall|idx: int| 0 <= idx < a.len() implies a[idx] == b[idx] by {
                if idx > 0 {
                    assert(a.drop_first()[idx - 1] == a[idx]);
                    assert(b.drop_first()[idx - 1] == b[idx]);
                }
            }
            assert(a =~= b);
        }
    }
}

pub proof fn lemma_lex_trans(a: Seq<u8>, b: Seq<u8>, c: Seq<u8>)
    requires
        lex_less(a, b),
        lex_less(b, c),
    ensures
        lex_less(a, c),
    decreases a.len() + b.len() + c.len(),
{
    if a.len() > 0 && b.len() > 0 && c.len() > 0 {
        if a[0] == b[0] && b[0] == c[0] {
            lemma_lex_trans(a.drop_first(), b.drop_first(), c.drop_first());
        }
    }
}

/// With equal prefixes of length `k`, the order is decided past them.
proof fn lemma_lex_skip(a: Seq<u8>, b: Seq<u8>, k: int)
    requires
        0 <= k <= a.len(),
        k <= b.len(),
        forall|j: int| 0 <= j < k ==> a[j] == b[j],
    ensures
        lex_less(a, b) == lex_less(a.skip(k), b.skip(k)),
    decreases k,
{
    if k > 0 {
        assert(a[0] == b[0]);
        let a1 = a.drop_first();
        let b1 = b.drop_first();
        assert(forall|j: int| 0 <= j < k - 1 ==> a1[j] == a[j + 1] && b1[j] == b[j + 1]);
        lemma_lex_skip(a1, b1, k - 1);
        assert(a1.skip(k - 1) =~= a.skip(k));
        assert(b1.skip(k - 1) =~= b.skip(k));
        assert(lex_less(a, b) == lex_less(a1, b1));
    } else {
        assert(a.skip(0) =~= a);
        assert(b.skip(0) =~= b);
    }
}

/// Compares two keys in byte-lexicographic order.
fn lex_less_exec(a: &Vec<u8>, b: &Vec<u8>) -> (r: bool)
    ensures
        r == lex_less(a@, b@),
{
    let na = a.len();
    let nb = b.len();
    let n = if na < nb {
        na
    } else {
        nb
    };
    let mut i: usize = 0;
    while i < n
        invariant
            na == a@.len(),
            nb == b@.len(),
            n == if na < nb {
                na
            } else {
                nb
            },
            i <= n,
            forall|j: int| 0 <= j < i ==> a@[j] == b@[j],
        decreases n - i,
    {
        if a[i] != b[i] {
            proof {
                lemma_lex_skip(a@, b@, i as int);
                assert(a@.skip(i as int)[0] == a@[i as int]);
                assert(b@.skip(i as int)[0] == b@[i as int]);
            }
            return a[i] < b[i];
        }
        i += 1;
    }
    proof {
        lemma_lex_skip(a@, b@, n as int);
        if na < nb {
            assert(a@.skip(n as int).len() == 0);
            assert(b@.skip(n as int).len() > 0);
        } else {
            assert(b@.skip(n as int).len() == 0);
        }
    }
    na < nb
}

fn keys_eq(a: &Vec<u8>, b: &Vec<u8>) -> (r: bool)
    ensures
        r == (a@ == b@),
{
    crate::transaction::bytes_eq(a, b)
}

/// An account's state: the map from access paths to the stored resource
/// bytes, kept in ascending byte-lexicographic key order.
pub struct AccountState {
    entries: Vec<(Vec<u8>, Vec<u8>)>,
}

/// Some record in `entries` holds `key`.
pub open spec fn state_has(entries: Seq<(Seq<u8>, Seq<u8>)>, key: Seq<u8>) -> bool {
    exists|i: int| 0 <= i < entries.len() && (#[trigger] entries[i]).0 == key
}

/// The bytes stored under `key`; meaningful when `state_has` holds and keys
/// are distinct.
pub open spec fn state_get(entries: Seq<(Seq<u8>, Seq<u8>)>, key: Seq<u8>) -> Seq<u8> {
    entries[choose|i: int| 0 <= i < entries.len() && (#[trigger] entries[i]).0 == key].1
}

impl AccountState {
    /// The stored records, in ascending key order.
    pub closed spec fn entries(self) -> Seq<(Seq<u8>, Seq<u8>)> {
        self.entries@.map_values(|p: (Vec<u8>, Vec<u8>)| (p.0@, p.1@))
    }

    /// Keys are strictly ascending (and so unique).
    pub open spec fn wf(self) -> bool {
        forall|i: int, j: int|
            0 <= i < j < self.entries().len() ==> lex_less(
                (#[trigger] self.entries()[i]).0,
                (#[trigger] self.entries()[j]).0,
            )
    }

    pub open spec fn has_key(self, key: Seq<u8>) -> bool {
        state_has(self.entries(), key)
    }

    pub open spec fn value_of(self, key: Seq<u8>) -> Seq<u8> {
        state_get(self.entries(), key)
    }

    /// An empty account state.
    pub fn new() -> (r: AccountState)
        ensures
            r.wf(),
            r.entries().len() == 0,
    {
        AccountState { entries: Vec::new() }
    }

    /// In a well-formed state, the record at index `i` is the record its key
    /// resolves to.
    proof fn lemma_at_key(self, i: int)
        requires
            self.wf(),
            0 <= i < self.entries().len(),
        ensures
            self.has_key(self.entries()[i].0),
            self.value_of(self.entries()[i].0) == self.entries()[i].1,
    {
        lemma_sorted_unique(self.entries(), i, self.entries()[i].0);
    }

    /// Index of the record holding `key`, if any.
    fn find_key(&self, key: &Vec<u8>) -> (r: Option<usize>)
        ensures
            match r {
                Some(i) => i < self.entries().len() && self.entries()[i as int].0 == key@,
                None => !self.has_key(key@),
            },
    {
        let n = self.entries.len();
        let mut i: usize = 0;
        while i < n
            invariant
                n == self.entries().len(),
                i <= n,
                forall|j: int| 0 <= j < i ==> (#[trigger] self.entries()[j]).0 != key@,
            decreases n - i,
        {
            if keys_eq(&self.entries[i].0, key) {
                return Some(i);
            }
            i += 1;
        }
        None
    }

    /// The bytes stored under `key`.
    pub fn get(&self, key: &Vec<u8>) -> (r: Option<&Vec<u8>>)
        requires
            self.wf(),
        ensures
            match r {
                Some(v) => self.has_key(key@) && v@ == self.value_of(key@),
                None => !self.has_key(key@),
            },
    {
        match self.find_key(key) {
            Some(i) => {
                proof {
                    self.lemma_at_key(i as int);
                }
                Some(&self.entries[i].1)
            },
            None => None,
        }
    }

    /// Stores `value` under `key`, returning the bytes previously stored
    /// there, if any. Every other key keeps its value.
    pub fn insert(&mut self, key: Vec<u8>, value: Vec<u8>) -> (r: Option<Vec<u8>>)
        requires
            old(self).wf(),
        ensures
            final(self).wf(),
            final(self).has_key(key@),
            final(self).value_of(key@) == value@,
            forall|k: Seq<u8>|
                k != key@ ==> (#[trigger] final(self).has_key(k) == old(self).has_key(k)) && (old(
                    self,
                ).has_key(k) ==> final(self).value_of(k) == old(self).value_of(k)),
            match r {
                Some(v) => old(self).has_key(key@) && v@ == old(self).value_of(key@),
                None => !old(self).has_key(key@),
            },
    {
        let n = self.entries.len();
        let mut i: usize = 0;
        while i < n
            invariant
                *self == *old(self),
                old(self).wf(),
                n == self.entries().len(),
                i <= n,
                forall|j: int| 0 <= j < i ==> lex_less((#[trigger] self.entries()[j]).0, key@),
            decreases n - i,
        {
            if !lex_less_exec(&self.entries[i].0, &key) {
                let same = keys_eq(&self.entries[i].0, &key);
                if same {
                    proof {
                        self.lemma_at_key(i as int);
                    }
                    let mut pair = (key, value);
                    let ghost prevv = self.entries@;
                    self.entries.set_and_swap(i, &mut pair);
                    proof {
                        let ne = self.entries();
                        assert(self.entries@ == prevv.update(i as int, ((pair.0, pair.1))) || true);
                        assert(forall|j: int|
                            0 <= j < self.entries@.len() && j != i ==> self.entries@[j] == prevv[
                                j
                            ]);
                        assert(forall|j: int|
                            0 <= j < ne.len() && j != i ==> ne[j] == old(self).entries()[j]);
                        assert(ne[i as int].0 == key@ && ne[i as int].1 == value@);
                        assert forall|i1: int, j1: int| 0 <= i1 < j1 < ne.len() implies lex_less(
                            (#[trigger] ne[i1]).0,
                            (#[trigger] ne[j1]).0,
                        ) by {
                            if i1 != i {
                                assert(ne[i1] == old(self).entries()[i1]);
                            }
                            if j1 != i {
                                assert(ne[j1] == old(self).entries()[j1]);
                            }
                            assert(old(self).entries()[i as int].0 == key@);
                            assert(lex_less(
                                old(self).entries()[i1].0,
                                old(self).entries()[j1].0,
                            ));
                        }
                        lemma_state_insert_at(old(self).entries(), ne, i as int, key@);
                    }
                    return Some(pair.1);
                } else {
                    proof {
                        lemma_lex_total(self.entries()[i as int].0, key@);
                        assert(lex_less(key@, self.entries()[i as int].0));
                        if state_has(self.entries(), key@) {
                            let j = choose|j: int|
                                0 <= j < self.entries().len() && (
                                #[trigger] self.entries()[j]).0 == key@;
                            if j < i {
                                assert(lex_less(self.entries()[j].0, key@));
                                lemma_lex_irrefl(key@);
                            } else if j == i {
                                lemma_lex_irrefl(key@);
                            } else {
                                assert(lex_less(self.entries()[i as int].0, self.entries()[j].0));
                                lemma_lex_trans(
                                    key@,
                                    self.entries()[i as int].0,
                                    self.entries()[j].0,
                                );
                                lemma_lex_irrefl(key@);
                            }
                            assert(false);
                        }
                    }
                    let ghost pre = self.entries();
                    self.entries.insert(i, (key, value));
                    proof {
                        let ne = self.entries();
                        assert(forall|j: int| 0 <= j < i ==> ne[j] == pre[j]);
                        assert(forall|j: int|
                            i < j < ne.len() ==> ne[j] == pre[j - 1]);
                        assert(ne[i as int].0 == key@ && ne[i as int].1 == value@);
                        assert forall|i1: int, j1: int| 0 <= i1 < j1 < ne.len() implies lex_less(
                            (#[trigger] ne[i1]).0,
                            (#[trigger] ne[j1]).0,
                        ) by {
                            if j1 < i {
                            } else if j1 == i {
                                assert(lex_less(pre[i1].0, key@));
                            } else if i1 == i {
                                assert(lex_less(key@, pre[i as int].0));
                                if j1 - 1 > i {
                                    lemma_lex_trans(key@, pre[i as int].0, pre[j1 - 1].0);
                                }
                            } else if i1 < i {
                                assert(lex_less(pre[i1].0, pre[j1 - 1].0));
                            } else {
                                assert(lex_less(pre[i1 - 1].0, pre[j1 - 1].0));
                            }
                        }
                        lemma_state_insert_new(pre, ne, i as int, key@);
                    }
                    return None;
                }
            }
            i += 1;
        }
        let ghost pre = self.entries();
        proof {
            if state_has(pre, key@) {
                let j = choose|j: int| 0 <= j < pre.len() && (#[trigger] pre[j]).0 == key@;
                assert(lex_less(pre[j].0, key@));
                lemma_lex_irrefl(key@);
                assert(false);
            }
        }
        self.entries.push((key, value));
        proof {
            let ne = self.entries();
            assert(forall|j: int| 0 <= j < pre.len() ==> ne[j] == pre[j]);
            assert(ne[ne.len() - 1].0 == key@ && ne[ne.len() - 1].1 == value@);
            assert forall|i1: int, j1: int| 0 <= i1 < j1 < ne.len() implies lex_less(
                (#[trigger] ne[i1]).0,
                (#[trigger] ne[j1]).0,
            ) by {
                if j1 == ne.len() - 1 {
                    assert(lex_less(pre[i1].0, key@));
                }
            }
            lemma_state_insert_new(pre, ne, pre.len() as int, key@);
        }
        None
    }

    /// Removes `key` and returns the bytes stored under it, if any. Every
    /// other key keeps its value.
    pub fn remove(&mut self, key: &Vec<u8>) -> (r: Option<Vec<u8>>)
        requires
            old(self).wf(),
        ensures
            final(self).wf(),
            !final(self).has_key(key@),
            forall|k: Seq<u8>|
                k != key@ ==> (#[trigger] final(self).has_key(k) == old(self).has_key(k)) && (old(
                    self,
                ).has_key(k) ==> final(self).value_of(k) == old(self).value_of(k)),
            match r {
                Some(v) => old(self).has_key(key@) && v@ == old(self).value_of(key@),
                None => !old(self).has_key(key@),
            },
    {
        let ghost o = *old(self);
        match self.find_key(key) {
            None => None,
            Some(i) => {
                proof {
                    self.lemma_at_key(i as int);
                }
                let pair = self.entries.remove(i);
                proof {
                    let ne = self.entries();
                    assert(forall|j: int| 0 <= j < i ==> ne[j] == o.entries()[j]);
                    assert(forall|j: int| i <= j < ne.len() ==> ne[j] == o.entries()[j + 1]);
                    assert forall|i1: int, j1: int| 0 <= i1 < j1 < ne.len() implies lex_less(
                        (#[trigger] ne[i1]).0,
                        (#[trigger] ne[j1]).0,
                    ) by {}
                    lemma_state_remove(o.entries(), ne, i as int, key@);
                }
                Some(pair.1)
            },
        }
    }

    /// Whether no resource is stored.
    pub fn is_empty(&self) -> (r: bool)
        ensures
            r == (self.entries().len() == 0),
    {
        self.entries.is_empty()
    }

    /// The stored records, cloned, in ascending key order.
    pub fn iter(&self) -> (r: Vec<(Vec<u8>, Vec<u8>)>)
        ensures
            r@.len() == self.entries().len(),
            forall|i: int|
                0 <= i < r@.len() ==> ((#[trigger] r@[i]).0@, r@[i].1@) == self.entries()[i],
    {
        let n = self.entries.len();
        let mut out: Vec<(Vec<u8>, Vec<u8>)> = Vec::new();
        let mut i: usize = 0;
        while i < n
            invariant
                n == self.entries().len(),
                i <= n,
                out@.len() == i,
                forall|j: int|
                    0 <= j < i ==> ((#[trigger] out@[j]).0@, out@[j].1@) == self.entries()[j],
            decreases n - i,
        {
            let k = vstd::slice::slice_to_vec(self.entries[i].0.as_slice());
            let v = vstd::slice::slice_to_vec(self.entries[i].1.as_slice());
            out.push((k, v));
            i += 1;
        }
        out
    }
}

/// Access path of the account resource.
pub open spec fn spec_account_resource_path() -> Seq<u8> {
    seq![1u8]
}

/// Access path of the configuration resource.
pub open spec fn spec_configuration_resource_path() -> Seq<u8> {
    seq![2u8]
}

/// Access path of the timestamp resource.
pub open spec fn spec_timestamp_resource_path() -> Seq<u8> {
    seq![3u8]
}

/// Access path of the validator configuration resource.
pub open spec fn spec_validator_config_resource_path() -> Seq<u8> {
    seq![4u8]
}

/// Access path of the validator set.
pub open spec fn spec_validator_set_path() -> Seq<u8> {
    seq![5u8]
}

/// Access path of the block metadata resource.
pub open spec fn spec_block_resource_path() -> Seq<u8> {
    seq![6u8]
}

/// Query path of the account's sent-events handle.
pub open spec fn spec_sent_event_path() -> Seq<u8> {
    seq![1u8, 16u8]
}

/// Query path of the account's received-events handle.
pub open spec fn spec_received_event_path() -> Seq<u8> {
    seq![1u8, 17u8]
}

/// Query path of the new-block events handle.
pub open spec fn spec_new_block_event_path() -> Seq<u8> {
    seq![6u8, 16u8]
}

fn path_of_one(tag: u8) -> (r: Vec<u8>)
    ensures
        r@ == seq![tag],
{
    let mut v: Vec<u8> = Vec::new();
    v.push(tag);
    proof {
        assert(v@ =~= seq![tag]);
    }
    v
}

fn path_of_two(tag: u8, sub: u8) -> (r: Vec<u8>)
    ensures
        r@ == seq![tag, sub],
{
    let mut v: Vec<u8> = Vec::new();
    v.push(tag);
    v.push(sub);
    proof {
        assert(v@ =~= seq![tag, sub]);
    }
    v
}

/// Access path of the account resource.
pub fn account_resource_path() -> (r: Vec<u8>)
    ensures
        r@ == spec_account_resource_path(),
{
    path_of_one(1)
}

/// Access path of the configuration resource.
pub fn configuration_resource_path() -> (r: Vec<u8>)
    ensures
        r@ == spec_configuration_resource_path(),
{
    path_of_one(2)
}

/// Access path of the timestamp resource.
pub fn timestamp_resource_path() -> (r: Vec<u8>)
    ensures
        r@ == spec_timestamp_resource_path(),
{
    path_of_one(3)
}

/// Access path of the validator configuration resource.
pub fn validator_config_resource_path() -> (r: Vec<u8>)
    ensures
        r@ == spec_validator_config_resource_path(),
{
    path_of_one(4)
}

/// Access path of the validator set.
pub fn validator_set_path() -> (r: Vec<u8>)
    ensures
        r@ == spec_validator_set_path(),
{
    path_of_one(5)
}

/// Access path of the block metadata resource.
pub fn block_resource_path() -> (r: Vec<u8>)
    ensures
        r@ == spec_block_resource_path(),
{
    path_of_one(6)
}

/// Query path of the account's sent-events handle.
pub fn account_sent_event_path() -> (r: Vec<u8>)
    ensures
        r@ == spec_sent_event_path(),
{
    path_of_two(1, 16)
}

/// Query path of the account's received-events handle.
pub fn account_received_event_path() -> (r: Vec<u8>)
    ensures
        r@ == spec_received_event_path(),
{
    path_of_two(1, 17)
}

/// Query path of the new-block events handle.
pub fn new_block_event_path() -> (r: Vec<u8>)
    ensures
        r@ == spec_new_block_event_path(),
{
    path_of_two(6, 16)
}

/// What reading and decoding the resource under `path` yields: the decoded
/// value, `None` when the path is unoccupied, or an error when the stored
/// bytes are malformed.
pub open spec fn spec_read_account_resource(s: AccountState) -> Result<
    Option<AccountResource>,
    StateError,
> {
    if !s.has_key(spec_account_resource_path()) {
        Ok(None)
    } else {
        match spec_decode_account_resource(s.value_of(spec_account_resource_path())) {
            Some(a) => Ok(Some(a)),
            None => Err(StateError::MalformedResource),
        }
    }
}

pub open spec fn spec_read_configuration(s: AccountState) -> Result<
    Option<ConfigurationResource>,
    StateError,
> {
    if !s.has_key(spec_configuration_resource_path()) {
        Ok(None)
    } else {
        match spec_decode_configuration(s.value_of(spec_configuration_resource_path())) {
            Some(c) => Ok(Some(c)),
            None => Err(StateError::MalformedResource),
        }
    }
}

pub open spec fn spec_read_timestamp(s: AccountState) -> Result<
    Option<LibraTimestampResource>,
    StateError,
> {
    if !s.has_key(spec_timestamp_resource_path()) {
        Ok(None)
    } else {
        match spec_decode_timestamp(s.value_of(spec_timestamp_resource_path())) {
            Some(t) => Ok(Some(t)),
            None => Err(StateError::MalformedResource),
        }
    }
}

pub open spec fn spec_read_block_resource(s: AccountState) -> Result<
    Option<LibraBlockResource>,
    StateError,
> {
    if !s.has_key(spec_block_resource_path()) {
        Ok(None)
    } else {
        match spec_decode_block_resource(s.value_of(spec_block_resource_path())) {
            Some(b) => Ok(Some(b)),
            None => Err(StateError::MalformedResource),
        }
    }
}

impl AccountState {
    /// The account resource stored in this state, if any.
    pub fn get_account_resource(&self) -> (r: Result<Option<AccountResource>, StateError>)
        requires
            self.wf(),
        ensures
            r == spec_read_account_resource(*self),
    {
        let path = account_resource_path();
        match self.get(&path) {
            None => Ok(None),
            Some(bytes) => {
                let copy = vstd::slice::slice_to_vec(bytes.as_slice());
                match decode_account_resource(&copy) {
                    Some(a) => Ok(Some(a)),
                    None => Err(StateError::MalformedResource),
                }
            },
        }
    }

    /// The address that created the account's sent-events stream: the
    /// account's own address.
    pub fn get_account_address(&self) -> (r: Result<Option<AccountAddress>, StateError>)
        requires
            self.wf(),
        ensures
            r == match spec_read_account_resource(*self) {
                Ok(None) => Ok::<Option<AccountAddress>, StateError>(None),
                Ok(Some(a)) => Ok(Some(a.sent_events.key.creator)),
                Err(e) => Err(e),
            },
    {
        match self.get_account_resource() {
            Ok(None) => Ok(None),
            Ok(Some(a)) => Ok(Some(a.sent_events().key().get_creator_address())),
            Err(e) => Err(e),
        }
    }

    /// The configuration resource stored in this state, if any.
    pub fn get_configuration_resource(&self) -> (r: Result<
        Option<ConfigurationResource>,
        StateError,
    >)
        requires
            self.wf(),
        ensures
            r == spec_read_configuration(*self),
    {
        let path = path_of_one(2);
        match self.get(&path) {
            None => Ok(None),
            Some(bytes) => {
                if bytes.len() != 16 {
                    return Err(StateError::MalformedResource);
                }
                let copy = vstd::slice::slice_to_vec(bytes.as_slice());
                let epoch = decode_u64_le(&copy, 0);
                let last_reconfiguration_time = decode_u64_le(&copy, 8);
                proof {
                    assert(copy@.subrange(0, 8) =~= copy@.subrange(0int, 8int));
                }
                Ok(Some(ConfigurationResource { epoch, last_reconfiguration_time }))
            },
        }
    }

    /// The on-chain clock resource stored in this state, if any.
    pub fn get_libra_timestamp_resource(&self) -> (r: Result<
        Option<LibraTimestampResource>,
        StateError,
    >)
        requires
            self.wf(),
        ensures
            r == spec_read_timestamp(*self),
    {
        let path = path_of_one(3);
        match self.get(&path) {
            None => Ok(None),
            Some(bytes) => {
                if bytes.len() != 8 {
                    return Err(StateError::MalformedResource);
                }
                let copy = vstd::slice::slice_to_vec(bytes.as_slice());
                let microseconds = decode_u64_le(&copy, 0);
                proof {
                    assert(copy@.subrange(0, 8) =~= copy@);
                }
                Ok(Some(LibraTimestampResource { microseconds }))
            },
        }
    }

    /// The validator configuration stored in this state, if any.
    pub fn get_validator_config_resource(&self) -> (r: Result<
        Option<ValidatorConfigResource>,
        StateError,
    >)
        requires
            self.wf(),
        ensures
            match r {
                Ok(None) => !self.has_key(spec_validator_config_resource_path()),
                Ok(Some(v)) => self.has_key(spec_validator_config_resource_path())
                    && spec_decode_validator_config(
                    self.value_of(spec_validator_config_resource_path()),
                ) == Some(v.consensus_pubkey@),
                Err(e) => self.has_key(spec_validator_config_resource_path())
                    && spec_decode_validator_config(
                    self.value_of(spec_validator_config_resource_path()),
                ) is None && e == StateError::MalformedResource,
            },
    {
        let path = path_of_one(4);
        match self.get(&path) {
            None => Ok(None),
            Some(bytes) => {
                let copy = vstd::slice::slice_to_vec(bytes.as_slice());
                if copy.len() < 4 {
                    return Err(StateError::MalformedResource);
                }
                let count = decode_u32_le(&copy, 0);
                if (copy.len() as u64) != 4u64 + (count as u64) {
                    return Err(StateError::MalformedResource);
                }
                let mut key: Vec<u8> = Vec::new();
                let n = copy.len();
                let mut i: usize = 4;
                while i < n
                    invariant
                        4 <= i <= n,
                        n == copy@.len(),
                        key@ == copy@.subrange(4, i as int),
                    decreases n - i,
                {
                    key.push(copy[i]);
                    proof {
                        assert(key@ =~= copy@.subrange(4, i + 1));
                    }
                    i += 1;
                }
                proof {
                    assert(copy@.subrange(0, 4) =~= copy@.subrange(0int, 4int));
                    assert(spec_decode_validator_config(copy@) == Some(
                        copy@.subrange(4, copy@.len() as int),
                    ));
                }
                Ok(Some(ValidatorConfigResource { consensus_pubkey: key }))
            },
        }
    }

    /// The validator set stored in this state, if any.
    pub fn get_validator_set(&self) -> (r: Result<Option<ValidatorSet>, StateError>)
        requires
            self.wf(),
        ensures
            match r {
                Ok(None) => !self.has_key(spec_validator_set_path()),
                Ok(Some(v)) => self.has_key(spec_validator_set_path())
                    && spec_decode_validator_set(self.value_of(spec_validator_set_path())) == Some(
                    v.validators@,
                ),
                Err(e) => self.has_key(spec_validator_set_path()) && spec_decode_validator_set(
                    self.value_of(spec_validator_set_path()),
                ) is None && e == StateError::MalformedResource,
            },
    {
        let path = path_of_one(5);
        match self.get(&path) {
            None => Ok(None),
            Some(bytes) => {
                let copy = vstd::slice::slice_to_vec(bytes.as_slice());
                if copy.len() < 4 {
                    return Err(StateError::MalformedResource);
                }
                let count = decode_u32_le(&copy, 0);
                if (copy.len() as u64) != 4u64 + 16u64 * (count as u64) {
                    return Err(StateError::MalformedResource);
                }
                let mut validators: Vec<AccountAddress> = Vec::new();
                let mut i: u32 = 0;
                proof {
                    assert(copy@.subrange(0, 4) =~= copy@.subrange(0int, 4int));
                }
                while i < count
                    invariant
                        0 <= i <= count,
                        copy@.len() == 4 + 16 * (count as int),
                        validators@.len() == i as int,
                        forall|k: int|
                            0 <= k < i as int ==> #[trigger] validators@[k] == (AccountAddress {
                                value: u128_from_le(copy@.subrange(4 + 16 * k, 20 + 16 * k)),
                            }),
                    decreases count - i,
                {
                    proof {
                        assert(16 * (i as int) + 16 <= 16 * (count as int)) by (nonlinear_arith)
                            requires
                                0 <= i < count,
                        ;
                        assert(16 * (i as int) >= 0) by (nonlinear_arith)
                            requires
                                i >= 0,
                        ;
                    }
                    let pos: usize = 4 + 16 * (i as usize);
                    let value = decode_u128_le(&copy, pos);
                    validators.push(AccountAddress { value });
                    i += 1;
                }
                proof {
                    let d = spec_decode_validator_set(copy@);
                    assert(d == Some(
                        Seq::new(
                            count as nat,
                            |k: int|
                                AccountAddress {
                                    value: u128_from_le(copy@.subrange(4 + 16 * k, 20 + 16 * k)),
                                },
                        ),
                    ));
                    assert(validators@ =~= d->Some_0);
                }
                Ok(Some(ValidatorSet { validators }))
            },
        }
    }

    /// The block metadata resource stored in this state, if any.
    pub fn get_libra_block_resource(&self) -> (r: Result<Option<LibraBlockResource>, StateError>)
        requires
            self.wf(),
        ensures
            r == spec_read_block_resource(*self),
    {
        let path = path_of_one(6);
        match self.get(&path) {
            None => Ok(None),
            Some(bytes) => {
                if bytes.len() != 40 {
                    return Err(StateError::MalformedResource);
                }
                let copy = vstd::slice::slice_to_vec(bytes.as_slice());
                let height = decode_u64_le(&copy, 0);
                let new_block_events = decode_event_handle_at(&copy, 8);
                proof {
                    assert(copy@.subrange(0, 8) =~= copy@.subrange(0int, 8int));
                }
                Ok(Some(LibraBlockResource { height, new_block_events }))
            },
        }
    }

    /// The event handle a query path names: the account's sent or received
    /// stream, or the new-block stream. Any other path is unknown.
    pub fn get_event_handle_by_query_path(&self, query_path: &Vec<u8>) -> (r: Result<
        Option<EventHandle>,
        StateError,
    >)
        requires
            self.wf(),
        ensures
            query_path@ == spec_received_event_path() ==> r == match spec_read_account_resource(
                *self,
            ) {
                Ok(None) => Ok::<Option<EventHandle>, StateError>(None),
                Ok(Some(a)) => Ok(Some(a.received_events)),
                Err(e) => Err(e),
            },
            query_path@ == spec_sent_event_path() ==> r == match spec_read_account_resource(
                *self,
            ) {
                Ok(None) => Ok::<Option<EventHandle>, StateError>(None),
                Ok(Some(a)) => Ok(Some(a.sent_events)),
                Err(e) => Err(e),
            },
            query_path@ == spec_new_block_event_path() ==> r == match spec_read_block_resource(
                *self,
            ) {
                Ok(None) => Ok::<Option<EventHandle>, StateError>(None),
                Ok(Some(b)) => Ok(Some(b.new_block_events)),
                Err(e) => Err(e),
            },
            query_path@ != spec_received_event_path() && query_path@ != spec_sent_event_path()
                && query_path@ != spec_new_block_event_path() ==> r == Err::<
                Option<EventHandle>,
                StateError,
            >(StateError::UnknownQueryPath),
    {
        let received = account_received_event_path();
        let sent = account_sent_event_path();
        let new_block = new_block_event_path();
        if keys_eq(query_path, &received) {
            match self.get_account_resource() {
                Ok(None) => Ok(None),
                Ok(Some(a)) => Ok(Some(a.received_events())),
                Err(e) => Err(e),
            }
        } else if keys_eq(query_path, &sent) {
            match self.get_account_resource() {
                Ok(None) => Ok(None),
                Ok(Some(a)) => Ok(Some(a.sent_events())),
                Err(e) => Err(e),
            }
        } else if keys_eq(query_path, &new_block) {
            match self.get_libra_block_resource() {
                Ok(None) => Ok(None),
                Ok(Some(b)) => Ok(Some(b.new_block_events)),
                Err(e) => Err(e),
            }
        } else {
            Err(StateError::UnknownQueryPath)
        }
    }
}

/// Replacing the value at a slot changes that key's value and nothing else.
proof fn lemma_state_insert_at(
    o: Seq<(Seq<u8>, Seq<u8>)>,
    ne: Seq<(Seq<u8>, Seq<u8>)>,
    i: int,
    key: Seq<u8>,
)
    requires
        0 <= i < o.len(),
        ne.len() == o.len(),
        forall|j: int| 0 <= j < ne.len() && j != i ==> #[trigger] ne[j] == o[j],
        ne[i].0 == key,
        o[i].0 == key,
        forall|i1: int, j1: int|
            0 <= i1 < j1 < o.len() ==> lex_less((#[trigger] o[i1]).0, (#[trigger] o[j1]).0),
    ensures
        state_has(ne, key),
        state_get(ne, key) == ne[i].1,
        forall|k: Seq<u8>|
            k != key ==> (#[trigger] state_has(ne, k) == state_has(o, k)) && (state_has(o, k)
                ==> state_get(ne, k) == state_get(o, k)),
{
    assert(ne[i].0 == key);
    lemma_sorted_unique(ne, i, key);
    assert forall|k: Seq<u8>| k != key implies (#[trigger] state_has(ne, k) == state_has(o, k)) && (
    state_has(o, k) ==> state_get(ne, k) == state_get(o, k)) by {
        if state_has(ne, k) {
            let j = choose|j: int| 0 <= j < ne.len() && (#[trigger] ne[j]).0 == k;
            assert(j != i);
            assert(o[j].0 == k);
        }
        if state_has(o, k) {
            let j = choose|j: int| 0 <= j < o.len() && (#[trigger] o[j]).0 == k;
            assert(j != i);
            assert(ne[j].0 == k);
            lemma_sorted_unique_pair(o, ne, j, k);
        }
    }
}

/// Inserting a fresh key adds exactly that key.
proof fn lemma_state_insert_new(
    pre: Seq<(Seq<u8>, Seq<u8>)>,
    ne: Seq<(Seq<u8>, Seq<u8>)>,
    i: int,
    key: Seq<u8>,
)
    requires
        0 <= i <= pre.len(),
        ne.len() == pre.len() + 1,
        forall|j: int| 0 <= j < i ==> #[trigger] ne[j] == pre[j],
        forall|j: int| i < j < ne.len() ==> #[trigger] ne[j] == pre[j - 1],
        ne[i].0 == key,
        !state_has(pre, key),
        forall|i1: int, j1: int|
            0 <= i1 < j1 < ne.len() ==> lex_less((#[trigger] ne[i1]).0, (#[trigger] ne[j1]).0),
    ensures
        state_has(ne, key),
        state_get(ne, key) == ne[i].1,
        forall|k: Seq<u8>|
            k != key ==> (#[trigger] state_has(ne, k) == state_has(pre, k)) && (state_has(pre, k)
                ==> state_get(ne, k) == state_get(pre, k)),
{
    lemma_sorted_unique(ne, i, key);
    assert forall|k: Seq<u8>| k != key implies (#[trigger] state_has(ne, k) == state_has(pre, k))
        && (state_has(pre, k) ==> state_get(ne, k) == state_get(pre, k)) by {
        if state_has(ne, k) {
            let j = choose|j: int| 0 <= j < ne.len() && (#[trigger] ne[j]).0 == k;
            assert(j != i);
            if j < i {
                assert(pre[j].0 == k);
            } else {
                assert(pre[j - 1].0 == k);
            }
        }
        if state_has(pre, k) {
            let j = choose|j: int| 0 <= j < pre.len() && (#[trigger] pre[j]).0 == k;
            let j2 = if j < i {
                j
            } else {
                j + 1
            };
            assert(ne[j2].0 == k && ne[j2].1 == pre[j].1);
            lemma_sorted_unique_pair_at(ne, j2, k);
        }
    }
}

/// Removing a key removes exactly that key.
proof fn lemma_state_remove(
    o: Seq<(Seq<u8>, Seq<u8>)>,
    ne: Seq<(Seq<u8>, Seq<u8>)>,
    i: int,
    key: Seq<u8>,
)
    requires
        0 <= i < o.len(),
        ne.len() == o.len() - 1,
        forall|j: int| 0 <= j < i ==> #[trigger] ne[j] == o[j],
        forall|j: int| i <= j < ne.len() ==> #[trigger] ne[j] == o[j + 1],
        o[i].0 == key,
        forall|i1: int, j1: int|
            0 <= i1 < j1 < o.len() ==> lex_less((#[trigger] o[i1]).0, (#[trigger] o[j1]).0),
    ensures
        !state_has(ne, key),
        forall|k: Seq<u8>|
            k != key ==> (#[trigger] state_has(ne, k) == state_has(o, k)) && (state_has(o, k)
                ==> state_get(ne, k) == state_get(o, k)),
{
    assert forall|j: int| 0 <= j < ne.len() implies (#[trigger] ne[j]).0 != key by {
        if j < i {
            assert(lex_less(o[j].0, o[i].0));
            lemma_lex_irrefl(key);
        } else {
            assert(lex_less(o[i].0, o[j + 1].0));
            lemma_lex_irrefl(key);
        }
    }
    assert forall|k: Seq<u8>| k != key implies (#[trigger] state_has(ne, k) == state_has(o, k)) && (
    state_has(o, k) ==> state_get(ne, k) == state_get(o, k)) by {
        if state_has(ne, k) {
            let j = choose|j: int| 0 <= j < ne.len() && (#[trigger] ne[j]).0 == k;
            if j < i {
                assert(o[j].0 == k);
            } else {
                assert(o[j + 1].0 == k);
            }
        }
        if state_has(o, k) {
            let j = choose|j: int| 0 <= j < o.len() && (#[trigger] o[j]).0 == k;
            assert(j != i);
            let j2 = if j < i {
                j
            } else {
                j - 1
            };
            assert(ne[j2].0 == k && ne[j2].1 == o[j].1);
            assert forall|i1: int, j1: int|
                0 <= i1 < j1 < ne.len() implies lex_less(
                (#[trigger] ne[i1]).0,
                (#[trigger] ne[j1]).0,
            ) by {
                if j1 < i {
                } else if i1 < i {
                    assert(ne[i1] == o[i1] && ne[j1] == o[j1 + 1]);
                } else {
                    assert(ne[i1] == o[i1 + 1] && ne[j1] == o[j1 + 1]);
                }
            }
            lemma_sorted_unique_pair_at(ne, j2, k);
        }
    }
}

/// In a sorted sequence, the slot for the key at index `i` resolves to index
/// `i`.
proof fn lemma_sorted_unique(s: Seq<(Seq<u8>, Seq<u8>)>, at: int, key: Seq<u8>)
    requires
        0 <= at < s.len(),
        s[at].0 == key,
        forall|i1: int, j1: int|
            0 <= i1 < j1 < s.len() ==> lex_less((#[trigger] s[i1]).0, (#[trigger] s[j1]).0),
    ensures
        state_has(s, key),
        state_get(s, key) == s[at].1,
{
    assert(s[at].0 == key);
    assert(state_has(s, key));
    assert forall|i1: int| 0 <= i1 < s.len() && (#[trigger] s[i1]).0 == key implies i1 == at by {
        if at < i1 {
            assert(lex_less(s[at].0, s[i1].0));
            lemma_lex_irrefl(key);
        } else if i1 < at {
            assert(lex_less(s[i1].0, s[at].0));
            lemma_lex_irrefl(key);
        }
    }
}

proof fn lemma_sorted_unique_pair_at(s: Seq<(Seq<u8>, Seq<u8>)>, i: int, key: Seq<u8>)
    requires
        0 <= i < s.len(),
        s[i].0 == key,
        forall|i1: int, j1: int|
            0 <= i1 < j1 < s.len() ==> lex_less((#[trigger] s[i1]).0, (#[trigger] s[j1]).0),
    ensures
        state_get(s, key) == s[i].1,
{
    lemma_sorted_unique(s, i, key);
}

proof fn lemma_sorted_unique_pair(
    o: Seq<(Seq<u8>, Seq<u8>)>,
    ne: Seq<(Seq<u8>, Seq<u8>)>,
    j: int,
    key: Seq<u8>,
)
    requires
        0 <= j < o.len(),
        o[j].0 == key,
        j < ne.len(),
        ne[j] == o[j],
        forall|i1: int, j1: int|
            0 <= i1 < j1 < o.len() ==> lex_less((#[trigger] o[i1]).0, (#[trigger] o[j1]).0),
        forall|i1: int, j1: int|
            0 <= i1 < j1 < ne.len() ==> lex_less((#[trigger] ne[i1]).0, (#[trigger] ne[j1]).0),
    ensures
        state_get(ne, key) == state_get(o, key),
{
    lemma_sorted_unique(o, j, key);
    lemma_sorted_unique(ne, j, key);
}

} // verus!
