//! The bonding coordinator and the persistence worker's logic.
//!
//! The radio stack drives the coordinator through synchronous security
//! callbacks that must never block on flash: they mutate the in-memory
//! peer table and enqueue a full snapshot of it on a small bounded queue.
//! The overflow policy is explicit: the queue drops its oldest snapshot,
//! which is harmless because every message carries the whole directory and
//! a later snapshot supersedes an earlier one. An asynchronous task drains
//! the queue and commits each snapshot to the record store under the
//! directory's well-known key.

use vstd::prelude::*;

use crate::peers::{KnownPeers, MasterId, EncryptionInfo, IdentityKey, Address, SysAttrs, Peer,
    PeerV, MAX_SYS_ATTRS, slot_has_addr, dir_contains, dir_no_dup, spec_add, spec_find_by_addr,
    spec_find_by_master_id, spec_save_attrs};
use crate::codec::{encode_known_peers, decode_known_peers, enc_dir, dec_dir, dir_wf,
    lemma_enc_dir_len, DecodeError, MAX_DIR_ENCODING};
use crate::layout::{blob_lookup, REC_HDR, MAX_LIVE};
use crate::index::{recs_size};
use crate::store::{RecordStore, CommitError};

verus! {

/// Snapshots the queue holds at most.
pub const QUEUE_CAPACITY: usize = 3;

/// What the coordinator reports when the stack asks how the user can take
/// part in pairing.
#[derive(Clone, Copy, PartialEq, Eq, Structural, Debug)]
pub enum IoCapabilities {
    DisplayOnly,
    KeyboardOnly,
}

/// A persistence request: one full snapshot of the peer directory.
pub enum BonderMessage {
    Store(KnownPeers),
}

impl View for BonderMessage {
    type V = Seq<Option<PeerV>>;

    closed spec fn view(&self) -> Seq<Option<PeerV>> {
        match self {
            BonderMessage::Store(kp) => kp@,
        }
    }
}

impl BonderMessage {
    pub open spec fn wf(&self) -> bool {
        match self {
            BonderMessage::Store(kp) => kp.wf(),
        }
    }
}

/// What enqueueing does: a full queue drops its oldest snapshot first.
pub open spec fn spec_enqueue(q: Seq<Seq<Option<PeerV>>>, d: Seq<Option<PeerV>>) -> Seq<
    Seq<Option<PeerV>>,
> {
    if q.len() < QUEUE_CAPACITY {
        q.push(d)
    } else {
        q.drop_first().push(d)
    }
}

/// The bounded snapshot mailbox between the callback context and the
/// persistence task. Never blocks and never panics: on overflow the
/// oldest snapshot leaves, so the latest directory is always queued.
pub struct SnapshotQueue {
    items: Vec<KnownPeers>,
}

impl View for SnapshotQueue {
    type V = Seq<Seq<Option<PeerV>>>;

    closed spec fn view(&self) -> Seq<Seq<Option<PeerV>>> {
        Seq::new(self.items@.len(), |i: int| self.items@[i]@)
    }
}

impl SnapshotQueue {
    pub closed spec fn wf(&self) -> bool {
        &&& self@.len() <= QUEUE_CAPACITY
        &&& forall|i: int|
            0 <= i < self.items@.len() ==> (#[trigger] self.items@[i]).wf()
    }

    pub fn new() -> (r: SnapshotQueue)
        ensures
            r@ == Seq::<Seq<Option<PeerV>>>::empty(),
            r.wf(),
    {
        let r = SnapshotQueue { items: Vec::new() };
        proof {
            assert(r@ =~= Seq::<Seq<Option<PeerV>>>::empty());
        }
        r
    }

    pub fn len(&self) -> (r: usize)
        ensures
            r == self@.len(),
    {
        self.items.len()
    }

    /// Enqueues a snapshot; on a full queue the oldest one leaves.
    pub fn push_snapshot(&mut self, kp: KnownPeers)
        requires
            old(self).wf(),
            kp.wf(),
        ensures
            final(self).wf(),
            final(self)@ == spec_enqueue(old(self)@, kp@),
            final(self)@.len() >= 1,
            final(self)@.last() == kp@,
    {
        if self.items.len() >= QUEUE_CAPACITY {
            let ghost pre = self@;
            let _ = self.items.remove(0);
            proof {
                assert(self@ =~= pre.drop_first());
            }
        }
        let ghost mid = self@;
        self.items.push(kp);
        proof {
            assert(self@ =~= mid.push(kp@));
        }
    }

    /// Takes the oldest snapshot, if one is queued.
    pub fn pop_snapshot(&mut self) -> (r: Option<KnownPeers>)
        requires
            old(self).wf(),
        ensures
            final(self).wf(),
            match r {
                Some(kp) => old(self)@.len() > 0 && kp@ == old(self)@[0] && kp.wf()
                    && final(self)@ == old(self)@.drop_first(),
                None => old(self)@.len() == 0 && final(self)@ == old(self)@,
            },
    {
        if self.items.len() == 0 {
            return None;
        }
        let ghost pre = self@;
        let kp = self.items.remove(0);
        proof {
            assert(self@ =~= pre.drop_first());
        }
        Some(kp)
    }
}

/// The bonding coordinator: the per-connection peer cache, the live peer
/// table, and the snapshot queue towards the persistence task. All of its
/// operations are synchronous and touch no flash.
pub struct Bonder {
    peer: Option<Peer>,
    known_peers: KnownPeers,
    queue: SnapshotQueue,
}

impl Bonder {
    /// The live peer table.
    pub closed spec fn table(&self) -> Seq<Option<PeerV>> {
        self.known_peers@
    }

    /// The queued snapshots, oldest first.
    pub closed spec fn queue_view(&self) -> Seq<Seq<Option<PeerV>>> {
        self.queue@
    }

    /// The cached peer of the current connection.
    pub closed spec fn cache(&self) -> Option<PeerV> {
        match self.peer {
            Some(p) => Some(p@),
            None => None,
        }
    }

    pub closed spec fn wf(&self) -> bool {
        &&& self.known_peers.wf()
        &&& self.queue.wf()
        &&& (self.peer matches Some(p) ==> p.wf())
    }

    /// A coordinator over a directory loaded from the store.
    pub fn new(known_peers: KnownPeers) -> (r: Bonder)
        requires
            known_peers.wf(),
        ensures
            r.wf(),
            r.table() == known_peers@,
            r.queue_view() == Seq::<Seq<Option<PeerV>>>::empty(),
            r.cache() is None,
    {
        Bonder { peer: None, known_peers, queue: SnapshotQueue::new() }
    }

    /// The fixed capability reported to the stack.
    pub fn io_capabilities(&self) -> (r: IoCapabilities)
        ensures
            r == IoCapabilities::DisplayOnly,
    {
        IoCapabilities::DisplayOnly
    }

    /// Bonding policy: every connection may bond.
    pub fn can_bond(&self) -> (r: bool)
        ensures
            r,
    {
        true
    }

    /// A pairing completed: builds the record (with no cached attributes
    /// yet), inserts it into the table, enqueues a snapshot of the whole
    /// directory and caches the peer. Returns false exactly when the table
    /// was full and the address new; the snapshot is enqueued either way.
    pub fn on_bonded(
        &mut self,
        master_id: MasterId,
        key: EncryptionInfo,
        peer_id: IdentityKey,
    ) -> (r: bool)
        requires
            old(self).wf(),
        ensures
            final(self).wf(),
            ({
                let np = PeerV {
                    ediv: master_id.ediv,
                    rand: master_id.rand@,
                    ltk: key.ltk@,
                    flags: key.flags,
                    irk: peer_id.irk@,
                    addr_kind: peer_id.addr.kind,
                    addr: peer_id.addr.bytes@,
                    attrs: Seq::empty(),
                };
                (final(self).table(), r) == spec_add(old(self).table(), np) && final(self).cache()
                    == Some(np)
            }),
            final(self).queue_view() == spec_enqueue(old(self).queue_view(), final(self).table()),
    {
        let peer = Peer { master_id, key, peer_id, sys_attrs: SysAttrs::new() };
        let r = self.known_peers.add(peer.clone());
        self.queue.push_snapshot(self.known_peers.clone());
        self.peer = Some(peer);
        r
    }

    /// The stored long-term key for a reconnecting peer, by master id.
    pub fn get_key(&self, master_id: &MasterId) -> (r: Option<EncryptionInfo>)
        requires
            self.wf(),
        ensures
            match r {
                Some(ei) => (spec_find_by_master_id(
                    self.table(),
                    master_id.ediv,
                    master_id.rand@,
                    0,
                ) matches Some(p) && p.ltk == ei.ltk@ && p.flags == ei.flags),
                None => spec_find_by_master_id(
                    self.table(),
                    master_id.ediv,
                    master_id.rand@,
                    0,
                ) is None,
            },
    {
        match self.known_peers.find_by_master_id(master_id) {
            Some(p) => Some(p.key),
            None => None,
        }
    }

    /// Caches the GATT system attributes the stack read out for the peer
    /// with this address, and enqueues a snapshot. Returns whether a slot
    /// matched.
    pub fn save_sys_attrs(&mut self, addr: &Address, attrs: &[u8]) -> (r: bool)
        requires
            old(self).wf(),
            attrs@.len() <= MAX_SYS_ATTRS,
        ensures
            final(self).wf(),
            final(self).table() == spec_save_attrs(
                old(self).table(),
                addr.kind,
                addr.bytes@,
                attrs@,
            ),
            r == dir_contains(old(self).table(), addr.kind, addr.bytes@),
            final(self).queue_view() == spec_enqueue(old(self).queue_view(), final(self).table()),
            final(self).cache() == old(self).cache(),
    {
        let r = self.known_peers.save_attrs(addr, attrs);
        self.queue.push_snapshot(self.known_peers.clone());
        r
    }

    /// The cached system attributes for the peer with this address, for
    /// the stack to restore on reconnection; `None` when no slot matches.
    pub fn load_sys_attrs(&self, addr: &Address) -> (r: Option<SysAttrs>)
        requires
            self.wf(),
        ensures
            match r {
                Some(sa) => (spec_find_by_addr(self.table(), addr.kind, addr.bytes@, 0) matches
                    Some(p) && sa@ == p.attrs && sa.wf()),
                None => spec_find_by_addr(self.table(), addr.kind, addr.bytes@, 0) is None,
            },
    {
        match self.known_peers.find_by_address(addr) {
            Some(p) => Some(p.sys_attrs),
            None => None,
        }
    }

    /// Removes a bond and enqueues a snapshot of the shrunken directory.
    pub fn forget_peer(&mut self, addr: &Address) -> (r: bool)
        requires
            old(self).wf(),
        ensures
            final(self).wf(),
            final(self).table() == crate::peers::spec_remove(
                old(self).table(),
                addr.kind,
                addr.bytes@,
            ),
            r == dir_contains(old(self).table(), addr.kind, addr.bytes@),
            final(self).queue_view() == spec_enqueue(old(self).queue_view(), final(self).table()),
    {
        let r = self.known_peers.remove(addr);
        self.queue.push_snapshot(self.known_peers.clone());
        r
    }

    /// The oldest queued snapshot, for the persistence task.
    pub fn take_snapshot(&mut self) -> (r: Option<BonderMessage>)
        requires
            old(self).wf(),
        ensures
            final(self).wf(),
            final(self).table() == old(self).table(),
            final(self).cache() == old(self).cache(),
            match r {
                Some(m) => old(self).queue_view().len() > 0 && m@ == old(self).queue_view()[0]
                    && m.wf() && final(self).queue_view() == old(self).queue_view().drop_first(),
                None => old(self).queue_view().len() == 0
                    && final(self).queue_view() == old(self).queue_view(),
            },
    {
        match self.queue.pop_snapshot() {
            Some(kp) => Some(BonderMessage::Store(kp)),
            None => None,
        }
    }

    /// Snapshots waiting to be persisted.
    pub fn pending(&self) -> (r: usize)
        ensures
            r == self.queue_view().len(),
    {
        self.queue.len()
    }

    /// A copy of the live table, for identity lists and tests.
    pub fn peers(&self) -> (r: KnownPeers)
        requires
            self.wf(),
        ensures
            r@ == self.table(),
            r.wf(),
    {
        self.known_peers.clone()
    }
}

/// Law: capture then restore. Saving a blob of system attributes for an
/// address the table holds, then loading them for the same address, gives
/// back exactly the captured blob.
pub proof fn lemma_sys_attrs_round_trip(
    slots: Seq<Option<PeerV>>,
    addr_kind: u8,
    addr: Seq<u8>,
    attrs: Seq<u8>,
)
    requires
        dir_contains(slots, addr_kind, addr),
    ensures
        spec_find_by_addr(spec_save_attrs(slots, addr_kind, addr, attrs), addr_kind, addr, 0)
            matches Some(p) && p.attrs == attrs,
{
    let m = choose|m: int|
        0 <= m < slots.len() && slot_has_addr(#[trigger] slots[m], addr_kind, addr) && forall|
            j: int,
        | 0 <= j < m ==> !slot_has_addr(#[trigger] slots[j], addr_kind, addr);
    assert(exists|m: int|
        0 <= m < slots.len() && slot_has_addr(#[trigger] slots[m], addr_kind, addr) && forall|
            j: int,
        | 0 <= j < m ==> !slot_has_addr(#[trigger] slots[j], addr_kind, addr)) by {
        lemma_first_match(slots, addr_kind, addr);
    }
    let s2 = spec_save_attrs(slots, addr_kind, addr, attrs);
    assert(s2 == slots.update(m, Some(PeerV { attrs, ..slots[m]->Some_0 })));
    assert(slot_has_addr(s2[m], addr_kind, addr));
    assert(forall|j: int| 0 <= j < m ==> !slot_has_addr(#[trigger] s2[j], addr_kind, addr)) by {
        assert(forall|j: int| 0 <= j < m ==> s2[j] == #[trigger] slots[j]);
    }
    lemma_find_at(s2, m, addr_kind, addr);
}

/// Somewhere in a table that contains an address sits the first matching
/// slot.
proof fn lemma_first_match(slots: Seq<Option<PeerV>>, addr_kind: u8, addr: Seq<u8>)
    requires
        dir_contains(slots, addr_kind, addr),
    ensures
        exists|m: int|
            0 <= m < slots.len() && slot_has_addr(#[trigger] slots[m], addr_kind, addr) && forall|
                j: int,
            | 0 <= j < m ==> !slot_has_addr(#[trigger] slots[j], addr_kind, addr),
    decreases slots.len(),
{
    let w = choose|w: int| 0 <= w < slots.len() && slot_has_addr(#[trigger] slots[w], addr_kind, addr);
    lemma_first_match_below(slots, w, addr_kind, addr);
}

proof fn lemma_first_match_below(slots: Seq<Option<PeerV>>, w: int, addr_kind: u8, addr: Seq<u8>)
    requires
        0 <= w < slots.len(),
        slot_has_addr(slots[w], addr_kind, addr),
    ensures
        exists|m: int|
            0 <= m < slots.len() && slot_has_addr(#[trigger] slots[m], addr_kind, addr) && forall|
                j: int,
            | 0 <= j < m ==> !slot_has_addr(#[trigger] slots[j], addr_kind, addr),
    decreases w,
{
    if forall|j: int| 0 <= j < w ==> !slot_has_addr(#[trigger] slots[j], addr_kind, addr) {
        assert(0 <= w < slots.len() && slot_has_addr(#[trigger] slots[w], addr_kind, addr)
            && forall|j: int| 0 <= j < w ==> !slot_has_addr(#[trigger] slots[j], addr_kind, addr));
    } else {
        let e = choose|j: int| 0 <= j < w && slot_has_addr(#[trigger] slots[j], addr_kind, addr);
        lemma_first_match_below(slots, e, addr_kind, addr);
    }
}

/// The lookup answers with the first matching slot.
proof fn lemma_find_at(slots: Seq<Option<PeerV>>, m: int, addr_kind: u8, addr: Seq<u8>)
    requires
        0 <= m < slots.len(),
        slot_has_addr(slots[m], addr_kind, addr),
        forall|j: int| 0 <= j < m ==> !slot_has_addr(#[trigger] slots[j], addr_kind, addr),
    ensures
        spec_find_by_addr(slots, addr_kind, addr, 0) == slots[m],
{
    lemma_find_from(slots, 0, m, addr_kind, addr);
}

proof fn lemma_find_from(slots: Seq<Option<PeerV>>, i: int, m: int, addr_kind: u8, addr: Seq<u8>)
    requires
        0 <= i <= m < slots.len(),
        slot_has_addr(slots[m], addr_kind, addr),
        forall|j: int| 0 <= j < m ==> !slot_has_addr(#[trigger] slots[j], addr_kind, addr),
    ensures
        spec_find_by_addr(slots, addr_kind, addr, i) == slots[m],
    decreases m - i,
{
    if i < m {
        lemma_find_from(slots, i + 1, m, addr_kind, addr);
    }
}


// ---------------------------------------------------------------------
// Persistence
// ---------------------------------------------------------------------

/// The well-known key the peer directory is stored under.
pub open spec fn known_peers_key() -> Seq<u8> {
    seq![0x6Bu8, 0x6Eu8, 0x6Fu8, 0x77u8, 0x6Eu8, 0x70u8, 0x65u8, 0x65u8, 0x72u8, 0x73u8]
}

/// The key bytes, for callers of the store.
pub fn known_peers_key_bytes() -> (r: Vec<u8>)
    ensures
        r@ == known_peers_key(),
{
    let mut v: Vec<u8> = Vec::new();
    v.push(0x6B);
    v.push(0x6E);
    v.push(0x6F);
    v.push(0x77);
    v.push(0x6E);
    v.push(0x70);
    v.push(0x65);
    v.push(0x65);
    v.push(0x72);
    v.push(0x73);
    proof {
        assert(v@ =~= known_peers_key());
    }
    v
}

/// A failure while loading the directory from the store.
#[derive(Clone, Copy, PartialEq, Eq, Structural, Debug)]
pub enum DBReadError {
    Deserialize(DecodeError),
    Init(CommitError),
}

/// Writes the whole directory under its well-known key as one atomic
/// transaction: what the persistence task does for each snapshot.
pub fn persist_snapshot(store: &mut RecordStore, peers: &KnownPeers) -> (r: Result<
    (),
    CommitError,
>)
    requires
        old(store).inv(),
        peers.wf(),
    ensures
        final(store).ready(),
        final(store).flash_unlimited() == old(store).flash_unlimited(),
        r is Ok ==> final(store).inv() && final(store).lookup(known_peers_key()) == Some(
            enc_dir(peers@),
        ) && (forall|q: Seq<u8>|
            q != known_peers_key() ==> #[trigger] final(store).lookup(q) == old(store).lookup(q)),
        r is Err ==> (forall|q: Seq<u8>|
            #[trigger] final(store).lookup(q) == old(store).lookup(q)),
        (r == Err::<(), CommitError>(CommitError::CapacityExceeded) || r == Err::<
            (),
            CommitError,
        >(CommitError::SequenceExhausted)) ==> final(store).inv(),
        (r matches Err(e) && e matches CommitError::Flash(_)) ==> !old(store).flash_unlimited()
            && !final(store).is_mounted(),
        old(store).flash_unlimited() && old(store).fits(
            seq![(known_peers_key(), enc_dir(peers@))],
        ) && old(store).seq_headroom() ==> r is Ok,
        r is Ok ==> final(store).live_bytes() <= old(store).live_bytes() + REC_HDR
            + known_peers_key().len() + enc_dir(peers@).len(),
        r is Ok ==> final(store).next_sequence() <= old(store).next_sequence() + 2,
{
    let key = known_peers_key_bytes();
    let data = encode_known_peers(peers);
    let mut txn = store.begin_write();
    match txn.write(key.as_slice(), data.as_slice()) {
        Ok(()) => {},
        Err(_) => {
            proof {
                assert(false);
            }
            return vstd::pervasive::unreached();
        },
    }
    proof {
        assert(txn@ =~= seq![(known_peers_key(), enc_dir(peers@))]);
    }
    let ghost staged = txn@;
    let r = store.commit(txn);
    match r {
        Ok(()) => {
            proof {
                assert(blob_lookup(staged, known_peers_key()) == Some(enc_dir(peers@))) by {
                    assert(staged.last() == (known_peers_key(), enc_dir(peers@)));
                }
                assert forall|q: Seq<u8>| q != known_peers_key() implies
                    #[trigger] final(store).lookup(q) == old(store).lookup(q) by {
                    assert(staged.last().0 != q);
                    assert(staged.drop_last() =~= Seq::<(Seq<u8>, Seq<u8>)>::empty());
                    assert(blob_lookup(Seq::<(Seq<u8>, Seq<u8>)>::empty(), q) is None);
                    assert(blob_lookup(staged, q) == blob_lookup(staged.drop_last(), q));
                }
                // the merged live set grew by at most the one staged record
                assert(staged.drop_first() =~= Seq::<(Seq<u8>, Seq<u8>)>::empty());
                assert(recs_size(staged.drop_first()) == 0);
                assert(recs_size(staged) == REC_HDR + known_peers_key().len() + enc_dir(
                    peers@,
                ).len());
                old(store).lemma_merged_live_bound(staged);
            }
            Ok(())
        },
        Err(e) => Err(e),
    }
}

/// One step of the persistence task: a received message applied to the
/// store.
pub fn process_message(store: &mut RecordStore, msg: &BonderMessage) -> (r: Result<
    (),
    CommitError,
>)
    requires
        old(store).inv(),
        msg.wf(),
    ensures
        final(store).ready(),
        final(store).flash_unlimited() == old(store).flash_unlimited(),
        r is Ok ==> final(store).inv() && final(store).lookup(known_peers_key()) == Some(
            enc_dir(msg@),
        ) && (forall|q: Seq<u8>|
            q != known_peers_key() ==> #[trigger] final(store).lookup(q) == old(store).lookup(q)),
        r is Err ==> (forall|q: Seq<u8>|
            #[trigger] final(store).lookup(q) == old(store).lookup(q)),
        (r matches Err(e) && e matches CommitError::Flash(_)) ==> !old(store).flash_unlimited(),
        old(store).flash_unlimited() && old(store).fits(
            seq![(known_peers_key(), enc_dir(msg@))],
        ) && old(store).seq_headroom() ==> r is Ok,
        r is Ok ==> final(store).live_bytes() <= old(store).live_bytes() + REC_HDR
            + known_peers_key().len() + enc_dir(msg@).len(),
        r is Ok ==> final(store).next_sequence() <= old(store).next_sequence() + 2,
{
    match msg {
        BonderMessage::Store(kp) => {
            proof {
                assert(msg@ == kp@);
            }
            persist_snapshot(store, kp)
        },
    }
}

/// Drains the coordinator's queue into the store, oldest snapshot first.
/// Messages are applied in the order enqueued, so after a successful
/// drain the store holds the latest snapshot. Owed to succeed when no
/// fault is armed, the live set leaves room for a full directory record
/// per queued snapshot, and sequence numbers have headroom for the run.
/// When a commit fails mid-drain, keys other than the directory key are
/// untouched and the directory key holds its old value or one of the
/// queued snapshots.
pub fn run_pending(bonder: &mut Bonder, store: &mut RecordStore) -> (r: Result<(), CommitError>)
    requires
        old(bonder).wf(),
        old(store).inv(),
    ensures
        final(bonder).wf(),
        final(bonder).table() == old(bonder).table(),
        final(store).ready(),
        final(store).flash_unlimited() == old(store).flash_unlimited(),
        r is Ok ==> final(store).inv() && final(bonder).queue_view().len() == 0
            && (old(bonder).queue_view().len() > 0 ==> final(store).lookup(known_peers_key())
            == Some(enc_dir(old(bonder).queue_view().last()))) && (forall|q: Seq<u8>|
            q != known_peers_key() ==> #[trigger] final(store).lookup(q) == old(store).lookup(q))
            && (old(bonder).queue_view().len() == 0 ==> (forall|q: Seq<u8>|
            #[trigger] final(store).lookup(q) == old(store).lookup(q))),
        r is Err ==> (forall|q: Seq<u8>|
            q != known_peers_key() ==> #[trigger] final(store).lookup(q) == old(store).lookup(q)),
        r is Err ==> (final(store).lookup(known_peers_key()) == old(store).lookup(
            known_peers_key(),
        ) || exists|i: int|
            0 <= i < old(bonder).queue_view().len() && final(store).lookup(known_peers_key())
                == Some(enc_dir(#[trigger] old(bonder).queue_view()[i]))),
        old(store).flash_unlimited() && old(store).live_bytes() + QUEUE_CAPACITY * (REC_HDR
            + known_peers_key().len() + MAX_DIR_ENCODING) <= MAX_LIVE && old(store).next_sequence()
            + 2 * QUEUE_CAPACITY < u64::MAX - 1 ==> r is Ok,
{
    let ghost q0 = old(bonder).queue_view();
    let ghost mut j: int = 0;
    proof {
        assert(q0.skip(0) =~= q0);
        assert(q0.len() <= QUEUE_CAPACITY);
    }
    loop
        invariant
            bonder.wf(),
            store.inv(),
            bonder.table() == old(bonder).table(),
            store.flash_unlimited() == old(store).flash_unlimited(),
            0 <= j <= q0.len(),
            q0 == old(bonder).queue_view(),
            q0.len() <= QUEUE_CAPACITY,
            bonder.queue_view() == q0.skip(j),
            j == 0 ==> (forall|q: Seq<u8>|
                #[trigger] store.lookup(q) == old(store).lookup(q)),
            j > 0 ==> store.lookup(known_peers_key()) == Some(enc_dir(q0[j - 1])),
            forall|q: Seq<u8>|
                q != known_peers_key() ==> #[trigger] store.lookup(q) == old(store).lookup(q),
            store.live_bytes() <= old(store).live_bytes() + j * (REC_HDR
                + known_peers_key().len() + MAX_DIR_ENCODING),
            store.next_sequence() <= old(store).next_sequence() + 2 * j,
        ensures
            bonder.wf(),
            store.inv(),
            bonder.table() == old(bonder).table(),
            store.flash_unlimited() == old(store).flash_unlimited(),
            bonder.queue_view().len() == 0,
            j == q0.len(),
            j == 0 ==> (forall|q: Seq<u8>|
                #[trigger] store.lookup(q) == old(store).lookup(q)),
            j > 0 ==> store.lookup(known_peers_key()) == Some(enc_dir(q0[j - 1])),
            forall|q: Seq<u8>|
                q != known_peers_key() ==> #[trigger] store.lookup(q) == old(store).lookup(q),
        decreases q0.len() - j,
    {
        let msg = match bonder.take_snapshot() {
            Some(m) => m,
            None => {
                proof {
                    assert(q0.skip(j).len() == 0);
                }
                break;
            },
        };
        proof {
            assert(msg@ == q0.skip(j)[0]);
            assert(q0.skip(j)[0] == q0[j]);
            assert(q0.skip(j).drop_first() =~= q0.skip(j + 1));
            // a snapshot's directory record never outgrows the bound
            assert(dir_wf(msg@));
            lemma_enc_dir_len(msg@);
        }
        let ghost pre_store = *store;
        match process_message(store, &msg) {
            Ok(()) => {
                proof {
                    assert(known_peers_key().len() == 10);
                    assert(store.live_bytes() <= pre_store.live_bytes() + REC_HDR
                        + known_peers_key().len() + enc_dir(msg@).len());
                    assert(pre_store.live_bytes() <= old(store).live_bytes() + j * (REC_HDR
                        + known_peers_key().len() + MAX_DIR_ENCODING));
                    assert(store.next_sequence() <= pre_store.next_sequence() + 2);
                    assert(enc_dir(msg@).len() <= MAX_DIR_ENCODING);
                    assert((j + 1) * (REC_HDR + known_peers_key().len() + MAX_DIR_ENCODING) == j
                        * (REC_HDR + known_peers_key().len() + MAX_DIR_ENCODING) + (REC_HDR
                        + known_peers_key().len() + MAX_DIR_ENCODING)) by (nonlinear_arith);
                    assert(store.live_bytes() <= old(store).live_bytes() + (j + 1) * (REC_HDR
                        + known_peers_key().len() + MAX_DIR_ENCODING));
                }
            },
            Err(e) => {
                proof {
                    // the failed step left the store untouched
                    assert(store.lookup(known_peers_key()) == pre_store.lookup(
                        known_peers_key(),
                    ));
                    if j > 0 {
                        assert(pre_store.lookup(known_peers_key()) == Some(enc_dir(q0[j - 1])));
                        assert(store.lookup(known_peers_key()) == Some(enc_dir(q0[j - 1])));
                        assert(exists|i: int|
                            0 <= i < old(bonder).queue_view().len() && store.lookup(
                                known_peers_key(),
                            ) == Some(enc_dir(#[trigger] old(bonder).queue_view()[i]))) by {
                            assert(store.lookup(known_peers_key()) == Some(
                                enc_dir(old(bonder).queue_view()[j - 1]),
                            ));
                        }
                    }
                    if old(store).flash_unlimited() && old(store).live_bytes() + QUEUE_CAPACITY
                        * (REC_HDR + known_peers_key().len() + MAX_DIR_ENCODING) <= MAX_LIVE && old(
                        store,
                    ).next_sequence() + 2 * QUEUE_CAPACITY < u64::MAX - 1 {
                        // under the owed-success premise this step cannot fail
                        let staged = seq![(known_peers_key(), enc_dir(msg@))];
                        assert(known_peers_key().len() == 10);
                        assert(staged.drop_first() =~= Seq::<(Seq<u8>, Seq<u8>)>::empty());
                        assert(recs_size(staged.drop_first()) == 0);
                        assert(recs_size(staged) == REC_HDR + known_peers_key().len() + enc_dir(
                            msg@,
                        ).len());
                        assert(pre_store.live_bytes() <= old(store).live_bytes() + j * (REC_HDR
                            + known_peers_key().len() + MAX_DIR_ENCODING));
                        assert(j + 1 <= QUEUE_CAPACITY);
                        assert(pre_store.live_bytes() + recs_size(staged) <= MAX_LIVE);
                        assert(pre_store.next_sequence() <= old(store).next_sequence() + 2 * j);
                        assert(pre_store.seq_headroom());
                        assert(pre_store.flash_unlimited());
                        pre_store.lemma_fits_when_room(staged);
                        assert(false);
                    }
                }
                return Err(e);
            },
        }
        proof {
            j = j + 1;
        }
    }
    proof {
        if q0.len() > 0 {
            assert(q0[q0.len() - 1] == q0.last());
        }
        store.lemma_inv_ready();
    }
    Ok(())
}

/// Loads the peer directory from the store; when none has ever been
/// written, commits an empty directory and returns it — the first-boot
/// path. A directory that does not decode is surfaced, never silently
/// replaced. Owed to succeed whenever a cleanly decodable directory is
/// stored, and on first boot whenever the empty directory's transaction
/// can be committed.
pub fn load_or_init_known_peers(store: &mut RecordStore) -> (r: Result<KnownPeers, DBReadError>)
    requires
        old(store).inv(),
    ensures
        final(store).ready(),
        final(store).flash_unlimited() == old(store).flash_unlimited(),
        r matches Ok(kp) ==> kp.wf() && final(store).inv() && (match old(store).lookup(
            known_peers_key(),
        ) {
            Some(b) => dec_dir(b) == Some(kp@) && (forall|q: Seq<u8>|
                #[trigger] final(store).lookup(q) == old(store).lookup(q)),
            None => (forall|i: int| 0 <= i < kp@.len() ==> kp@[i] is None) && final(store).lookup(
                known_peers_key(),
            ) == Some(enc_dir(kp@)),
        }),
        (r matches Err(e) && e matches DBReadError::Deserialize(_)) ==> old(store).lookup(
            known_peers_key(),
        ) is Some && (forall|q: Seq<u8>|
            #[trigger] final(store).lookup(q) == old(store).lookup(q)),
        (r matches Err(e) && e matches DBReadError::Init(_)) ==> old(store).lookup(
            known_peers_key(),
        ) is None,
        (old(store).lookup(known_peers_key()) matches Some(b) && dec_dir(b) matches Some(s)
            && dir_no_dup(s)) ==> r is Ok,
        old(store).lookup(known_peers_key()) is None && old(store).flash_unlimited() && old(
            store,
        ).fits(
            seq![
                (known_peers_key(), enc_dir(seq![None::<PeerV>, None::<PeerV>, None::<PeerV>])),
            ],
        ) && old(store).seq_headroom() ==> r is Ok,
{
    proof {
        old(store).lemma_inv_ready();
    }
    let key = known_peers_key_bytes();
    match store.read(key.as_slice()) {
        Ok(bytes) => match decode_known_peers(bytes.as_slice()) {
            Ok(kp) => Ok(kp),
            Err(e) => {
                proof {
                    // the stored bytes are what the lookup answers with,
                    // so a clean stored directory cannot reach this arm
                    match old(store).lookup(known_peers_key()) {
                        Some(b) => {
                            assert(b == bytes@);
                        },
                        None => {},
                    }
                }
                Err(DBReadError::Deserialize(e))
            },
        },
        Err(_) => {
            let empty = KnownPeers::new();
            proof {
                assert(empty@ =~= seq![None::<PeerV>, None::<PeerV>, None::<PeerV>]);
            }
            match persist_snapshot(store, &empty) {
                Ok(()) => Ok(empty),
                Err(e) => Err(DBReadError::Init(e)),
            }
        },
    }
}


// ---------------------------------------------------------------------
// Identity lists for the radio stack
// ---------------------------------------------------------------------

/// The records of the occupied slots, in slot order.
pub open spec fn occupied(slots: Seq<Option<PeerV>>) -> Seq<PeerV>
    decreases slots.len(),
{
    if slots.len() == 0 {
        Seq::empty()
    } else {
        match slots[0] {
            Some(p) => seq![p] + occupied(slots.drop_first()),
            None => occupied(slots.drop_first()),
        }
    }
}

proof fn lemma_occupied_snoc(slots: Seq<Option<PeerV>>, s: Option<PeerV>)
    ensures
        occupied(slots.push(s)) == occupied(slots) + (match s {
            Some(p) => seq![p],
            None => Seq::<PeerV>::empty(),
        }),
    decreases slots.len(),
{
    let ext = (match s {
        Some(p) => seq![p],
        None => Seq::<PeerV>::empty(),
    });
    if slots.len() == 0 {
        assert(slots.push(s)[0] == s);
        assert(slots.push(s).drop_first() =~= Seq::<Option<PeerV>>::empty());
        assert(occupied(Seq::<Option<PeerV>>::empty()) == Seq::<PeerV>::empty());
        assert(slots =~= Seq::<Option<PeerV>>::empty());
        assert(ext + Seq::<PeerV>::empty() =~= ext);
        assert(Seq::<PeerV>::empty() + ext =~= ext);
    } else {
        assert(slots.push(s)[0] == slots[0]);
        assert(slots.push(s).drop_first() =~= slots.drop_first().push(s));
        lemma_occupied_snoc(slots.drop_first(), s);
        match slots[0] {
            Some(p) => {
                assert(seq![p] + (occupied(slots.drop_first()) + ext) =~= (seq![p] + occupied(
                    slots.drop_first(),
                )) + ext);
            },
            None => {},
        }
    }
}

/// The bonded peers' identities (identity resolution key and address), in
/// slot order: what the radio stack's identity list is fed from.
pub fn peer_identities(kp: &KnownPeers) -> (r: Vec<IdentityKey>)
    requires
        kp.wf(),
    ensures
        r@.len() == occupied(kp@).len(),
        forall|i: int|
            0 <= i < r@.len() ==> (#[trigger] r@[i]).irk@ == occupied(kp@)[i].irk
                && r@[i].addr.kind == occupied(kp@)[i].addr_kind && r@[i].addr.bytes@ == occupied(
                kp@,
            )[i].addr,
{
    let mut out: Vec<IdentityKey> = Vec::new();
    let mut i: usize = 0;
    proof {
        assert(kp@.subrange(0, 0) =~= Seq::<Option<PeerV>>::empty());
    }
    while i < 3
        invariant
            i <= 3,
            kp.wf(),
            kp@.len() == 3,
            out@.len() == occupied(kp@.subrange(0, i as int)).len(),
            forall|j: int|
                0 <= j < out@.len() ==> (#[trigger] out@[j]).irk@ == occupied(
                    kp@.subrange(0, i as int),
                )[j].irk && out@[j].addr.kind == occupied(kp@.subrange(0, i as int))[j].addr_kind
                    && out@[j].addr.bytes@ == occupied(kp@.subrange(0, i as int))[j].addr,
        decreases 3 - i,
    {
        let ghost pre = occupied(kp@.subrange(0, i as int));
        match kp.get_slot(i) {
            Some(p) => {
                out.push(p.peer_id);
            },
            None => {},
        }
        proof {
            lemma_occupied_snoc(kp@.subrange(0, i as int), kp@[i as int]);
            assert(kp@.subrange(0, i as int).push(kp@[i as int]) =~= kp@.subrange(
                0,
                i + 1 as int,
            ));
        }
        i = i + 1;
    }
    proof {
        assert(kp@.subrange(0, 3) =~= kp@);
    }
    out
}

/// The bonded peers' addresses, in slot order: what an advertising
/// whitelist is fed from.
pub fn peer_addresses(kp: &KnownPeers) -> (r: Vec<Address>)
    requires
        kp.wf(),
    ensures
        r@.len() == occupied(kp@).len(),
        forall|i: int|
            0 <= i < r@.len() ==> (#[trigger] r@[i]).kind == occupied(kp@)[i].addr_kind
                && r@[i].bytes@ == occupied(kp@)[i].addr,
{
    let ids = peer_identities(kp);
    let mut out: Vec<Address> = Vec::new();
    let mut i: usize = 0;
    while i < ids.len()
        invariant
            i <= ids@.len(),
            ids@.len() == occupied(kp@).len(),
            forall|j: int|
                0 <= j < ids@.len() ==> (#[trigger] ids@[j]).irk@ == occupied(kp@)[j].irk
                    && ids@[j].addr.kind == occupied(kp@)[j].addr_kind && ids@[j].addr.bytes@
                    == occupied(kp@)[j].addr,
            out@.len() == i,
            forall|j: int|
                0 <= j < i ==> (#[trigger] out@[j]).kind == occupied(kp@)[j].addr_kind
                    && out@[j].bytes@ == occupied(kp@)[j].addr,
        decreases ids@.len() - i,
    {
        out.push(ids[i].addr);
        i = i + 1;
    }
    out
}

} // verus!
