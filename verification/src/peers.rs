//! Bonded-peer records and the fixed-capacity peer directory.
//!
//! A `Peer` holds the security material negotiated during bonding: the
//! master id used to look the key up on reconnection, the long-term
//! encryption key, the peer's identity (address plus identity resolution
//! key) and the cached GATT system attributes. `KnownPeers` is the
//! address-keyed directory of at most `PEER_CAPACITY` such records.

use vstd::prelude::*;

verus! {

/// Number of peer slots in the directory.
pub const PEER_CAPACITY: usize = 3;

/// Upper bound on a cached system-attribute blob, in bytes.
pub const MAX_SYS_ATTRS: usize = 64;

/// A BLE device address: the address-type discriminant and six raw bytes.
#[derive(Clone, Copy, PartialEq, Eq)]
pub struct Address {
    pub kind: u8,
    pub bytes: [u8; 6],
}

/// The master id a bonded peer presents on reconnection: encrypted
/// diversifier plus random value.
#[derive(Clone, Copy, PartialEq, Eq)]
pub struct MasterId {
    pub ediv: u16,
    pub rand: [u8; 8],
}

/// Long-term key material negotiated during bonding.
#[derive(Clone, Copy, PartialEq, Eq)]
pub struct EncryptionInfo {
    pub ltk: [u8; 16],
    pub flags: u8,
}

/// A peer's stable identity: identity resolution key and public address.
#[derive(Clone, Copy, PartialEq, Eq)]
pub struct IdentityKey {
    pub irk: [u8; 16],
    pub addr: Address,
}

/// A bounded blob of cached GATT system attributes (may be empty).
pub struct SysAttrs {
    data: Vec<u8>,
}

impl View for SysAttrs {
    type V = Seq<u8>;

    closed spec fn view(&self) -> Seq<u8> {
        self.data@
    }
}

impl SysAttrs {
    pub open spec fn wf(&self) -> bool {
        self@.len() <= MAX_SYS_ATTRS
    }

    pub fn new() -> (r: SysAttrs)
        ensures
            r@ == Seq::<u8>::empty(),
            r.wf(),
    {
        let r = SysAttrs { data: Vec::new() };
        proof {
            assert(r@ =~= Seq::<u8>::empty());
        }
        r
    }

    /// Builds a blob from raw bytes handed over by the GATT collaborator.
    pub fn from_bytes(b: &[u8]) -> (r: SysAttrs)
        requires
            b@.len() <= MAX_SYS_ATTRS,
        ensures
            r@ == b@,
            r.wf(),
    {
        let mut data: Vec<u8> = Vec::new();
        let mut i: usize = 0;
        while i < b.len()
            invariant
                i <= b@.len(),
                data@ == b@.subrange(0, i as int),
            decreases b@.len() - i,
        {
            data.push(b[i]);
            proof {
                assert(data@ =~= b@.subrange(0, i + 1 as int));
            }
            i = i + 1;
        }
        proof {
            assert(b@.subrange(0, b@.len() as int) =~= b@);
        }
        SysAttrs { data }
    }

    pub fn len(&self) -> (r: usize)
        ensures
            r == self@.len(),
    {
        self.data.len()
    }

    pub fn is_empty(&self) -> (r: bool)
        ensures
            r == (self@.len() == 0),
    {
        self.data.len() == 0
    }

    pub fn as_slice(&self) -> (r: &[u8])
        ensures
            r@ == self@,
    {
        self.data.as_slice()
    }
}

impl Clone for SysAttrs {
    fn clone(&self) -> (r: SysAttrs)
        ensures
            r@ == self@,
    {
        let mut data: Vec<u8> = Vec::new();
        let mut i: usize = 0;
        while i < self.data.len()
            invariant
                i <= self.data@.len(),
                data@ == self.data@.subrange(0, i as int),
            decreases self.data@.len() - i,
        {
            data.push(self.data[i]);
            proof {
                assert(data@ =~= self.data@.subrange(0, i + 1 as int));
            }
            i = i + 1;
        }
        proof {
            assert(self.data@.subrange(0, self.data@.len() as int) =~= self.data@);
        }
        SysAttrs { data }
    }
}

/// Ghost image of a peer record: every field as plain mathematical data.
pub ghost struct PeerV {
    pub ediv: u16,
    pub rand: Seq<u8>,
    pub ltk: Seq<u8>,
    pub flags: u8,
    pub irk: Seq<u8>,
    pub addr_kind: u8,
    pub addr: Seq<u8>,
    pub attrs: Seq<u8>,
}

impl PeerV {
    /// Field sizes of a well-formed record image.
    pub open spec fn wf(&self) -> bool {
        &&& self.rand.len() == 8
        &&& self.ltk.len() == 16
        &&& self.irk.len() == 16
        &&& self.addr.len() == 6
        &&& self.attrs.len() <= MAX_SYS_ATTRS
    }
}

/// A bonded peer: master id, key material, identity and cached attributes.
pub struct Peer {
    pub master_id: MasterId,
    pub key: EncryptionInfo,
    pub peer_id: IdentityKey,
    pub sys_attrs: SysAttrs,
}

impl View for Peer {
    type V = PeerV;

    open spec fn view(&self) -> PeerV {
        PeerV {
            ediv: self.master_id.ediv,
            rand: self.master_id.rand@,
            ltk: self.key.ltk@,
            flags: self.key.flags,
            irk: self.peer_id.irk@,
            addr_kind: self.peer_id.addr.kind,
            addr: self.peer_id.addr.bytes@,
            attrs: self.sys_attrs@,
        }
    }
}

impl Peer {
    pub open spec fn wf(&self) -> bool {
        self.sys_attrs.wf()
    }

    /// The record-store key this peer's own records travel under: its six
    /// address bytes.
    pub fn record_key(&self) -> (r: &[u8])
        ensures
            r@ == self.peer_id.addr.bytes@,
    {
        self.peer_id.addr.bytes.as_slice()
    }
}

impl Clone for Peer {
    fn clone(&self) -> (r: Peer)
        ensures
            r@ == self@,
            r.wf() == self.wf(),
    {
        Peer {
            master_id: self.master_id,
            key: self.key,
            peer_id: self.peer_id,
            sys_attrs: self.sys_attrs.clone(),
        }
    }
}

/// Compares two addresses byte for byte.
pub fn addr_eq(a: &Address, b: &Address) -> (r: bool)
    ensures
        r == (a.kind == b.kind && a.bytes@ == b.bytes@),
{
    let r = a.kind == b.kind && a.bytes[0] == b.bytes[0] && a.bytes[1] == b.bytes[1]
        && a.bytes[2] == b.bytes[2] && a.bytes[3] == b.bytes[3] && a.bytes[4] == b.bytes[4]
        && a.bytes[5] == b.bytes[5];
    proof {
        if r {
            assert(a.bytes@ =~= b.bytes@);
        }
    }
    r
}

/// Compares two master ids field for field.
pub fn master_id_eq(a: &MasterId, b: &MasterId) -> (r: bool)
    ensures
        r == (a.ediv == b.ediv && a.rand@ == b.rand@),
{
    let r = a.ediv == b.ediv && a.rand[0] == b.rand[0] && a.rand[1] == b.rand[1]
        && a.rand[2] == b.rand[2] && a.rand[3] == b.rand[3] && a.rand[4] == b.rand[4]
        && a.rand[5] == b.rand[5] && a.rand[6] == b.rand[6] && a.rand[7] == b.rand[7];
    proof {
        if r {
            assert(a.rand@ =~= b.rand@);
        }
    }
    r
}

/// True when the slot holds a record whose address is `addr`.
pub open spec fn slot_has_addr(s: Option<PeerV>, addr_kind: u8, addr: Seq<u8>) -> bool {
    match s {
        Some(p) => p.addr_kind == addr_kind && p.addr == addr,
        None => false,
    }
}

/// True when some slot of `slots` holds a record with address `addr`.
pub open spec fn dir_contains(slots: Seq<Option<PeerV>>, addr_kind: u8, addr: Seq<u8>) -> bool {
    exists|i: int| 0 <= i < slots.len() && slot_has_addr(#[trigger] slots[i], addr_kind, addr)
}

/// No two occupied slots hold the same address.
pub open spec fn dir_no_dup(slots: Seq<Option<PeerV>>) -> bool {
    forall|i: int, j: int|
        0 <= i < j < slots.len() && slots[i] is Some && slots[j] is Some
            ==> !((#[trigger] slots[i])->Some_0.addr_kind == (#[trigger] slots[j])->Some_0.addr_kind
            && slots[i]->Some_0.addr == slots[j]->Some_0.addr)
}

/// The lowest index of a free slot, scanning from `i`; `slots.len()` when none is free.
pub open spec fn first_free_from(slots: Seq<Option<PeerV>>, i: int) -> int
    decreases slots.len() - i,
{
    if i < 0 || i >= slots.len() {
        slots.len() as int
    } else if slots[i] is None {
        i
    } else {
        first_free_from(slots, i + 1)
    }
}

/// Number of occupied slots.
pub open spec fn dir_count(slots: Seq<Option<PeerV>>) -> int
    decreases slots.len(),
{
    if slots.len() == 0 {
        0
    } else {
        dir_count(slots.drop_last()) + if slots.last() is Some {
            1int
        } else {
            0int
        }
    }
}

/// What `add` does to the directory: unchanged when the address is already
/// present or no slot is free; otherwise the record goes into the lowest
/// free slot. The flag is false exactly when the table is full and the
/// address new.
pub open spec fn spec_add(slots: Seq<Option<PeerV>>, p: PeerV) -> (Seq<Option<PeerV>>, bool) {
    if dir_contains(slots, p.addr_kind, p.addr) {
        (slots, true)
    } else if first_free_from(slots, 0) < slots.len() {
        (slots.update(first_free_from(slots, 0), Some(p)), true)
    } else {
        (slots, false)
    }
}

/// What `remove` does: the lowest slot matching the address is cleared.
pub open spec fn spec_remove(slots: Seq<Option<PeerV>>, addr_kind: u8, addr: Seq<u8>) -> Seq<
    Option<PeerV>,
> {
    if exists|i: int|
        0 <= i < slots.len() && slot_has_addr(#[trigger] slots[i], addr_kind, addr) {
        slots.update(
            choose|i: int|
                0 <= i < slots.len() && slot_has_addr(#[trigger] slots[i], addr_kind, addr)
                    && forall|j: int|
                    0 <= j < i ==> !slot_has_addr(#[trigger] slots[j], addr_kind, addr),
            None,
        )
    } else {
        slots
    }
}


/// What saving the system attributes does to the table: the lowest slot
/// holding the address takes the blob; without a match nothing changes.
pub open spec fn spec_save_attrs(
    slots: Seq<Option<PeerV>>,
    addr_kind: u8,
    addr: Seq<u8>,
    attrs: Seq<u8>,
) -> Seq<Option<PeerV>> {
    if dir_contains(slots, addr_kind, addr) {
        let m = choose|m: int|
            0 <= m < slots.len() && slot_has_addr(#[trigger] slots[m], addr_kind, addr) && forall|
                j: int,
            | 0 <= j < m ==> !slot_has_addr(#[trigger] slots[j], addr_kind, addr);
        slots.update(m, Some(PeerV { attrs, ..slots[m]->Some_0 }))
    } else {
        slots
    }
}

/// The record returned by an address lookup: the lowest matching slot.
pub open spec fn spec_find_by_addr(
    slots: Seq<Option<PeerV>>,
    addr_kind: u8,
    addr: Seq<u8>,
    i: int,
) -> Option<PeerV>
    decreases slots.len() - i,
{
    if i < 0 || i >= slots.len() {
        None
    } else if slot_has_addr(slots[i], addr_kind, addr) {
        slots[i]
    } else {
        spec_find_by_addr(slots, addr_kind, addr, i + 1)
    }
}

/// True when the slot holds a record with this master id.
pub open spec fn slot_has_master_id(s: Option<PeerV>, ediv: u16, rand: Seq<u8>) -> bool {
    match s {
        Some(p) => p.ediv == ediv && p.rand == rand,
        None => false,
    }
}

/// The record returned by a master-id lookup: the lowest matching slot.
pub open spec fn spec_find_by_master_id(
    slots: Seq<Option<PeerV>>,
    ediv: u16,
    rand: Seq<u8>,
    i: int,
) -> Option<PeerV>
    decreases slots.len() - i,
{
    if i < 0 || i >= slots.len() {
        None
    } else if slot_has_master_id(slots[i], ediv, rand) {
        slots[i]
    } else {
        spec_find_by_master_id(slots, ediv, rand, i + 1)
    }
}

/// The fixed-capacity directory of bonded peers. At most one slot per
/// distinct address; insertion into a full table fails rather than evicts.
pub struct KnownPeers {
    slots: Vec<Option<Peer>>,
}

impl View for KnownPeers {
    type V = Seq<Option<PeerV>>;

    closed spec fn view(&self) -> Seq<Option<PeerV>> {
        Seq::new(
            self.slots@.len(),
            |i: int|
                match self.slots@[i] {
                    Some(p) => Some(p@),
                    None => None,
                },
        )
    }
}

impl KnownPeers {
    /// Slot count fixed at capacity; every held record well-formed and
    /// no address held twice.
    pub open spec fn wf(&self) -> bool {
        &&& self@.len() == PEER_CAPACITY
        &&& forall|i: int|
            0 <= i < self@.len() ==> ((#[trigger] self@[i]) matches Some(p) ==> p.wf())
        &&& dir_no_dup(self@)
    }

    /// A copy of the record in slot `i`, if the slot is occupied.
    pub fn get_slot(&self, i: usize) -> (r: Option<Peer>)
        requires
            self.wf(),
            i < self@.len(),
        ensures
            match r {
                Some(p) => self@[i as int] == Some(p@) && p.wf(),
                None => self@[i as int] is None,
            },
    {
        match &self.slots[i] {
            Some(p) => Some(p.clone()),
            None => None,
        }
    }

    /// Rebuilds a directory from three decoded slots.
    pub fn from_parts(a: Option<Peer>, b: Option<Peer>, c: Option<Peer>) -> (r: KnownPeers)
        requires
            (a matches Some(p) ==> p.wf()),
            (b matches Some(p) ==> p.wf()),
            (c matches Some(p) ==> p.wf()),
            dir_no_dup(
                seq![
                    match a {
                        Some(p) => Some(p@),
                        None => None,
                    },
                    match b {
                        Some(p) => Some(p@),
                        None => None,
                    },
                    match c {
                        Some(p) => Some(p@),
                        None => None,
                    },
                ],
            ),
        ensures
            r.wf(),
            r@ == seq![
                match a {
                    Some(p) => Some(p@),
                    None => None,
                },
                match b {
                    Some(p) => Some(p@),
                    None => None,
                },
                match c {
                    Some(p) => Some(p@),
                    None => None,
                },
            ],
    {
        let ghost target = seq![
            match &a {
                Some(p) => Some(p@),
                None => None::<PeerV>,
            },
            match &b {
                Some(p) => Some(p@),
                None => None::<PeerV>,
            },
            match &c {
                Some(p) => Some(p@),
                None => None::<PeerV>,
            },
        ];
        let mut slots: Vec<Option<Peer>> = Vec::new();
        slots.push(a);
        slots.push(b);
        slots.push(c);
        let r = KnownPeers { slots };
        proof {
            assert(r@ =~= target);
        }
        r
    }

    /// An empty directory.
    pub fn new() -> (r: KnownPeers)
        ensures
            r.wf(),
            forall|i: int| 0 <= i < r@.len() ==> r@[i] is None,
            dir_count(r@) == 0,
    {
        let mut slots: Vec<Option<Peer>> = Vec::new();
        slots.push(None);
        slots.push(None);
        slots.push(None);
        let r = KnownPeers { slots };
        proof {
            assert(r@.len() == 3);
            assert(forall|i: int| 0 <= i < r@.len() ==> r@[i] is None);
            reveal_with_fuel(dir_count, 5);
            assert(r@.drop_last().drop_last().drop_last() =~= Seq::<Option<PeerV>>::empty());
        }
        r
    }

    /// True when a record with this address is in the table.
    pub fn contains(&self, addr: &Address) -> (r: bool)
        requires
            self.wf(),
        ensures
            r == dir_contains(self@, addr.kind, addr.bytes@),
    {
        let n = self.slots.len();
        let mut i: usize = 0;
        while i < n
            invariant
                n == self@.len(),
                i <= n,
                self@.len() == self.slots@.len(),
                forall|k: int|
                    0 <= k < self@.len() ==> self@[k] == match self.slots@[k] {
                        Some(p) => Some(p@),
                        None => None::<PeerV>,
                    },
                forall|k: int|
                    0 <= k < i ==> !slot_has_addr(#[trigger] self@[k], addr.kind, addr.bytes@),
            decreases n - i,
        {
            match &self.slots[i] {
                Some(p) => {
                    if addr_eq(&p.peer_id.addr, addr) {
                        assert(slot_has_addr(self@[i as int], addr.kind, addr.bytes@));
                        return true;
                    }
                },
                None => {},
            }
            i = i + 1;
        }
        false
    }

    /// Inserts a freshly bonded record, or reports an idempotent re-bond.
    /// Returns true when the address was already known or a free slot took
    /// the record; false exactly when the table is full and the peer new.
    pub fn add(&mut self, peer: Peer) -> (r: bool)
        requires
            old(self).wf(),
            peer.wf(),
        ensures
            final(self).wf(),
            (final(self)@, r) == spec_add(old(self)@, peer@),
    {
        if self.contains(&peer.peer_id.addr) {
            return true;
        }
        let n = self.slots.len();
        let mut i: usize = 0;
        while i < n
            invariant
                n == self@.len(),
                i <= n,
                self.wf(),
                peer.wf(),
                self@ == old(self)@,
                self@.len() == self.slots@.len(),
                !dir_contains(self@, peer@.addr_kind, peer@.addr),
                forall|k: int| 0 <= k < i ==> self@[k] is Some,
            decreases n - i,
        {
            if self.slots[i].is_none() {
                assert(first_free_lemma_holds(self@, i as int)) by {
                    lemma_first_free_at(self@, i as int);
                }
                let ghost pre = self@;
                self.slots.set(i, Some(peer));
                proof {
                    assert(self@ =~= pre.update(i as int, Some(peer@)));
                    assert(first_free_from(pre, 0) == i as int);
                }
                return true;
            }
            i = i + 1;
        }
        proof {
            lemma_first_free_none(self@, 0);
        }
        false
    }

    /// Clears the slot holding this address; a no-op when absent.
    pub fn remove(&mut self, addr: &Address) -> (r: bool)
        requires
            old(self).wf(),
        ensures
            final(self).wf(),
            final(self)@ == spec_remove(old(self)@, addr.kind, addr.bytes@),
            r == dir_contains(old(self)@, addr.kind, addr.bytes@),
    {
        let n = self.slots.len();
        let mut i: usize = 0;
        while i < n
            invariant
                n == self@.len(),
                i <= n,
                self.wf(),
                self@ == old(self)@,
                self@.len() == self.slots@.len(),
                forall|k: int|
                    0 <= k < i ==> !slot_has_addr(#[trigger] self@[k], addr.kind, addr.bytes@),
            decreases n - i,
        {
            let hit = match &self.slots[i] {
                Some(p) => addr_eq(&p.peer_id.addr, addr),
                None => false,
            };
            if hit {
                let ghost pre = self@;
                self.slots.set(i, None);
                proof {
                    assert(slot_has_addr(pre[i as int], addr.kind, addr.bytes@));
                    assert(self@ =~= pre.update(i as int, None));
                    let w = choose|w: int|
                        0 <= w < pre.len() && slot_has_addr(#[trigger] pre[w], addr.kind, addr.bytes@)
                            && forall|j: int|
                            0 <= j < w ==> !slot_has_addr(#[trigger] pre[j], addr.kind, addr.bytes@);
                    assert(0 <= w < pre.len() && slot_has_addr(pre[w], addr.kind, addr.bytes@)
                        && forall|j: int|
                        0 <= j < w ==> !slot_has_addr(#[trigger] pre[j], addr.kind, addr.bytes@))
                        by {
                        assert(0 <= (i as int) && (i as int) < pre.len() && slot_has_addr(
                            pre[i as int],
                            addr.kind,
                            addr.bytes@,
                        ) && forall|j: int|
                            0 <= j < i as int ==> !slot_has_addr(
                                #[trigger] pre[j],
                                addr.kind,
                                addr.bytes@,
                            ));
                    }
                    assert(w == i as int) by {
                        if w < i as int {
                            assert(!slot_has_addr(pre[w], addr.kind, addr.bytes@));
                        }
                        if w > i as int {
                            assert(!slot_has_addr(pre[i as int], addr.kind, addr.bytes@));
                        }
                    }
                }
                return true;
            }
            i = i + 1;
        }
        false
    }

    /// The record bonded under this address, when present.
    pub fn find_by_address(&self, addr: &Address) -> (r: Option<Peer>)
        requires
            self.wf(),
        ensures
            match r {
                Some(p) => Some(p@) == spec_find_by_addr(self@, addr.kind, addr.bytes@, 0)
                    && p.wf(),
                None => spec_find_by_addr(self@, addr.kind, addr.bytes@, 0) is None,
            },
    {
        let n = self.slots.len();
        let mut i: usize = 0;
        while i < n
            invariant
                n == self@.len(),
                i <= n,
                self.wf(),
                self@.len() == self.slots@.len(),
                spec_find_by_addr(self@, addr.kind, addr.bytes@, 0) == spec_find_by_addr(
                    self@,
                    addr.kind,
                    addr.bytes@,
                    i as int,
                ),
            decreases n - i,
        {
            match &self.slots[i] {
                Some(p) => {
                    if addr_eq(&p.peer_id.addr, addr) {
                        return Some(p.clone());
                    }
                },
                None => {},
            }
            i = i + 1;
        }
        None
    }

    /// The record whose master id matches, when present: the key lookup the
    /// radio stack makes on reconnection.
    pub fn find_by_master_id(&self, id: &MasterId) -> (r: Option<Peer>)
        requires
            self.wf(),
        ensures
            match r {
                Some(p) => Some(p@) == spec_find_by_master_id(self@, id.ediv, id.rand@, 0)
                    && p.wf(),
                None => spec_find_by_master_id(self@, id.ediv, id.rand@, 0) is None,
            },
    {
        let n = self.slots.len();
        let mut i: usize = 0;
        while i < n
            invariant
                n == self@.len(),
                i <= n,
                self.wf(),
                self@.len() == self.slots@.len(),
                spec_find_by_master_id(self@, id.ediv, id.rand@, 0) == spec_find_by_master_id(
                    self@,
                    id.ediv,
                    id.rand@,
                    i as int,
                ),
            decreases n - i,
        {
            match &self.slots[i] {
                Some(p) => {
                    if master_id_eq(&p.master_id, id) {
                        return Some(p.clone());
                    }
                },
                None => {},
            }
            i = i + 1;
        }
        None
    }


    /// Stores a captured system-attribute blob into the slot holding this
    /// address; a no-op when absent. Returns whether a slot matched.
    pub fn save_attrs(&mut self, addr: &Address, attrs: &[u8]) -> (r: bool)
        requires
            old(self).wf(),
            attrs@.len() <= MAX_SYS_ATTRS,
        ensures
            final(self).wf(),
            final(self)@ == spec_save_attrs(old(self)@, addr.kind, addr.bytes@, attrs@),
            r == dir_contains(old(self)@, addr.kind, addr.bytes@),
    {
        let n = self.slots.len();
        let mut i: usize = 0;
        while i < n
            invariant
                n == self@.len(),
                i <= n,
                self.wf(),
                self@ == old(self)@,
                attrs@.len() <= MAX_SYS_ATTRS,
                self@.len() == self.slots@.len(),
                forall|k: int|
                    0 <= k < i ==> !slot_has_addr(#[trigger] self@[k], addr.kind, addr.bytes@),
            decreases n - i,
        {
            let hit = match &self.slots[i] {
                Some(p) => addr_eq(&p.peer_id.addr, addr),
                None => false,
            };
            if hit {
                let p = match &self.slots[i] {
                    Some(p) => p.clone(),
                    None => {
                        proof {
                            assert(false);
                        }
                        vstd::pervasive::unreached()
                    },
                };
                let np = Peer {
                    master_id: p.master_id,
                    key: p.key,
                    peer_id: p.peer_id,
                    sys_attrs: SysAttrs::from_bytes(attrs),
                };
                let ghost pre = self@;
                let ghost target = Some(PeerV { attrs: attrs@, ..pre[i as int]->Some_0 });
                self.slots.set(i, Some(np));
                proof {
                    assert(slot_has_addr(pre[i as int], addr.kind, addr.bytes@));
                    assert(np@ == PeerV { attrs: attrs@, ..pre[i as int]->Some_0 });
                    assert(self@ =~= pre.update(i as int, target));
                    let w = choose|w: int|
                        0 <= w < pre.len() && slot_has_addr(#[trigger] pre[w], addr.kind, addr.bytes@)
                            && forall|j: int|
                            0 <= j < w ==> !slot_has_addr(#[trigger] pre[j], addr.kind, addr.bytes@);
                    assert(0 <= w < pre.len() && slot_has_addr(pre[w], addr.kind, addr.bytes@)
                        && forall|j: int|
                        0 <= j < w ==> !slot_has_addr(#[trigger] pre[j], addr.kind, addr.bytes@))
                        by {
                        assert(0 <= (i as int) && (i as int) < pre.len() && slot_has_addr(
                            pre[i as int],
                            addr.kind,
                            addr.bytes@,
                        ) && forall|j: int|
                            0 <= j < i as int ==> !slot_has_addr(
                                #[trigger] pre[j],
                                addr.kind,
                                addr.bytes@,
                            ));
                    }
                    assert(w == i as int) by {
                        if w < i as int {
                            assert(!slot_has_addr(pre[w], addr.kind, addr.bytes@));
                        }
                        if w > i as int {
                            assert(!slot_has_addr(pre[i as int], addr.kind, addr.bytes@));
                        }
                    }
                    // the slot keeps its address, so uniqueness is kept
                    assert(self.wf()) by {
                        assert forall|a: int, b: int|
                            0 <= a < b < self@.len() && self@[a] is Some && self@[b] is Some
                                implies !(self@[a]->Some_0.addr_kind == self@[b]->Some_0.addr_kind
                            && self@[a]->Some_0.addr == self@[b]->Some_0.addr) by {
                            assert(self@[a]->Some_0.addr_kind == pre[a]->Some_0.addr_kind
                                && self@[a]->Some_0.addr == pre[a]->Some_0.addr && (self@[a]
                                is Some) == (pre[a] is Some));
                            assert(self@[b]->Some_0.addr_kind == pre[b]->Some_0.addr_kind
                                && self@[b]->Some_0.addr == pre[b]->Some_0.addr && (self@[b]
                                is Some) == (pre[b] is Some));
                        }
                    }
                }
                return true;
            }
            i = i + 1;
        }
        false
    }

    /// Number of bonded peers in the table.
    pub fn count(&self) -> (r: usize)
        requires
            self.wf(),
        ensures
            r == dir_count(self@),
    {
        let n = self.slots.len();
        let mut i: usize = 0;
        let mut c: usize = 0;
        while i < n
            invariant
                n == self@.len(),
                i <= n,
                self.wf(),
                self@.len() == self.slots@.len(),
                c == dir_count(self@.subrange(0, i as int)),
                c <= i,
            decreases n - i,
        {
            proof {
                assert(self@.subrange(0, i + 1 as int).drop_last() =~= self@.subrange(0, i as int));
                assert(self@.subrange(0, i + 1 as int).last() == self@[i as int]);
            }
            if self.slots[i].is_some() {
                c = c + 1;
            }
            i = i + 1;
        }
        proof {
            assert(self@.subrange(0, n as int) =~= self@);
        }
        c
    }
}

/// Law: re-bonding an address that the table can hold succeeds twice over,
/// and the second `add` changes neither the table nor its size.
pub proof fn lemma_add_rebond_idempotent(slots: Seq<Option<PeerV>>, p1: PeerV, p2: PeerV)
    requires
        p2.addr_kind == p1.addr_kind,
        p2.addr == p1.addr,
        dir_contains(slots, p1.addr_kind, p1.addr) || first_free_from(slots, 0) < slots.len(),
    ensures
        spec_add(slots, p1).1,
        spec_add(spec_add(slots, p1).0, p2).1,
        spec_add(spec_add(slots, p1).0, p2).0 == spec_add(slots, p1).0,
        dir_count(spec_add(spec_add(slots, p1).0, p2).0) == dir_count(spec_add(slots, p1).0),
{
    if dir_contains(slots, p1.addr_kind, p1.addr) {
        assert(spec_add(slots, p1) == (slots, true));
    } else {
        let f = first_free_from(slots, 0);
        lemma_first_free_in_range(slots, 0);
        let s1 = slots.update(f, Some(p1));
        assert(slot_has_addr(s1[f], p2.addr_kind, p2.addr));
        assert(dir_contains(s1, p2.addr_kind, p2.addr));
    }
}

/// Law: with the table at capacity, adding a record with a new address
/// fails and leaves the table exactly as it was.
pub proof fn lemma_add_full_rejects(slots: Seq<Option<PeerV>>, p: PeerV)
    requires
        forall|i: int| 0 <= i < slots.len() ==> (#[trigger] slots[i]) is Some,
        !dir_contains(slots, p.addr_kind, p.addr),
    ensures
        spec_add(slots, p) == (slots, false),
{
    lemma_first_free_none(slots, 0);
}

proof fn lemma_first_free_in_range(slots: Seq<Option<PeerV>>, j: int)
    requires
        0 <= j <= slots.len(),
    ensures
        j <= first_free_from(slots, j) <= slots.len(),
        first_free_from(slots, j) < slots.len() ==> slots[first_free_from(slots, j)] is None,
    decreases slots.len() - j,
{
    if j < slots.len() && !(slots[j] is None) {
        lemma_first_free_in_range(slots, j + 1);
    }
}

spec fn first_free_lemma_holds(slots: Seq<Option<PeerV>>, i: int) -> bool {
    (0 <= i < slots.len() && slots[i] is None && (forall|k: int| 0 <= k < i ==> slots[k] is Some))
        ==> first_free_from(slots, 0) == i
}

proof fn lemma_first_free_at(slots: Seq<Option<PeerV>>, i: int)
    ensures
        first_free_lemma_holds(slots, i),
{
    if 0 <= i < slots.len() && slots[i] is None && (forall|k: int| 0 <= k < i ==> slots[k] is Some) {
        lemma_first_free_step(slots, 0, i);
    }
}

proof fn lemma_first_free_step(slots: Seq<Option<PeerV>>, j: int, i: int)
    requires
        0 <= j <= i < slots.len(),
        slots[i] is None,
        forall|k: int| 0 <= k < i ==> slots[k] is Some,
    ensures
        first_free_from(slots, j) == i,
    decreases i - j,
{
    if j < i {
        lemma_first_free_step(slots, j + 1, i);
    }
}

proof fn lemma_first_free_none(slots: Seq<Option<PeerV>>, j: int)
    requires
        0 <= j <= slots.len(),
        forall|k: int| 0 <= k < slots.len() ==> slots[k] is Some,
    ensures
        first_free_from(slots, j) == slots.len(),
    decreases slots.len() - j,
{
    if j < slots.len() {
        lemma_first_free_none(slots, j + 1);
    }
}


impl Clone for KnownPeers {
    fn clone(&self) -> (r: KnownPeers)
        ensures
            r@ == self@,
            r.wf() == self.wf(),
    {
        let mut slots: Vec<Option<Peer>> = Vec::new();
        let mut i: usize = 0;
        while i < self.slots.len()
            invariant
                i <= self.slots@.len(),
                slots@.len() == i,
                forall|j: int|
                    0 <= j < i ==> (match #[trigger] slots@[j] {
                        Some(p) => self@[j] matches Some(q) && p@ == q,
                        None => self@[j] is None,
                    }),
            decreases self.slots@.len() - i,
        {
            let s = match &self.slots[i] {
                Some(p) => Some(p.clone()),
                None => None,
            };
            slots.push(s);
            i = i + 1;
        }
        let r = KnownPeers { slots };
        proof {
            assert(r@ =~= self@);
        }
        r
    }
}


/// A value that names the record-store key it is persisted under.
pub trait DBKey {
    fn key(&self) -> &[u8];
}

impl DBKey for Peer {
    /// A peer's own records are keyed by its six address bytes; the
    /// contract stands on `Peer::record_key`.
    fn key(&self) -> &[u8] {
        self.record_key()
    }
}

} // verus!
