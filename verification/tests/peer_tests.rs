use bondstore::peers::{KnownPeers, Peer, MasterId, EncryptionInfo, IdentityKey, Address,
    SysAttrs};

fn addr(last: u8) -> Address {
    Address { kind: 0, bytes: [0xAA, 0xAA, 0xAA, 0xAA, 0xAA, last] }
}

fn peer(last: u8, ediv: u16) -> Peer {
    Peer {
        master_id: MasterId { ediv, rand: [last; 8] },
        key: EncryptionInfo { ltk: [last; 16], flags: 1 },
        peer_id: IdentityKey { irk: [last; 16], addr: addr(last) },
        sys_attrs: SysAttrs::new(),
    }
}

#[test]
fn empty_table_has_no_peers() {
    let table = KnownPeers::new();
    assert_eq!(table.count(), 0);
    assert!(!table.contains(&addr(1)));
    assert!(table.find_by_address(&addr(1)).is_none());
}

#[test]
fn add_and_find() {
    let mut table = KnownPeers::new();
    assert!(table.add(peer(1, 100)));
    assert_eq!(table.count(), 1);
    assert!(table.contains(&addr(1)));
    let found = table.find_by_address(&addr(1)).expect("present");
    assert_eq!(found.master_id.ediv, 100);
    let by_id = table.find_by_master_id(&MasterId { ediv: 100, rand: [1; 8] }).expect("present");
    assert_eq!(by_id.peer_id.addr.bytes, [0xAA, 0xAA, 0xAA, 0xAA, 0xAA, 1]);
    assert!(table.find_by_master_id(&MasterId { ediv: 101, rand: [1; 8] }).is_none());
}

#[test]
fn rebonding_a_known_address_is_idempotent() {
    // adding the same address twice succeeds both times and leaves the
    // table size unchanged
    let mut table = KnownPeers::new();
    assert!(table.add(peer(1, 100)));
    assert_eq!(table.count(), 1);
    assert!(table.add(peer(1, 200)));
    assert_eq!(table.count(), 1);
    // the original record is kept
    let found = table.find_by_address(&addr(1)).expect("present");
    assert_eq!(found.master_id.ediv, 100);
}

#[test]
fn a_full_table_rejects_a_new_peer() {
    // with the table at capacity, a fourth distinct address is refused
    // and the contents stay as they were
    let mut table = KnownPeers::new();
    assert!(table.add(peer(1, 1)));
    assert!(table.add(peer(2, 2)));
    assert!(table.add(peer(3, 3)));
    assert_eq!(table.count(), 3);
    assert!(!table.add(peer(4, 4)));
    assert_eq!(table.count(), 3);
    assert!(table.contains(&addr(1)));
    assert!(table.contains(&addr(2)));
    assert!(table.contains(&addr(3)));
    assert!(!table.contains(&addr(4)));
    // but re-adding a known address still succeeds
    assert!(table.add(peer(2, 9)));
    assert_eq!(table.count(), 3);
}

#[test]
fn remove_clears_only_the_matching_slot() {
    let mut table = KnownPeers::new();
    table.add(peer(1, 1));
    table.add(peer(2, 2));
    assert!(table.remove(&addr(1)));
    assert_eq!(table.count(), 1);
    assert!(!table.contains(&addr(1)));
    assert!(table.contains(&addr(2)));
    // removing an absent address is a no-op
    assert!(!table.remove(&addr(7)));
    assert_eq!(table.count(), 1);
}

#[test]
fn freed_slot_is_reused() {
    let mut table = KnownPeers::new();
    table.add(peer(1, 1));
    table.add(peer(2, 2));
    table.add(peer(3, 3));
    table.remove(&addr(2));
    assert!(table.add(peer(5, 5)));
    assert_eq!(table.count(), 3);
    assert!(table.contains(&addr(5)));
}

#[test]
fn save_attrs_updates_the_matching_peer() {
    let mut table = KnownPeers::new();
    table.add(peer(1, 1));
    table.add(peer(2, 2));
    let blob = [0xD0u8; 17];
    assert!(table.save_attrs(&addr(2), &blob));
    let p = table.find_by_address(&addr(2)).expect("present");
    assert_eq!(p.sys_attrs.as_slice(), &blob[..]);
    let q = table.find_by_address(&addr(1)).expect("present");
    assert!(q.sys_attrs.is_empty());
    // no slot matches: nothing changes
    assert!(!table.save_attrs(&addr(9), &blob));
}

#[test]
fn addresses_differ_by_kind_too() {
    let mut table = KnownPeers::new();
    let mut p = peer(1, 1);
    p.peer_id.addr.kind = 1;
    table.add(p);
    assert!(!table.contains(&addr(1)));
    assert!(table.contains(&Address { kind: 1, bytes: addr(1).bytes }));
}
