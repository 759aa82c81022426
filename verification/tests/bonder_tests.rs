use bondstore::peers::{KnownPeers, MasterId, EncryptionInfo, IdentityKey, Address};
use bondstore::bonding::{Bonder, BonderMessage, IoCapabilities, persist_snapshot,
    load_or_init_known_peers, known_peers_key_bytes, run_pending, peer_identities,
    peer_addresses};
use bondstore::flash::Flash;
use bondstore::store::RecordStore;

fn addr(last: u8) -> Address {
    Address { kind: 0, bytes: [0xAA, 0xAA, 0xAA, 0xAA, 0xAA, last] }
}

fn identity(last: u8) -> IdentityKey {
    IdentityKey { irk: [last; 16], addr: addr(last) }
}

fn master(last: u8) -> MasterId {
    MasterId { ediv: last as u16, rand: [last; 8] }
}

fn key_material(last: u8) -> EncryptionInfo {
    EncryptionInfo { ltk: [last; 16], flags: 1 }
}

fn store_with_format() -> RecordStore {
    let flash = Flash::new(4);
    let mut store = RecordStore::new(flash);
    store.format().expect("format");
    store
}

#[test]
fn coordinator_reports_fixed_capabilities() {
    let bonder = Bonder::new(KnownPeers::new());
    assert_eq!(bonder.io_capabilities(), IoCapabilities::DisplayOnly);
    assert!(bonder.can_bond());
}

#[test]
fn bonding_inserts_and_queues_a_snapshot() {
    let mut bonder = Bonder::new(KnownPeers::new());
    assert!(bonder.on_bonded(master(1), key_material(1), identity(1)));
    assert_eq!(bonder.pending(), 1);
    let table = bonder.peers();
    assert_eq!(table.count(), 1);
    assert!(table.contains(&addr(1)));
}

#[test]
fn bonding_a_full_table_reports_failure_without_panicking() {
    let mut bonder = Bonder::new(KnownPeers::new());
    assert!(bonder.on_bonded(master(1), key_material(1), identity(1)));
    assert!(bonder.on_bonded(master(2), key_material(2), identity(2)));
    assert!(bonder.on_bonded(master(3), key_material(3), identity(3)));
    assert!(!bonder.on_bonded(master(4), key_material(4), identity(4)));
    assert_eq!(bonder.peers().count(), 3);
}

#[test]
fn key_lookup_by_master_id() {
    let mut bonder = Bonder::new(KnownPeers::new());
    bonder.on_bonded(master(1), key_material(1), identity(1));
    bonder.on_bonded(master(2), key_material(2), identity(2));
    let k = bonder.get_key(&master(2)).expect("known peer");
    assert_eq!(k.ltk, [2u8; 16]);
    assert!(bonder.get_key(&master(9)).is_none());
}

#[test]
fn captured_attributes_are_restored_exactly() {
    // capture then restore for one address yields the captured blob
    let mut bonder = Bonder::new(KnownPeers::new());
    bonder.on_bonded(master(1), key_material(1), identity(1));
    let blob: Vec<u8> = (0..40u8).collect();
    assert!(bonder.save_sys_attrs(&addr(1), &blob));
    let restored = bonder.load_sys_attrs(&addr(1)).expect("cached");
    assert_eq!(restored.as_slice(), &blob[..]);
    // an unknown address restores nothing
    assert!(bonder.load_sys_attrs(&addr(9)).is_none());
}

#[test]
fn queue_drops_the_oldest_snapshot_on_overflow() {
    let mut bonder = Bonder::new(KnownPeers::new());
    bonder.on_bonded(master(1), key_material(1), identity(1));
    bonder.on_bonded(master(2), key_material(2), identity(2));
    bonder.on_bonded(master(3), key_material(3), identity(3));
    assert_eq!(bonder.pending(), 3);
    // a fourth snapshot pushes the oldest out, never blocks, never fails
    let blob = [7u8; 4];
    bonder.save_sys_attrs(&addr(1), &blob);
    assert_eq!(bonder.pending(), 3);
    // the oldest remaining snapshot now holds two peers
    let msg = bonder.take_snapshot().expect("queued");
    let BonderMessage::Store(kp) = msg;
    assert_eq!(kp.count(), 2);
    // the newest snapshot carries the attribute capture
    bonder.take_snapshot().expect("queued");
    let BonderMessage::Store(latest) = bonder.take_snapshot().expect("queued");
    let p = latest.find_by_address(&addr(1)).expect("present");
    assert_eq!(p.sys_attrs.as_slice(), &blob[..]);
    assert!(bonder.take_snapshot().is_none());
}

#[test]
fn forgetting_a_peer_clears_its_slot() {
    let mut bonder = Bonder::new(KnownPeers::new());
    bonder.on_bonded(master(1), key_material(1), identity(1));
    bonder.on_bonded(master(2), key_material(2), identity(2));
    assert!(bonder.forget_peer(&addr(1)));
    assert!(!bonder.forget_peer(&addr(1)));
    let table = bonder.peers();
    assert_eq!(table.count(), 1);
    assert!(!table.contains(&addr(1)));
}

#[test]
fn persisted_directory_loads_back() {
    let mut store = store_with_format();
    let mut table = KnownPeers::new();
    table.add(bondstore::peers::Peer {
        master_id: master(1),
        key: key_material(1),
        peer_id: identity(1),
        sys_attrs: bondstore::peers::SysAttrs::from_bytes(&[1, 2, 3]),
    });
    persist_snapshot(&mut store, &table).expect("persist");
    let loaded = load_or_init_known_peers(&mut store).expect("load");
    assert_eq!(loaded.count(), 1);
    let p = loaded.find_by_address(&addr(1)).expect("present");
    assert_eq!(p.sys_attrs.as_slice(), &[1, 2, 3]);
}

#[test]
fn first_boot_initialises_an_empty_directory() {
    let mut store = store_with_format();
    assert!(store.read(&known_peers_key_bytes()).is_err());
    let loaded = load_or_init_known_peers(&mut store).expect("init");
    assert_eq!(loaded.count(), 0);
    // the default directory is now durable
    assert!(store.read(&known_peers_key_bytes()).is_ok());
    let again = load_or_init_known_peers(&mut store).expect("load");
    assert_eq!(again.count(), 0);
}

#[test]
fn run_pending_commits_the_latest_snapshot() {
    let mut store = store_with_format();
    let mut bonder = Bonder::new(KnownPeers::new());
    bonder.on_bonded(master(1), key_material(1), identity(1));
    bonder.on_bonded(master(2), key_material(2), identity(2));
    run_pending(&mut bonder, &mut store).expect("drain");
    assert_eq!(bonder.pending(), 0);
    let loaded = load_or_init_known_peers(&mut store).expect("load");
    assert_eq!(loaded.count(), 2);
    assert!(loaded.contains(&addr(1)));
    assert!(loaded.contains(&addr(2)));
}

#[test]
fn identity_lists_follow_the_occupied_slots() {
    let mut bonder = Bonder::new(KnownPeers::new());
    bonder.on_bonded(master(1), key_material(1), identity(1));
    bonder.on_bonded(master(2), key_material(2), identity(2));
    let table = bonder.peers();
    let ids = peer_identities(&table);
    assert_eq!(ids.len(), 2);
    assert_eq!(ids[0].irk, [1u8; 16]);
    assert_eq!(ids[1].addr.bytes, addr(2).bytes);
    let addrs = peer_addresses(&table);
    assert_eq!(addrs.len(), 2);
    assert_eq!(addrs[0].bytes, addr(1).bytes);
    // a freed slot drops out of the lists
    bonder.forget_peer(&addr(1));
    let addrs = peer_addresses(&bonder.peers());
    assert_eq!(addrs.len(), 1);
    assert_eq!(addrs[0].bytes, addr(2).bytes);
}

#[test]
fn a_faulted_drain_leaves_other_keys_untouched() {
    let mut store = store_with_format();
    let mut txn = store.begin_write();
    txn.write(b"unrelated", b"stays").unwrap();
    store.commit(txn).unwrap();
    let mut bonder = Bonder::new(KnownPeers::new());
    bonder.on_bonded(master(1), key_material(1), identity(1));
    bonder.on_bonded(master(2), key_material(2), identity(2));
    store.set_fault_budget(2);
    assert!(run_pending(&mut bonder, &mut store).is_err());
    // reboot and check: the unrelated key is untouched, and the directory
    // holds either nothing or one of the queued snapshots
    let flash = store.into_flash();
    let mut store = RecordStore::new(flash);
    store.mount().expect("mount");
    assert_eq!(store.read(b"unrelated").unwrap(), b"stays".to_vec());
    match store.read(&known_peers_key_bytes()) {
        Ok(bytes) => {
            let dir = bondstore::codec::decode_known_peers(&bytes).expect("a queued snapshot");
            assert!(dir.count() == 1 || dir.count() == 2);
            assert!(dir.contains(&addr(1)));
        }
        Err(_) => {}
    }
}
