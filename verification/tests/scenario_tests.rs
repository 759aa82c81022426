//! End-to-end scenarios: bonding, persistence, reboot, restore.

use bondstore::peers::{KnownPeers, MasterId, EncryptionInfo, IdentityKey, Address};
use bondstore::bonding::{Bonder, run_pending, load_or_init_known_peers};
use bondstore::flash::Flash;
use bondstore::store::RecordStore;

fn addr(last: u8) -> Address {
    Address { kind: 0, bytes: [0xAA, 0xAA, 0xAA, 0xAA, 0xAA, last] }
}

fn identity(last: u8) -> IdentityKey {
    IdentityKey { irk: [last; 16], addr: addr(last) }
}

fn master(last: u8) -> MasterId {
    MasterId { ediv: last as u16, rand: [last; 8] }
}

fn key_material(last: u8) -> EncryptionInfo {
    EncryptionInfo { ltk: [last; 16], flags: 1 }
}

fn reboot(store: RecordStore) -> RecordStore {
    let flash = store.into_flash();
    let mut store = RecordStore::new(flash);
    store.mount().expect("mount");
    store
}

#[test]
fn bond_persist_reboot_restore() {
    // boot: empty store and coordinator
    let flash = Flash::new(4);
    let mut store = RecordStore::new(flash);
    store.format().expect("format");
    let initial = load_or_init_known_peers(&mut store).expect("first boot");
    let mut bonder = Bonder::new(initial);

    // peer A (AA:AA:AA:AA:AA:01) bonds: the table holds one entry
    assert!(bonder.on_bonded(master(1), key_material(1), identity(1)));
    assert_eq!(bonder.peers().count(), 1);

    // the persistence task drains the queue into the store
    run_pending(&mut bonder, &mut store).expect("drain");

    // reboot: remount and reload the directory
    let mut store = reboot(store);
    let reloaded = load_or_init_known_peers(&mut store).expect("reload");
    assert_eq!(reloaded.count(), 1);
    let p = reloaded.find_by_address(&addr(1)).expect("peer A survives");
    assert_eq!(p.master_id.ediv, 1);
    assert_eq!(p.key.ltk, [1u8; 16]);

    // bond B and C: the table reaches its capacity of three
    let mut bonder = Bonder::new(reloaded);
    assert!(bonder.on_bonded(master(2), key_material(2), identity(2)));
    assert!(bonder.on_bonded(master(3), key_material(3), identity(3)));
    assert_eq!(bonder.peers().count(), 3);

    // a fourth peer D is refused; the table still holds A, B and C
    assert!(!bonder.on_bonded(master(4), key_material(4), identity(4)));
    let table = bonder.peers();
    assert_eq!(table.count(), 3);
    assert!(table.contains(&addr(1)));
    assert!(table.contains(&addr(2)));
    assert!(table.contains(&addr(3)));
    assert!(!table.contains(&addr(4)));

    // capture a 40-byte system-attribute blob for A, persist, reboot
    let blob: Vec<u8> = (100..140u8).collect();
    assert!(bonder.save_sys_attrs(&addr(1), &blob));
    run_pending(&mut bonder, &mut store).expect("drain");
    let mut store = reboot(store);
    let reloaded = load_or_init_known_peers(&mut store).expect("reload");
    let bonder = Bonder::new(reloaded);

    // restore for A returns exactly the captured blob
    let restored = bonder.load_sys_attrs(&addr(1)).expect("cached for A");
    assert_eq!(restored.len(), 40);
    assert_eq!(restored.as_slice(), &blob[..]);

    // restore for B returns an empty blob: B never captured attributes
    let restored_b = bonder.load_sys_attrs(&addr(2)).expect("B is bonded");
    assert!(restored_b.is_empty());
}

#[test]
fn rebond_after_reboot_is_idempotent() {
    let flash = Flash::new(4);
    let mut store = RecordStore::new(flash);
    store.format().expect("format");
    let mut bonder = Bonder::new(KnownPeers::new());
    assert!(bonder.on_bonded(master(1), key_material(1), identity(1)));
    run_pending(&mut bonder, &mut store).expect("drain");

    let mut store = reboot(store);
    let reloaded = load_or_init_known_peers(&mut store).expect("reload");
    let mut bonder = Bonder::new(reloaded);
    // peer A bonds again after the reboot: still one entry
    assert!(bonder.on_bonded(master(1), key_material(1), identity(1)));
    assert_eq!(bonder.peers().count(), 1);
}
