use bondstore::flash::Flash;
use bondstore::store::{RecordStore, ReadError, WriteError, CommitError, MountError};

fn fresh_store(pages: usize) -> RecordStore {
    let flash = Flash::new(pages);
    let mut store = RecordStore::new(flash);
    store.format().expect("format");
    store
}

fn reboot(store: RecordStore) -> RecordStore {
    let mut flash = store.into_flash();
    flash.clear_fault_budget();
    let mut store = RecordStore::new(flash);
    store.mount().expect("mount");
    store
}

#[test]
fn format_then_read_finds_nothing() {
    let store = fresh_store(3);
    assert_eq!(store.read(b"missing"), Err(ReadError::KeyNotFound));
}

#[test]
fn fresh_flash_is_not_formatted() {
    let flash = Flash::new(3);
    let mut store = RecordStore::new(flash);
    assert_eq!(store.mount(), Err(MountError::NotFormatted));
}

#[test]
fn commit_then_read_back() {
    let mut store = fresh_store(3);
    let mut txn = store.begin_write();
    txn.write(b"alpha", b"first value").unwrap();
    txn.write(b"beta", b"second value").unwrap();
    store.commit(txn).unwrap();
    assert_eq!(store.read(b"alpha").unwrap(), b"first value".to_vec());
    assert_eq!(store.read(b"beta").unwrap(), b"second value".to_vec());
}

#[test]
fn last_write_wins_within_a_transaction() {
    let mut store = fresh_store(3);
    let mut txn = store.begin_write();
    txn.write(b"key", b"old").unwrap();
    txn.write(b"key", b"new").unwrap();
    store.commit(txn).unwrap();
    assert_eq!(store.read(b"key").unwrap(), b"new".to_vec());
}

#[test]
fn later_commit_overrides_earlier() {
    let mut store = fresh_store(3);
    let mut txn = store.begin_write();
    txn.write(b"key", b"one").unwrap();
    store.commit(txn).unwrap();
    let mut txn = store.begin_write();
    txn.write(b"key", b"two").unwrap();
    store.commit(txn).unwrap();
    assert_eq!(store.read(b"key").unwrap(), b"two".to_vec());
}

#[test]
fn durability_across_remount() {
    // after a successful commit, a fresh mount sees the committed value
    let mut store = fresh_store(4);
    let mut txn = store.begin_write();
    txn.write(b"durable", b"payload that must survive").unwrap();
    store.commit(txn).unwrap();
    let store = reboot(store);
    assert_eq!(store.read(b"durable").unwrap(), b"payload that must survive".to_vec());
}

#[test]
fn staging_rejects_bad_records() {
    let store = fresh_store(3);
    let mut txn = store.begin_write();
    assert_eq!(txn.write(b"", b"value"), Err(WriteError::InvalidKey));
    let long_key = [0x61u8; 33];
    assert_eq!(txn.write(&long_key, b"value"), Err(WriteError::InvalidKey));
    let big_value = vec![0u8; 513];
    assert_eq!(txn.write(b"key", &big_value), Err(WriteError::ValueTooLarge));
    let edge_value = vec![0u8; 512];
    assert!(txn.write(b"key", &edge_value).is_ok());
}

#[test]
fn capacity_is_enforced() {
    let mut store = fresh_store(4);
    let big = vec![7u8; 512];
    for i in 0..3u8 {
        let mut txn = store.begin_write();
        txn.write(&[0x6B, i], &big).unwrap();
        store.commit(txn).unwrap();
    }
    // a fourth distinct 512-byte record passes the live-set capacity
    let mut txn = store.begin_write();
    txn.write(&[0x6B, 9], &big).unwrap();
    assert_eq!(store.commit(txn), Err(CommitError::CapacityExceeded));
    // the store still answers for the committed keys
    assert_eq!(store.read(&[0x6B, 0]).unwrap(), big);
}

#[test]
fn power_cut_before_any_write_changes_nothing() {
    let mut store = fresh_store(3);
    let mut txn = store.begin_write();
    txn.write(b"key", b"committed").unwrap();
    store.commit(txn).unwrap();
    // no budget at all: the payload write already fails
    store.set_fault_budget(0);
    let mut txn = store.begin_write();
    txn.write(b"key", b"torn").unwrap();
    assert!(matches!(store.commit(txn), Err(CommitError::Flash(_))));
    let store = reboot(store);
    assert_eq!(store.read(b"key").unwrap(), b"committed".to_vec());
}

#[test]
fn atomicity_under_power_cut_mid_commit() {
    // the payload is written but the header write is cut: after remount
    // every key of the transaction shows its pre-transaction state
    let mut store = fresh_store(4);
    let mut txn = store.begin_write();
    txn.write(b"alpha", b"old alpha").unwrap();
    store.commit(txn).unwrap();
    store.set_fault_budget(1);
    let mut txn = store.begin_write();
    txn.write(b"alpha", b"new alpha").unwrap();
    txn.write(b"beta", b"new beta").unwrap();
    assert!(matches!(store.commit(txn), Err(CommitError::Flash(_))));
    let store = reboot(store);
    assert_eq!(store.read(b"alpha").unwrap(), b"old alpha".to_vec());
    assert_eq!(store.read(b"beta"), Err(ReadError::KeyNotFound));
}

#[test]
fn torn_state_remains_usable_after_remount() {
    let mut store = fresh_store(4);
    let mut txn = store.begin_write();
    txn.write(b"key", b"v1").unwrap();
    store.commit(txn).unwrap();
    store.set_fault_budget(1);
    let mut txn = store.begin_write();
    txn.write(b"key", b"v2").unwrap();
    assert!(store.commit(txn).is_err());
    let mut store = reboot(store);
    // new commits land on the rebooted store
    let mut txn = store.begin_write();
    txn.write(b"key", b"v3").unwrap();
    store.commit(txn).unwrap();
    assert_eq!(store.read(b"key").unwrap(), b"v3".to_vec());
}

#[test]
fn log_compaction_keeps_the_live_records() {
    // rewrite one key often enough to exhaust the free pages of a small
    // device, forcing compaction; the live records survive
    let mut store = fresh_store(3);
    let mut txn = store.begin_write();
    txn.write(b"stable", b"untouched").unwrap();
    store.commit(txn).unwrap();
    let filler = vec![0x55u8; 500];
    for i in 0..40u8 {
        let mut txn = store.begin_write();
        let mut value = filler.clone();
        value.push(i);
        txn.write(b"churn", &value).unwrap();
        store.commit(txn).unwrap();
    }
    let mut expected = filler.clone();
    expected.push(39);
    assert_eq!(store.read(b"churn").unwrap(), expected);
    assert_eq!(store.read(b"stable").unwrap(), b"untouched".to_vec());
    // and the compacted device remounts to the same state
    let store = reboot(store);
    assert_eq!(store.read(b"churn").unwrap(), expected);
    assert_eq!(store.read(b"stable").unwrap(), b"untouched".to_vec());
}

#[test]
fn power_cut_during_compaction_loses_nothing() {
    let mut store = fresh_store(3);
    let filler = vec![0x66u8; 500];
    // run until close to compaction, then arm a small budget and keep
    // committing until the fault fires
    let mut txn = store.begin_write();
    txn.write(b"keep", b"safe").unwrap();
    store.commit(txn).unwrap();
    let mut last_committed = Vec::new();
    let mut i = 0u8;
    loop {
        store.set_fault_budget(3);
        let mut txn = store.begin_write();
        let mut value = filler.clone();
        value.push(i);
        txn.write(b"churn", &value).unwrap();
        match store.commit(txn) {
            Ok(()) => {
                last_committed = value;
            }
            Err(CommitError::Flash(_)) => break,
            Err(e) => panic!("unexpected commit error: {:?}", e),
        }
        i += 1;
        if i == 60 {
            break;
        }
    }
    let store = reboot(store);
    assert_eq!(store.read(b"keep").unwrap(), b"safe".to_vec());
    if !last_committed.is_empty() {
        assert_eq!(store.read(b"churn").unwrap(), last_committed);
    }
}

#[test]
fn mount_or_format_recovers_a_blank_device() {
    let flash = Flash::new(3);
    let mut store = RecordStore::new(flash);
    if store.mount().is_err() {
        store.format().expect("format after failed mount");
    }
    let mut txn = store.begin_write();
    txn.write(b"boot", b"first").unwrap();
    store.commit(txn).unwrap();
    assert_eq!(store.read(b"boot").unwrap(), b"first".to_vec());
}

#[test]
fn mount_or_format_boots_blank_and_used_devices() {
    // blank device: formats
    let flash = Flash::new(3);
    let mut store = RecordStore::new(flash);
    store.mount_or_format().expect("first boot");
    let mut txn = store.begin_write();
    txn.write(b"key", b"value").unwrap();
    store.commit(txn).unwrap();
    // used device: mounts and keeps the data
    let flash = store.into_flash();
    let mut store = RecordStore::new(flash);
    store.mount_or_format().expect("second boot");
    assert_eq!(store.read(b"key").unwrap(), b"value".to_vec());
}
