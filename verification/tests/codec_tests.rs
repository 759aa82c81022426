use bondstore::peers::{KnownPeers, Peer, MasterId, EncryptionInfo, IdentityKey, Address,
    SysAttrs};
use bondstore::codec::{encode_known_peers, decode_known_peers, MAX_DIR_ENCODING};

fn addr(last: u8) -> Address {
    Address { kind: 0, bytes: [0x10, 0x20, 0x30, 0x40, 0x50, last] }
}

fn peer_with_attrs(last: u8, ediv: u16, attrs: &[u8]) -> Peer {
    Peer {
        master_id: MasterId { ediv, rand: [last, 2, 3, 4, 5, 6, 7, 8] },
        key: EncryptionInfo { ltk: [last; 16], flags: 3 },
        peer_id: IdentityKey { irk: [0xE0; 16], addr: addr(last) },
        sys_attrs: SysAttrs::from_bytes(attrs),
    }
}

fn assert_same_peer(a: &Peer, b: &Peer) {
    assert_eq!(a.master_id.ediv, b.master_id.ediv);
    assert_eq!(a.master_id.rand, b.master_id.rand);
    assert_eq!(a.key.ltk, b.key.ltk);
    assert_eq!(a.key.flags, b.key.flags);
    assert_eq!(a.peer_id.irk, b.peer_id.irk);
    assert_eq!(a.peer_id.addr.kind, b.peer_id.addr.kind);
    assert_eq!(a.peer_id.addr.bytes, b.peer_id.addr.bytes);
    assert_eq!(a.sys_attrs.as_slice(), b.sys_attrs.as_slice());
}

#[test]
fn empty_directory_round_trips() {
    let table = KnownPeers::new();
    let bytes = encode_known_peers(&table);
    assert_eq!(bytes.len(), 4);
    assert_eq!(bytes[0], 3);
    let back = decode_known_peers(&bytes).expect("decode");
    assert_eq!(back.count(), 0);
}

#[test]
fn full_directory_round_trips() {
    // every slot occupied, attribute blobs of every shape
    let mut table = KnownPeers::new();
    let p1 = peer_with_attrs(1, 0x1234, b"");
    let p2 = peer_with_attrs(2, 0xFFFF, &[9u8; 40]);
    let p3 = peer_with_attrs(3, 0, &[0xABu8; 64]);
    table.add(p1.clone());
    table.add(p2.clone());
    table.add(p3.clone());
    let bytes = encode_known_peers(&table);
    assert!(bytes.len() <= MAX_DIR_ENCODING);
    let back = decode_known_peers(&bytes).expect("decode");
    assert_eq!(back.count(), 3);
    assert_same_peer(&back.find_by_address(&addr(1)).unwrap(), &p1);
    assert_same_peer(&back.find_by_address(&addr(2)).unwrap(), &p2);
    assert_same_peer(&back.find_by_address(&addr(3)).unwrap(), &p3);
}

#[test]
fn sparse_directory_round_trips() {
    let mut table = KnownPeers::new();
    let p = peer_with_attrs(7, 77, &[1, 2, 3]);
    table.add(p.clone());
    let bytes = encode_known_peers(&table);
    let back = decode_known_peers(&bytes).expect("decode");
    assert_eq!(back.count(), 1);
    assert_same_peer(&back.find_by_address(&addr(7)).unwrap(), &p);
}

#[test]
fn decode_rejects_truncated_input() {
    let mut table = KnownPeers::new();
    table.add(peer_with_attrs(1, 1, &[5; 10]));
    let bytes = encode_known_peers(&table);
    for cut in 0..bytes.len() {
        assert!(decode_known_peers(&bytes[..cut]).is_err());
    }
}

#[test]
fn decode_rejects_trailing_bytes() {
    let table = KnownPeers::new();
    let mut bytes = encode_known_peers(&table);
    bytes.push(0);
    assert!(decode_known_peers(&bytes).is_err());
}

#[test]
fn decode_rejects_a_bad_slot_tag() {
    let table = KnownPeers::new();
    let mut bytes = encode_known_peers(&table);
    bytes[1] = 2;
    assert!(decode_known_peers(&bytes).is_err());
}

#[test]
fn decode_rejects_a_bad_slot_count() {
    let table = KnownPeers::new();
    let mut bytes = encode_known_peers(&table);
    bytes[0] = 2;
    assert!(decode_known_peers(&bytes).is_err());
}

#[test]
fn decode_rejects_an_oversized_attribute_length() {
    let mut table = KnownPeers::new();
    table.add(peer_with_attrs(1, 1, b""));
    let mut bytes = encode_known_peers(&table);
    // the attribute length byte of the first record sits after the
    // count byte, the tag and the 50-byte fixed head
    bytes[52] = 65;
    assert!(decode_known_peers(&bytes).is_err());
}

#[test]
fn decode_rejects_a_duplicated_address() {
    // two occupied slots with one address cannot come from this store
    let mut table = KnownPeers::new();
    table.add(peer_with_attrs(1, 1, b""));
    let bytes = encode_known_peers(&table);
    let mut doubled = Vec::new();
    doubled.push(3u8);
    // two copies of the same encoded record, then a free slot
    doubled.extend_from_slice(&bytes[1..bytes.len() - 2]);
    doubled.extend_from_slice(&bytes[1..bytes.len() - 2]);
    doubled.push(0);
    assert!(decode_known_peers(&doubled).is_err());
}
