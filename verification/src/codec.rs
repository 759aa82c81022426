//! Fixed-layout binary codec for the bonded-peer directory.
//!
//! A peer record is laid out as: encrypted diversifier (2 bytes, little
//! endian), master-id random value (8), long-term key (16), key flags (1),
//! identity resolution key (16), address type (1), address (6), attribute
//! length (1) and the cached system attributes. The directory is a slot
//! count byte followed by one tag byte per slot (0 free, 1 occupied) and
//! the record after each occupied tag. Decoding validates every bound and
//! consumes the value exactly; encoding a well-formed directory always
//! fits `MAX_DIR_ENCODING` bytes.

use vstd::prelude::*;

use crate::peers::{KnownPeers, MasterId, EncryptionInfo, IdentityKey, Address, SysAttrs, Peer,
    PeerV, MAX_SYS_ATTRS, PEER_CAPACITY, dir_no_dup, addr_eq};

verus! {

/// Fixed part of an encoded peer record, in bytes.
pub const PEER_HEAD: usize = 51;

/// Upper bound on an encoded directory: count byte plus three slots of
/// tag, fixed head and a full attribute blob each.
pub const MAX_DIR_ENCODING: usize = 349;

/// Bytes that decode failed on.
#[derive(Clone, Copy, PartialEq, Eq, Structural, Debug)]
pub enum DecodeError {
    Malformed,
}

pub open spec fn lo8(x: u16) -> u8 {
    (x as int % 256) as u8
}

pub open spec fn hi8(x: u16) -> u8 {
    (x as int / 256) as u8
}

/// The encoding of one peer record.
pub open spec fn enc_peer(p: PeerV) -> Seq<u8> {
    seq![lo8(p.ediv), hi8(p.ediv)] + p.rand + p.ltk + seq![p.flags] + p.irk + seq![p.addr_kind]
        + p.addr + seq![p.attrs.len() as u8] + p.attrs
}

/// The encoding of one directory slot.
pub open spec fn enc_slot(s: Option<PeerV>) -> Seq<u8> {
    match s {
        None => seq![0u8],
        Some(p) => seq![1u8] + enc_peer(p),
    }
}

/// The encodings of a run of slots, in slot order.
pub open spec fn enc_slots(slots: Seq<Option<PeerV>>) -> Seq<u8>
    decreases slots.len(),
{
    if slots.len() == 0 {
        Seq::empty()
    } else {
        enc_slot(slots[0]) + enc_slots(slots.drop_first())
    }
}

/// The encoding of the whole directory.
pub open spec fn enc_dir(slots: Seq<Option<PeerV>>) -> Seq<u8> {
    seq![slots.len() as u8] + enc_slots(slots)
}

/// Decodes one peer record at `off`; gives the record and the offset just
/// past it. Fails on truncated input or an oversized attribute length.
pub open spec fn dec_peer_at(b: Seq<u8>, off: int) -> Option<(PeerV, int)> {
    if off < 0 || off + PEER_HEAD > b.len() {
        None
    } else {
        let al = b[off + 50] as int;
        if al > MAX_SYS_ATTRS || off + PEER_HEAD + al > b.len() {
            None
        } else {
            Some(
                (
                    PeerV {
                        ediv: (b[off] as int + 256 * (b[off + 1] as int)) as u16,
                        rand: b.subrange(off + 2, off + 10),
                        ltk: b.subrange(off + 10, off + 26),
                        flags: b[off + 26],
                        irk: b.subrange(off + 27, off + 43),
                        addr_kind: b[off + 43],
                        addr: b.subrange(off + 44, off + 50),
                        attrs: b.subrange(off + 51, off + 51 + al),
                    },
                    off + PEER_HEAD + al,
                ),
            )
        }
    }
}

/// Decodes `n` slots starting at `off`.
pub open spec fn dec_slots(b: Seq<u8>, off: int, n: nat) -> Option<(Seq<Option<PeerV>>, int)>
    decreases n,
{
    if n == 0 {
        Some((Seq::empty(), off))
    } else if off < 0 || off >= b.len() {
        None
    } else if b[off] == 0u8 {
        match dec_slots(b, off + 1, (n - 1) as nat) {
            Some((rest, end)) => Some((seq![None::<PeerV>] + rest, end)),
            None => None,
        }
    } else if b[off] == 1u8 {
        match dec_peer_at(b, off + 1) {
            Some((p, mid)) => match dec_slots(b, mid, (n - 1) as nat) {
                Some((rest, end)) => Some((seq![Some(p)] + rest, end)),
                None => None,
            },
            None => None,
        }
    } else {
        None
    }
}

/// Decodes a whole directory: the slot count must be the table capacity
/// and the bytes must be consumed exactly.
pub open spec fn dec_dir(b: Seq<u8>) -> Option<Seq<Option<PeerV>>> {
    if b.len() < 1 || b[0] != PEER_CAPACITY as u8 {
        None
    } else {
        match dec_slots(b, 1, PEER_CAPACITY as nat) {
            Some((slots, end)) => if end == b.len() {
                Some(slots)
            } else {
                None
            },
            None => None,
        }
    }
}

/// Well-formed directory image: fixed slot count, well-formed records.
pub open spec fn dir_wf(slots: Seq<Option<PeerV>>) -> bool {
    &&& slots.len() == PEER_CAPACITY
    &&& forall|i: int| 0 <= i < slots.len() ==> ((#[trigger] slots[i]) matches Some(p) ==> p.wf())
}

proof fn lemma_enc_peer_len(p: PeerV)
    requires
        p.wf(),
    ensures
        enc_peer(p).len() == PEER_HEAD + p.attrs.len(),
{
}

/// A record decodes back from anywhere its encoding is embedded.
proof fn lemma_peer_round_trip_at(b: Seq<u8>, off: int, p: PeerV)
    requires
        p.wf(),
        0 <= off,
        off + enc_peer(p).len() <= b.len(),
        b.subrange(off, off + enc_peer(p).len() as int) == enc_peer(p),
    ensures
        dec_peer_at(b, off) == Some((p, off + enc_peer(p).len())),
{
    let e = enc_peer(p);
    lemma_enc_peer_len(p);
    let al = p.attrs.len() as int;
    assert forall|i: int| 0 <= i < e.len() implies b[off + i] == e[i] by {
        assert(b.subrange(off, off + e.len() as int)[i] == b[off + i]);
    }
    assert(e[50] == p.attrs.len() as u8);
    assert(b[off + 50] as int == al);
    let q = dec_peer_at(b, off)->Some_0.0;
    assert(q.ediv == p.ediv) by {
        assert(e[0] == lo8(p.ediv) && e[1] == hi8(p.ediv));
        assert(p.ediv as int == 256 * (p.ediv as int / 256) + p.ediv as int % 256);
    }
    assert(q.rand =~= p.rand) by {
        assert forall|i: int| 0 <= i < 8 implies q.rand[i] == p.rand[i] by {
            assert(b[off + 2 + i] == e[2 + i]);
            assert(e[2 + i] == p.rand[i]);
        }
    }
    assert(q.ltk =~= p.ltk) by {
        assert forall|i: int| 0 <= i < 16 implies q.ltk[i] == p.ltk[i] by {
            assert(b[off + 10 + i] == e[10 + i]);
            assert(e[10 + i] == p.ltk[i]);
        }
    }
    assert(q.flags == p.flags) by {
        assert(e[26] == p.flags);
    }
    assert(q.irk =~= p.irk) by {
        assert forall|i: int| 0 <= i < 16 implies q.irk[i] == p.irk[i] by {
            assert(b[off + 27 + i] == e[27 + i]);
            assert(e[27 + i] == p.irk[i]);
        }
    }
    assert(q.addr_kind == p.addr_kind) by {
        assert(e[43] == p.addr_kind);
    }
    assert(q.addr =~= p.addr) by {
        assert forall|i: int| 0 <= i < 6 implies q.addr[i] == p.addr[i] by {
            assert(b[off + 44 + i] == e[44 + i]);
            assert(e[44 + i] == p.addr[i]);
        }
    }
    assert(q.attrs =~= p.attrs) by {
        assert forall|i: int| 0 <= i < al implies q.attrs[i] == p.attrs[i] by {
            assert(b[off + 51 + i] == e[51 + i]);
            assert(e[51 + i] == p.attrs[i]);
        }
    }
}

/// A run of slots decodes back from anywhere its encoding is embedded.
proof fn lemma_slots_round_trip_at(b: Seq<u8>, off: int, slots: Seq<Option<PeerV>>)
    requires
        forall|i: int| 0 <= i < slots.len() ==> ((#[trigger] slots[i]) matches Some(p) ==> p.wf()),
        0 <= off,
        off + enc_slots(slots).len() <= b.len(),
        b.subrange(off, off + enc_slots(slots).len() as int) == enc_slots(slots),
    ensures
        dec_slots(b, off, slots.len()) == Some((slots, off + enc_slots(slots).len())),
    decreases slots.len(),
{
    if slots.len() == 0 {
        assert(dec_slots(b, off, 0) == Some((Seq::<Option<PeerV>>::empty(), off)));
        assert(slots =~= Seq::<Option<PeerV>>::empty());
    } else {
        let s0 = slots[0];
        let rest = slots.drop_first();
        let e0 = enc_slot(s0);
        let erest = enc_slots(rest);
        let e = enc_slots(slots);
        assert(e == e0 + erest);
        assert forall|i: int| 0 <= i < e.len() implies b[off + i] == e[i] by {
            assert(b.subrange(off, off + e.len() as int)[i] == b[off + i]);
        }
        match s0 {
            None => {
                assert(b[off] == 0u8) by {
                    assert(e[0] == 0u8);
                }
                assert(b.subrange(off + 1, off + 1 + erest.len() as int) =~= erest) by {
                    assert forall|i: int| 0 <= i < erest.len() implies b[off + 1 + i] == erest[i] by {
                        assert(e[1 + i] == erest[i]);
                    }
                }
                lemma_slots_round_trip_at(b, off + 1, rest);
                assert(seq![None::<PeerV>] + rest =~= slots);
            },
            Some(p) => {
                assert(b[off] == 1u8) by {
                    assert(e[0] == 1u8);
                }
                let ep = enc_peer(p);
                assert(p.wf());
                assert(b.subrange(off + 1, off + 1 + ep.len() as int) =~= ep) by {
                    assert forall|i: int| 0 <= i < ep.len() implies b[off + 1 + i] == ep[i] by {
                        assert(e0[1 + i] == ep[i]);
                        assert(e[1 + i] == e0[1 + i]);
                    }
                }
                lemma_peer_round_trip_at(b, off + 1, p);
                let mid = off + 1 + ep.len();
                assert(b.subrange(mid, mid + erest.len() as int) =~= erest) by {
                    assert forall|i: int| 0 <= i < erest.len() implies b[mid + i] == erest[i] by {
                        assert(e[1 + ep.len() + i] == erest[i]);
                    }
                }
                lemma_slots_round_trip_at(b, mid, rest);
                assert(seq![Some(p)] + rest =~= slots);
            },
        }
    }
}

/// Law: decoding an encoded directory gives the directory back, for every
/// well-formed directory image.
pub proof fn lemma_dir_round_trip(slots: Seq<Option<PeerV>>)
    requires
        dir_wf(slots),
    ensures
        dec_dir(enc_dir(slots)) == Some(slots),
{
    let b = enc_dir(slots);
    let es = enc_slots(slots);
    assert(b[0] == PEER_CAPACITY as u8);
    assert(b.subrange(1, 1 + es.len() as int) =~= es) by {
        assert forall|i: int| 0 <= i < es.len() implies b[1 + i] == es[i] by {
        }
    }
    lemma_slots_round_trip_at(b, 1, slots);
}

/// Every well-formed directory encodes within the fixed bound.
pub proof fn lemma_enc_dir_len(slots: Seq<Option<PeerV>>)
    requires
        dir_wf(slots),
    ensures
        enc_dir(slots).len() <= MAX_DIR_ENCODING,
{
    lemma_enc_slots_len(slots);
}

proof fn lemma_enc_slots_len(slots: Seq<Option<PeerV>>)
    requires
        forall|i: int| 0 <= i < slots.len() ==> ((#[trigger] slots[i]) matches Some(p) ==> p.wf()),
    ensures
        enc_slots(slots).len() <= slots.len() * (1 + PEER_HEAD + MAX_SYS_ATTRS),
    decreases slots.len(),
{
    if slots.len() > 0 {
        lemma_enc_slots_len(slots.drop_first());
        match slots[0] {
            None => {},
            Some(p) => {
                lemma_enc_peer_len(p);
            },
        }
        assert(slots.drop_first().len() * (1 + PEER_HEAD + MAX_SYS_ATTRS) + (1 + PEER_HEAD
            + MAX_SYS_ATTRS) == slots.len() * (1 + PEER_HEAD + MAX_SYS_ATTRS)) by (nonlinear_arith)
            requires
                slots.len() >= 1,
                slots.drop_first().len() == slots.len() - 1,
        ;
    }
}

/// Appends a byte run to the output buffer.
fn push_bytes(out: &mut Vec<u8>, b: &[u8])
    ensures
        final(out)@ == old(out)@ + b@,
{
    let mut i: usize = 0;
    while i < b.len()
        invariant
            i <= b@.len(),
            out@ == old(out)@ + b@.subrange(0, i as int),
        decreases b@.len() - i,
    {
        out.push(b[i]);
        proof {
            assert(old(out)@ + b@.subrange(0, i + 1 as int) =~= (old(out)@ + b@.subrange(
                0,
                i as int,
            )).push(b@[i as int]));
        }
        i = i + 1;
    }
    proof {
        assert(b@.subrange(0, b@.len() as int) =~= b@);
    }
}

/// Appends the encoding of one peer record.
fn encode_peer_into(out: &mut Vec<u8>, p: &Peer)
    requires
        p.wf(),
    ensures
        final(out)@ == old(out)@ + enc_peer(p@),
{
    let ghost base = out@;
    out.push((p.master_id.ediv % 256) as u8);
    out.push((p.master_id.ediv / 256) as u8);
    push_bytes(out, p.master_id.rand.as_slice());
    push_bytes(out, p.key.ltk.as_slice());
    out.push(p.key.flags);
    push_bytes(out, p.peer_id.irk.as_slice());
    out.push(p.peer_id.addr.kind);
    push_bytes(out, p.peer_id.addr.bytes.as_slice());
    let attrs = p.sys_attrs.as_slice();
    out.push(attrs.len() as u8);
    push_bytes(out, attrs);
    proof {
        assert(out@ =~= base + enc_peer(p@));
    }
}

/// Encodes the whole directory; a well-formed directory always fits the
/// fixed bound, so this cannot fail.
pub fn encode_known_peers(kp: &KnownPeers) -> (r: Vec<u8>)
    requires
        kp.wf(),
    ensures
        r@ == enc_dir(kp@),
        r@.len() <= MAX_DIR_ENCODING,
{
    let mut out: Vec<u8> = Vec::new();
    out.push(PEER_CAPACITY as u8);
    proof {
        assert(out@ =~= seq![PEER_CAPACITY as u8] + enc_slots(kp@.subrange(0, 0)));
        assert(enc_slots(kp@.subrange(0, 0)) =~= Seq::<u8>::empty());
    }
    let mut i: usize = 0;
    while i < PEER_CAPACITY
        invariant
            i <= PEER_CAPACITY,
            kp.wf(),
            out@ == seq![PEER_CAPACITY as u8] + enc_slots(kp@.subrange(0, i as int)),
        decreases PEER_CAPACITY - i,
    {
        let ghost pre = out@;
        match kp.get_slot(i) {
            Some(p) => {
                out.push(1u8);
                encode_peer_into(&mut out, &p);
                proof {
                    assert(out@ =~= pre + enc_slot(kp@[i as int]));
                }
            },
            None => {
                out.push(0u8);
                proof {
                    assert(out@ =~= pre + enc_slot(kp@[i as int]));
                }
            },
        }
        proof {
            lemma_enc_slots_push(kp@.subrange(0, i as int), kp@[i as int]);
            assert(kp@.subrange(0, i as int).push(kp@[i as int]) =~= kp@.subrange(0, i + 1 as int));
            assert(out@ =~= seq![PEER_CAPACITY as u8] + enc_slots(kp@.subrange(0, i + 1 as int)));
        }
        i = i + 1;
    }
    proof {
        assert(kp@.subrange(0, PEER_CAPACITY as int) =~= kp@);
        lemma_enc_dir_len(kp@);
    }
    out
}

proof fn lemma_enc_slots_push(slots: Seq<Option<PeerV>>, s: Option<PeerV>)
    ensures
        enc_slots(slots.push(s)) == enc_slots(slots) + enc_slot(s),
    decreases slots.len(),
{
    if slots.len() == 0 {
        assert(slots.push(s).drop_first() =~= Seq::<Option<PeerV>>::empty());
        assert(slots.push(s)[0] == s);
        assert(enc_slots(slots.push(s)) == enc_slot(s) + enc_slots(slots.push(s).drop_first()));
        assert(enc_slot(s) + Seq::<u8>::empty() =~= enc_slot(s));
        assert(enc_slots(slots) + enc_slot(s) =~= enc_slot(s));
    } else {
        assert(slots.push(s).drop_first() =~= slots.drop_first().push(s));
        lemma_enc_slots_push(slots.drop_first(), s);
        assert(enc_slots(slots.push(s)) == enc_slot(slots[0]) + (enc_slots(slots.drop_first())
            + enc_slot(s)));
        assert(enc_slot(slots[0]) + (enc_slots(slots.drop_first()) + enc_slot(s)) =~= (enc_slot(
            slots[0],
        ) + enc_slots(slots.drop_first())) + enc_slot(s));
    }
}

/// Decodes one peer record at `off`; gives the record and the offset just
/// past it.
fn decode_peer_at(b: &[u8], off: usize) -> (r: Result<(Peer, usize), DecodeError>)
    ensures
        match r {
            Ok((p, n)) => dec_peer_at(b@, off as int) == Some((p@, n as int)) && p.wf() && off < n
                <= b@.len(),
            Err(_) => dec_peer_at(b@, off as int) is None,
        },
{
    if off > b.len() || b.len() - off < PEER_HEAD {
        return Err(DecodeError::Malformed);
    }
    let al = b[off + 50] as usize;
    if al > MAX_SYS_ATTRS || b.len() - off - PEER_HEAD < al {
        return Err(DecodeError::Malformed);
    }
    let ediv: u16 = b[off] as u16 + 256 * (b[off + 1] as u16);
    let rand: [u8; 8] = [
        b[off + 2],
        b[off + 3],
        b[off + 4],
        b[off + 5],
        b[off + 6],
        b[off + 7],
        b[off + 8],
        b[off + 9],
    ];
    let ltk: [u8; 16] = [
        b[off + 10],
        b[off + 11],
        b[off + 12],
        b[off + 13],
        b[off + 14],
        b[off + 15],
        b[off + 16],
        b[off + 17],
        b[off + 18],
        b[off + 19],
        b[off + 20],
        b[off + 21],
        b[off + 22],
        b[off + 23],
        b[off + 24],
        b[off + 25],
    ];
    let flags = b[off + 26];
    let irk: [u8; 16] = [
        b[off + 27],
        b[off + 28],
        b[off + 29],
        b[off + 30],
        b[off + 31],
        b[off + 32],
        b[off + 33],
        b[off + 34],
        b[off + 35],
        b[off + 36],
        b[off + 37],
        b[off + 38],
        b[off + 39],
        b[off + 40],
        b[off + 41],
        b[off + 42],
    ];
    let addr_kind = b[off + 43];
    let addr: [u8; 6] = [b[off + 44], b[off + 45], b[off + 46], b[off + 47], b[off + 48], b[off
        + 49]];
    let mut attrs: Vec<u8> = Vec::new();
    let mut i: usize = 0;
    while i < al
        invariant
            i <= al,
            off + PEER_HEAD + al <= b@.len(),
            b@.len() <= usize::MAX,
            attrs@ == b@.subrange(off + 51, off + 51 + i as int),
        decreases al - i,
    {
        attrs.push(b[off + 51 + i]);
        proof {
            assert(attrs@ =~= b@.subrange(off + 51, off + 51 + (i + 1) as int));
        }
        i = i + 1;
    }
    let p = Peer {
        master_id: MasterId { ediv, rand },
        key: EncryptionInfo { ltk, flags },
        peer_id: IdentityKey { irk, addr: Address { kind: addr_kind, bytes: addr } },
        sys_attrs: SysAttrs::from_bytes(attrs.as_slice()),
    };
    let n = off + PEER_HEAD + al;
    proof {
        let q = dec_peer_at(b@, off as int)->Some_0.0;
        assert(p@.rand =~= q.rand);
        assert(p@.ltk =~= q.ltk);
        assert(p@.irk =~= q.irk);
        assert(p@.addr =~= q.addr);
        assert(p@.attrs =~= q.attrs);
        assert(p@.ediv == q.ediv);
    }
    Ok((p, n))
}

/// A decoded slot as a ghost value.
pub open spec fn slot_view(s: Option<Peer>) -> Option<PeerV> {
    match s {
        Some(p) => Some(p@),
        None => None,
    }
}

/// One slot of the spec decoder: tag byte and, when occupied, the record.
pub open spec fn dec_slot_spec(b: Seq<u8>, off: int) -> Option<(Option<PeerV>, int)> {
    if off < 0 || off >= b.len() {
        None
    } else if b[off] == 0u8 {
        Some((None, off + 1))
    } else if b[off] == 1u8 {
        match dec_peer_at(b, off + 1) {
            Some((p, n)) => Some((Some(p), n)),
            None => None,
        }
    } else {
        None
    }
}

proof fn lemma_dec_slots_cons(b: Seq<u8>, off: int, n: nat)
    requires
        n > 0,
    ensures
        dec_slots(b, off, n) == match dec_slot_spec(b, off) {
            Some((s, mid)) => match dec_slots(b, mid, (n - 1) as nat) {
                Some((rest, end)) => Some((seq![s] + rest, end)),
                None => None::<(Seq<Option<PeerV>>, int)>,
            },
            None => None::<(Seq<Option<PeerV>>, int)>,
        },
{
}

/// Decodes one directory slot at `off`.
fn decode_slot_at(b: &[u8], off: usize) -> (r: Result<(Option<Peer>, usize), DecodeError>)
    ensures
        match r {
            Ok((s, n)) => dec_slot_spec(b@, off as int) == Some((slot_view(s), n as int)) && off
                < n <= b@.len() && (s matches Some(p) ==> p.wf()),
            Err(_) => dec_slot_spec(b@, off as int) is None,
        },
{
    if off >= b.len() {
        return Err(DecodeError::Malformed);
    }
    let tag = b[off];
    if tag == 0u8 {
        Ok((None, off + 1))
    } else if tag == 1u8 {
        match decode_peer_at(b, off + 1) {
            Ok((p, n)) => Ok((Some(p), n)),
            Err(e) => Err(e),
        }
    } else {
        Err(DecodeError::Malformed)
    }
}

/// Decodes a directory value read back from the store. Rejects, besides
/// any malformed bytes, a directory that holds one address twice: the
/// store only ever writes directories with distinct addresses, so a
/// duplicate means corruption.
pub fn decode_known_peers(b: &[u8]) -> (r: Result<KnownPeers, DecodeError>)
    ensures
        match r {
            Ok(kp) => dec_dir(b@) == Some(kp@) && kp.wf(),
            Err(_) => (dec_dir(b@) matches Some(s) ==> !dir_no_dup(s)),
        },
{
    proof {
        lemma_dec_slots_cons(b@, 1, 3);
    }
    if b.len() < 1 || b[0] != PEER_CAPACITY as u8 {
        return Err(DecodeError::Malformed);
    }
    let (a, off1) = match decode_slot_at(b, 1) {
        Ok(v) => v,
        Err(e) => {
            return Err(e);
        },
    };
    proof {
        lemma_dec_slots_cons(b@, off1 as int, 2);
    }
    let (bb, off2) = match decode_slot_at(b, off1) {
        Ok(v) => v,
        Err(e) => {
            return Err(e);
        },
    };
    proof {
        lemma_dec_slots_cons(b@, off2 as int, 1);
    }
    let (c, off3) = match decode_slot_at(b, off2) {
        Ok(v) => v,
        Err(e) => {
            return Err(e);
        },
    };
    proof {
        assert(dec_slots(b@, off3 as int, 0) == Some((Seq::<Option<PeerV>>::empty(), off3 as int)));
        assert(seq![slot_view(c)] + Seq::<Option<PeerV>>::empty() =~= seq![slot_view(c)]);
        assert(seq![slot_view(bb)] + seq![slot_view(c)] =~= seq![slot_view(bb), slot_view(c)]);
        assert(seq![slot_view(a)] + seq![slot_view(bb), slot_view(c)] =~= seq![
            slot_view(a),
            slot_view(bb),
            slot_view(c),
        ]);
        assert(dec_slots(b@, 1, 3) == Some(
            (seq![slot_view(a), slot_view(bb), slot_view(c)], off3 as int),
        ));
    }
    if off3 != b.len() {
        return Err(DecodeError::Malformed);
    }
    let dup01 = match (&a, &bb) {
        (Some(p), Some(q)) => p.peer_id.addr.kind == q.peer_id.addr.kind && addr_eq(
            &p.peer_id.addr,
            &q.peer_id.addr,
        ),
        _ => false,
    };
    let dup02 = match (&a, &c) {
        (Some(p), Some(q)) => p.peer_id.addr.kind == q.peer_id.addr.kind && addr_eq(
            &p.peer_id.addr,
            &q.peer_id.addr,
        ),
        _ => false,
    };
    let dup12 = match (&bb, &c) {
        (Some(p), Some(q)) => p.peer_id.addr.kind == q.peer_id.addr.kind && addr_eq(
            &p.peer_id.addr,
            &q.peer_id.addr,
        ),
        _ => false,
    };
    let ghost dv = seq![slot_view(a), slot_view(bb), slot_view(c)];
    if dup01 || dup02 || dup12 {
        proof {
            assert(!dir_no_dup(dv));
        }
        return Err(DecodeError::Malformed);
    }
    proof {
        assert(dir_no_dup(dv)) by {
            assert forall|i: int, j: int|
                0 <= i < j < dv.len() && dv[i] is Some && dv[j] is Some implies !((
                #[trigger] dv[i])->Some_0.addr_kind == (#[trigger] dv[j])->Some_0.addr_kind
                && dv[i]->Some_0.addr == dv[j]->Some_0.addr) by {
                assert(i == 0 || i == 1);
                assert(j == 1 || j == 2);
            }
        }
    }
    let kp = KnownPeers::from_parts(a, bb, c);
    Ok(kp)
}

} // verus!
