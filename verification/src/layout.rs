//! On-flash layout of the record log, and its interpretation.
//!
//! Every committed transaction is one contiguous blob on a page: a header
//! of magic byte, sequence number (8 bytes little endian), payload length
//! (2 bytes) and payload checksum (4 bytes), followed by the payload — a
//! run of records, each a key length byte, a value length (2 bytes), the
//! key and the value. Blobs on a page form a chain from offset zero; the
//! chain ends at the first position that does not start a valid blob. The
//! store writes a blob's payload first and its header last, so a power cut
//! leaves the header byte erased and the torn payload invisible.
//!
//! The meaning of a whole device is `pages_lookup`: for a key, the record
//! with the highest sequence number anywhere on flash wins; within a blob
//! the last record for a key wins. Everything the store promises is stated
//! over this interpretation.

use vstd::prelude::*;

use crate::flash::{PAGE_SIZE, ERASED, range_erased, splice, erased_page};

verus! {

/// First byte of every blob header.
pub const MAGIC: u8 = 0xA5;

/// Size of a blob header, in bytes.
pub const HDR_SIZE: usize = 15;

/// Fixed bytes per record besides key and value.
pub const REC_HDR: usize = 3;

/// Longest accepted key.
pub const MAX_KEY_SIZE: usize = 32;

/// Longest accepted value.
pub const MAX_VALUE_SIZE: usize = 512;

/// Ceiling on the bytes a transaction payload, and all live records
/// together, may take: a full snapshot must always fit one page.
pub const MAX_LIVE: usize = 2048;

/// Little-endian value of a byte run.
pub open spec fn le_val(s: Seq<u8>) -> int
    decreases s.len(),
{
    if s.len() == 0 {
        0
    } else {
        s[0] + 256 * le_val(s.drop_first())
    }
}

/// The `n` little-endian bytes of `x`.
pub open spec fn le_bytes(x: int, n: nat) -> Seq<u8>
    decreases n,
{
    if n == 0 {
        Seq::empty()
    } else {
        seq![(x % 256) as u8] + le_bytes(x / 256, (n - 1) as nat)
    }
}

/// 256 to the `n`.
pub open spec fn pow256(n: nat) -> int
    decreases n,
{
    if n == 0 {
        1
    } else {
        256 * pow256((n - 1) as nat)
    }
}

pub proof fn lemma_le_bytes_len(x: int, n: nat)
    ensures
        le_bytes(x, n).len() == n,
    decreases n,
{
    if n > 0 {
        lemma_le_bytes_len(x / 256, (n - 1) as nat);
    }
}

/// Little-endian round trip: the bytes of `x` read back as `x`.
pub proof fn lemma_le_round_trip(x: int, n: nat)
    requires
        0 <= x < pow256(n),
    ensures
        le_val(le_bytes(x, n)) == x,
    decreases n,
{
    if n > 0 {
        lemma_le_bytes_len(x / 256, (n - 1) as nat);
        assert(0 <= x / 256 && x / 256 < pow256((n - 1) as nat)) by (nonlinear_arith)
            requires
                0 <= x < 256 * pow256((n - 1) as nat),
        ;
        lemma_le_round_trip(x / 256, (n - 1) as nat);
        let s = le_bytes(x, n);
        assert(s.drop_first() =~= le_bytes(x / 256, (n - 1) as nat));
        assert(s[0] == (x % 256) as u8);
        assert(x == 256 * (x / 256) + x % 256);
    }
}

/// A little-endian value is below 256 to the length.
pub proof fn lemma_le_val_bound(s: Seq<u8>)
    ensures
        0 <= le_val(s) < pow256(s.len()),
    decreases s.len(),
{
    if s.len() > 0 {
        lemma_le_val_bound(s.drop_first());
        assert(0 <= s[0] + 256 * le_val(s.drop_first()) && s[0] + 256 * le_val(s.drop_first())
            < 256 * pow256((s.len() - 1) as nat)) by (nonlinear_arith)
            requires
                0 <= s[0] < 256,
                0 <= le_val(s.drop_first()) < pow256((s.len() - 1) as nat),
        ;
    }
}

/// Payload checksum: a 31-multiplier running sum, 32 bits wide.
pub open spec fn checksum_spec(s: Seq<u8>) -> int
    decreases s.len(),
{
    if s.len() == 0 {
        17
    } else {
        (checksum_spec(s.drop_last()) * 31 + s.last()) % 0x1_0000_0000
    }
}

pub proof fn lemma_pow256_vals()
    ensures
        pow256(1) == 0x100,
        pow256(2) == 0x1_0000,
        pow256(4) == 0x1_0000_0000,
        pow256(7) == 0x100_0000_0000_0000,
        pow256(8) == 0x1_0000_0000_0000_0000,
{
    reveal_with_fuel(pow256, 9);
}

pub proof fn lemma_pow256_increases(m: nat, n: nat)
    requires
        m <= n,
    ensures
        pow256(m) <= pow256(n),
    decreases n,
{
    if m < n {
        lemma_pow256_increases(m, (n - 1) as nat);
        lemma_pow256_pos((n - 1) as nat);
        assert(pow256((n - 1) as nat) <= 256 * pow256((n - 1) as nat)) by (nonlinear_arith)
            requires
                pow256((n - 1) as nat) >= 1,
        ;
    }
}

pub proof fn lemma_pow256_pos(n: nat)
    ensures
        pow256(n) >= 1,
    decreases n,
{
    if n > 0 {
        lemma_pow256_pos((n - 1) as nat);
    }
}

/// A two-byte little-endian value, spelled out.
pub proof fn lemma_le_val_2(s: Seq<u8>)
    requires
        s.len() == 2,
    ensures
        le_val(s) == s[0] + 256 * (s[1] as int),
{
    let t = s.drop_first();
    assert(t[0] == s[1]);
    assert(t.drop_first() =~= Seq::<u8>::empty());
    assert(le_val(t.drop_first()) == 0);
    assert(le_val(t) == t[0] + 256 * le_val(t.drop_first()));
    assert(le_val(s) == s[0] + 256 * le_val(t));
}

pub proof fn lemma_enc_recs_snoc(rs: Seq<(Seq<u8>, Seq<u8>)>, r: (Seq<u8>, Seq<u8>))
    ensures
        enc_recs(rs.push(r)) == enc_recs(rs) + enc_rec(r.0, r.1),
    decreases rs.len(),
{
    if rs.len() == 0 {
        assert(rs.push(r)[0] == r);
        assert(rs.push(r).drop_first() =~= Seq::<(Seq<u8>, Seq<u8>)>::empty());
        assert(enc_recs(Seq::<(Seq<u8>, Seq<u8>)>::empty()) == Seq::<u8>::empty());
        assert(rs =~= Seq::<(Seq<u8>, Seq<u8>)>::empty());
        assert(enc_rec(r.0, r.1) + Seq::<u8>::empty() =~= enc_rec(r.0, r.1));
        assert(Seq::<u8>::empty() + enc_rec(r.0, r.1) =~= enc_rec(r.0, r.1));
    } else {
        assert(rs.push(r)[0] == rs[0]);
        assert(rs.push(r).drop_first() =~= rs.drop_first().push(r));
        lemma_enc_recs_snoc(rs.drop_first(), r);
        assert(enc_rec(rs[0].0, rs[0].1) + (enc_recs(rs.drop_first()) + enc_rec(r.0, r.1)) =~= (
        enc_rec(rs[0].0, rs[0].1) + enc_recs(rs.drop_first())) + enc_rec(r.0, r.1));
    }
}

pub proof fn lemma_checksum_bound(s: Seq<u8>)
    ensures
        0 <= checksum_spec(s) < 0x1_0000_0000,
    decreases s.len(),
{
    if s.len() > 0 {
        lemma_checksum_bound(s.drop_last());
    }
}

/// One committed transaction as parsed back from flash.
pub ghost struct BlobV {
    pub seqno: int,
    pub recs: Seq<(Seq<u8>, Seq<u8>)>,
}

/// The encoding of one record.
pub open spec fn enc_rec(k: Seq<u8>, v: Seq<u8>) -> Seq<u8> {
    seq![k.len() as u8] + le_bytes(v.len() as int, 2) + k + v
}

/// The encoding of a run of records.
pub open spec fn enc_recs(rs: Seq<(Seq<u8>, Seq<u8>)>) -> Seq<u8>
    decreases rs.len(),
{
    if rs.len() == 0 {
        Seq::empty()
    } else {
        enc_rec(rs[0].0, rs[0].1) + enc_recs(rs.drop_first())
    }
}

/// A record respects the key and value bounds.
pub open spec fn rec_wf(r: (Seq<u8>, Seq<u8>)) -> bool {
    1 <= r.0.len() <= MAX_KEY_SIZE && r.1.len() <= MAX_VALUE_SIZE
}

pub open spec fn recs_wf(rs: Seq<(Seq<u8>, Seq<u8>)>) -> bool {
    forall|i: int| 0 <= i < rs.len() ==> rec_wf(#[trigger] rs[i])
}

/// Parses a payload into its records; every bound is checked and the
/// payload must be consumed exactly.
pub open spec fn parse_records(p: Seq<u8>) -> Option<Seq<(Seq<u8>, Seq<u8>)>>
    decreases p.len(),
{
    if p.len() == 0 {
        Some(Seq::empty())
    } else if p.len() < REC_HDR {
        None
    } else {
        let kl = p[0] as int;
        let vl = le_val(p.subrange(1, 3));
        if kl < 1 || kl > MAX_KEY_SIZE || vl < 0 || vl > MAX_VALUE_SIZE || REC_HDR + kl + vl
            > p.len() {
            None
        } else {
            let k = p.subrange(REC_HDR as int, REC_HDR + kl);
            let v = p.subrange(REC_HDR + kl, REC_HDR + kl + vl);
            match parse_records(p.skip(REC_HDR + kl + vl)) {
                Some(rest) => Some(seq![(k, v)] + rest),
                None => None,
            }
        }
    }
}

/// The encoding of a whole blob.
pub open spec fn enc_blob(seqno: int, payload: Seq<u8>) -> Seq<u8> {
    seq![MAGIC] + le_bytes(seqno, 8) + le_bytes(payload.len() as int, 2) + le_bytes(
        checksum_spec(payload),
        4,
    ) + payload
}

/// Parses the chain of blobs of one page, from `off`: the blobs in order,
/// and the offset where the chain ends.
pub open spec fn parse_full(page: Seq<u8>, off: int) -> (Seq<BlobV>, int)
    decreases page.len() - off,
{
    if off < 0 || off + HDR_SIZE > page.len() {
        (Seq::empty(), off)
    } else if page[off] != MAGIC {
        (Seq::empty(), off)
    } else {
        let seqno = le_val(page.subrange(off + 1, off + 9));
        let plen = le_val(page.subrange(off + 9, off + 11));
        let ck = le_val(page.subrange(off + 11, off + 15));
        if plen < 0 || off + HDR_SIZE + plen > page.len() {
            (Seq::empty(), off)
        } else {
            let payload = page.subrange(off + HDR_SIZE, off + HDR_SIZE + plen);
            if ck != checksum_spec(payload) {
                (Seq::empty(), off)
            } else {
                match parse_records(payload) {
                    None => (Seq::empty(), off),
                    Some(rs) => {
                        let rest = parse_full(page, off + HDR_SIZE + plen);
                        (seq![BlobV { seqno, recs: rs }] + rest.0, rest.1)
                    },
                }
            }
        }
    }
}

/// The blobs of one page.
pub open spec fn page_blobs(page: Seq<u8>) -> Seq<BlobV> {
    parse_full(page, 0).0
}

/// Where one page's chain ends.
pub open spec fn chain_end(page: Seq<u8>) -> int {
    parse_full(page, 0).1
}

/// The last value a blob's record run gives a key.
pub open spec fn blob_lookup(rs: Seq<(Seq<u8>, Seq<u8>)>, k: Seq<u8>) -> Option<Seq<u8>>
    decreases rs.len(),
{
    if rs.len() == 0 {
        None
    } else if rs.last().0 == k {
        Some(rs.last().1)
    } else {
        blob_lookup(rs.drop_last(), k)
    }
}

/// A candidate answer for a key: the winning sequence number and value.
pub ghost struct Hit {
    pub seqno: int,
    pub val: Seq<u8>,
}

/// Combines two candidates: the higher sequence number wins; on a tie the
/// right (later in scan order) wins.
pub open spec fn combine(a: Option<Hit>, b: Option<Hit>) -> Option<Hit> {
    match b {
        None => a,
        Some(hb) => match a {
            None => b,
            Some(ha) => if hb.seqno >= ha.seqno {
                b
            } else {
                a
            },
        },
    }
}

/// One blob's candidate for a key.
pub open spec fn blob_hit(b: BlobV, k: Seq<u8>) -> Option<Hit> {
    match blob_lookup(b.recs, k) {
        Some(v) => Some(Hit { seqno: b.seqno, val: v }),
        None => None,
    }
}

/// A chain's candidate: later blobs win ties.
pub open spec fn chain_lookup(blobs: Seq<BlobV>, k: Seq<u8>) -> Option<Hit>
    decreases blobs.len(),
{
    if blobs.len() == 0 {
        None
    } else {
        combine(chain_lookup(blobs.drop_last(), k), blob_hit(blobs.last(), k))
    }
}

/// One page's candidate for a key.
pub open spec fn page_hit(page: Seq<u8>, k: Seq<u8>) -> Option<Hit> {
    chain_lookup(page_blobs(page), k)
}

/// The whole device's candidate for a key.
pub open spec fn pages_lookup(pages: Seq<Seq<u8>>, k: Seq<u8>) -> Option<Hit>
    decreases pages.len(),
{
    if pages.len() == 0 {
        None
    } else {
        combine(pages_lookup(pages.drop_last(), k), page_hit(pages.last(), k))
    }
}

/// The committed value of a key: what a mounted store must return.
pub open spec fn flash_lookup(pages: Seq<Seq<u8>>, k: Seq<u8>) -> Option<Seq<u8>> {
    match pages_lookup(pages, k) {
        Some(h) => Some(h.val),
        None => None,
    }
}

/// Every blob of the chain has a sequence number below `n`.
pub open spec fn chain_seqs_below(blobs: Seq<BlobV>, n: int) -> bool {
    forall|j: int| 0 <= j < blobs.len() ==> (#[trigger] blobs[j]).seqno < n
}

/// Every blob anywhere on the device has a sequence number below `n`.
pub open spec fn seqs_below(pages: Seq<Seq<u8>>, n: int) -> bool {
    forall|i: int| 0 <= i < pages.len() ==> chain_seqs_below(page_blobs(#[trigger] pages[i]), n)
}

// ---------------------------------------------------------------------
// Parsing lemmas
// ---------------------------------------------------------------------

/// The chain end never moves backwards.
pub proof fn lemma_parse_end_mono(page: Seq<u8>, off: int)
    ensures
        parse_full(page, off).1 >= off,
        off <= page.len() ==> parse_full(page, off).1 <= page.len(),
    decreases page.len() - off,
{
    if !(off < 0 || off + HDR_SIZE > page.len()) && page[off] == MAGIC {
        let plen = le_val(page.subrange(off + 9, off + 11));
        lemma_le_val_bound(page.subrange(off + 9, off + 11));
        if off + HDR_SIZE + plen <= page.len() {
            let payload = page.subrange(off + HDR_SIZE, off + HDR_SIZE + plen);
            if le_val(page.subrange(off + 11, off + 15)) == checksum_spec(payload)
                && parse_records(payload) is Some {
                lemma_parse_end_mono(page, off + HDR_SIZE + plen);
            }
        }
    }
}

/// Parsing reads only the bytes below the chain end: a page that agrees
/// there parses to the same blobs and then continues from that end on its
/// own bytes.
pub proof fn lemma_parse_compose(p1: Seq<u8>, p2: Seq<u8>, off: int)
    requires
        p1.len() == p2.len(),
        0 <= off,
        forall|i: int| off <= i < parse_full(p1, off).1 ==> p1[i] == p2[i],
    ensures
        parse_full(p2, off).0 == parse_full(p1, off).0 + parse_full(p2, parse_full(p1, off).1).0,
        parse_full(p2, off).1 == parse_full(p2, parse_full(p1, off).1).1,
    decreases p1.len() - off,
{
    let (bs1, e1) = parse_full(p1, off);
    lemma_parse_end_mono(p1, off);
    if off + HDR_SIZE > p1.len() || p1[off] != MAGIC {
        assert(e1 == off);
        assert(bs1 =~= Seq::<BlobV>::empty());
        assert(parse_full(p2, off).0 =~= bs1 + parse_full(p2, e1).0);
    } else {
        let plen = le_val(p1.subrange(off + 9, off + 11));
        lemma_le_val_bound(p1.subrange(off + 9, off + 11));
        if off + HDR_SIZE + plen > p1.len() {
            assert(e1 == off);
            assert(bs1 =~= Seq::<BlobV>::empty());
            assert(parse_full(p2, off).0 =~= bs1 + parse_full(p2, e1).0);
        } else {
            let payload = p1.subrange(off + HDR_SIZE, off + HDR_SIZE + plen);
            let ck = le_val(p1.subrange(off + 11, off + 15));
            if ck != checksum_spec(payload) || parse_records(payload) is None {
                assert(e1 == off);
                assert(bs1 =~= Seq::<BlobV>::empty());
                assert(parse_full(p2, off).0 =~= bs1 + parse_full(p2, e1).0);
            } else {
                let next = off + HDR_SIZE + plen;
                lemma_parse_end_mono(p1, next);
                // the first blob's bytes agree, so p2 parses the same blob
                assert(forall|i: int| off <= i < next ==> p1[i] == p2[i]);
                assert(p2.subrange(off + 1, off + 9) =~= p1.subrange(off + 1, off + 9));
                assert(p2.subrange(off + 9, off + 11) =~= p1.subrange(off + 9, off + 11));
                assert(p2.subrange(off + 11, off + 15) =~= p1.subrange(off + 11, off + 15));
                assert(p2.subrange(off + HDR_SIZE, off + HDR_SIZE + plen) =~= payload);
                lemma_parse_compose(p1, p2, next);
                let rest1 = parse_full(p1, next);
                let b = BlobV {
                    seqno: le_val(p1.subrange(off + 1, off + 9)),
                    recs: parse_records(payload)->Some_0,
                };
                assert(parse_full(p1, off).0 == seq![b] + rest1.0);
                assert(parse_full(p2, off).0 == seq![b] + parse_full(p2, next).0);
                assert(parse_full(p2, next).0 == rest1.0 + parse_full(p2, e1).0);
                assert(seq![b] + (rest1.0 + parse_full(p2, e1).0) =~= (seq![b] + rest1.0)
                    + parse_full(p2, e1).0);
            }
        }
    }
}

/// A run of erased bytes holds no blob.
pub proof fn lemma_parse_erased(page: Seq<u8>, off: int)
    requires
        0 <= off,
        range_erased(page, off, page.len() as int),
    ensures
        parse_full(page, off) == (Seq::<BlobV>::empty(), off),
{
    if off + HDR_SIZE <= page.len() {
        assert(page[off] == ERASED);
    }
    assert(parse_full(page, off).0 =~= Seq::<BlobV>::empty());
}

/// Appending an encoded blob at the chain end of a cleanly terminated page
/// extends the chain by exactly that blob.
pub proof fn lemma_parse_append(
    p1: Seq<u8>,
    p2: Seq<u8>,
    seqno: int,
    payload: Seq<u8>,
    rs: Seq<(Seq<u8>, Seq<u8>)>,
)
    requires
        p1.len() == PAGE_SIZE,
        0 <= chain_end(p1),
        range_erased(p1, chain_end(p1), PAGE_SIZE as int),
        chain_end(p1) + enc_blob(seqno, payload).len() <= PAGE_SIZE,
        p2 == splice(p1, chain_end(p1), enc_blob(seqno, payload)),
        0 <= seqno < pow256(8),
        parse_records(payload) == Some(rs),
        payload.len() < pow256(2),
    ensures
        p2.len() == PAGE_SIZE,
        page_blobs(p2) == page_blobs(p1).push(BlobV { seqno, recs: rs }),
        chain_end(p2) == chain_end(p1) + enc_blob(seqno, payload).len(),
        range_erased(p2, chain_end(p2), PAGE_SIZE as int),
{
    let e = chain_end(p1);
    let blob = enc_blob(seqno, payload);
    let bl = blob.len() as int;
    lemma_pow256_vals();
    lemma_le_bytes_len(seqno, 8);
    lemma_le_bytes_len(payload.len() as int, 2);
    lemma_checksum_bound(payload);
    lemma_le_bytes_len(checksum_spec(payload), 4);
    assert(bl == HDR_SIZE + payload.len());
    assert(p2.len() == PAGE_SIZE);
    lemma_parse_end_mono(p1, 0);
    assert forall|i: int| 0 <= i < e implies p1[i] == #[trigger] p2[i] by {
        assert(p2[i] == p1.subrange(0, e)[i]);
    }
    lemma_parse_compose(p1, p2, 0);
    // the appended bytes are exactly the blob
    assert(p2.subrange(e, e + bl) =~= blob) by {
        assert forall|i: int| 0 <= i < bl implies p2.subrange(e, e + bl)[i] == blob[i] by {
            assert(p2[e + i] == blob[i]);
        }
    }
    let w = p2.subrange(e, e + bl);
    // header fields decode to what was encoded
    assert(p2[e] == MAGIC) by {
        assert(w[0] == blob[0]);
    }
    assert(p2.subrange(e + 1, e + 9) =~= le_bytes(seqno, 8)) by {
        assert forall|i: int| 0 <= i < 8 implies p2.subrange(e + 1, e + 9)[i] == le_bytes(
            seqno,
            8,
        )[i] by {
            assert(p2.subrange(e + 1, e + 9)[i] == w[1 + i]);
            assert(w[1 + i] == blob[1 + i]);
            assert(blob[1 + i] == (le_bytes(seqno, 8) + le_bytes(payload.len() as int, 2)
                + le_bytes(checksum_spec(payload), 4) + payload)[i]);
        }
    }
    lemma_le_round_trip(seqno, 8);
    assert(p2.subrange(e + 9, e + 11) =~= le_bytes(payload.len() as int, 2)) by {
        assert forall|i: int| 0 <= i < 2 implies p2.subrange(e + 9, e + 11)[i] == le_bytes(
            payload.len() as int,
            2,
        )[i] by {
            assert(p2.subrange(e + 9, e + 11)[i] == w[9 + i]);
            assert(w[9 + i] == blob[9 + i]);
        }
    }
    lemma_le_round_trip(payload.len() as int, 2);
    assert(p2.subrange(e + 11, e + 15) =~= le_bytes(checksum_spec(payload), 4)) by {
        assert forall|i: int| 0 <= i < 4 implies p2.subrange(e + 11, e + 15)[i] == le_bytes(
            checksum_spec(payload),
            4,
        )[i] by {
            assert(p2.subrange(e + 11, e + 15)[i] == w[11 + i]);
            assert(w[11 + i] == blob[11 + i]);
        }
    }
    lemma_le_round_trip(checksum_spec(payload), 4);
    assert(p2.subrange(e + HDR_SIZE, e + HDR_SIZE + payload.len()) =~= payload) by {
        assert forall|i: int|
            0 <= i < payload.len() implies p2.subrange(
            e + HDR_SIZE,
            e + HDR_SIZE + payload.len(),
        )[i] == payload[i] by {
            assert(p2.subrange(e + HDR_SIZE, e + HDR_SIZE + payload.len())[i] == w[15 + i]);
            assert(w[15 + i] == blob[15 + i]);
            assert(blob[15 + i] == payload[i]);
        }
    }
    // beyond the blob the page is still erased
    assert(range_erased(p2, e + bl, PAGE_SIZE as int)) by {
        assert forall|i: int| e + bl <= i < PAGE_SIZE implies #[trigger] p2[i] == ERASED by {
            assert(p2[i] == p1.subrange(e + bl, PAGE_SIZE as int)[i - e - bl]);
            assert(p1[i] == ERASED);
        }
    }
    lemma_parse_erased(p2, e + bl);
    let b = BlobV { seqno, recs: rs };
    assert(parse_full(p2, e).0 =~= seq![b]);
    assert(parse_full(p2, e).1 == e + bl);
    assert(page_blobs(p2) =~= page_blobs(p1).push(b));
}

// ---------------------------------------------------------------------
// Lookup algebra
// ---------------------------------------------------------------------

pub proof fn lemma_combine_assoc(a: Option<Hit>, b: Option<Hit>, c: Option<Hit>)
    ensures
        combine(combine(a, b), c) == combine(a, combine(b, c)),
{
}

/// Splitting the device at one page: the lookup is the combination of the
/// pages before, the page itself, and the pages after.
pub proof fn lemma_pages_split(pages: Seq<Seq<u8>>, i: int, k: Seq<u8>)
    requires
        0 <= i < pages.len(),
    ensures
        pages_lookup(pages, k) == combine(
            combine(pages_lookup(pages.subrange(0, i), k), page_hit(pages[i], k)),
            pages_lookup(pages.subrange(i + 1, pages.len() as int), k),
        ),
    decreases pages.len(),
{
    let n = pages.len() as int;
    if i == n - 1 {
        assert(pages.subrange(i + 1, n) =~= Seq::<Seq<u8>>::empty());
        assert(pages.subrange(0, i) =~= pages.drop_last());
    } else {
        lemma_pages_split(pages.drop_last(), i, k);
        assert(pages.drop_last().subrange(0, i) =~= pages.subrange(0, i));
        assert(pages.drop_last().subrange(i + 1, n - 1) =~= pages.subrange(i + 1, n).drop_last());
        assert(pages.drop_last()[i] == pages[i]);
        let a = pages_lookup(pages.subrange(0, i), k);
        let b = page_hit(pages[i], k);
        let c1 = pages_lookup(pages.subrange(i + 1, n).drop_last(), k);
        let last = page_hit(pages[n - 1], k);
        assert(pages.subrange(i + 1, n).last() == pages[n - 1]);
        assert(pages_lookup(pages.subrange(i + 1, n), k) == combine(c1, last));
        lemma_combine_assoc(combine(a, b), c1, last);
    }
}

/// A lookup never answers with a sequence number at or above the bound.
pub proof fn lemma_chain_seq_bound(blobs: Seq<BlobV>, k: Seq<u8>, n: int)
    requires
        chain_seqs_below(blobs, n),
    ensures
        chain_lookup(blobs, k) matches Some(h) ==> h.seqno < n,
    decreases blobs.len(),
{
    if blobs.len() > 0 {
        assert(chain_seqs_below(blobs.drop_last(), n)) by {
            assert(forall|j: int|
                0 <= j < blobs.len() - 1 ==> blobs.drop_last()[j] == #[trigger] blobs[j]);
        }
        lemma_chain_seq_bound(blobs.drop_last(), k, n);
        assert(blobs.last() == blobs[blobs.len() - 1]);
    }
}

pub proof fn lemma_pages_seq_bound(pages: Seq<Seq<u8>>, k: Seq<u8>, n: int)
    requires
        seqs_below(pages, n),
    ensures
        pages_lookup(pages, k) matches Some(h) ==> h.seqno < n,
    decreases pages.len(),
{
    if pages.len() > 0 {
        assert(seqs_below(pages.drop_last(), n)) by {
            assert(forall|j: int|
                0 <= j < pages.len() - 1 ==> pages.drop_last()[j] == #[trigger] pages[j]);
        }
        lemma_pages_seq_bound(pages.drop_last(), k, n);
        assert(pages.last() == pages[pages.len() - 1]);
        lemma_chain_seq_bound(page_blobs(pages.last()), k, n);
    }
}

/// Dropping a middle candidate that strictly loses to the overall winner
/// leaves the combination unchanged.
pub proof fn lemma_combine_drop_mid(a: Option<Hit>, b: Option<Hit>, c: Option<Hit>)
    requires
        b matches Some(hb) ==> (combine(combine(a, b), c) matches Some(w) && w.seqno > hb.seqno),
    ensures
        combine(a, c) == combine(combine(a, b), c),
{
}

/// When no page answers, the device answers nothing.
pub proof fn lemma_pages_lookup_all_none(pages: Seq<Seq<u8>>, k: Seq<u8>)
    requires
        forall|i: int| 0 <= i < pages.len() ==> page_hit(#[trigger] pages[i], k) is None,
    ensures
        pages_lookup(pages, k) is None,
    decreases pages.len(),
{
    if pages.len() > 0 {
        assert forall|i: int| 0 <= i < pages.len() - 1 implies page_hit(
            #[trigger] pages.drop_last()[i],
            k,
        ) is None by {
            assert(pages.drop_last()[i] == pages[i]);
        }
        lemma_pages_lookup_all_none(pages.drop_last(), k);
        assert(pages.last() == pages[pages.len() - 1]);
    }
}

/// Records that parse respect the bounds.
pub proof fn lemma_parse_records_wf(p: Seq<u8>)
    ensures
        parse_records(p) matches Some(rs) ==> recs_wf(rs),
    decreases p.len(),
{
    if p.len() == 0 {
    } else if p.len() < REC_HDR {
    } else {
        let kl = p[0] as int;
        let vl = le_val(p.subrange(1, 3));
        if !(kl < 1 || kl > MAX_KEY_SIZE || vl < 0 || vl > MAX_VALUE_SIZE || REC_HDR + kl + vl
            > p.len()) {
            lemma_parse_records_wf(p.skip(REC_HDR + kl + vl));
            match parse_records(p.skip(REC_HDR + kl + vl)) {
                None => {},
                Some(rest) => {
                    let k = p.subrange(REC_HDR as int, REC_HDR + kl);
                    let v = p.subrange(REC_HDR + kl, REC_HDR + kl + vl);
                    let rs = seq![(k, v)] + rest;
                    assert forall|i: int| 0 <= i < rs.len() implies rec_wf(#[trigger] rs[i]) by {
                        if i > 0 {
                            assert(rs[i] == rest[i - 1]);
                        }
                    }
                },
            }
        }
    }
}

/// Every blob a page parse yields has records within bounds.
pub proof fn lemma_parse_blobs_wf(page: Seq<u8>, off: int)
    ensures
        forall|j: int|
            0 <= j < parse_full(page, off).0.len() ==> recs_wf(
                (#[trigger] parse_full(page, off).0[j]).recs,
            ),
    decreases page.len() - off,
{
    if off < 0 || off + HDR_SIZE > page.len() || page[off] != MAGIC {
    } else {
        let plen = le_val(page.subrange(off + 9, off + 11));
        if !(plen < 0 || off + HDR_SIZE + plen > page.len()) {
            let payload = page.subrange(off + HDR_SIZE, off + HDR_SIZE + plen);
            let ck = le_val(page.subrange(off + 11, off + 15));
            if ck == checksum_spec(payload) {
                lemma_parse_records_wf(payload);
                match parse_records(payload) {
                    None => {},
                    Some(rs) => {
                        lemma_parse_blobs_wf(page, off + HDR_SIZE + plen);
                        let bs = parse_full(page, off).0;
                        let rest = parse_full(page, off + HDR_SIZE + plen).0;
                        assert forall|j: int| 0 <= j < bs.len() implies recs_wf(
                            (#[trigger] bs[j]).recs,
                        ) by {
                            if j > 0 {
                                assert(bs[j] == rest[j - 1]);
                            }
                        }
                    },
                }
            }
        }
    }
}

/// Encoded records parse back exactly.
pub proof fn lemma_parse_enc_recs(rs: Seq<(Seq<u8>, Seq<u8>)>)
    requires
        recs_wf(rs),
    ensures
        parse_records(enc_recs(rs)) == Some(rs),
    decreases rs.len(),
{
    let p = enc_recs(rs);
    if rs.len() == 0 {
        assert(rs =~= Seq::<(Seq<u8>, Seq<u8>)>::empty());
    } else {
        let k = rs[0].0;
        let v = rs[0].1;
        let e0 = enc_rec(k, v);
        let kl = k.len() as int;
        let vl = v.len() as int;
        lemma_le_bytes_len(vl, 2);
        assert(e0.len() == REC_HDR + kl + vl);
        let rest = enc_recs(rs.drop_first());
        assert(p == e0 + rest);
        assert(p[0] == kl as u8);
        assert(p.subrange(1, 3) =~= le_bytes(vl, 2)) by {
            assert forall|i: int| 0 <= i < 2 implies p.subrange(1, 3)[i] == le_bytes(vl, 2)[i] by {
                assert(p[1 + i] == e0[1 + i]);
                assert(e0[1 + i] == (le_bytes(vl, 2) + k + v)[i]);
            }
        }
        lemma_pow256_vals();
        lemma_le_round_trip(vl, 2);
        assert(p.subrange(REC_HDR as int, REC_HDR + kl) =~= k) by {
            assert forall|i: int| 0 <= i < kl implies p.subrange(REC_HDR as int, REC_HDR + kl)[i]
                == k[i] by {
                assert(p[REC_HDR + i] == e0[REC_HDR + i]);
                assert(e0[REC_HDR + i] == (k + v)[i]);
            }
        }
        assert(p.subrange(REC_HDR + kl, REC_HDR + kl + vl) =~= v) by {
            assert forall|i: int| 0 <= i < vl implies p.subrange(REC_HDR + kl, REC_HDR + kl + vl)[i]
                == v[i] by {
                assert(p[REC_HDR + kl + i] == e0[REC_HDR + kl + i]);
                assert(e0[REC_HDR + kl + i] == v[i]);
            }
        }
        assert(p.skip(REC_HDR + kl + vl) =~= rest) by {
            assert forall|i: int| 0 <= i < rest.len() implies p.skip(REC_HDR + kl + vl)[i]
                == rest[i] by {
                assert(p[REC_HDR + kl + vl + i] == rest[i]);
            }
        }
        assert(recs_wf(rs.drop_first())) by {
            assert(forall|i: int|
                0 <= i < rs.len() - 1 ==> #[trigger] rs.drop_first()[i] == rs[i + 1]);
        }
        lemma_parse_enc_recs(rs.drop_first());
        assert(seq![(k, v)] + rs.drop_first() =~= rs);
    }
}

/// An erased page holds no blobs and its chain ends at zero.
pub proof fn lemma_erased_page_blobs()
    ensures
        page_blobs(erased_page()) == Seq::<BlobV>::empty(),
        chain_end(erased_page()) == 0,
        range_erased(erased_page(), 0, PAGE_SIZE as int),
{
    assert(range_erased(erased_page(), 0, PAGE_SIZE as int));
    lemma_parse_erased(erased_page(), 0);
}

/// Appending a blob whose sequence number beats everything on the device:
/// the new lookup is the old one overridden by the blob.
pub proof fn lemma_lookup_after_append(
    pages: Seq<Seq<u8>>,
    pages2: Seq<Seq<u8>>,
    i: int,
    b: BlobV,
    n: int,
    k: Seq<u8>,
)
    requires
        0 <= i < pages.len(),
        pages2.len() == pages.len(),
        forall|j: int| 0 <= j < pages.len() && j != i ==> #[trigger] pages2[j] == pages[j],
        page_blobs(pages2[i]) == page_blobs(pages[i]).push(b),
        seqs_below(pages, n),
        b.seqno >= n,
    ensures
        pages_lookup(pages2, k) == combine(pages_lookup(pages, k), blob_hit(b, k)),
{
    lemma_pages_split(pages, i, k);
    lemma_pages_split(pages2, i, k);
    let pre = pages.subrange(0, i);
    let post = pages.subrange(i + 1, pages.len() as int);
    assert(pages2.subrange(0, i) =~= pre);
    assert(pages2.subrange(i + 1, pages2.len() as int) =~= post);
    let blobs = page_blobs(pages[i]);
    assert(page_blobs(pages2[i]).drop_last() =~= blobs);
    assert(page_blobs(pages2[i]).last() == b);
    assert(page_hit(pages2[i], k) == combine(page_hit(pages[i], k), blob_hit(b, k)));
    let a = pages_lookup(pre, k);
    let h = page_hit(pages[i], k);
    let c = pages_lookup(post, k);
    let bh = blob_hit(b, k);
    assert(seqs_below(pre, n)) by {
        assert(forall|j: int| 0 <= j < pre.len() ==> #[trigger] pre[j] == pages[j]);
    }
    assert(seqs_below(post, n)) by {
        assert(forall|j: int| 0 <= j < post.len() ==> #[trigger] post[j] == pages[i + 1 + j]);
    }
    lemma_pages_seq_bound(pre, k, n);
    lemma_pages_seq_bound(post, k, n);
    lemma_chain_seq_bound(blobs, k, n);
    lemma_combine_assoc(a, h, c);
    lemma_combine_assoc(a, combine(h, bh), c);
}

/// Erasing a page whose every answer strictly loses to the device-wide
/// winner leaves the lookup unchanged.
pub proof fn lemma_lookup_after_drop(pages: Seq<Seq<u8>>, pages2: Seq<Seq<u8>>, i: int, k: Seq<u8>)
    requires
        0 <= i < pages.len(),
        pages2.len() == pages.len(),
        forall|j: int| 0 <= j < pages.len() && j != i ==> #[trigger] pages2[j] == pages[j],
        page_hit(pages2[i], k) is None,
        page_hit(pages[i], k) matches Some(h) ==> (pages_lookup(pages, k) matches Some(w)
            && w.seqno > h.seqno),
    ensures
        pages_lookup(pages2, k) == pages_lookup(pages, k),
{
    lemma_pages_split(pages, i, k);
    lemma_pages_split(pages2, i, k);
    let pre = pages.subrange(0, i);
    let post = pages.subrange(i + 1, pages.len() as int);
    assert(pages2.subrange(0, i) =~= pre);
    assert(pages2.subrange(i + 1, pages2.len() as int) =~= post);
    let a = pages_lookup(pre, k);
    let h = page_hit(pages[i], k);
    let c = pages_lookup(post, k);
    lemma_combine_drop_mid(a, h, c);
}

} // verus!
