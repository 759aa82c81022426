//! The log-structured record store over the simulated flash.
//!
//! The store keeps an in-memory index of live records and appends each
//! committed transaction as one checksummed blob to a page with room,
//! payload first and header last, so a power cut never leaves a partially
//! visible transaction. When pages run low it compacts: a snapshot of
//! every live record goes to an erased page under a fresh sequence number,
//! then the superseded pages are erased. Mounting rescans the whole device
//! and rebuilds the index; torn or foreign bytes end a page's chain and
//! are ignored.

use vstd::prelude::*;

use crate::flash::{Flash, FlashError, PAGE_SIZE, ERASED, range_erased, splice, erased_page};
use crate::layout::{MAGIC, HDR_SIZE, REC_HDR, MAX_KEY_SIZE, MAX_VALUE_SIZE, MAX_LIVE, le_val,
    le_bytes, pow256, checksum_spec, BlobV, enc_rec, enc_recs, rec_wf, recs_wf, parse_records,
    enc_blob, parse_full, page_blobs, chain_end, blob_lookup, Hit, combine, blob_hit,
    chain_lookup, page_hit, pages_lookup, flash_lookup, chain_seqs_below, seqs_below,
    lemma_le_bytes_len, lemma_le_val_bound, lemma_pow256_vals, lemma_pow256_increases,
    lemma_pow256_pos, lemma_checksum_bound, lemma_le_val_2, lemma_enc_recs_snoc,
    lemma_parse_records_wf, lemma_parse_enc_recs, lemma_parse_end_mono, lemma_parse_compose,
    lemma_parse_append, lemma_erased_page_blobs, lemma_pages_split, lemma_chain_seq_bound,
    lemma_pages_seq_bound, lemma_pages_lookup_all_none, lemma_lookup_after_append,
    lemma_lookup_after_drop};
use crate::index::{Entry, EntryV, entries_view, index_hit, index_unique, index_recs_wf,
    live_size, apply_recs, apply_chain, build_index, lemma_apply_recs_hit,
    lemma_build_index_hit, lemma_apply_rec_wf, lemma_apply_rec_found, lemma_apply_rec_absent,
    lemma_apply_recs_snoc, lemma_apply_chain_snoc, lemma_build_index_snoc, entries_recs,
    recs_size, lemma_enc_recs_len, lemma_entries_recs_size, lemma_live_size_prefix, same_kv,
    seqs_at_most, lemma_live_size_same_kv, lemma_apply_recs_parallel, lemma_apply_own,
    lemma_blob_lookup_entries, lemma_index_hit_first, lemma_apply_recs_live_bound};

verus! {

/// A read that found nothing: the key has never been committed.
#[derive(Clone, Copy, PartialEq, Eq, Structural, Debug)]
pub enum ReadError {
    KeyNotFound,
}

/// A record refused while staging.
#[derive(Clone, Copy, PartialEq, Eq, Structural, Debug)]
pub enum WriteError {
    InvalidKey,
    ValueTooLarge,
}

/// A commit that did not become durable.
#[derive(Clone, Copy, PartialEq, Eq, Structural, Debug)]
pub enum CommitError {
    CapacityExceeded,
    SequenceExhausted,
    Flash(FlashError),
}

/// A mount that found no usable layout.
#[derive(Clone, Copy, PartialEq, Eq, Structural, Debug)]
pub enum MountError {
    NotFormatted,
    Corrupted,
}

/// A format interrupted by the injected fault.
#[derive(Clone, Copy, PartialEq, Eq, Structural, Debug)]
pub enum FormatError {
    Flash(FlashError),
}

/// The records of a staged transaction, as ghost data.
pub open spec fn recs_view(s: Seq<(Vec<u8>, Vec<u8>)>) -> Seq<(Seq<u8>, Seq<u8>)> {
    Seq::new(s.len(), |i: int| (s[i].0@, s[i].1@))
}

/// A buffered write transaction: staged records, applied atomically by
/// `RecordStore::commit`. A key staged twice keeps its later value.
pub struct Transaction {
    staged: Vec<(Vec<u8>, Vec<u8>)>,
}

impl View for Transaction {
    type V = Seq<(Seq<u8>, Seq<u8>)>;

    closed spec fn view(&self) -> Seq<(Seq<u8>, Seq<u8>)> {
        recs_view(self.staged@)
    }
}

impl Transaction {
    pub open spec fn wf(&self) -> bool {
        recs_wf(self@)
    }

    /// Stages one record. Fails on an empty or oversized key, or a value
    /// over the maximum value size; the transaction is then unchanged.
    pub fn write(&mut self, key: &[u8], bytes: &[u8]) -> (r: Result<(), WriteError>)
        ensures
            r is Ok <==> (1 <= key@.len() <= MAX_KEY_SIZE && bytes@.len() <= MAX_VALUE_SIZE),
            r == Err::<(), WriteError>(WriteError::InvalidKey) <==> !(1 <= key@.len()
                <= MAX_KEY_SIZE),
            r == Err::<(), WriteError>(WriteError::ValueTooLarge) <==> (1 <= key@.len()
                <= MAX_KEY_SIZE && bytes@.len() > MAX_VALUE_SIZE),
            r is Ok ==> final(self)@ == old(self)@.push((key@, bytes@)),
            r is Err ==> final(self)@ == old(self)@,
            old(self).wf() ==> final(self).wf(),
    {
        if key.len() < 1 || key.len() > MAX_KEY_SIZE {
            return Err(WriteError::InvalidKey);
        }
        if bytes.len() > MAX_VALUE_SIZE {
            return Err(WriteError::ValueTooLarge);
        }
        let ghost pre = self@;
        self.staged.push((vec_from_slice(key), vec_from_slice(bytes)));
        proof {
            assert(self@ =~= pre.push((key@, bytes@)));
            if recs_wf(pre) {
                assert forall|i: int| 0 <= i < self@.len() implies rec_wf(#[trigger] self@[i]) by {
                    if i < pre.len() {
                        assert(self@[i] == pre[i]);
                    }
                }
            }
        }
        Ok(())
    }

    /// Number of staged records.
    pub fn len(&self) -> (r: usize)
        ensures
            r == self@.len(),
    {
        self.staged.len()
    }
}

// ---------------------------------------------------------------------
// Byte helpers
// ---------------------------------------------------------------------

/// Copies a slice into a fresh vector.
fn vec_from_slice(b: &[u8]) -> (r: Vec<u8>)
    ensures
        r@ == b@,
{
    let mut out: Vec<u8> = Vec::new();
    let mut i: usize = 0;
    while i < b.len()
        invariant
            i <= b@.len(),
            out@ == b@.subrange(0, i as int),
        decreases b@.len() - i,
    {
        out.push(b[i]);
        proof {
            assert(out@ =~= b@.subrange(0, i + 1 as int));
        }
        i = i + 1;
    }
    proof {
        assert(b@.subrange(0, b@.len() as int) =~= b@);
    }
    out
}

/// Copies the byte range `[a, c)` of a slice.
fn copy_range(b: &[u8], a: usize, c: usize) -> (r: Vec<u8>)
    requires
        a <= c <= b@.len(),
    ensures
        r@ == b@.subrange(a as int, c as int),
{
    let mut out: Vec<u8> = Vec::new();
    let mut i: usize = a;
    while i < c
        invariant
            a <= i <= c <= b@.len(),
            out@ == b@.subrange(a as int, i as int),
        decreases c - i,
    {
        out.push(b[i]);
        proof {
            assert(out@ =~= b@.subrange(a as int, i + 1 as int));
        }
        i = i + 1;
    }
    out
}

/// Appends a byte run to the output buffer.
fn append_bytes(out: &mut Vec<u8>, b: &[u8])
    ensures
        final(out)@ == old(out)@ + b@,
{
    let mut i: usize = 0;
    while i < b.len()
        invariant
            i <= b@.len(),
            out@ == old(out)@ + b@.subrange(0, i as int),
        decreases b@.len() - i,
    {
        out.push(b[i]);
        proof {
            assert(old(out)@ + b@.subrange(0, i + 1 as int) =~= (old(out)@ + b@.subrange(
                0,
                i as int,
            )).push(b@[i as int]));
        }
        i = i + 1;
    }
    proof {
        assert(b@.subrange(0, b@.len() as int) =~= b@);
    }
}

/// Byte-for-byte slice comparison.
fn bytes_eq(a: &[u8], b: &[u8]) -> (r: bool)
    ensures
        r == (a@ == b@),
{
    if a.len() != b.len() {
        proof {
            assert(a@ != b@);
        }
        return false;
    }
    let mut i: usize = 0;
    while i < a.len()
        invariant
            i <= a@.len(),
            a@.len() == b@.len(),
            forall|j: int| 0 <= j < i ==> a@[j] == b@[j],
        decreases a@.len() - i,
    {
        if a[i] != b[i] {
            proof {
                assert(a@[i as int] != b@[i as int]);
            }
            return false;
        }
        i = i + 1;
    }
    proof {
        assert(a@ =~= b@);
    }
    true
}

/// The payload checksum, as the wire computes it.
fn checksum(data: &[u8]) -> (r: u32)
    ensures
        r as int == checksum_spec(data@),
{
    let mut h: u32 = 17;
    let mut i: usize = 0;
    while i < data.len()
        invariant
            i <= data@.len(),
            h as int == checksum_spec(data@.subrange(0, i as int)),
        decreases data@.len() - i,
    {
        let wide: u64 = (h as u64) * 31 + (data[i] as u64);
        h = (wide % 0x1_0000_0000) as u32;
        proof {
            let pre = data@.subrange(0, i as int);
            let cur = data@.subrange(0, i + 1 as int);
            assert(cur.drop_last() =~= pre);
            assert(cur.last() == data@[i as int]);
        }
        i = i + 1;
    }
    proof {
        assert(data@.subrange(0, data@.len() as int) =~= data@);
    }
    h
}

/// Appends the `n` little-endian bytes of `x`.
fn push_le(out: &mut Vec<u8>, x: u64, n: usize)
    ensures
        final(out)@ == old(out)@ + le_bytes(x as int, n as nat),
{
    let mut v: u64 = x;
    let mut j: usize = 0;
    let ghost mut done: Seq<u8> = Seq::empty();
    proof {
        assert(out@ =~= old(out)@ + done);
    }
    while j < n
        invariant
            j <= n,
            out@ == old(out)@ + done,
            le_bytes(x as int, n as nat) == done + le_bytes(v as int, (n - j) as nat),
        decreases n - j,
    {
        let b = (v % 256) as u8;
        out.push(b);
        proof {
            assert(le_bytes(v as int, (n - j) as nat) == seq![(v as int % 256) as u8] + le_bytes(
                v as int / 256,
                (n - j - 1) as nat,
            ));
            assert((v as int % 256) as u8 == b);
            assert(v as int / 256 == (v / 256) as int);
            assert(done + (seq![b] + le_bytes((v / 256) as int, (n - j - 1) as nat)) =~= done.push(
                b,
            ) + le_bytes((v / 256) as int, (n - j - 1) as nat));
            done = done.push(b);
            assert(out@ =~= old(out)@ + done);
        }
        v = v / 256;
        j = j + 1;
    }
    proof {
        assert(le_bytes(v as int, 0) == Seq::<u8>::empty());
        assert(done + Seq::<u8>::empty() =~= done);
    }
}

/// A value from up to eight little-endian bytes.
fn u64_from_le(b: &[u8]) -> (r: u64)
    requires
        b@.len() <= 8,
    ensures
        r as int == le_val(b@),
{
    proof {
        lemma_pow256_vals();
    }
    let n = b.len();
    let mut v: u64 = 0;
    let mut j: usize = n;
    proof {
        assert(b@.skip(n as int) =~= Seq::<u8>::empty());
        assert(le_val(b@.skip(n as int)) == 0);
        lemma_pow256_pos(0);
    }
    while j > 0
        invariant
            j <= n,
            n == b@.len() <= 8,
            v as int == le_val(b@.skip(j as int)),
            le_val(b@.skip(j as int)) < pow256((n - j) as nat),
        decreases j,
    {
        proof {
            lemma_le_val_bound(b@.skip(j - 1 as int));
            lemma_pow256_increases((n - j + 1) as nat, 8);
            lemma_pow256_vals();
            assert(b@.skip(j - 1 as int)[0] == b@[j - 1 as int]);
            assert(b@.skip(j - 1 as int).drop_first() =~= b@.skip(j as int));
            assert(le_val(b@.skip(j - 1 as int)) == b@[j - 1 as int] + 256 * le_val(
                b@.skip(j as int),
            ));
            assert(256 * (v as int) + 255 < pow256(8)) by (nonlinear_arith)
                requires
                    v as int + 1 <= pow256((n - j) as nat),
                    256 * pow256((n - j) as nat) <= pow256(8) || pow256((n - j + 1) as nat)
                        <= pow256(8),
                    pow256((n - j + 1) as nat) == 256 * pow256((n - j) as nat),
            ;
        }
        j = j - 1;
        v = v * 256 + (b[j] as u64);
        proof {
            lemma_le_val_bound(b@.skip(j as int));
        }
    }
    proof {
        assert(b@.skip(0) =~= b@);
    }
    v
}

// ---------------------------------------------------------------------
// Record payloads
// ---------------------------------------------------------------------

/// Encodes a run of records into one payload.
fn encode_records(recs: &Vec<(Vec<u8>, Vec<u8>)>) -> (r: Vec<u8>)
    requires
        recs_wf(recs_view(recs@)),
    ensures
        r@ == enc_recs(recs_view(recs@)),
{
    let ghost target = recs_view(recs@);
    let mut out: Vec<u8> = Vec::new();
    let mut i: usize = 0;
    proof {
        assert(recs_view(recs@.subrange(0, 0)) =~= Seq::<(Seq<u8>, Seq<u8>)>::empty());
        assert(out@ =~= enc_recs(recs_view(recs@.subrange(0, 0))));
    }
    while i < recs.len()
        invariant
            i <= recs@.len(),
            recs_wf(recs_view(recs@)),
            out@ == enc_recs(recs_view(recs@.subrange(0, i as int))),
        decreases recs@.len() - i,
    {
        let pair: &(Vec<u8>, Vec<u8>) = &recs[i];
        proof {
            assert(recs_view(recs@)[i as int] == (pair.0@, pair.1@));
            assert(rec_wf(recs_view(recs@)[i as int]));
        }
        let ghost pre = out@;
        out.push(pair.0.len() as u8);
        push_le(&mut out, pair.1.len() as u64, 2);
        append_bytes(&mut out, pair.0.as_slice());
        append_bytes(&mut out, pair.1.as_slice());
        proof {
            assert(out@ =~= pre + enc_rec(pair.0@, pair.1@));
            lemma_enc_recs_snoc(recs_view(recs@.subrange(0, i as int)), (pair.0@, pair.1@));
            assert(recs_view(recs@.subrange(0, i as int)).push((pair.0@, pair.1@)) =~= recs_view(
                recs@.subrange(0, i + 1 as int),
            ));
        }
        i = i + 1;
    }
    proof {
        assert(recs@.subrange(0, recs@.len() as int) =~= recs@);
    }
    out
}

/// Joins a prefix of records onto a parse outcome.
pub open spec fn opt_prepend(pre: Seq<(Seq<u8>, Seq<u8>)>, r: Option<Seq<(Seq<u8>, Seq<u8>)>>)
    -> Option<Seq<(Seq<u8>, Seq<u8>)>> {
    match r {
        Some(rest) => Some(pre + rest),
        None => None,
    }
}

/// Parses a payload back into records, mirroring `parse_records`.
fn parse_records_exec(p: &[u8]) -> (r: Option<Vec<(Vec<u8>, Vec<u8>)>>)
    ensures
        match r {
            Some(recs) => parse_records(p@) == Some(recs_view(recs@)) && recs_wf(recs_view(recs@)),
            None => parse_records(p@) is None,
        },
{
    let n = p.len();
    let mut acc: Vec<(Vec<u8>, Vec<u8>)> = Vec::new();
    let mut off: usize = 0;
    proof {
        assert(p@.skip(0) =~= p@);
        assert(recs_view(acc@) =~= Seq::<(Seq<u8>, Seq<u8>)>::empty());
        match parse_records(p@) {
            Some(rest) => {
                assert(recs_view(acc@) + rest =~= rest);
            },
            None => {},
        }
    }
    while off < n
        invariant
            off <= n,
            n == p@.len(),
            parse_records(p@) == opt_prepend(recs_view(acc@), parse_records(p@.skip(off as int))),
        decreases n - off,
    {
        let ghost q = p@.skip(off as int);
        proof {
            assert(q.len() == n - off);
            assert(forall|m: int| 0 <= m < q.len() ==> #[trigger] q[m] == p@[off + m]);
        }
        if n - off < REC_HDR {
            return None;
        }
        let kl = p[off] as usize;
        let vl = p[off + 1] as usize + 256 * (p[off + 2] as usize);
        proof {
            assert(q.subrange(1, 3) =~= p@.subrange(off + 1, off + 3));
            lemma_le_val_2(q.subrange(1, 3));
            assert(le_val(q.subrange(1, 3)) == vl);
        }
        if kl < 1 || kl > MAX_KEY_SIZE || vl > MAX_VALUE_SIZE || n - off - REC_HDR < kl || n - off
            - REC_HDR - kl < vl {
            return None;
        }
        let key = copy_range(p, off + REC_HDR, off + REC_HDR + kl);
        let val = copy_range(p, off + REC_HDR + kl, off + REC_HDR + kl + vl);
        proof {
            assert(key@ =~= q.subrange(REC_HDR as int, REC_HDR + kl));
            assert(val@ =~= q.subrange(REC_HDR + kl, REC_HDR + kl + vl));
        }
        let ghost pre = recs_view(acc@);
        acc.push((key, val));
        let next = off + REC_HDR + kl + vl;
        proof {
            assert(recs_view(acc@) =~= pre.push((key@, val@)));
            assert(q.skip(REC_HDR + kl + vl) =~= p@.skip(next as int));
            assert(parse_records(q) == opt_prepend(
                seq![(key@, val@)],
                parse_records(p@.skip(next as int)),
            ));
            match parse_records(p@.skip(next as int)) {
                Some(rest) => {
                    assert(pre + (seq![(key@, val@)] + rest) =~= pre.push((key@, val@)) + rest);
                },
                None => {},
            }
        }
        off = next;
    }
    proof {
        assert(p@.skip(n as int) =~= Seq::<u8>::empty());
        assert(parse_records(Seq::<u8>::empty()) == Some(Seq::<(Seq<u8>, Seq<u8>)>::empty()));
        assert(recs_view(acc@) + Seq::<(Seq<u8>, Seq<u8>)>::empty() =~= recs_view(acc@));
        lemma_parse_records_wf(p@);
    }
    Some(acc)
}

// ---------------------------------------------------------------------
// Index operations
// ---------------------------------------------------------------------

/// The position of a key in the index, scanning from the front.
fn find_entry(index: &Vec<Entry>, key: &[u8]) -> (r: Option<usize>)
    ensures
        match r {
            Some(m) => m < index@.len() && entries_view(index@)[m as int].key == key@ && forall|
                j: int,
            | 0 <= j < m ==> (#[trigger] entries_view(index@)[j]).key != key@,
            None => forall|j: int|
                0 <= j < index@.len() ==> (#[trigger] entries_view(index@)[j]).key != key@,
        },
{
    let mut i: usize = 0;
    while i < index.len()
        invariant
            i <= index@.len(),
            forall|j: int| 0 <= j < i ==> (#[trigger] entries_view(index@)[j]).key != key@,
        decreases index@.len() - i,
    {
        if bytes_eq(index[i].key.as_slice(), key) {
            proof {
                assert(entries_view(index@)[i as int].key == key@);
            }
            return Some(i);
        }
        proof {
            assert(entries_view(index@)[i as int].key != key@);
        }
        i = i + 1;
    }
    None
}

/// The index's answer as a first-match scan reaches it.
proof fn lemma_index_hit_at(es: Seq<EntryV>, m: int, k: Seq<u8>)
    requires
        0 <= m < es.len(),
        es[m].key == k,
        forall|j: int| 0 <= j < m ==> (#[trigger] es[j]).key != k,
    ensures
        index_hit(es, k) == Some(Hit { seqno: es[m].seqno, val: es[m].val }),
    decreases m,
{
    if m > 0 {
        assert(es.drop_first()[m - 1] == es[m]);
        assert(forall|j: int| 0 <= j < m - 1 ==> (#[trigger] es.drop_first()[j]).key != k);
        lemma_index_hit_at(es.drop_first(), m - 1, k);
    }
}

/// When no entry has the key, the index has no answer.
proof fn lemma_index_hit_absent(es: Seq<EntryV>, k: Seq<u8>)
    requires
        forall|j: int| 0 <= j < es.len() ==> (#[trigger] es[j]).key != k,
    ensures
        index_hit(es, k) is None,
    decreases es.len(),
{
    if es.len() > 0 {
        assert(forall|j: int| 0 <= j < es.len() - 1 ==> (#[trigger] es.drop_first()[j]).key != k);
        lemma_index_hit_absent(es.drop_first(), k);
    }
}

/// Applies one blob's records to the index, newest sequence number wins.
fn apply_blob(index: &mut Vec<Entry>, recs: &Vec<(Vec<u8>, Vec<u8>)>, seqno: u64)
    requires
        index_unique(entries_view(old(index)@)),
        index_recs_wf(entries_view(old(index)@)),
        recs_wf(recs_view(recs@)),
    ensures
        entries_view(final(index)@) == apply_recs(
            entries_view(old(index)@),
            recs_view(recs@),
            seqno as int,
        ),
        index_unique(entries_view(final(index)@)),
        index_recs_wf(entries_view(final(index)@)),
{
    let ghost rv = recs_view(recs@);
    let ghost base = entries_view(old(index)@);
    let mut i: usize = 0;
    proof {
        assert(recs_view(recs@.subrange(0, 0)) =~= Seq::<(Seq<u8>, Seq<u8>)>::empty());
        assert(apply_recs(base, recs_view(recs@.subrange(0, 0)), seqno as int) == base);
    }
    while i < recs.len()
        invariant
            i <= recs@.len(),
            recs_wf(recs_view(recs@)),
            entries_view(index@) == apply_recs(
                base,
                recs_view(recs@.subrange(0, i as int)),
                seqno as int,
            ),
            index_unique(entries_view(index@)),
            index_recs_wf(entries_view(index@)),
        decreases recs@.len() - i,
    {
        let ghost cur = entries_view(index@);
        let pair: &(Vec<u8>, Vec<u8>) = &recs[i];
        proof {
            assert(recs_view(recs@)[i as int] == (pair.0@, pair.1@));
            assert(rec_wf(recs_view(recs@)[i as int]));
            lemma_apply_rec_wf(cur, pair.0@, pair.1@, seqno as int);
        }
        match find_entry(index, pair.0.as_slice()) {
            Some(m) => {
                proof {
                    lemma_apply_rec_found(cur, m as int, pair.0@, pair.1@, seqno as int);
                }
                if index[m].seqno <= seqno {
                    let e = Entry {
                        key: vec_from_slice(pair.0.as_slice()),
                        val: vec_from_slice(pair.1.as_slice()),
                        seqno,
                    };
                    let ghost pre = entries_view(index@);
                    index.set(m, e);
                    proof {
                        assert(entries_view(index@) =~= pre.update(
                            m as int,
                            EntryV { key: pair.0@, val: pair.1@, seqno: seqno as int },
                        ));
                    }
                }
            },
            None => {
                proof {
                    lemma_apply_rec_absent(cur, pair.0@, pair.1@, seqno as int);
                }
                let e = Entry {
                    key: vec_from_slice(pair.0.as_slice()),
                    val: vec_from_slice(pair.1.as_slice()),
                    seqno,
                };
                let ghost pre = entries_view(index@);
                index.push(e);
                proof {
                    assert(entries_view(index@) =~= pre.push(
                        EntryV { key: pair.0@, val: pair.1@, seqno: seqno as int },
                    ));
                }
            },
        }
        proof {
            lemma_apply_recs_snoc(
                base,
                recs_view(recs@.subrange(0, i as int)),
                (pair.0@, pair.1@),
                seqno as int,
            );
            assert(recs_view(recs@.subrange(0, i as int)).push((pair.0@, pair.1@)) =~= recs_view(
                recs@.subrange(0, i + 1 as int),
            ));
        }
        i = i + 1;
    }
    proof {
        assert(recs@.subrange(0, recs@.len() as int) =~= recs@);
    }
}

/// Sums the live bytes of the index; answers `None` as soon as the sum
/// passes the capacity, so the sum itself stays small.
fn live_bytes_checked(index: &Vec<Entry>) -> (r: Option<usize>)
    requires
        index_recs_wf(entries_view(index@)),
    ensures
        match r {
            Some(v) => v as int == live_size(entries_view(index@)) && v <= MAX_LIVE,
            None => live_size(entries_view(index@)) > MAX_LIVE,
        },
{
    let ghost es = entries_view(index@);
    let mut sum: usize = 0;
    let mut i: usize = 0;
    proof {
        assert(es.subrange(0, 0) =~= Seq::<EntryV>::empty());
    }
    while i < index.len()
        invariant
            i <= index@.len(),
            es == entries_view(index@),
            index_recs_wf(es),
            sum as int == live_size(es.subrange(0, i as int)),
            sum <= MAX_LIVE,
        decreases index@.len() - i,
    {
        let e: &Entry = &index[i];
        proof {
            assert(es[i as int] == e@);
            assert(rec_wf((es[i as int].key, es[i as int].val)));
            assert(es.subrange(0, i + 1 as int).drop_last() =~= es.subrange(0, i as int));
            assert(es.subrange(0, i + 1 as int).last() == es[i as int]);
        }
        let add = REC_HDR + e.key.len() + e.val.len();
        if sum + add > MAX_LIVE {
            proof {
                lemma_live_size_prefix(es, i + 1 as int);
            }
            return None;
        }
        sum = sum + add;
        i = i + 1;
    }
    proof {
        assert(es.subrange(0, es.len() as int) =~= es);
    }
    Some(sum)
}


// ---------------------------------------------------------------------
// The store
// ---------------------------------------------------------------------

/// Per-page bookkeeping: where the blob chain ends, and whether the rest
/// of the page is known erased (safe to append to).
struct PageMeta {
    end: usize,
    clean: bool,
}

/// The log-structured record store. Owns the flash device exclusively.
pub struct RecordStore {
    flash: Flash,
    index: Vec<Entry>,
    meta: Vec<PageMeta>,
    next_seq: u64,
    mounted: bool,
}

/// A device the store can mount: at least one blob (the layout was laid
/// down), sequence numbers with room to grow, live records within the
/// capacity, and an erased page left for compaction.
pub open spec fn mountable(pages: Seq<Seq<u8>>) -> bool {
    &&& exists|i: int| 0 <= i < pages.len() && page_blobs(#[trigger] pages[i]).len() > 0
    &&& seqs_below(pages, u64::MAX - 2)
    &&& live_size(build_index(Seq::empty(), pages)) <= MAX_LIVE
    &&& exists|i: int|
        0 <= i < pages.len() && chain_end(#[trigger] pages[i]) == 0 && range_erased(
            pages[i],
            0,
            PAGE_SIZE as int,
        )
}

impl RecordStore {
    /// The raw device contents, for stating what is durable.
    pub closed spec fn flash_view(&self) -> Seq<Seq<u8>> {
        self.flash@
    }

    /// The committed value of a key: the record with the winning sequence
    /// number anywhere on flash.
    pub open spec fn lookup(&self, k: Seq<u8>) -> Option<Seq<u8>> {
        flash_lookup(self.flash_view(), k)
    }

    /// True while no power-loss fault is armed on the device.
    pub closed spec fn flash_unlimited(&self) -> bool {
        self.flash.unlimited()
    }

    /// The device is usable (geometry sound), mounted or not.
    pub closed spec fn ready(&self) -> bool {
        self.flash.wf()
    }

    pub closed spec fn is_mounted(&self) -> bool {
        self.mounted
    }

    /// Bytes the live records take; a commit must keep this within
    /// `MAX_LIVE`.
    pub closed spec fn live_bytes(&self) -> int {
        live_size(entries_view(self.index@))
    }

    /// The next fresh sequence number; a successful commit consumes at
    /// most two (one for a compaction snapshot, one for the transaction).
    pub closed spec fn next_sequence(&self) -> int {
        self.next_seq as int
    }

    /// Sequence numbers left: a commit needs up to two fresh ones.
    pub open spec fn seq_headroom(&self) -> bool {
        self.next_sequence() < u64::MAX - 1
    }

    /// What the index will be after staging `rs` on top of the live set.
    pub closed spec fn merged_index(&self, rs: Seq<(Seq<u8>, Seq<u8>)>) -> Seq<EntryV> {
        apply_recs(entries_view(self.index@), rs, self.next_seq as int)
    }

    /// A transaction the store can hold: its payload and the merged live
    /// set both fit the capacity.
    pub closed spec fn fits(&self, rs: Seq<(Seq<u8>, Seq<u8>)>) -> bool {
        recs_size(rs) <= MAX_LIVE && live_size(self.merged_index(rs)) <= MAX_LIVE
    }

    /// The merged live set grows by at most the staged records.
    pub proof fn lemma_merged_live_bound(&self, rs: Seq<(Seq<u8>, Seq<u8>)>)
        ensures
            live_size(self.merged_index(rs)) <= self.live_bytes() + recs_size(rs),
    {
        lemma_apply_recs_live_bound(entries_view(self.index@), rs, self.next_seq as int);
    }

    /// A transaction fits whenever the live set has room for all of its
    /// records outright.
    pub proof fn lemma_fits_when_room(&self, rs: Seq<(Seq<u8>, Seq<u8>)>)
        requires
            recs_size(rs) <= MAX_LIVE,
            self.live_bytes() + recs_size(rs) <= MAX_LIVE,
        ensures
            self.fits(rs),
    {
        self.lemma_merged_live_bound(rs);
    }

    /// The store's internal invariant: the index names exactly the
    /// winning records on flash, page bookkeeping is truthful, every
    /// on-flash sequence number is below the next fresh one, and at least
    /// one page is fully erased.
    pub closed spec fn inv_core(&self) -> bool {
        &&& self.mounted
        &&& self.flash.wf()
        &&& self.meta@.len() == self.flash@.len()
        &&& index_unique(entries_view(self.index@))
        &&& index_recs_wf(entries_view(self.index@))
        &&& live_size(entries_view(self.index@)) <= MAX_LIVE
        &&& forall|k: Seq<u8>|
            #[trigger] index_hit(entries_view(self.index@), k) == pages_lookup(self.flash@, k)
        &&& seqs_below(self.flash@, self.next_seq as int)
        &&& forall|i: int|
            0 <= i < self.meta@.len() ==> ((#[trigger] self.meta@[i]).clean ==> (chain_end(
                self.flash@[i],
            ) == self.meta@[i].end && self.meta@[i].end <= PAGE_SIZE && range_erased(
                self.flash@[i],
                self.meta@[i].end as int,
                PAGE_SIZE as int,
            )))
    }

    pub closed spec fn inv(&self) -> bool {
        &&& self.inv_core()
        &&& exists|i: int|
            0 <= i < self.meta@.len() && (#[trigger] self.meta@[i]).clean && self.meta@[i].end == 0
    }

    /// A mounted store is always ready.
    pub proof fn lemma_inv_ready(&self)
        requires
            self.inv(),
        ensures
            self.ready(),
            self.is_mounted(),
    {
    }

    /// Takes ownership of a device; the store starts unmounted.
    pub fn new(flash: Flash) -> (r: RecordStore)
        ensures
            r.flash_view() == flash@,
            r.ready() == flash.wf(),
            !r.is_mounted(),
            r.flash_unlimited() == flash.unlimited(),
    {
        RecordStore { flash, index: Vec::new(), meta: Vec::new(), next_seq: 0, mounted: false }
    }

    /// Gives the device back, for a reboot or inspection.
    pub fn into_flash(self) -> (r: Flash)
        ensures
            r@ == self.flash_view(),
            r.wf() == self.ready(),
            r.unlimited() == self.flash_unlimited(),
    {
        self.flash
    }

    /// Arms the power-loss fault on the owned device: the next `n`
    /// erases and writes succeed, all later ones fail.
    pub fn set_fault_budget(&mut self, n: u64)
        ensures
            final(self).flash_view() == old(self).flash_view(),
            final(self).inv() == old(self).inv(),
            final(self).ready() == old(self).ready(),
            final(self).is_mounted() == old(self).is_mounted(),
            !final(self).flash_unlimited(),
            final(self).live_bytes() == old(self).live_bytes(),
            final(self).seq_headroom() == old(self).seq_headroom(),
            forall|rs: Seq<(Seq<u8>, Seq<u8>)>| final(self).fits(rs) == old(self).fits(rs),
    {
        self.flash.set_fault_budget(n);
    }

    /// Opens a buffered write transaction.
    pub fn begin_write(&self) -> (r: Transaction)
        ensures
            r@ == Seq::<(Seq<u8>, Seq<u8>)>::empty(),
            r.wf(),
    {
        let t = Transaction { staged: Vec::new() };
        proof {
            assert(t@ =~= Seq::<(Seq<u8>, Seq<u8>)>::empty());
        }
        t
    }

    /// The latest committed value of a key; reads never see an in-flight
    /// transaction.
    pub fn read(&self, key: &[u8]) -> (r: Result<Vec<u8>, ReadError>)
        requires
            self.inv(),
        ensures
            match r {
                Ok(v) => self.lookup(key@) == Some(v@),
                Err(e) => e == ReadError::KeyNotFound && self.lookup(key@) is None,
            },
    {
        match find_entry(&self.index, key) {
            Some(m) => {
                proof {
                    lemma_index_hit_at(entries_view(self.index@), m as int, key@);
                }
                let v = vec_from_slice(self.index[m].val.as_slice());
                proof {
                    assert(index_hit(entries_view(self.index@), key@) == pages_lookup(
                        self.flash@,
                        key@,
                    ));
                }
                Ok(v)
            },
            None => {
                proof {
                    lemma_index_hit_absent(entries_view(self.index@), key@);
                    assert(index_hit(entries_view(self.index@), key@) == pages_lookup(
                        self.flash@,
                        key@,
                    ));
                }
                Err(ReadError::KeyNotFound)
            },
        }
    }

    /// Erases the whole device and lays down an empty log. Destructive;
    /// fails only on the injected fault, and then leaves the store
    /// unmounted with the device partially erased.
    pub fn format(&mut self) -> (r: Result<(), FormatError>)
        requires
            old(self).ready(),
        ensures
            final(self).ready(),
            final(self).flash_unlimited() == old(self).flash_unlimited(),
            r is Ok <==> final(self).is_mounted(),
            old(self).flash_unlimited() ==> r is Ok,
            r is Ok ==> final(self).inv() && (forall|k: Seq<u8>| final(self).lookup(k) is None)
                && final(self).live_bytes() == 0 && final(self).seq_headroom(),
    {
        self.mounted = false;
        proof {
            old(self).flash.lemma_unlimited_can_op();
        }
        let n = self.flash.page_count();
        let mut p: usize = 0;
        while p < n
            invariant
                p <= n,
                n == self.flash@.len(),
                self.flash.wf(),
                self.flash.unlimited() == old(self).flash.unlimited(),
                old(self).flash.unlimited() ==> self.flash.can_op(),
                forall|i: int| 0 <= i < p ==> #[trigger] self.flash@[i] == erased_page(),
                self.mounted == false,
                self.meta@ == old(self).meta@,
                self.index@ == old(self).index@,
            decreases n - p,
        {
            let ghost pre = self.flash@;
            match self.flash.erase(p) {
                Ok(()) => {},
                Err(e) => {
                    return Err(FormatError::Flash(e));
                },
            }
            proof {
                assert(forall|i: int|
                    0 <= i < p ==> #[trigger] self.flash@[i] == pre[i]);
            }
            p = p + 1;
        }
        // the empty marker blob: no records, sequence number zero
        let empty_payload: Vec<u8> = Vec::new();
        let ck = checksum(empty_payload.as_slice());
        let mut blob: Vec<u8> = Vec::new();
        blob.push(MAGIC);
        push_le(&mut blob, 0, 8);
        push_le(&mut blob, 0, 2);
        push_le(&mut blob, ck as u64, 4);
        proof {
            lemma_checksum_bound(Seq::<u8>::empty());
            assert(empty_payload@ =~= Seq::<u8>::empty());
            assert(ck as int == checksum_spec(Seq::<u8>::empty()));
            assert(le_bytes(0, 2) == le_bytes(Seq::<u8>::empty().len() as int, 2));
            assert(blob@ =~= enc_blob(0, Seq::<u8>::empty()));
            lemma_le_bytes_len(0, 8);
            lemma_le_bytes_len(0, 2);
            lemma_le_bytes_len(ck as int, 4);
            assert(blob@.len() == HDR_SIZE);
            assert(range_erased(self.flash@[0], 0, blob@.len() as int)) by {
                assert(self.flash@[0] == erased_page());
            }
        }
        let ghost preflash = self.flash@;
        match self.flash.write(0, 0, blob.as_slice()) {
            Ok(()) => {},
            Err(e) => {
                return Err(FormatError::Flash(e));
            },
        }
        let ghost page0 = self.flash@[0];
        proof {
            lemma_pow256_vals();
            lemma_erased_page_blobs();
            assert(range_erased(erased_page(), 0, PAGE_SIZE as int));
            lemma_parse_append(
                preflash[0],
                page0,
                0,
                Seq::<u8>::empty(),
                Seq::<(Seq<u8>, Seq<u8>)>::empty(),
            );
            lemma_pow256_vals();
        }
        self.index = Vec::new();
        let mut meta: Vec<PageMeta> = Vec::new();
        meta.push(PageMeta { end: HDR_SIZE, clean: true });
        let mut i: usize = 1;
        while i < n
            invariant
                1 <= i <= n,
                meta@.len() == i,
                meta@[0].end == HDR_SIZE && meta@[0].clean,
                forall|j: int| 1 <= j < i ==> (#[trigger] meta@[j]).end == 0 && meta@[j].clean,
            decreases n - i,
        {
            meta.push(PageMeta { end: 0, clean: true });
            i = i + 1;
        }
        self.meta = meta;
        self.next_seq = 1;
        self.mounted = true;
        proof {
            let fv = self.flash@;
            let marker = BlobV { seqno: 0, recs: Seq::empty() };
            assert(page_blobs(fv[0]) =~= seq![marker]);
            assert forall|i: int| 1 <= i < fv.len() implies #[trigger] fv[i] == erased_page() by {
                assert(fv[i] == preflash[i]);
            }
            assert forall|k: Seq<u8>| #[trigger] index_hit(entries_view(self.index@), k)
                == pages_lookup(fv, k) by {
                assert(entries_view(self.index@) =~= Seq::<EntryV>::empty());
                assert(index_hit(entries_view(self.index@), k) is None);
                assert forall|i: int| 0 <= i < fv.len() implies page_hit(#[trigger] fv[i], k)
                    is None by {
                    if i == 0 {
                        assert(blob_hit(marker, k) is None);
                        assert(chain_lookup(seq![marker], k) == combine(
                            chain_lookup(seq![marker].drop_last(), k),
                            blob_hit(marker, k),
                        ));
                        assert(seq![marker].drop_last() =~= Seq::<BlobV>::empty());
                    } else {
                        lemma_erased_page_blobs();
                    }
                }
                lemma_pages_lookup_all_none(fv, k);
            }
            assert(seqs_below(fv, 1)) by {
                assert forall|i: int| 0 <= i < fv.len() implies chain_seqs_below(
                    page_blobs(#[trigger] fv[i]),
                    1,
                ) by {
                    if i == 0 {
                        assert(page_blobs(fv[0]) == seq![marker]);
                    } else {
                        lemma_erased_page_blobs();
                    }
                }
            }
            assert forall|i: int| 0 <= i < self.meta@.len() implies ((
            #[trigger] self.meta@[i]).clean ==> (chain_end(fv[i]) == self.meta@[i].end
                && self.meta@[i].end <= PAGE_SIZE && range_erased(
                fv[i],
                self.meta@[i].end as int,
                PAGE_SIZE as int,
            ))) by {
                if i == 0 {
                } else {
                    lemma_erased_page_blobs();
                }
            }
            assert(self.meta@[1int].clean && self.meta@[1int].end == 0);
            assert(entries_view(self.index@) =~= Seq::<EntryV>::empty());
            assert forall|k: Seq<u8>| #[trigger] flash_lookup(fv, k) is None by {
                assert(index_hit(entries_view(self.index@), k) == pages_lookup(fv, k));
                assert(index_hit(Seq::<EntryV>::empty(), k) is None);
            }
        }
        Ok(())
    }
}


// ---------------------------------------------------------------------
// Mounting
// ---------------------------------------------------------------------

/// Walks one page's blob chain, applying every blob to the index.
/// Returns the chain end, whether the rest of the page is erased, and
/// whether any blob was found.
fn scan_page(flash: &Flash, p: usize, index: &mut Vec<Entry>, max_seq: &mut u64) -> (r: (
    usize,
    bool,
    bool,
))
    requires
        flash.wf(),
        p < flash@.len(),
        index_unique(entries_view(old(index)@)),
        index_recs_wf(entries_view(old(index)@)),
    ensures
        entries_view(final(index)@) == apply_chain(
            entries_view(old(index)@),
            page_blobs(flash@[p as int]),
        ),
        index_unique(entries_view(final(index)@)),
        index_recs_wf(entries_view(final(index)@)),
        r.0 as int == chain_end(flash@[p as int]),
        r.0 <= PAGE_SIZE,
        r.1 == range_erased(flash@[p as int], r.0 as int, PAGE_SIZE as int),
        r.2 == (page_blobs(flash@[p as int]).len() > 0),
        *final(max_seq) >= *old(max_seq),
        chain_seqs_below(page_blobs(flash@[p as int]), *final(max_seq) as int + 1),
        *final(max_seq) == *old(max_seq) || exists|j: int|
            0 <= j < page_blobs(flash@[p as int]).len() && (#[trigger] page_blobs(
                flash@[p as int],
            )[j]).seqno == *final(max_seq) as int,
{
    let ghost page = flash@[p as int];
    let ghost base = entries_view(index@);
    let mut off: usize = 0;
    let ghost mut done: Seq<BlobV> = Seq::empty();
    let mut saw: bool = false;
    proof {
        assert(page.len() == PAGE_SIZE);
        assert(done + parse_full(page, 0).0 =~= parse_full(page, 0).0);
        assert(apply_chain(base, done) == base);
    }
    loop
        invariant
            flash.wf(),
            p < flash@.len(),
            page == flash@[p as int],
            page.len() == PAGE_SIZE,
            off <= PAGE_SIZE,
            parse_full(page, 0).0 == done + parse_full(page, off as int).0,
            parse_full(page, 0).1 == parse_full(page, off as int).1,
            entries_view(index@) == apply_chain(base, done),
            base == entries_view(old(index)@),
            index_unique(entries_view(index@)),
            index_recs_wf(entries_view(index@)),
            *max_seq >= *old(max_seq),
            chain_seqs_below(done, *max_seq as int + 1),
            *max_seq == *old(max_seq) || exists|j: int|
                0 <= j < done.len() && (#[trigger] done[j]).seqno == *max_seq as int,
            saw == (done.len() > 0),
        ensures
            parse_full(page, off as int).0 == Seq::<BlobV>::empty(),
            parse_full(page, off as int).1 == off,
            off <= PAGE_SIZE,
            parse_full(page, 0).0 == done + parse_full(page, off as int).0,
            parse_full(page, 0).1 == parse_full(page, off as int).1,
            entries_view(index@) == apply_chain(base, done),
            base == entries_view(old(index)@),
            index_unique(entries_view(index@)),
            index_recs_wf(entries_view(index@)),
            *max_seq >= *old(max_seq),
            chain_seqs_below(done, *max_seq as int + 1),
            *max_seq == *old(max_seq) || exists|j: int|
                0 <= j < done.len() && (#[trigger] done[j]).seqno == *max_seq as int,
            saw == (done.len() > 0),
        decreases PAGE_SIZE - off,
    {
        if off + HDR_SIZE > PAGE_SIZE {
            proof {
                assert(parse_full(page, off as int).0 =~= Seq::<BlobV>::empty());
            }
            break;
        }
        let tag = flash.read_byte(p, off);
        if tag != MAGIC {
            proof {
                assert(parse_full(page, off as int).0 =~= Seq::<BlobV>::empty());
            }
            break;
        }
        let seq_b = flash.read(p, off + 1, 8);
        let seqno = u64_from_le(seq_b.as_slice());
        let len_b = flash.read(p, off + 9, 2);
        let plen = (len_b[0] as usize) + 256 * (len_b[1] as usize);
        let ck_b = flash.read(p, off + 11, 4);
        let ck = u64_from_le(ck_b.as_slice());
        proof {
            assert(seq_b@ == page.subrange(off + 1, off + 9));
            assert(len_b@ == page.subrange(off + 9, off + 11));
            lemma_le_val_2(len_b@);
            assert(len_b@[0] == page.subrange(off + 9, off + 11)[0]);
            assert(le_val(page.subrange(off + 9, off + 11)) == plen);
            assert(ck_b@ == page.subrange(off + 11, off + 15));
        }
        if plen > PAGE_SIZE - off - HDR_SIZE {
            proof {
                assert(parse_full(page, off as int).0 =~= Seq::<BlobV>::empty());
            }
            break;
        }
        let payload = flash.read(p, off + HDR_SIZE, plen);
        let cks = checksum(payload.as_slice());
        if (cks as u64) != ck {
            proof {
                assert(payload@ == page.subrange(off + HDR_SIZE, off + HDR_SIZE + plen));
                assert(le_val(page.subrange(off + 11, off + 15)) != checksum_spec(payload@));
                assert(parse_full(page, off as int).0 =~= Seq::<BlobV>::empty());
            }
            break;
        }
        match parse_records_exec(payload.as_slice()) {
            None => {
                proof {
                    assert(payload@ == page.subrange(off + HDR_SIZE, off + HDR_SIZE + plen));
                    assert(parse_records(page.subrange(off + HDR_SIZE, off + HDR_SIZE + plen))
                        is None);
                    assert(parse_full(page, off as int).0 =~= Seq::<BlobV>::empty());
                }
                break;
            },
            Some(recs) => {
                let ghost blob = BlobV { seqno: seqno as int, recs: recs_view(recs@) };
                let next = off + HDR_SIZE + plen;
                proof {
                    assert(payload@ == page.subrange(off + HDR_SIZE, off + HDR_SIZE + plen));
                    assert(le_val(page.subrange(off + 1, off + 9)) == seqno as int);
                    assert(le_val(page.subrange(off + 11, off + 15)) == checksum_spec(payload@));
                    assert(parse_records(payload@) == Some(blob.recs));
                    assert(parse_full(page, off as int).0 == seq![blob] + parse_full(
                        page,
                        next as int,
                    ).0);
                    assert(parse_full(page, off as int).1 == parse_full(page, next as int).1);
                    assert(done + (seq![blob] + parse_full(page, next as int).0) =~= done.push(blob)
                        + parse_full(page, next as int).0);
                }
                apply_blob(index, &recs, seqno);
                let ghost old_done = done;
                let ghost pre_max = *max_seq;
                proof {
                    lemma_apply_chain_snoc(base, done, blob);
                    done = done.push(blob);
                }
                if seqno > *max_seq {
                    *max_seq = seqno;
                    proof {
                        assert((#[trigger] done[done.len() - 1]).seqno == *max_seq as int);
                    }
                } else {
                    proof {
                        if pre_max != *old(max_seq) {
                            let w = choose|j: int|
                                0 <= j < old_done.len() && (#[trigger] old_done[j]).seqno
                                    == pre_max as int;
                            assert((#[trigger] done[w]).seqno == *max_seq as int);
                        }
                    }
                }
                saw = true;
                off = next;
            },
        }
    }
    // whether the rest of the page is erased
    let rest = flash.read(p, off, PAGE_SIZE - off);
    let mut clean: bool = true;
    let mut i: usize = 0;
    while i < rest.len()
        invariant
            i <= rest@.len(),
            rest@ == page.subrange(off as int, PAGE_SIZE as int),
            off <= PAGE_SIZE,
            page.len() == PAGE_SIZE,
            clean == range_erased(page, off as int, off + i),
        decreases rest@.len() - i,
    {
        proof {
            assert(rest@[i as int] == page[off + i]);
        }
        if rest[i] != ERASED {
            proof {
                assert(page[off + i] != ERASED);
                assert(!range_erased(page, off as int, off + i + 1));
            }
            clean = false;
        } else {
            proof {
                if clean {
                    assert forall|j: int| off <= j < off + i + 1 implies #[trigger] page[j]
                        == ERASED by {
                        if j < off + i {
                            assert(range_erased(page, off as int, off + i));
                        }
                    }
                } else {
                    let w = choose|j: int| off <= j < off + i && #[trigger] page[j] != ERASED;
                    assert(page[w] != ERASED);
                    assert(!range_erased(page, off as int, off + i + 1));
                }
            }
        }
        i = i + 1;
    }
    (off, clean, saw)
}

impl RecordStore {
    /// Scans the committed pages and rebuilds the index. Torn or foreign
    /// bytes end a page's chain and are ignored. Succeeds exactly on a
    /// `mountable` device; fails with `NotFormatted` exactly when the
    /// device holds no blob at all, and with `Corrupted` when blobs exist
    /// but the layout cannot have been left by this store (sequence
    /// numbers exhausted, live records over capacity, or no erased page
    /// left). Never writes to the device.
    pub fn mount(&mut self) -> (r: Result<(), MountError>)
        requires
            old(self).ready(),
        ensures
            final(self).ready(),
            final(self).flash_view() == old(self).flash_view(),
            final(self).flash_unlimited() == old(self).flash_unlimited(),
            r is Ok <==> mountable(old(self).flash_view()),
            r is Ok ==> final(self).inv() && final(self).seq_headroom(),
            r is Err ==> !final(self).is_mounted(),
            r == Err::<(), MountError>(MountError::NotFormatted) <==> (forall|i: int|
                0 <= i < old(self).flash_view().len() ==> page_blobs(
                    #[trigger] old(self).flash_view()[i],
                ).len() == 0),
    {
        self.mounted = false;
        let n = self.flash.page_count();
        let mut index: Vec<Entry> = Vec::new();
        let mut meta: Vec<PageMeta> = Vec::new();
        let mut max_seq: u64 = 0;
        let mut saw: bool = false;
        let mut p: usize = 0;
        proof {
            assert(entries_view(index@) =~= Seq::<EntryV>::empty());
            assert(self.flash@.subrange(0, 0) =~= Seq::<Seq<u8>>::empty());
            assert(build_index(Seq::<EntryV>::empty(), self.flash@.subrange(0, 0))
                == entries_view(index@));
        }
        while p < n
            invariant
                p <= n,
                n == self.flash@.len(),
                self.flash.wf(),
                self.flash@ == old(self).flash@,
                self.flash.unlimited() == old(self).flash.unlimited(),
                meta@.len() == p,
                entries_view(index@) == build_index(
                    Seq::<EntryV>::empty(),
                    self.flash@.subrange(0, p as int),
                ),
                index_unique(entries_view(index@)),
                index_recs_wf(entries_view(index@)),
                forall|i: int|
                    0 <= i < p ==> (#[trigger] meta@[i]).end as int == chain_end(self.flash@[i])
                        && meta@[i].end <= PAGE_SIZE && (meta@[i].clean == range_erased(
                        self.flash@[i],
                        meta@[i].end as int,
                        PAGE_SIZE as int,
                    )),
                forall|i: int|
                    0 <= i < p ==> chain_seqs_below(
                        page_blobs(#[trigger] self.flash@[i]),
                        max_seq as int + 1,
                    ),
                max_seq == 0 || exists|i: int, j: int|
                    0 <= i < p && 0 <= j < page_blobs(self.flash@[i]).len() && (
                    #[trigger] page_blobs(self.flash@[i])[j]).seqno == max_seq as int,
                saw ==> exists|i: int|
                    0 <= i < p && page_blobs(#[trigger] self.flash@[i]).len() > 0,
                !saw ==> forall|i: int|
                    0 <= i < p ==> page_blobs(#[trigger] self.flash@[i]).len() == 0,
                self.mounted == false,
            decreases n - p,
        {
            let ghost pre_max = max_seq;
            let (end, clean, s) = scan_page(&self.flash, p, &mut index, &mut max_seq);
            meta.push(PageMeta { end, clean });
            saw = saw || s;
            proof {
                lemma_build_index_snoc(
                    Seq::<EntryV>::empty(),
                    self.flash@.subrange(0, p as int),
                    self.flash@[p as int],
                );
                assert(self.flash@.subrange(0, p as int).push(self.flash@[p as int])
                    =~= self.flash@.subrange(0, p + 1 as int));
                assert forall|i: int| 0 <= i < p + 1 implies chain_seqs_below(
                    page_blobs(#[trigger] self.flash@[i]),
                    max_seq as int + 1,
                ) by {
                    if i < p {
                        assert(chain_seqs_below(page_blobs(self.flash@[i]), pre_max as int + 1));
                    }
                }
            }
            p = p + 1;
        }
        proof {
            assert(self.flash@.subrange(0, n as int) =~= self.flash@);
        }
        if !saw {
            proof {
                assert forall|i: int| 0 <= i < old(self).flash_view().len() implies page_blobs(
                    #[trigger] old(self).flash_view()[i],
                ).len() == 0 by {
                    assert(page_blobs(self.flash@[i]).len() == 0);
                }
            }
            return Err(MountError::NotFormatted);
        }
        proof {
            let w = choose|i: int|
                0 <= i < n && page_blobs(#[trigger] self.flash@[i]).len() > 0;
            assert(page_blobs(old(self).flash_view()[w]).len() > 0);
        }
        proof {
            assert(entries_view(index@) == build_index(Seq::<EntryV>::empty(), self.flash@));
        }
        if max_seq >= u64::MAX - 2 {
            proof {
                assert(!mountable(old(self).flash_view())) by {
                    let (wi, wj) = choose|i: int, j: int|
                        0 <= i < n && 0 <= j < page_blobs(self.flash@[i]).len() && (
                        #[trigger] page_blobs(self.flash@[i])[j]).seqno == max_seq as int;
                    if seqs_below(old(self).flash_view(), u64::MAX - 2) {
                        assert(chain_seqs_below(
                            page_blobs(old(self).flash_view()[wi]),
                            u64::MAX - 2,
                        ));
                        assert(page_blobs(self.flash@[wi])[wj].seqno < u64::MAX - 2);
                    }
                }
            }
            return Err(MountError::Corrupted);
        }
        match live_bytes_checked(&index) {
            Some(_) => {},
            None => {
                return Err(MountError::Corrupted);
            },
        }
        // an erased page must remain for compaction
        let mut has_erased: bool = false;
        let ghost mut witness: int = 0;
        let mut i: usize = 0;
        while i < meta.len()
            invariant
                i <= meta@.len(),
                has_erased ==> 0 <= witness < meta@.len() && meta@[witness].clean
                    && meta@[witness].end == 0,
                !has_erased ==> forall|j: int|
                    0 <= j < i ==> !((#[trigger] meta@[j]).clean && meta@[j].end == 0),
            decreases meta@.len() - i,
        {
            if meta[i].clean && meta[i].end == 0 {
                has_erased = true;
                proof {
                    witness = i as int;
                }
            }
            i = i + 1;
        }
        if !has_erased {
            proof {
                assert(!mountable(old(self).flash_view())) by {
                    if exists|i: int|
                        0 <= i < old(self).flash_view().len() && chain_end(
                            #[trigger] old(self).flash_view()[i],
                        ) == 0 && range_erased(old(self).flash_view()[i], 0, PAGE_SIZE as int) {
                        let w = choose|i: int|
                            0 <= i < old(self).flash_view().len() && chain_end(
                                #[trigger] old(self).flash_view()[i],
                            ) == 0 && range_erased(old(self).flash_view()[i], 0, PAGE_SIZE as int);
                        assert(meta@[w].end as int == chain_end(self.flash@[w]));
                        assert(meta@[w].clean == range_erased(
                            self.flash@[w],
                            0,
                            PAGE_SIZE as int,
                        ));
                        assert(meta@[w].clean && meta@[w].end == 0);
                    }
                }
            }
            return Err(MountError::Corrupted);
        }
        self.index = index;
        self.meta = meta;
        self.next_seq = max_seq + 1;
        self.mounted = true;
        proof {
            assert forall|k: Seq<u8>| #[trigger] index_hit(entries_view(self.index@), k)
                == pages_lookup(self.flash@, k) by {
                lemma_build_index_hit(Seq::<EntryV>::empty(), self.flash@, k);
                assert(index_hit(Seq::<EntryV>::empty(), k) is None);
            }
            assert(seqs_below(self.flash@, self.next_seq as int)) by {
                assert forall|i: int| 0 <= i < self.flash@.len() implies chain_seqs_below(
                    page_blobs(#[trigger] self.flash@[i]),
                    self.next_seq as int,
                ) by {
                    assert(chain_seqs_below(page_blobs(self.flash@[i]), max_seq as int + 1));
                }
            }
            assert(self.meta@[witness].clean && self.meta@[witness].end == 0);
            assert(mountable(old(self).flash_view())) by {
                assert(seqs_below(old(self).flash_view(), u64::MAX - 2)) by {
                    assert forall|i: int| 0 <= i < n implies chain_seqs_below(
                        page_blobs(#[trigger] old(self).flash_view()[i]),
                        u64::MAX - 2,
                    ) by {
                        assert(chain_seqs_below(
                            page_blobs(self.flash@[i]),
                            max_seq as int + 1,
                        ));
                        assert forall|j: int|
                            0 <= j < page_blobs(self.flash@[i]).len() implies (
                        #[trigger] page_blobs(self.flash@[i])[j]).seqno < u64::MAX - 2 by {
                            assert(page_blobs(self.flash@[i])[j].seqno < max_seq as int + 1);
                        }
                    }
                }
                assert(chain_end(old(self).flash_view()[witness]) == 0 && range_erased(
                    old(self).flash_view()[witness],
                    0,
                    PAGE_SIZE as int,
                )) by {
                    assert(self.meta@[witness].end as int == chain_end(self.flash@[witness]));
                    assert(self.meta@[witness].clean == range_erased(
                        self.flash@[witness],
                        0,
                        PAGE_SIZE as int,
                    ));
                }
            }
        }
        Ok(())
    }
}


// ---------------------------------------------------------------------
// Committing
// ---------------------------------------------------------------------

/// Copies the index entries.
fn clone_entries(index: &Vec<Entry>) -> (r: Vec<Entry>)
    ensures
        entries_view(r@) == entries_view(index@),
{
    let mut out: Vec<Entry> = Vec::new();
    let mut i: usize = 0;
    while i < index.len()
        invariant
            i <= index@.len(),
            entries_view(out@) == entries_view(index@).subrange(0, i as int),
        decreases index@.len() - i,
    {
        let e: &Entry = &index[i];
        let ne = Entry {
            key: vec_from_slice(e.key.as_slice()),
            val: vec_from_slice(e.val.as_slice()),
            seqno: e.seqno,
        };
        proof {
            assert(ne@ == e@);
            assert(e@ == entries_view(index@)[i as int]);
        }
        let ghost pre = entries_view(out@);
        out.push(ne);
        proof {
            assert(entries_view(out@) =~= pre.push(ne@));
            assert(pre.push(ne@) =~= entries_view(index@).subrange(0, i + 1 as int));
        }
        i = i + 1;
    }
    proof {
        assert(entries_view(index@).subrange(0, entries_view(index@).len() as int) =~= entries_view(
            index@,
        ));
    }
    out
}

/// The index entries as bare records, copied out.
fn index_to_records(index: &Vec<Entry>) -> (r: Vec<(Vec<u8>, Vec<u8>)>)
    ensures
        recs_view(r@) == entries_recs(entries_view(index@)),
{
    let mut out: Vec<(Vec<u8>, Vec<u8>)> = Vec::new();
    let mut i: usize = 0;
    while i < index.len()
        invariant
            i <= index@.len(),
            recs_view(out@) == entries_recs(entries_view(index@)).subrange(0, i as int),
        decreases index@.len() - i,
    {
        let e: &Entry = &index[i];
        let nk = vec_from_slice(e.key.as_slice());
        let nv = vec_from_slice(e.val.as_slice());
        proof {
            assert(e@ == entries_view(index@)[i as int]);
            assert(nk@ == entries_view(index@)[i as int].key);
            assert(nv@ == entries_view(index@)[i as int].val);
        }
        let ghost pre = recs_view(out@);
        out.push((nk, nv));
        proof {
            assert(recs_view(out@) =~= pre.push((
                entries_view(index@)[i as int].key,
                entries_view(index@)[i as int].val,
            )));
            assert(entries_recs(entries_view(index@))[i as int] == (
                entries_view(index@)[i as int].key,
                entries_view(index@)[i as int].val,
            ));
            assert(recs_view(out@) =~= entries_recs(entries_view(index@)).subrange(
                0,
                i + 1 as int,
            ));
        }
        i = i + 1;
    }
    proof {
        let whole = entries_recs(entries_view(index@));
        assert(whole.subrange(0, whole.len() as int) =~= whole);
    }
    out
}

impl RecordStore {
    /// The lowest fully erased page.
    fn find_erased(&self) -> (r: usize)
        requires
            exists|i: int|
                0 <= i < self.meta@.len() && (#[trigger] self.meta@[i]).clean && self.meta@[i].end
                    == 0,
        ensures
            r < self.meta@.len(),
            self.meta@[r as int].clean && self.meta@[r as int].end == 0,
    {
        let mut i: usize = 0;
        while i < self.meta.len()
            invariant
                i <= self.meta@.len(),
                exists|j: int|
                    0 <= j < self.meta@.len() && (#[trigger] self.meta@[j]).clean
                        && self.meta@[j].end == 0,
                forall|j: int|
                    0 <= j < i ==> !((#[trigger] self.meta@[j]).clean && self.meta@[j].end == 0),
            decreases self.meta@.len() - i,
        {
            if self.meta[i].clean && self.meta[i].end == 0 {
                return i;
            }
            i = i + 1;
        }
        proof {
            let j = choose|j: int|
                0 <= j < self.meta@.len() && (#[trigger] self.meta@[j]).clean && self.meta@[j].end
                    == 0;
            assert(false);
        }
        vstd::pervasive::unreached()
    }

    /// Appends one blob, payload first and header last, to a clean page
    /// with room. On success the page's chain grows by exactly the blob
    /// and a fresh sequence number is consumed; on the injected fault the
    /// store demounts with the committed state intact.
    fn append_blob(&mut self, target: usize, payload: &Vec<u8>) -> (r: Result<(), FlashError>)
        requires
            old(self).inv_core(),
            (target as int) < old(self).meta@.len(),
            old(self).meta@[target as int].clean,
            old(self).meta@[target as int].end + HDR_SIZE + payload@.len() <= PAGE_SIZE,
            parse_records(payload@) is Some,
            payload@.len() < 0x1_0000,
            old(self).next_seq < u64::MAX,
            live_size(
                apply_recs(
                    entries_view(old(self).index@),
                    parse_records(payload@)->Some_0,
                    old(self).next_seq as int,
                ),
            ) <= MAX_LIVE,
        ensures
            final(self).ready(),
            final(self).flash_unlimited() == old(self).flash_unlimited(),
            old(self).flash_unlimited() ==> r is Ok,
            old(self).flash.unlimited() ==> final(self).flash.can_op(),
            final(self).flash@.len() == old(self).flash@.len(),
            final(self).meta@.len() == old(self).meta@.len(),
            forall|i: int|
                0 <= i < old(self).meta@.len() && i != target ==> #[trigger] final(self).meta@[i]
                    == old(self).meta@[i],
            forall|i: int|
                0 <= i < old(self).meta@.len() && i != target ==> #[trigger] final(self).flash@[i]
                    == old(self).flash@[i],
            r is Ok ==> final(self).inv_core() && final(self).next_seq == old(self).next_seq + 1
                && entries_view(final(self).index@) == apply_recs(
                entries_view(old(self).index@),
                parse_records(payload@)->Some_0,
                old(self).next_seq as int,
            ) && (forall|k: Seq<u8>|
                pages_lookup(final(self).flash@, k) == combine(
                    pages_lookup(old(self).flash@, k),
                    blob_hit(
                        BlobV {
                            seqno: old(self).next_seq as int,
                            recs: parse_records(payload@)->Some_0,
                        },
                        k,
                    ),
                )) && final(self).meta@[target as int].clean
                && final(self).meta@[target as int].end == old(self).meta@[target as int].end
                + HDR_SIZE + payload@.len(),
            r is Err ==> !final(self).is_mounted() && final(self).index@ == old(self).index@
                && final(self).next_seq == old(self).next_seq && (forall|k: Seq<u8>|
                pages_lookup(final(self).flash@, k) == pages_lookup(old(self).flash@, k)),
    {
        proof {
            old(self).flash.lemma_unlimited_can_op();
            lemma_pow256_vals();
        }
        let s = self.next_seq;
        let end = self.meta[target].end;
        let ghost p0 = self.flash@[target as int];
        let ghost rs = parse_records(payload@)->Some_0;
        let ghost blob = BlobV { seqno: s as int, recs: rs };
        proof {
            assert(range_erased(p0, end as int, PAGE_SIZE as int));
            assert(chain_end(p0) == end as int);
            assert forall|i: int|
                end + HDR_SIZE <= i < end + HDR_SIZE + payload@.len() implies #[trigger] p0[i]
                == ERASED by {
                assert(range_erased(p0, end as int, PAGE_SIZE as int));
            }
        }
        // payload first
        match self.flash.write(target, end + HDR_SIZE, payload.as_slice()) {
            Ok(()) => {},
            Err(e) => {
                self.mounted = false;
                return Err(e);
            },
        }
        let ghost p1 = self.flash@[target as int];
        proof {
            assert(p1 == splice(p0, end + HDR_SIZE, payload@));
            assert(p1.len() == PAGE_SIZE) by {
                assert(self.flash.wf());
            }
            assert forall|i: int| 0 <= i < end + HDR_SIZE implies #[trigger] p1[i] == p0[i] by {
                assert(p1[i] == p0.subrange(0, end + HDR_SIZE)[i]);
            }
            assert forall|i: int| end <= i < end + HDR_SIZE implies #[trigger] p1[i] == ERASED by {
                assert(p1[i] == p0[i]);
                assert(range_erased(p0, end as int, PAGE_SIZE as int));
            }
        }
        // header last: the blob becomes visible atomically
        let ck = checksum(payload.as_slice());
        let mut hdr: Vec<u8> = Vec::new();
        hdr.push(MAGIC);
        push_le(&mut hdr, s, 8);
        push_le(&mut hdr, payload.len() as u64, 2);
        push_le(&mut hdr, ck as u64, 4);
        proof {
            lemma_le_bytes_len(s as int, 8);
            lemma_le_bytes_len(payload@.len() as int, 2);
            lemma_le_bytes_len(ck as int, 4);
            assert(hdr@.len() == HDR_SIZE);
            assert(hdr@ + payload@ =~= enc_blob(s as int, payload@));
        }
        let ghost pre_hdr_flash = self.flash@;
        match self.flash.write(target, end, hdr.as_slice()) {
            Ok(()) => {},
            Err(e) => {
                self.mounted = false;
                proof {
                    // the torn payload is invisible: the header byte stays erased
                    lemma_parse_end_mono(p0, 0);
                    lemma_parse_compose(p0, p1, 0);
                    if end + HDR_SIZE > PAGE_SIZE {
                        assert(parse_full(p1, end as int).0 =~= Seq::<BlobV>::empty());
                    } else {
                        assert(p1[end as int] == ERASED);
                        assert(parse_full(p1, end as int).0 =~= Seq::<BlobV>::empty());
                    }
                    assert(page_blobs(p1) =~= page_blobs(p0));
                    assert forall|k: Seq<u8>|
                        pages_lookup(self.flash@, k) == pages_lookup(old(self).flash@, k) by {
                        lemma_pages_split(old(self).flash@, target as int, k);
                        lemma_pages_split(self.flash@, target as int, k);
                        assert(self.flash@.subrange(0, target as int) =~= old(
                            self,
                        ).flash@.subrange(0, target as int));
                        assert(self.flash@.subrange(target + 1, self.flash@.len() as int) =~= old(
                            self,
                        ).flash@.subrange(target + 1, old(self).flash@.len() as int));
                        assert(page_hit(self.flash@[target as int], k) == page_hit(
                            old(self).flash@[target as int],
                            k,
                        ));
                    }
                }
                return Err(e);
            },
        }
        let ghost p2 = self.flash@[target as int];
        proof {
            assert(p2 == splice(p1, end as int, hdr@));
            // the two writes laid down exactly the encoded blob
            assert(p2 =~= splice(p0, end as int, enc_blob(s as int, payload@))) by {
                let eb = enc_blob(s as int, payload@);
                assert(eb.len() == HDR_SIZE + payload@.len());
                assert forall|i: int| 0 <= i < PAGE_SIZE implies p2[i] == splice(
                    p0,
                    end as int,
                    eb,
                )[i] by {
                    let tgt = splice(p0, end as int, eb);
                    assert(tgt[i] == (p0.subrange(0, end as int) + eb + p0.subrange(
                        end + eb.len(),
                        PAGE_SIZE as int,
                    ))[i]);
                    assert(p2[i] == (p1.subrange(0, end as int) + hdr@ + p1.subrange(
                        end + HDR_SIZE,
                        PAGE_SIZE as int,
                    ))[i]);
                    if i < end {
                        assert(p1[i] == p0[i]);
                    } else if i < end + HDR_SIZE {
                        assert(p2[i] == hdr@[i - end]);
                        assert(eb[i - end] == hdr@[i - end]);
                    } else if i < end + eb.len() {
                        assert(p2[i] == p1[i]);
                        assert(p1[i] == payload@[i - end - HDR_SIZE]);
                        assert(eb[i - end] == (hdr@ + payload@)[i - end]);
                    } else {
                        assert(p2[i] == p1[i]);
                        assert(p1[i] == p0[i]);
                    }
                }
            }
            lemma_checksum_bound(payload@);
            lemma_parse_append(p0, p2, s as int, payload@, rs);
            assert(page_blobs(p2) == page_blobs(p0).push(blob));
        }
        // bookkeeping
        let new_end = end + HDR_SIZE + payload.len();
        self.meta.set(target, PageMeta { end: new_end, clean: true });
        let ghost pre_index = entries_view(self.index@);
        let recs_exec = match parse_records_exec(payload.as_slice()) {
            Some(v) => v,
            None => {
                proof {
                    assert(false);
                }
                vstd::pervasive::unreached()
            },
        };
        apply_blob(&mut self.index, &recs_exec, s);
        self.next_seq = s + 1;
        proof {
            assert(recs_view(recs_exec@) == rs);
            // lookup: the new blob dominates everything on the device
            assert forall|k: Seq<u8>|
                pages_lookup(self.flash@, k) == combine(
                    pages_lookup(old(self).flash@, k),
                    blob_hit(blob, k),
                ) by {
                lemma_lookup_after_append(
                    old(self).flash@,
                    self.flash@,
                    target as int,
                    blob,
                    s as int,
                    k,
                );
            }
            assert forall|k: Seq<u8>| #[trigger] index_hit(entries_view(self.index@), k)
                == pages_lookup(self.flash@, k) by {
                lemma_apply_recs_hit(pre_index, rs, s as int, k);
                assert(index_hit(pre_index, k) == pages_lookup(old(self).flash@, k));
            }
            assert(seqs_below(self.flash@, self.next_seq as int)) by {
                assert forall|i: int| 0 <= i < self.flash@.len() implies chain_seqs_below(
                    page_blobs(#[trigger] self.flash@[i]),
                    self.next_seq as int,
                ) by {
                    if i == target {
                        assert forall|j: int|
                            0 <= j < page_blobs(p2).len() implies (#[trigger] page_blobs(
                            p2,
                        )[j]).seqno < self.next_seq as int by {
                            if j < page_blobs(p0).len() {
                                assert(page_blobs(p2)[j] == page_blobs(p0)[j]);
                                assert(chain_seqs_below(
                                    page_blobs(old(self).flash@[i]),
                                    old(self).next_seq as int,
                                ));
                            } else {
                                assert(page_blobs(p2)[j] == blob);
                            }
                        }
                    } else {
                        assert(self.flash@[i] == old(self).flash@[i]);
                        assert(chain_seqs_below(
                            page_blobs(old(self).flash@[i]),
                            old(self).next_seq as int,
                        ));
                    }
                }
            }
            assert forall|i: int| 0 <= i < self.meta@.len() implies ((
            #[trigger] self.meta@[i]).clean ==> (chain_end(self.flash@[i]) == self.meta@[i].end
                && self.meta@[i].end <= PAGE_SIZE && range_erased(
                self.flash@[i],
                self.meta@[i].end as int,
                PAGE_SIZE as int,
            ))) by {
                if i != target {
                    assert(self.meta@[i] == old(self).meta@[i]);
                    assert(self.flash@[i] == old(self).flash@[i]);
                }
            }
        }
        Ok(())
    }
}

impl RecordStore {
    /// Compacts the log: one snapshot blob holding every live record goes
    /// to an erased page under a fresh sequence number, then every other
    /// page is erased. Until the snapshot's header is on flash the old
    /// pages carry the state; afterwards they are superseded, so a power
    /// cut anywhere in between loses nothing. Returns the snapshot page.
    fn compact(&mut self) -> (r: Result<usize, FlashError>)
        requires
            old(self).inv(),
            old(self).next_seq < u64::MAX,
        ensures
            final(self).ready(),
            final(self).flash_unlimited() == old(self).flash_unlimited(),
            old(self).flash_unlimited() ==> r is Ok,
            forall|k: Seq<u8>|
                flash_lookup(final(self).flash@, k) == flash_lookup(old(self).flash@, k),
            r matches Ok(t) ==> final(self).inv() && (t as int) < final(self).meta@.len()
                && final(self).meta@.len() == old(self).meta@.len() && (forall|i: int|
                0 <= i < final(self).meta@.len() && i != t
                    ==> (#[trigger] final(self).meta@[i]).clean && final(self).meta@[i].end == 0)
                && same_kv(entries_view(final(self).index@), entries_view(old(self).index@))
                && seqs_at_most(entries_view(final(self).index@), old(self).next_seq as int)
                && final(self).next_seq == old(self).next_seq + 1,
            r is Err ==> !final(self).is_mounted(),
    {
        proof {
            old(self).flash.lemma_unlimited_can_op();
        }
        let t = self.find_erased();
        let recs = index_to_records(&self.index);
        let ghost old_idx = entries_view(self.index@);
        let ghost f0 = self.flash@;
        let s = self.next_seq;
        proof {
            assert(recs_wf(recs_view(recs@))) by {
                assert forall|j: int| 0 <= j < recs_view(recs@).len() implies rec_wf(
                    #[trigger] recs_view(recs@)[j],
                ) by {
                    assert(recs_view(recs@)[j] == entries_recs(old_idx)[j]);
                    assert(rec_wf((old_idx[j].key, old_idx[j].val)));
                }
            }
            lemma_parse_enc_recs(recs_view(recs@));
            lemma_enc_recs_len(recs_view(recs@));
            lemma_entries_recs_size(old_idx);
            // every index sequence number is strictly below the snapshot's
            assert(seqs_at_most(old_idx, s as int)) by {
                assert forall|i: int| 0 <= i < old_idx.len() implies (#[trigger] old_idx[i]).seqno
                    <= s as int by {
                    assert(forall|j: int| 0 <= j < i ==> (#[trigger] old_idx[j]).key
                        != old_idx[i].key);
                    lemma_index_hit_first(old_idx, i, old_idx[i].key);
                    assert(index_hit(old_idx, old_idx[i].key) == pages_lookup(
                        f0,
                        old_idx[i].key,
                    ));
                    lemma_pages_seq_bound(f0, old_idx[i].key, s as int);
                }
            }
            assert forall|j: int| 0 <= j < entries_recs(old_idx).len() implies exists|m: int|
                0 <= m < old_idx.len() && (#[trigger] old_idx[m]).key == (#[trigger] entries_recs(
                old_idx,
            )[j]).0 && old_idx[m].val == entries_recs(old_idx)[j].1 by {
                assert(0 <= j < old_idx.len() && old_idx[j].key == entries_recs(old_idx)[j].0
                    && old_idx[j].val == entries_recs(old_idx)[j].1);
            }
            lemma_apply_own(old_idx, entries_recs(old_idx), s as int);
            lemma_live_size_same_kv(apply_recs(old_idx, entries_recs(old_idx), s as int), old_idx);
            lemma_pow256_vals();
        }
        let payload = encode_records(&recs);
        match self.append_blob(t, &payload) {
            Ok(()) => {},
            Err(e) => {
                proof {
                    assert forall|k: Seq<u8>| #[trigger] flash_lookup(self.flash@, k)
                        == flash_lookup(old(self).flash@, k) by {
                        assert(pages_lookup(self.flash@, k) == pages_lookup(
                            old(self).flash@,
                            k,
                        ));
                    }
                }
                return Err(e);
            },
        }
        let ghost f1 = self.flash@;
        let ghost snap = BlobV { seqno: s as int, recs: entries_recs(old_idx) };
        proof {
            assert(parse_records(payload@)->Some_0 == entries_recs(old_idx));
            // after the snapshot every answer carries its sequence number
            assert forall|k: Seq<u8>| #[trigger] flash_lookup(f1, k) == flash_lookup(f0, k) by {
                lemma_blob_lookup_entries(old_idx, k);
                lemma_pages_seq_bound(f0, k, s as int);
                assert(pages_lookup(f1, k) == combine(pages_lookup(f0, k), blob_hit(snap, k)));
                assert(index_hit(old_idx, k) == pages_lookup(f0, k));
            }
            assert forall|k: Seq<u8>| (#[trigger] pages_lookup(f1, k)) is Some implies
                pages_lookup(f1, k)->Some_0.seqno == s as int by {
                lemma_blob_lookup_entries(old_idx, k);
                lemma_pages_seq_bound(f0, k, s as int);
                assert(pages_lookup(f1, k) == combine(pages_lookup(f0, k), blob_hit(snap, k)));
                assert(index_hit(old_idx, k) == pages_lookup(f0, k));
            }
        }
        // erase the superseded pages
        let n = self.flash.page_count();
        proof {
            assert(n == old(self).meta@.len());
            assert forall|j: int| 0 <= j < n && j != t implies #[trigger] self.flash@[j] == old(
                self,
            ).flash@[j] by {
                assert(self.flash@[j] == old(self).flash@[j]);
            }
            assert forall|j: int| 0 <= j < n && j != t implies #[trigger] self.meta@[j] == old(
                self,
            ).meta@[j] by {
                assert(self.meta@[j] == old(self).meta@[j]);
            }
        }
        let mut i: usize = 0;
        while i < n
            invariant
                i <= n,
                (t as int) < n,
                n == self.flash@.len(),
                n == old(self).flash@.len(),
                n == old(self).meta@.len(),
                self.inv_core(),
                self.meta@.len() == n,
                self.next_seq == s + 1,
                s as int == old(self).next_seq as int,
                entries_view(self.index@) == apply_recs(old_idx, entries_recs(old_idx), s as int),
                same_kv(entries_view(self.index@), old_idx),
                seqs_at_most(entries_view(self.index@), s as int),
                old_idx == entries_view(old(self).index@),
                forall|k: Seq<u8>| #[trigger] pages_lookup(self.flash@, k) == pages_lookup(f1, k),
                forall|k: Seq<u8>|
                    #[trigger] flash_lookup(f1, k) == flash_lookup(old(self).flash@, k),
                forall|k: Seq<u8>|
                    (#[trigger] pages_lookup(f1, k)) matches Some(h) ==> h.seqno == s as int,
                forall|j: int|
                    0 <= j < i && j != t ==> (#[trigger] self.meta@[j]).clean && self.meta@[j].end
                        == 0,
                forall|j: int|
                    i <= j < n && j != t ==> #[trigger] self.flash@[j] == old(self).flash@[j],
                forall|j: int|
                    i <= j < n && j != t ==> #[trigger] self.meta@[j] == old(self).meta@[j],
                self.meta@[t as int].clean,
                seqs_below(old(self).flash@, s as int),
                self.flash.unlimited() == old(self).flash.unlimited(),
                old(self).flash.unlimited() ==> self.flash.can_op(),
            decreases n - i,
        {
            if i != t {
                let already = self.meta[i].clean && self.meta[i].end == 0;
                if !already {
                    let ghost pre = self.flash@;
                    let ghost premeta = self.meta@;
                    match self.flash.erase(i) {
                        Ok(()) => {},
                        Err(e) => {
                            self.mounted = false;
                            proof {
                                assert forall|k: Seq<u8>| #[trigger] flash_lookup(self.flash@, k)
                                    == flash_lookup(old(self).flash@, k) by {
                                    assert(pages_lookup(self.flash@, k) == pages_lookup(f1, k));
                                    assert(flash_lookup(f1, k) == flash_lookup(
                                        old(self).flash@,
                                        k,
                                    ));
                                }
                            }
                            return Err(e);
                        },
                    }
                    proof {
                        lemma_erased_page_blobs();
                        assert forall|k: Seq<u8>| #[trigger] pages_lookup(self.flash@, k)
                            == pages_lookup(pre, k) by {
                            assert(page_hit(self.flash@[i as int], k) is None) by {
                                assert(self.flash@[i as int] == erased_page());
                                assert(chain_lookup(Seq::<BlobV>::empty(), k) is None);
                            }
                            match page_hit(pre[i as int], k) {
                                None => {},
                                Some(h) => {
                                    assert(pre[i as int] == old(self).flash@[i as int]);
                                    assert(chain_seqs_below(
                                        page_blobs(old(self).flash@[i as int]),
                                        s as int,
                                    ));
                                    lemma_chain_seq_bound(
                                        page_blobs(old(self).flash@[i as int]),
                                        k,
                                        s as int,
                                    );
                                    assert(h.seqno < s as int);
                                    lemma_pages_split(pre, i as int, k);
                                    assert(pages_lookup(pre, k) is Some);
                                    assert(pages_lookup(pre, k) == pages_lookup(f1, k));
                                    assert(pages_lookup(pre, k)->Some_0.seqno == s as int);
                                },
                            }
                            lemma_lookup_after_drop(pre, self.flash@, i as int, k);
                        }
                    }
                    self.meta.set(i, PageMeta { end: 0, clean: true });
                    proof {
                        lemma_erased_page_blobs();
                        assert forall|k: Seq<u8>| #[trigger] index_hit(
                            entries_view(self.index@),
                            k,
                        ) == pages_lookup(self.flash@, k) by {
                            assert(pages_lookup(self.flash@, k) == pages_lookup(pre, k));
                        }
                        assert(seqs_below(self.flash@, self.next_seq as int)) by {
                            assert forall|j: int| 0 <= j < self.flash@.len() implies
                                chain_seqs_below(
                                page_blobs(#[trigger] self.flash@[j]),
                                self.next_seq as int,
                            ) by {
                                if j == i {
                                    assert(page_blobs(self.flash@[j]) == Seq::<BlobV>::empty());
                                } else {
                                    assert(self.flash@[j] == pre[j]);
                                    assert(chain_seqs_below(
                                        page_blobs(pre[j]),
                                        self.next_seq as int,
                                    ));
                                }
                            }
                        }
                        assert forall|j: int| 0 <= j < self.meta@.len() implies ((
                        #[trigger] self.meta@[j]).clean ==> (chain_end(self.flash@[j])
                            == self.meta@[j].end && self.meta@[j].end <= PAGE_SIZE && range_erased(
                            self.flash@[j],
                            self.meta@[j].end as int,
                            PAGE_SIZE as int,
                        ))) by {
                            if j != i {
                                assert(self.flash@[j] == pre[j]);
                                assert(self.meta@[j] == premeta[j]);
                            } else {
                                assert(self.flash@[j] == erased_page());
                            }
                        }
                        assert forall|j: int| i + 1 <= j < n && j != t implies
                            #[trigger] self.flash@[j] == old(self).flash@[j] by {
                            assert(self.flash@[j] == pre[j]);
                        }
                        assert forall|j: int| i + 1 <= j < n && j != t implies
                            #[trigger] self.meta@[j] == old(self).meta@[j] by {
                            assert(self.meta@[j] == premeta[j]);
                        }
                    }
                }
            }
            i = i + 1;
        }
        proof {
            let ghost w: int = if t == 0 {
                1
            } else {
                0
            };
            assert(self.meta@[w].clean && self.meta@[w].end == 0);
            assert forall|k: Seq<u8>| #[trigger] flash_lookup(self.flash@, k) == flash_lookup(
                old(self).flash@,
                k,
            ) by {
                assert(pages_lookup(self.flash@, k) == pages_lookup(f1, k));
                assert(flash_lookup(f1, k) == flash_lookup(old(self).flash@, k));
            }
        }
        Ok(t)
    }
}


/// After an append whose blob dominates everything older, the committed
/// value of each key is the blob's record for it, or what it was before.
proof fn lemma_override_lookup(pre: Seq<Seq<u8>>, post: Seq<Seq<u8>>, b: BlobV, k: Seq<u8>)
    requires
        pages_lookup(post, k) == combine(pages_lookup(pre, k), blob_hit(b, k)),
        seqs_below(pre, b.seqno),
    ensures
        flash_lookup(post, k) == (match blob_lookup(b.recs, k) {
            Some(v) => Some(v),
            None => flash_lookup(pre, k),
        }),
{
    lemma_pages_seq_bound(pre, k, b.seqno);
}

impl RecordStore {
    /// Every index sequence number is strictly below the next fresh one.
    proof fn lemma_index_seqs(&self)
        requires
            self.inv_core(),
        ensures
            seqs_at_most(entries_view(self.index@), self.next_seq as int),
    {
        let es = entries_view(self.index@);
        assert forall|i: int| 0 <= i < es.len() implies (#[trigger] es[i]).seqno
            <= self.next_seq as int by {
            assert(forall|j: int| 0 <= j < i ==> (#[trigger] es[j]).key != es[i].key);
            lemma_index_hit_first(es, i, es[i].key);
            assert(index_hit(es, es[i].key) == pages_lookup(self.flash@, es[i].key));
            lemma_pages_seq_bound(self.flash@, es[i].key, self.next_seq as int);
        }
    }

    /// The first two fully erased pages, if they exist.
    fn find_two_erased(&self) -> (r: (Option<usize>, Option<usize>))
        ensures
            match r {
                (Some(a), Some(b)) => a < b && (b as int) < self.meta@.len()
                    && self.meta@[a as int].clean && self.meta@[a as int].end == 0
                    && self.meta@[b as int].clean && self.meta@[b as int].end == 0,
                (Some(a), None) => (a as int) < self.meta@.len() && self.meta@[a as int].clean
                    && self.meta@[a as int].end == 0 && (forall|j: int|
                    0 <= j < self.meta@.len() && j != a ==> !((#[trigger] self.meta@[j]).clean
                        && self.meta@[j].end == 0)),
                (None, None) => forall|j: int|
                    0 <= j < self.meta@.len() ==> !((#[trigger] self.meta@[j]).clean
                        && self.meta@[j].end == 0),
                (None, Some(_)) => false,
            },
    {
        let mut first: Option<usize> = None;
        let mut i: usize = 0;
        while i < self.meta.len()
            invariant
                i <= self.meta@.len(),
                match first {
                    Some(a) => (a as int) < i && self.meta@[a as int].clean
                        && self.meta@[a as int].end == 0 && (forall|j: int|
                        0 <= j < i && j != a ==> !((#[trigger] self.meta@[j]).clean
                            && self.meta@[j].end == 0)),
                    None => forall|j: int|
                        0 <= j < i ==> !((#[trigger] self.meta@[j]).clean && self.meta@[j].end
                            == 0),
                },
            decreases self.meta@.len() - i,
        {
            if self.meta[i].clean && self.meta[i].end == 0 {
                match first {
                    None => {
                        first = Some(i);
                    },
                    Some(a) => {
                        return (Some(a), Some(i));
                    },
                }
            }
            i = i + 1;
        }
        (first, None)
    }

    /// Commits every staged record as one atomic unit: either all of them
    /// become durable or, on the injected fault, none do. Rejects a
    /// transaction the store cannot hold (`CapacityExceeded`, exactly when
    /// the staged payload or the merged live set would pass the capacity)
    /// and one for which no fresh sequence numbers remain
    /// (`SequenceExhausted`). After a flash fault the store demounts with
    /// the previously committed state intact on the device.
    pub fn commit(&mut self, txn: Transaction) -> (r: Result<(), CommitError>)
        requires
            old(self).inv(),
            txn.wf(),
        ensures
            final(self).ready(),
            final(self).flash_unlimited() == old(self).flash_unlimited(),
            r is Ok ==> final(self).inv() && (forall|k: Seq<u8>|
                final(self).lookup(k) == (match blob_lookup(txn@, k) {
                    Some(v) => Some(v),
                    None => old(self).lookup(k),
                })),
            r is Err ==> (forall|k: Seq<u8>|
                #[trigger] final(self).lookup(k) == old(self).lookup(k)),
            r == Err::<(), CommitError>(CommitError::CapacityExceeded) <==> !old(self).fits(txn@),
            r == Err::<(), CommitError>(CommitError::SequenceExhausted) <==> (old(self).fits(txn@)
                && !old(self).seq_headroom()),
            (r == Err::<(), CommitError>(CommitError::CapacityExceeded) || r == Err::<
                (),
                CommitError,
            >(CommitError::SequenceExhausted)) ==> final(self).inv(),
            (r matches Err(e) && e matches CommitError::Flash(_)) ==> !old(self).flash_unlimited()
                && !final(self).is_mounted(),
            old(self).flash_unlimited() && old(self).fits(txn@) && old(self).seq_headroom()
                ==> r is Ok,
            r is Ok ==> final(self).live_bytes() == live_size(old(self).merged_index(txn@)),
            r is Ok ==> final(self).next_sequence() <= old(self).next_sequence() + 2,
    {
        proof {
            old(self).flash.lemma_unlimited_can_op();
            lemma_pow256_vals();
        }
        let ghost f0 = self.flash@;
        let ghost idx0 = entries_view(self.index@);
        let ghost s0 = self.next_seq as int;
        let payload = encode_records(&txn.staged);
        proof {
            lemma_enc_recs_len(txn@);
            lemma_parse_enc_recs(txn@);
        }
        if payload.len() > MAX_LIVE {
            return Err(CommitError::CapacityExceeded);
        }
        let mut merged = clone_entries(&self.index);
        apply_blob(&mut merged, &txn.staged, self.next_seq);
        proof {
            assert(entries_view(merged@) == self.merged_index(txn@));
        }
        match live_bytes_checked(&merged) {
            Some(_) => {},
            None => {
                return Err(CommitError::CapacityExceeded);
            },
        }
        if self.next_seq >= u64::MAX - 1 {
            return Err(CommitError::SequenceExhausted);
        }
        let need = HDR_SIZE + payload.len();
        let n = self.meta.len();
        // prefer a partially used clean page with room
        let mut target: usize = 0;
        let mut have_target = false;
        let mut i: usize = 0;
        while i < n
            invariant
                i <= n,
                n == self.meta@.len(),
                need <= PAGE_SIZE,
                have_target ==> (target as int) < n && self.meta@[target as int].clean
                    && self.meta@[target as int].end > 0 && self.meta@[target as int].end + need
                    <= PAGE_SIZE,
            decreases n - i,
        {
            if !have_target && self.meta[i].clean && self.meta[i].end > 0 && self.meta[i].end
                <= PAGE_SIZE && PAGE_SIZE - self.meta[i].end >= need {
                target = i;
                have_target = true;
            }
            i = i + 1;
        }
        let ghost blob0 = BlobV { seqno: s0, recs: txn@ };
        if have_target {
            let ghost w = choose|w: int|
                0 <= w < self.meta@.len() && (#[trigger] self.meta@[w]).clean && self.meta@[w].end
                    == 0;
            match self.append_blob(target, &payload) {
                Ok(()) => {
                    proof {
                        assert(self.meta@[w].clean && self.meta@[w].end == 0);
                        assert(entries_view(self.index@) == old(self).merged_index(txn@));
                        assert forall|k: Seq<u8>|
                            final(self).lookup(k) == (match blob_lookup(txn@, k) {
                                Some(v) => Some(v),
                                None => old(self).lookup(k),
                            }) by {
                            lemma_override_lookup(f0, self.flash@, blob0, k);
                        }
                    }
                    Ok(())
                },
                Err(e) => {
                    proof {
                        assert forall|k: Seq<u8>| #[trigger] final(self).lookup(k) == old(
                            self,
                        ).lookup(k) by {
                            assert(pages_lookup(self.flash@, k) == pages_lookup(f0, k));
                        }
                    }
                    Err(CommitError::Flash(e))
                },
            }
        } else {
            let (e1, e2) = self.find_two_erased();
            match (e1, e2) {
                (Some(a), Some(b)) => {
                    let ghost w = b as int;
                    match self.append_blob(a, &payload) {
                        Ok(()) => {
                            proof {
                                assert(self.meta@[w].clean && self.meta@[w].end == 0);
                                assert(entries_view(self.index@) == old(self).merged_index(txn@));
                                assert forall|k: Seq<u8>|
                                    final(self).lookup(k) == (match blob_lookup(txn@, k) {
                                        Some(v) => Some(v),
                                        None => old(self).lookup(k),
                                    }) by {
                                    lemma_override_lookup(f0, self.flash@, blob0, k);
                                }
                            }
                            Ok(())
                        },
                        Err(e) => {
                            proof {
                                assert forall|k: Seq<u8>| #[trigger] final(self).lookup(k) == old(
                                    self,
                                ).lookup(k) by {
                                    assert(pages_lookup(self.flash@, k) == pages_lookup(f0, k));
                                }
                            }
                            Err(CommitError::Flash(e))
                        },
                    }
                },
                _ => {
                    // no room anywhere: compact first
                    proof {
                        self.lemma_index_seqs();
                    }
                    let t = match self.compact() {
                        Ok(t) => t,
                        Err(e) => {
                            return Err(CommitError::Flash(e));
                        },
                    };
                    let target2: usize = if t == 0 {
                        1
                    } else {
                        0
                    };
                    let ghost w: int = if t == 0 || target2 == 0 {
                        if t == 1 || target2 == 1 {
                            2
                        } else {
                            1
                        }
                    } else {
                        0
                    };
                    let ghost f1 = self.flash@;
                    let ghost idx1 = entries_view(self.index@);
                    proof {
                        assert(self.meta@[target2 as int].clean && self.meta@[target2 as int].end
                            == 0);
                        assert(0 <= w < self.meta@.len() && w != t && w != target2);
                        assert(self.meta@[w].clean && self.meta@[w].end == 0);
                        // capacity carries over: the compacted index has the
                        // same keys and values
                        assert(same_kv(idx0, idx1));
                        assert(seqs_at_most(idx0, s0));
                        assert(seqs_at_most(idx1, self.next_seq as int)) by {
                            assert(seqs_at_most(idx1, s0));
                        }
                        lemma_apply_recs_parallel(idx0, idx1, txn@, s0, self.next_seq as int);
                        lemma_live_size_same_kv(
                            apply_recs(idx0, txn@, s0),
                            apply_recs(idx1, txn@, self.next_seq as int),
                        );
                    }
                    let ghost blob1 = BlobV { seqno: self.next_seq as int, recs: txn@ };
                    match self.append_blob(target2, &payload) {
                        Ok(()) => {
                            proof {
                                assert(self.meta@[w].clean && self.meta@[w].end == 0);
                                assert(entries_view(self.index@) == apply_recs(
                                    idx1,
                                    txn@,
                                    s0 + 1,
                                ));
                                assert(live_size(entries_view(self.index@)) == live_size(
                                    old(self).merged_index(txn@),
                                ));
                                assert forall|k: Seq<u8>|
                                    final(self).lookup(k) == (match blob_lookup(txn@, k) {
                                        Some(v) => Some(v),
                                        None => old(self).lookup(k),
                                    }) by {
                                    lemma_override_lookup(f1, self.flash@, blob1, k);
                                    assert(flash_lookup(f1, k) == flash_lookup(f0, k));
                                }
                            }
                            Ok(())
                        },
                        Err(e) => {
                            proof {
                                assert forall|k: Seq<u8>| #[trigger] final(self).lookup(k) == old(
                                    self,
                                ).lookup(k) by {
                                    assert(pages_lookup(self.flash@, k) == pages_lookup(f1, k));
                                    assert(flash_lookup(f1, k) == flash_lookup(f0, k));
                                }
                            }
                            Err(CommitError::Flash(e))
                        },
                    }
                },
            }
        }
    }
}


// ---------------------------------------------------------------------
// Laws
// ---------------------------------------------------------------------

/// Law: durability. When a commit succeeds (`s0` before, `s1` after: the
/// committed state is the old one overridden by the staged records, as
/// `commit` ensures), and the device is then remounted (`s2`, which
/// `mount` ensures answers exactly as the device did), a read of any key
/// the transaction staged returns the staged value.
pub proof fn lemma_commit_durability(
    s0: RecordStore,
    s1: RecordStore,
    s2: RecordStore,
    staged: Seq<(Seq<u8>, Seq<u8>)>,
    k: Seq<u8>,
    v: Seq<u8>,
)
    requires
        forall|q: Seq<u8>|
            #[trigger] s1.lookup(q) == (match blob_lookup(staged, q) {
                Some(x) => Some(x),
                None => s0.lookup(q),
            }),
        forall|q: Seq<u8>| #[trigger] s2.lookup(q) == s1.lookup(q),
        blob_lookup(staged, k) == Some(v),
    ensures
        s2.lookup(k) == Some(v),
{
}

/// Law: atomicity. When a commit fails mid-flight (`s0` before, `s1`
/// after: `commit` ensures the committed state is unchanged on every
/// failure), a remount (`s2`) shows the pre-transaction value for every
/// key — a torn transaction is never partially visible.
pub proof fn lemma_commit_atomicity(s0: RecordStore, s1: RecordStore, s2: RecordStore, k: Seq<u8>)
    requires
        forall|q: Seq<u8>| #[trigger] s1.lookup(q) == s0.lookup(q),
        forall|q: Seq<u8>| #[trigger] s2.lookup(q) == s1.lookup(q),
    ensures
        s2.lookup(k) == s0.lookup(k),
{
}


impl RecordStore {
    /// The boot policy: mount, and only on a device with no usable layout
    /// format once — the one destructive step a boot may take, and it
    /// never touches a mountable device.
    pub fn mount_or_format(&mut self) -> (r: Result<(), FormatError>)
        requires
            old(self).ready(),
        ensures
            final(self).ready(),
            final(self).flash_unlimited() == old(self).flash_unlimited(),
            old(self).flash_unlimited() ==> r is Ok,
            mountable(old(self).flash_view()) ==> r is Ok,
            r is Ok ==> final(self).inv(),
            r is Ok && mountable(old(self).flash_view()) ==> (forall|k: Seq<u8>|
                #[trigger] final(self).lookup(k) == flash_lookup(old(self).flash_view(), k)),
            r is Ok && !mountable(old(self).flash_view()) ==> (forall|k: Seq<u8>|
                #[trigger] final(self).lookup(k) is None),
    {
        match self.mount() {
            Ok(()) => {
                proof {
                    assert forall|k: Seq<u8>| #[trigger] self.lookup(k) == flash_lookup(
                        old(self).flash_view(),
                        k,
                    ) by {
                        assert(self.flash_view() == old(self).flash_view());
                    }
                }
                Ok(())
            },
            Err(_) => self.format(),
        }
    }
}

} // verus!
