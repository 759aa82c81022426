//! The in-memory record index and its meaning.
//!
//! A mounted store keeps one `Entry` per live key: the latest committed
//! value and the sequence number of the blob that wrote it. The canonical
//! index of a device is a fold: apply every blob of every page, in scan
//! order, record by record, keeping a record only when its sequence number
//! is not beaten by what the index already holds. The central lemma says a
//! key's entry in that fold is exactly the device-wide lookup winner.

use vstd::prelude::*;

use crate::layout::{BlobV, Hit, combine, blob_hit, blob_lookup, chain_lookup, pages_lookup,
    page_blobs, rec_wf, recs_wf, REC_HDR};

verus! {

/// Ghost image of one index entry.
pub ghost struct EntryV {
    pub key: Seq<u8>,
    pub val: Seq<u8>,
    pub seqno: int,
}

/// One live record: key, latest value, and the winning sequence number.
pub struct Entry {
    pub key: Vec<u8>,
    pub val: Vec<u8>,
    pub seqno: u64,
}

impl View for Entry {
    type V = EntryV;

    open spec fn view(&self) -> EntryV {
        EntryV { key: self.key@, val: self.val@, seqno: self.seqno as int }
    }
}

pub open spec fn entries_view(es: Seq<Entry>) -> Seq<EntryV> {
    Seq::new(es.len(), |i: int| es[i]@)
}

/// The index's answer for a key: the first (and only) entry with that key.
pub open spec fn index_hit(es: Seq<EntryV>, k: Seq<u8>) -> Option<Hit>
    decreases es.len(),
{
    if es.len() == 0 {
        None
    } else if es[0].key == k {
        Some(Hit { seqno: es[0].seqno, val: es[0].val })
    } else {
        index_hit(es.drop_first(), k)
    }
}

/// No two entries share a key.
pub open spec fn index_unique(es: Seq<EntryV>) -> bool {
    forall|i: int, j: int| 0 <= i < j < es.len() ==> (#[trigger] es[i]).key != (#[trigger] es[j]).key
}

/// Every entry respects the record bounds.
pub open spec fn index_recs_wf(es: Seq<EntryV>) -> bool {
    forall|i: int| 0 <= i < es.len() ==> rec_wf(((#[trigger] es[i]).key, es[i].val))
}

/// Bytes the live records take on flash, record headers included.
pub open spec fn live_size(es: Seq<EntryV>) -> int
    decreases es.len(),
{
    if es.len() == 0 {
        0
    } else {
        live_size(es.drop_last()) + REC_HDR + es.last().key.len() + es.last().val.len()
    }
}

/// Applies one record with sequence number `s`: replaces the key's entry
/// unless a strictly newer one is already held; a new key goes to the end.
pub open spec fn apply_rec(es: Seq<EntryV>, k: Seq<u8>, v: Seq<u8>, s: int) -> Seq<EntryV>
    decreases es.len(),
{
    if es.len() == 0 {
        seq![EntryV { key: k, val: v, seqno: s }]
    } else if es[0].key == k {
        if es[0].seqno <= s {
            seq![EntryV { key: k, val: v, seqno: s }] + es.drop_first()
        } else {
            es
        }
    } else {
        seq![es[0]] + apply_rec(es.drop_first(), k, v, s)
    }
}

/// Applies a run of records, in order, all at sequence number `s`.
pub open spec fn apply_recs(es: Seq<EntryV>, rs: Seq<(Seq<u8>, Seq<u8>)>, s: int) -> Seq<EntryV>
    decreases rs.len(),
{
    if rs.len() == 0 {
        es
    } else {
        apply_recs(apply_rec(es, rs[0].0, rs[0].1, s), rs.drop_first(), s)
    }
}

/// Applies a chain of blobs, in order.
pub open spec fn apply_chain(es: Seq<EntryV>, blobs: Seq<BlobV>) -> Seq<EntryV>
    decreases blobs.len(),
{
    if blobs.len() == 0 {
        es
    } else {
        apply_chain(apply_recs(es, blobs[0].recs, blobs[0].seqno), blobs.drop_first())
    }
}

/// The canonical index of a device: every page's chain applied in order.
pub open spec fn build_index(es: Seq<EntryV>, pages: Seq<Seq<u8>>) -> Seq<EntryV>
    decreases pages.len(),
{
    if pages.len() == 0 {
        es
    } else {
        build_index(apply_chain(es, page_blobs(pages[0])), pages.drop_first())
    }
}

// ---------------------------------------------------------------------
// Front-unfolding of the back-recursive lookups
// ---------------------------------------------------------------------

pub proof fn lemma_blob_lookup_cons(r: (Seq<u8>, Seq<u8>), rs: Seq<(Seq<u8>, Seq<u8>)>, k: Seq<u8>)
    ensures
        blob_lookup(seq![r] + rs, k) == if blob_lookup(rs, k) is Some {
            blob_lookup(rs, k)
        } else if r.0 == k {
            Some(r.1)
        } else {
            None
        },
    decreases rs.len(),
{
    if rs.len() == 0 {
        assert((seq![r] + rs).len() == 1);
        assert((seq![r] + rs).last() == r);
        assert((seq![r] + rs).drop_last() =~= Seq::<(Seq<u8>, Seq<u8>)>::empty());
        assert(blob_lookup(Seq::<(Seq<u8>, Seq<u8>)>::empty(), k) == None::<Seq<u8>>);
        assert(blob_lookup(rs, k) == None::<Seq<u8>>);
        if r.0 == k {
            assert(blob_lookup(seq![r] + rs, k) == Some(r.1));
        } else {
            assert(blob_lookup(seq![r] + rs, k) == blob_lookup((seq![r] + rs).drop_last(), k));
        }
    } else {
        assert((seq![r] + rs).drop_last() =~= seq![r] + rs.drop_last());
        assert((seq![r] + rs).last() == rs.last());
        lemma_blob_lookup_cons(r, rs.drop_last(), k);
        if rs.last().0 == k {
            assert(blob_lookup(seq![r] + rs, k) == Some(rs.last().1));
            assert(blob_lookup(rs, k) == Some(rs.last().1));
        } else {
            assert(blob_lookup(seq![r] + rs, k) == blob_lookup(seq![r] + rs.drop_last(), k));
            assert(blob_lookup(rs, k) == blob_lookup(rs.drop_last(), k));
        }
    }
}

pub proof fn lemma_chain_lookup_cons(b: BlobV, blobs: Seq<BlobV>, k: Seq<u8>)
    ensures
        chain_lookup(seq![b] + blobs, k) == combine(blob_hit(b, k), chain_lookup(blobs, k)),
    decreases blobs.len(),
{
    if blobs.len() == 0 {
        assert((seq![b] + blobs).drop_last() =~= Seq::<BlobV>::empty());
        assert((seq![b] + blobs).last() == b);
        assert(chain_lookup(Seq::<BlobV>::empty(), k) == None::<Hit>);
        assert(chain_lookup(blobs, k) == None::<Hit>);
        assert(chain_lookup(seq![b] + blobs, k) == combine(
            chain_lookup((seq![b] + blobs).drop_last(), k),
            blob_hit((seq![b] + blobs).last(), k),
        ));
    } else {
        assert((seq![b] + blobs).drop_last() =~= seq![b] + blobs.drop_last());
        assert((seq![b] + blobs).last() == blobs.last());
        lemma_chain_lookup_cons(b, blobs.drop_last(), k);
        assert(chain_lookup(seq![b] + blobs, k) == combine(
            chain_lookup(seq![b] + blobs.drop_last(), k),
            blob_hit(blobs.last(), k),
        ));
        lemma_combine_assoc_local(blob_hit(b, k), chain_lookup(blobs.drop_last(), k), blob_hit(blobs.last(), k));
    }
}

proof fn lemma_combine_assoc_local(a: Option<Hit>, b: Option<Hit>, c: Option<Hit>)
    ensures
        combine(combine(a, b), c) == combine(a, combine(b, c)),
{
}

pub proof fn lemma_pages_lookup_cons(p: Seq<u8>, pages: Seq<Seq<u8>>, k: Seq<u8>)
    ensures
        pages_lookup(seq![p] + pages, k) == combine(
            chain_lookup(page_blobs(p), k),
            pages_lookup(pages, k),
        ),
    decreases pages.len(),
{
    if pages.len() == 0 {
        assert((seq![p] + pages).drop_last() =~= Seq::<Seq<u8>>::empty());
        assert((seq![p] + pages).last() == p);
        assert(pages_lookup(Seq::<Seq<u8>>::empty(), k) == None::<Hit>);
        assert(pages_lookup(pages, k) == None::<Hit>);
        assert(pages_lookup(seq![p] + pages, k) == combine(
            pages_lookup((seq![p] + pages).drop_last(), k),
            chain_lookup(page_blobs((seq![p] + pages).last()), k),
        ));
    } else {
        assert((seq![p] + pages).drop_last() =~= seq![p] + pages.drop_last());
        assert((seq![p] + pages).last() == pages.last());
        lemma_pages_lookup_cons(p, pages.drop_last(), k);
        assert(pages_lookup(seq![p] + pages, k) == combine(
            pages_lookup(seq![p] + pages.drop_last(), k),
            chain_lookup(page_blobs(pages.last()), k),
        ));
        lemma_combine_assoc_local(
            chain_lookup(page_blobs(p), k),
            pages_lookup(pages.drop_last(), k),
            chain_lookup(page_blobs(pages.last()), k),
        );
    }
}

// ---------------------------------------------------------------------
// The apply folds compute the lookup
// ---------------------------------------------------------------------

/// One record applied: the index answers as the combination demands.
pub proof fn lemma_apply_rec_hit(es: Seq<EntryV>, k0: Seq<u8>, v0: Seq<u8>, s: int, k: Seq<u8>)
    ensures
        index_hit(apply_rec(es, k0, v0, s), k) == combine(
            index_hit(es, k),
            if k == k0 {
                Some(Hit { seqno: s, val: v0 })
            } else {
                None
            },
        ),
    decreases es.len(),
{
    let es2 = apply_rec(es, k0, v0, s);
    if es.len() == 0 {
        assert(es2 == seq![EntryV { key: k0, val: v0, seqno: s }]);
        assert(es2.drop_first() =~= Seq::<EntryV>::empty());
    } else if es[0].key == k0 {
        if es[0].seqno <= s {
            assert(es2 == seq![EntryV { key: k0, val: v0, seqno: s }] + es.drop_first());
            assert(es2[0] == EntryV { key: k0, val: v0, seqno: s });
            assert(es2.drop_first() =~= es.drop_first());
        }
    } else {
        assert(es2 == seq![es[0]] + apply_rec(es.drop_first(), k0, v0, s));
        assert(es2[0] == es[0]);
        assert(es2.drop_first() =~= apply_rec(es.drop_first(), k0, v0, s));
        lemma_apply_rec_hit(es.drop_first(), k0, v0, s, k);
    }
}

/// A run of records applied: the index answers as the blob demands.
pub proof fn lemma_apply_recs_hit(es: Seq<EntryV>, rs: Seq<(Seq<u8>, Seq<u8>)>, s: int, k: Seq<u8>)
    ensures
        index_hit(apply_recs(es, rs, s), k) == combine(
            index_hit(es, k),
            blob_hit(BlobV { seqno: s, recs: rs }, k),
        ),
    decreases rs.len(),
{
    if rs.len() == 0 {
    } else {
        let es1 = apply_rec(es, rs[0].0, rs[0].1, s);
        lemma_apply_rec_hit(es, rs[0].0, rs[0].1, s, k);
        lemma_apply_recs_hit(es1, rs.drop_first(), s, k);
        assert(seq![rs[0]] + rs.drop_first() =~= rs);
        lemma_blob_lookup_cons(rs[0], rs.drop_first(), k);
    }
}

/// A chain of blobs applied: the index answers as the chain demands.
pub proof fn lemma_apply_chain_hit(es: Seq<EntryV>, blobs: Seq<BlobV>, k: Seq<u8>)
    ensures
        index_hit(apply_chain(es, blobs), k) == combine(index_hit(es, k), chain_lookup(blobs, k)),
    decreases blobs.len(),
{
    if blobs.len() == 0 {
    } else {
        let es1 = apply_recs(es, blobs[0].recs, blobs[0].seqno);
        lemma_apply_recs_hit(es, blobs[0].recs, blobs[0].seqno, k);
        lemma_apply_chain_hit(es1, blobs.drop_first(), k);
        assert(seq![blobs[0]] + blobs.drop_first() =~= blobs);
        lemma_chain_lookup_cons(blobs[0], blobs.drop_first(), k);
        assert(blob_hit(blobs[0], k) == blob_hit((seq![blobs[0]] + blobs.drop_first())[0], k));
    }
}

/// The canonical index answers exactly as the device does.
pub proof fn lemma_build_index_hit(es: Seq<EntryV>, pages: Seq<Seq<u8>>, k: Seq<u8>)
    ensures
        index_hit(build_index(es, pages), k) == combine(index_hit(es, k), pages_lookup(pages, k)),
    decreases pages.len(),
{
    if pages.len() == 0 {
    } else {
        let es1 = apply_chain(es, page_blobs(pages[0]));
        lemma_apply_chain_hit(es, page_blobs(pages[0]), k);
        lemma_build_index_hit(es1, pages.drop_first(), k);
        assert(seq![pages[0]] + pages.drop_first() =~= pages);
        lemma_pages_lookup_cons(pages[0], pages.drop_first(), k);
    }
}

// ---------------------------------------------------------------------
// Shape of the applied index
// ---------------------------------------------------------------------

/// Applying a record keeps keys unique and bounds respected, and touches
/// no other key's entry.
pub proof fn lemma_apply_rec_wf(es: Seq<EntryV>, k0: Seq<u8>, v0: Seq<u8>, s: int)
    requires
        index_unique(es),
        index_recs_wf(es),
        rec_wf((k0, v0)),
    ensures
        index_unique(apply_rec(es, k0, v0, s)),
        index_recs_wf(apply_rec(es, k0, v0, s)),
    decreases es.len(),
{
    let es2 = apply_rec(es, k0, v0, s);
    if es.len() == 0 {
    } else if es[0].key == k0 {
        if es[0].seqno <= s {
            assert forall|i: int, j: int| 0 <= i < j < es2.len() implies (#[trigger] es2[i]).key
                != (#[trigger] es2[j]).key by {
                assert(es2[j] == es[j]);
                if i > 0 {
                    assert(es2[i] == es[i]);
                } else {
                    assert(es2[0].key == es[0].key);
                }
            }
            assert forall|i: int| 0 <= i < es2.len() implies rec_wf(
                ((#[trigger] es2[i]).key, es2[i].val),
            ) by {
                if i > 0 {
                    assert(es2[i] == es[i]);
                }
            }
        }
    } else {
        assert(index_unique(es.drop_first()) && index_recs_wf(es.drop_first())) by {
            assert(forall|i: int|
                0 <= i < es.len() - 1 ==> #[trigger] es.drop_first()[i] == es[i + 1]);
        }
        lemma_apply_rec_wf(es.drop_first(), k0, v0, s);
        let tail = apply_rec(es.drop_first(), k0, v0, s);
        // the head key stays absent from the applied tail
        lemma_apply_rec_keys(es.drop_first(), k0, v0, s);
        assert forall|i: int, j: int| 0 <= i < j < es2.len() implies (#[trigger] es2[i]).key
            != (#[trigger] es2[j]).key by {
            if i == 0 {
                assert(es2[j] == tail[j - 1]);
                assert(exists|m: int|
                    0 <= m < es.drop_first().len() && (#[trigger] es.drop_first()[m]).key
                        == tail[j - 1].key || tail[j - 1].key == k0);
            } else {
                assert(es2[i] == tail[i - 1] && es2[j] == tail[j - 1]);
            }
        }
        assert forall|i: int| 0 <= i < es2.len() implies rec_wf(
            ((#[trigger] es2[i]).key, es2[i].val),
        ) by {
            if i > 0 {
                assert(es2[i] == tail[i - 1]);
            }
        }
    }
}

/// Every key of an applied index was in the index or is the new key.
pub proof fn lemma_apply_rec_keys(es: Seq<EntryV>, k0: Seq<u8>, v0: Seq<u8>, s: int)
    ensures
        forall|j: int|
            0 <= j < apply_rec(es, k0, v0, s).len() ==> ((#[trigger] apply_rec(es, k0, v0, s)[j]).key
                == k0 || exists|m: int| 0 <= m < es.len() && (#[trigger] es[m]).key == apply_rec(
                es,
                k0,
                v0,
                s,
            )[j].key),
    decreases es.len(),
{
    let es2 = apply_rec(es, k0, v0, s);
    if es.len() == 0 {
    } else if es[0].key == k0 {
        if es[0].seqno <= s {
            assert forall|j: int| 0 <= j < es2.len() implies ((#[trigger] es2[j]).key == k0
                || exists|m: int| 0 <= m < es.len() && (#[trigger] es[m]).key == es2[j].key) by {
                if j > 0 {
                    assert(es2[j] == es[j]);
                    assert(es[j].key == es2[j].key);
                }
            }
        } else {
            assert forall|j: int| 0 <= j < es2.len() implies ((#[trigger] es2[j]).key == k0
                || exists|m: int| 0 <= m < es.len() && (#[trigger] es[m]).key == es2[j].key) by {
                assert(es[j].key == es2[j].key);
            }
        }
    } else {
        lemma_apply_rec_keys(es.drop_first(), k0, v0, s);
        let tail = apply_rec(es.drop_first(), k0, v0, s);
        assert forall|j: int| 0 <= j < es2.len() implies ((#[trigger] es2[j]).key == k0 || exists|
            m: int,
        | 0 <= m < es.len() && (#[trigger] es[m]).key == es2[j].key) by {
            if j == 0 {
                assert(es2[0] == es[0]);
                assert(es[0].key == es2[0].key);
            } else {
                assert(es2[j] == tail[j - 1]);
                if tail[j - 1].key != k0 {
                    let m = choose|m: int|
                        0 <= m < es.drop_first().len() && (#[trigger] es.drop_first()[m]).key
                            == tail[j - 1].key;
                    assert(es[m + 1].key == es2[j].key);
                }
            }
        }
    }
}

pub proof fn lemma_apply_recs_wf(es: Seq<EntryV>, rs: Seq<(Seq<u8>, Seq<u8>)>, s: int)
    requires
        index_unique(es),
        index_recs_wf(es),
        forall|i: int| 0 <= i < rs.len() ==> rec_wf(#[trigger] rs[i]),
    ensures
        index_unique(apply_recs(es, rs, s)),
        index_recs_wf(apply_recs(es, rs, s)),
    decreases rs.len(),
{
    if rs.len() > 0 {
        lemma_apply_rec_wf(es, rs[0].0, rs[0].1, s);
        assert(forall|i: int|
            0 <= i < rs.drop_first().len() ==> rec_wf(#[trigger] rs.drop_first()[i]));
        lemma_apply_recs_wf(apply_rec(es, rs[0].0, rs[0].1, s), rs.drop_first(), s);
    }
}


// ---------------------------------------------------------------------
// Pointwise forms of `apply_rec` for the executable index
// ---------------------------------------------------------------------

/// When the key sits at position `m` (and nowhere earlier), applying the
/// record updates that slot or leaves the index alone.
pub proof fn lemma_apply_rec_found(es: Seq<EntryV>, m: int, k: Seq<u8>, v: Seq<u8>, s: int)
    requires
        0 <= m < es.len(),
        es[m].key == k,
        forall|j: int| 0 <= j < m ==> (#[trigger] es[j]).key != k,
    ensures
        apply_rec(es, k, v, s) == if es[m].seqno <= s {
            es.update(m, EntryV { key: k, val: v, seqno: s })
        } else {
            es
        },
    decreases m,
{
    if m == 0 {
        if es[0].seqno <= s {
            assert(apply_rec(es, k, v, s) =~= es.update(0, EntryV { key: k, val: v, seqno: s }));
        }
    } else {
        assert(forall|j: int|
            0 <= j < m - 1 ==> (#[trigger] es.drop_first()[j]).key != k);
        assert(es.drop_first()[m - 1] == es[m]);
        lemma_apply_rec_found(es.drop_first(), m - 1, k, v, s);
        if es[m].seqno <= s {
            assert(apply_rec(es, k, v, s) == seq![es[0]] + es.drop_first().update(
                m - 1,
                EntryV { key: k, val: v, seqno: s },
            ));
            assert(seq![es[0]] + es.drop_first().update(m - 1, EntryV { key: k, val: v, seqno: s })
                =~= es.update(m, EntryV { key: k, val: v, seqno: s }));
        } else {
            assert(apply_rec(es, k, v, s) == seq![es[0]] + es.drop_first());
            assert(seq![es[0]] + es.drop_first() =~= es);
        }
    }
}

/// When the key is absent, applying the record appends it.
pub proof fn lemma_apply_rec_absent(es: Seq<EntryV>, k: Seq<u8>, v: Seq<u8>, s: int)
    requires
        forall|j: int| 0 <= j < es.len() ==> (#[trigger] es[j]).key != k,
    ensures
        apply_rec(es, k, v, s) == es.push(EntryV { key: k, val: v, seqno: s }),
    decreases es.len(),
{
    if es.len() == 0 {
        assert(apply_rec(es, k, v, s) =~= es.push(EntryV { key: k, val: v, seqno: s }));
    } else {
        assert(forall|j: int|
            0 <= j < es.len() - 1 ==> (#[trigger] es.drop_first()[j]).key != k);
        lemma_apply_rec_absent(es.drop_first(), k, v, s);
        assert(seq![es[0]] + es.drop_first().push(EntryV { key: k, val: v, seqno: s }) =~= es.push(
            EntryV { key: k, val: v, seqno: s },
        ));
    }
}

// ---------------------------------------------------------------------
// Snoc forms of the folds, for loops that run forwards
// ---------------------------------------------------------------------

pub proof fn lemma_apply_recs_snoc(es: Seq<EntryV>, rs: Seq<(Seq<u8>, Seq<u8>)>, r: (Seq<u8>, Seq<u8>), s: int)
    ensures
        apply_recs(es, rs.push(r), s) == apply_rec(apply_recs(es, rs, s), r.0, r.1, s),
    decreases rs.len(),
{
    if rs.len() == 0 {
        assert(rs.push(r)[0] == r);
        assert(rs.push(r).drop_first() =~= Seq::<(Seq<u8>, Seq<u8>)>::empty());
        assert(apply_recs(apply_rec(es, r.0, r.1, s), Seq::<(Seq<u8>, Seq<u8>)>::empty(), s)
            == apply_rec(es, r.0, r.1, s));
        assert(apply_recs(es, Seq::<(Seq<u8>, Seq<u8>)>::empty(), s) == es);
        assert(rs =~= Seq::<(Seq<u8>, Seq<u8>)>::empty());
    } else {
        assert(rs.push(r)[0] == rs[0]);
        assert(rs.push(r).drop_first() =~= rs.drop_first().push(r));
        lemma_apply_recs_snoc(apply_rec(es, rs[0].0, rs[0].1, s), rs.drop_first(), r, s);
    }
}

pub proof fn lemma_apply_chain_snoc(es: Seq<EntryV>, blobs: Seq<BlobV>, b: BlobV)
    ensures
        apply_chain(es, blobs.push(b)) == apply_recs(apply_chain(es, blobs), b.recs, b.seqno),
    decreases blobs.len(),
{
    if blobs.len() == 0 {
        assert(blobs.push(b)[0] == b);
        assert(blobs.push(b).drop_first() =~= Seq::<BlobV>::empty());
        assert(apply_chain(apply_recs(es, b.recs, b.seqno), Seq::<BlobV>::empty()) == apply_recs(
            es,
            b.recs,
            b.seqno,
        ));
        assert(apply_chain(es, Seq::<BlobV>::empty()) == es);
        assert(blobs =~= Seq::<BlobV>::empty());
    } else {
        assert(blobs.push(b)[0] == blobs[0]);
        assert(blobs.push(b).drop_first() =~= blobs.drop_first().push(b));
        lemma_apply_chain_snoc(apply_recs(es, blobs[0].recs, blobs[0].seqno), blobs.drop_first(), b);
    }
}

pub proof fn lemma_build_index_snoc(es: Seq<EntryV>, pages: Seq<Seq<u8>>, pg: Seq<u8>)
    ensures
        build_index(es, pages.push(pg)) == apply_chain(build_index(es, pages), page_blobs(pg)),
    decreases pages.len(),
{
    if pages.len() == 0 {
        assert(pages.push(pg)[0] == pg);
        assert(pages.push(pg).drop_first() =~= Seq::<Seq<u8>>::empty());
        assert(build_index(apply_chain(es, page_blobs(pg)), Seq::<Seq<u8>>::empty()) == apply_chain(
            es,
            page_blobs(pg),
        ));
        assert(build_index(es, Seq::<Seq<u8>>::empty()) == es);
        assert(pages =~= Seq::<Seq<u8>>::empty());
    } else {
        assert(pages.push(pg)[0] == pages[0]);
        assert(pages.push(pg).drop_first() =~= pages.drop_first().push(pg));
        lemma_build_index_snoc(apply_chain(es, page_blobs(pages[0])), pages.drop_first(), pg);
    }
}

// ---------------------------------------------------------------------
// Sizes
// ---------------------------------------------------------------------

/// The index entries as bare records, in index order.
pub open spec fn entries_recs(es: Seq<EntryV>) -> Seq<(Seq<u8>, Seq<u8>)> {
    Seq::new(es.len(), |i: int| (es[i].key, es[i].val))
}

/// Bytes a run of records takes when encoded.
pub open spec fn recs_size(rs: Seq<(Seq<u8>, Seq<u8>)>) -> int
    decreases rs.len(),
{
    if rs.len() == 0 {
        0
    } else {
        REC_HDR + rs[0].0.len() + rs[0].1.len() + recs_size(rs.drop_first())
    }
}

pub proof fn lemma_enc_recs_len(rs: Seq<(Seq<u8>, Seq<u8>)>)
    requires
        recs_wf(rs),
    ensures
        crate::layout::enc_recs(rs).len() == recs_size(rs),
    decreases rs.len(),
{
    if rs.len() > 0 {
        crate::layout::lemma_le_bytes_len(rs[0].1.len() as int, 2);
        assert(recs_wf(rs.drop_first())) by {
            assert(forall|i: int|
                0 <= i < rs.len() - 1 ==> #[trigger] rs.drop_first()[i] == rs[i + 1]);
        }
        lemma_enc_recs_len(rs.drop_first());
    }
}

/// The records of an index take exactly its live size.
pub proof fn lemma_entries_recs_size(es: Seq<EntryV>)
    ensures
        recs_size(entries_recs(es)) == live_size(es),
    decreases es.len(),
{
    if es.len() > 0 {
        lemma_entries_recs_size(es.drop_last());
        assert(entries_recs(es).drop_last() =~= entries_recs(es.drop_last()));
        lemma_recs_size_snoc(entries_recs(es.drop_last()), (es.last().key, es.last().val));
        assert(entries_recs(es.drop_last()).push((es.last().key, es.last().val)) =~= entries_recs(
            es,
        ));
    }
}

pub proof fn lemma_recs_size_snoc(rs: Seq<(Seq<u8>, Seq<u8>)>, r: (Seq<u8>, Seq<u8>))
    ensures
        recs_size(rs.push(r)) == recs_size(rs) + REC_HDR + r.0.len() + r.1.len(),
    decreases rs.len(),
{
    if rs.len() == 0 {
        assert(rs.push(r)[0] == r);
        assert(rs.push(r).drop_first() =~= Seq::<(Seq<u8>, Seq<u8>)>::empty());
        assert(recs_size(Seq::<(Seq<u8>, Seq<u8>)>::empty()) == 0);
        assert(rs =~= Seq::<(Seq<u8>, Seq<u8>)>::empty());
    } else {
        assert(rs.push(r)[0] == rs[0]);
        assert(rs.push(r).drop_first() =~= rs.drop_first().push(r));
        lemma_recs_size_snoc(rs.drop_first(), r);
    }
}

/// Live size never shrinks as entries are added at the end.
pub proof fn lemma_live_size_prefix(es: Seq<EntryV>, i: int)
    requires
        0 <= i <= es.len(),
    ensures
        live_size(es.subrange(0, i)) <= live_size(es),
        live_size(es) >= 0,
    decreases es.len(),
{
    if es.len() == 0 {
        assert(es.subrange(0, i) =~= es);
    } else if i == es.len() {
        assert(es.subrange(0, i) =~= es);
        lemma_live_size_prefix(es.drop_last(), i - 1);
    } else {
        lemma_live_size_prefix(es.drop_last(), i);
        assert(es.drop_last().subrange(0, i) =~= es.subrange(0, i));
    }
}


// ---------------------------------------------------------------------
// Re-sequencing: applying records an index already holds
// ---------------------------------------------------------------------

/// Same keys and values pointwise; only sequence numbers may differ.
pub open spec fn same_kv(a: Seq<EntryV>, b: Seq<EntryV>) -> bool {
    a.len() == b.len() && forall|i: int|
        0 <= i < a.len() ==> (#[trigger] a[i]).key == b[i].key && a[i].val == b[i].val
}

/// Every entry's sequence number is at most `s`.
pub open spec fn seqs_at_most(es: Seq<EntryV>, s: int) -> bool {
    forall|i: int| 0 <= i < es.len() ==> (#[trigger] es[i]).seqno <= s
}

pub proof fn lemma_live_size_same_kv(a: Seq<EntryV>, b: Seq<EntryV>)
    requires
        same_kv(a, b),
    ensures
        live_size(a) == live_size(b),
    decreases a.len(),
{
    if a.len() > 0 {
        assert(same_kv(a.drop_last(), b.drop_last())) by {
            assert(forall|i: int|
                0 <= i < a.len() - 1 ==> #[trigger] a.drop_last()[i] == a[i]
                    && #[trigger] b.drop_last()[i] == b[i]);
        }
        lemma_live_size_same_kv(a.drop_last(), b.drop_last());
        assert(a.last() == a[a.len() - 1] && b.last() == b[b.len() - 1]);
    }
}

/// Uniqueness depends on keys alone.
pub proof fn lemma_unique_same_kv(a: Seq<EntryV>, b: Seq<EntryV>)
    requires
        same_kv(a, b),
        index_unique(a),
    ensures
        index_unique(b),
{
    assert forall|i: int, j: int| 0 <= i < j < b.len() implies (#[trigger] b[i]).key != (
    #[trigger] b[j]).key by {
        assert(a[i].key == b[i].key && a[j].key == b[j].key);
    }
}

/// Applying one record at a dominant sequence number, in two indexes that
/// agree on keys and values, keeps them agreeing.
pub proof fn lemma_apply_rec_parallel(
    a: Seq<EntryV>,
    b: Seq<EntryV>,
    k: Seq<u8>,
    v: Seq<u8>,
    sa: int,
    sb: int,
)
    requires
        same_kv(a, b),
        seqs_at_most(a, sa),
        seqs_at_most(b, sb),
    ensures
        same_kv(apply_rec(a, k, v, sa), apply_rec(b, k, v, sb)),
        seqs_at_most(apply_rec(a, k, v, sa), sa),
        seqs_at_most(apply_rec(b, k, v, sb), sb),
    decreases a.len(),
{
    let ra = apply_rec(a, k, v, sa);
    let rb = apply_rec(b, k, v, sb);
    if a.len() == 0 {
    } else {
        assert(a[0].key == b[0].key && a[0].val == b[0].val);
        if a[0].key == k {
            assert(a[0].seqno <= sa && b[0].seqno <= sb);
            assert(ra == seq![EntryV { key: k, val: v, seqno: sa }] + a.drop_first());
            assert(rb == seq![EntryV { key: k, val: v, seqno: sb }] + b.drop_first());
            assert forall|i: int| 0 <= i < ra.len() implies (#[trigger] ra[i]).key == rb[i].key
                && ra[i].val == rb[i].val by {
                if i > 0 {
                    assert(ra[i] == a[i] && rb[i] == b[i]);
                }
            }
            assert forall|i: int| 0 <= i < ra.len() implies (#[trigger] ra[i]).seqno <= sa by {
                if i > 0 {
                    assert(ra[i] == a[i]);
                }
            }
            assert forall|i: int| 0 <= i < rb.len() implies (#[trigger] rb[i]).seqno <= sb by {
                if i > 0 {
                    assert(rb[i] == b[i]);
                }
            }
        } else {
            assert(same_kv(a.drop_first(), b.drop_first())) by {
                assert(forall|i: int|
                    0 <= i < a.len() - 1 ==> #[trigger] a.drop_first()[i] == a[i + 1]
                        && #[trigger] b.drop_first()[i] == b[i + 1]);
            }
            assert(seqs_at_most(a.drop_first(), sa) && seqs_at_most(b.drop_first(), sb)) by {
                assert(forall|i: int|
                    0 <= i < a.len() - 1 ==> #[trigger] a.drop_first()[i] == a[i + 1]
                        && #[trigger] b.drop_first()[i] == b[i + 1]);
            }
            lemma_apply_rec_parallel(a.drop_first(), b.drop_first(), k, v, sa, sb);
            let ta = apply_rec(a.drop_first(), k, v, sa);
            let tb = apply_rec(b.drop_first(), k, v, sb);
            assert(ra == seq![a[0]] + ta && rb == seq![b[0]] + tb);
            assert forall|i: int| 0 <= i < ra.len() implies (#[trigger] ra[i]).key == rb[i].key
                && ra[i].val == rb[i].val by {
                if i > 0 {
                    assert(ra[i] == ta[i - 1] && rb[i] == tb[i - 1]);
                }
            }
            assert forall|i: int| 0 <= i < ra.len() implies (#[trigger] ra[i]).seqno <= sa by {
                if i > 0 {
                    assert(ra[i] == ta[i - 1]);
                }
            }
            assert forall|i: int| 0 <= i < rb.len() implies (#[trigger] rb[i]).seqno <= sb by {
                if i > 0 {
                    assert(rb[i] == tb[i - 1]);
                }
            }
        }
    }
}

/// The run-of-records form of the parallel lemma.
pub proof fn lemma_apply_recs_parallel(
    a: Seq<EntryV>,
    b: Seq<EntryV>,
    rs: Seq<(Seq<u8>, Seq<u8>)>,
    sa: int,
    sb: int,
)
    requires
        same_kv(a, b),
        seqs_at_most(a, sa),
        seqs_at_most(b, sb),
    ensures
        same_kv(apply_recs(a, rs, sa), apply_recs(b, rs, sb)),
        seqs_at_most(apply_recs(a, rs, sa), sa),
        seqs_at_most(apply_recs(b, rs, sb), sb),
    decreases rs.len(),
{
    if rs.len() > 0 {
        lemma_apply_rec_parallel(a, b, rs[0].0, rs[0].1, sa, sb);
        lemma_apply_recs_parallel(
            apply_rec(a, rs[0].0, rs[0].1, sa),
            apply_rec(b, rs[0].0, rs[0].1, sb),
            rs.drop_first(),
            sa,
            sb,
        );
    }
}

/// Applying records the index already holds, at a dominant sequence
/// number, changes no key and no value.
pub proof fn lemma_apply_own(es: Seq<EntryV>, rs: Seq<(Seq<u8>, Seq<u8>)>, s: int)
    requires
        index_unique(es),
        seqs_at_most(es, s),
        forall|j: int|
            0 <= j < rs.len() ==> exists|m: int|
                0 <= m < es.len() && (#[trigger] es[m]).key == (#[trigger] rs[j]).0 && es[m].val
                    == rs[j].1,
    ensures
        same_kv(apply_recs(es, rs, s), es),
        seqs_at_most(apply_recs(es, rs, s), s),
        index_unique(apply_recs(es, rs, s)),
    decreases rs.len(),
{
    if rs.len() == 0 {
        assert(same_kv(es, es));
    } else {
        let k = rs[0].0;
        let v = rs[0].1;
        let m = choose|m: int|
            0 <= m < es.len() && (#[trigger] es[m]).key == k && es[m].val == v;
        // the first entry with this key is `m` itself, by uniqueness
        let f = choose|f: int|
            0 <= f < es.len() && (#[trigger] es[f]).key == k && forall|j: int|
                0 <= j < f ==> (#[trigger] es[j]).key != k;
        assert(exists|f: int|
            0 <= f < es.len() && (#[trigger] es[f]).key == k && forall|j: int|
                0 <= j < f ==> (#[trigger] es[j]).key != k) by {
            lemma_first_key(es, m, k);
        }
        assert(f == m) by {
            if f < m {
                assert(es[f].key == es[m].key);
            }
            if m < f {
                assert(!(es[m].key != k));
            }
        }
        lemma_apply_rec_found(es, m, k, v, s);
        assert(es[m].seqno <= s);
        let es1 = es.update(m, EntryV { key: k, val: v, seqno: s });
        assert(apply_rec(es, k, v, s) == es1);
        assert(same_kv(es1, es)) by {
            assert forall|i: int| 0 <= i < es1.len() implies (#[trigger] es1[i]).key == es[i].key
                && es1[i].val == es[i].val by {
                if i != m {
                    assert(es1[i] == es[i]);
                }
            }
        }
        lemma_unique_same_kv(es, es1);
        assert(seqs_at_most(es1, s)) by {
            assert forall|i: int| 0 <= i < es1.len() implies (#[trigger] es1[i]).seqno <= s by {
                if i != m {
                    assert(es1[i] == es[i]);
                }
            }
        }
        assert(forall|j: int|
            0 <= j < rs.drop_first().len() ==> #[trigger] rs.drop_first()[j] == rs[j + 1]);
        assert forall|j: int| 0 <= j < rs.drop_first().len() implies exists|mm: int|
            0 <= mm < es1.len() && (#[trigger] es1[mm]).key == (#[trigger] rs.drop_first()[j]).0
                && es1[mm].val == rs.drop_first()[j].1 by {
            assert(rs.drop_first()[j] == rs[j + 1]);
            assert(exists|m2: int|
                0 <= m2 < es.len() && (#[trigger] es[m2]).key == (#[trigger] rs[j + 1]).0
                    && es[m2].val == rs[j + 1].1);
            let mm = choose|m2: int|
                0 <= m2 < es.len() && (#[trigger] es[m2]).key == (#[trigger] rs[j + 1]).0
                    && es[m2].val == rs[j + 1].1;
            assert(es1[mm].key == es[mm].key && es1[mm].val == es[mm].val);
            assert(0 <= mm < es1.len() && es1[mm].key == rs.drop_first()[j].0 && es1[mm].val
                == rs.drop_first()[j].1);
        }
        lemma_apply_own(es1, rs.drop_first(), s);
        lemma_same_kv_trans(apply_recs(es1, rs.drop_first(), s), es1, es);
    }
}

proof fn lemma_same_kv_trans(a: Seq<EntryV>, b: Seq<EntryV>, c: Seq<EntryV>)
    requires
        same_kv(a, b),
        same_kv(b, c),
    ensures
        same_kv(a, c),
{
}

/// Somewhere at or before `m` sits the first entry with this key.
proof fn lemma_first_key(es: Seq<EntryV>, m: int, k: Seq<u8>)
    requires
        0 <= m < es.len(),
        es[m].key == k,
    ensures
        exists|f: int|
            0 <= f < es.len() && (#[trigger] es[f]).key == k && forall|j: int|
                0 <= j < f ==> (#[trigger] es[j]).key != k,
    decreases m,
{
    if forall|j: int| 0 <= j < m ==> (#[trigger] es[j]).key != k {
        assert(0 <= m < es.len() && (#[trigger] es[m]).key == k && forall|j: int|
            0 <= j < m ==> (#[trigger] es[j]).key != k);
    } else {
        let e = choose|j: int| 0 <= j < m && (#[trigger] es[j]).key == k;
        lemma_first_key(es, e, k);
    }
}

/// In an index with unique keys, a blob made of its own records answers
/// exactly as the index does.
pub proof fn lemma_blob_lookup_entries(es: Seq<EntryV>, k: Seq<u8>)
    requires
        index_unique(es),
    ensures
        blob_lookup(entries_recs(es), k) == (match index_hit(es, k) {
            Some(h) => Some(h.val),
            None => None::<Seq<u8>>,
        }),
    decreases es.len(),
{
    if es.len() == 0 {
        assert(entries_recs(es) =~= Seq::<(Seq<u8>, Seq<u8>)>::empty());
    } else {
        let rs = entries_recs(es);
        assert(rs.last() == (es[es.len() - 1].key, es[es.len() - 1].val));
        if es[es.len() - 1].key == k {
            assert(forall|j: int| 0 <= j < es.len() - 1 ==> (#[trigger] es[j]).key != k);
            lemma_index_hit_first(es, es.len() - 1, k);
        } else {
            assert(rs.drop_last() =~= entries_recs(es.drop_last()));
            assert(index_unique(es.drop_last())) by {
                assert(forall|i: int|
                    0 <= i < es.len() - 1 ==> #[trigger] es.drop_last()[i] == es[i]);
            }
            lemma_blob_lookup_entries(es.drop_last(), k);
            lemma_index_hit_drop_last(es, k);
        }
    }
}

/// The index answer at the unique position holding the key.
pub proof fn lemma_index_hit_first(es: Seq<EntryV>, m: int, k: Seq<u8>)
    requires
        0 <= m < es.len(),
        es[m].key == k,
        forall|j: int| 0 <= j < m ==> (#[trigger] es[j]).key != k,
    ensures
        index_hit(es, k) == Some(Hit { seqno: es[m].seqno, val: es[m].val }),
    decreases m,
{
    if m > 0 {
        assert(es.drop_first()[m - 1] == es[m]);
        assert(forall|j: int| 0 <= j < m - 1 ==> (#[trigger] es.drop_first()[j]).key != k);
        lemma_index_hit_first(es.drop_first(), m - 1, k);
    }
}

/// Dropping the last entry keeps the answer when it has another key.
pub proof fn lemma_index_hit_drop_last(es: Seq<EntryV>, k: Seq<u8>)
    requires
        es.len() > 0,
        es[es.len() - 1].key != k,
    ensures
        index_hit(es, k) == index_hit(es.drop_last(), k),
    decreases es.len(),
{
    if es.len() > 1 {
        if es[0].key == k {
            assert(es.drop_last()[0] == es[0]);
            assert(index_hit(es, k) == Some(Hit { seqno: es[0].seqno, val: es[0].val }));
            assert(index_hit(es.drop_last(), k) == Some(
                Hit { seqno: es.drop_last()[0].seqno, val: es.drop_last()[0].val },
            ));
        } else {
            assert(es.drop_first().len() > 0);
            assert(es.drop_first()[es.drop_first().len() - 1] == es[es.len() - 1]);
            lemma_index_hit_drop_last(es.drop_first(), k);
            assert(es.drop_first().drop_last() =~= es.drop_last().drop_first());
            assert(es.drop_last()[0] == es[0]);
            assert(index_hit(es, k) == index_hit(es.drop_first(), k));
            assert(es.drop_last().len() > 0);
            assert(index_hit(es.drop_last(), k) == index_hit(es.drop_last().drop_first(), k));
        }
    } else {
        assert(es.drop_last() =~= Seq::<EntryV>::empty());
        assert(index_hit(Seq::<EntryV>::empty(), k) is None);
        assert(index_hit(es, k) is None);
    }
}


// ---------------------------------------------------------------------
// Live-size bounds under application
// ---------------------------------------------------------------------

pub proof fn lemma_live_size_cons(e: EntryV, es: Seq<EntryV>)
    ensures
        live_size(seq![e] + es) == REC_HDR + e.key.len() + e.val.len() + live_size(es),
    decreases es.len(),
{
    if es.len() == 0 {
        assert(seq![e] + es =~= seq![e]);
        assert(seq![e].drop_last() =~= Seq::<EntryV>::empty());
        assert(live_size(Seq::<EntryV>::empty()) == 0);
        assert(seq![e].last() == e);
    } else {
        assert((seq![e] + es).drop_last() =~= seq![e] + es.drop_last());
        assert((seq![e] + es).last() == es.last());
        lemma_live_size_cons(e, es.drop_last());
    }
}

pub proof fn lemma_live_size_replace(es: Seq<EntryV>, m: int, e: EntryV)
    requires
        0 <= m < es.len(),
    ensures
        live_size(es.update(m, e)) == live_size(es) - (REC_HDR + es[m].key.len()
            + es[m].val.len()) + (REC_HDR + e.key.len() + e.val.len()),
    decreases es.len(),
{
    if m == es.len() - 1 {
        assert(es.update(m, e).drop_last() =~= es.drop_last());
        assert(es.update(m, e).last() == e);
        assert(es.last() == es[m]);
    } else {
        lemma_live_size_replace(es.drop_last(), m, e);
        assert(es.update(m, e).drop_last() =~= es.drop_last().update(m, e));
        assert(es.update(m, e).last() == es.last());
        assert(es.drop_last()[m] == es[m]);
    }
}

/// Applying one record grows the live bytes by at most that record.
pub proof fn lemma_apply_rec_live_bound(es: Seq<EntryV>, k: Seq<u8>, v: Seq<u8>, s: int)
    ensures
        live_size(apply_rec(es, k, v, s)) <= live_size(es) + REC_HDR + k.len() + v.len(),
    decreases es.len(),
{
    let es2 = apply_rec(es, k, v, s);
    let ne = EntryV { key: k, val: v, seqno: s };
    if es.len() == 0 {
        lemma_live_size_cons(ne, Seq::empty());
        assert(seq![ne] + Seq::<EntryV>::empty() =~= seq![ne]);
    } else if es[0].key == k {
        if es[0].seqno <= s {
            assert(es2 =~= es.update(0, ne));
            lemma_live_size_replace(es, 0, ne);
        }
    } else {
        lemma_apply_rec_live_bound(es.drop_first(), k, v, s);
        assert(es2 == seq![es[0]] + apply_rec(es.drop_first(), k, v, s));
        lemma_live_size_cons(es[0], apply_rec(es.drop_first(), k, v, s));
        lemma_live_size_cons(es[0], es.drop_first());
        assert(seq![es[0]] + es.drop_first() =~= es);
    }
}

/// Applying a run of records grows the live bytes by at most their size.
pub proof fn lemma_apply_recs_live_bound(es: Seq<EntryV>, rs: Seq<(Seq<u8>, Seq<u8>)>, s: int)
    ensures
        live_size(apply_recs(es, rs, s)) <= live_size(es) + recs_size(rs),
    decreases rs.len(),
{
    if rs.len() > 0 {
        lemma_apply_rec_live_bound(es, rs[0].0, rs[0].1, s);
        lemma_apply_recs_live_bound(apply_rec(es, rs[0].0, rs[0].1, s), rs.drop_first(), s);
    }
}

} // verus!
