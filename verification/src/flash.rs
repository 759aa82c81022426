//! Simulated page-erasable NOR flash.
//!
//! The device is a row of fixed-size pages. An erase resets one whole page
//! to `ERASED` bytes; a write programs a byte range that is still erased
//! (NOR flash programs each byte once between erases, and the store is
//! proved to respect that); reads give bytes back exactly. A fault budget
//! injects power loss: once the budget runs out every erase and write
//! fails without touching the device, which models the mutations that were
//! never acknowledged before the power went away. Reads are not gated: a
//! rebooted device reads flawlessly.

use vstd::prelude::*;

verus! {

/// Size of one erasable page, in bytes.
pub const PAGE_SIZE: usize = 4096;

/// The value of an erased byte.
pub const ERASED: u8 = 0xFF;

/// Fewest pages a device may have: the store needs one active page, one
/// compaction target and one spare.
pub const MIN_PAGES: usize = 3;

/// A transport failure: the injected power-loss fault.
#[derive(Clone, Copy, PartialEq, Eq, Structural, Debug)]
pub enum FlashError {
    Fault,
}

/// A fully erased page.
pub open spec fn erased_page() -> Seq<u8> {
    Seq::new(PAGE_SIZE as nat, |i: int| ERASED)
}

/// All bytes of `p` in `[a, b)` are erased.
pub open spec fn range_erased(p: Seq<u8>, a: int, b: int) -> bool {
    forall|i: int| a <= i < b ==> #[trigger] p[i] == ERASED
}

/// `p` with `d` written at `off`, the rest untouched.
pub open spec fn splice(p: Seq<u8>, off: int, d: Seq<u8>) -> Seq<u8> {
    p.subrange(0, off) + d + p.subrange(off + d.len(), p.len() as int)
}

pub struct Flash {
    pages: Vec<Vec<u8>>,
    limited: bool,
    ops_left: u64,
}

impl View for Flash {
    type V = Seq<Seq<u8>>;

    closed spec fn view(&self) -> Seq<Seq<u8>> {
        Seq::new(self.pages@.len(), |i: int| self.pages@[i]@)
    }
}

impl Flash {
    /// Geometry is sound: enough pages, every page full size.
    pub open spec fn wf(&self) -> bool {
        &&& self@.len() >= MIN_PAGES
        &&& forall|i: int| 0 <= i < self@.len() ==> (#[trigger] self@[i]).len() == PAGE_SIZE
    }

    /// True while no fault budget is armed: every operation will succeed.
    pub closed spec fn unlimited(&self) -> bool {
        !self.limited
    }

    /// True when the next erase or write will succeed.
    pub closed spec fn can_op(&self) -> bool {
        !self.limited || self.ops_left > 0
    }

    /// With no fault armed, the next operation always succeeds.
    pub proof fn lemma_unlimited_can_op(&self)
        ensures
            self.unlimited() ==> self.can_op(),
    {
    }

    /// A factory-fresh device: every page erased.
    pub fn new(page_count: usize) -> (r: Flash)
        requires
            MIN_PAGES <= page_count,
            page_count <= 65536,
        ensures
            r.wf(),
            r@.len() == page_count,
            forall|i: int| 0 <= i < r@.len() ==> #[trigger] r@[i] == erased_page(),
            r.unlimited(),
    {
        let mut pages: Vec<Vec<u8>> = Vec::new();
        let mut i: usize = 0;
        while i < page_count
            invariant
                i <= page_count,
                pages@.len() == i,
                forall|k: int| 0 <= k < i ==> (#[trigger] pages@[k])@ == erased_page(),
            decreases page_count - i,
        {
            let mut p: Vec<u8> = Vec::new();
            let mut j: usize = 0;
            while j < PAGE_SIZE
                invariant
                    j <= PAGE_SIZE,
                    p@.len() == j,
                    forall|k: int| 0 <= k < j ==> #[trigger] p@[k] == ERASED,
                decreases PAGE_SIZE - j,
            {
                p.push(ERASED);
                j = j + 1;
            }
            proof {
                assert(p@ =~= erased_page());
            }
            pages.push(p);
            i = i + 1;
        }
        let r = Flash { pages, limited: false, ops_left: 0 };
        proof {
            assert(forall|i: int| 0 <= i < r@.len() ==> #[trigger] r@[i] == r.pages@[i]@);
        }
        r
    }

    /// Number of pages the device has.
    pub fn page_count(&self) -> (r: usize)
        ensures
            r == self@.len(),
    {
        self.pages.len()
    }

    /// Arms the power-loss fault: the next `n` erases and writes succeed,
    /// all later ones fail.
    pub fn set_fault_budget(&mut self, n: u64)
        ensures
            final(self)@ == old(self)@,
            final(self).wf() == old(self).wf(),
            !final(self).unlimited(),
            final(self).can_op() == (n > 0),
    {
        self.limited = true;
        self.ops_left = n;
    }

    /// Disarms the fault: models the power coming back.
    pub fn clear_fault_budget(&mut self)
        ensures
            final(self)@ == old(self)@,
            final(self).wf() == old(self).wf(),
            final(self).unlimited(),
            final(self).can_op(),
    {
        self.limited = false;
        self.ops_left = 0;
    }

    /// Takes one unit of fault budget; reports whether the operation may
    /// proceed.
    fn take_op(&mut self) -> (r: bool)
        ensures
            final(self)@ == old(self)@,
            r == old(self).can_op(),
            final(self).unlimited() == old(self).unlimited(),
            old(self).unlimited() ==> final(self).can_op(),
    {
        if self.limited {
            if self.ops_left == 0 {
                return false;
            }
            self.ops_left = self.ops_left - 1;
        }
        true
    }

    /// Erases one page back to `ERASED` bytes; fails only on the injected
    /// fault, and then touches nothing.
    pub fn erase(&mut self, page: usize) -> (r: Result<(), FlashError>)
        requires
            old(self).wf(),
            page < old(self)@.len(),
        ensures
            final(self).wf(),
            final(self)@.len() == old(self)@.len(),
            final(self).unlimited() == old(self).unlimited(),
            old(self).unlimited() ==> final(self).can_op(),
            r is Ok <==> old(self).can_op(),
            r is Ok ==> final(self)@ == old(self)@.update(page as int, erased_page()),
            r is Err ==> final(self)@ == old(self)@,
    {
        if !self.take_op() {
            return Err(FlashError::Fault);
        }
        let mut p: Vec<u8> = Vec::new();
        let mut j: usize = 0;
        while j < PAGE_SIZE
            invariant
                j <= PAGE_SIZE,
                p@.len() == j,
                forall|k: int| 0 <= k < j ==> #[trigger] p@[k] == ERASED,
            decreases PAGE_SIZE - j,
        {
            p.push(ERASED);
            j = j + 1;
        }
        proof {
            assert(p@ =~= erased_page());
        }
        let ghost pre = self@;
        self.pages.set(page, p);
        proof {
            assert(self@ =~= pre.update(page as int, erased_page()));
        }
        Ok(())
    }

    /// Programs `data` at `offset` of `page`. The target range must still
    /// be erased; fails only on the injected fault, and then touches
    /// nothing.
    pub fn write(&mut self, page: usize, offset: usize, data: &[u8]) -> (r: Result<
        (),
        FlashError,
    >)
        requires
            old(self).wf(),
            page < old(self)@.len(),
            offset + data@.len() <= PAGE_SIZE,
            range_erased(old(self)@[page as int], offset as int, offset + data@.len()),
        ensures
            final(self).wf(),
            final(self)@.len() == old(self)@.len(),
            final(self).unlimited() == old(self).unlimited(),
            old(self).unlimited() ==> final(self).can_op(),
            r is Ok <==> old(self).can_op(),
            r is Ok ==> final(self)@ == old(self)@.update(
                page as int,
                splice(old(self)@[page as int], offset as int, data@),
            ),
            r is Err ==> final(self)@ == old(self)@,
    {
        if !self.take_op() {
            return Err(FlashError::Fault);
        }
        let old_page: &Vec<u8> = &self.pages[page];
        let mut p: Vec<u8> = Vec::new();
        let mut j: usize = 0;
        while j < offset
            invariant
                j <= offset,
                offset + data@.len() <= PAGE_SIZE,
                old_page@.len() == PAGE_SIZE,
                p@ == old_page@.subrange(0, j as int),
            decreases offset - j,
        {
            p.push(old_page[j]);
            proof {
                assert(p@ =~= old_page@.subrange(0, j + 1 as int));
            }
            j = j + 1;
        }
        let mut k: usize = 0;
        while k < data.len()
            invariant
                k <= data@.len(),
                offset + data@.len() <= PAGE_SIZE,
                old_page@.len() == PAGE_SIZE,
                p@ == old_page@.subrange(0, offset as int) + data@.subrange(0, k as int),
            decreases data@.len() - k,
        {
            p.push(data[k]);
            proof {
                assert(p@ =~= old_page@.subrange(0, offset as int) + data@.subrange(
                    0,
                    k + 1 as int,
                ));
            }
            k = k + 1;
        }
        proof {
            assert(data@.subrange(0, data@.len() as int) =~= data@);
        }
        let mut j: usize = offset + data.len();
        while j < PAGE_SIZE
            invariant
                offset + data@.len() <= j <= PAGE_SIZE,
                old_page@.len() == PAGE_SIZE,
                p@ == old_page@.subrange(0, offset as int) + data@ + old_page@.subrange(
                    offset + data@.len(),
                    j as int,
                ),
            decreases PAGE_SIZE - j,
        {
            p.push(old_page[j]);
            proof {
                assert(p@ =~= old_page@.subrange(0, offset as int) + data@ + old_page@.subrange(
                    offset + data@.len(),
                    j + 1 as int,
                ));
            }
            j = j + 1;
        }
        proof {
            assert(old_page@.subrange(offset + data@.len(), offset + data@.len()) =~= Seq::<
                u8,
            >::empty());
            assert(old_page@.subrange(0, offset as int) + data@ + old_page@.subrange(
                offset + data@.len(),
                offset + data@.len(),
            ) =~= old_page@.subrange(0, offset as int) + data@);
        }
        let ghost pre = self@;
        let ghost target = splice(pre[page as int], offset as int, data@);
        self.pages.set(page, p);
        proof {
            assert(self@ =~= pre.update(page as int, target));
        }
        Ok(())
    }

    /// Reads `len` bytes at `offset` of `page`; the simulated transport
    /// never fails a read.
    pub fn read(&self, page: usize, offset: usize, len: usize) -> (r: Vec<u8>)
        requires
            self.wf(),
            page < self@.len(),
            offset + len <= PAGE_SIZE,
        ensures
            r@ == self@[page as int].subrange(offset as int, offset + len),
    {
        let p: &Vec<u8> = &self.pages[page];
        proof {
            assert(p@ == self@[page as int]);
        }
        let mut out: Vec<u8> = Vec::new();
        let mut i: usize = 0;
        while i < len
            invariant
                i <= len,
                offset + len <= PAGE_SIZE,
                p@.len() == PAGE_SIZE,
                out@ == p@.subrange(offset as int, offset + i),
            decreases len - i,
        {
            out.push(p[offset + i]);
            proof {
                assert(out@ =~= p@.subrange(offset as int, offset + i + 1));
            }
            i = i + 1;
        }
        out
    }

    /// Reads one byte.
    pub fn read_byte(&self, page: usize, offset: usize) -> (r: u8)
        requires
            self.wf(),
            page < self@.len(),
            offset < PAGE_SIZE,
        ensures
            r == self@[page as int][offset as int],
    {
        let p: &Vec<u8> = &self.pages[page];
        proof {
            assert(p@ == self@[page as int]);
        }
        p[offset]
    }
}

} // verus!
