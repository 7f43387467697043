use vstd::prelude::*;

use crate::error::BridgeError;
use crate::paging::{check_range, in_bounds, MAX_PAGES, PAGE_SIZE};

verus! {

/// `n` zero bytes.
pub open spec fn zeros(n: nat) -> Seq<u8> {
    Seq::new(n, |i: int| 0u8)
}

/// `mem` with `data` written over it from byte `offset` on.
pub open spec fn write_spec(mem: Seq<u8>, offset: int, data: Seq<u8>) -> Seq<u8> {
    mem.subrange(0, offset) + data + mem.subrange(offset + data.len(), mem.len() as int)
}

/// A linear memory held by the host itself: whole pages of bytes that can
/// only grow, up to a page limit, with every access bounds-checked.
pub struct LinearMemory {
    bytes: Vec<u8>,
    pages: u32,
    max_pages: u32,
}

impl View for LinearMemory {
    type V = Seq<u8>;

    closed spec fn view(&self) -> Seq<u8> {
        self.bytes@
    }
}

impl LinearMemory {
    /// Current size in pages.
    pub closed spec fn page_count(&self) -> nat {
        self.pages as nat
    }

    /// The most pages the memory may grow to.
    pub closed spec fn limit(&self) -> nat {
        self.max_pages as nat
    }

    pub open spec fn wf(&self) -> bool {
        &&& self@.len() == self.page_count() * PAGE_SIZE
        &&& self.page_count() <= self.limit() <= MAX_PAGES
    }

    /// A zeroed memory of `pages` pages that may grow to `max_pages`.
    pub fn new(pages: u32, max_pages: u32) -> (r: Self)
        requires
            pages <= max_pages <= MAX_PAGES,
        ensures
            r.wf(),
            r@ == zeros((pages * PAGE_SIZE) as nat),
            r.page_count() == pages,
            r.limit() == max_pages,
    {
        let mut bytes: Vec<u8> = Vec::new();
        push_zeros(&mut bytes, pages as u64 * PAGE_SIZE as u64);
        assert(bytes@ =~= zeros((pages * PAGE_SIZE) as nat));
        LinearMemory { bytes, pages, max_pages }
    }

    /// Current size in pages.
    pub fn size(&self) -> (r: u32)
        ensures
            r == self.page_count(),
    {
        self.pages
    }

    /// Grows the memory by `extra` zeroed pages and returns the old size, or
    /// fails with `GrowthFailed`, unchanged, past the page limit.
    pub fn grow(&mut self, extra: u32) -> (r: Result<u32, BridgeError>)
        requires
            old(self).wf(),
        ensures
            final(self).wf(),
            final(self).limit() == old(self).limit(),
            old(self).page_count() + extra <= old(self).limit() ==> {
                &&& r == Ok::<u32, BridgeError>(old(self).page_count() as u32)
                &&& final(self).page_count() == old(self).page_count() + extra
                &&& final(self)@ == old(self)@ + zeros((extra * PAGE_SIZE) as nat)
            },
            old(self).page_count() + extra > old(self).limit() ==> {
                &&& r == Err::<u32, BridgeError>(BridgeError::GrowthFailed)
                &&& final(self).page_count() == old(self).page_count()
                &&& final(self)@ == old(self)@
            },
    {
        if self.pages as u64 + extra as u64 > self.max_pages as u64 {
            return Err(BridgeError::GrowthFailed);
        }
        let before = self.pages;
        push_zeros(&mut self.bytes, extra as u64 * PAGE_SIZE as u64);
        self.pages = self.pages + extra;
        assert(self.bytes@.len() == self.pages * PAGE_SIZE) by (nonlinear_arith)
            requires
                self.bytes@.len() == before * PAGE_SIZE + extra * PAGE_SIZE,
                self.pages == before + extra,
        ;
        Ok(before)
    }

    /// The `len` bytes at `offset`, or `BoundsViolation` if they do not all
    /// lie inside the memory.
    pub fn read(&self, offset: u32, len: u32) -> (r: Result<Vec<u8>, BridgeError>)
        requires
            self.wf(),
        ensures
            in_bounds(self.page_count(), offset as nat, len as nat) ==> {
                &&& r is Ok
                &&& r->Ok_0@ == self@.subrange(offset as int, offset + len)
            },
            !in_bounds(self.page_count(), offset as nat, len as nat) ==> r
                == Err::<Vec<u8>, BridgeError>(BridgeError::BoundsViolation),
    {
        if check_range(self.pages, offset, len).is_err() {
            return Err(BridgeError::BoundsViolation);
        }
        let mut out: Vec<u8> = Vec::new();
        let mut i: u32 = 0;
        while i < len
            invariant
                self.wf(),
                in_bounds(self.page_count(), offset as nat, len as nat),
                i <= len,
                out@ == self@.subrange(offset as int, offset + i),
            decreases len - i,
        {
            let at: usize = (offset as u64 + i as u64) as usize;
            out.push(self.bytes[at]);
            i = i + 1;
            assert(out@ =~= self@.subrange(offset as int, offset + i));
        }
        Ok(out)
    }

    /// Writes `data` at `offset`, or fails with `BoundsViolation`, unchanged,
    /// if it does not fit inside the memory.
    pub fn write(&mut self, offset: u32, data: &[u8]) -> (r: Result<(), BridgeError>)
        requires
            old(self).wf(),
        ensures
            final(self).wf(),
            final(self).page_count() == old(self).page_count(),
            final(self).limit() == old(self).limit(),
            in_bounds(old(self).page_count(), offset as nat, data@.len()) ==> {
                &&& r == Ok::<(), BridgeError>(())
                &&& final(self)@ == write_spec(old(self)@, offset as int, data@)
            },
            !in_bounds(old(self).page_count(), offset as nat, data@.len()) ==> {
                &&& r == Err::<(), BridgeError>(BridgeError::BoundsViolation)
                &&& final(self)@ == old(self)@
            },
    {
        assert(self.pages as u64 * 65536 <= 0xffff_ffffu64 * 65536) by (nonlinear_arith)
            requires
                self.pages <= u32::MAX,
        ;
        let size: u64 = self.pages as u64 * PAGE_SIZE as u64;
        let len: usize = data.len();
        if len as u64 > size || offset as u64 > size - len as u64 {
            return Err(BridgeError::BoundsViolation);
        }
        let ghost start = self@;
        let mut i: usize = 0;
        while i < len
            invariant
                self.wf(),
                self.page_count() == old(self).page_count(),
                self.limit() == old(self).limit(),
                start == old(self)@,
                len == data@.len(),
                offset + len <= self@.len(),
                i <= len,
                self@.len() == start.len(),
                forall|k: int| 0 <= k < offset ==> #[trigger] self@[k] == start[k],
                forall|k: int| offset <= k < offset + i ==> #[trigger] self@[k] == data@[k - offset],
                forall|k: int| offset + i <= k < start.len() ==> #[trigger] self@[k] == start[k],
            decreases len - i,
        {
            let at: usize = offset as usize + i;
            self.bytes.set(at, data[i]);
            i = i + 1;
        }
        assert(self@ =~= write_spec(start, offset as int, data@));
        Ok(())
    }
}

fn push_zeros(v: &mut Vec<u8>, n: u64)
    ensures
        final(v)@ == old(v)@ + zeros(n as nat),
{
    let mut i: u64 = 0;
    while i < n
        invariant
            i <= n,
            v@ == old(v)@ + zeros(i as nat),
        decreases n - i,
    {
        v.push(0u8);
        i = i + 1;
        assert(v@ =~= old(v)@ + zeros(i as nat));
    }
}

} // verus!
