use vstd::prelude::*;

verus! {

/// Size in bytes of one page of guest linear memory.
pub const PAGE_SIZE: u32 = 65536;

/// The largest number of pages a 32-bit linear memory can hold.
pub const MAX_PAGES: u32 = 65536;

/// Whole pages that hold `len` bytes; an empty payload still takes one page.
pub open spec fn pages_for(len: nat) -> nat {
    if len == 0 {
        1
    } else {
        ((len + PAGE_SIZE - 1) / PAGE_SIZE as int) as nat
    }
}

/// Number of pages needed to hold a payload of `len` bytes.
pub fn pages_needed(len: u32) -> (r: u32)
    ensures
        r == pages_for(len as nat),
        1 <= r <= MAX_PAGES,
        len <= r * PAGE_SIZE,
{
    let whole: u32 = len / PAGE_SIZE;
    let r: u32 = if len % PAGE_SIZE != 0 {
        whole + 1
    } else if whole == 0 {
        1
    } else {
        whole
    };
    assert(len == whole * 65536 + len % 65536) by (nonlinear_arith)
        requires
            whole == len / 65536,
    ;
    assert(r == pages_for(len as nat)) by (nonlinear_arith)
        requires
            whole == len / 65536,
            len == whole * 65536 + len % 65536,
            len % 65536 != 0 ==> r == whole + 1,
            len % 65536 == 0 && whole == 0 ==> r == 1,
            len % 65536 == 0 && whole != 0 ==> r == whole,
            len <= u32::MAX,
    ;
    r
}

/// `offset..offset+len` lies inside a memory of `pages` pages.
pub open spec fn in_bounds(pages: nat, offset: nat, len: nat) -> bool {
    offset + len <= pages * PAGE_SIZE
}

/// Bounds check of a guest-supplied range against a memory of `mem_pages`
/// pages, done before any copy.
pub fn check_range(mem_pages: u32, offset: u32, len: u32) -> (r: Result<(), crate::error::BridgeError>)
    ensures
        r is Ok <==> in_bounds(mem_pages as nat, offset as nat, len as nat),
        r is Err ==> r == Err::<(), _>(crate::error::BridgeError::BoundsViolation),
{
    let end: u64 = offset as u64 + len as u64;
    assert(mem_pages as u64 * 65536 <= 0xffff_ffffu64 * 65536) by (nonlinear_arith)
        requires
            mem_pages <= u32::MAX,
    ;
    let size: u64 = mem_pages as u64 * PAGE_SIZE as u64;
    if end <= size {
        Ok(())
    } else {
        Err(crate::error::BridgeError::BoundsViolation)
    }
}

} // verus!
