use vstd::prelude::*;

use crate::error::BridgeError;
use crate::paging::{check_range, in_bounds, pages_for, pages_needed, MAX_PAGES, PAGE_SIZE};
use crate::state::{BridgeModel, GlobalState, GrowCache};

verus! {

/// Location of a buffer in guest memory, as handed back to the guest: a byte
/// address and a length.
pub struct ReadBuf {
    pub offset: usize,
    pub len: usize,
}

/// Where a returned payload is placed and how far the guest's memory grows
/// before the write.
#[derive(Clone, Copy, Debug, PartialEq, Eq, Structural)]
pub struct WriteBack {
    /// Byte address at which the payload is written.
    pub offset: u32,
    /// Length of the payload.
    pub len: u32,
    /// Pages to grow the memory by before writing; 0 means no growth.
    pub grow_pages: u32,
    /// The instance's growth cache entry once the growth has succeeded.
    pub entry: GrowCache,
}

/// The placement of a `len`-byte payload into a memory of `mem_pages` pages,
/// given the instance's cache entry.
///
/// On a miss the region starts at the end of memory and memory grows by the
/// pages the payload needs. On a hit with enough pages the cached region is
/// reused with no growth. On a hit with too few pages memory grows by the
/// difference and the entry keeps its base. A cached region that does not lie
/// inside the memory is a bounds violation; growth past the largest memory
/// fails.
pub open spec fn plan_spec(cached: Option<GrowCache>, mem_pages: nat, len: nat) -> Result<
    WriteBack,
    BridgeError,
> {
    let need = pages_for(len);
    match cached {
        None => {
            if mem_pages + need > MAX_PAGES {
                Err(BridgeError::GrowthFailed)
            } else {
                Ok(
                    WriteBack {
                        offset: (mem_pages * PAGE_SIZE) as u32,
                        len: len as u32,
                        grow_pages: need as u32,
                        entry: GrowCache { offset: mem_pages as u32, pages: need as u32 },
                    },
                )
            }
        },
        Some(c) => {
            if c.offset + c.pages > mem_pages {
                Err(BridgeError::BoundsViolation)
            } else if need <= c.pages {
                Ok(
                    WriteBack {
                        offset: (c.offset * PAGE_SIZE) as u32,
                        len: len as u32,
                        grow_pages: 0,
                        entry: c,
                    },
                )
            } else if mem_pages + (need - c.pages) > MAX_PAGES {
                Err(BridgeError::GrowthFailed)
            } else {
                Ok(
                    WriteBack {
                        offset: (c.offset * PAGE_SIZE) as u32,
                        len: len as u32,
                        grow_pages: (need - c.pages) as u32,
                        entry: GrowCache { offset: c.offset, pages: need as u32 },
                    },
                )
            }
        },
    }
}

/// The model after the write-back `w` to `instance` went through: the cache
/// entry changes only when memory grew.
pub open spec fn commit(m: BridgeModel, instance: Seq<char>, w: WriteBack) -> BridgeModel {
    if w.grow_pages > 0 {
        BridgeModel { caches: m.caches.insert(instance, w.entry), ..m }
    } else {
        m
    }
}

/// Little-endian bytes of a 32-bit value.
pub open spec fn le_bytes(v: nat) -> Seq<u8> {
    seq![
        (v % 256) as u8,
        ((v / 256) % 256) as u8,
        ((v / 65536) % 256) as u8,
        ((v / 16777216) % 256) as u8,
    ]
}

impl ReadBuf {
    /// The fixed record `{offset: u32, len: u32}`, little-endian.
    pub open spec fn record(self) -> Seq<u8> {
        le_bytes(self.offset as nat) + le_bytes(self.len as nat)
    }

    /// Encodes the location as the eight-byte record written into guest
    /// memory.
    pub fn to_le_bytes(&self) -> (r: Vec<u8>)
        requires
            self.offset <= u32::MAX,
            self.len <= u32::MAX,
        ensures
            r@ == self.record(),
    {
        let mut r: Vec<u8> = Vec::new();
        push_le_u32(&mut r, self.offset as u32);
        push_le_u32(&mut r, self.len as u32);
        assert(r@ =~= self.record());
        r
    }
}

/// Outcome of the first step of returning a buffer from ticket `t` to the
/// instance `instance`, whose memory has `mem_pages` pages, with the record
/// to be written at `dest`: the placement of the oldest buffer.
pub open spec fn begin_spec(
    m: BridgeModel,
    t: i32,
    instance: Seq<char>,
    mem_pages: nat,
    dest: nat,
) -> Result<WriteBack, BridgeError> {
    match m.get_result(t) {
        Err(e) => Err(e),
        Ok(b) => {
            if !in_bounds(mem_pages, dest, 8) {
                Err(BridgeError::BoundsViolation)
            } else if b.len() > u32::MAX {
                Err(BridgeError::GrowthFailed)
            } else {
                plan_spec(m.cache_of(instance), mem_pages, b.len())
            }
        },
    }
}

/// A placement lies inside the memory once it has grown as planned, and its
/// cache entry covers it.
pub proof fn lemma_placement_in_bounds(cached: Option<GrowCache>, mem_pages: nat, len: nat)
    requires
        plan_spec(cached, mem_pages, len) is Ok,
        mem_pages <= MAX_PAGES,
        len <= u32::MAX,
    ensures
        ({
            let w = plan_spec(cached, mem_pages, len)->Ok_0;
            &&& w.len == len
            &&& w.offset == w.entry.offset * PAGE_SIZE
            &&& w.entry.offset + w.entry.pages <= mem_pages + w.grow_pages
            &&& len <= w.entry.pages * PAGE_SIZE
            &&& in_bounds((mem_pages + w.grow_pages) as nat, w.offset as nat, len)
        }),
{
    let w = plan_spec(cached, mem_pages, len)->Ok_0;
    let need = pages_for(len);
    assert(len <= need * 65536) by (nonlinear_arith)
        requires
            need == (if len == 0 { 1 } else { (len + 65535) / 65536 }),
    ;
    assert(need >= 1);
    assert(w.entry.offset <= 65535);
    assert(w.entry.offset * 65536 <= 65535 * 65536) by (nonlinear_arith)
        requires
            w.entry.offset <= 65535,
    ;
    assert(w.entry.offset * 65536 + len <= (mem_pages + w.grow_pages) * 65536) by (nonlinear_arith)
        requires
            w.entry.offset + w.entry.pages <= mem_pages + w.grow_pages,
            len <= w.entry.pages * 65536,
    ;
}

impl GlobalState {
    /// Decides where a `len`-byte payload goes in the memory of
    /// `instance_name`, which has `mem_pages` pages, and how far that memory
    /// must grow first. Nothing changes until the growth is reported.
    pub fn plan_write_back(&self, instance_name: &String, mem_pages: u32, len: u32) -> (r: Result<
        WriteBack,
        BridgeError,
    >)
        requires
            self.wf(),
            mem_pages <= MAX_PAGES,
        ensures
            r == plan_spec(self@.cache_of(instance_name@), mem_pages as nat, len as nat),
    {
        let need = pages_needed(len);
        match self.get_cache(instance_name) {
            None => {
                if mem_pages as u64 + need as u64 > MAX_PAGES as u64 {
                    Err(BridgeError::GrowthFailed)
                } else {
                    assert(mem_pages * 65536 <= 65535 * 65536) by (nonlinear_arith)
                        requires
                            mem_pages <= 65535,
                    ;
                    Ok(
                        WriteBack {
                            offset: mem_pages * PAGE_SIZE,
                            len,
                            grow_pages: need,
                            entry: GrowCache { offset: mem_pages, pages: need },
                        },
                    )
                }
            },
            Some(c) => {
                let c = *c;
                if c.offset as u64 + c.pages as u64 > mem_pages as u64 {
                    Err(BridgeError::BoundsViolation)
                } else if need <= c.pages {
                    assert(c.offset * 65536 <= 65535 * 65536) by (nonlinear_arith)
                        requires
                            c.offset <= 65535,
                    ;
                    Ok(WriteBack { offset: c.offset * PAGE_SIZE, len, grow_pages: 0, entry: c })
                } else if mem_pages as u64 + (need - c.pages) as u64 > MAX_PAGES as u64 {
                    Err(BridgeError::GrowthFailed)
                } else {
                    assert(c.offset * 65536 <= 65535 * 65536) by (nonlinear_arith)
                        requires
                            c.offset <= 65535,
                    ;
                    Ok(
                        WriteBack {
                            offset: c.offset * PAGE_SIZE,
                            len,
                            grow_pages: need - c.pages,
                            entry: GrowCache { offset: c.offset, pages: need },
                        },
                    )
                }
            },
        }
    }

    /// First step of returning a buffer: takes the oldest buffer of ticket
    /// `queue_id` and decides where it goes in the memory of `instance_name`
    /// (`mem_pages` pages), whose record will be written at `dest`. Either
    /// the buffer leaves its queue and its placement comes back, or nothing
    /// changes.
    pub fn begin_read_buffer(
        &mut self,
        queue_id: i32,
        instance_name: &String,
        mem_pages: u32,
        dest: u32,
    ) -> (r: Result<(Vec<u8>, WriteBack), BridgeError>)
        requires
            old(self).wf(),
            mem_pages <= MAX_PAGES,
        ensures
            final(self).wf(),
            match begin_spec(old(self)@, queue_id, instance_name@, mem_pages as nat, dest as nat) {
                Ok(w) => {
                    &&& r is Ok
                    &&& r->Ok_0.1 == w
                    &&& old(self)@.get_result(queue_id) == Ok::<Seq<u8>, BridgeError>(r->Ok_0.0@)
                    &&& final(self)@ == old(self)@.after_get(queue_id)
                },
                Err(e) => {
                    &&& r == Err::<(Vec<u8>, WriteBack), BridgeError>(e)
                    &&& final(self)@ == old(self)@
                },
            },
    {
        let len = match self.front_len(queue_id) {
            Ok(n) => n,
            Err(e) => {
                return Err(e);
            },
        };
        if check_range(mem_pages, dest, 8).is_err() {
            return Err(BridgeError::BoundsViolation);
        }
        if len > u32::MAX as usize {
            return Err(BridgeError::GrowthFailed);
        }
        let w = match self.plan_write_back(instance_name, mem_pages, len as u32) {
            Ok(w) => w,
            Err(e) => {
                return Err(e);
            },
        };
        match self.read_buffer(queue_id) {
            Ok(b) => Ok((b, w)),
            Err(e) => Err(e),
        }
    }

    /// Second step of returning a buffer: `grew` tells whether the memory of
    /// `instance_name` grew by `w.grow_pages` pages. If growth was needed and
    /// failed, the exchange fails and the cache is left alone; otherwise the
    /// cache entry is brought up to date and the payload's location comes
    /// back.
    pub fn finish_read_buffer(&mut self, instance_name: String, w: WriteBack, grew: bool) -> (r:
        Result<ReadBuf, BridgeError>)
        requires
            old(self).wf(),
        ensures
            final(self).wf(),
            w.grow_pages > 0 && !grew ==> {
                &&& r is Err
                &&& r->Err_0 == BridgeError::GrowthFailed
                &&& final(self)@ == old(self)@
            },
            w.grow_pages == 0 || grew ==> {
                &&& r is Ok
                &&& r->Ok_0.offset == w.offset
                &&& r->Ok_0.len == w.len
                &&& final(self)@ == commit(old(self)@, instance_name@, w)
            },
    {
        if w.grow_pages > 0 {
            if !grew {
                return Err(BridgeError::GrowthFailed);
            }
            self.update_cache(instance_name, w.entry.offset, w.entry.pages);
        }
        Ok(ReadBuf { offset: w.offset as usize, len: w.len as usize })
    }
}

fn push_le_u32(out: &mut Vec<u8>, v: u32)
    ensures
        final(out)@ == old(out)@ + le_bytes(v as nat),
{
    out.push((v % 256) as u8);
    out.push(((v / 256) % 256) as u8);
    out.push(((v / 65536) % 256) as u8);
    out.push(((v / 16777216) % 256) as u8);
    assert(out@ =~= old(out)@ + le_bytes(v as nat));
}

} // verus!
