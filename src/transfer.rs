//! The bridge operations as a guest sees them, carried out against a
//! linear memory held by the host.
use vstd::prelude::*;

use crate::error::BridgeError;
use crate::memory::{write_spec, zeros, LinearMemory};
use crate::paging::{in_bounds, PAGE_SIZE};
use crate::state::GlobalState;
use crate::write_back::{begin_spec, commit, lemma_placement_in_bounds, le_bytes, ReadBuf};

verus! {

impl GlobalState {
    /// Copies the `len` bytes at `offset` of the caller's memory into the
    /// queue of ticket `queue_id`. A range outside the memory fails with
    /// `BoundsViolation` before anything is queued.
    pub fn put_guest_buffer(&mut self, queue_id: i32, mem: &LinearMemory, offset: u32, len: u32) -> (r:
        Result<(), BridgeError>)
        requires
            old(self).wf(),
            mem.wf(),
        ensures
            final(self).wf(),
            !in_bounds(mem.page_count(), offset as nat, len as nat) ==> {
                &&& r == Err::<(), BridgeError>(BridgeError::BoundsViolation)
                &&& final(self)@ == old(self)@
            },
            in_bounds(mem.page_count(), offset as nat, len as nat) ==> {
                &&& r == old(self)@.put_result(queue_id)
                &&& final(self)@ == old(self)@.put(
                    queue_id,
                    mem@.subrange(offset as int, offset + len),
                )
            },
    {
        match mem.read(offset, len) {
            Ok(data) => self.put_buffer(queue_id, data),
            Err(e) => Err(e),
        }
    }

    /// Takes the oldest buffer of ticket `queue_id` and places it in the
    /// memory of the calling instance `instance_name`, growing that memory
    /// through its growth cache as needed; then writes the record
    /// `{offset, len}` of the placed buffer at `dest` and returns it.
    pub fn read_guest_buffer(
        &mut self,
        queue_id: i32,
        instance_name: &String,
        mem: &mut LinearMemory,
        dest: u32,
    ) -> (r: Result<ReadBuf, BridgeError>)
        requires
            old(self).wf(),
            old(mem).wf(),
        ensures
            final(self).wf(),
            final(mem).wf(),
            final(mem).limit() == old(mem).limit(),
            match begin_spec(
                old(self)@,
                queue_id,
                instance_name@,
                old(mem).page_count(),
                dest as nat,
            ) {
                Err(e) => {
                    &&& r is Err
                    &&& r->Err_0 == e
                    &&& final(self)@ == old(self)@
                    &&& final(mem)@ == old(mem)@
                },
                Ok(w) => {
                    let b = old(self)@.get_result(queue_id)->Ok_0;
                    if w.grow_pages > 0 && old(mem).page_count() + w.grow_pages > old(mem).limit() {
                        &&& r is Err
                        &&& r->Err_0 == BridgeError::GrowthFailed
                        &&& final(self)@ == old(self)@.after_get(queue_id)
                        &&& final(mem)@ == old(mem)@
                    } else {
                        &&& r is Ok
                        &&& r->Ok_0.offset == w.offset
                        &&& r->Ok_0.len == w.len
                        &&& final(self)@ == commit(old(self)@.after_get(queue_id), instance_name@, w)
                        &&& final(mem).page_count() == old(mem).page_count() + w.grow_pages
                        &&& final(mem)@ == write_spec(
                            write_spec(
                                old(mem)@ + zeros((w.grow_pages * PAGE_SIZE) as nat),
                                w.offset as int,
                                b,
                            ),
                            dest as int,
                            le_bytes(w.offset as nat) + le_bytes(w.len as nat),
                        )
                    }
                },
            },
    {
        let (payload, w) = match self.begin_read_buffer(queue_id, instance_name, mem.size(), dest) {
            Ok(p) => p,
            Err(e) => {
                return Err(e);
            },
        };
        proof {
            lemma_placement_in_bounds(
                old(self)@.cache_of(instance_name@),
                old(mem).page_count(),
                payload@.len(),
            );
        }
        let grew = if w.grow_pages > 0 {
            mem.grow(w.grow_pages).is_ok()
        } else {
            true
        };
        let rb = match self.finish_read_buffer(instance_name.clone(), w, grew) {
            Ok(rb) => rb,
            Err(e) => {
                return Err(e);
            },
        };
        let ghost grown = mem@;
        let _ = mem.write(w.offset, payload.as_slice());
        let record = rb.to_le_bytes();
        let ghost placed = mem@;
        let _ = mem.write(dest, record.as_slice());
        assert(grown == old(mem)@ + zeros((w.grow_pages * PAGE_SIZE) as nat));
        assert(placed == write_spec(grown, w.offset as int, payload@));
        Ok(rb)
    }
}

} // verus!
