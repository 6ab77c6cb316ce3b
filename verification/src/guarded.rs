//! The process-wide allocator: one `FreeListHeap` meant to be kept in a
//! single long-lived place and driven from inside a critical section.
//!
//! On the target, every call is wrapped in "run with interrupts disabled,
//! restore the prior state after" by the surrounding program, so that
//! calls from normal execution and from interrupt handlers never
//! interleave; the heap itself assumes exclusive access during each call.
//! The critical-section primitive is the surrounding program's concern:
//! nothing here blocks, and every call completes in bounded work.

use vstd::prelude::*;

use crate::block::Block;
use crate::block::is_power_of_two;
use crate::free_list::allocate_post;
use crate::free_list::deallocate_post;
use crate::free_list::valid_free;
use crate::free_list::AllocError;
use crate::free_list::FreeListHeap;

verus! {

/// A heap allocator for Cortex-M processors: wraps exactly one
/// `FreeListHeap` and owns its one-time initialization protocol.
pub struct CortexMHeap {
    heap: FreeListHeap,
}

impl CortexMHeap {
    /// The wrapped heap, which the contracts speak of.
    pub closed spec fn inner(&self) -> FreeListHeap {
        self.heap
    }

    /// The wrapped free list is well formed.
    pub open spec fn wf(&self) -> bool {
        self.inner().wf()
    }

    /// `init` has established a region.
    pub open spec fn is_initialized(&self) -> bool {
        self.inner().is_initialized()
    }

    /// Creates a new UNINITIALIZED heap allocator. `init` must run, once,
    /// before the first allocation call.
    pub fn empty() -> (r: CortexMHeap)
        ensures
            r.wf(),
            !r.is_initialized(),
            r.inner().blocks().len() == 0,
    {
        CortexMHeap { heap: FreeListHeap::empty() }
    }

    /// Initializes the heap over `[start_addr, end_addr)`; the byte at
    /// `end_addr` itself is not used. To be called exactly ONCE (enforced
    /// here by the precondition on an uninitialized heap), strictly before
    /// any allocation call, with `end_addr > start_addr`; the callers own
    /// that address range and hand it over entirely.
    pub fn init(&mut self, start_addr: usize, end_addr: usize)
        requires
            !old(self).is_initialized(),
            old(self).inner().blocks().len() == 0,
            start_addr < end_addr,
        ensures
            final(self).wf(),
            final(self).is_initialized(),
            final(self).inner().region_start() == start_addr,
            final(self).inner().region_end() == end_addr,
            final(self).inner().blocks() =~= seq![
                Block { addr: start_addr, size: (end_addr - start_addr) as usize },
            ],
            final(self).inner().free_bytes() == end_addr - start_addr,
    {
        let size = end_addr - start_addr;
        self.heap.init(start_addr, size);
    }

    /// Serves an allocation request by first-fit search, as
    /// `allocate_post` states. `OutOfMemory` is the only failure; it is
    /// reported to the caller and leaves the heap untouched and reusable.
    pub fn allocate(&mut self, size: usize, align: usize) -> (r: Result<usize, AllocError>)
        requires
            old(self).wf(),
            old(self).is_initialized(),
            is_power_of_two(align as int),
        ensures
            allocate_post(old(self).inner(), final(self).inner(), size, align, r),
    {
        self.heap.allocate(size, align)
    }

    /// Returns a region granted by a matching `allocate` call, merging it
    /// with any touching free neighbour, as `deallocate_post` states.
    pub fn deallocate(&mut self, addr: usize, size: usize, align: usize)
        requires
            old(self).wf(),
            old(self).is_initialized(),
            valid_free(old(self).inner(), addr, size, align),
        ensures
            deallocate_post(old(self).inner(), final(self).inner(), addr, size),
    {
        self.heap.deallocate(addr, size, align)
    }

    /// Whether `init` has run.
    pub fn initialized(&self) -> (b: bool)
        ensures
            b == self.is_initialized(),
    {
        self.heap.initialized()
    }

    /// Decides at run time whether `(addr, size, align)` may be handed to
    /// `deallocate`.
    pub fn can_free(&self, addr: usize, size: usize, align: usize) -> (b: bool)
        requires
            self.wf(),
        ensures
            b == valid_free(self.inner(), addr, size, align),
    {
        self.heap.can_free(addr, size, align)
    }

    /// Number of free blocks.
    pub fn block_count(&self) -> (n: usize)
        ensures
            n == self.inner().blocks().len(),
    {
        self.heap.block_count()
    }

    /// The free block at position `i` of the list (ascending addresses).
    pub fn block_at(&self, i: usize) -> (b: Block)
        requires
            i < self.inner().blocks().len(),
        ensures
            b == self.inner().blocks()[i as int],
    {
        self.heap.block_at(i)
    }

    /// Total free bytes.
    pub fn free_byte_count(&self) -> (n: usize)
        requires
            self.wf(),
        ensures
            n == self.inner().free_bytes(),
    {
        self.heap.free_byte_count()
    }
}

} // verus!
