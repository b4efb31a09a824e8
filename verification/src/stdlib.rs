//! Kernel container support: `FixedVec`, a fixed-capacity array whose
//! backing storage is drawn from the buddy allocator at construction and
//! handed back on release, and the thin `phalloc`/`phree` aliases the rest
//! of the kernel allocates through.

use vstd::prelude::*;

use crate::addr::PhysAddr;
use crate::mem::{
    buddy_alloc, buddy_free, rounded_size, Error, MemoryManager, PAGE_SIZE,
};
use crate::tree::{alloc_result, can_alloc, freed};

verus! {

/// Allocates at least `n` bytes of contiguous physical memory.
///
/// Returns the beginning address of the allocated region if successful;
/// the address is page-aligned and carries the rounded size.
pub fn phalloc(m: &mut MemoryManager, n: usize) -> (r: Result<PhysAddr, Error>)
    requires
        old(m).wf(),
    ensures
        final(m).wf(),
        final(m).arena().same_config(old(m).arena()),
        (r == Err::<PhysAddr, Error>(Error::ZeroSize) <==> n == 0),
        n == 0 ==> final(m).states() == old(m).states(),
        n > old(m).arena().mem_size ==> r == Err::<PhysAddr, Error>(Error::OutOfMemory)
            && final(m).states() == old(m).states(),
        1 <= n <= old(m).arena().mem_size ==> {
            &&& (r is Ok <==> can_alloc(old(m).states(), old(m).arena().target_level(n as nat)))
            &&& (r is Err ==> r == Err::<PhysAddr, Error>(Error::OutOfMemory)
                && final(m).states() == old(m).states())
        },
        r matches Ok(a) ==> {
            &&& 1 <= n <= old(m).arena().mem_size
            &&& alloc_result(
                old(m).states(),
                final(m).states(),
                old(m).arena().hi(),
                old(m).arena().target_level(n as nat),
                a.addr - old(m).arena().start.addr,
            )
            &&& a.size == Some(rounded_size(n as nat) as usize)
            &&& a.addr as int % PAGE_SIZE as int == 0
            &&& old(m).arena().start.addr <= a.addr
            &&& a.addr + rounded_size(n as nat) <= old(m).arena().end.addr
        },
{
    buddy_alloc(m, n)
}

/// Frees the provided physical memory region.
///
/// Freeing a region whose tracked state contradicts the allocator's
/// bookkeeping indicates a bug in the allocation logic and is fatal on
/// the machine; the contract excludes it.
pub fn phree(m: &mut MemoryManager, addr: PhysAddr)
    requires
        old(m).wf(),
        old(m).arena().free_target_ok(addr),
    ensures
        final(m).wf(),
        final(m).arena().same_config(old(m).arena()),
        addr.size is None ==> final(m).states() == old(m).states(),
        addr.size is Some ==> freed(
            old(m).states(),
            final(m).states(),
            old(m).arena().block_node(addr.addr as int, (addr.size->0) as nat),
        ),
{
    buddy_free(m, addr);
}

/// A fixed-capacity array backed by buddy-allocated storage. The element
/// values live in `data`; `phys_addr` names the backing region the array
/// exclusively owns until `release` hands it back.
pub struct FixedVec<T> {
    pub data: Vec<T>,
    pub cap: usize,
    pub phys_addr: PhysAddr,
}

impl<T> FixedVec<T> {
    pub open spec fn wf(self) -> bool {
        &&& self.data@.len() == self.cap
        &&& self.phys_addr.size is Some
    }

    /// Creates a fixed array of `cap` slots, each initialized by `f`. The
    /// backing store is `cap * elem_size` bytes from the buddy allocator;
    /// `elem_size` is the element footprint on the modeled machine.
    /// Zero-sized elements are rejected, as are oversized requests; both
    /// are fatal on the machine and excluded here by precondition.
    pub fn new<F: Fn() -> T>(m: &mut MemoryManager, cap: usize, elem_size: usize, f: F) -> (r:
        Result<FixedVec<T>, Error>)
        requires
            old(m).wf(),
            1 <= cap,
            1 <= elem_size,
            cap * elem_size <= usize::MAX / 2,
            call_requires(f, ()),
        ensures
            final(m).wf(),
            final(m).arena().same_config(old(m).arena()),
            r is Err ==> r == Err::<FixedVec<T>, Error>(Error::OutOfMemory),
            cap * elem_size > old(m).arena().mem_size ==> r is Err && final(m).states() == old(
                m,
            ).states(),
            cap * elem_size <= old(m).arena().mem_size ==> {
                &&& (r is Ok <==> can_alloc(
                    old(m).states(),
                    old(m).arena().target_level((cap * elem_size) as nat),
                ))
                &&& (r is Err ==> final(m).states() == old(m).states())
            },
            r matches Ok(v) ==> {
                &&& v.wf()
                &&& v.cap == cap
                &&& forall|q: int| 0 <= q < cap ==> call_ensures(f, (), #[trigger] v.data@[q])
                &&& v.phys_addr.size == Some(
                    rounded_size((cap * elem_size) as nat) as usize,
                )
                &&& v.phys_addr.addr as int % PAGE_SIZE as int == 0
                &&& alloc_result(
                    old(m).states(),
                    final(m).states(),
                    old(m).arena().hi(),
                    old(m).arena().target_level((cap * elem_size) as nat),
                    v.phys_addr.addr - old(m).arena().start.addr,
                )
            },
    {
        let size: usize = cap * elem_size;
        proof {
            assert(1 <= size) by (nonlinear_arith)
                requires
                    1 <= cap,
                    1 <= elem_size,
                    size == cap * elem_size,
            ;
        }
        let phys_addr = match phalloc(m, size) {
            Ok(p) => p,
            Err(_) => {
                return Err(Error::OutOfMemory);
            },
        };
        let mut data: Vec<T> = Vec::new();
        let mut i: usize = 0;
        while i < cap
            invariant
                i <= cap,
                data@.len() == i,
                call_requires(f, ()),
                forall|q: int| 0 <= q < i ==> call_ensures(f, (), #[trigger] data@[q]),
            decreases cap - i,
        {
            data.push(f());
            i = i + 1;
        }
        Ok(FixedVec { data, cap, phys_addr })
    }

    pub fn cap(&self) -> (r: usize)
        ensures
            r == self.cap,
    {
        self.cap
    }

    /// Shared access to one slot; indexing out of range is fatal on the
    /// machine and excluded here.
    pub fn get(&self, index: usize) -> (r: &T)
        requires
            self.wf(),
            index < self.cap,
        ensures
            *r == self.data@[index as int],
    {
        &self.data[index]
    }

    /// Exclusive access to one slot.
    pub fn get_mut(&mut self, index: usize) -> (r: &mut T)
        requires
            old(self).wf(),
            index < old(self).cap,
        ensures
            *r == old(self).data@[index as int],
            final(self).data@ == old(self).data@.update(index as int, *final(r)),
            final(self).cap == old(self).cap,
            final(self).phys_addr == old(self).phys_addr,
            final(self).wf(),
    {
        &mut self.data[index]
    }

    /// Overwrites one slot.
    pub fn set(&mut self, index: usize, v: T)
        requires
            old(self).wf(),
            index < old(self).cap,
        ensures
            final(self).data@ == old(self).data@.update(index as int, v),
            final(self).cap == old(self).cap,
            final(self).phys_addr == old(self).phys_addr,
            final(self).wf(),
    {
        self.data[index] = v;
    }

    /// Releases the backing storage to the allocator. The kernel frees on
    /// drop; the model makes the release explicit, since it needs the
    /// allocator context.
    pub fn release(self, m: &mut MemoryManager)
        requires
            old(m).wf(),
            old(m).arena().free_target_ok(self.phys_addr),
            self.phys_addr.size is Some,
        ensures
            final(m).wf(),
            final(m).arena().same_config(old(m).arena()),
            freed(
                old(m).states(),
                final(m).states(),
                old(m).arena().block_node(
                    self.phys_addr.addr as int,
                    (self.phys_addr.size->0) as nat,
                ),
            ),
    {
        phree(m, self.phys_addr);
    }
}

} // verus!
