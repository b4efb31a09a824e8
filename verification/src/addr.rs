//! Address value types: `PhysAddr` for physical addresses and `VirtAddr` for
//! virtual addresses. Keeping them as distinct wrapper types prevents
//! accidental mixing of the two address spaces. A `PhysAddr` optionally
//! carries the size of the allocation it names; the buddy allocator attaches
//! the size so that a later free can recover the block.

use vstd::prelude::*;

verus! {

/// A physical memory address, optionally tagged with the size of the
/// allocated region that starts at it.
#[derive(Debug, Clone, Copy, PartialEq, Eq, Structural, PartialOrd, Ord, Hash)]
pub struct PhysAddr {
    pub addr: usize,
    pub size: Option<usize>,
}

impl PhysAddr {
    pub fn new(addr: usize, size: Option<usize>) -> (r: Self)
        ensures
            r.addr == addr,
            r.size == size,
    {
        Self { addr, size }
    }

    pub fn size(&self) -> (r: Option<usize>)
        ensures
            r == self.size,
    {
        self.size
    }

    pub fn as_usize(self) -> (r: usize)
        ensures
            r == self.addr,
    {
        self.addr
    }

    /// True when the address is evenly divisible by `alignment`.
    pub fn is_aligned(&self, alignment: usize) -> (r: bool)
        requires
            alignment != 0,
        ensures
            r == (self.addr % alignment == 0),
    {
        self.addr % alignment == 0
    }
}

/// A virtual memory address.
#[derive(Debug, Clone, Copy, PartialEq, Eq, Structural, PartialOrd, Ord, Hash)]
pub struct VirtAddr(pub usize);

impl VirtAddr {
    pub fn new(addr: usize) -> (r: Self)
        ensures
            r.0 == addr,
    {
        Self(addr)
    }

    pub fn as_usize(self) -> (r: usize)
        ensures
            r == self.0,
    {
        self.0
    }

    /// True when the address is evenly divisible by `alignment`.
    pub fn is_aligned(&self, alignment: usize) -> (r: bool)
        requires
            alignment != 0,
        ensures
            r == (self.0 % alignment == 0),
    {
        self.0 % alignment == 0
    }

    /// Offset the address forward by `rhs` bytes.
    pub fn add(self, rhs: usize) -> (r: Self)
        requires
            self.0 + rhs <= usize::MAX,
        ensures
            r.0 == self.0 + rhs,
    {
        Self(self.0 + rhs)
    }

    /// Offset the address backward by `rhs` bytes.
    pub fn sub(self, rhs: usize) -> (r: Self)
        requires
            rhs <= self.0,
        ensures
            r.0 == self.0 - rhs,
    {
        Self(self.0 - rhs)
    }
}

} // verus!
