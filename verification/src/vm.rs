//! Virtual memory: the two-level page table of the 32-bit translation
//! format. The root table has 1024 entries; each valid root entry names a
//! second-level table of 1024 entries; each valid second-level entry names
//! a 4 KiB physical frame. A virtual address splits into a 10-bit upper
//! index (bits 22-31), a 10-bit lower index (bits 12-21) and a page
//! offset. An entry holds the frame number shifted left by 10, the
//! permission flags, and the valid bit.
//!
//! Tables are `FixedVec`s whose page-sized backing frames come from the
//! buddy allocator; second-level tables are created lazily on the first
//! mapping that touches their upper index. Remapping an already-valid
//! leaf silently replaces it — acceptable only for boot-time identity
//! mapping.

use vstd::prelude::*;
use vstd::arithmetic::power2::{lemma_pow2_strictly_increases, lemma2_to64, pow2};

use crate::mem::{lemma_next_pow2_unique, rounded_size, Error, MemoryManager, PAGE_SIZE};
use crate::stdlib::FixedVec;
use crate::tree::{
    alloc_result, allocated_bytes, can_alloc, lemma_alloc_result_accounting,
    lemma_alloc_result_unique, lemma_lg_pow2, BlockState,
};

verus! {

/// Mode bit of the translation-root control register: two-level 32-bit
/// translation.
pub const SATP_SV32: usize = 0x8000_0000;

/// Entry valid bit.
pub const PAGE_V: usize = 0x1;

/// Readable.
pub const PAGE_R: usize = 0x2;

/// Writable.
pub const PAGE_W: usize = 0x4;

/// Executable.
pub const PAGE_X: usize = 0x8;

/// User-accessible.
pub const PAGE_U: usize = 0x10;

/// Entries per table level: each level has 2^10 entries of 32 bits, so a
/// level fits exactly one page.
pub const PT_ENTRIES: usize = 1024;

/// Bytes of one table entry on the modeled machine.
pub const PT_ENTRY_BYTES: usize = 4;

/// Bytes of one second-level table handle on the modeled machine, for the
/// array of lazily created tables.
pub const PT_HANDLE_BYTES: usize = 20;

/// A per-process two-level page table.
pub struct PageTable {
    pub root_pt: FixedVec<usize>,
    pub second_pts: FixedVec<Option<FixedVec<usize>>>,
}

impl PageTable {
    /// The upper (root) index of a virtual address: bits 22-31.
    pub open spec fn vpn1_of(va: int) -> int {
        (va / 0x40_0000) % 1024
    }

    /// The lower (second-level) index of a virtual address: bits 12-21.
    pub open spec fn vpn0_of(va: int) -> int {
        (va / 4096) % 1024
    }

    /// The value of a valid entry naming physical address `pa` (page
    /// aligned) with the given flags: frame number shifted up by 10 bits,
    /// flags, valid bit.
    pub open spec fn entry_of(pa: int, flags: int) -> int {
        (pa / 4096) * 1024 + flags + 1
    }

    pub open spec fn wf(self) -> bool {
        &&& self.root_pt.wf()
        &&& self.root_pt.cap == PT_ENTRIES
        &&& self.second_pts.wf()
        &&& self.second_pts.cap == PT_ENTRIES
        &&& forall|i: int|
            0 <= i < PT_ENTRIES ==> ((#[trigger] self.root_pt.data@[i]) % 2 == 1
                <==> self.second_pts.data@[i] is Some)
        &&& forall|i: int|
            0 <= i < PT_ENTRIES && (#[trigger] self.second_pts.data@[i]) is Some ==> {
                &&& (self.second_pts.data@[i]->0).wf()
                &&& (self.second_pts.data@[i]->0).cap == PT_ENTRIES
                &&& self.root_pt.data@[i] == Self::entry_of(
                    (self.second_pts.data@[i]->0).phys_addr.addr as int,
                    0,
                )
            }
    }

    /// Decodes a virtual address through the root and second-level
    /// tables: the physical frame address and the flags (valid bit
    /// included) of its leaf entry, or `None` where no valid mapping
    /// exists.
    pub open spec fn translate(self, va: int) -> Option<(int, int)> {
        if self.second_pts.data@[Self::vpn1_of(va)] is Some {
            let e = (self.second_pts.data@[Self::vpn1_of(va)]->0).data@[Self::vpn0_of(va)] as int;
            if e % 2 == 1 {
                Some((((e / 1024) * 4096), e % 1024))
            } else {
                None
            }
        } else {
            None
        }
    }

    /// Creates an empty page table: a fresh root table and no
    /// second-level tables yet. Success takes two allocations — the root
    /// table's page and the handle array — and each fails with
    /// `OutOfMemory` exactly when the arena at that point has no suitable
    /// free block: failure always leaves behind an arena that really
    /// cannot supply the piece being built (or a handle array larger than
    /// the whole region).
    pub fn new(m: &mut MemoryManager) -> (r: Result<PageTable, Error>)
        requires
            old(m).wf(),
        ensures
            final(m).wf(),
            final(m).arena().same_config(old(m).arena()),
            r is Err ==> r == Err::<PageTable, Error>(Error::OutOfMemory),
            PT_ENTRIES * PT_ENTRY_BYTES <= old(m).arena().mem_size && !can_alloc(
                old(m).states(),
                old(m).arena().target_level((PT_ENTRIES * PT_ENTRY_BYTES) as nat),
            ) ==> r is Err && final(m).states() == old(m).states(),
            r is Err ==> PT_ENTRIES * PT_HANDLE_BYTES > old(m).arena().mem_size || !can_alloc(
                final(m).states(),
                old(m).arena().target_level((PT_ENTRIES * PT_ENTRY_BYTES) as nat),
            ) || !can_alloc(
                final(m).states(),
                old(m).arena().target_level((PT_ENTRIES * PT_HANDLE_BYTES) as nat),
            ),
            allocated_bytes(final(m).states(), old(m).arena().hi(), 0) <= allocated_bytes(
                old(m).states(),
                old(m).arena().hi(),
                0,
            ) + PT_ENTRIES * PT_ENTRY_BYTES + rounded_size((PT_ENTRIES * PT_HANDLE_BYTES) as nat),
            r is Ok <==> (can_alloc(
                old(m).states(),
                old(m).arena().target_level((PT_ENTRIES * PT_ENTRY_BYTES) as nat),
            ) && PT_ENTRIES * PT_HANDLE_BYTES <= old(m).arena().mem_size && forall|
                mid: Seq<BlockState>,
                o: int,
            |
                #[trigger] alloc_result(
                    old(m).states(),
                    mid,
                    old(m).arena().hi(),
                    old(m).arena().target_level((PT_ENTRIES * PT_ENTRY_BYTES) as nat),
                    o,
                ) ==> can_alloc(
                    mid,
                    old(m).arena().target_level((PT_ENTRIES * PT_HANDLE_BYTES) as nat),
                )),
            r matches Ok(pt) ==> {
                &&& pt.wf()
                &&& forall|va: int| #[trigger] pt.translate(va) is None
                &&& forall|i: int| 0 <= i < PT_ENTRIES ==> (#[trigger] pt.second_pts.data@[i])
                    is None
            },
    {
        proof {
            // the root table's page request fits any well-formed region,
            // and targets the leaf level of the tree
            lemma2_to64();
            if 12 < old(m).arena().hi() {
                lemma_pow2_strictly_increases(12, old(m).arena().hi());
            }
            assert(PT_ENTRIES * PT_ENTRY_BYTES <= old(m).arena().mem_size);
            assert(rounded_size((PT_ENTRIES * PT_ENTRY_BYTES) as nat) == 4096) by {
                lemma_next_pow2_unique(4096, 4096, 12);
            }
            lemma_lg_pow2(12);
            assert(old(m).arena().target_level((PT_ENTRIES * PT_ENTRY_BYTES) as nat) == old(
                m,
            ).arena().height());
            assert(rounded_size((PT_ENTRIES * PT_HANDLE_BYTES) as nat) == 0x8000) by {
                lemma_next_pow2_unique((PT_ENTRIES * PT_HANDLE_BYTES) as nat, 0x8000, 15);
            }
            lemma_lg_pow2(15);
        }
        let root_pt = match FixedVec::new(m, PT_ENTRIES, PT_ENTRY_BYTES, (|| -> (z: usize)
            ensures
                z == 0,
            { 0 })) {
            Ok(v) => v,
            Err(_) => {
                proof {
                    assert(m.states() == old(m).states());
                    assert(!can_alloc(
                        old(m).states(),
                        old(m).arena().target_level((PT_ENTRIES * PT_ENTRY_BYTES) as nat),
                    ));
                }
                return Err(Error::OutOfMemory);
            },
        };
        let ghost mid = *m;
        let second_pts = match FixedVec::new(
            m,
            PT_ENTRIES,
            PT_HANDLE_BYTES,
            (|| -> (z: Option<FixedVec<usize>>)
                ensures
                    z is None,
                { None }),
        ) {
            Ok(v) => v,
            Err(_) => {
                proof {
                    assert(mid.arena().hi() == old(m).arena().hi());
                    assert(mid.arena().mem_size == old(m).arena().mem_size);
                    assert(alloc_result(
                        old(m).states(),
                        mid.states(),
                        old(m).arena().hi(),
                        old(m).arena().target_level((PT_ENTRIES * PT_ENTRY_BYTES) as nat),
                        root_pt.phys_addr.addr - old(m).arena().start.addr,
                    ));
                    lemma_alloc_result_accounting(
                        old(m).states(),
                        mid.states(),
                        old(m).arena().hi(),
                        old(m).arena().height(),
                        old(m).arena().target_level((PT_ENTRIES * PT_ENTRY_BYTES) as nat),
                        root_pt.phys_addr.addr - old(m).arena().start.addr,
                    );
                    if PT_ENTRIES * PT_HANDLE_BYTES <= old(m).arena().mem_size {
                        assert(m.states() == mid.states());
                        assert(!can_alloc(
                            mid.states(),
                            mid.arena().target_level((PT_ENTRIES * PT_HANDLE_BYTES) as nat),
                        ));
                        assert(mid.arena().target_level((PT_ENTRIES * PT_HANDLE_BYTES) as nat)
                            == old(m).arena().target_level(
                            (PT_ENTRIES * PT_HANDLE_BYTES) as nat,
                        ));
                        // the arena after the root allocation is exactly
                        // what the success condition quantifies over
                        assert(alloc_result(
                            old(m).states(),
                            mid.states(),
                            old(m).arena().hi(),
                            old(m).arena().target_level((PT_ENTRIES * PT_ENTRY_BYTES) as nat),
                            root_pt.phys_addr.addr - old(m).arena().start.addr,
                        ));
                    }
                }
                return Err(Error::OutOfMemory);
            },
        };
        let r = PageTable { root_pt, second_pts };
        proof {
            assert forall|i: int| 0 <= i < PT_ENTRIES implies ((#[trigger] r.root_pt.data@[i]) % 2
                == 1 <==> r.second_pts.data@[i] is Some) by {
                assert(r.root_pt.data@[i] == 0);
                assert(r.second_pts.data@[i] is None);
            }
            assert forall|va: int| #[trigger] r.translate(va) is None by {
                assert(r.second_pts.data@[Self::vpn1_of(va)] is None ==> r.translate(va) is None);
                if 0 <= Self::vpn1_of(va) < 1024 {
                    assert(r.second_pts.data@[Self::vpn1_of(va)] is None);
                }
            }
            // success condition: the root page had a free block, the
            // handle array fits, and — allocation being deterministic —
            // the one arena the root allocation can leave behind had a
            // free block for the handle array too
            let s0 = old(m).states();
            let hi0 = old(m).arena().hi();
            let h0 = old(m).arena().height();
            let lvl_root = old(m).arena().target_level((PT_ENTRIES * PT_ENTRY_BYTES) as nat);
            let lvl_handles = old(m).arena().target_level((PT_ENTRIES * PT_HANDLE_BYTES) as nat);
            let o0 = r.root_pt.phys_addr.addr - old(m).arena().start.addr;
            assert(mid.arena().hi() == hi0);
            assert(alloc_result(s0, mid.states(), hi0, lvl_root, o0));
            lemma_alloc_result_accounting(s0, mid.states(), hi0, h0, lvl_root, o0);
            // the handle array costs its rounded size: the region holds
            // it, so its level sits at or above the leaves
            assert(pow2(15) <= pow2(hi0)) by {
                if 15 < hi0 {
                    lemma_pow2_strictly_increases(15, hi0);
                }
                if hi0 < 15 {
                    lemma_pow2_strictly_increases(hi0, 15);
                }
            }
            let lvl_h = mid.arena().target_level((PT_ENTRIES * PT_HANDLE_BYTES) as nat);
            assert(lvl_h == hi0 - 15);
            assert(alloc_result(
                mid.states(),
                m.states(),
                hi0,
                lvl_h,
                r.second_pts.phys_addr.addr - mid.arena().start.addr,
            ));
            lemma_alloc_result_accounting(
                mid.states(),
                m.states(),
                hi0,
                h0,
                lvl_h,
                r.second_pts.phys_addr.addr - mid.arena().start.addr,
            );
            assert(pow2((hi0 - lvl_h) as nat) == 0x8000) by {
                assert((hi0 - lvl_h) as nat == 15);
            }
            assert(can_alloc(
                mid.states(),
                mid.arena().target_level((PT_ENTRIES * PT_HANDLE_BYTES) as nat),
            ));
            assert(mid.arena().target_level((PT_ENTRIES * PT_HANDLE_BYTES) as nat)
                == lvl_handles);
            assert forall|mid2: Seq<BlockState>, o2: int|
                #[trigger] alloc_result(s0, mid2, hi0, lvl_root, o2) implies can_alloc(
                mid2,
                lvl_handles,
            ) by {
                lemma_alloc_result_unique(s0, mid2, mid.states(), hi0, h0, lvl_root, o2, o0);
            }
        }
        Ok(r)
    }

    /// Physical address of the root table, as the translation-root
    /// control register wants it.
    pub fn root_pt_addr(&self) -> (r: usize)
        ensures
            r == self.root_pt.phys_addr.addr,
    {
        self.root_pt.phys_addr.as_usize()
    }

    /// Maps virtual page `vaddr` to physical page `paddr` with the given
    /// permission flags, lazily creating the second-level table on first
    /// use of the upper index. Both addresses must be page-aligned —
    /// misalignment is fatal on the machine, a caller contract here. An
    /// existing valid leaf is silently replaced. Fails only when a new
    /// second-level table is needed and the arena cannot supply a page.
    pub fn map_page(&mut self, m: &mut MemoryManager, vaddr: usize, paddr: usize, flags: usize)
        -> (r: Result<(), Error>)
        requires
            old(self).wf(),
            old(m).wf(),
            vaddr % 4096 == 0,
            paddr % 4096 == 0,
            vaddr < 0x1_0000_0000,
            paddr < 0x1_0000_0000,
            flags % 2 == 0,
            flags < 1024,
        ensures
            final(m).wf(),
            final(m).arena().same_config(old(m).arena()),
            r is Ok ==> final(self).wf(),
            r is Ok <==> (old(self).second_pts.data@[Self::vpn1_of(vaddr as int)] is Some
                || can_alloc(
                old(m).states(),
                old(m).arena().target_level((PT_ENTRIES * PT_ENTRY_BYTES) as nat),
            )),
            r is Err ==> r == Err::<(), Error>(Error::OutOfMemory) && *final(self) == *old(self)
                && final(m).states() == old(m).states(),
            r is Ok ==> final(self).translate(vaddr as int) == Some(
                ((paddr as int), (flags + 1) as int),
            ),
            r is Ok ==> forall|va2: int|
                0 <= va2 < 0x1_0000_0000 && va2 % 4096 == 0 && va2 != vaddr
                    ==> #[trigger] final(self).translate(va2) == old(self).translate(va2),
            old(self).second_pts.data@[Self::vpn1_of(vaddr as int)] is Some ==> final(m).states()
                == old(m).states(),
            r is Ok && old(self).second_pts.data@[Self::vpn1_of(vaddr as int)] is None
                ==> alloc_result(
                old(m).states(),
                final(m).states(),
                old(m).arena().hi(),
                old(m).arena().target_level((PT_ENTRIES * PT_ENTRY_BYTES) as nat),
                (final(self).second_pts.data@[Self::vpn1_of(vaddr as int)]->0).phys_addr.addr
                    - old(m).arena().start.addr,
            ),
            forall|i: int|
                0 <= i < PT_ENTRIES && i != Self::vpn1_of(vaddr as int)
                    ==> #[trigger] final(self).second_pts.data@[i] == old(
                    self,
                ).second_pts.data@[i],
    {
        let vpn1: usize = vaddr >> 22 & 0x3ff;
        let ghost vp1 = Self::vpn1_of(vaddr as int);
        proof {
            let v = vaddr;
            assert((v >> 22) & 0x3ff == (v / 0x40_0000) % 1024) by (bit_vector)
                requires
                    v < 0x1_0000_0000,
            ;
        }
        if *self.root_pt.get(vpn1) & PAGE_V == 0 {
            proof {
                let e = self.root_pt.data@[vp1];
                assert(e & 1 == e % 2) by (bit_vector);
                assert(self.second_pts.data@[vp1] is None);
            }
            let second_pt = match FixedVec::new(m, PT_ENTRIES, PT_ENTRY_BYTES, (|| -> (z: usize)
                ensures
                    z == 0,
                { 0 })) {
                Ok(v) => v,
                Err(_) => {
                    return Err(Error::OutOfMemory);
                },
            };
            let second_pt_phys_addr: usize = second_pt.phys_addr.as_usize();
            let entry: usize = ((second_pt_phys_addr / PAGE_SIZE) << 10) | PAGE_V;
            proof {
                let a = second_pt_phys_addr;
                assert(((a / 4096) << 10) | 1 == (a / 4096) * 1024 + 1) by (bit_vector)
                    requires
                        a / 4096 < 0x10_0000_0000_0000,
                ;
                assert(a / 4096 < 0x10_0000_0000_0000) by {
                    assert(a <= usize::MAX);
                }
            }
            self.second_pts.set(vpn1, Some(second_pt));
            self.root_pt.set(vpn1, entry);
        } else {
            proof {
                let e = self.root_pt.data@[vp1];
                assert(e & 1 == e % 2) by (bit_vector);
                assert(self.second_pts.data@[vp1] is Some);
            }
        }
        let vpn0: usize = vaddr >> 12 & 0x3ff;
        proof {
            let v = vaddr;
            assert((v >> 12) & 0x3ff == (v / 4096) % 1024) by (bit_vector)
                requires
                    v < 0x1_0000_0000,
            ;
        }
        let leaf: usize = ((paddr / PAGE_SIZE) << 10) | flags | PAGE_V;
        proof {
            let p = paddr;
            let fl = flags;
            assert(((p / 4096) << 10) | fl | 1 == (p / 4096) * 1024 + fl + 1) by (bit_vector)
                requires
                    p < 0x1_0000_0000,
                    fl < 1024,
                    fl % 2 == 0,
            ;
        }
        let second_pt = self.second_pts.get_mut(vpn1);
        match second_pt {
            Some(t) => {
                t.set(vpn0, leaf);
            },
            None => {
                vstd::pervasive::unreached()
            },
        }
        proof {
            let fself = *self;
            let vp0 = Self::vpn0_of(vaddr as int);
            let tbl = fself.second_pts.data@[vp1]->0;
            assert(tbl.data@[vp0] == Self::entry_of(paddr as int, flags as int));
            let e = Self::entry_of(paddr as int, flags as int);
            assert(e % 2 == 1 && e / 1024 == paddr as int / 4096 && e % 1024 == flags + 1) by (
            nonlinear_arith)
                requires
                    e == (paddr as int / 4096) * 1024 + flags + 1,
                    0 <= flags < 1024,
                    flags % 2 == 0,
                    paddr as int >= 0,
            ;
            assert((e / 1024) * 4096 == paddr) by {
                assert(paddr as int == (paddr as int / 4096) * 4096) by {
                    assert(paddr % 4096 == 0);
                }
            }
            assert(fself.translate(vaddr as int) == Some(((paddr as int), (flags + 1) as int)));
            assert forall|va2: int|
                0 <= va2 < 0x1_0000_0000 && va2 % 4096 == 0 && va2 != vaddr implies #[trigger] fself
                .translate(va2) == old(self).translate(va2) by {
                if Self::vpn1_of(va2) != vp1 {
                } else {
                    assert(Self::vpn0_of(va2) != vp0 || va2 == vaddr) by (nonlinear_arith)
                        requires
                            0 <= va2 < 0x1_0000_0000,
                            va2 % 4096 == 0,
                            0 <= vaddr < 0x1_0000_0000,
                            vaddr % 4096 == 0,
                            Self::vpn1_of(va2) == Self::vpn1_of(vaddr as int),
                            Self::vpn0_of(va2) == (va2 / 4096) % 1024,
                            Self::vpn0_of(vaddr as int) == (vaddr as int / 4096) % 1024,
                            Self::vpn1_of(va2) == (va2 / 0x40_0000) % 1024,
                            Self::vpn1_of(vaddr as int) == (vaddr as int / 0x40_0000) % 1024,
                            vp0 == Self::vpn0_of(vaddr as int),
                            vp1 == Self::vpn1_of(vaddr as int),
                    ;
                    if old(self).second_pts.data@[vp1] is Some {
                        assert(fself.translate(va2) == old(self).translate(va2));
                    } else {
                        assert((old(self).root_pt.data@[vp1]) % 2 != 1);
                        assert(old(self).translate(va2) is None);
                        assert((fself.second_pts.data@[vp1]->0).data@[Self::vpn0_of(va2)] == 0);
                        assert(fself.translate(va2) is None);
                    }
                }
            }
        }
        Ok(())
    }
}

} // verus!
