//! Processes and the cooperative scheduler.
//!
//! A process slot starts `Unused`; creation claims the first unused slot,
//! builds an initial saved-context frame at the top of the process's
//! fixed stack, gives the process its own page table identity-mapping the
//! kernel range, and marks it `Runnable`. No transition back to `Unused`
//! exists — processes never terminate.
//!
//! Yielding is the only suspension point. The verified part of a yield is
//! the scheduling decision: scan the table for the next runnable process
//! strictly after the reserved idle slot (index 0), skipping the caller,
//! and fall back to the idle process. The decision comes back as a
//! [`Switch`] that tells the platform layer which saved stack pointers to
//! exchange and which translation root to install; the register-level
//! context switch itself is a platform primitive outside this crate.

use vstd::prelude::*;
use vstd::arithmetic::power2::{lemma2_to64, pow2};

use crate::mem::{lemma_next_pow2_unique, rounded_size, Error, MemoryManager, PAGE_SIZE};
use crate::stdlib::FixedVec;
use crate::tree::{
    alloc_result, allocated_bytes, can_alloc, lemma_alloc_result_accounting, lemma_lg_pow2,
};
use crate::vm::{PageTable, PAGE_R, PAGE_W, PAGE_X, PT_ENTRIES, PT_ENTRY_BYTES, PT_HANDLE_BYTES, SATP_SV32};

verus! {

/// Number of process slots; exhausting them is fatal on the machine.
pub const PROC_MAX: usize = 8;

/// Per-process stack, as 4-byte words of the modeled 32-bit machine:
/// 2 KiB per process.
pub const PROC_STACK_WORDS: usize = 512;

/// Words of the initial saved-context frame: the resume address and the
/// twelve callee-saved registers beneath it.
pub const CONTEXT_WORDS: usize = 13;

/// Modeled byte footprint of one process slot (stack, saved stack
/// pointer, pid, page-table handles and state), sizing the table's
/// backing store.
pub const PROC_SLOT_BYTES: usize = 2101;

/// Lifecycle states of a process slot. The only transition is
/// `Unused` -> `Runnable`, taken once at creation.
#[derive(Debug, Clone, Copy, PartialEq, Eq, Structural)]
pub enum ProcState {
    Unused,
    Runnable,
}

/// One process: its fixed stack (as machine words), the saved stack
/// pointer (as a word index into the stack), its pid, its page table and
/// its lifecycle state.
pub struct Process {
    pub stack: Vec<usize>,
    pub sp: usize,
    pub pid: usize,
    pub page_table: Option<PageTable>,
    pub state: ProcState,
}

impl Process {
    pub open spec fn wf(self) -> bool {
        self.state is Runnable ==> {
            &&& self.stack@.len() == PROC_STACK_WORDS
            &&& self.sp < PROC_STACK_WORDS
            &&& self.page_table is Some
            &&& (self.page_table->0).wf()
        }
    }
}

/// The process table: a fixed array of slots and the index of the running
/// process. Slot 0 is reserved for the idle process.
pub struct ProcTable {
    pub table: FixedVec<Process>,
    pub curr_proc_idx: usize,
}

/// What the scheduler decided: the next runnable slot strictly after the
/// idle slot, skipping the caller, or the idle slot when no other process
/// can run.
pub open spec fn scan_from(s: Seq<Process>, curr: int, i: int) -> int
    decreases PROC_MAX - i,
{
    if i < 0 || i >= PROC_MAX {
        0
    } else if s[i].state is Runnable && i != curr {
        i
    } else {
        scan_from(s, curr, i + 1)
    }
}

impl ProcTable {
    pub open spec fn wf(self) -> bool {
        &&& self.table.wf()
        &&& self.table.cap == PROC_MAX
        &&& self.curr_proc_idx < PROC_MAX
        &&& forall|i: int| 0 <= i < PROC_MAX ==> (#[trigger] self.table.data@[i]).wf()
    }

    /// Creates the table with every slot unused. Needs backing store for
    /// the slots from the buddy allocator.
    pub fn new(m: &mut MemoryManager) -> (r: Result<ProcTable, Error>)
        requires
            old(m).wf(),
        ensures
            final(m).wf(),
            final(m).arena().same_config(old(m).arena()),
            r is Err ==> r == Err::<ProcTable, Error>(Error::OutOfMemory) && final(m).states()
                == old(m).states(),
            PROC_MAX * PROC_SLOT_BYTES <= old(m).arena().mem_size ==> (r is Ok <==> can_alloc(
                old(m).states(),
                old(m).arena().target_level((PROC_MAX * PROC_SLOT_BYTES) as nat),
            )),
            PROC_MAX * PROC_SLOT_BYTES > old(m).arena().mem_size ==> r is Err,
            r matches Ok(t) ==> {
                &&& t.wf()
                &&& t.curr_proc_idx == 0
                &&& forall|i: int|
                    0 <= i < PROC_MAX ==> (#[trigger] t.table.data@[i]).state is Unused
            },
    {
        let table = match FixedVec::new(
            m,
            PROC_MAX,
            PROC_SLOT_BYTES,
            (|| -> (p: Process)
                ensures
                    p.state is Unused,
                    p.wf(),
                {
                    Process {
                        stack: Vec::new(),
                        sp: 0,
                        pid: 0,
                        page_table: None,
                        state: ProcState::Unused,
                    }
                }),
        ) {
            Ok(v) => v,
            Err(_) => {
                return Err(Error::OutOfMemory);
            },
        };
        Ok(ProcTable { table, curr_proc_idx: 0 })
    }

    /// The lowest-numbered unused slot, if any.
    pub fn next_unused(&self) -> (r: Option<usize>)
        requires
            self.wf(),
        ensures
            r matches Some(i) ==> i < PROC_MAX && self.table.data@[i as int].state is Unused
                && forall|q: int|
                0 <= q < i ==> !((#[trigger] self.table.data@[q]).state is Unused),
            r is None ==> forall|q: int|
                0 <= q < PROC_MAX ==> !((#[trigger] self.table.data@[q]).state is Unused),
    {
        let mut i: usize = 0;
        while i < PROC_MAX
            invariant
                self.wf(),
                i <= PROC_MAX,
                forall|q: int| 0 <= q < i ==> !((#[trigger] self.table.data@[q]).state is Unused),
            decreases PROC_MAX - i,
        {
            if self.table.get(i).state == ProcState::Unused {
                return Some(i);
            }
            i = i + 1;
        }
        None
    }

    /// Exclusive access to one slot.
    pub fn get_proc(&mut self, index: usize) -> (p: &mut Process)
        requires
            old(self).wf(),
            index < PROC_MAX,
        ensures
            *p == old(self).table.data@[index as int],
            final(self).table.data@ == old(self).table.data@.update(index as int, *final(p)),
            final(self).table.cap == old(self).table.cap,
            final(self).table.phys_addr == old(self).table.phys_addr,
            final(self).curr_proc_idx == old(self).curr_proc_idx,
    {
        self.table.get_mut(index)
    }

    /// Claims the first unused slot for a new process that will start
    /// executing at `pc`. Builds the initial saved-context frame at the
    /// top of the fresh stack — the entry address in the resume-address
    /// slot, the callee-saved register slots beneath it zeroed — so the
    /// first context switch into the process resumes as if returning from
    /// an earlier yield. Builds the process's page table, identity-mapping
    /// the whole kernel range read-write-execute. The caller must ensure
    /// a free slot exists: exhausting the table is fatal on the machine.
    ///
    /// On `OutOfMemory` the process table is untouched; the arena handed
    /// back provably cannot supply the next piece the build needed, and
    /// what the abandoned partial page table consumed is bounded by the
    /// table pages plus one page per mapped kernel page.
    pub fn create_process(
        &mut self,
        m: &mut MemoryManager,
        pc: usize,
        kernel_base: usize,
        kernel_end: usize,
    ) -> (r: Result<usize, Error>)
        requires
            old(self).wf(),
            old(m).wf(),
            exists|q: int|
                0 <= q < PROC_MAX && (#[trigger] old(self).table.data@[q]).state is Unused,
            kernel_base % 4096 == 0,
            kernel_base <= kernel_end <= 0x1_0000_0000,
            kernel_end + PAGE_SIZE <= usize::MAX,
        ensures
            final(self).wf(),
            final(m).wf(),
            final(m).arena().same_config(old(m).arena()),
            r is Err ==> r == Err::<usize, Error>(Error::OutOfMemory) && *final(self) == *old(self),
            r is Err ==> PT_ENTRIES * PT_HANDLE_BYTES > old(m).arena().mem_size || !can_alloc(
                final(m).states(),
                old(m).arena().target_level((PT_ENTRIES * PT_ENTRY_BYTES) as nat),
            ) || !can_alloc(
                final(m).states(),
                old(m).arena().target_level((PT_ENTRIES * PT_HANDLE_BYTES) as nat),
            ),
            r is Err ==> allocated_bytes(final(m).states(), old(m).arena().hi(), 0)
                <= allocated_bytes(old(m).states(), old(m).arena().hi(), 0) + PT_ENTRIES
                * PT_ENTRY_BYTES + rounded_size((PT_ENTRIES * PT_HANDLE_BYTES) as nat) + (
            kernel_end - kernel_base),
            r matches Ok(idx) ==> {
                &&& idx < PROC_MAX
                &&& old(self).table.data@[idx as int].state is Unused
                &&& forall|q: int|
                    0 <= q < idx ==> !((#[trigger] old(self).table.data@[q]).state is Unused)
                &&& final(self).curr_proc_idx == old(self).curr_proc_idx
                &&& forall|q: int|
                    0 <= q < PROC_MAX && q != idx ==> #[trigger] final(self).table.data@[q] == old(self).table.data@[q]
                &&& final(self).table.data@[idx as int].state is Runnable
                &&& final(self).table.data@[idx as int].pid == idx
                &&& final(self).table.data@[idx as int].sp == PROC_STACK_WORDS - CONTEXT_WORDS
                &&& final(self).table.data@[idx as int].stack@.len() == PROC_STACK_WORDS
                &&& final(self).table.data@[idx as int].stack@[PROC_STACK_WORDS - CONTEXT_WORDS]
                    == pc
                &&& forall|w: int|
                    PROC_STACK_WORDS - CONTEXT_WORDS < w < PROC_STACK_WORDS ==> final(self).table.data@[idx as int].stack@[w] == 0
                &&& final(self).table.data@[idx as int].page_table is Some
                &&& forall|va: int|
                    kernel_base <= va < kernel_end && va % 4096 == 0 ==> (final(self).table.data@[idx as int].page_table->0).translate(va) == Some(
                        (va, (PAGE_R | PAGE_W | PAGE_X | 1) as int),
                    )
            },
    {
        let proc_index: usize = match self.next_unused() {
            Some(i) => i,
            None => vstd::pervasive::unreached(),
        };

        // Build the page table first: if memory runs out midway, the
        // process table is left untouched.
        let mut pt = match PageTable::new(m) {
            Ok(p) => p,
            Err(_) => {
                return Err(Error::OutOfMemory);
            },
        };
        let flags: usize = PAGE_R | PAGE_W | PAGE_X;
        proof {
            assert((0x2usize | 0x4usize) | 0x8usize == 14) by (bit_vector);
            lemma2_to64();
            assert(rounded_size((PT_ENTRIES * PT_ENTRY_BYTES) as nat) == 4096) by {
                lemma_next_pow2_unique(4096, 4096, 12);
            }
            lemma_lg_pow2(12);
            assert(old(m).arena().target_level((PT_ENTRIES * PT_ENTRY_BYTES) as nat) == old(
                m,
            ).arena().height());
        }
        let mut base: usize = kernel_base;
        while base < kernel_end
            invariant
                *self == *old(self),
                self.wf(),
                m.wf(),
                m.arena().same_config(old(m).arena()),
                pt.wf(),
                flags == 14,
                kernel_end + PAGE_SIZE <= usize::MAX,
                kernel_base <= base,
                base % 4096 == 0,
                kernel_base % 4096 == 0,
                kernel_end <= 0x1_0000_0000,
                base < kernel_end + 4096,
                old(m).arena().target_level((PT_ENTRIES * PT_ENTRY_BYTES) as nat) == old(
                    m,
                ).arena().height(),
                pow2(12) == 4096,
                allocated_bytes(m.states(), old(m).arena().hi(), 0) <= allocated_bytes(
                    old(m).states(),
                    old(m).arena().hi(),
                    0,
                ) + PT_ENTRIES * PT_ENTRY_BYTES + rounded_size(
                    (PT_ENTRIES * PT_HANDLE_BYTES) as nat,
                ) + (base - kernel_base),
                forall|va: int|
                    kernel_base <= va < base && va % 4096 == 0 ==> #[trigger] pt.translate(va)
                        == Some((va, 15int)),
            decreases kernel_end + 4096 - base,
        {
            let ghost pt_b = pt;
            let ghost mb = *m;
            match pt.map_page(m, base, base, flags) {
                Ok(_) => {
                    proof {
                        // account for the lazily created table, if any
                        if pt_b.second_pts.data@[PageTable::vpn1_of(base as int)] is Some {
                            assert(m.states() == mb.states());
                        } else {
                            lemma_alloc_result_accounting(
                                mb.states(),
                                m.states(),
                                mb.arena().hi(),
                                mb.arena().height(),
                                mb.arena().target_level((PT_ENTRIES * PT_ENTRY_BYTES) as nat),
                                (pt.second_pts.data@[PageTable::vpn1_of(
                                    base as int,
                                )]->0).phys_addr.addr - mb.arena().start.addr,
                            );
                        }
                    }
                },
                Err(_) => {
                    proof {
                        // the arena handed back really has no free page
                        assert(m.arena().target_level((PT_ENTRIES * PT_ENTRY_BYTES) as nat)
                            == old(m).arena().target_level(
                            (PT_ENTRIES * PT_ENTRY_BYTES) as nat,
                        ));
                    }
                    return Err(Error::OutOfMemory);
                },
            }
            proof {
                assert(pt.translate(base as int) == Some((base as int, 15int)));
            }
            base = base + PAGE_SIZE;
        }

        // The initial context frame: the entry address where the resume
        // address is restored from, zeroed callee-saved slots beneath it.
        let mut stack: Vec<usize> = Vec::new();
        let mut w: usize = 0;
        while w < PROC_STACK_WORDS
            invariant
                w <= PROC_STACK_WORDS,
                stack@.len() == w,
                forall|q: int| 0 <= q < w ==> (#[trigger] stack@[q]) == 0,
            decreases PROC_STACK_WORDS - w,
        {
            stack.push(0);
            w = w + 1;
        }
        let sp: usize = PROC_STACK_WORDS - CONTEXT_WORDS;
        stack[sp] = pc;

        proof {
            assert(((0x2usize | 0x4usize) | 0x8usize) | 0x1usize == 15) by (bit_vector);
            assert forall|va: int|
                kernel_base <= va < kernel_end && va % 4096 == 0 implies #[trigger] pt.translate(
                va,
            ) == Some((va, 15int)) by {
                assert(va < base);
            }
        }
        let p = Process {
            stack,
            sp,
            pid: proc_index,
            page_table: Some(pt),
            state: ProcState::Runnable,
        };
        self.table.set(proc_index, p);
        Ok(proc_index)
    }
}

/// What the platform layer must do to complete a yield: exchange the
/// saved stack pointers of the two slots and, when `change_table` says
/// the target's page table differs from the yielding process's (the
/// active one), install the translation root. `satp` already carries the
/// translation mode bit.
pub struct Switch {
    pub prev: usize,
    pub next: usize,
    pub satp: usize,
    pub change_table: bool,
}

/// Initializes the process subsystem: an empty table whose backing store
/// comes from the buddy allocator.
pub fn init(m: &mut MemoryManager) -> (r: Result<ProcTable, Error>)
    requires
        old(m).wf(),
    ensures
        final(m).wf(),
        final(m).arena().same_config(old(m).arena()),
        r is Err ==> r == Err::<ProcTable, Error>(Error::OutOfMemory) && final(m).states() == old(m).states(),
        PROC_MAX * PROC_SLOT_BYTES <= old(m).arena().mem_size ==> (r is Ok <==> can_alloc(
            old(m).states(),
            old(m).arena().target_level((PROC_MAX * PROC_SLOT_BYTES) as nat),
        )),
        PROC_MAX * PROC_SLOT_BYTES > old(m).arena().mem_size ==> r is Err,
        r matches Ok(t) ==> {
            &&& t.wf()
            &&& t.curr_proc_idx == 0
            &&& forall|i: int| 0 <= i < PROC_MAX ==> (#[trigger] t.table.data@[i]).state is Unused
        },
{
    ProcTable::new(m)
}

/// Creates a new process starting at `pc`, identity-mapping the kernel
/// range `[kernel_base, kernel_end)` into its page table.
pub fn new(
    t: &mut ProcTable,
    m: &mut MemoryManager,
    pc: usize,
    kernel_base: usize,
    kernel_end: usize,
) -> (r: Result<usize, Error>)
    requires
        old(t).wf(),
        old(m).wf(),
        exists|q: int| 0 <= q < PROC_MAX && (#[trigger] old(t).table.data@[q]).state is Unused,
        kernel_base % 4096 == 0,
        kernel_base <= kernel_end <= 0x1_0000_0000,
        kernel_end + PAGE_SIZE <= usize::MAX,
    ensures
        final(t).wf(),
        final(m).wf(),
        final(m).arena().same_config(old(m).arena()),
        r is Err ==> r == Err::<usize, Error>(Error::OutOfMemory) && *final(t) == *old(t),
        r is Err ==> PT_ENTRIES * PT_HANDLE_BYTES > old(m).arena().mem_size || !can_alloc(
            final(m).states(),
            old(m).arena().target_level((PT_ENTRIES * PT_ENTRY_BYTES) as nat),
        ) || !can_alloc(
            final(m).states(),
            old(m).arena().target_level((PT_ENTRIES * PT_HANDLE_BYTES) as nat),
        ),
        r matches Ok(idx) ==> {
            &&& idx < PROC_MAX
            &&& old(t).table.data@[idx as int].state is Unused
            &&& forall|q: int|
                0 <= q < idx ==> !((#[trigger] old(t).table.data@[q]).state is Unused)
            &&& final(t).curr_proc_idx == old(t).curr_proc_idx
            &&& forall|q: int|
                0 <= q < PROC_MAX && q != idx ==> #[trigger] final(t).table.data@[q] == old(t).table.data@[q]
            &&& final(t).table.data@[idx as int].state is Runnable
            &&& final(t).table.data@[idx as int].pid == idx
            &&& final(t).table.data@[idx as int].sp == PROC_STACK_WORDS - CONTEXT_WORDS
            &&& final(t).table.data@[idx as int].stack@.len() == PROC_STACK_WORDS
            &&& final(t).table.data@[idx as int].stack@[PROC_STACK_WORDS - CONTEXT_WORDS] == pc
            &&& forall|w: int|
                PROC_STACK_WORDS - CONTEXT_WORDS < w < PROC_STACK_WORDS ==> final(t).table.data@[idx as int].stack@[w] == 0
            &&& final(t).table.data@[idx as int].page_table is Some
            &&& forall|va: int|
                kernel_base <= va < kernel_end && va % 4096 == 0 ==> (final(t).table.data@[idx as int].page_table->0).translate(va) == Some(
                    (va, (PAGE_R | PAGE_W | PAGE_X | 1) as int),
                )
        },
{
    t.create_process(m, pc, kernel_base, kernel_end)
}

/// The cooperative yield, up to the platform's context switch: picks the
/// next runnable process — the scan restarts at index 1 every time, so
/// scheduling is round-robin by table index with no priorities — updates
/// the running index, and reports which slots to switch between and
/// whether the translation root must be installed: only when the
/// target's page table differs from the yielding process's. The caller
/// performs the actual register-context switch with the returned
/// indices; control returns to the yielding process only when a later
/// yield switches back.
pub fn give_up(t: &mut ProcTable) -> (d: Switch)
    requires
        old(t).wf(),
        old(t).table.data@[0].state is Runnable,
        old(t).table.data@[old(t).curr_proc_idx as int].state is Runnable,
    ensures
        final(t).wf(),
        final(t).table == old(t).table,
        d.prev == old(t).curr_proc_idx,
        d.next as int == scan_from(old(t).table.data@, old(t).curr_proc_idx as int, 1),
        final(t).curr_proc_idx == d.next,
        final(t).table.data@[d.next as int].state is Runnable,
        d.satp == SATP_SV32 | ((final(t).table.data@[d.next as int].page_table->0)
            .root_pt.phys_addr.addr / PAGE_SIZE),
        d.change_table == ((final(t).table.data@[d.next as int].page_table->0)
            .root_pt.phys_addr.addr != (final(t).table.data@[d.prev as int].page_table->0)
            .root_pt.phys_addr.addr),
{
    let curr_proc_idx: usize = t.curr_proc_idx;
    let mut next_runnable_idx: usize = 0;
    let mut i: usize = 1;
    while i < PROC_MAX
        invariant_except_break
            next_runnable_idx == 0,
        invariant
            t.wf(),
            1 <= i <= PROC_MAX,
            curr_proc_idx == t.curr_proc_idx,
            scan_from(t.table.data@, curr_proc_idx as int, 1) == scan_from(
                t.table.data@,
                curr_proc_idx as int,
                i as int,
            ),
        ensures
            1 <= i <= PROC_MAX,
            curr_proc_idx == t.curr_proc_idx,
            next_runnable_idx as int == scan_from(t.table.data@, curr_proc_idx as int, 1),
            next_runnable_idx < PROC_MAX,
            next_runnable_idx == 0 || (t.table.data@[next_runnable_idx as int].state is Runnable
                && next_runnable_idx != curr_proc_idx),
            t.wf(),
        decreases PROC_MAX - i,
    {
        if t.table.get(i).state == ProcState::Runnable && i != curr_proc_idx {
            next_runnable_idx = i;
            proof {
                assert(scan_from(t.table.data@, curr_proc_idx as int, i as int) == i);
            }
            break ;
        }
        proof {
            assert(scan_from(t.table.data@, curr_proc_idx as int, i as int) == scan_from(
                t.table.data@,
                curr_proc_idx as int,
                i as int + 1,
            ));
        }
        i = i + 1;
    }
    proof {
        if next_runnable_idx == 0 {
            assert(t.table.data@[0].state is Runnable);
        }
        assert(t.table.data@[next_runnable_idx as int].state is Runnable);
        assert(t.table.data@[next_runnable_idx as int].wf());
    }
    proof {
        assert(t.table.data@[curr_proc_idx as int].wf());
    }
    let prev_root: usize = match &t.table.get(curr_proc_idx).page_table {
        Some(pt) => pt.root_pt_addr(),
        None => vstd::pervasive::unreached(),
    };
    let next_root: usize = match &t.table.get(next_runnable_idx).page_table {
        Some(pt) => pt.root_pt_addr(),
        None => vstd::pervasive::unreached(),
    };
    let satp: usize = SATP_SV32 | (next_root / PAGE_SIZE);
    let change_table: bool = next_root != prev_root;
    t.curr_proc_idx = next_runnable_idx;
    Switch { prev: curr_proc_idx, next: next_runnable_idx, satp, change_table }
}

} // verus!
