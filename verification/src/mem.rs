//! Physical memory management: the one-shot bootstrap allocator that seeds
//! the buddy allocator's metadata, and the buddy allocator itself.
//!
//! The buddy allocator models the managed region as a complete binary tree
//! over power-of-two block sizes from one page up to the whole region (see
//! [`crate::tree`]). Any byte request is rounded up to a page-aligned power
//! of two before the search. Allocation performs an explicit-stack
//! depth-first search for a free node of the target level, splitting free
//! larger blocks on the way down; freeing marks the node free again and
//! eagerly merges it with its buddy as far up as possible.
//!
//! The arena is one shared resource: [`init`] creates the single
//! [`MemoryManager`] context at boot, and every caller reaches it by
//! reference, through the once-latch and the spinlock that serialize all
//! physical-memory traffic.

use vstd::prelude::*;
use vstd::arithmetic::power2::{
    pow2, lemma_pow2_adds, lemma_pow2_pos, lemma_pow2_strictly_increases, lemma_pow2_unfold,
    lemma2_to64,
};
use crate::addr::PhysAddr;
use crate::sync::{Mutex, OnceCell};
use crate::tree::{
    BlockState, alloc_result, alloc_transition, all_free, allocated_bytes, anc_at,
    ancestors_split, block_index, block_size, can_alloc, candidate, child_of_nonsplit_is_free,
    free_below_nonsplit_at, free_transition, freed, in_subtree, is_ancestor, left,
    lemma_alloc_preserves_wf, lemma_allocated_bytes_le, lemma_anc_at, lemma_anc_at_parent,
    lemma_anc_at_self, lemma_ancestor_level, lemma_ancestor_of_child, lemma_ancestor_partition,
    lemma_ancestor_trans, lemma_free_preserves_wf, lemma_index_from_offset, lemma_level_bounds,
    lemma_level_child, lemma_not_own_ancestor, lemma_level_in_range, lemma_lg_pow2, lemma_nonfree_ancestor_split,
    lemma_offset_aligned, lemma_offset_bounds, lemma_offset_children, lemma_parent_child, lemma_root_ancestor,
    lemma_sibling, lemma_sibling_off_path, lemma_subtree_offset_range, lemma_subtree_same_level,
    lemma_subtree_step, lg,
    node_level, node_offset, on_chain, parent, partial_chain, right, sibling,
    split_children_at, split_has_nonfree_child, tree_wf,
};

verus! {

/// Size of one page of physical memory, the smallest unit the buddy
/// allocator hands out.
pub const PAGE_SIZE: usize = 4096;

/// Base-2 logarithm of `PAGE_SIZE`.
pub const PAGE_ORDER: usize = 12;

/// Allocation failures that are reported to the caller rather than being
/// fatal: the arena cannot satisfy the request, or the request was empty.
#[derive(Debug, Clone, Copy, PartialEq, Eq, Structural)]
pub enum Error {
    OutOfMemory,
    ZeroSize,
}

/// The smallest power of two that is at least `n` (and at least 1).
pub open spec fn next_pow2(n: nat) -> nat
    decreases n,
{
    if n <= 1 {
        1
    } else {
        2 * next_pow2(((n + 1) / 2) as nat)
    }
}

/// A byte request rounded the way the allocator rounds it: up to a full
/// page, then up to a power of two.
pub open spec fn rounded_size(n: nat) -> nat {
    next_pow2(
        if n < PAGE_SIZE as nat {
            PAGE_SIZE as nat
        } else {
            n
        },
    )
}

/// `next_pow2` is a power of two, at least `n`, and minimally so.
pub proof fn lemma_next_pow2(n: nat)
    ensures
        1 <= next_pow2(n),
        n <= next_pow2(n),
        pow2(lg(next_pow2(n))) == next_pow2(n),
        n >= 1 ==> next_pow2(n) < 2 * n,
    decreases n,
{
    if n <= 1 {
        lemma2_to64();
    } else {
        let m = ((n + 1) / 2) as nat;
        lemma_next_pow2(m);
        let k: nat = lg(next_pow2(m));
        assert(next_pow2(n) == 2 * pow2(k));
        lemma_pow2_unfold(k + 1);
        assert(next_pow2(n) == pow2(k + 1));
        lemma_lg_pow2(k + 1);
        assert(2 * m >= n);
        assert(next_pow2(m) < 2 * m);
        assert(next_pow2(n) < 4 * m);
        assert(2 * m <= n + 1);
        if next_pow2(n) >= 2 * n {
            // next_pow2(n) is an even power of two no less than 2n, so
            // next_pow2(m) >= n >= 2m - 1, forcing next_pow2(m) >= 2m.
            assert(next_pow2(m) >= n);
            assert(next_pow2(m) >= 2 * m - 1);
            if next_pow2(m) == 2 * m - 1 {
                // an odd power of two at least 3 is impossible
                assert(2 * m - 1 >= 3);
                assert(pow2(k) % 2 == 0 ==> next_pow2(m) % 2 == 0);
                if k == 0 {
                    assert(next_pow2(m) == 1);
                } else {
                    lemma_pow2_unfold(k);
                    assert(pow2(k) == 2 * pow2((k - 1) as nat));
                    assert(next_pow2(m) % 2 == 0);
                    assert((2 * m - 1) % 2 == 1);
                }
            }
            assert(next_pow2(m) >= 2 * m);
        }
    }
}

/// Two minimal covering powers of two agree: anything that is a power of
/// two, at least `n`, and minimal, is `next_pow2(n)`.
pub proof fn lemma_next_pow2_unique(n: nat, p: nat, k: nat)
    requires
        p == pow2(k),
        p >= n,
        p == 1 || p / 2 < n,
    ensures
        p == next_pow2(n),
{
    lemma_next_pow2(n);
    let q = next_pow2(n);
    let kq = lg(q);
    assert(q == pow2(kq));
    if p < q {
        assert(k < kq) by {
            if k >= kq {
                if k > kq {
                    lemma_pow2_strictly_increases(kq, k);
                }
            }
        }
        lemma_pow2_unfold(kq);
        assert(pow2(kq) / 2 == pow2((kq - 1) as nat));
        if k < kq - 1 {
            lemma_pow2_strictly_increases(k, (kq - 1) as nat);
        }
        assert(p <= pow2((kq - 1) as nat));
        // q is minimal: q == 1 or q/2 < n; q > p >= 1 so q > 1
        assert(q > 1);
        assert(q >= 2) by {
            if kq == 0 {
            } else {
                lemma_pow2_pos(kq);
            }
        }
        assert(q / 2 < n) by {
            if n <= 1 {
                assert(q == 1);
            }
        }
        assert(p <= q / 2);
        assert(p < n);
        assert(false);
    }
    if p > q {
        assert(kq < k) by {
            if kq >= k {
                if kq > k {
                    lemma_pow2_strictly_increases(k, kq);
                }
            }
        }
        lemma_pow2_unfold(k);
        assert(p / 2 == pow2((k - 1) as nat));
        if kq < k - 1 {
            lemma_pow2_strictly_increases(kq, (k - 1) as nat);
        }
        assert(q <= p / 2);
        assert(p > 1) by {
            lemma_pow2_pos(kq);
        }
        assert(p / 2 < n);
        assert(q < n);
        assert(false);
    }
}

/// Rounding up to a power of two is idempotent: rounding twice is
/// rounding once.
pub proof fn lemma_next_pow2_idempotent(n: nat)
    ensures
        next_pow2(next_pow2(n)) == next_pow2(n),
{
    lemma_next_pow2(n);
    let p = next_pow2(n);
    lemma_next_pow2_unique(p, p, lg(p));
}

/// A power of two is at least one more than its exponent.
proof fn lemma_pow2_ge_succ(e: nat)
    ensures
        pow2(e) >= e + 1,
    decreases e,
{
    if e == 0 {
        lemma2_to64();
    } else {
        lemma_pow2_ge_succ((e - 1) as nat);
        lemma_pow2_unfold(e);
    }
}

/// Only one power-of-two bracket contains a value.
proof fn lemma_pow2_bracket_unique(x: nat, a: nat, b: nat)
    requires
        pow2(a) <= x < pow2(a + 1),
        pow2(b) <= x < pow2(b + 1),
    ensures
        a == b,
{
    if a < b {
        if a + 1 < b {
            lemma_pow2_strictly_increases(a + 1, b);
        }
        assert(pow2(a + 1) <= pow2(b));
    }
    if b < a {
        if b + 1 < a {
            lemma_pow2_strictly_increases(b + 1, a);
        }
        assert(pow2(b + 1) <= pow2(a));
    }
}

/// Returns the level where a memory block of `n` bytes would sit in the
/// binary tree the buddy allocator uses; equally, the depth of tree node
/// `n`. It is the floor of the base-2 logarithm of `n + 1`; for the one
/// value whose successor overflows, the machine's word width stands in —
/// the depth of an index past any tree the machine can hold.
pub fn find_order(n: usize) -> (r: usize)
    ensures
        n < usize::MAX ==> pow2(r as nat) <= n + 1 < pow2(r as nat + 1),
        n < usize::MAX ==> r as nat == node_level(n as int),
        n == usize::MAX ==> r == usize::BITS as usize,
{
    if n == usize::MAX {
        return usize::BITS as usize;
    }
    let mut x: usize = n + 1;
    let mut r: usize = 0;
    proof {
        lemma2_to64();
    }
    while x > 1
        invariant
            1 <= x,
            n < usize::MAX,
            x * pow2(r as nat) <= n + 1 < (x + 1) * pow2(r as nat),
            r <= n,
        decreases x,
    {
        let ghost x0 = x as int;
        let ghost r0 = r as nat;
        proof {
            // x >= 2 forces 2^(r+1) <= n + 1, so r + 1 still fits below n.
            lemma_pow2_unfold(r0 + 1);
            lemma_pow2_ge_succ(r0 + 1);
            assert(pow2(r0 + 1) <= x0 * pow2(r0)) by (nonlinear_arith)
                requires
                    x0 >= 2,
                    pow2(r0 + 1) == 2 * pow2(r0),
                    pow2(r0) >= 0,
            ;
        }
        x = x / 2;
        r = r + 1;
        proof {
            lemma_pow2_unfold(r as nat);
            assert(x0 >= 2 * (x0 / 2) && x0 <= 2 * (x0 / 2) + 1);
            assert((x0 / 2) * pow2(r as nat) == (x0 / 2) * (2 * pow2(r0))) by {
                lemma_pow2_unfold(r as nat);
            }
            assert((x0 / 2) * (2 * pow2(r0)) == (2 * (x0 / 2)) * pow2(r0)) by (nonlinear_arith);
            assert((2 * (x0 / 2)) * pow2(r0) <= x0 * pow2(r0)) by (nonlinear_arith)
                requires
                    2 * (x0 / 2) <= x0,
                    pow2(r0) >= 0,
            ;
            assert(x0 * pow2(r0) <= n + 1);
            assert(n + 1 < (x0 + 1) * pow2(r0));
            assert((x0 + 1) * pow2(r0) <= ((x0 / 2 + 1) * 2) * pow2(r0)) by (nonlinear_arith)
                requires
                    x0 + 1 <= (x0 / 2 + 1) * 2,
                    pow2(r0) >= 0,
            ;
            assert(((x0 / 2 + 1) * 2) * pow2(r0) == (x0 / 2 + 1) * (2 * pow2(r0)))
                by (nonlinear_arith);
            assert(r0 + 1 <= n) by {
                lemma_pow2_ge_succ(r as nat);
                assert(pow2(r as nat) <= (x as int) * pow2(r as nat)) by (nonlinear_arith)
                    requires
                        x >= 1,
                        pow2(r as nat) >= 0,
                ;
            }
        }
    }
    proof {
        assert(x == 1);
        assert(pow2(r as nat) <= n + 1 && n + 1 < 2 * pow2(r as nat));
        lemma_pow2_unfold(r as nat + 1);
        lemma_level_bounds(n as int);
        lemma_pow2_bracket_unique((n + 1) as nat, r as nat, node_level(n as int));
    }
    r
}

/// Returns the next power of two at or above `n`, or `None` if that power
/// cannot be represented in a `usize`.
pub fn next_power_of_two(n: usize) -> (r: Option<usize>)
    ensures
        r is None <==> n > usize::MAX / 2 + 1,
        r matches Some(p) ==> p == next_pow2(n as nat),
{
    if n == 0 {
        return Some(1);
    }
    if n > usize::MAX / 2 + 1 {
        return None;  // cannot represent the next power of two in usize
    }
    let mut p: usize = 1;
    let ghost mut k: nat = 0;
    proof {
        lemma2_to64();
    }
    while p < n
        invariant
            1 <= p,
            p <= 2 * n,
            n <= usize::MAX / 2 + 1,
            p as nat == pow2(k),
            p == 1 || p / 2 < n,
        decreases 2 * n - p,
    {
        proof {
            lemma_pow2_unfold(k + 1);
            k = k + 1;
        }
        p = p * 2;
    }
    proof {
        lemma_next_pow2_unique(n as nat, p as nat, k);
    }
    Some(p)
}

/// Computes `2^e`.
pub fn pow2_usize(e: usize) -> (r: usize)
    requires
        pow2(e as nat) <= usize::MAX,
    ensures
        r as nat == pow2(e as nat),
{
    let mut r: usize = 1;
    let mut i: usize = 0;
    proof {
        lemma2_to64();
    }
    while i < e
        invariant
            i <= e,
            r as nat == pow2(i as nat),
            pow2(e as nat) <= usize::MAX,
        decreases e - i,
    {
        proof {
            lemma_pow2_unfold(i as nat + 1);
            if i as nat + 1 < e as nat {
                lemma_pow2_strictly_increases(i as nat + 1, e as nat);
            }
        }
        r = r * 2;
        i = i + 1;
    }
    r
}

/// The linear bump allocator that runs once at boot, before the buddy
/// allocator exists, to carve the buddy metadata out of a reserved range.
/// It never frees; exceeding the range is fatal on the machine, so the
/// contract excludes it. The platform layer zeroes the reserved range
/// before handing it over; the model tracks addresses only.
pub struct InitialAlloc {
    pub start: usize,
    pub end: usize,
    pub next: usize,
}

impl InitialAlloc {
    pub open spec fn wf(self) -> bool {
        &&& self.start <= self.next <= self.end
        &&& self.next as int % PAGE_SIZE as int == 0
    }

    pub fn new(start: usize, end: usize) -> (r: Self)
        requires
            start <= end,
            start as int % PAGE_SIZE as int == 0,
        ensures
            r.wf(),
            r.start == start,
            r.end == end,
            r.next == start,
    {
        Self { start, end, next: start }
    }

    /// Allocates `n` pages. The returned address is page-aligned and
    /// carries the allocated size.
    pub fn page_alloc(&mut self, n: usize) -> (r: PhysAddr)
        requires
            old(self).wf(),
            old(self).next + n * PAGE_SIZE <= old(self).end,
        ensures
            final(self).wf(),
            final(self).start == old(self).start,
            final(self).end == old(self).end,
            final(self).next == old(self).next + n * PAGE_SIZE,
            r.addr == old(self).next,
            r.size == Some((n * PAGE_SIZE) as usize),
            r.addr as int % PAGE_SIZE as int == 0,
    {
        let size: usize = n * PAGE_SIZE;
        let addr: usize = self.next;
        self.next = self.next + size;
        proof {
            let nx = old(self).next as int;
            let sz = (n * PAGE_SIZE) as int;
            assert((nx + sz) % (PAGE_SIZE as int) == 0) by (nonlinear_arith)
                requires
                    nx % (PAGE_SIZE as int) == 0,
                    sz == n * (PAGE_SIZE as int),
                    PAGE_SIZE == 4096,
            ;
        }
        PhysAddr::new(addr, Some(size))
    }
}

/// Word size of the modeled 32-bit machine, used to size the search-stack
/// region the way the kernel does.
pub const WORD_SIZE: usize = 4;

/// The buddy allocator's arena: the managed region `[start, end)` and the
/// complete binary tree of block states laid over it, together with the
/// scratch stack for the iterative depth-first search. The whole region is
/// `2^buddy_high_order` bytes; tree leaves are single pages.
pub struct Memory {
    pub start: PhysAddr,
    pub end: PhysAddr,
    pub mem_size: usize,
    pub buddy_node_count: usize,
    pub buddy_high_order: usize,
    pub buddy_low_order: usize,
    pub buddy_stack_size: usize,
    pub buddy_stack: Vec<usize>,
    pub buddy_meta: Vec<BlockState>,
}

impl Memory {
    /// Order of the whole region: `mem_size == 2^hi`.
    pub open spec fn hi(self) -> nat {
        self.buddy_high_order as nat
    }

    /// Height of the buddy tree: leaves are single pages.
    pub open spec fn height(self) -> nat {
        (self.hi() - PAGE_ORDER) as nat
    }

    /// The per-node block states, the abstract state of the arena.
    pub open spec fn states(self) -> Seq<BlockState> {
        self.buddy_meta@
    }

    pub open spec fn wf(self) -> bool {
        &&& self.buddy_low_order == PAGE_ORDER
        &&& self.hi() >= PAGE_ORDER
        &&& self.mem_size as nat == pow2(self.hi())
        &&& self.mem_size <= usize::MAX / 2
        &&& self.start.addr as int % PAGE_SIZE as int == 0
        &&& self.start.size is None
        &&& self.end.size is None
        &&& self.end.addr == self.start.addr + self.mem_size
        &&& self.buddy_node_count as int == 2 * (self.mem_size as int / PAGE_SIZE as int) - 1
        &&& self.buddy_stack@.len() == self.height() + 1
        &&& tree_wf(self.states(), self.height())
    }

    /// Everything but the tree states and the scratch stack contents.
    pub open spec fn same_config(self, o: Memory) -> bool {
        &&& self.start == o.start
        &&& self.end == o.end
        &&& self.mem_size == o.mem_size
        &&& self.buddy_node_count == o.buddy_node_count
        &&& self.buddy_high_order == o.buddy_high_order
        &&& self.buddy_low_order == o.buddy_low_order
        &&& self.buddy_stack_size == o.buddy_stack_size
        &&& self.buddy_stack@.len() == o.buddy_stack@.len()
    }

    /// The tree level a request for `n` bytes targets after rounding.
    pub open spec fn target_level(self, n: nat) -> nat {
        (self.hi() - lg(rounded_size(n))) as nat
    }
}

/// In a well-formed arena the node count is that of the complete tree, and
/// the region is the leaf count times the page size.
pub proof fn lemma_arena_shape(m: Memory)
    requires
        m.wf(),
    ensures
        m.buddy_node_count as nat == pow2(m.height() + 1) - 1,
        m.states().len() == m.buddy_node_count,
        pow2(m.height()) * PAGE_SIZE as nat == pow2(m.hi()),
{
    lemma_pow2_adds(m.height(), PAGE_ORDER as nat);
    lemma2_to64();
    assert(pow2(m.hi()) == pow2(m.height()) * 4096);
    lemma_pow2_pos(m.height());
    assert(m.mem_size as int / PAGE_SIZE as int == pow2(m.height())) by (nonlinear_arith)
        requires
            m.mem_size as int == pow2(m.height()) * 4096,
            PAGE_SIZE == 4096,
            pow2(m.height()) >= 0,
    ;
    lemma_pow2_unfold(m.height() + 1);
}

impl Memory {
    /// Creates the arena over general RAM `[ram_start, ram_end)`, drawing
    /// the space for its own metadata (node states and search stack) from
    /// the reserved range `[alloc_mem_start, alloc_mem_end)` through the
    /// bootstrap allocator. The region size must be a power of two of at
    /// least one page — the tree layout assumes it — and the reserved
    /// range must have room for the metadata, which on the machine is
    /// fatal to exceed.
    pub fn new(
        ram_start: usize,
        ram_end: usize,
        alloc_mem_start: usize,
        alloc_mem_end: usize,
    ) -> (r: Memory)
        requires
            ram_start <= ram_end,
            ram_start as int % PAGE_SIZE as int == 0,
            PAGE_SIZE <= ram_end - ram_start <= usize::MAX / 2,
            (ram_end - ram_start) as nat == pow2(lg((ram_end - ram_start) as nat)),
            alloc_mem_start <= alloc_mem_end,
            alloc_mem_start as int % PAGE_SIZE as int == 0,
            alloc_mem_start + reserved_bytes_needed((ram_end - ram_start) as nat)
                <= alloc_mem_end,
        ensures
            r.wf(),
            r.start.addr == ram_start,
            r.end.addr == ram_end,
            r.mem_size == ram_end - ram_start,
            all_free(r.states()),
    {
        let mut sc_alloc = InitialAlloc::new(alloc_mem_start, alloc_mem_end);

        let mem_size: usize = ram_end - ram_start;
        let ghost k = lg(mem_size as nat);
        proof {
            lemma2_to64();
            assert(pow2(12) <= pow2(k));
            assert(k >= 12) by {
                if k < 12 {
                    lemma_pow2_strictly_increases(k, 12);
                }
            }
        }

        // Metadata: one byte of block state per tree node.
        let buddy_node_count: usize = 2 * (mem_size / PAGE_SIZE) - 1;
        let buddy_meta_size: usize = buddy_node_count;
        let meta_pages: usize = (buddy_meta_size + PAGE_SIZE - 1) / PAGE_SIZE;
        let _meta_region = sc_alloc.page_alloc(meta_pages);

        // Stack for the iterative depth-first search: one frame per level.
        let buddy_high_order: usize = find_order(mem_size);
        let buddy_low_order: usize = find_order(PAGE_SIZE);
        proof {
            assert(pow2(k) <= mem_size + 1) by {
                lemma_pow2_pos(k);
            }
            assert(mem_size + 1 < pow2(k + 1)) by {
                lemma_pow2_unfold(k + 1);
            }
            lemma_pow2_bracket_unique((mem_size + 1) as nat, buddy_high_order as nat, k);
            assert(buddy_high_order as nat == k);
            assert(pow2(12) <= 4096 + 1 < pow2(13));
            lemma_pow2_bracket_unique(4097nat, buddy_low_order as nat, 12);
            assert(buddy_low_order == 12);
        }
        let buddy_stack_len: usize = buddy_high_order - buddy_low_order + 1;
        let buddy_stack_size: usize = buddy_meta_size * WORD_SIZE;
        let stack_pages: usize = (buddy_stack_size + PAGE_SIZE - 1) / PAGE_SIZE;
        let _stack_region = sc_alloc.page_alloc(stack_pages);

        // The model stores the node states and the stack in kernel-owned
        // vectors standing for the two regions just claimed.
        let mut buddy_meta: Vec<BlockState> = Vec::new();
        let mut i: usize = 0;
        while i < buddy_node_count
            invariant
                i <= buddy_node_count,
                buddy_meta@.len() == i,
                forall|q: int| 0 <= q < i ==> (#[trigger] buddy_meta@[q]) == BlockState::Free,
            decreases buddy_node_count - i,
        {
            buddy_meta.push(BlockState::Free);
            i = i + 1;
        }
        let mut buddy_stack: Vec<usize> = Vec::new();
        let mut j: usize = 0;
        while j < buddy_stack_len
            invariant
                j <= buddy_stack_len,
                buddy_stack@.len() == j,
            decreases buddy_stack_len - j,
        {
            buddy_stack.push(0);
            j = j + 1;
        }

        let r = Memory {
            start: PhysAddr::new(ram_start, None),
            end: PhysAddr::new(ram_end, None),
            mem_size,
            buddy_node_count,
            buddy_high_order,
            buddy_low_order,
            buddy_meta,
            buddy_stack,
            buddy_stack_size,
        };
        proof {
            let h = r.height();
            assert(h == k - 12);
            lemma_pow2_adds(h, 12);
            lemma_pow2_pos(h);
            assert(mem_size as int / PAGE_SIZE as int == pow2(h)) by (nonlinear_arith)
                requires
                    mem_size as int == pow2(h) * pow2(12),
                    pow2(12) == 4096,
                    PAGE_SIZE == 4096,
                    pow2(h) >= 0,
            ;
            lemma_pow2_unfold(h + 1);
            assert(r.states().len() == pow2(h + 1) - 1);
            assert(child_of_nonsplit_is_free(r.states())) by {
                assert forall|q: int| 1 <= q < r.states().len() implies
                    #[trigger] free_below_nonsplit_at(r.states(), q) by {
                    assert(r.states()[q] == BlockState::Free);
                }
            }
            assert(split_has_nonfree_child(r.states())) by {
                assert forall|q: int| 0 <= q < r.states().len() implies #[trigger] split_children_at(
                    r.states(),
                    q,
                ) by {
                    assert(r.states()[q] == BlockState::Free);
                }
            }
        }
        r
    }
}

/// Weight of one stack entry for the termination measure of the search:
/// the size of the subtree below it, truncated at the target level.
spec fn entry_weight(e: int, req: nat) -> nat {
    if node_level(e) <= req {
        (pow2((req - node_level(e) + 1) as nat) - 1) as nat
    } else {
        0
    }
}

/// Combined weight of the first `len` stack entries.
spec fn stack_weight(st: Seq<usize>, len: int, req: nat) -> nat
    decreases len,
{
    if len <= 0 {
        0
    } else {
        (stack_weight(st, len - 1, req) + entry_weight(st[len - 1] as int, req)) as nat
    }
}

proof fn lemma_stack_weight_congruent(a: Seq<usize>, b: Seq<usize>, len: int, req: nat)
    requires
        forall|m: int| 0 <= m < len ==> (#[trigger] a[m]) == b[m],
    ensures
        stack_weight(a, len, req) == stack_weight(b, len, req),
    decreases len,
{
    if len > 0 {
        lemma_stack_weight_congruent(a, b, len - 1, req);
    }
}

impl Memory {
    /// Allocates at least `n` bytes of contiguous physical memory.
    ///
    /// The request is rounded up to a page-aligned power of two, and an
    /// explicit-stack depth-first search walks the tree for a free node of
    /// the matching level, splitting larger free blocks on the way down.
    /// The search is left-first, so the claimed block is the one at the
    /// lowest address among the claimable blocks of that size: allocation
    /// is deterministic in the arena state. The returned address is
    /// page-aligned and carries the rounded size, which a later
    /// `buddy_free` needs to find the block again. `Ok` comes exactly
    /// when a free node of the target level exists outside every
    /// allocated block; a zero-byte request and one larger than the whole
    /// region are rejected outright.
    #[verifier::rlimit(100)]
    #[verifier::spinoff_prover]
    pub fn buddy_alloc(&mut self, n: usize) -> (r: Result<PhysAddr, Error>)
        requires
            old(self).wf(),
        ensures
            final(self).wf(),
            final(self).same_config(*old(self)),
            (r == Err::<PhysAddr, Error>(Error::ZeroSize) <==> n == 0),
            n == 0 ==> final(self).states() == old(self).states(),
            n > old(self).mem_size ==> r == Err::<PhysAddr, Error>(Error::OutOfMemory)
                && final(self).states() == old(self).states(),
            1 <= n <= old(self).mem_size ==> {
                &&& (r is Ok <==> can_alloc(old(self).states(), old(self).target_level(n as nat)))
                &&& (r is Err ==> r == Err::<PhysAddr, Error>(Error::OutOfMemory)
                    && final(self).states() == old(self).states())
            },
            r matches Ok(a) ==> {
                &&& 1 <= n <= old(self).mem_size
                &&& alloc_result(
                    old(self).states(),
                    final(self).states(),
                    old(self).hi(),
                    old(self).target_level(n as nat),
                    a.addr - old(self).start.addr,
                )
                &&& a.size == Some(rounded_size(n as nat) as usize)
                &&& a.addr as int % PAGE_SIZE as int == 0
                &&& old(self).start.addr <= a.addr
                &&& a.addr + rounded_size(n as nat) <= old(self).end.addr
            },
    {
        if n > self.mem_size {
            return Err(Error::OutOfMemory);
        }
        if n == 0 {
            return Err(Error::ZeroSize);
        }

        let n1: usize = if n < PAGE_SIZE {
            PAGE_SIZE
        } else {
            n
        };
        proof {
            lemma2_to64();
            lemma_next_pow2(n1 as nat);
        }
        let n2: usize = match next_power_of_two(n1) {
            Some(v) => v,
            None => vstd::pervasive::unreached(),
        };
        // n2 == rounded_size(n): a power of two with PAGE_SIZE <= n2 <= mem_size.
        let ghost k2 = lg(n2 as nat);
        proof {
            assert(n2 as nat == rounded_size(n as nat));
            assert(pow2(k2) == n2);
            assert(n2 < 2 * self.mem_size);
            assert(k2 <= self.hi()) by {
                if k2 > self.hi() {
                    lemma_pow2_unfold(k2);
                    if k2 - 1 > self.hi() {
                        lemma_pow2_strictly_increases(self.hi(), (k2 - 1) as nat);
                    }
                    assert(pow2((k2 - 1) as nat) >= pow2(self.hi()));
                    assert(n2 >= 2 * self.mem_size);
                }
            }
            assert(n2 <= self.mem_size) by {
                if k2 < self.hi() {
                    lemma_pow2_strictly_increases(k2, self.hi());
                }
            }
            assert(4096 <= n2);
            assert(12 <= k2) by {
                if k2 < 12 {
                    lemma_pow2_strictly_increases(k2, 12);
                }
            }
        }
        let korder: usize = find_order(n2);
        proof {
            lemma_pow2_pos(k2);
            lemma_pow2_unfold(k2 + 1);
            lemma_pow2_bracket_unique((n2 + 1) as nat, korder as nat, k2);
        }
        let req_order = self.buddy_high_order - korder;
        let ghost req = req_order as nat;
        let ghost hi_g = self.hi();
        let ghost h = self.height();
        let ghost s1 = self.buddy_meta@;
        let ghost m0 = *self;
        proof {
            assert(req == m0.target_level(n as nat));
            assert(req <= h);
            lemma_arena_shape(m0);
            lemma_pow2_pos(h);
            lemma_pow2_unfold(h + 1);
        }

        let mut sp: isize = 0;
        self.buddy_stack[0] = 0;
        let ghost mut in_chain: bool = false;
        let ghost mut chain_t: nat = 0;
        proof {
            assert forall|j: int| #[trigger] candidate(s1, j, req) implies exists|m: int|
                0 <= m <= 0 && in_subtree(self.buddy_stack@[m] as int, j) by {
                if j >= 1 {
                    lemma_root_ancestor(j);
                }
                assert(0 <= 0int <= 0 && in_subtree(self.buddy_stack@[0] as int, j));
            }
        }

        while sp >= 0
            invariant
                m0 == *old(self),
                m0.wf(),
                s1 == m0.buddy_meta@,
                h == m0.height(),
                hi_g == m0.hi(),
                req == m0.target_level(n as nat),
                req <= h,
                req_order as nat == req,
                1 <= n <= m0.mem_size,
                n2 as nat == rounded_size(n as nat),
                n2 as nat == pow2(k2),
                k2 == hi_g - req,
                PAGE_SIZE <= n2 <= m0.mem_size,
                s1.len() == m0.buddy_node_count,
                s1.len() == pow2(h + 1) - 1,
                self.same_config(m0),
                self.buddy_meta@.len() == s1.len(),
                -1 <= sp < self.buddy_stack@.len(),
                forall|m: int|
                    0 <= m <= sp ==> (#[trigger] self.buddy_stack@[m]) < m0.buddy_node_count
                        && node_level(self.buddy_stack@[m] as int) <= req,
                forall|a: int, b: int|
                    #![trigger self.buddy_stack@[a], self.buddy_stack@[b]]
                    0 <= a < b < sp ==> node_level(self.buddy_stack@[a] as int) < node_level(
                        self.buddy_stack@[b] as int,
                    ),
                forall|a: int|
                    0 <= a < sp ==> a + 1 <= node_level((#[trigger] self.buddy_stack@[a]) as int),
                sp >= 1 ==> node_level(self.buddy_stack@[sp as int - 1] as int) <= node_level(
                    self.buddy_stack@[sp as int] as int,
                ),
                !in_chain ==> self.buddy_meta@ == s1,
                !in_chain ==> forall|m: int|
                    0 <= m <= sp ==> ancestors_split(
                        s1,
                        (#[trigger] self.buddy_stack@[m]) as int,
                    ),
                !in_chain ==> forall|j: int|
                    #[trigger] candidate(s1, j, req) ==> exists|m: int|
                        0 <= m <= sp && in_subtree(self.buddy_stack@[m] as int, j),
                in_chain ==> sp >= 0 && partial_chain(
                    s1,
                    self.buddy_meta@,
                    self.buddy_stack@[sp as int] as int,
                    chain_t,
                ) && node_level(self.buddy_stack@[sp as int] as int) <= req,
                forall|a: int, b: int|
                    #![trigger self.buddy_stack@[a], self.buddy_stack@[b]]
                    0 <= a < b <= sp ==> node_offset(hi_g, self.buddy_stack@[b] as int)
                        + block_size(hi_g, node_level(self.buddy_stack@[b] as int))
                        <= node_offset(hi_g, self.buddy_stack@[a] as int),
                in_chain ==> forall|j2: int|
                    #[trigger] candidate(s1, j2, req) ==> node_offset(
                        hi_g,
                        self.buddy_stack@[sp as int] as int,
                    ) <= node_offset(hi_g, j2),
            decreases
                    (if in_chain {
                        0int
                    } else {
                        1int
                    }),
                    (if in_chain {
                        req - node_level(self.buddy_stack@[sp as int] as int)
                    } else {
                        stack_weight(self.buddy_stack@, sp + 1, req) as int
                    }),
        {
            let i: usize = self.buddy_stack[sp as usize];
            sp = sp - 1;
            let ghost sold = sp as int + 1;
            let ghost ii = i as int;
            let level: usize = find_order(i);
            proof {
                lemma_not_own_ancestor(ii);
                if in_chain {
                    assert(!on_chain(ii, ii, chain_t));
                    assert(self.buddy_meta@[ii] == s1[ii]);
                    assert(s1[ii] == BlockState::Free);
                }
            }

            if req_order == level {
                if self.buddy_meta[i] == BlockState::Free {
                    let ghost sb = self.buddy_meta@;
                    self.buddy_meta[i] = BlockState::Allocated;
                    let ghost s2 = self.buddy_meta@;
                    let ghost t0: nat = if in_chain {
                        chain_t
                    } else {
                        req
                    };
                    proof {
                        assert(s2 == sb.update(ii, BlockState::Allocated));
                        if in_chain {
                            assert(partial_chain(s1, sb, ii, chain_t));
                            assert(sb[ii] == s1[ii]);
                            assert forall|kk: int|
                                0 <= kk < s1.len() && #[trigger] on_chain(kk, ii, t0) implies s1[kk]
                                == BlockState::Free && s2[kk] == BlockState::Split by {
                                assert(kk != ii);
                                assert(s2[kk] == sb[kk]);
                            }
                            assert forall|kk: int|
                                0 <= kk < s1.len() && kk != ii && !(#[trigger] on_chain(
                                    kk,
                                    ii,
                                    t0,
                                )) implies s2[kk] == s1[kk] by {
                                assert(s2[kk] == sb[kk]);
                            }
                            assert(alloc_transition(s1, s2, ii, t0));
                            // the claimed node is a candidate in s1
                            assert forall|a: int|
                                0 <= a && #[trigger] is_ancestor(a, ii) implies s1[a]
                                != BlockState::Allocated by {
                                lemma_ancestor_level(a, ii);
                                if chain_t == 0 {
                                    assert(on_chain(a, ii, chain_t));
                                } else {
                                    lemma_ancestor_partition(ii, a, chain_t);
                                    let anchor = anc_at(ii, (chain_t - 1) as nat);
                                    if node_level(a) >= chain_t {
                                        assert(on_chain(a, ii, chain_t));
                                    } else if a == anchor {
                                        assert(s1[a] == BlockState::Split);
                                    } else {
                                        assert(is_ancestor(a, anchor));
                                        lemma_nonfree_ancestor_split(s1, a, anchor);
                                    }
                                }
                            }
                        } else {
                            assert(sb == s1);
                            assert forall|kk: int|
                                0 <= kk < s1.len() && #[trigger] on_chain(kk, ii, t0) implies s1[kk]
                                == BlockState::Free && s2[kk] == BlockState::Split by {
                                lemma_ancestor_level(kk, ii);
                            }
                            assert(ancestors_split(s1, ii)) by {
                                assert(self.buddy_stack@[sold] == i);
                            }
                            if req > 0 {
                                assert(ii >= 1) by {
                                    if ii == 0 {
                                        assert(node_level(0int) == 0);
                                    }
                                }
                                lemma_parent_child(ii);
                                assert(is_ancestor(parent(ii), ii));
                                assert(s1[parent(ii)] == BlockState::Split);
                                assert(node_level(ii) == node_level(parent(ii)) + 1);
                                assert(anc_at(ii, (req - 1) as nat) == parent(ii)) by {
                                    assert(node_level(ii) > req - 1);
                                    assert(anc_at(ii, (req - 1) as nat) == anc_at(
                                        parent(ii),
                                        (req - 1) as nat,
                                    ));
                                }
                            }
                            assert(alloc_transition(s1, s2, ii, t0));
                            assert forall|a: int|
                                0 <= a && #[trigger] is_ancestor(a, ii) implies s1[a]
                                != BlockState::Allocated by {
                                assert(s1[a] == BlockState::Split);
                            }
                        }
                        assert(candidate(s1, ii, req));
                        assert(can_alloc(s1, req));
                        lemma_alloc_preserves_wf(s1, s2, ii, t0, h);
                    }
                    let p_l: usize = pow2_usize(level);
                    proof {
                        if (level as nat) < hi_g {
                            lemma_pow2_strictly_increases(level as nat, hi_g);
                        }
                        lemma_level_bounds(ii);
                        lemma_offset_bounds(hi_g, ii);
                        lemma_offset_aligned(hi_g, ii, PAGE_ORDER as nat);
                        lemma_pow2_pos((hi_g - level) as nat);
                        if ((self.buddy_high_order - level) as nat) < hi_g {
                            lemma_pow2_strictly_increases(
                                (self.buddy_high_order - level) as nat,
                                hi_g,
                            );
                        }
                    }
                    let bs: usize = pow2_usize(self.buddy_high_order - level);
                    proof {
                        assert(bs as int == pow2((hi_g - req) as nat));
                        assert(bs == n2) by {
                            assert((hi_g - req) as nat == k2);
                        }
                        assert((1 + ii - p_l) * bs == node_offset(hi_g, ii));
                        assert(node_offset(hi_g, ii) + bs <= pow2(hi_g));
                    }
                    let off: usize = (1 + i - p_l) * bs;
                    let addr: usize = self.start.as_usize() + off;
                    proof {
                        lemma2_to64();
                        assert(off as int == node_offset(hi_g, ii));
                        assert((off as int) % (PAGE_SIZE as int) == 0) by {
                            assert(node_offset(hi_g, ii) % (pow2(PAGE_ORDER as nat) as int) == 0);
                            assert(pow2(PAGE_ORDER as nat) == 4096);
                        }
                        let st = m0.start.addr as int;
                        assert((st + off) % (PAGE_SIZE as int) == 0) by (nonlinear_arith)
                            requires
                                st % (PAGE_SIZE as int) == 0,
                                (off as int) % (PAGE_SIZE as int) == 0,
                                PAGE_SIZE == 4096,
                        ;
                        assert(node_level(ii) == m0.target_level(n as nat)
                            && alloc_transition(s1, s2, ii, t0) && addr == m0.start.addr
                            + node_offset(m0.hi(), ii));
                        // the claimed block has the lowest offset of any
                        // candidate: the search inspects them left first
                        assert forall|j2: int| #[trigger] candidate(s1, j2, req) implies off as int
                            <= node_offset(hi_g, j2) by {
                            if in_chain {
                            } else {
                                let mw = choose|mq: int|
                                    0 <= mq <= sold && in_subtree(
                                        self.buddy_stack@[mq] as int,
                                        j2,
                                    );
                                if mw == sold {
                                    assert(in_subtree(ii, j2));
                                    lemma_subtree_same_level(ii, j2);
                                } else {
                                    let e = self.buddy_stack@[mw] as int;
                                    assert(node_level(j2) <= hi_g);
                                    lemma_subtree_offset_range(hi_g, e, j2);
                                    assert(node_offset(hi_g, ii) + block_size(
                                        hi_g,
                                        node_level(ii),
                                    ) <= node_offset(hi_g, e));
                                }
                            }
                        }
                        assert(alloc_result(s1, s2, hi_g, req, off as int));
                        assert(alloc_result(
                            old(self).states(),
                            self.buddy_meta@,
                            old(self).hi(),
                            old(self).target_level(n as nat),
                            addr - old(self).start.addr,
                        ));
                        assert(m0.start.addr <= addr);
                        assert(addr + n2 <= m0.end.addr);
                        assert(n2 as nat == rounded_size(n as nat));
                        assert(s2 == self.buddy_meta@);
                        assert(self.wf()) by {
                            assert(tree_wf(self.buddy_meta@, h));
                        }
                    }
                    return Ok(PhysAddr::new(addr, Some(n2)));
                }
                proof {
                    assert(!in_chain);
                    assert forall|j: int| #[trigger] candidate(s1, j, req) implies exists|m: int|
                        0 <= m <= sp && in_subtree(self.buddy_stack@[m] as int, j) by {
                        let mw = choose|m: int|
                            0 <= m <= sold && in_subtree(self.buddy_stack@[m] as int, j);
                        if mw == sold {
                            assert(in_subtree(ii, j));
                            lemma_subtree_same_level(ii, j);
                            assert(j == ii);
                            assert(s1[j] != BlockState::Free);
                        } else {
                            assert(0 <= mw <= sp && in_subtree(self.buddy_stack@[mw] as int, j));
                        }
                    }
                    // the popped entry had positive weight, so the measure drops
                    assert(entry_weight(ii, req) >= 1) by {
                        lemma_pow2_unfold((req - node_level(ii) + 1) as nat);
                        lemma_pow2_pos((req - node_level(ii)) as nat);
                    }
                    assert(stack_weight(self.buddy_stack@, sold + 1, req) == stack_weight(
                        self.buddy_stack@,
                        sold,
                        req,
                    ) + entry_weight(ii, req));
                }
            } else {
                proof {
                    assert(node_level(ii) < req);
                }
                match self.buddy_meta[i] {
                    BlockState::Free => {
                        let ghost sb = self.buddy_meta@;
                        let ghost stk_head = self.buddy_stack@;
                        let ghost was_chain = in_chain;
                        self.buddy_meta[i] = BlockState::Split;
                        proof {
                            // capacity: the prefix levels grow with their index,
                            // so the stack has room for one more level
                            if sold >= 1 {
                                assert(sold - 1 + 1 <= node_level(
                                    self.buddy_stack@[sold - 1] as int,
                                ));
                                assert(node_level(self.buddy_stack@[sold - 1] as int)
                                    <= node_level(ii));
                            }
                            assert(sold <= node_level(ii));
                            assert(sold + 1 < self.buddy_stack@.len());
                            lemma_pow2_ge_succ(h);
                            if h < hi_g {
                                lemma_pow2_strictly_increases(h, hi_g);
                            }
                            assert(self.buddy_stack@.len() <= usize::MAX / 2);
                            lemma_level_child(ii);
                            lemma_level_in_range(left(ii), h);
                            lemma_level_in_range(right(ii), h);
                            lemma_level_in_range(ii, h);
                        }
                        sp = sp + 1;
                        self.buddy_stack[sp as usize] = 2 * i + 2;
                        sp = sp + 1;
                        self.buddy_stack[sp as usize] = 2 * i + 1;
                        proof {
                            let ghost stk = self.buddy_stack@;
                            assert(stk[sold] == 2 * i + 2 && stk[sold + 1] == 2 * i + 1);
                            let ghost s_now = self.buddy_meta@;
                            assert(s_now == sb.update(ii, BlockState::Split));
                            assert(s1[ii] == BlockState::Free) by {
                                if in_chain {
                                } else {
                                    assert(sb == s1);
                                }
                            }
                            // the left child the search descends into is free,
                            // with its whole subtree
                            assert(free_below_nonsplit_at(s1, left(ii)));
                            assert(free_below_nonsplit_at(s1, right(ii)));
                            assert(parent(left(ii)) == ii && parent(right(ii)) == ii);
                            assert(s1[left(ii)] == BlockState::Free);
                            if !was_chain {
                                in_chain = true;
                                chain_t = node_level(ii);
                            }
                            let ghost t = chain_t;
                            assert forall|kk: int|
                                0 <= kk < s1.len() && #[trigger] on_chain(
                                    kk,
                                    left(ii),
                                    t,
                                ) implies s1[kk] == BlockState::Free && s_now[kk]
                                == BlockState::Split by {
                                lemma_ancestor_of_child(kk, ii);
                                if kk == ii {
                                } else {
                                    assert(is_ancestor(kk, ii));
                                    lemma_ancestor_level(kk, ii);
                                    if !was_chain {
                                        // fresh chain: no ancestor reaches level t
                                        assert(node_level(kk) < t);
                                        assert(false);
                                    } else {
                                        assert(on_chain(kk, ii, t));
                                    }
                                }
                            }
                            assert forall|kk: int|
                                0 <= kk < s1.len() && !(#[trigger] on_chain(
                                    kk,
                                    left(ii),
                                    t,
                                )) implies s_now[kk] == s1[kk] by {
                                lemma_ancestor_of_child(kk, ii);
                                assert(kk != ii) by {
                                    assert(on_chain(ii, left(ii), t)) by {
                                        assert(is_ancestor(ii, left(ii)));
                                    }
                                }
                                if !was_chain {
                                } else {
                                    assert(!on_chain(kk, ii, t)) by {
                                        if on_chain(kk, ii, t) {
                                            lemma_ancestor_trans(kk, ii, left(ii));
                                        }
                                    }
                                }
                            }
                            if t > 0 {
                                assert(node_level(left(ii)) > t - 1);
                                assert(anc_at(left(ii), (t - 1) as nat) == anc_at(
                                    ii,
                                    (t - 1) as nat,
                                ));
                                if !was_chain {
                                    // t == node_level(ii): the anchor is i's parent
                                    assert(ii >= 1) by {
                                        if ii == 0 {
                                            assert(node_level(0int) == 0);
                                        }
                                    }
                                    lemma_parent_child(ii);
                                    assert(ancestors_split(s1, ii)) by {
                                        assert(stk_head[sold] == i);
                                    }
                                    assert(is_ancestor(parent(ii), ii));
                                    assert(s1[parent(ii)] == BlockState::Split);
                                    assert(node_level(ii) > t - 1);
                                    assert(anc_at(ii, (t - 1) as nat) == anc_at(
                                        parent(ii),
                                        (t - 1) as nat,
                                    ));
                                    assert(node_level(parent(ii)) == t - 1);
                                    assert(anc_at(parent(ii), (t - 1) as nat) == parent(ii));
                                    assert(0 <= parent(ii) < s1.len());
                                } else {
                                    assert(node_level(ii) > t - 1);
                                    assert(anc_at(ii, (t - 1) as nat) == anc_at(
                                        left(ii),
                                        (t - 1) as nat,
                                    ));
                                }
                            }
                            assert(partial_chain(s1, s_now, left(ii), t));
                            // the two child blocks keep the interval order:
                            // they partition the popped block, which lay
                            // below every remaining entry
                            assert(node_level(ii) < hi_g);
                            lemma_offset_children(hi_g, ii);
                            lemma_pow2_unfold((hi_g - node_level(ii)) as nat);
                            assert(node_offset(hi_g, left(ii)) == node_offset(hi_g, ii));
                            assert(node_offset(hi_g, right(ii)) + block_size(
                                hi_g,
                                node_level(ii) + 1,
                            ) == node_offset(hi_g, ii) + block_size(hi_g, node_level(ii)));
                            assert forall|a: int, b: int|
                                0 <= a < b <= sp as int implies node_offset(
                                hi_g,
                                (#[trigger] self.buddy_stack@[b]) as int,
                            ) + block_size(hi_g, node_level(self.buddy_stack@[b] as int))
                                <= node_offset(
                                hi_g,
                                (#[trigger] self.buddy_stack@[a]) as int,
                            ) by {
                                if b == sold + 1 {
                                    if a == sold {
                                    } else {
                                        assert(stk_head[a] == self.buddy_stack@[a]);
                                        assert(stk_head[sold] == i);
                                        assert(node_offset(hi_g, ii) + block_size(
                                            hi_g,
                                            node_level(ii),
                                        ) <= node_offset(hi_g, stk_head[a] as int));
                                    }
                                } else if b == sold {
                                    assert(stk_head[a] == self.buddy_stack@[a]);
                                    assert(stk_head[sold] == i);
                                    assert(node_offset(hi_g, ii) + block_size(
                                        hi_g,
                                        node_level(ii),
                                    ) <= node_offset(hi_g, stk_head[a] as int));
                                } else {
                                    assert(stk_head[a] == self.buddy_stack@[a]);
                                    assert(stk_head[b] == self.buddy_stack@[b]);
                                }
                            }
                            // the block descended into has the lowest
                            // offset of any claimable block
                            assert forall|j2: int|
                                #[trigger] candidate(s1, j2, req) implies node_offset(
                                hi_g,
                                left(ii),
                            ) <= node_offset(hi_g, j2) by {
                                assert(node_level(j2) <= hi_g);
                                if !was_chain {
                                    let mw = choose|mq: int|
                                        0 <= mq <= sold && in_subtree(stk_head[mq] as int, j2);
                                    assert(in_subtree(stk_head[mw] as int, j2));
                                    if mw == sold {
                                        assert(stk_head[sold] == i);
                                        lemma_subtree_offset_range(hi_g, ii, j2);
                                    } else {
                                        lemma_subtree_offset_range(
                                            hi_g,
                                            stk_head[mw] as int,
                                            j2,
                                        );
                                        assert(stk_head[sold] == i);
                                        assert(node_offset(hi_g, ii) + block_size(
                                            hi_g,
                                            node_level(ii),
                                        ) <= node_offset(hi_g, stk_head[mw] as int));
                                    }
                                } else {
                                    assert(stk_head[sold] == i);
                                    assert(node_offset(hi_g, ii) <= node_offset(hi_g, j2));
                                }
                            }
                        }
                    }
                    BlockState::Allocated => {
                        proof {
                            assert(!in_chain);
                            assert forall|j: int| #[trigger] candidate(s1, j, req) implies exists|
                                m: int,
                            |
                                0 <= m <= sp && in_subtree(self.buddy_stack@[m] as int, j) by {
                                let mw = choose|m: int|
                                    0 <= m <= sold && in_subtree(self.buddy_stack@[m] as int, j);
                                if mw == sold {
                                    assert(in_subtree(ii, j));
                                    if j == ii {
                                        assert(node_level(j) == req);
                                    } else {
                                        assert(is_ancestor(ii, j));
                                        assert(s1[ii] != BlockState::Allocated);
                                    }
                                    assert(false);
                                } else {
                                    assert(0 <= mw <= sp && in_subtree(
                                        self.buddy_stack@[mw] as int,
                                        j,
                                    ));
                                }
                            }
                            assert(entry_weight(ii, req) >= 1) by {
                                lemma_pow2_unfold((req - node_level(ii) + 1) as nat);
                                lemma_pow2_pos((req - node_level(ii)) as nat);
                            }
                            assert(stack_weight(self.buddy_stack@, sold + 1, req) == stack_weight(
                                self.buddy_stack@,
                                sold,
                                req,
                            ) + entry_weight(ii, req));
                        }
                    }
                    BlockState::Split => {
                        proof {
                            assert(!in_chain);
                            if sold >= 1 {
                                assert(sold - 1 + 1 <= node_level(
                                    self.buddy_stack@[sold - 1] as int,
                                ));
                                assert(node_level(self.buddy_stack@[sold - 1] as int)
                                    <= node_level(ii));
                            }
                            assert(sold <= node_level(ii));
                            assert(sold + 1 < self.buddy_stack@.len());
                            lemma_pow2_ge_succ(h);
                            if h < hi_g {
                                lemma_pow2_strictly_increases(h, hi_g);
                            }
                            assert(self.buddy_stack@.len() <= usize::MAX / 2);
                            lemma_level_child(ii);
                            lemma_level_in_range(left(ii), h);
                            lemma_level_in_range(right(ii), h);
                        }
                        let ghost stk_old = self.buddy_stack@;
                        sp = sp + 1;
                        self.buddy_stack[sp as usize] = 2 * i + 2;
                        sp = sp + 1;
                        self.buddy_stack[sp as usize] = 2 * i + 1;
                        proof {
                            let stk = self.buddy_stack@;
                            assert(forall|m: int| 0 <= m < sold ==> (#[trigger] stk[m]) == stk_old[m]);
                            // ancestors of the two children are i and i's
                            // ancestors, all split
                            assert(ancestors_split(s1, ii)) by {
                                assert(stk_old[sold] == i);
                            }
                            assert forall|a: int|
                                0 <= a && #[trigger] is_ancestor(a, left(ii)) implies s1[a]
                                == BlockState::Split by {
                                lemma_ancestor_of_child(a, ii);
                            }
                            assert forall|a: int|
                                0 <= a && #[trigger] is_ancestor(a, right(ii)) implies s1[a]
                                == BlockState::Split by {
                                lemma_ancestor_of_child(a, ii);
                            }
                            // coverage: a candidate covered by i is covered by a child
                            assert forall|j: int| #[trigger] candidate(s1, j, req) implies exists|
                                m: int,
                            |
                                0 <= m <= sp && in_subtree(stk[m] as int, j) by {
                                let mw = choose|m: int|
                                    0 <= m <= sold && in_subtree(stk_old[m] as int, j);
                                if mw == sold {
                                    assert(in_subtree(ii, j));
                                    assert(j != ii) by {
                                        assert(node_level(j) == req);
                                    }
                                    lemma_subtree_step(ii, j);
                                    if in_subtree(left(ii), j) {
                                        assert(0 <= sold + 1 <= sp && in_subtree(
                                            stk[sold + 1] as int,
                                            j,
                                        ));
                                    } else {
                                        assert(0 <= sold <= sp && in_subtree(stk[sold] as int, j));
                                    }
                                } else {
                                    assert(stk[mw] == stk_old[mw]);
                                    assert(0 <= mw <= sp && in_subtree(stk[mw] as int, j));
                                }
                            }
                            // the two child blocks keep the interval
                            // order, partitioning the popped block
                            assert(node_level(ii) < hi_g);
                            lemma_offset_children(hi_g, ii);
                            lemma_pow2_unfold((hi_g - node_level(ii)) as nat);
                            assert(node_offset(hi_g, left(ii)) == node_offset(hi_g, ii));
                            assert(node_offset(hi_g, right(ii)) + block_size(
                                hi_g,
                                node_level(ii) + 1,
                            ) == node_offset(hi_g, ii) + block_size(hi_g, node_level(ii)));
                            assert forall|a: int, b: int|
                                0 <= a < b <= sp as int implies node_offset(
                                hi_g,
                                (#[trigger] stk[b]) as int,
                            ) + block_size(hi_g, node_level(stk[b] as int)) <= node_offset(
                                hi_g,
                                (#[trigger] stk[a]) as int,
                            ) by {
                                if b == sold + 1 {
                                    if a == sold {
                                    } else {
                                        assert(stk_old[a] == stk[a]);
                                        assert(stk_old[sold] == i);
                                        assert(node_offset(hi_g, ii) + block_size(
                                            hi_g,
                                            node_level(ii),
                                        ) <= node_offset(hi_g, stk_old[a] as int));
                                    }
                                } else if b == sold {
                                    assert(stk_old[a] == stk[a]);
                                    assert(stk_old[sold] == i);
                                    assert(node_offset(hi_g, ii) + block_size(
                                        hi_g,
                                        node_level(ii),
                                    ) <= node_offset(hi_g, stk_old[a] as int));
                                } else {
                                    assert(stk_old[a] == stk[a]);
                                    assert(stk_old[b] == stk[b]);
                                }
                            }
                            // the termination measure drops by one
                            let lvl = node_level(ii);
                            lemma_stack_weight_congruent(stk, stk_old, sold, req);
                            assert(stack_weight(stk, sold + 2, req) == stack_weight(
                                stk,
                                sold + 1,
                                req,
                            ) + entry_weight(stk[sold + 1] as int, req));
                            assert(stack_weight(stk, sold + 1, req) == stack_weight(stk, sold, req)
                                + entry_weight(stk[sold] as int, req));
                            assert(stack_weight(stk_old, sold + 1, req) == stack_weight(
                                stk_old,
                                sold,
                                req,
                            ) + entry_weight(ii, req));
                            assert(entry_weight(left(ii), req) + entry_weight(right(ii), req) + 1
                                == entry_weight(ii, req)) by {
                                lemma_pow2_unfold((req - lvl + 1) as nat);
                                lemma_pow2_pos((req - lvl) as nat);
                            }
                        }
                    }
                }
            }
        }
        proof {
            assert(!in_chain);
            assert(!can_alloc(s1, req)) by {
                if can_alloc(s1, req) {
                    let j = choose|j: int| #[trigger] candidate(s1, j, req);
                    assert(candidate(s1, j, req));
                    let mw = choose|m: int|
                        0 <= m <= sp && in_subtree(self.buddy_stack@[m] as int, j);
                    assert(0 <= mw <= sp);
                }
            }
        }
        return Err(Error::OutOfMemory);
    }
}

/// In a well-formed arena the bytes handed out never exceed the managed
/// region: no sequence of allocations and frees can oversubscribe it.
pub proof fn lemma_allocated_within_region(m: Memory)
    requires
        m.wf(),
    ensures
        0 <= allocated_bytes(m.states(), m.hi(), 0) <= m.mem_size,
{
    lemma_arena_shape(m);
    lemma_pow2_pos(m.height() + 1);
    lemma_pow2_unfold(m.height() + 1);
    lemma_pow2_pos(m.height());
    assert(m.states().len() >= 1);
    lemma_allocated_bytes_le(m.states(), m.hi(), m.height(), 0);
    assert(node_level(0int) == 0);
}

impl Memory {
    /// The tree node describing the block of `sz` bytes at address `a`.
    pub open spec fn block_node(self, a: int, sz: nat) -> int {
        block_index(self.hi(), (self.hi() - lg(sz)) as nat, a - self.start.addr)
    }

    /// A physical address this allocator handed out and still tracks: it
    /// carries its power-of-two size, is aligned on it, lies inside the
    /// region, and its tree node is marked `Allocated`. Freeing anything
    /// else is an internal-consistency violation, fatal on the machine.
    pub open spec fn free_target_ok(self, addr: PhysAddr) -> bool {
        addr.size matches Some(sz) ==> {
            &&& pow2(lg(sz as nat)) == sz
            &&& PAGE_SIZE <= sz <= self.mem_size
            &&& self.start.addr <= addr.addr
            &&& (addr.addr - self.start.addr) % (sz as int) == 0
            &&& addr.addr - self.start.addr + sz <= self.mem_size
            &&& self.states()[self.block_node(addr.addr as int, sz as nat)]
                == BlockState::Allocated
        }
    }

    /// Returns a block to the arena. An address that carries no size was
    /// not handed out by this allocator and is ignored. The block's node
    /// is marked free again, and while the buddy alongside is also free
    /// the two merge into their parent, ascending one level per merge —
    /// eager buddy merging, not deferred.
    #[verifier::rlimit(100)]
    #[verifier::spinoff_prover]
    pub fn buddy_free(&mut self, addr: PhysAddr)
        requires
            old(self).wf(),
            old(self).free_target_ok(addr),
        ensures
            final(self).wf(),
            final(self).same_config(*old(self)),
            final(self).buddy_stack == old(self).buddy_stack,
            addr.size is None ==> *final(self) == *old(self),
            addr.size is Some ==> freed(
                old(self).states(),
                final(self).states(),
                old(self).block_node(addr.addr as int, (addr.size->0) as nat),
            ),
    {
        let size: usize = match addr.size() {
            Some(s) => s,
            None => {
                return ;
            },
        };
        let offset: usize = addr.as_usize() - self.start.as_usize();
        let ghost m0 = *self;
        let ghost s1 = self.buddy_meta@;
        let ghost hi_g = self.hi();
        let ghost h = self.height();
        let ghost ksz = lg(size as nat);
        // The size is a power of two, so its order recovers the level.
        let k: usize = find_order(size);
        proof {
            lemma_arena_shape(m0);
            lemma_pow2_pos(ksz);
            lemma_pow2_unfold(ksz + 1);
            lemma_pow2_bracket_unique((size + 1) as nat, k as nat, ksz);
            lemma2_to64();
            assert(12 <= ksz) by {
                if ksz < 12 {
                    lemma_pow2_strictly_increases(ksz, 12);
                }
            }
            assert(ksz <= hi_g) by {
                if ksz > hi_g {
                    lemma_pow2_strictly_increases(hi_g, ksz);
                }
            }
        }
        let level: usize = self.buddy_high_order - k;
        let position: usize = offset / size;
        let ghost lvl0 = level as nat;
        proof {
            assert((hi_g - lvl0) as nat == ksz);
            lemma_index_from_offset(hi_g, lvl0, offset as int);
            assert(lvl0 <= h);
            lemma_level_in_range(block_index(hi_g, lvl0, offset as int), h);
            lemma_pow2_pos(lvl0);
            if lvl0 < hi_g {
                lemma_pow2_strictly_increases(lvl0, hi_g);
            }
            lemma_pow2_ge_succ(h);
            if h + 1 < hi_g {
                lemma_pow2_strictly_increases(h + 1, hi_g);
            } else if h + 1 > hi_g {
                assert(false);
            }
        }
        let pl: usize = pow2_usize(level);
        let i: usize = pl - 1 + position;
        let ghost j0 = i as int;
        proof {
            assert(j0 == m0.block_node(addr.addr as int, size as nat));
            assert(node_level(j0) == lvl0);
            assert(s1[j0] == BlockState::Allocated);
            assert(0 <= j0 < s1.len());
        }
        self.buddy_meta[i] = BlockState::Free;
        proof {
            assert forall|kk: int|
                0 <= kk < s1.len() && #[trigger] on_chain(kk, j0, lvl0) implies false by {
                lemma_ancestor_level(kk, j0);
            }
        }
        let mut cur: usize = i;
        let mut lvl: usize = level;
        while cur != 0
            invariant
                m0 == *old(self),
                m0.wf(),
                s1 == m0.buddy_meta@,
                h == m0.height(),
                hi_g == m0.hi(),
                self.same_config(m0),
                self.buddy_stack == m0.buddy_stack,
                self.buddy_meta@.len() == s1.len(),
                s1.len() == pow2(h + 1) - 1,
                pow2(h + 1) <= pow2(hi_g),
                m0.mem_size as nat == pow2(hi_g),
                m0.mem_size <= usize::MAX / 2,
                0 <= j0 < s1.len(),
                s1[j0] == BlockState::Allocated,
                node_level(j0) == lvl0,
                lvl0 <= h,
                lvl as nat <= lvl0,
                cur as int == anc_at(j0, lvl as nat),
                node_level(cur as int) == lvl as nat,
                cur < m0.buddy_node_count,
                self.buddy_meta@[j0] == BlockState::Free,
                forall|kk: int|
                    0 <= kk < s1.len() && #[trigger] on_chain(kk, j0, lvl as nat) ==> s1[kk]
                        == BlockState::Split && self.buddy_meta@[kk] == BlockState::Free,
                forall|kk: int|
                    0 <= kk < s1.len() && kk != j0 && !(#[trigger] on_chain(kk, j0, lvl as nat))
                        ==> self.buddy_meta@[kk] == s1[kk],
                forall|l2: nat|
                    lvl < l2 <= lvl0 ==> 1 <= #[trigger] anc_at(j0, l2) && 0 <= sibling(
                        anc_at(j0, l2),
                    ) < s1.len() && s1[sibling(anc_at(j0, l2))] == BlockState::Free,
            ensures
                cur == 0 || (1 <= anc_at(j0, lvl as nat) && 0 <= sibling(anc_at(j0, lvl as nat))
                    < s1.len() && s1[sibling(anc_at(j0, lvl as nat))] != BlockState::Free),
            decreases lvl,
        {
            proof {
                assert(lvl >= 1) by {
                    if lvl == 0 {
                        assert(node_level(cur as int) == 0);
                        lemma_level_bounds(cur as int);
                        lemma2_to64();
                    }
                }
                lemma_level_bounds(cur as int);
                lemma_pow2_pos(lvl as nat);
                if (lvl as nat) < hi_g {
                    lemma_pow2_strictly_increases(lvl as nat, hi_g);
                }
                lemma_pow2_unfold(lvl as nat + 1);
            }
            // The buddy, as the kernel computes it: the node's position
            // within its level, xor 1, mapped back to tree indexing.
            let pl_cur: usize = pow2_usize(lvl);
            let i_at_level: usize = cur + 1 - pl_cur;
            let buddy_at: usize = i_at_level ^ 1;
            proof {
                let x = i_at_level;
                assert(x ^ 1 == (if x % 2 == 0 {
                    x + 1
                } else {
                    x - 1
                })) by (bit_vector)
                    requires
                        x < 0x8000_0000_0000_0000,
                ;
                assert(pl_cur % 2 == 0) by {
                    lemma_pow2_unfold(lvl as nat);
                }
                assert(cur as int == pl_cur - 1 + x);
                assert(x % 2 == 0 <==> cur as int % 2 == 1);
                lemma_sibling(cur as int);
                assert(buddy_at as int == sibling(cur as int) + 1 - pl_cur);
                lemma_level_in_range(sibling(cur as int), h);
                lemma_level_bounds(sibling(cur as int));
            }
            let buddy: usize = buddy_at + pl_cur - 1;
            proof {
                assert(buddy as int == sibling(cur as int));
                lemma_sibling_off_path(j0, lvl as nat);
                lemma_not_own_ancestor(buddy as int);
                assert(!on_chain(buddy as int, j0, lvl as nat));
                assert(self.buddy_meta@[buddy as int] == s1[buddy as int]) by {
                    assert(buddy as int != j0) by {
                        if lvl as nat == lvl0 {
                            lemma_anc_at_self(j0);
                        }
                    }
                }
            }
            if self.buddy_meta[buddy] != BlockState::Free {
                break ;
            }
            let parent_idx: usize = (cur - 1) / 2;
            proof {
                lemma_parent_child(cur as int);
                lemma_anc_at_parent(j0, (lvl - 1) as nat);
                assert(parent_idx as int == anc_at(j0, (lvl - 1) as nat)) by {
                    assert(anc_at(j0, lvl as nat) >= 1);
                    assert(parent(anc_at(j0, lvl as nat)) == anc_at(j0, (lvl - 1) as nat));
                }
                assert(node_level(parent_idx as int) == lvl - 1);
                assert(is_ancestor(parent_idx as int, j0)) by {
                    lemma_anc_at(j0, (lvl - 1) as nat);
                }
                assert(s1[parent_idx as int] == BlockState::Split) by {
                    lemma_nonfree_ancestor_split(s1, parent_idx as int, j0);
                }
                assert(!on_chain(parent_idx as int, j0, lvl as nat));
                assert(self.buddy_meta@[parent_idx as int] == s1[parent_idx as int]);
                lemma_level_in_range(parent_idx as int, h);
            }
            let ghost sb = self.buddy_meta@;
            let ghost bfree = buddy as int;
            self.buddy_meta[parent_idx] = BlockState::Free;
            cur = parent_idx;
            lvl = lvl - 1;
            proof {
                assert forall|kk: int|
                    0 <= kk < s1.len() && #[trigger] on_chain(kk, j0, lvl as nat) implies s1[kk]
                    == BlockState::Split && self.buddy_meta@[kk] == BlockState::Free by {
                    if kk == cur as int {
                    } else {
                        assert(node_level(kk) >= lvl as nat && is_ancestor(kk, j0));
                        assert(kk != cur as int);
                        assert(node_level(kk) != lvl as nat) by {
                            if node_level(kk) == lvl as nat {
                                lemma_ancestor_level(kk, j0);
                                assert(kk == anc_at(j0, lvl as nat));
                            }
                        }
                        assert(on_chain(kk, j0, (lvl + 1) as nat));
                        assert(self.buddy_meta@[kk] == sb[kk]);
                    }
                }
                assert forall|kk: int|
                    0 <= kk < s1.len() && kk != j0 && !(#[trigger] on_chain(
                        kk,
                        j0,
                        lvl as nat,
                    )) implies self.buddy_meta@[kk] == s1[kk] by {
                    assert(!on_chain(kk, j0, (lvl + 1) as nat));
                    assert(kk != cur as int) by {
                        assert(on_chain(cur as int, j0, lvl as nat)) by {
                            lemma_anc_at(j0, lvl as nat);
                        }
                    }
                    assert(self.buddy_meta@[kk] == sb[kk]);
                }
                assert forall|l2: nat| lvl < l2 <= lvl0 implies 1 <= #[trigger] anc_at(j0, l2)
                    && 0 <= sibling(anc_at(j0, l2)) < s1.len() && s1[sibling(anc_at(j0, l2))]
                    == BlockState::Free by {
                    if l2 == lvl + 1 {
                        assert(s1[bfree] == BlockState::Free);
                        assert(bfree == sibling(anc_at(j0, l2)));
                    }
                }
            }
        }
        proof {
            let t = lvl as nat;
            if cur == 0 {
                assert(t == 0) by {
                    assert(node_level(0int) == 0);
                }
            }
            assert(free_transition(s1, self.buddy_meta@, j0, t)) by {
                lemma_not_own_ancestor(j0);
                if t > 0 {
                    assert(cur != 0);
                }
            }
            lemma_free_preserves_wf(s1, self.buddy_meta@, j0, t, h);
            assert(tree_wf(self.buddy_meta@, h));
            assert(j0 == m0.block_node(addr.addr as int, size as nat));
            assert(free_transition(
                m0.states(),
                self.buddy_meta@,
                m0.block_node(addr.addr as int, size as nat),
                t,
            ));
            assert(addr.size == Some(size));
            assert(freed(
                old(self).states(),
                self.buddy_meta@,
                old(self).block_node(addr.addr as int, size as nat),
            ));
            assert((addr.size->0) == size);
        }
    }
}

/// Bytes of the reserved range that building the arena metadata for a
/// region of `ms` bytes takes: the node states and the search stack, each
/// rounded up to whole pages.
pub open spec fn reserved_bytes_needed(ms: nat) -> nat {
    let nc = (2 * (ms / PAGE_SIZE as nat) - 1) as nat;
    let meta_pages = (nc + PAGE_SIZE - 1) as nat / PAGE_SIZE as nat;
    let stack_pages = (nc * WORD_SIZE as nat + PAGE_SIZE - 1) as nat / PAGE_SIZE as nat;
    ((meta_pages + stack_pages) * PAGE_SIZE) as nat
}

/// The memory-management context: the arena behind a spinlock behind a
/// once-latch, created once by [`init`] at boot and passed by reference
/// to every caller. One lock serializes every allocation and free — a
/// deliberate simplification.
pub struct MemoryManager {
    pub cell: OnceCell<Mutex<Memory>>,
}

impl MemoryManager {
    pub open spec fn wf(self) -> bool {
        &&& self.cell.wf()
        &&& self.cell.once.state is Completed
        &&& self.cell.value is Some
        &&& (self.cell.value->0).wf()
        &&& (self.cell.value->0).lock is Free
        &&& (self.cell.value->0).data is Some
        &&& self.arena().wf()
    }

    /// The arena the context guards.
    pub open spec fn arena(self) -> Memory {
        (self.cell.value->0).data->0
    }

    /// The per-node block states of the arena.
    pub open spec fn states(self) -> Seq<BlockState> {
        self.arena().states()
    }
}

/// Initializes the memory-management subsystem: builds the arena over the
/// general RAM range, seeding the buddy metadata from the reserved range,
/// and wraps it in its lock and once-latch. Must be called early in the
/// boot process, before any allocation.
pub fn init(ram_start: usize, ram_end: usize, alloc_mem_start: usize, alloc_mem_end: usize) -> (m:
    MemoryManager)
    requires
        ram_start <= ram_end,
        ram_start as int % PAGE_SIZE as int == 0,
        PAGE_SIZE <= ram_end - ram_start <= usize::MAX / 2,
        (ram_end - ram_start) as nat == pow2(lg((ram_end - ram_start) as nat)),
        alloc_mem_start <= alloc_mem_end,
        alloc_mem_start as int % PAGE_SIZE as int == 0,
        alloc_mem_start + reserved_bytes_needed((ram_end - ram_start) as nat) <= alloc_mem_end,
    ensures
        m.wf(),
        m.arena().start.addr == ram_start,
        m.arena().end.addr == ram_end,
        m.arena().mem_size == ram_end - ram_start,
        all_free(m.states()),
{
    let mut cell: OnceCell<Mutex<Memory>> = OnceCell::new();
    let f = (move || -> (mx: Mutex<Memory>)
        requires
            ram_start <= ram_end,
            ram_start as int % PAGE_SIZE as int == 0,
            PAGE_SIZE <= ram_end - ram_start <= usize::MAX / 2,
            (ram_end - ram_start) as nat == pow2(lg((ram_end - ram_start) as nat)),
            alloc_mem_start <= alloc_mem_end,
            alloc_mem_start as int % PAGE_SIZE as int == 0,
            alloc_mem_start + reserved_bytes_needed((ram_end - ram_start) as nat)
                <= alloc_mem_end,
        ensures
            mx.wf(),
            mx.lock is Free,
            mx.data matches Some(mm) && mm.wf() && mm.start.addr == ram_start && mm.end.addr
                == ram_end && mm.mem_size == ram_end - ram_start && all_free(mm.states()),
        {
            Mutex::new(Memory::new(ram_start, ram_end, alloc_mem_start, alloc_mem_end))
        });
    cell.get_or_init(f);
    MemoryManager { cell }
}

/// Allocates at least `n` bytes of contiguous physical memory from the
/// managed arena, holding the arena lock for the whole call. The returned
/// address is page-aligned and carries the rounded size.
pub fn buddy_alloc(m: &mut MemoryManager, n: usize) -> (r: Result<PhysAddr, Error>)
    requires
        old(m).wf(),
    ensures
        final(m).wf(),
        final(m).arena().same_config(old(m).arena()),
        (r == Err::<PhysAddr, Error>(Error::ZeroSize) <==> n == 0),
        n == 0 ==> final(m).states() == old(m).states(),
        n > old(m).arena().mem_size ==> r == Err::<PhysAddr, Error>(Error::OutOfMemory)
            && final(m).states() == old(m).states(),
        1 <= n <= old(m).arena().mem_size ==> {
            &&& (r is Ok <==> can_alloc(old(m).states(), old(m).arena().target_level(n as nat)))
            &&& (r is Err ==> r == Err::<PhysAddr, Error>(Error::OutOfMemory)
                && final(m).states() == old(m).states())
        },
        r matches Ok(a) ==> {
            &&& 1 <= n <= old(m).arena().mem_size
            &&& alloc_result(
                old(m).states(),
                final(m).states(),
                old(m).arena().hi(),
                old(m).arena().target_level(n as nat),
                a.addr - old(m).arena().start.addr,
            )
            &&& a.size == Some(rounded_size(n as nat) as usize)
            &&& a.addr as int % PAGE_SIZE as int == 0
            &&& old(m).arena().start.addr <= a.addr
            &&& a.addr + rounded_size(n as nat) <= old(m).arena().end.addr
        },
{
    let mx = m.cell.get_mut();
    let mut guard = mx.lock();
    let r = guard.get_mut().buddy_alloc(n);
    mx.unlock(guard);
    r
}

/// Returns a previously allocated block to the arena, holding the arena
/// lock for the whole call. An address without a size is ignored.
pub fn buddy_free(m: &mut MemoryManager, addr: PhysAddr)
    requires
        old(m).wf(),
        old(m).arena().free_target_ok(addr),
    ensures
        final(m).wf(),
        final(m).arena().same_config(old(m).arena()),
        addr.size is None ==> *final(m) == *old(m),
        addr.size is Some ==> freed(
            old(m).states(),
            final(m).states(),
            old(m).arena().block_node(addr.addr as int, (addr.size->0) as nat),
        ),
{
    let mx = m.cell.get_mut();
    let mut guard = mx.lock();
    guard.get_mut().buddy_free(addr);
    mx.unlock(guard);
    proof {
        if addr.size is None {
            assert(m.cell.once == old(m).cell.once);
            assert(m.cell.value == old(m).cell.value);
        }
    }
}

} // verus!
