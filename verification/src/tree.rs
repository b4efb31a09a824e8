//! The complete binary tree that the buddy allocator lays over its managed
//! region, kept as a flat array in 0-indexed heap order: node `0` is the
//! whole region, node `i` has children `2i+1` and `2i+2`. A node at depth
//! `l` describes a block of `2^(hi - l)` bytes, where `hi = log2(mem_size)`,
//! at byte offset `(i + 1 - 2^l) * 2^(hi - l)` from the region start.
//!
//! This module holds the specification vocabulary for that shape — levels,
//! parents, siblings, ancestors, block offsets — the per-node block states,
//! the well-formedness invariant of a state array, the transition relations
//! that allocation and freeing realize, and the proofs that the transitions
//! preserve well-formedness, that allocated blocks never oversubscribe the
//! region, and that a free exactly undoes the allocation that produced it.

use vstd::prelude::*;
use vstd::arithmetic::power2::{
    pow2, lemma_pow2_adds, lemma_pow2_pos, lemma_pow2_strictly_increases, lemma_pow2_unfold,
    lemma2_to64,
};
use vstd::arithmetic::div_mod::{
    lemma_div_by_multiple, lemma_fundamental_div_mod, lemma_fundamental_div_mod_converse,
};

verus! {

/// Index of the left child of node `i`.
pub open spec fn left(i: int) -> int {
    2 * i + 1
}

/// Index of the right child of node `i`.
pub open spec fn right(i: int) -> int {
    2 * i + 2
}

/// Index of the parent of node `i` (meaningful for `i >= 1`).
pub open spec fn parent(i: int) -> int {
    (i - 1) / 2
}

/// Index of the buddy of node `i`: the other child of its parent
/// (meaningful for `i >= 1`).
pub open spec fn sibling(i: int) -> int {
    if i % 2 == 1 {
        i + 1
    } else {
        i - 1
    }
}

/// Depth of node `i` in the tree; the root has level 0.
pub open spec fn node_level(i: int) -> nat
    decreases i,
{
    if i <= 0 {
        0
    } else {
        node_level(parent(i)) + 1
    }
}

/// True when `a` is a proper ancestor of `i`.
pub open spec fn is_ancestor(a: int, i: int) -> bool
    decreases i,
{
    if i <= 0 {
        false
    } else {
        parent(i) == a || is_ancestor(a, parent(i))
    }
}

/// The ancestor of `i` at level `l`; `i` itself if its level is at most `l`.
pub open spec fn anc_at(i: int, l: nat) -> int
    decreases i,
{
    if i <= 0 || node_level(i) <= l {
        i
    } else {
        anc_at(parent(i), l)
    }
}

/// True when `j` lies in the subtree rooted at `a` (including `a` itself).
pub open spec fn in_subtree(a: int, j: int) -> bool {
    a == j || is_ancestor(a, j)
}

/// A node is its parent's left or right child, and the parent sits
/// strictly below it in index order.
pub proof fn lemma_parent_child(i: int)
    requires
        i >= 1,
    ensures
        0 <= parent(i) < i,
        left(parent(i)) == i || right(parent(i)) == i,
        i % 2 == 1 ==> left(parent(i)) == i,
        i % 2 == 0 ==> right(parent(i)) == i,
{
    lemma_fundamental_div_mod(i - 1, 2);
}

/// The children of `i` sit one level below `i`.
pub proof fn lemma_level_child(i: int)
    requires
        i >= 0,
    ensures
        node_level(left(i)) == node_level(i) + 1,
        node_level(right(i)) == node_level(i) + 1,
        parent(left(i)) == i,
        parent(right(i)) == i,
{
    assert(parent(left(i)) == i) by {
        lemma_fundamental_div_mod_converse(2 * i, 2, i, 0);
    }
    assert(parent(right(i)) == i) by {
        lemma_fundamental_div_mod_converse(2 * i + 1, 2, i, 1);
    }
}

/// Level `l` holds exactly the nodes with `2^l - 1 <= i < 2^(l+1) - 1`.
pub proof fn lemma_level_bounds(i: int)
    requires
        i >= 0,
    ensures
        pow2(node_level(i)) <= i + 1 < pow2(node_level(i) + 1),
    decreases i,
{
    if i == 0 {
        lemma2_to64();
        lemma_pow2_unfold(1);
    } else {
        let p = parent(i);
        lemma_parent_child(i);
        lemma_level_bounds(p);
        lemma_pow2_unfold(node_level(i));
        lemma_pow2_unfold(node_level(i) + 1);
    }
}

/// A node's level is determined by the index range it falls in.
pub proof fn lemma_level_unique(i: int, l: nat)
    requires
        i >= 0,
        pow2(l) <= i + 1 < pow2(l + 1),
    ensures
        node_level(i) == l,
{
    lemma_level_bounds(i);
    if node_level(i) < l {
        if node_level(i) + 1 < l {
            lemma_pow2_strictly_increases(node_level(i) + 1, l);
        }
        assert(pow2(node_level(i) + 1) <= pow2(l));
    }
    if node_level(i) > l {
        if l + 1 < node_level(i) {
            lemma_pow2_strictly_increases(l + 1, node_level(i));
        }
        assert(pow2(l + 1) <= pow2(node_level(i)));
    }
}

/// The tree of height `h` (levels `0 ..= h`) has `2^(h+1) - 1` nodes:
/// a node index is in range exactly when its level is in range.
pub proof fn lemma_level_in_range(i: int, h: nat)
    requires
        i >= 0,
    ensures
        node_level(i) <= h <==> i < pow2(h + 1) - 1,
{
    lemma_level_bounds(i);
    if node_level(i) <= h {
        if node_level(i) + 1 <= h {
            lemma_pow2_strictly_increases(node_level(i) + 1, h + 1);
        }
        assert(pow2(node_level(i) + 1) <= pow2(h + 1));
    }
    if i < pow2(h + 1) - 1 && node_level(i) > h {
        lemma_pow2_strictly_increases(h + 1, node_level(i));
        assert(pow2(h + 1) <= pow2(node_level(i)));
    }
}

/// The buddy of a node: same parent, same level, a different node, and
/// taking the buddy twice comes back.
pub proof fn lemma_sibling(i: int)
    requires
        i >= 1,
    ensures
        sibling(i) >= 1,
        sibling(i) != i,
        parent(sibling(i)) == parent(i),
        node_level(sibling(i)) == node_level(i),
        sibling(sibling(i)) == i,
        i % 2 == 1 ==> sibling(i) == right(parent(i)),
        i % 2 == 0 ==> sibling(i) == left(parent(i)),
{
    lemma_parent_child(i);
    let p = parent(i);
    lemma_level_child(p);
    if i % 2 == 1 {
        assert(i == left(p));
        assert(sibling(i) == right(p));
    } else {
        assert(i == right(p));
        assert(sibling(i) == left(p));
    }
}

/// An ancestor sits strictly above: smaller index, smaller level.
pub proof fn lemma_ancestor_level(a: int, i: int)
    requires
        is_ancestor(a, i),
    ensures
        0 <= a < i,
        node_level(a) < node_level(i),
        a == anc_at(i, node_level(a)),
    decreases i,
{
    lemma_parent_child(i);
    let p = parent(i);
    if p == a {
        assert(node_level(i) == node_level(p) + 1);
        assert(node_level(i) > node_level(a));
        assert(anc_at(i, node_level(a)) == anc_at(p, node_level(a)));
        assert(anc_at(p, node_level(a)) == p);
    } else {
        lemma_ancestor_level(a, p);
        assert(node_level(i) > node_level(a));
        assert(anc_at(i, node_level(a)) == anc_at(p, node_level(a)));
    }
}

/// `anc_at` below a node's own level really is an ancestor, at that level.
pub proof fn lemma_anc_at(i: int, l: nat)
    requires
        i >= 0,
        l < node_level(i),
    ensures
        0 <= anc_at(i, l) < i,
        node_level(anc_at(i, l)) == l,
        is_ancestor(anc_at(i, l), i),
    decreases i,
{
    let p = parent(i);
    lemma_parent_child(i);
    if node_level(p) <= l {
        assert(node_level(p) == l) by {
            assert(node_level(i) == node_level(p) + 1);
        }
        assert(anc_at(i, l) == anc_at(p, l));
        assert(anc_at(p, l) == p);
    } else {
        lemma_anc_at(p, l);
        assert(anc_at(i, l) == anc_at(p, l));
        assert(is_ancestor(anc_at(p, l), p));
    }
}

/// A node is its own `anc_at` at its own level.
pub proof fn lemma_anc_at_self(i: int)
    requires
        i >= 0,
    ensures
        anc_at(i, node_level(i)) == i,
{
}

/// A node is never its own ancestor.
pub proof fn lemma_not_own_ancestor(i: int)
    ensures
        !is_ancestor(i, i),
{
    if is_ancestor(i, i) {
        lemma_ancestor_level(i, i);
    }
}

/// Ancestry is transitive.
pub proof fn lemma_ancestor_trans(a: int, b: int, i: int)
    requires
        is_ancestor(a, b),
        is_ancestor(b, i),
    ensures
        is_ancestor(a, i),
    decreases i,
{
    let p = parent(i);
    if p == b {
    } else {
        lemma_ancestor_trans(a, b, p);
    }
}

/// The ancestors of a child are its parent and the parent's ancestors.
pub proof fn lemma_ancestor_of_child(k: int, i: int)
    requires
        i >= 0,
    ensures
        is_ancestor(k, left(i)) <==> (k == i || is_ancestor(k, i)),
        is_ancestor(k, right(i)) <==> (k == i || is_ancestor(k, i)),
{
    lemma_level_child(i);
}

/// A subtree decomposes into its root and the two child subtrees.
pub proof fn lemma_subtree_step(a: int, j: int)
    requires
        a >= 0,
        in_subtree(a, j),
        j != a,
    ensures
        in_subtree(left(a), j) || in_subtree(right(a), j),
    decreases j,
{
    let p = parent(j);
    lemma_parent_child(j);
    if p == a {
        lemma_level_child(a);
    } else {
        lemma_subtree_step(a, p);
        lemma_ancestor_of_child(0, 0);
        if in_subtree(left(a), p) {
            if left(a) == p {
            } else {
                lemma_ancestor_trans(left(a), p, j);
            }
        } else {
            if right(a) == p {
            } else {
                lemma_ancestor_trans(right(a), p, j);
            }
        }
    }
}

/// Two nodes on the same level cannot be in each other's subtree unless
/// they are the same node.
pub proof fn lemma_subtree_same_level(a: int, j: int)
    requires
        a >= 0,
        j >= 0,
        in_subtree(a, j),
        node_level(a) == node_level(j),
    ensures
        a == j,
{
    if a != j {
        lemma_ancestor_level(a, j);
    }
}

/// The buddy of an ancestor of `j` (or of `j` itself) is never `j`, nor an
/// ancestor of `j`.
pub proof fn lemma_sibling_off_path(j: int, l: nat)
    requires
        j >= 1,
        1 <= l <= node_level(j),
        l < node_level(j) ==> anc_at(j, l) >= 1,
    ensures
        anc_at(j, l) >= 1,
        sibling(anc_at(j, l)) != j,
        !is_ancestor(sibling(anc_at(j, l)), j),
{
    let a = if l < node_level(j) {
        anc_at(j, l)
    } else {
        j
    };
    if l < node_level(j) {
        lemma_anc_at(j, l);
    } else {
        lemma_anc_at_self(j);
    }
    lemma_sibling(a);
    let s = sibling(a);
    if s == j {
        assert(node_level(s) == l);
        if l < node_level(j) {
            assert(false);
        } else {
            assert(s == sibling(j) && sibling(j) != j);
            assert(false);
        }
    }
    if is_ancestor(s, j) {
        lemma_ancestor_level(s, j);
        assert(s == anc_at(j, node_level(s)));
        assert(s == a);
        assert(false);
    }
}

/// Size in bytes of a block at level `l` of a region of `2^hi` bytes.
pub open spec fn block_size(hi: nat, l: nat) -> nat {
    pow2((hi - l) as nat)
}

/// Byte offset, from the region start, of the block node `i` describes.
pub open spec fn node_offset(hi: nat, i: int) -> int {
    (i + 1 - pow2(node_level(i))) * pow2((hi - node_level(i)) as nat)
}

/// Floor of the base-2 logarithm.
pub open spec fn lg(n: nat) -> nat
    decreases n,
{
    if n <= 1 {
        0
    } else {
        lg((n / 2) as nat) + 1
    }
}

pub proof fn lemma_lg_pow2(k: nat)
    ensures
        lg(pow2(k)) == k,
    decreases k,
{
    if k == 0 {
        lemma2_to64();
    } else {
        lemma_pow2_unfold(k);
        lemma_pow2_pos((k - 1) as nat);
        lemma_lg_pow2((k - 1) as nat);
        assert(pow2(k) / 2 == pow2((k - 1) as nat));
    }
}

/// A child's block sits inside its parent's: the left child starts at the
/// same offset, the right child starts at the midpoint.
pub proof fn lemma_offset_children(hi: nat, i: int)
    requires
        i >= 0,
        node_level(i) < hi,
    ensures
        node_offset(hi, left(i)) == node_offset(hi, i),
        node_offset(hi, right(i)) == node_offset(hi, i) + block_size(hi, node_level(i) + 1),
{
    let l = node_level(i);
    lemma_level_child(i);
    lemma_pow2_unfold(l + 1);
    lemma_pow2_unfold((hi - l) as nat);
    let m = i + 1 - pow2(l);
    let half = pow2((hi - l - 1) as nat) as int;
    assert(node_offset(hi, left(i)) == (2 * m) * half);
    assert(node_offset(hi, right(i)) == (2 * m + 1) * half);
    assert((2 * m) * half == m * (2 * half)) by (nonlinear_arith);
    assert((2 * m + 1) * half == m * (2 * half) + half) by (nonlinear_arith);
}

/// A block lies inside the region.
pub proof fn lemma_offset_bounds(hi: nat, i: int)
    requires
        i >= 0,
        node_level(i) <= hi,
    ensures
        0 <= node_offset(hi, i),
        node_offset(hi, i) + block_size(hi, node_level(i)) <= pow2(hi),
{
    let l = node_level(i);
    lemma_level_bounds(i);
    let m = i + 1 - pow2(l);
    let bs = pow2((hi - l) as nat) as int;
    lemma_pow2_pos((hi - l) as nat);
    lemma_pow2_unfold(l + 1);
    assert(0 <= m <= pow2(l) - 1);
    assert(m * bs >= 0) by (nonlinear_arith)
        requires
            m >= 0,
            bs >= 0,
    ;
    assert(m * bs + bs <= pow2(l) * bs) by (nonlinear_arith)
        requires
            m + 1 <= pow2(l),
            bs > 0,
    ;
    lemma_pow2_adds(l, (hi - l) as nat);
}

/// A block's offset is a multiple of every smaller power of two, down
/// through its own size.
pub proof fn lemma_offset_aligned(hi: nat, i: int, k: nat)
    requires
        i >= 0,
        node_level(i) <= hi,
        k <= hi - node_level(i),
    ensures
        node_offset(hi, i) % pow2(k) as int == 0,
{
    let l = node_level(i);
    let m = i + 1 - pow2(l);
    lemma_pow2_adds((hi - l - k) as nat, k);
    lemma_pow2_pos(k);
    lemma_pow2_pos((hi - l - k) as nat);
    let rest = pow2((hi - l - k) as nat) as int;
    let pk = pow2(k) as int;
    assert(node_offset(hi, i) == m * (rest * pk));
    assert(m * (rest * pk) == (m * rest) * pk) by (nonlinear_arith);
    vstd::arithmetic::div_mod::lemma_mod_multiples_basic(m * rest, pk);
}

/// The node a block of a given level and offset corresponds to.
pub open spec fn block_index(hi: nat, l: nat, o: int) -> int {
    pow2(l) - 1 + o / (pow2((hi - l) as nat) as int)
}

/// Recovering the node from a level and an in-range, aligned offset gives
/// back a node of that level, at that offset.
pub proof fn lemma_index_from_offset(hi: nat, l: nat, o: int)
    requires
        l <= hi,
        0 <= o,
        o % (pow2((hi - l) as nat) as int) == 0,
        o + pow2((hi - l) as nat) <= pow2(hi),
    ensures
        0 <= block_index(hi, l, o),
        node_level(block_index(hi, l, o)) == l,
        node_offset(hi, block_index(hi, l, o)) == o,
{
    let bs = pow2((hi - l) as nat) as int;
    lemma_pow2_pos((hi - l) as nat);
    lemma_pow2_pos(l);
    let q = o / bs;
    lemma_fundamental_div_mod(o, bs);
    assert(o == q * bs);
    assert(q >= 0) by (nonlinear_arith)
        requires
            o >= 0,
            bs > 0,
            o == q * bs,
    ;
    lemma_pow2_adds(l, (hi - l) as nat);
    assert(pow2(hi) == pow2(l) * bs);
    assert(q + 1 <= pow2(l)) by (nonlinear_arith)
        requires
            q * bs + bs <= pow2(l) * bs,
            bs > 0,
    ;
    let i = block_index(hi, l, o);
    assert(i + 1 == pow2(l) + q);
    lemma_pow2_unfold(l + 1);
    lemma_level_unique(i, l);
    assert(node_offset(hi, i) == q * bs);
}

/// State of one tree node. A `Free` node's whole block is available; an
/// `Allocated` node's whole block is handed out; a `Split` node is divided
/// between its two children.
#[derive(Debug, Clone, Copy, PartialEq, Eq, Structural)]
pub enum BlockState {
    Free,
    Allocated,
    Split,
}

/// At one node: if its parent is not `Split`, the node is `Free` — blocks
/// below a free or allocated block carry no information of their own.
pub open spec fn free_below_nonsplit_at(s: Seq<BlockState>, i: int) -> bool {
    s[parent(i)] != BlockState::Split ==> s[i] == BlockState::Free
}

/// Every child of a non-`Split` node is `Free`.
pub open spec fn child_of_nonsplit_is_free(s: Seq<BlockState>) -> bool {
    forall|i: int| 1 <= i < s.len() ==> #[trigger] free_below_nonsplit_at(s, i)
}

/// At one node: if it is `Split`, both children are in range and not both
/// `Free` — eager merging leaves no fully reassembled block divided.
pub open spec fn split_children_at(s: Seq<BlockState>, i: int) -> bool {
    s[i] == BlockState::Split ==> right(i) < s.len() && !(s[left(i)] == BlockState::Free
        && s[right(i)] == BlockState::Free)
}

/// A `Split` node has both children in range and never both `Free`.
pub open spec fn split_has_nonfree_child(s: Seq<BlockState>) -> bool {
    forall|i: int| 0 <= i < s.len() ==> #[trigger] split_children_at(s, i)
}

/// Well-formed state array of the buddy tree of height `h`.
pub open spec fn tree_wf(s: Seq<BlockState>, h: nat) -> bool {
    &&& s.len() == pow2(h + 1) - 1
    &&& child_of_nonsplit_is_free(s)
    &&& split_has_nonfree_child(s)
}

pub open spec fn all_free(s: Seq<BlockState>) -> bool {
    forall|i: int| 0 <= i < s.len() ==> (#[trigger] s[i]) == BlockState::Free
}

/// No ancestor of `j` has been handed out, so `j`'s block is not inside an
/// allocation.
pub open spec fn no_allocated_ancestor(s: Seq<BlockState>, j: int) -> bool {
    forall|a: int|
        0 <= a && #[trigger] is_ancestor(a, j) ==> s[a] != BlockState::Allocated
}

/// A block of level `l` can be carved out of the tree: some node of that
/// level is free and not buried inside an allocated block.
pub open spec fn can_alloc(s: Seq<BlockState>, l: nat) -> bool {
    exists|j: int| #[trigger] candidate(s, j, l)
}

/// `k` lies on the split path of an operation on node `j` that reaches up
/// to level `t`: it is an ancestor of `j` at level `t` or below.
pub open spec fn on_chain(k: int, j: int, t: nat) -> bool {
    is_ancestor(k, j) && t <= node_level(k)
}

/// Every ancestor of `e` is `Split`: the search path down to `e` is fully
/// divided.
pub open spec fn ancestors_split(s: Seq<BlockState>, e: int) -> bool {
    forall|a: int| 0 <= a && #[trigger] is_ancestor(a, e) ==> s[a] == BlockState::Split
}

/// A free node of level `l` with no allocated block above it: the
/// allocation search can claim exactly these nodes.
pub open spec fn candidate(s: Seq<BlockState>, j: int, l: nat) -> bool {
    &&& 0 <= j < s.len()
    &&& node_level(j) == l
    &&& s[j] == BlockState::Free
    &&& no_allocated_ancestor(s, j)
}

/// A state midway through an allocation: the search has split the free
/// ancestors of the current node `c` down to level `t`, and `c`'s own
/// subtree is still exactly as it was.
pub open spec fn partial_chain(s1: Seq<BlockState>, s: Seq<BlockState>, c: int, t: nat) -> bool {
    &&& s.len() == s1.len()
    &&& 0 <= c < s1.len()
    &&& t <= node_level(c)
    &&& s1[c] == BlockState::Free
    &&& forall|k: int|
        0 <= k < s1.len() && #[trigger] on_chain(k, c, t) ==> s1[k] == BlockState::Free && s[k]
            == BlockState::Split
    &&& forall|k: int| 0 <= k < s1.len() && !(#[trigger] on_chain(k, c, t)) ==> s[k] == s1[k]
    &&& (t > 0 ==> 0 <= anc_at(c, (t - 1) as nat) < s1.len() && s1[anc_at(c, (t - 1) as nat)]
        == BlockState::Split)
}

/// What one allocation does to the tree: node `j` goes `Free` ->
/// `Allocated`, its ancestors down to level `t` go `Free` -> `Split`, and
/// nothing else moves. The ancestor just above the chain, if any, was
/// already `Split`, which is where the search entered the free region.
pub open spec fn alloc_transition(s1: Seq<BlockState>, s2: Seq<BlockState>, j: int, t: nat) -> bool {
    &&& s2.len() == s1.len()
    &&& 0 <= j < s1.len()
    &&& t <= node_level(j)
    &&& s1[j] == BlockState::Free
    &&& s2[j] == BlockState::Allocated
    &&& forall|k: int|
        0 <= k < s1.len() && #[trigger] on_chain(k, j, t) ==> s1[k] == BlockState::Free && s2[k]
            == BlockState::Split
    &&& forall|k: int|
        0 <= k < s1.len() && k != j && !(#[trigger] on_chain(k, j, t)) ==> s2[k] == s1[k]
    &&& (t > 0 ==> 0 <= anc_at(j, (t - 1) as nat) < s1.len() && s1[anc_at(j, (t - 1) as nat)]
        == BlockState::Split)
}

/// What one free does to the tree: node `j` goes `Allocated` -> `Free`,
/// its ancestors down to level `t` merge `Split` -> `Free`, and nothing
/// else moves. Merging happened exactly while the buddy alongside the path
/// was free, and stopped at the first buddy that was not.
pub open spec fn free_transition(s1: Seq<BlockState>, s2: Seq<BlockState>, j: int, t: nat) -> bool {
    &&& s2.len() == s1.len()
    &&& 0 <= j < s1.len()
    &&& t <= node_level(j)
    &&& s1[j] == BlockState::Allocated
    &&& s2[j] == BlockState::Free
    &&& forall|k: int|
        0 <= k < s1.len() && #[trigger] on_chain(k, j, t) ==> s1[k] == BlockState::Split && s2[k]
            == BlockState::Free
    &&& forall|k: int|
        0 <= k < s1.len() && k != j && !(#[trigger] on_chain(k, j, t)) ==> s2[k] == s1[k]
    &&& forall|l: nat|
        t < l <= node_level(j) ==> 1 <= #[trigger] anc_at(j, l) && 0 <= sibling(anc_at(j, l))
            < s1.len() && s1[sibling(anc_at(j, l))] == BlockState::Free
    &&& (t > 0 ==> 1 <= anc_at(j, t) && 0 <= sibling(anc_at(j, t)) < s1.len() && s1[sibling(
        anc_at(j, t),
    )] != BlockState::Free)
}

/// Below a free node everything is free.
pub proof fn lemma_free_path(s: Seq<BlockState>, c: int, j: int)
    requires
        child_of_nonsplit_is_free(s),
        0 <= c < s.len(),
        0 <= j < s.len(),
        s[c] == BlockState::Free,
        in_subtree(c, j),
    ensures
        s[j] == BlockState::Free,
    decreases j,
{
    if j != c {
        let p = parent(j);
        lemma_parent_child(j);
        if p == c {
        } else {
            lemma_free_path(s, c, p);
        }
        assert(s[p] == BlockState::Free);
        assert(free_below_nonsplit_at(s, j));
    }
}

/// Above a non-free node everything is split: the search path to any live
/// block consists of split nodes.
pub proof fn lemma_nonfree_ancestor_split(s: Seq<BlockState>, a: int, j: int)
    requires
        child_of_nonsplit_is_free(s),
        0 <= j < s.len(),
        s[j] != BlockState::Free,
        is_ancestor(a, j),
    ensures
        s[a] == BlockState::Split,
    decreases j,
{
    let p = parent(j);
    lemma_parent_child(j);
    assert(free_below_nonsplit_at(s, j));
    assert(s[p] == BlockState::Split);
    if p != a {
        lemma_nonfree_ancestor_split(s, a, p);
    }
}

/// The ancestor path steps down through `anc_at` one parent at a time.
pub proof fn lemma_anc_at_parent(j: int, l: nat)
    requires
        j >= 0,
        l + 1 <= node_level(j),
    ensures
        anc_at(j, l + 1) >= 1,
        parent(anc_at(j, l + 1)) == anc_at(j, l),
        node_level(anc_at(j, l + 1)) == l + 1,
{
    let b = if l + 1 < node_level(j) {
        anc_at(j, l + 1)
    } else {
        j
    };
    if l + 1 < node_level(j) {
        lemma_anc_at(j, l + 1);
    } else {
        lemma_anc_at_self(j);
    }
    assert(node_level(b) == l + 1);
    assert(b >= 1) by {
        if b == 0 {
            assert(node_level(0) == 0);
        }
        if b < 0 {
            lemma_parent_child(1);
        }
    }
    lemma_parent_child(b);
    let p = parent(b);
    assert(node_level(b) == node_level(p) + 1);
    assert(is_ancestor(p, j)) by {
        if b == j {
        } else {
            lemma_ancestor_trans(p, b, j);
        }
    }
    lemma_ancestor_level(p, j);
}

/// An allocation leaves the tree well-formed.
pub proof fn lemma_alloc_preserves_wf(
    s1: Seq<BlockState>,
    s2: Seq<BlockState>,
    j: int,
    t: nat,
    h: nat,
)
    requires
        tree_wf(s1, h),
        alloc_transition(s1, s2, j, t),
        node_level(j) <= h,
    ensures
        tree_wf(s2, h),
{
    assert(child_of_nonsplit_is_free(s2)) by {
        assert forall|i: int| 1 <= i < s2.len() implies #[trigger] free_below_nonsplit_at(
            s2,
            i,
        ) by {
            let p = parent(i);
            lemma_parent_child(i);
            if s2[p] != BlockState::Split {
                if p == j {
                    assert(!on_chain(i, j, t)) by {
                        if is_ancestor(i, j) {
                            lemma_ancestor_level(i, j);
                        }
                    }
                    assert(s2[i] == s1[i]);
                    assert(free_below_nonsplit_at(s1, i));
                    assert(s1[i] == BlockState::Free);
                } else if on_chain(p, j, t) {
                    assert(s2[p] == BlockState::Split);
                } else {
                    assert(s2[p] == s1[p]);
                    if i == j {
                        assert(is_ancestor(p, j));
                        assert(node_level(j) == node_level(p) + 1);
                        assert(node_level(p) < t);
                        assert(t == node_level(j) && t > 0);
                        lemma_ancestor_level(p, j);
                        assert(anc_at(j, (t - 1) as nat) == p);
                        assert(s1[p] == BlockState::Split);
                        assert(false);
                    } else if on_chain(i, j, t) {
                        assert(is_ancestor(p, j)) by {
                            lemma_ancestor_trans(p, i, j);
                        }
                        assert(node_level(i) == node_level(p) + 1);
                        assert(node_level(p) < t);
                        assert(node_level(i) == t && t > 0);
                        lemma_ancestor_level(p, j);
                        lemma_ancestor_level(i, j);
                        assert(anc_at(j, (t - 1) as nat) == p);
                        assert(s1[p] == BlockState::Split);
                        assert(false);
                    } else {
                        assert(s2[i] == s1[i]);
                        assert(free_below_nonsplit_at(s1, i));
                        assert(s1[i] == BlockState::Free);
                    }
                }
            }
        }
    }
    assert(split_has_nonfree_child(s2)) by {
        assert forall|i: int| 0 <= i < s2.len() implies #[trigger] split_children_at(s2, i) by {
            if s2[i] == BlockState::Split {
                if on_chain(i, j, t) {
                    lemma_ancestor_level(i, j);
                    let li = node_level(i);
                    assert(li < node_level(j));
                    lemma_level_child(i);
                    assert(right(i) < s2.len()) by {
                        lemma_level_in_range(right(i), h);
                    }
                    let c = anc_at(j, (li + 1) as nat);
                    lemma_anc_at_parent(j, li);
                    assert(parent(c) == i && c >= 1);
                    lemma_parent_child(c);
                    assert(c == left(i) || c == right(i));
                    assert(s2[c] != BlockState::Free) by {
                        assert(0 <= c < s1.len()) by {
                            lemma_level_in_range(c, h);
                        }
                        if c == j {
                        } else {
                            assert(is_ancestor(c, j)) by {
                                lemma_anc_at(j, (li + 1) as nat);
                            }
                            assert(on_chain(c, j, t));
                        }
                    }
                } else {
                    assert(i != j);
                    assert(s2[i] == s1[i]);
                    assert(split_children_at(s1, i));
                    let cl = left(i);
                    let cr = right(i);
                    assert(right(i) < s2.len());
                    if s1[cl] != BlockState::Free {
                        assert(cl != j && !on_chain(cl, j, t));
                        assert(s2[cl] == s1[cl]);
                    } else {
                        assert(s1[cr] != BlockState::Free);
                        assert(cr != j && !on_chain(cr, j, t));
                        assert(s2[cr] == s1[cr]);
                    }
                }
            }
        }
    }
}

/// A free leaves the tree well-formed.
pub proof fn lemma_free_preserves_wf(
    s1: Seq<BlockState>,
    s2: Seq<BlockState>,
    j: int,
    t: nat,
    h: nat,
)
    requires
        tree_wf(s1, h),
        free_transition(s1, s2, j, t),
        node_level(j) <= h,
    ensures
        tree_wf(s2, h),
{
    assert(child_of_nonsplit_is_free(s2)) by {
        assert forall|i: int| 1 <= i < s2.len() implies #[trigger] free_below_nonsplit_at(
            s2,
            i,
        ) by {
            let p = parent(i);
            lemma_parent_child(i);
            if i == j || on_chain(i, j, t) {
            } else if s2[p] != BlockState::Split {
                assert(s2[i] == s1[i]);
                if p == j {
                    assert(s1[p] != BlockState::Split);
                    assert(free_below_nonsplit_at(s1, i));
                    assert(s1[i] == BlockState::Free);
                } else if on_chain(p, j, t) {
                    let lp = node_level(p);
                    lemma_ancestor_level(p, j);
                    let c = anc_at(j, (lp + 1) as nat);
                    lemma_anc_at_parent(j, lp);
                    assert(parent(c) == p && c >= 1);
                    lemma_parent_child(c);
                    assert(c == left(p) || c == right(p));
                    assert(i == left(p) || i == right(p));
                    assert(c != i) by {
                        assert(0 <= c < s1.len()) by {
                            lemma_level_in_range(c, h);
                            lemma_anc_at_parent(j, lp);
                            assert(node_level(c) == lp + 1);
                            assert(node_level(c) <= node_level(j));
                        }
                        if c == j {
                        } else {
                            assert(is_ancestor(c, j)) by {
                                lemma_anc_at(j, (lp + 1) as nat);
                            }
                            assert(on_chain(c, j, t));
                        }
                    }
                    assert(i == sibling(c)) by {
                        lemma_sibling(c);
                    }
                    assert(s1[i] == BlockState::Free) by {
                        assert(t < lp + 1 <= node_level(j));
                        assert(anc_at(j, (lp + 1) as nat) == c);
                    }
                } else {
                    assert(s2[p] == s1[p]);
                    assert(free_below_nonsplit_at(s1, i));
                    assert(s1[i] == BlockState::Free);
                }
            }
        }
    }
    assert(split_has_nonfree_child(s2)) by {
        assert forall|i: int| 0 <= i < s2.len() implies #[trigger] split_children_at(s2, i) by {
            if s2[i] == BlockState::Split {
                assert(i != j && !on_chain(i, j, t));
                assert(s2[i] == s1[i]);
                assert(split_children_at(s1, i));
                assert(right(i) < s2.len());
                let cl = left(i);
                let cr = right(i);
                let cc = if s1[cl] != BlockState::Free {
                    cl
                } else {
                    cr
                };
                assert(s1[cc] != BlockState::Free);
                lemma_level_child(i);
                lemma_parent_child(cc);
                if cc == j || on_chain(cc, j, t) {
                let lc = node_level(cc);
                assert(is_ancestor(cc, j) || cc == j);
                assert(lc >= t) by {
                    if cc != j {
                    } else {
                        assert(t <= node_level(j));
                    }
                }
                assert(node_level(i) < t) by {
                    assert(i == parent(cc));
                    assert(!on_chain(i, j, t));
                    assert(is_ancestor(i, j)) by {
                        if cc == j {
                        } else {
                            lemma_ancestor_trans(i, cc, j);
                        }
                    }
                }
                assert(lc == node_level(i) + 1);
                assert(lc == t && t > 0);
                assert(anc_at(j, t) == cc) by {
                    if cc == j {
                        lemma_anc_at_self(j);
                        assert(t == node_level(j));
                    } else {
                        lemma_ancestor_level(cc, j);
                    }
                }
                let sc = sibling(cc);
                assert(s1[sc] != BlockState::Free);
                assert(sc == cl || sc == cr) by {
                    lemma_sibling(cc);
                }
                    assert(sc != j && !is_ancestor(sc, j)) by {
                        lemma_sibling_off_path(j, t);
                    }
                    assert(!on_chain(sc, j, t));
                    assert(s2[sc] == s1[sc]);
                } else {
                    assert(s2[cc] == s1[cc]);
                }
            }
        }
    }
}

/// Bytes handed out inside the subtree of node `i`.
pub open spec fn allocated_bytes(s: Seq<BlockState>, hi: nat, i: int) -> int
    decreases s.len() - i,
    when 0 <= i < s.len()
{
    if s[i] == BlockState::Allocated {
        pow2((hi - node_level(i)) as nat) as int
    } else if s[i] == BlockState::Split && right(i) < s.len() {
        allocated_bytes(s, hi, left(i)) + allocated_bytes(s, hi, right(i))
    } else {
        0
    }
}

/// The bytes handed out inside a subtree never exceed the subtree's block:
/// allocations cannot oversubscribe the region.
pub proof fn lemma_allocated_bytes_le(s: Seq<BlockState>, hi: nat, h: nat, i: int)
    requires
        s.len() == pow2(h + 1) - 1,
        h <= hi,
        0 <= i < s.len(),
    ensures
        0 <= allocated_bytes(s, hi, i) <= pow2((hi - node_level(i)) as nat),
    decreases s.len() - i,
{
    lemma_level_in_range(i, h);
    let l = node_level(i);
    lemma_pow2_pos((hi - l) as nat);
    if s[i] == BlockState::Split && right(i) < s.len() {
        lemma_level_child(i);
        lemma_allocated_bytes_le(s, hi, h, left(i));
        lemma_allocated_bytes_le(s, hi, h, right(i));
        lemma_level_in_range(right(i), h);
        assert(node_level(right(i)) <= h);
        assert(l + 1 <= h <= hi);
        lemma_pow2_unfold((hi - l) as nat);
    }
}

/// With no block handed out, a well-formed tree is entirely free:
/// eager merging leaves no residual splits behind.
pub proof fn lemma_no_allocated_all_free(s: Seq<BlockState>, h: nat)
    requires
        tree_wf(s, h),
        forall|i: int| 0 <= i < s.len() ==> (#[trigger] s[i]) != BlockState::Allocated,
    ensures
        all_free(s),
{
    lemma_no_split_from(s, h, 0);
    assert forall|i: int| 0 <= i < s.len() implies (#[trigger] s[i]) == BlockState::Free by {
        assert(s[i] != BlockState::Allocated);
        assert(s[i] != BlockState::Split);
    }
}

proof fn lemma_no_split_from(s: Seq<BlockState>, h: nat, i: int)
    requires
        tree_wf(s, h),
        forall|k: int| 0 <= k < s.len() ==> (#[trigger] s[k]) != BlockState::Allocated,
        0 <= i <= s.len(),
    ensures
        forall|k: int| i <= k < s.len() ==> (#[trigger] s[k]) != BlockState::Split,
    decreases s.len() - i,
{
    if i < s.len() {
        lemma_no_split_from(s, h, i + 1);
        if s[i] == BlockState::Split {
            assert(split_children_at(s, i));
            assert(right(i) < s.len());
            assert(s[left(i)] != BlockState::Split && s[left(i)] != BlockState::Allocated);
            assert(s[right(i)] != BlockState::Split && s[right(i)] != BlockState::Allocated);
            assert(s[left(i)] == BlockState::Free && s[right(i)] == BlockState::Free);
            assert(false);
        }
    }
}

/// Freeing the block an allocation returned restores the tree exactly:
/// the merge walk retraces the split chain and stops where it started.
pub proof fn lemma_alloc_then_free_restores(
    s1: Seq<BlockState>,
    s2: Seq<BlockState>,
    s3: Seq<BlockState>,
    j: int,
    t: nat,
    t2: nat,
    h: nat,
)
    requires
        tree_wf(s1, h),
        node_level(j) <= h,
        alloc_transition(s1, s2, j, t),
        free_transition(s2, s3, j, t2),
    ensures
        t2 == t,
        s3 == s1,
{
    // Every buddy alongside the chain is free in s2, so merging cannot stop
    // early...
    assert forall|l: nat| t < l <= node_level(j) implies 0 <= sibling(#[trigger] anc_at(j, l))
        < s2.len() && s2[sibling(anc_at(j, l))] == BlockState::Free by {
        lemma_anc_at_parent(j, (l - 1) as nat);
        let a = anc_at(j, l);
        let p = anc_at(j, (l - 1) as nat);
        assert(parent(a) == p && a >= 1);
        assert(node_level(a) == l);
        assert(0 <= a < s1.len()) by {
            lemma_level_in_range(a, h);
        }
        assert(s1[p] == BlockState::Free) by {
            if l - 1 < node_level(j) {
                lemma_anc_at(j, (l - 1) as nat);
                assert(is_ancestor(p, j));
                assert(on_chain(p, j, t));
                assert(0 <= p < s1.len()) by {
                    lemma_level_in_range(p, h);
                }
            } else {
                assert(false);
            }
        }
        let sa = sibling(a);
        lemma_sibling(a);
        assert(parent(sa) == p);
        assert(0 <= sa < s1.len()) by {
            lemma_level_in_range(sa, h);
        }
        assert(s1[sa] == BlockState::Free) by {
            assert(s1[parent(sa)] != BlockState::Split);
            assert(free_below_nonsplit_at(s1, sa));
        }
        assert(s2[sa] == s1[sa]) by {
            lemma_sibling_off_path(j, l);
            assert(sa != j && !is_ancestor(sa, j));
            assert(!on_chain(sa, j, t));
        }
    }
    // ... and the buddy of the chain top is not free in s2, so merging
    // cannot run past it.
    assert(t > 0 ==> s2[sibling(anc_at(j, t))] != BlockState::Free && 1 <= anc_at(j, t) && 0
        <= sibling(anc_at(j, t)) < s2.len()) by {
        if t > 0 {
            let a0 = anc_at(j, t);
            let p0 = anc_at(j, (t - 1) as nat);
            lemma_anc_at_parent(j, (t - 1) as nat);
            assert(parent(a0) == p0 && a0 >= 1 && node_level(a0) == t);
            assert(0 <= a0 < s1.len()) by {
                lemma_level_in_range(a0, h);
            }
            assert(s1[a0] == BlockState::Free) by {
                if t < node_level(j) {
                    lemma_anc_at(j, t);
                    assert(on_chain(a0, j, t));
                } else {
                    lemma_anc_at_self(j);
                }
            }
            assert(s1[p0] == BlockState::Split);
            let sa = sibling(a0);
            lemma_sibling(a0);
            assert(sa == left(p0) || sa == right(p0));
            assert(a0 == left(p0) || a0 == right(p0)) by {
                lemma_parent_child(a0);
            }
            assert(0 <= sa < s1.len()) by {
                lemma_level_in_range(sa, h);
            }
            assert(s1[sa] != BlockState::Free) by {
                assert(0 <= p0 < s1.len()) by {
                    lemma_level_in_range(p0, h);
                }
                assert(split_children_at(s1, p0));
                assert(right(p0) < s1.len());
                assert(!(s1[left(p0)] == BlockState::Free && s1[right(p0)]
                    == BlockState::Free));
            }
            assert(s2[sa] == s1[sa]) by {
                lemma_sibling_off_path(j, t);
                assert(sa != j && !is_ancestor(sa, j));
                assert(!on_chain(sa, j, t));
            }
        }
    }
    assert(t2 == t) by {
        if t2 > t {
            assert(t2 <= node_level(j));
            assert(s2[sibling(anc_at(j, t2))] != BlockState::Free);
            assert(s2[sibling(anc_at(j, t2))] == BlockState::Free);
        }
        if t2 < t {
            assert(t > 0);
            assert(s2[sibling(anc_at(j, t))] == BlockState::Free) by {
                assert(t2 < t <= node_level(j));
            }
        }
    }
    assert forall|k: int| 0 <= k < s1.len() implies #[trigger] s3[k] == s1[k] by {
        if k == j {
        } else if on_chain(k, j, t) {
        } else {
            assert(s2[k] == s1[k]);
            assert(s3[k] == s2[k]);
        }
    }
    assert(s3 =~= s1);
}

/// An allocation hands out exactly one node: node `j` becomes allocated
/// and no other node's allocated-ness changes.
pub proof fn lemma_alloc_changes_one(s1: Seq<BlockState>, s2: Seq<BlockState>, j: int, t: nat)
    requires
        alloc_transition(s1, s2, j, t),
    ensures
        s1[j] != BlockState::Allocated,
        s2[j] == BlockState::Allocated,
        forall|k: int|
            0 <= k < s1.len() && k != j ==> ((#[trigger] s2[k]) == BlockState::Allocated <==> s1[k]
                == BlockState::Allocated),
{
    assert forall|k: int|
        0 <= k < s1.len() && k != j implies ((#[trigger] s2[k]) == BlockState::Allocated <==> s1[k]
        == BlockState::Allocated) by {
        if on_chain(k, j, t) {
        } else {
        }
    }
}

/// A free takes back exactly one node: node `j` stops being allocated and
/// no other node's allocated-ness changes.
pub proof fn lemma_free_changes_one(s1: Seq<BlockState>, s2: Seq<BlockState>, j: int, t: nat)
    requires
        free_transition(s1, s2, j, t),
    ensures
        s1[j] == BlockState::Allocated,
        s2[j] != BlockState::Allocated,
        forall|k: int|
            0 <= k < s1.len() && k != j ==> ((#[trigger] s2[k]) == BlockState::Allocated <==> s1[k]
                == BlockState::Allocated),
{
    assert forall|k: int|
        0 <= k < s1.len() && k != j implies ((#[trigger] s2[k]) == BlockState::Allocated <==> s1[k]
        == BlockState::Allocated) by {
        if on_chain(k, j, t) {
        } else {
        }
    }
}

/// A free of node `j` happened between the two states: the merge reached
/// some level.
pub open spec fn freed(s1: Seq<BlockState>, s2: Seq<BlockState>, j: int) -> bool {
    exists|t: nat| #[trigger] free_transition(s1, s2, j, t)
}

/// An allocation of one node of level `lvl` happened between the two
/// states, and the claimed block starts at byte offset `o` of the region
/// — the lowest offset of any claimable block of that level, which the
/// left-first depth-first search returns. Together with the level this
/// pins the claimed node, so allocation is deterministic in the state.
pub open spec fn alloc_result(
    s1: Seq<BlockState>,
    s2: Seq<BlockState>,
    hi: nat,
    lvl: nat,
    o: int,
) -> bool {
    &&& exists|j: int, t: nat|
        {
            &&& node_level(j) == lvl
            &&& #[trigger] alloc_transition(s1, s2, j, t)
            &&& o == node_offset(hi, j)
        }
    &&& forall|j2: int| #[trigger] candidate(s1, j2, lvl) ==> o <= node_offset(hi, j2)
}

/// A node's block lies inside the block of each of its ancestors.
pub proof fn lemma_subtree_offset_range(hi: nat, a: int, k: int)
    requires
        a >= 0,
        in_subtree(a, k),
        node_level(k) <= hi,
    ensures
        node_level(a) <= node_level(k),
        node_offset(hi, a) <= node_offset(hi, k),
        node_offset(hi, k) + block_size(hi, node_level(k)) <= node_offset(hi, a) + block_size(
            hi,
            node_level(a),
        ),
    decreases k,
{
    if k != a {
        let p = parent(k);
        lemma_parent_child(k);
        lemma_ancestor_level(a, k);
        assert(node_level(k) == node_level(p) + 1);
        if p == a {
        } else {
            assert(is_ancestor(a, p));
        }
        lemma_subtree_offset_range(hi, a, p);
        lemma_offset_children(hi, p);
        lemma_pow2_unfold((hi - node_level(p)) as nat);
        assert(k == left(p) || k == right(p));
    }
}

/// The child of `i` that continues the path down to `j`, and its buddy.
pub proof fn lemma_path_child(i: int, j: int)
    requires
        is_ancestor(i, j),
    ensures
        ({
            let c = anc_at(j, (node_level(i) + 1) as nat);
            &&& c >= 1
            &&& parent(c) == i
            &&& node_level(c) == node_level(i) + 1
            &&& c == left(i) || c == right(i)
            &&& c == j || is_ancestor(c, j)
        }),
{
    lemma_ancestor_level(i, j);
    lemma_anc_at_parent(j, node_level(i));
    let c = anc_at(j, (node_level(i) + 1) as nat);
    lemma_parent_child(c);
    if node_level(i) + 1 < node_level(j) {
        lemma_anc_at(j, (node_level(i) + 1) as nat);
    } else {
        lemma_anc_at_self(j);
    }
}

/// Nothing under the buddy of a path child lies on the path: the subtree
/// alongside the search path is untouched by it.
pub proof fn lemma_other_child_off_path(i: int, j: int)
    requires
        is_ancestor(i, j),
    ensures
        forall|k: int|
            #[trigger] in_subtree(sibling(anc_at(j, (node_level(i) + 1) as nat)), k) ==> k != j
                && !is_ancestor(k, j),
{
    lemma_path_child(i, j);
    let c = anc_at(j, (node_level(i) + 1) as nat);
    let d = sibling(c);
    lemma_sibling(c);
    assert forall|k: int| #[trigger] in_subtree(d, k) implies k != j && !is_ancestor(k, j) by {
        if k == j || is_ancestor(k, j) {
            let kj = k;
            assert(kj == j || is_ancestor(kj, j));
            if d == kj {
                if kj == j {
                    if node_level(c) == node_level(j) {
                        lemma_anc_at_self(j);
                        assert(c == j);
                    } else {
                        lemma_ancestor_level(d, j);
                    }
                } else {
                    lemma_ancestor_level(d, j);
                    assert(d == anc_at(j, node_level(d)));
                    assert(d == c);
                }
                assert(false);
            } else {
                assert(is_ancestor(d, kj));
                if kj != j {
                    lemma_ancestor_trans(d, kj, j);
                }
                lemma_ancestor_level(d, j);
                assert(d == anc_at(j, node_level(d)));
                assert(d == c);
                assert(false);
            }
        }
    }
}

/// Allocation accounting depends only on the subtree.
proof fn lemma_bytes_congruent(s1: Seq<BlockState>, s2: Seq<BlockState>, hi: nat, i: int)
    requires
        s1.len() == s2.len(),
        0 <= i < s1.len(),
        forall|k: int| 0 <= k < s1.len() && #[trigger] in_subtree(i, k) ==> s1[k] == s2[k],
    ensures
        allocated_bytes(s1, hi, i) == allocated_bytes(s2, hi, i),
    decreases s1.len() - i,
{
    assert(in_subtree(i, i));
    if s1[i] == BlockState::Split && right(i) < s1.len() {
        lemma_level_child(i);
        assert(is_ancestor(i, left(i)) && is_ancestor(i, right(i)));
        assert forall|k: int|
            0 <= k < s1.len() && #[trigger] in_subtree(left(i), k) implies s1[k] == s2[k] by {
            if k != left(i) {
                lemma_ancestor_trans(i, left(i), k);
            }
            assert(in_subtree(i, k));
        }
        assert forall|k: int|
            0 <= k < s1.len() && #[trigger] in_subtree(right(i), k) implies s1[k] == s2[k] by {
            if k != right(i) {
                lemma_ancestor_trans(i, right(i), k);
            }
            assert(in_subtree(i, k));
        }
        lemma_bytes_congruent(s1, s2, hi, left(i));
        lemma_bytes_congruent(s1, s2, hi, right(i));
    }
}

/// What one allocation does to the accounting of each subtree: subtrees
/// containing the claimed node gain exactly its block, all others are
/// untouched.
pub proof fn lemma_alloc_bytes_delta(
    s1: Seq<BlockState>,
    s2: Seq<BlockState>,
    j: int,
    t: nat,
    h: nat,
    hi: nat,
    i: int,
)
    requires
        tree_wf(s1, h),
        alloc_transition(s1, s2, j, t),
        node_level(j) <= h,
        h <= hi,
        0 <= i < s1.len(),
    ensures
        allocated_bytes(s2, hi, i) == allocated_bytes(s1, hi, i) + (if in_subtree(i, j) {
            pow2((hi - node_level(j)) as nat) as int
        } else {
            0
        }),
    decreases s1.len() - i,
{
    let delta = pow2((hi - node_level(j)) as nat) as int;
    if i == j {
        assert(allocated_bytes(s1, hi, i) == 0);
        assert(allocated_bytes(s2, hi, i) == delta);
    } else if is_ancestor(i, j) {
        lemma_ancestor_level(i, j);
        let li = node_level(i);
        lemma_level_child(i);
        assert(right(i) < s1.len()) by {
            lemma_level_in_range(i, h);
            lemma_level_in_range(right(i), h);
        }
        lemma_path_child(i, j);
        let c = anc_at(j, (li + 1) as nat);
        let d = sibling(c);
        lemma_sibling(c);
        assert(c == left(i) || c == right(i));
        assert(d == left(i) || d == right(i));
        assert(c != d);
        assert(0 <= c < s1.len() && 0 <= d < s1.len());
        // the buddy's subtree is untouched
        lemma_other_child_off_path(i, j);
        assert forall|k: int|
            0 <= k < s1.len() && #[trigger] in_subtree(d, k) implies s2[k] == s1[k] by {
            assert(k != j && !is_ancestor(k, j));
            assert(!on_chain(k, j, t));
        }
        lemma_bytes_congruent(s1, s2, hi, d);
        lemma_alloc_bytes_delta(s1, s2, j, t, h, hi, c);
        assert(in_subtree(c, j));
        if on_chain(i, j, t) {
            // on the freshly split chain: the whole subtree was free
            assert(s1[i] == BlockState::Free && s2[i] == BlockState::Split);
            assert(allocated_bytes(s1, hi, i) == 0);
            assert(s1[c] == BlockState::Free) by {
                if c == j {
                } else {
                    assert(on_chain(c, j, t));
                }
            }
            assert(allocated_bytes(s1, hi, c) == 0);
            assert(s1[d] == BlockState::Free) by {
                assert(free_below_nonsplit_at(s1, d));
            }
            assert(allocated_bytes(s1, hi, d) == 0);
            assert(allocated_bytes(s2, hi, i) == allocated_bytes(s2, hi, left(i))
                + allocated_bytes(s2, hi, right(i)));
            assert(allocated_bytes(s2, hi, c) == delta);
            assert(allocated_bytes(s2, hi, d) == 0);
        } else {
            // above the chain: an already split node, unchanged itself
            assert(t >= 1);
            let anchor = anc_at(j, (t - 1) as nat);
            assert(s1[anchor] == BlockState::Split);
            assert(s1[i] == BlockState::Split) by {
                if i == anchor {
                } else {
                    assert(node_level(i) < t - 1) by {
                        lemma_anc_at(j, (t - 1) as nat);
                        if node_level(i) == t - 1 {
                            assert(i == anc_at(j, node_level(i)));
                        }
                    }
                    assert(is_ancestor(i, anchor)) by {
                        lemma_anc_at(j, (t - 1) as nat);
                        lemma_anc_at_compose(j, node_level(i), (t - 1) as nat);
                        lemma_anc_at(anchor, node_level(i));
                        assert(anc_at(anchor, node_level(i)) == i);
                    }
                    lemma_nonfree_ancestor_split(s1, i, anchor);
                }
            }
            assert(s2[i] == s1[i]) by {
                assert(!on_chain(i, j, t));
                lemma_not_own_ancestor(i);
            }
            assert(allocated_bytes(s1, hi, i) == allocated_bytes(s1, hi, left(i))
                + allocated_bytes(s1, hi, right(i)));
            assert(allocated_bytes(s2, hi, i) == allocated_bytes(s2, hi, left(i))
                + allocated_bytes(s2, hi, right(i)));
        }
    } else {
        assert forall|k: int|
            0 <= k < s1.len() && #[trigger] in_subtree(i, k) implies s1[k] == s2[k] by {
            assert(k != j) by {
                if k == j {
                    assert(in_subtree(i, j));
                }
            }
            assert(!on_chain(k, j, t)) by {
                if is_ancestor(k, j) {
                    if i == k {
                    } else {
                        lemma_ancestor_trans(i, k, j);
                    }
                    assert(in_subtree(i, j));
                }
            }
        }
        lemma_bytes_congruent(s1, s2, hi, i);
    }
}

/// What one free does to the accounting of each subtree: subtrees
/// containing the released node lose exactly its block, all others are
/// untouched.
pub proof fn lemma_free_bytes_delta(
    s1: Seq<BlockState>,
    s2: Seq<BlockState>,
    j: int,
    t: nat,
    h: nat,
    hi: nat,
    i: int,
)
    requires
        tree_wf(s1, h),
        free_transition(s1, s2, j, t),
        node_level(j) <= h,
        h <= hi,
        0 <= i < s1.len(),
    ensures
        allocated_bytes(s2, hi, i) == allocated_bytes(s1, hi, i) - (if in_subtree(i, j) {
            pow2((hi - node_level(j)) as nat) as int
        } else {
            0
        }),
    decreases s1.len() - i,
{
    let delta = pow2((hi - node_level(j)) as nat) as int;
    if i == j {
        assert(allocated_bytes(s1, hi, i) == delta);
        assert(allocated_bytes(s2, hi, i) == 0);
    } else if is_ancestor(i, j) {
        lemma_ancestor_level(i, j);
        let li = node_level(i);
        lemma_level_child(i);
        assert(right(i) < s1.len()) by {
            lemma_level_in_range(i, h);
            lemma_level_in_range(right(i), h);
        }
        lemma_path_child(i, j);
        let c = anc_at(j, (li + 1) as nat);
        let d = sibling(c);
        lemma_sibling(c);
        assert(c == left(i) || c == right(i));
        assert(d == left(i) || d == right(i));
        assert(c != d);
        assert(0 <= c < s1.len() && 0 <= d < s1.len());
        lemma_other_child_off_path(i, j);
        assert forall|k: int|
            0 <= k < s1.len() && #[trigger] in_subtree(d, k) implies s2[k] == s1[k] by {
            assert(k != j && !is_ancestor(k, j));
            assert(!on_chain(k, j, t));
        }
        lemma_bytes_congruent(s1, s2, hi, d);
        lemma_free_bytes_delta(s1, s2, j, t, h, hi, c);
        assert(in_subtree(c, j));
        assert(s1[i] == BlockState::Split) by {
            lemma_nonfree_ancestor_split(s1, i, j);
        }
        assert(allocated_bytes(s1, hi, i) == allocated_bytes(s1, hi, left(i)) + allocated_bytes(
            s1,
            hi,
            right(i),
        ));
        if on_chain(i, j, t) {
            // a merged node: the buddy alongside the path was free, and
            // the path below holds exactly the released block
            assert(s2[i] == BlockState::Free);
            assert(allocated_bytes(s2, hi, i) == 0);
            assert(s1[d] == BlockState::Free) by {
                assert(t < li + 1 <= node_level(j));
                assert(d == sibling(anc_at(j, (li + 1) as nat)));
            }
            assert(allocated_bytes(s1, hi, d) == 0);
            assert(s2[c] == BlockState::Free) by {
                if c == j {
                } else {
                    assert(on_chain(c, j, t));
                }
            }
            assert(allocated_bytes(s2, hi, c) == 0);
            assert(allocated_bytes(s1, hi, c) == delta);
        } else {
            assert(s2[i] == s1[i]) by {
                assert(!on_chain(i, j, t));
                lemma_not_own_ancestor(i);
            }
            assert(allocated_bytes(s2, hi, i) == allocated_bytes(s2, hi, left(i))
                + allocated_bytes(s2, hi, right(i)));
        }
    } else {
        assert forall|k: int|
            0 <= k < s1.len() && #[trigger] in_subtree(i, k) implies s1[k] == s2[k] by {
            assert(k != j) by {
                if k == j {
                    assert(in_subtree(i, j));
                }
            }
            assert(!on_chain(k, j, t)) by {
                if is_ancestor(k, j) {
                    if i == k {
                    } else {
                        lemma_ancestor_trans(i, k, j);
                    }
                    assert(in_subtree(i, j));
                }
            }
        }
        lemma_bytes_congruent(s1, s2, hi, i);
    }
}

/// One allocation adds exactly the claimed block's bytes to the arena's
/// total, and one free removes exactly the released block's bytes.
pub proof fn lemma_accounting_tracks_transitions(
    s1: Seq<BlockState>,
    s2: Seq<BlockState>,
    j: int,
    t: nat,
    h: nat,
    hi: nat,
)
    requires
        tree_wf(s1, h),
        h <= hi,
        node_level(j) <= h,
        alloc_transition(s1, s2, j, t) || free_transition(s1, s2, j, t),
    ensures
        alloc_transition(s1, s2, j, t) ==> allocated_bytes(s2, hi, 0) == allocated_bytes(
            s1,
            hi,
            0,
        ) + pow2((hi - node_level(j)) as nat),
        free_transition(s1, s2, j, t) ==> allocated_bytes(s2, hi, 0) == allocated_bytes(s1, hi, 0)
            - pow2((hi - node_level(j)) as nat),
{
    lemma_pow2_pos(h + 1);
    lemma_pow2_unfold(h + 1);
    lemma_pow2_pos(h);
    assert(s1.len() >= 1);
    assert(in_subtree(0, j)) by {
        if j >= 1 {
            lemma_root_ancestor(j);
        }
    }
    if alloc_transition(s1, s2, j, t) {
        lemma_alloc_bytes_delta(s1, s2, j, t, h, hi, 0);
    } else {
        lemma_free_bytes_delta(s1, s2, j, t, h, hi, 0);
    }
}

/// The node an allocation claims is itself claimable beforehand.
pub proof fn lemma_transition_source_candidate(
    s1: Seq<BlockState>,
    s2: Seq<BlockState>,
    j: int,
    t: nat,
    h: nat,
)
    requires
        tree_wf(s1, h),
        alloc_transition(s1, s2, j, t),
        node_level(j) <= h,
    ensures
        candidate(s1, j, node_level(j)),
{
    assert forall|a: int| 0 <= a && #[trigger] is_ancestor(a, j) implies s1[a]
        != BlockState::Allocated by {
        lemma_ancestor_level(a, j);
        if t == 0 {
            assert(on_chain(a, j, t));
        } else {
            lemma_ancestor_partition(j, a, t);
            let anchor = anc_at(j, (t - 1) as nat);
            if node_level(a) >= t {
                assert(on_chain(a, j, t));
            } else if a == anchor {
                assert(s1[a] == BlockState::Split);
            } else {
                assert(is_ancestor(a, anchor));
                lemma_nonfree_ancestor_split(s1, a, anchor);
            }
        }
    }
}

/// The merge level of an allocation is determined by the tree state: two
/// transitions claiming the same node split up to the same level.
proof fn lemma_alloc_transition_level_unique(
    s1: Seq<BlockState>,
    s2a: Seq<BlockState>,
    s2b: Seq<BlockState>,
    j: int,
    ta: nat,
    tb: nat,
)
    requires
        alloc_transition(s1, s2a, j, ta),
        alloc_transition(s1, s2b, j, tb),
    ensures
        ta == tb,
{
    if ta < tb {
        let anchor = anc_at(j, (tb - 1) as nat);
        lemma_anc_at(j, (tb - 1) as nat);
        assert(on_chain(anchor, j, ta));
        assert(s1[anchor] == BlockState::Free);
        assert(s1[anchor] == BlockState::Split);
    }
    if tb < ta {
        let anchor = anc_at(j, (ta - 1) as nat);
        lemma_anc_at(j, (ta - 1) as nat);
        assert(on_chain(anchor, j, tb));
        assert(s1[anchor] == BlockState::Free);
        assert(s1[anchor] == BlockState::Split);
    }
}

/// Allocation is deterministic: from one tree state, any two allocations
/// of the same level claim the same block and leave the same state.
pub proof fn lemma_alloc_result_unique(
    s1: Seq<BlockState>,
    s2a: Seq<BlockState>,
    s2b: Seq<BlockState>,
    hi: nat,
    h: nat,
    lvl: nat,
    oa: int,
    ob: int,
)
    requires
        tree_wf(s1, h),
        lvl <= h <= hi,
        alloc_result(s1, s2a, hi, lvl, oa),
        alloc_result(s1, s2b, hi, lvl, ob),
    ensures
        oa == ob,
        s2a == s2b,
{
    let (ja, ta) = choose|j: int, t: nat|
        {
            &&& node_level(j) == lvl
            &&& #[trigger] alloc_transition(s1, s2a, j, t)
            &&& oa == node_offset(hi, j)
        };
    assert(node_level(ja) == lvl && alloc_transition(s1, s2a, ja, ta) && oa == node_offset(
        hi,
        ja,
    ));
    let (jb, tb) = choose|j: int, t: nat|
        {
            &&& node_level(j) == lvl
            &&& #[trigger] alloc_transition(s1, s2b, j, t)
            &&& ob == node_offset(hi, j)
        };
    assert(node_level(jb) == lvl && alloc_transition(s1, s2b, jb, tb) && ob == node_offset(
        hi,
        jb,
    ));
    lemma_transition_source_candidate(s1, s2a, ja, ta, h);
    lemma_transition_source_candidate(s1, s2b, jb, tb, h);
    assert(oa <= ob && ob <= oa);
    // same level and same offset name the same node
    assert(ja == jb) by {
        lemma_level_bounds(ja);
        lemma_level_bounds(jb);
        let bs = pow2((hi - lvl) as nat) as int;
        lemma_pow2_pos((hi - lvl) as nat);
        assert((ja + 1 - pow2(lvl)) * bs == (jb + 1 - pow2(lvl)) * bs);
        assert(ja + 1 - pow2(lvl) == jb + 1 - pow2(lvl)) by (nonlinear_arith)
            requires
                (ja + 1 - pow2(lvl)) * bs == (jb + 1 - pow2(lvl)) * bs,
                bs > 0,
        ;
    }
    lemma_alloc_transition_level_unique(s1, s2a, s2b, ja, ta, tb);
    assert forall|k: int| 0 <= k < s1.len() implies #[trigger] s2a[k] == s2b[k] by {
        if k == ja {
        } else if on_chain(k, ja, ta) {
        } else {
        }
    }
    assert(s2a =~= s2b);
}

/// A successful allocation of a level-`lvl` block raises the arena's
/// allocated total by exactly that block's bytes.
pub proof fn lemma_alloc_result_accounting(
    s1: Seq<BlockState>,
    s2: Seq<BlockState>,
    hi: nat,
    h: nat,
    lvl: nat,
    o: int,
)
    requires
        tree_wf(s1, h),
        lvl <= h <= hi,
        alloc_result(s1, s2, hi, lvl, o),
    ensures
        allocated_bytes(s2, hi, 0) == allocated_bytes(s1, hi, 0) + pow2((hi - lvl) as nat),
{
    let (j, t) = choose|j: int, t: nat|
        {
            &&& node_level(j) == lvl
            &&& #[trigger] alloc_transition(s1, s2, j, t)
            &&& o == node_offset(hi, j)
        };
    assert(node_level(j) == lvl && alloc_transition(s1, s2, j, t));
    lemma_accounting_tracks_transitions(s1, s2, j, t, h, hi);
}

/// A free of node `j` lowers the arena's allocated total by exactly that
/// block's bytes.
pub proof fn lemma_freed_accounting(
    s1: Seq<BlockState>,
    s2: Seq<BlockState>,
    j: int,
    h: nat,
    hi: nat,
)
    requires
        tree_wf(s1, h),
        h <= hi,
        0 <= j < s1.len(),
        node_level(j) <= h,
        freed(s1, s2, j),
    ensures
        allocated_bytes(s2, hi, 0) == allocated_bytes(s1, hi, 0) - pow2(
            (hi - node_level(j)) as nat,
        ),
{
    let t = choose|t: nat| #[trigger] free_transition(s1, s2, j, t);
    assert(free_transition(s1, s2, j, t));
    lemma_accounting_tracks_transitions(s1, s2, j, t, h, hi);
}

/// Freeing exactly the block an allocation returned undoes it: an
/// allocation of a level-`lvl` block at offset `o`, followed by a free of
/// the node that level and offset name, restores the tree state the
/// allocation started from.
pub proof fn lemma_alloc_result_free_restores(
    s1: Seq<BlockState>,
    s2: Seq<BlockState>,
    s3: Seq<BlockState>,
    hi: nat,
    h: nat,
    lvl: nat,
    o: int,
)
    requires
        tree_wf(s1, h),
        lvl <= h,
        alloc_result(s1, s2, hi, lvl, o),
        freed(s2, s3, block_index(hi, lvl, o)),
    ensures
        s3 == s1,
{
    let (j, t) = choose|j: int, t: nat|
        {
            &&& node_level(j) == lvl
            &&& #[trigger] alloc_transition(s1, s2, j, t)
            &&& o == node_offset(hi, j)
        };
    assert(node_level(j) == lvl && alloc_transition(s1, s2, j, t) && o == node_offset(hi, j));
    // the level and offset name exactly the allocated node
    lemma_level_bounds(j);
    let bs = pow2((hi - lvl) as nat) as int;
    lemma_pow2_pos((hi - lvl) as nat);
    assert(o == (j + 1 - pow2(lvl)) * bs);
    assert(o / bs == j + 1 - pow2(lvl)) by {
        lemma_div_by_multiple(j + 1 - pow2(lvl), bs);
    }
    assert(block_index(hi, lvl, o) == j);
    let t2 = choose|t2: nat| #[trigger] free_transition(s2, s3, j, t2);
    assert(free_transition(s2, s3, j, t2));
    lemma_alloc_then_free_restores(s1, s2, s3, j, t, t2, h);
}

/// The root is an ancestor of every other node.
pub proof fn lemma_root_ancestor(j: int)
    requires
        j >= 1,
    ensures
        is_ancestor(0, j),
    decreases j,
{
    lemma_parent_child(j);
    if parent(j) != 0 {
        lemma_root_ancestor(parent(j));
    }
}

/// Taking an ancestor at level `l2` and then at `l1` is the same as going
/// to level `l1` directly.
pub proof fn lemma_anc_at_compose(c: int, l1: nat, l2: nat)
    requires
        c >= 0,
        l1 <= l2,
    ensures
        anc_at(anc_at(c, l2), l1) == anc_at(c, l1),
    decreases c,
{
    if c > 0 && node_level(c) > l2 {
        lemma_parent_child(c);
        lemma_anc_at_compose(parent(c), l1, l2);
    }
}

/// Every ancestor of `c` is on the chain above level `t`, is the anchor at
/// level `t - 1`, or sits above the anchor.
pub proof fn lemma_ancestor_partition(c: int, a: int, t: nat)
    requires
        c >= 0,
        is_ancestor(a, c),
        1 <= t <= node_level(c),
    ensures
        node_level(a) >= t || a == anc_at(c, (t - 1) as nat) || is_ancestor(
            a,
            anc_at(c, (t - 1) as nat),
        ),
{
    lemma_ancestor_level(a, c);
    let la = node_level(a);
    if la < t {
        let anchor = anc_at(c, (t - 1) as nat);
        lemma_anc_at(c, (t - 1) as nat);
        if la == t - 1 {
            assert(a == anc_at(c, la));
        } else {
            lemma_anc_at_compose(c, la, (t - 1) as nat);
            lemma_anc_at(anchor, la);
            assert(anc_at(anchor, la) == anc_at(c, la));
            assert(anc_at(c, la) == a);
        }
    }
}

} // verus!
