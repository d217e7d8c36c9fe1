//! A buddy bitmap allocator: a complete binary tree stored flat and 1-indexed, in which every
//! node records the largest order that is free anywhere beneath it.
use crate::{
    block_size, order_size, pow2_usize, ranges_disjoint, region_size, BASE_ORDER, LEVEL_COUNT,
    MAX_ORDER, MAX_ORDER_SIZE,
};
use vstd::arithmetic::div_mod::lemma_mod_multiples_basic;
use vstd::arithmetic::power2::{
    lemma2_to64, lemma_pow2_adds, lemma_pow2_pos, lemma_pow2_strictly_increases, lemma_pow2_unfold,
    pow2,
};
use vstd::bits::{lemma_usize_shl_is_mul, lemma_usize_shr_is_div};
use vstd::prelude::*;

verus! {

/// A node of the tree.
#[derive(Clone, Copy, Debug)]
pub struct Block {
    /// One more than the largest order free in the subtree under this node; 0 when nothing in
    /// the subtree is free.
    pub order_free: u8,
}

impl Block {
    /// A node whose whole subtree, of order `order`, is free.
    pub fn new_free(order: u8) -> (r: Block)
        requires
            order < u8::MAX,
        ensures
            r.order_free == order + 1,
    {
        Block { order_free: order + 1 }
    }
}

/// Depth of the node with 1-based index `i`: the base-2 logarithm of `i`, rounded down.
pub open spec fn depth(i: int) -> nat
    decreases i,
{
    if i <= 1 {
        0
    } else {
        1 + depth(i / 2)
    }
}

/// Order of the block that node `i` stands for.
pub open spec fn node_order(i: int) -> int {
    MAX_ORDER - depth(i)
}

/// Number of nodes in the tree.
pub open spec fn node_count() -> int {
    pow2(LEVEL_COUNT as nat) - 1
}

pub open spec fn is_node(i: int) -> bool {
    1 <= i <= node_count()
}

/// A node with children.
pub open spec fn is_internal(i: int) -> bool {
    1 <= i < pow2(MAX_ORDER as nat)
}

/// A node of the smallest order.
pub open spec fn is_leaf(i: int) -> bool {
    pow2(MAX_ORDER as nat) <= i <= node_count()
}

/// Size in bytes of the block that node `i` stands for.
pub open spec fn node_size(i: int) -> int {
    block_size(node_order(i) as nat) as int
}

/// Address, relative to the start of the tree, of the block that node `i` stands for.
pub open spec fn node_address(i: int) -> int {
    (i - pow2(depth(i))) * node_size(i)
}

/// Whether `a` lies strictly above `i` on the path from `i` to the root.
pub open spec fn is_ancestor(a: int, i: int) -> bool
    decreases i,
{
    if i <= 1 {
        false
    } else {
        i / 2 == a || is_ancestor(a, i / 2)
    }
}

/// The value a node of order `order` takes from the values of its two children: a node whose
/// children are both wholly free is itself wholly free; otherwise it offers what the better
/// child offers.
pub open spec fn combine(left: int, right: int, order: int) -> int {
    if left == order && right == order {
        order + 1
    } else if left >= right {
        left
    } else {
        right
    }
}

pub open spec fn max_int(a: int, b: int) -> int {
    if a >= b {
        a
    } else {
        b
    }
}

/// Bounds on the index of a node from its depth.
pub proof fn lemma_depth_bounds(i: int)
    requires
        1 <= i,
    ensures
        pow2(depth(i)) <= i < pow2(depth(i) + 1),
    decreases i,
{
    lemma_pow2_unfold(depth(i) + 1);
    if i > 1 {
        lemma_depth_bounds(i / 2);
        lemma_pow2_unfold(depth(i));
    } else {
        lemma2_to64();
    }
}

/// The depth of a node from bounds on its index.
pub proof fn lemma_depth_range(i: int, d: nat)
    requires
        pow2(d) <= i < pow2(d + 1),
    ensures
        depth(i) == d,
{
    lemma_pow2_pos(d);
    lemma_depth_bounds(i);
    if depth(i) < d {
        if depth(i) + 1 < d {
            lemma_pow2_strictly_increases(depth(i) + 1, d);
        }
    } else if depth(i) > d {
        if d + 1 < depth(i) {
            lemma_pow2_strictly_increases(d + 1, depth(i));
        }
    }
}

/// What a node is, from its depth.
pub proof fn lemma_node_kind(i: int)
    requires
        1 <= i,
    ensures
        is_node(i) <==> depth(i) <= MAX_ORDER,
        is_internal(i) <==> depth(i) < MAX_ORDER,
        is_leaf(i) <==> depth(i) == MAX_ORDER,
{
    lemma_depth_bounds(i);
    let d = depth(i);
    if d < MAX_ORDER {
        lemma_pow2_strictly_increases(d + 1, LEVEL_COUNT as nat);
        if d + 1 < MAX_ORDER {
            lemma_pow2_strictly_increases(d + 1, MAX_ORDER as nat);
        }
    } else if d > MAX_ORDER {
        if d > LEVEL_COUNT {
            lemma_pow2_strictly_increases(LEVEL_COUNT as nat, d);
        }
        lemma_pow2_strictly_increases(MAX_ORDER as nat, d);
    } else {
        lemma_pow2_strictly_increases(MAX_ORDER as nat, LEVEL_COUNT as nat);
    }
}

/// The two children of an internal node split its block into two halves.
pub proof fn lemma_children(i: int)
    requires
        is_internal(i),
    ensures
        depth(2 * i) == depth(i) + 1,
        depth(2 * i + 1) == depth(i) + 1,
        node_order(2 * i) == node_order(i) - 1,
        node_order(2 * i + 1) == node_order(i) - 1,
        is_node(2 * i),
        is_node(2 * i + 1),
        node_size(i) == 2 * node_size(2 * i),
        node_size(2 * i + 1) == node_size(2 * i),
        node_address(2 * i) == node_address(i),
        node_address(2 * i + 1) == node_address(i) + node_size(2 * i),
{
    lemma_node_kind(i);
    lemma_node_kind(2 * i);
    lemma_node_kind(2 * i + 1);
    let d = depth(i);
    let e = (BASE_ORDER + node_order(i)) as nat;
    lemma_pow2_unfold(e);
    lemma_pow2_unfold(d + 1);
    let s = node_size(2 * i);
    let p = pow2(d);
    assert((2 * i - 2 * p) * s == (i - p) * (2 * s)) by (nonlinear_arith);
    assert((2 * i + 1 - 2 * p) * s == (i - p) * (2 * s) + s) by (nonlinear_arith);
}

/// An ancestor has a smaller index and a smaller depth.
pub proof fn lemma_ancestor_basic(a: int, i: int)
    requires
        is_ancestor(a, i),
    ensures
        1 <= a < i,
        depth(a) < depth(i),
    decreases i,
{
    if i / 2 != a {
        lemma_ancestor_basic(a, i / 2);
    }
}

/// An ancestor of an ancestor is an ancestor.
pub proof fn lemma_ancestor_trans(a: int, b: int, i: int)
    requires
        is_ancestor(a, b),
        is_ancestor(b, i),
    ensures
        is_ancestor(a, i),
    decreases i,
{
    if i / 2 != b {
        lemma_ancestor_trans(a, b, i / 2);
    }
}

/// The path from an ancestor down to a node goes through one of the ancestor's children.
pub proof fn lemma_ancestor_child(a: int, i: int)
    requires
        is_ancestor(a, i),
    ensures
        i == 2 * a || i == 2 * a + 1 || is_ancestor(2 * a, i) || is_ancestor(2 * a + 1, i),
    decreases i,
{
    if i / 2 != a {
        lemma_ancestor_child(a, i / 2);
    }
}

/// The block of a node lies within the block of each of its ancestors.
pub proof fn lemma_ancestor_contains(a: int, i: int)
    requires
        is_ancestor(a, i),
        is_node(i),
    ensures
        node_address(a) <= node_address(i),
        node_address(i) + node_size(i) <= node_address(a) + node_size(a),
    decreases i,
{
    let p = i / 2;
    lemma_node_kind(i);
    lemma_node_kind(p);
    lemma_children(p);
    lemma_pow2_pos((BASE_ORDER + node_order(i)) as nat);
    if p != a {
        lemma_ancestor_contains(a, p);
    }
}

/// Two distinct nodes on one level stand for disjoint blocks.
pub proof fn lemma_same_depth_disjoint(i: int, j: int)
    requires
        1 <= i,
        1 <= j,
        i != j,
        depth(i) == depth(j),
    ensures
        ranges_disjoint(node_address(i), node_size(i), node_address(j), node_size(j)),
{
    let p = pow2(depth(i));
    let s = node_size(i);
    let x = i - p;
    let y = j - p;
    if x < y {
        assert(x * s + s <= y * s) by (nonlinear_arith)
            requires
                x + 1 <= y,
                s >= 0,
        ;
    } else {
        assert(y * s + s <= x * s) by (nonlinear_arith)
            requires
                y + 1 <= x,
                s >= 0,
        ;
    }
}

/// Two nodes of which neither lies on the other's path to the root stand for disjoint blocks.
pub proof fn lemma_unrelated_disjoint(i: int, j: int)
    requires
        is_node(i),
        is_node(j),
        i != j,
        !is_ancestor(i, j),
        !is_ancestor(j, i),
    ensures
        ranges_disjoint(node_address(i), node_size(i), node_address(j), node_size(j)),
    decreases i + j,
{
    if depth(i) == depth(j) {
        lemma_same_depth_disjoint(i, j);
    } else if depth(i) > depth(j) {
        let p = i / 2;
        lemma_node_kind(i);
        lemma_node_kind(p);
        if is_ancestor(p, j) {
            lemma_ancestor_basic(p, j);
        }
        lemma_unrelated_disjoint(p, j);
        lemma_children(p);
    } else {
        let q = j / 2;
        lemma_node_kind(j);
        lemma_node_kind(q);
        if is_ancestor(q, i) {
            lemma_ancestor_basic(q, i);
        }
        lemma_unrelated_disjoint(i, q);
        lemma_children(q);
    }
}

/// The state of the tree while the values on the path from a node `j`, just marked used, up to
/// node `top` are being recomputed: `j` holds 0, the nodes strictly between `j` and `top` hold
/// the larger value of their children, and every other node holds what it held in `pre`.
#[verifier::opaque]
spec fn propagated(pre: Tree, cur: Tree, j: int, top: int) -> bool {
    &&& cur.flat_blocks@.len() == node_count()
    &&& cur.allocated@ == pre.allocated@.insert(j)
    &&& forall|i: int| is_node(i) ==> #[trigger] cur.value(i) <= node_order(i) + 1
    &&& forall|i: int|
        is_node(i) ==> #[trigger] cur.value(i) == if i == j {
            0
        } else if is_ancestor(i, j) && !is_ancestor(i, top) {
            max_int(cur.value(2 * i), cur.value(2 * i + 1))
        } else {
            pre.value(i)
        }
    &&& forall|i: int|
        (i == j || is_ancestor(i, j) && !is_ancestor(i, top)) ==> #[trigger] cur.value(i)
            <= node_order(i)
}

/// Marking node `j` used starts the recomputation.
proof fn lemma_mark_used(pre: Tree, post: Tree, j: int)
    requires
        pre.wf(),
        is_node(j),
        post.flat_blocks@ == pre.flat_blocks@.update(j - 1, Block { order_free: 0 }),
        post.allocated@ == pre.allocated@.insert(j),
    ensures
        propagated(pre, post, j, j),
        post.flat_blocks@.len() == node_count(),
{
    reveal(Tree::wf);
    reveal(propagated);
    lemma_node_kind(j);
    assert forall|i: int| is_node(i) implies #[trigger] post.value(i) <= node_order(i) + 1 by {
        if i != j {
            assert(post.value(i) == pre.value(i));
        }
    }
    assert forall|i: int|
        is_node(i) implies #[trigger] post.value(i) == if i == j {
            0
        } else if is_ancestor(i, j) && !is_ancestor(i, j) {
            max_int(post.value(2 * i), post.value(2 * i + 1))
        } else {
            pre.value(i)
        } by {
        if i != j {
            assert(post.value(i) == pre.value(i));
        }
    }
}

/// One step of the recomputation: the parent `c / 2` of the last recomputed node `c` takes the
/// larger value of its children.
proof fn lemma_propagate_step(pre: Tree, before: Tree, after: Tree, j: int, c: int)
    requires
        propagated(pre, before, j, c),
        is_node(j),
        c == j || is_ancestor(c, j),
        c > 1,
        after.allocated@ == before.allocated@,
        after.flat_blocks@ == before.flat_blocks@.update(
            c / 2 - 1,
            Block {
                order_free: max_int(before.value(c / 2 * 2), before.value(c / 2 * 2 + 1)) as u8,
            },
        ),
        0 <= before.value(c / 2 * 2) <= 255,
        0 <= before.value(c / 2 * 2 + 1) <= 255,
    ensures
        propagated(pre, after, j, c / 2),
        is_ancestor(c / 2, j),
{
    reveal(propagated);
    let p = c / 2;
    lemma_node_kind(j);
    if c != j {
        lemma_ancestor_basic(c, j);
    }
    lemma_node_kind(c);
    lemma_node_kind(p);
    lemma_children(p);
    if c != j {
        lemma_ancestor_trans(p, c, j);
    }
    assert(!is_ancestor(p, p)) by {
        if is_ancestor(p, p) {
            lemma_ancestor_basic(p, p);
        }
    }
    assert(after.value(p) == max_int(after.value(2 * p), after.value(2 * p + 1)));
    assert(after.value(c) == before.value(c));
    assert forall|i: int| is_node(i) implies #[trigger] after.value(i) <= node_order(i) + 1 by {
        if i != p {
            assert(after.value(i) == before.value(i));
        }
    }
    assert forall|i: int|
        is_node(i) implies #[trigger] after.value(i) == if i == j {
            0
        } else if is_ancestor(i, j) && !is_ancestor(i, p) {
            max_int(after.value(2 * i), after.value(2 * i + 1))
        } else {
            pre.value(i)
        } by {
        if i != p {
            assert(after.value(i) == before.value(i));
            assert(is_ancestor(i, c) == (i == p || is_ancestor(i, p)));
            if is_ancestor(i, j) && !is_ancestor(i, p) && i != j {
                lemma_ancestor_basic(i, j);
                lemma_node_kind(i);
                lemma_children(i);
                if 2 * i == p || 2 * i + 1 == p {
                    assert(is_ancestor(i, p));
                }
                assert(after.value(2 * i) == before.value(2 * i));
                assert(after.value(2 * i + 1) == before.value(2 * i + 1));
            }
        }
    }
    assert forall|i: int|
        (i == j || is_ancestor(i, j) && !is_ancestor(i, p)) implies #[trigger] after.value(i)
        <= node_order(i) by {
        if i != p {
            if i != j {
                lemma_ancestor_basic(i, j);
            }
            assert(after.value(i) == before.value(i));
            assert(is_ancestor(i, c) == (i == p || is_ancestor(i, p)));
        }
    }
}

/// The tree is whole again once a free node `j` of order `d` has been marked used and the
/// values on its path to the root have been recomputed.
proof fn lemma_final_state(pre: Tree, post: Tree, j: int, d: int)
    requires
        pre.wf(),
        is_node(j),
        node_order(j) == d,
        0 <= d <= MAX_ORDER,
        pre.value(j) == d + 1,
        forall|a: int| #[trigger] is_ancestor(a, j) ==> pre.value(a) > d,
        propagated(pre, post, j, 1),
    ensures
        post.wf(),
        post.allocated@ == pre.allocated@.insert(j),
        forall|i: int|
            is_node(i) ==> #[trigger] post.value(i) == if i == j {
                0
            } else if is_ancestor(i, j) {
                max_int(post.value(2 * i), post.value(2 * i + 1))
            } else {
                pre.value(i)
            },
{
    reveal(Tree::wf);
    reveal(propagated);
    lemma_pow2_pos(MAX_ORDER as nat);
    assert forall|i: int| #![auto] !is_ancestor(i, 1) by {}
    lemma_node_kind(j);
    assert forall|i: int| is_internal(i) implies #[trigger] post.value(i) == 0 || post.value(i)
        == combine(post.value(2 * i), post.value(2 * i + 1), node_order(i)) by {
        lemma_node_kind(i);
        lemma_children(i);
        if i == j {
        } else if is_ancestor(i, j) {
            lemma_ancestor_child(i, j);
            assert(post.value(2 * i) <= node_order(2 * i) || post.value(2 * i + 1) <= node_order(
                2 * i + 1,
            ));
        } else {
            if 2 * i == j || 2 * i + 1 == j {
                assert(is_ancestor(i, j));
            }
            if is_ancestor(2 * i, j) {
                lemma_ancestor_trans(i, 2 * i, j);
            }
            if is_ancestor(2 * i + 1, j) {
                lemma_ancestor_trans(i, 2 * i + 1, j);
            }
            assert(post.value(2 * i) == pre.value(2 * i));
            assert(post.value(2 * i + 1) == pre.value(2 * i + 1));
            assert(pre.value(i) == 0 || pre.value(i) == combine(
                pre.value(2 * i),
                pre.value(2 * i + 1),
                node_order(i),
            ));
        }
    }
    // The nodes handed out before lie neither on the path from `j` to the root nor under `j`.
    assert forall|m: int| #[trigger] pre.allocated@.contains(m) implies m != j && !is_ancestor(
        m,
        j,
    ) && !is_ancestor(j, m) && post.value(m) == 0 by {
        assert(is_node(m) && pre.value(m) == 0);
        if is_ancestor(j, m) {
            assert(pre.value(j) <= node_order(j));
        }
    }
    assert forall|m: int| #[trigger] post.allocated@.contains(m) implies is_node(m) && post.value(m)
        == 0 by {
        if m != j {
            assert(pre.allocated@.contains(m));
        }
    }
    assert forall|m: int, a: int|
        #![trigger post.allocated@.contains(m), is_ancestor(a, m)]
        post.allocated@.contains(m) && is_ancestor(a, m) implies post.value(a) <= node_order(a) by {
        lemma_ancestor_basic(a, m);
        if m != j {
            assert(pre.allocated@.contains(m));
            if a != j && !is_ancestor(a, j) {
                assert(post.value(a) == pre.value(a));
            }
        }
    }
    assert forall|i: int| is_leaf(i) implies (#[trigger] post.value(i) == 0
        <==> post.allocated@.contains(i)) by {
        lemma_node_kind(i);
        if i != j {
            if is_ancestor(i, j) {
                lemma_ancestor_basic(i, j);
            }
            assert(post.value(i) == pre.value(i));
            assert(pre.value(i) == 0 <==> pre.allocated@.contains(i));
        }
    }
    assert forall|m1: int, m2: int|
        #![trigger post.allocated@.contains(m1), post.allocated@.contains(m2)]
        post.allocated@.contains(m1) && post.allocated@.contains(m2) && m1 != m2 implies !is_ancestor(
        m1,
        m2,
    ) by {
        if m1 != j {
            assert(pre.allocated@.contains(m1));
        }
        if m2 != j {
            assert(pre.allocated@.contains(m2));
        }
    }
}

/// The block of every node is aligned to its size and lies in the tree's region.
pub proof fn lemma_node_in_region(i: int)
    requires
        is_node(i),
    ensures
        0 <= node_address(i),
        0 < node_size(i),
        node_address(i) % node_size(i) == 0,
        node_address(i) + node_size(i) <= region_size(),
{
    lemma_depth_bounds(i);
    lemma_node_kind(i);
    let d = node_order(i);
    lemma_pow2_pos((BASE_ORDER + d) as nat);
    let x = i - pow2(depth(i));
    let s = node_size(i);
    assert(s == pow2((BASE_ORDER + d) as nat));
    lemma_mod_multiples_basic(x, s);
    lemma_pow2_unfold(depth(i) + 1);
    lemma_pow2_adds(depth(i), (BASE_ORDER + d) as nat);
    assert(depth(i) + (BASE_ORDER + d) == BASE_ORDER + MAX_ORDER);
    assert(pow2(depth(i)) * s == region_size());
    assert(x * s + s <= pow2(depth(i)) * s) by (nonlinear_arith)
        requires
            x + 1 <= pow2(depth(i)),
            s >= 0,
    ;
    assert(0 <= x * s) by (nonlinear_arith)
        requires
            0 <= x,
            s >= 0,
    ;
}

/// The block of a free node `j` found by the descent is aligned, lies in the tree's region, and
/// is disjoint from every block handed out before.
proof fn lemma_new_block(pre: Tree, j: int, d: int)
    requires
        pre.wf(),
        is_node(j),
        node_order(j) == d,
        0 <= d <= MAX_ORDER,
        pre.value(j) == d + 1,
        forall|a: int| #[trigger] is_ancestor(a, j) ==> pre.value(a) > d,
    ensures
        node_address(j) % node_size(j) == 0,
        node_address(j) + node_size(j) <= region_size(),
        forall|m: int| #[trigger]
            pre.allocated@.contains(m) ==> node_address(m) != node_address(j) && ranges_disjoint(
                node_address(j),
                node_size(j),
                node_address(m),
                node_size(m),
            ),
{
    reveal(Tree::wf);
    lemma_depth_bounds(j);
    lemma_node_kind(j);
    lemma_pow2_pos((BASE_ORDER + d) as nat);
    assert forall|m: int| #[trigger] pre.allocated@.contains(m) implies node_address(m)
        != node_address(j) && ranges_disjoint(
        node_address(j),
        node_size(j),
        node_address(m),
        node_size(m),
    ) by {
        assert(is_node(m) && pre.value(m) == 0);
        if is_ancestor(j, m) {
            assert(pre.value(j) <= node_order(j));
        }
        lemma_node_kind(m);
        lemma_unrelated_disjoint(j, m);
        lemma_pow2_pos((BASE_ORDER + node_order(m)) as nat);
    }
    lemma_node_in_region(j);
}

/// One step of the descent from an internal node `i` that has a free block of order `d < `
/// its own: a child that has one too exists, and the left one is it when its value says so.
proof fn lemma_descend_step(pre: Tree, i: int, d: int)
    requires
        pre.wf(),
        is_internal(i),
        0 <= d < node_order(i),
        pre.value(i) > d,
    ensures
        pre.value(2 * i) > d || pre.value(2 * i + 1) > d,
{
    reveal(Tree::wf);
    lemma_children(i);
    assert(pre.value(i) <= node_order(i) + 1);
    assert(pre.value(2 * i) <= node_order(2 * i) + 1);
}


/// Index of the left child of the node with 1-based index `index`.
pub fn left_child(index: usize) -> (r: usize)
    requires
        index <= usize::MAX / 2,
    ensures
        r == 2 * index,
{
    proof {
        lemma2_to64();
        lemma_usize_shl_is_mul(index, 1);
    }
    index << 1
}

/// Index of the parent of the node with 1-based index `index`.
pub fn parent(index: usize) -> (r: usize)
    ensures
        r == index / 2,
{
    proof {
        lemma2_to64();
        lemma_usize_shr_is_div(index, 1);
    }
    index >> 1
}

/// A tree of blocks, held as the flat array of its nodes: node `i` (1-based) is at position
/// `i - 1`, its children are nodes `2i` and `2i + 1`, its parent is node `i / 2`.
pub struct Tree {
    flat_blocks: Vec<Block>,
    /// Nodes handed out by `alloc_exact`.
    allocated: Ghost<Set<int>>,
}

impl Tree {
    /// The `order_free` of node `i`.
    pub closed spec fn value(self, i: int) -> int {
        self.flat_blocks@[i - 1].order_free as int
    }

    /// The nodes whose blocks have been handed out.
    pub closed spec fn allocated_nodes(self) -> Set<int> {
        self.allocated@
    }

    /// The tree's invariant.
    #[verifier::opaque]
    pub closed spec fn wf(self) -> bool {
        &&& self.flat_blocks@.len() == node_count()
        &&& forall|i: int| is_node(i) ==> #[trigger] self.value(i) <= node_order(i) + 1
        &&& forall|i: int|
            is_internal(i) ==> #[trigger] self.value(i) == 0 || self.value(i) == combine(
                self.value(2 * i),
                self.value(2 * i + 1),
                node_order(i),
            )
        &&& forall|m: int| #[trigger]
            self.allocated@.contains(m) ==> is_node(m) && self.value(m) == 0
        &&& forall|m: int, a: int|
            #![trigger self.allocated@.contains(m), is_ancestor(a, m)]
            self.allocated@.contains(m) && is_ancestor(a, m) ==> self.value(a) <= node_order(a)
        &&& forall|i: int| is_leaf(i) ==> (#[trigger] self.value(i) == 0 <==> self.allocated@.contains(i))
        &&& forall|m1: int, m2: int|
            #![trigger self.allocated@.contains(m1), self.allocated@.contains(m2)]
            self.allocated@.contains(m1) && self.allocated@.contains(m2) && m1 != m2
                ==> !is_ancestor(m1, m2)
    }

    /// The node reached from node `i` by going `steps` levels down, each time to the left child
    /// if its subtree has a free block of order `order` and to the right child otherwise.
    pub open spec fn descend(self, i: int, order: int, steps: nat) -> int
        decreases steps,
    {
        if steps == 0 {
            i
        } else if self.value(2 * i) > order {
            self.descend(2 * i, order, (steps - 1) as nat)
        } else {
            self.descend(2 * i + 1, order, (steps - 1) as nat)
        }
    }

    /// The leftmost node of order `order` whose block is free.
    pub open spec fn first_fit(self, order: int) -> int {
        self.descend(1, order, (MAX_ORDER - order) as nat)
    }

    /// A tree in which every block is free: the node at depth `d` offers order `MAX_ORDER - d`.
    pub fn new() -> (r: Tree)
        ensures
            r.wf(),
            r.allocated_nodes() == Set::<int>::empty(),
            forall|i: int| is_node(i) ==> #[trigger] r.value(i) == node_order(i) + 1,
    {
        let total = Tree::blocks_in_tree(LEVEL_COUNT);
        let mut flat_blocks: Vec<Block> = Vec::with_capacity(total);
        let mut level: u8 = 0;
        proof {
            lemma2_to64();
        }
        while level < LEVEL_COUNT
            invariant
                level <= LEVEL_COUNT,
                flat_blocks@.len() == pow2(level as nat) - 1,
                forall|c: int|
                    0 <= c < flat_blocks@.len() ==> #[trigger] flat_blocks@[c].order_free
                        == node_order(c + 1) + 1,
            decreases LEVEL_COUNT - level,
        {
            let order = MAX_ORDER - level;
            let size = pow2_usize(level);
            proof {
                lemma_pow2_unfold(level as nat + 1);
            }
            let mut k: usize = 0;
            while k < size
                invariant
                    level < LEVEL_COUNT,
                    order == MAX_ORDER - level,
                    size == pow2(level as nat),
                    pow2(level as nat + 1) == 2 * pow2(level as nat),
                    k <= size,
                    flat_blocks@.len() == pow2(level as nat) - 1 + k,
                    forall|c: int|
                        0 <= c < flat_blocks@.len() ==> #[trigger] flat_blocks@[c].order_free
                            == node_order(c + 1) + 1,
                decreases size - k,
            {
                proof {
                    lemma_depth_range(pow2(level as nat) + k, level as nat);
                }
                flat_blocks.push(Block::new_free(order));
                k += 1;
            }
            level += 1;
        }
        let tree = Tree { flat_blocks, allocated: Ghost(Set::empty()) };
        proof {
            reveal(Tree::wf);
            assert forall|i: int| is_node(i) implies #[trigger] tree.value(i) == node_order(i) + 1 by {
                assert(tree.flat_blocks@[i - 1].order_free == node_order(i) + 1);
            }
            assert forall|i: int| is_internal(i) implies #[trigger] tree.value(i) == 0 || tree.value(i)
                == combine(tree.value(2 * i), tree.value(2 * i + 1), node_order(i)) by {
                lemma_children(i);
                assert(tree.value(2 * i) == node_order(2 * i) + 1);
                assert(tree.value(2 * i + 1) == node_order(2 * i + 1) + 1);
            }
            assert forall|i: int| is_leaf(i) implies (#[trigger] tree.value(i) == 0
                <==> tree.allocated@.contains(i)) by {
                lemma_node_kind(i);
                assert(tree.value(i) == node_order(i) + 1);
            }
        }
        tree
    }

    /// Node `index` (0-based position in the flat array).
    pub fn block(&self, index: usize) -> (r: &Block)
        requires
            self.wf(),
            index < node_count(),
        ensures
            r.order_free == self.value(index + 1),
    {
        proof {
            reveal(Tree::wf);
        }
        &self.flat_blocks[index]
    }

    /// Allocates the leftmost free block of order `desired_order` and returns its address
    /// relative to the start of the tree, or `None` when the tree has no free block of that
    /// order.
    pub fn alloc_exact(&mut self, desired_order: u8) -> (r: Option<usize>)
        requires
            old(self).wf(),
        ensures
            final(self).wf(),
            r is None <==> old(self).value(1) <= desired_order,
            r is None ==> *final(self) == *old(self),
            r matches Some(a) ==> {
                let j = old(self).first_fit(desired_order as int);
                &&& is_node(j)
                &&& node_order(j) == desired_order
                &&& a == node_address(j)
                &&& a as int % block_size(desired_order as nat) as int == 0
                &&& a + block_size(desired_order as nat) <= region_size()
                &&& old(self).value(j) == desired_order + 1
                &&& final(self).allocated_nodes() == old(self).allocated_nodes().insert(j)
                &&& forall|m: int| #[trigger]
                    old(self).allocated_nodes().contains(m) ==> node_address(m) != a
                        && ranges_disjoint(
                        a as int,
                        block_size(desired_order as nat) as int,
                        node_address(m),
                        node_size(m),
                    )
                &&& forall|i: int|
                    is_node(i) ==> #[trigger] final(self).value(i) == if i == j {
                        0
                    } else if is_ancestor(i, j) {
                        max_int(final(self).value(2 * i), final(self).value(2 * i + 1))
                    } else {
                        old(self).value(i)
                    }
            },
    {
        proof {
            lemma2_to64();
            assert(self.value(1) <= node_order(1) + 1 && self.flat_blocks@.len() == node_count())
                by {
                reveal(Tree::wf);
            }
        }
        let root = self.flat_blocks[0].order_free;
        // The root offers the largest order free anywhere in the tree.
        if root == 0 || (root - 1) < desired_order {
            return None;
        }
        let ghost pre = *self;
        let max_level: u8 = MAX_ORDER - desired_order;
        let mut addr: usize = 0;
        let mut node_index: usize = 1;
        let mut level: u8 = 0;
        proof {
            lemma_depth_range(1, 0);
            assert(pre.value(1) <= node_order(1) + 1);
            assert(pre.flat_blocks@.len() == node_count());
        }
        while level < max_level
            invariant
                *self == pre,
                pre.wf(),
                pre.flat_blocks@.len() == node_count(),
                desired_order <= MAX_ORDER,
                max_level == MAX_ORDER - desired_order,
                level <= max_level,
                pow2(level as nat) <= node_index < pow2(level as nat + 1),
                depth(node_index as int) == level,
                addr == node_address(node_index as int),
                pre.value(node_index as int) > desired_order,
                forall|a: int| #[trigger]
                    is_ancestor(a, node_index as int) ==> pre.value(a) > desired_order,
                pre.descend(node_index as int, desired_order as int, (max_level - level) as nat)
                    == pre.first_fit(desired_order as int),
            decreases max_level - level,
        {
            let ghost i = node_index as int;
            proof {
                lemma2_to64();
                lemma_pow2_pos(level as nat);
                if level + 1 < MAX_ORDER {
                    lemma_pow2_strictly_increases(level as nat + 1, MAX_ORDER as nat);
                }
                lemma_node_kind(i);
                lemma_node_in_region(2 * i + 1);
                lemma_children(i);
                lemma_descend_step(pre, i, desired_order as int);
                lemma_pow2_unfold(level as nat + 1);
                lemma_pow2_unfold(level as nat + 2);
                if level + 2 < LEVEL_COUNT {
                    lemma_pow2_strictly_increases(level as nat + 2, LEVEL_COUNT as nat);
                }
            }
            let left_child_index = left_child(node_index);
            let o = self.flat_blocks[left_child_index - 1].order_free;
            // Because of the +1 offset, "the left child has order `desired_order` free" is
            // `o - 1 >= desired_order`, that is `o > desired_order`.
            if o != 0 && o > desired_order {
                node_index = left_child_index;
            } else {
                // The right child's block starts after the left child's, which is half the
                // size of this node's block.
                addr = addr + pow2_usize(MAX_ORDER_SIZE - level - 1);
                node_index = left_child_index + 1;
            }
            level = level + 1;
            proof {
                assert(node_index as int / 2 == i);
                assert forall|a: int| #[trigger]
                    is_ancestor(a, node_index as int) implies pre.value(a) > desired_order by {
                    if a != i {
                        assert(is_ancestor(a, i));
                    }
                }
            }
        }
        let ghost j = node_index as int;
        proof {
            assert(j == pre.first_fit(desired_order as int));
            lemma_pow2_pos(level as nat);
            lemma_node_kind(j);
            assert(pre.value(j) <= node_order(j) + 1) by {
                reveal(Tree::wf);
            }
        }
        self.flat_blocks[node_index - 1] = Block { order_free: 0 };
        self.allocated = Ghost(pre.allocated@.insert(j));
        let mut up: u8 = 0;
        proof {
            lemma_mark_used(pre, *self, j);
        }
        while up < max_level
            invariant
                pre.wf(),
                is_node(j),
                j == pre.first_fit(desired_order as int),
                addr == node_address(j),
                node_order(j) == desired_order,
                pre.value(j) == desired_order + 1,
                forall|a: int| #[trigger] is_ancestor(a, j) ==> pre.value(a) > desired_order,
                max_level == MAX_ORDER - desired_order,
                up <= max_level,
                depth(node_index as int) == max_level - up,
                1 <= node_index,
                node_index as int == j || is_ancestor(node_index as int, j),
                propagated(pre, *self, j, node_index as int),
                self.flat_blocks@.len() == node_count(),
            decreases max_level - up,
        {
            let ghost c = node_index as int;
            let ghost before = *self;
            proof {
                if c != j {
                    lemma_ancestor_basic(c, j);
                }
                lemma_node_kind(c);
                lemma_depth_bounds(c);
                lemma_node_kind(c / 2);
                lemma_children(c / 2);
            }
            node_index = parent(node_index);
            let left_child_index = left_child(node_index);
            let left = self.flat_blocks[left_child_index - 1].order_free;
            let right = self.flat_blocks[left_child_index].order_free;
            self.flat_blocks[node_index - 1] = Block {
                order_free: if left >= right {
                    left
                } else {
                    right
                },
            };
            up = up + 1;
            proof {
                lemma_propagate_step(pre, before, *self, j, c);
                lemma_ancestor_basic(node_index as int, j);
            }
        }
        proof {
            assert(node_index == 1);
            lemma_final_state(pre, *self, j, desired_order as int);
            lemma_new_block(pre, j, desired_order as int);
        }
        Some(addr)
    }


    /// Number of nodes in a tree with `levels` levels.
    pub fn blocks_in_tree(levels: u8) -> (r: usize)
        requires
            levels <= MAX_ORDER_SIZE,
        ensures
            r == pow2(levels as nat) - 1,
    {
        proof {
            lemma_pow2_pos(levels as nat);
        }
        pow2_usize(levels) - 1
    }

    /// Number of blocks of order 0 in a block of order `order`.
    pub fn blocks_in_level(order: u8) -> (r: usize)
        requires
            order <= MAX_ORDER,
        ensures
            r == pow2(order as nat),
    {
        pow2_usize(order)
    }
}

/// A node that is neither wholly free nor used as a whole holds the larger value of its two
/// children. (A wholly free node offers its own order, one more than its children offer, and a
/// node handed out as a whole holds 0 whatever its children hold.)
pub proof fn lemma_node_is_max_of_children(tree: Tree, i: int)
    requires
        tree.wf(),
        is_internal(i),
        tree.value(i) != 0,
        tree.value(i) != node_order(i) + 1,
    ensures
        tree.value(i) == max_int(tree.value(2 * i), tree.value(2 * i + 1)),
{
    reveal(Tree::wf);
}

/// A node of order 0 holds 0 exactly when its block has been handed out.
pub proof fn lemma_leaf_used_iff_allocated(tree: Tree, i: int)
    requires
        tree.wf(),
        is_leaf(i),
    ensures
        tree.value(i) == 0 <==> tree.allocated_nodes().contains(i),
{
    reveal(Tree::wf);
}

/// Any two distinct blocks handed out by a tree, over any sequence of calls, are disjoint: no
/// address is handed out twice and no block overlaps another.
pub proof fn lemma_allocations_disjoint(tree: Tree, m1: int, m2: int)
    requires
        tree.wf(),
        tree.allocated_nodes().contains(m1),
        tree.allocated_nodes().contains(m2),
        m1 != m2,
    ensures
        node_address(m1) != node_address(m2),
        ranges_disjoint(node_address(m1), node_size(m1), node_address(m2), node_size(m2)),
{
    reveal(Tree::wf);
    lemma_unrelated_disjoint(m1, m2);
    lemma_node_in_region(m1);
    lemma_node_in_region(m2);
}

/// Allocates `blocks` blocks of order `order` from a run of trees, starting a fresh tree whenever
/// the current one has no free block of that order left, and returns their addresses, each
/// relative to the start of its tree.
pub fn demo(blocks: u32, order: u8) -> (r: Vec<usize>)
    requires
        order <= MAX_ORDER,
    ensures
        r@.len() == blocks,
        forall|k: int|
            0 <= k < blocks ==> #[trigger] r@[k] as int % block_size(order as nat) as int == 0
                && r@[k] + block_size(order as nat) <= region_size(),
{
    let mut tree = Tree::new();
    let mut addresses: Vec<usize> = Vec::new();
    let mut n: u32 = 0;
    while n < blocks
        invariant
            order <= MAX_ORDER,
            tree.wf(),
            n <= blocks,
            addresses@.len() == n,
            forall|k: int|
                0 <= k < n ==> #[trigger] addresses@[k] as int % block_size(order as nat) as int
                    == 0 && addresses@[k] + block_size(order as nat) <= region_size(),
        decreases blocks - n,
    {
        let addr = match tree.alloc_exact(order) {
            Some(a) => a,
            None => {
                tree = Tree::new();
                proof {
                    lemma2_to64();
                    lemma_depth_range(1, 0);
                    assert(tree.value(1) == node_order(1) + 1);
                }
                tree.alloc_exact(order).unwrap()
            },
        };
        addresses.push(addr);
        n = n + 1;
    }
    addresses
}

} // verus!
