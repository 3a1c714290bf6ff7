//! The nested layout: the complete binary tree is cut into tiers of at most
//! `LEVELS_IN_SUBTREE` levels, each tier into small sub-trees that fit a
//! cache line. Tier 0 holds the leaves and may be shorter; tier numbers grow
//! toward the root. The array holds the tiers from the top down, each tier's
//! sub-trees side by side, each sub-tree in its own breadth-first order.

use vstd::prelude::*;
use vstd::arithmetic::power2::{
    pow2, lemma_pow2_adds, lemma_pow2_pos, lemma_pow2_strictly_increases, lemma_pow2_unfold, lemma2_to64,
};
use vstd::arithmetic::div_mod::{
    lemma_fundamental_div_mod, lemma_fundamental_div_mod_converse, lemma_multiply_divide_lt,
    lemma_mod_pos_bound, lemma_div_denominator, lemma_div_pos_is_pos,
};
use crate::flat_tree::{sibling_spec, parent_spec, tree_size, fits_usize, pow2_exec, lemma_fits_usize_bound};
use crate::flat_tree;

verus! {

/// Levels in one full sub-tree: `2^6 - 1 = 63` nodes, about a cache line.
pub const LEVELS_IN_SUBTREE: u8 = 6;

/// Nodes in one full sub-tree.
pub const SIZE_OF_SUBTREE: usize = 63;

/// Nodes on the bottom level of one full sub-tree.
pub const LEAVES_IN_SUBTREE: usize = 32;

/// Height of tier 0, the tier next to the leaves.
pub open spec fn bottom_height(levels: nat) -> nat {
    if levels % 6 == 0 {
        6
    } else {
        levels % 6
    }
}

/// Number of tiers of a tree of `levels` levels.
pub open spec fn tier_count(levels: nat) -> nat {
    if levels == 0 {
        0
    } else {
        (levels + 5) / 6
    }
}

/// Height of the sub-trees of tier `tier`.
pub open spec fn tier_height(levels: nat, tier: nat) -> nat {
    if tier == 0 {
        bottom_height(levels)
    } else {
        6
    }
}

/// Order of the roots of the sub-trees of tier `tier`.
pub open spec fn tier_top(levels: nat, tier: nat) -> nat {
    bottom_height(levels) + 6 * tier
}

/// The tier that holds the nodes of order `order`.
pub open spec fn tier_of_order(levels: nat, order: nat) -> nat {
    if order <= bottom_height(levels) {
        0
    } else {
        ((order - bottom_height(levels) - 1) as nat / 6 + 1) as nat
    }
}

/// Number of sub-trees side by side in tier `tier`.
pub open spec fn subtree_count(levels: nat, tier: nat) -> nat {
    pow2((levels - tier_top(levels, tier)) as nat)
}

/// Number of nodes of one sub-tree of tier `tier`.
pub open spec fn subtree_size(levels: nat, tier: nat) -> nat {
    tree_size(tier_height(levels, tier))
}

/// Where the slice of tier `tier` starts: after every node above it.
pub open spec fn slice_offset(levels: nat, tier: nat) -> nat {
    tree_size((levels - tier_top(levels, tier)) as nat)
}

/// Number of nodes in the slice of tier `tier`.
pub open spec fn slice_len(levels: nat, tier: nat) -> nat {
    subtree_count(levels, tier) * subtree_size(levels, tier)
}

/// Whether `index` lies in the slice of tier `tier`.
pub open spec fn in_slice(levels: nat, tier: nat, index: nat) -> bool {
    slice_offset(levels, tier) <= index < slice_offset(levels, tier) + slice_len(levels, tier)
}

/// Nodes held by the tiers below `tiers`.
pub open spec fn tiers_size(levels: nat, tiers: nat) -> nat
    decreases tiers,
{
    if tiers == 0 {
        0
    } else {
        tiers_size(levels, (tiers - 1) as nat) + slice_len(levels, (tiers - 1) as nat)
    }
}

/// Nodes held by all the tiers of the layout.
pub open spec fn layout_size(levels: nat) -> nat {
    tiers_size(levels, tier_count(levels))
}

/// Depth of the nodes of order `order` below the roots of their sub-trees.
pub open spec fn depth_in_subtree(levels: nat, order: nat) -> nat {
    (tier_top(levels, tier_of_order(levels, order)) - order) as nat
}

/// Array index of the node of order `order` at position `pos` of its level
/// (counted from the left, from 0).
pub open spec fn node_index(levels: nat, order: nat, pos: nat) -> nat {
    let t = tier_of_order(levels, order);
    let w = pow2(depth_in_subtree(levels, order));
    slice_offset(levels, t) + (pos / w) * subtree_size(levels, t) + ((w - 1) as nat + pos % w)
}

/// Position in its level of the node of order `order` at array index
/// `index`; the inverse of `node_index`.
pub open spec fn node_position(levels: nat, index: nat, order: nat) -> int {
    let t = tier_of_order(levels, order);
    let w = pow2(depth_in_subtree(levels, order));
    let rel = index - slice_offset(levels, t);
    (rel / subtree_size(levels, t) as int) * w + (rel % subtree_size(levels, t) as int - (w - 1))
}

/// Whether array index `index` holds a node of order `order`.
pub open spec fn is_node_index(levels: nat, index: nat, order: nat) -> bool {
    &&& 1 <= order <= levels
    &&& 0 <= node_position(levels, index, order) < pow2((levels - order) as nat)
    &&& node_index(levels, order, node_position(levels, index, order) as nat) == index
}

pub proof fn lemma_pow2_le(e1: nat, e2: nat)
    requires
        e1 <= e2,
    ensures
        pow2(e1) <= pow2(e2),
{
    if e1 < e2 {
        lemma_pow2_strictly_increases(e1, e2);
    }
}

/// Where a valid order sits among the tiers.
pub proof fn lemma_tier_of_order(levels: nat, order: nat)
    requires
        1 <= order <= levels,
    ensures
        tier_of_order(levels, order) < tier_count(levels),
        order <= tier_top(levels, tier_of_order(levels, order)) <= levels,
        depth_in_subtree(levels, order) < tier_height(levels, tier_of_order(levels, order)),
        tier_height(levels, tier_of_order(levels, order)) <= 6,
        1 <= tier_height(levels, tier_of_order(levels, order)),
{
}

/// The top tier reaches the root.
pub proof fn lemma_top_tier(levels: nat)
    requires
        levels >= 1,
    ensures
        tier_count(levels) >= 1,
        tier_top(levels, (tier_count(levels) - 1) as nat) == levels,
{
}

/// Each tier's slice ends where the tier above it starts; tier 0's slice
/// ends with the whole tree.
pub proof fn lemma_slice_end(levels: nat, tier: nat)
    requires
        tier < tier_count(levels),
    ensures
        tier_top(levels, tier) <= levels,
        slice_offset(levels, tier) + slice_len(levels, tier) == tree_size(
            (levels - tier_top(levels, tier) + tier_height(levels, tier)) as nat,
        ),
        tier == 0 ==> slice_offset(levels, tier) + slice_len(levels, tier) == tree_size(levels),
        tier > 0 ==> slice_offset(levels, tier) + slice_len(levels, tier) == slice_offset(
            levels,
            (tier - 1) as nat,
        ),
{
    let c = (levels - tier_top(levels, tier)) as nat;
    let h = tier_height(levels, tier);
    lemma_pow2_adds(c, h);
    lemma_pow2_pos(c);
    lemma_pow2_pos(h);
    lemma_pow2_pos(c + h);
    assert(pow2(c) * (pow2(h) - 1) == pow2(c) * pow2(h) - pow2(c)) by (nonlinear_arith);
}

/// Tiers lower down start further into the array.
pub proof fn lemma_slices_ordered(levels: nat, lower: nat, upper: nat)
    requires
        lower < upper < tier_count(levels),
    ensures
        slice_offset(levels, upper) + slice_len(levels, upper) <= slice_offset(levels, lower),
{
    lemma_slice_end(levels, upper);
    lemma_slice_end(levels, (upper - 1) as nat);
    lemma_slice_end(levels, lower);
    let a = (levels - tier_top(levels, (upper - 1) as nat)) as nat;
    let b = (levels - tier_top(levels, lower)) as nat;
    assert(a <= b);
    lemma_pow2_le(a, b);
    lemma_pow2_pos(a);
    assert(tree_size(a) <= tree_size(b));
}

/// How `node_index` places a node: which sub-tree, which local index, and
/// that `node_position` undoes it.
pub proof fn lemma_node_index(levels: nat, order: nat, pos: nat)
    requires
        1 <= order <= levels,
        pos < pow2((levels - order) as nat),
    ensures
        ({
            let t = tier_of_order(levels, order);
            let w = pow2(depth_in_subtree(levels, order));
            let g = node_index(levels, order, pos);
            &&& w >= 1
            &&& subtree_size(levels, t) >= 1
            &&& pos / w < subtree_count(levels, t)
            &&& (w - 1) as nat + pos % w < subtree_size(levels, t)
            &&& (g - slice_offset(levels, t)) / subtree_size(levels, t) as int == pos / w
            &&& (g - slice_offset(levels, t)) % subtree_size(levels, t) as int == (w - 1) as nat
                + pos % w
            &&& in_slice(levels, t, g)
            &&& g < tree_size(levels)
            &&& node_position(levels, g, order) == pos
            &&& is_node_index(levels, g, order)
        }),
{
    lemma_tier_of_order(levels, order);
    let t = tier_of_order(levels, order);
    let d = depth_in_subtree(levels, order);
    let c = (levels - tier_top(levels, t)) as nat;
    let h = tier_height(levels, t);
    let w = pow2(d);
    let cnt = pow2(c);
    let size = subtree_size(levels, t);
    lemma_pow2_pos(d);
    lemma_pow2_pos(c);
    lemma_pow2_adds(c, d);
    assert((levels - order) as nat == c + d);
    assert(pos < w * cnt) by (nonlinear_arith)
        requires
            pos < cnt * w,
    ;
    lemma_multiply_divide_lt(pos as int, w as int, cnt as int);
    let s = pos / w;
    let q = pos % w;
    lemma_mod_pos_bound(pos as int, w as int);
    lemma_pow2_adds(d, 1);
    lemma2_to64();
    lemma_pow2_le(d + 1, h);
    let local = (w - 1) as nat + q;
    assert(local < size);
    let rel = s * size + local;
    assert(rel < cnt * size) by (nonlinear_arith)
        requires
            s < cnt,
            local < size,
            rel == s * size + local,
    ;
    lemma_fundamental_div_mod_converse(rel as int, size as int, s as int, local as int);
    lemma_slice_end(levels, t);
    lemma_fundamental_div_mod(pos as int, w as int);
    if t > 0 {
        lemma_slices_ordered(levels, 0, t);
        lemma_slice_end(levels, 0);
    }
}

/// Distinct nodes have distinct array indices.
pub proof fn lemma_node_index_injective(levels: nat, o1: nat, p1: nat, o2: nat, p2: nat)
    requires
        1 <= o1 <= levels,
        1 <= o2 <= levels,
        p1 < pow2((levels - o1) as nat),
        p2 < pow2((levels - o2) as nat),
        node_index(levels, o1, p1) == node_index(levels, o2, p2),
    ensures
        o1 == o2,
        p1 == p2,
{
    lemma_node_index(levels, o1, p1);
    lemma_node_index(levels, o2, p2);
    lemma_tier_of_order(levels, o1);
    lemma_tier_of_order(levels, o2);
    let t1 = tier_of_order(levels, o1);
    let t2 = tier_of_order(levels, o2);
    if t1 < t2 {
        lemma_slices_ordered(levels, t1, t2);
    } else if t2 < t1 {
        lemma_slices_ordered(levels, t2, t1);
    }
    assert(t1 == t2);
    let d1 = depth_in_subtree(levels, o1);
    let d2 = depth_in_subtree(levels, o2);
    lemma_mod_pos_bound(p1 as int, pow2(d1) as int);
    lemma_mod_pos_bound(p2 as int, pow2(d2) as int);
    if d1 < d2 {
        lemma_pow2_adds(d1, 1);
        lemma2_to64();
        lemma_pow2_le(d1 + 1, d2);
    } else if d2 < d1 {
        lemma_pow2_adds(d2, 1);
        lemma2_to64();
        lemma_pow2_le(d2 + 1, d1);
    }
    assert(d1 == d2);
}

/// The tiers below `tiers` hold every node of order below the top of tier
/// `tiers - 1`.
proof fn lemma_tiers_size(levels: nat, tiers: nat)
    requires
        1 <= tiers <= tier_count(levels),
    ensures
        tiers_size(levels, tiers) + slice_offset(levels, (tiers - 1) as nat) == tree_size(levels),
    decreases tiers,
{
    lemma_slice_end(levels, (tiers - 1) as nat);
    if tiers > 1 {
        lemma_tiers_size(levels, (tiers - 1) as nat);
    }
}

/// The nested layout has exactly as many slots as the flat tree has nodes,
/// whatever the height; in particular when the tier height divides it.
pub proof fn lemma_layout_size(levels: nat)
    ensures
        layout_size(levels) == tree_size(levels),
{
    if levels == 0 {
        lemma2_to64();
    } else {
        lemma_top_tier(levels);
        lemma_tiers_size(levels, tier_count(levels));
        lemma2_to64();
    }
}

/// Height of tier 0 for a tree of `levels` levels.
pub(crate) fn bottom_levels(levels: u8) -> (r: u8)
    ensures
        r == bottom_height(levels as nat),
{
    if levels % LEVELS_IN_SUBTREE == 0 {
        LEVELS_IN_SUBTREE
    } else {
        levels % LEVELS_IN_SUBTREE
    }
}

/// Order of the roots of tier `tier`'s sub-trees.
pub(crate) fn subtree_top(levels: u8, tier: u8) -> (r: u8)
    requires
        1 <= levels <= 64,
        tier < tier_count(levels as nat),
    ensures
        r == tier_top(levels as nat, tier as nat),
        r <= levels,
{
    bottom_levels(levels) + LEVELS_IN_SUBTREE * tier
}

/// Number of slots of the nested layout for a tree of `levels_in_tree`
/// levels: the sum, over the tiers, of sub-trees times nodes per sub-tree.
pub fn blocks_in_tree(levels_in_tree: u8) -> (r: usize)
    requires
        fits_usize(levels_in_tree as nat),
    ensures
        r == layout_size(levels_in_tree as nat),
        r == tree_size(levels_in_tree as nat),
{
    let ghost levels = levels_in_tree as nat;
    proof {
        lemma_fits_usize_bound(levels);
        lemma_layout_size(levels);
    }
    if levels_in_tree == 0 {
        return 0;
    }
    let bottom = bottom_levels(levels_in_tree);
    let tiers: u8 = (levels_in_tree + 5) / LEVELS_IN_SUBTREE;
    let mut total: usize = 0;
    let mut tier: u8 = 0;
    while tier < tiers
        invariant
            1 <= levels <= 64,
            levels == levels_in_tree,
            fits_usize(levels),
            tree_size(levels) <= usize::MAX,
            tiers == tier_count(levels),
            bottom == bottom_height(levels),
            tier <= tiers,
            total == tiers_size(levels, tier as nat),
            tier >= 1 ==> total + slice_offset(levels, (tier - 1) as nat) == tree_size(levels),
            layout_size(levels) == tree_size(levels),
        decreases tiers - tier,
    {
        let top = subtree_top(levels_in_tree, tier);
        proof {
            lemma_pow2_strictly_increases((levels - top) as nat, levels);
            assert(bottom <= levels);
            lemma_pow2_le(bottom as nat, levels);
            lemma_pow2_pos(bottom as nat);
            assert(tree_size(bottom as nat) <= tree_size(levels));
        }
        let count = pow2_exec(levels_in_tree - top);
        let size = if tier == 0 {
            flat_tree::blocks_in_tree(bottom)
        } else {
            proof {
                lemma2_to64();
            }
            SIZE_OF_SUBTREE
        };
        proof {
            lemma_slice_end(levels, tier as nat);
            lemma_tiers_size(levels, (tier + 1) as nat);
            lemma_pow2_pos(levels);
            if tier == 0 {
                lemma_pow2_le(bottom as nat, levels);
            } else {
                assert(pow2(6) == 64) by {
                    lemma2_to64();
                }
            }
            assert(count * size == slice_len(levels, tier as nat));
        }
        total = total + count * size;
        tier = tier + 1;
    }
    proof {
        lemma_top_tier(levels);
    }
    total
}

/// Sub-tree of tier `tier` that holds array index `index`.
pub open spec fn subtree_of(levels: nat, index: nat, tier: nat) -> int {
    (index - slice_offset(levels, tier)) / subtree_size(levels, tier) as int
}

/// Index of array index `index` inside its sub-tree of tier `tier`.
pub open spec fn local_of(levels: nat, index: nat, tier: nat) -> int {
    (index - slice_offset(levels, tier)) % subtree_size(levels, tier) as int
}

/// Array index of local index `local` in sub-tree `subtree` of tier `tier`.
pub open spec fn global_of(levels: nat, local: nat, subtree: nat, tier: nat) -> nat {
    slice_offset(levels, tier) + subtree * subtree_size(levels, tier) + local
}

/// How the parent of a node is found from the node's own place: inside its
/// sub-tree, or, from a sub-tree's root, on the bottom level of the tier above.
pub proof fn lemma_parent_index(levels: nat, order: nat, pos: nat)
    requires
        1 <= order < levels,
        pos < pow2((levels - order) as nat),
    ensures
        ({
            let t = tier_of_order(levels, order);
            let g = node_index(levels, order, pos);
            let s = subtree_of(levels, g, t);
            let local = local_of(levels, g, t);
            &&& pos / 2 < pow2((levels - (order + 1)) as nat)
            &&& local != 0 ==> tier_of_order(levels, order + 1) == t && node_index(
                levels,
                order + 1,
                pos / 2,
            ) == global_of(levels, parent_spec(local as nat), s as nat, t)
            &&& local == 0 ==> s == pos && t + 1 < tier_count(levels) && tier_of_order(
                levels,
                order + 1,
            ) == t + 1 && subtree_size(levels, t + 1) == SIZE_OF_SUBTREE
                && (pos / 2) / (LEAVES_IN_SUBTREE as nat) < subtree_count(levels, t + 1)
                && node_index(levels, order + 1, pos / 2) == global_of(
                levels,
                ((LEAVES_IN_SUBTREE - 1) as nat + (pos / 2) % (LEAVES_IN_SUBTREE as nat)) as nat,
                (pos / 2) / (LEAVES_IN_SUBTREE as nat),
                t + 1,
            )
        }),
{
    lemma_node_index(levels, order, pos);
    lemma_tier_of_order(levels, order);
    lemma_tier_of_order(levels, order + 1);
    let t = tier_of_order(levels, order);
    let d = depth_in_subtree(levels, order);
    let w = pow2(d);
    let q = pos % w;
    let s = pos / w;
    lemma_pow2_pos(d);
    lemma_mod_pos_bound(pos as int, w as int);
    lemma_fundamental_div_mod(pos as int, w as int);
    lemma2_to64();
    lemma_pow2_unfold((levels - order) as nat);
    assert(pos / 2 < pow2((levels - (order + 1)) as nat));
    lemma_node_index(levels, order + 1, pos / 2);
    if d > 0 {
        lemma_pow2_unfold(d);
        let w2 = pow2((d - 1) as nat);
        assert(w == 2 * w2);
        assert(pos / 2 == s * w2 + q / 2) by {
            assert(pos == (s * w2) * 2 + q) by (nonlinear_arith)
                requires
                    pos == w * s + q,
                    w == 2 * w2,
            ;
        }
        lemma_fundamental_div_mod_converse((pos / 2) as int, w2 as int, s as int, (q / 2) as int);
        assert(depth_in_subtree(levels, order + 1) == d - 1);
    } else {
        assert(w == 1);
        assert(s == pos);
        assert(depth_in_subtree(levels, order + 1) == 5);
        assert(tier_of_order(levels, order + 1) == t + 1);
    }
}

/// How the sibling of a node is found from the node's own place: inside its
/// sub-tree (whose local layout pairs `(odd, odd + 1)`), or, for a sub-tree's
/// root, as the root of the neighbouring sub-tree.
pub proof fn lemma_sibling_index(levels: nat, order: nat, pos: nat)
    requires
        1 <= order < levels,
        pos < pow2((levels - order) as nat),
    ensures
        ({
            let t = tier_of_order(levels, order);
            let g = node_index(levels, order, pos);
            let s = subtree_of(levels, g, t);
            let local = local_of(levels, g, t);
            &&& sibling_spec(pos) < pow2((levels - order) as nat)
            &&& local != 0 ==> node_index(levels, order, sibling_spec(pos)) == global_of(
                levels,
                (sibling_spec((local + 1) as nat) - 1) as nat,
                s as nat,
                t,
            )
            &&& local != 0 ==> (sibling_spec((local + 1) as nat) - 1) < subtree_size(levels, t)
                && s < subtree_count(levels, t)
            &&& local == 0 ==> s == pos && sibling_spec(pos) < subtree_count(levels, t)
                && node_index(levels, order, sibling_spec(pos)) == global_of(
                levels,
                0,
                sibling_spec(pos),
                t,
            )
        }),
{
    lemma_node_index(levels, order, pos);
    lemma_tier_of_order(levels, order);
    let t = tier_of_order(levels, order);
    let d = depth_in_subtree(levels, order);
    let w = pow2(d);
    let q = pos % w;
    let s = pos / w;
    lemma_pow2_pos(d);
    lemma_mod_pos_bound(pos as int, w as int);
    lemma_fundamental_div_mod(pos as int, w as int);
    lemma2_to64();
    lemma_pow2_unfold((levels - order) as nat);
    let sib = sibling_spec(pos);
    if d > 0 {
        lemma_pow2_unfold(d);
        let w2 = pow2((d - 1) as nat);
        assert(w == 2 * w2);
        assert(pos % 2 == q % 2) by {
            assert(pos == (s * w2) * 2 + q) by (nonlinear_arith)
                requires
                    pos == w * s + q,
                    w == 2 * w2,
            ;
        }
        let q2: int = if q % 2 == 0 { q as int + 1 } else { q as int - 1 };
        assert(sib == w * s + q2);
        lemma_fundamental_div_mod_converse(sib as int, w as int, s as int, q2);
        assert(sib < pow2((levels - order) as nat)) by {
            lemma_node_index(levels, order, pos);
            let c = (levels - tier_top(levels, t)) as nat;
            lemma_pow2_adds(c, d);
            assert(s < pow2(c));
            assert(sib < pow2(c) * w) by (nonlinear_arith)
                requires
                    sib == w * s + q2,
                    0 <= q2 < w,
                    s < pow2(c),
            ;
        }
        lemma_node_index(levels, order, sib);
    } else {
        assert(w == 1);
        assert(pos / w == pos / 1);
        assert(s == pos);
        lemma_node_index(levels, order, sib);
    }
}

/// The ancestor one order further up is the parent of the ancestor.
pub proof fn lemma_ancestor_step(order: nat, pos: nat, above: nat)
    requires
        order <= above,
    ensures
        pos / pow2((above + 1 - order) as nat) == (pos / pow2((above - order) as nat)) / 2,
        pos / pow2((order - order) as nat) == pos,
{
    let k = (above - order) as nat;
    lemma_pow2_pos(k);
    lemma_pow2_unfold(k + 1);
    lemma_div_denominator(pos as int, pow2(k) as int, 2);
    assert((above + 1 - order) as nat == k + 1);
    lemma2_to64();
    assert(pow2(0) == 1);
    assert(pos / pow2((order - order) as nat) == pos / 1);
}

/// An ancestor of a node is a node.
pub proof fn lemma_ancestor_bound(levels: nat, order: nat, pos: nat, above: nat)
    requires
        order <= above <= levels,
        pos < pow2((levels - order) as nat),
    ensures
        pos / pow2((above - order) as nat) < pow2((levels - above) as nat),
{
    let k = (above - order) as nat;
    let m = (levels - above) as nat;
    lemma_pow2_pos(k);
    lemma_pow2_adds(k, m);
    assert((levels - order) as nat == k + m);
    lemma_multiply_divide_lt(pos as int, pow2(k) as int, pow2(m) as int);
}

/// Splitting a slot of tier `tier` into sub-tree and local index, and
/// joining the two again, gives the slot back.
proof fn lemma_split_in_slice(levels: nat, tier: nat, index: nat)
    requires
        tier < tier_count(levels),
        in_slice(levels, tier, index),
    ensures
        0 <= local_of(levels, index, tier) < subtree_size(levels, tier),
        0 <= subtree_of(levels, index, tier) < subtree_count(levels, tier),
        global_of(
            levels,
            local_of(levels, index, tier) as nat,
            subtree_of(levels, index, tier) as nat,
            tier,
        ) == index,
{
    lemma_tier_of_order(levels, tier_top(levels, tier));
    let size = subtree_size(levels, tier);
    let rel = index - slice_offset(levels, tier);
    lemma_slice_end(levels, tier);
    lemma_pow2_pos(tier_height(levels, tier));
    lemma2_to64();
    lemma_pow2_le(1, tier_height(levels, tier));
    assert(size >= 1);
    lemma_mod_pos_bound(rel, size as int);
    lemma_fundamental_div_mod(rel, size as int);
    assert(rel < size * subtree_count(levels, tier)) by (nonlinear_arith)
        requires
            rel < subtree_count(levels, tier) * size,
    ;
    lemma_multiply_divide_lt(rel, size as int, subtree_count(levels, tier) as int);
    lemma_div_pos_is_pos(rel, size as int);
    let sub = rel / size as int;
    let loc = rel % size as int;
    assert(sub * size + loc == rel) by (nonlinear_arith)
        requires
            rel == size * sub + loc,
    ;
}

/// Some tier at or above `tier` holds `index`, when `index` comes before
/// the end of tier `tier`'s slice.
proof fn lemma_find_tier(levels: nat, index: nat, tier: nat)
    requires
        tier < tier_count(levels),
        index < slice_offset(levels, tier) + slice_len(levels, tier),
    ensures
        exists|t: nat| t < tier_count(levels) && #[trigger] in_slice(levels, t, index),
    decreases tier_count(levels) - tier,
{
    if index >= slice_offset(levels, tier) {
        assert(in_slice(levels, tier, index));
    } else {
        lemma_top_tier(levels);
        if tier + 1 == tier_count(levels) {
            lemma2_to64();
        } else {
            lemma_slice_end(levels, tier + 1);
            lemma_find_tier(levels, index, tier + 1);
        }
    }
}

/// Every slot of a tree of `levels` levels lies in the slice of a tier, and
/// splitting it there into local index and sub-tree, and joining the two
/// again, gives the slot back.
pub proof fn lemma_split_join(levels: nat, index: nat)
    requires
        levels >= 1,
        index < tree_size(levels),
    ensures
        exists|t: nat|
            t < tier_count(levels) && #[trigger] in_slice(levels, t, index) && 0 <= local_of(
                levels,
                index,
                t,
            ) < subtree_size(levels, t) && 0 <= subtree_of(levels, index, t) < subtree_count(
                levels,
                t,
            ) && global_of(
                levels,
                local_of(levels, index, t) as nat,
                subtree_of(levels, index, t) as nat,
                t,
            ) == index,
{
    lemma_top_tier(levels);
    lemma_slice_end(levels, 0);
    lemma_find_tier(levels, index, 0);
    let t = choose|t: nat| t < tier_count(levels) && #[trigger] in_slice(levels, t, index);
    lemma_split_in_slice(levels, t, index);
}

/// Joining a local index and a sub-tree of a tier into a slot, and
/// splitting the slot again, gives the two back.
pub proof fn lemma_join_split(levels: nat, local: nat, subtree: nat, tier: nat)
    requires
        tier < tier_count(levels),
        local < subtree_size(levels, tier),
        subtree < subtree_count(levels, tier),
    ensures
        in_slice(levels, tier, global_of(levels, local, subtree, tier)),
        local_of(levels, global_of(levels, local, subtree, tier), tier) == local,
        subtree_of(levels, global_of(levels, local, subtree, tier), tier) == subtree,
{
    let size = subtree_size(levels, tier);
    let rel = subtree * size + local;
    assert(rel < subtree_count(levels, tier) * size) by (nonlinear_arith)
        requires
            subtree < subtree_count(levels, tier),
            local < size,
            rel == subtree * size + local,
    ;
    lemma_fundamental_div_mod_converse(rel as int, size as int, subtree as int, local as int);
}

} // verus!
