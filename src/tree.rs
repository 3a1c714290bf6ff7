//! The tree of blocks: a fixed array laid out in tiers of sub-trees, with
//! the index arithmetic of that layout and the upward propagation of free
//! orders.

use vstd::prelude::*;
use vstd::arithmetic::power2::{pow2, lemma2_to64, lemma_pow2_pos, lemma_pow2_unfold, lemma_pow2_strictly_increases};
use crate::block::{Block, merged_order};
use crate::flat_tree::{self, sibling_spec, tree_size, fits_usize, lemma_fits_usize_bound};
use crate::nested_tree::{
    LEVELS_IN_SUBTREE, SIZE_OF_SUBTREE, LEAVES_IN_SUBTREE, bottom_levels, subtree_top,
    tier_count, tier_of_order, tier_top, subtree_count, subtree_size, slice_offset, subtree_of,
    local_of, global_of, node_index, node_position, is_node_index, lemma_tier_of_order,
    lemma_slice_end, lemma_node_index, lemma_parent_index, lemma_sibling_index,
    lemma_node_index_injective, lemma_pow2_le, tier_height, lemma_slices_ordered, lemma_ancestor_step, lemma_ancestor_bound,
};

verus! {

/// Position of a node in the whole array.
#[derive(Clone, Copy, Debug)]
pub struct GlobalIndex(pub usize);

/// Position of a node inside its own sub-tree; 0 is the sub-tree's root.
#[derive(Clone, Copy, Debug)]
pub struct LocalIndex(pub usize);

impl LocalIndex {
    pub fn is_root(&self) -> (r: bool)
        ensures
            r == (self.0 == 0),
    {
        self.0 == 0
    }
}

/// Which sub-tree of a tier, counted from the left.
#[derive(Clone, Copy, Debug)]
pub struct SubtreeIndex(pub usize);

/// Size class of a node: 1 for a leaf, growing toward the root.
#[derive(Clone, Copy, Debug)]
pub struct Order(pub u8);

/// Tier of the nested layout: 0 next to the leaves, growing toward the root.
#[derive(Clone, Copy, Debug)]
pub struct SubtreeOrder(pub u8);

/// A tree of `LEVELS` levels of blocks.
pub struct Tree<const LEVELS: u8> {
    blocks: Vec<Block>,
}

impl<const LEVELS: u8> View for Tree<LEVELS> {
    type V = Seq<Block>;

    closed spec fn view(&self) -> Seq<Block> {
        self.blocks@
    }
}

impl<const LEVELS: u8> Tree<LEVELS> {
    /// The height can be laid out and counted in a `usize`.
    pub open spec fn valid_height() -> bool {
        1 <= LEVELS && fits_usize(LEVELS as nat)
    }

    pub open spec fn well_formed(&self) -> bool {
        &&& Self::valid_height()
        &&& self@.len() == tree_size(LEVELS as nat)
    }

    /// Whether `(order, pos)` names a node: `pos` counts from the left on
    /// the level of blocks of order `order`.
    pub open spec fn is_node(order: nat, pos: nat) -> bool {
        1 <= order <= LEVELS && pos < pow2((LEVELS - order) as nat)
    }

    /// Free order recorded at the node `(order, pos)`.
    pub open spec fn value(&self, order: nat, pos: nat) -> u8 {
        Self::value_in(self@, order, pos)
    }

    /// No node records an order above its own.
    pub open spec fn orders_bounded(&self) -> bool {
        Self::bounded_in(self@)
    }

    /// No node of `blocks` records an order above its own.
    pub open spec fn bounded_in(blocks: Seq<Block>) -> bool {
        forall|o: nat, p: nat| #[trigger] Self::is_node(o, p) ==> Self::value_in(blocks, o, p) <= o
    }

    /// Every inner node records the merge of its two children.
    pub open spec fn consistent(&self) -> bool {
        Self::consistent_in(self@)
    }

    /// Every inner node of `blocks` records the merge of its two children.
    pub open spec fn consistent_in(blocks: Seq<Block>) -> bool {
        forall|o: nat, p: nat|
            #[trigger] Self::is_node(o, p) && o > 1 ==> Self::value_in(blocks, o, p)
                == merged_order(
                Self::value_in(blocks, (o - 1) as nat, 2 * p),
                Self::value_in(blocks, (o - 1) as nat, 2 * p + 1),
            )
    }

    /// Every inner node of `blocks` but the ancestors of `(order, pos)`
    /// records the merge of its two children: the state after the node
    /// `(order, pos)` alone was changed in a consistent tree.
    pub open spec fn consistent_off_path(blocks: Seq<Block>, order: nat, pos: nat) -> bool {
        forall|o: nat, p: nat|
            #[trigger] Self::is_node(o, p) && o > 1 && !(o > order && p == Self::ancestor(
                order,
                pos,
                o,
            )) ==> Self::value_in(blocks, o, p) == merged_order(
                Self::value_in(blocks, (o - 1) as nat, 2 * p),
                Self::value_in(blocks, (o - 1) as nat, 2 * p + 1),
            )
    }

    /// Free order that `blocks` records at the node `(order, pos)`.
    pub open spec fn value_in(blocks: Seq<Block>, order: nat, pos: nat) -> u8 {
        blocks[node_index(LEVELS as nat, order, pos) as int].order_free
    }

    /// Position of the ancestor of order `above` of the node `(order, pos)`.
    pub open spec fn ancestor(order: nat, pos: nat, above: nat) -> nat {
        pos / pow2((above - order) as nat)
    }

    /// Whether array index `i` holds an ancestor of the node `(order, pos)`
    /// of order at most `top`.
    pub open spec fn holds_ancestor(i: int, order: nat, pos: nat, top: nat) -> bool {
        exists|o: nat|
            order < o <= top && i == #[trigger] node_index(
                LEVELS as nat,
                o,
                Self::ancestor(order, pos, o),
            )
    }

    /// Outside the ancestors of `(order, pos)` up to order `top`, `after`
    /// holds what `before` holds.
    pub open spec fn unchanged_off_path(
        before: Seq<Block>,
        after: Seq<Block>,
        order: nat,
        pos: nat,
        top: nat,
    ) -> bool {
        forall|i: int|
            0 <= i < before.len() && !Self::holds_ancestor(i, order, pos, top) ==> after[i]
                == before[i]
    }

    /// Each ancestor of `(order, pos)` up to order `top` records, in
    /// `blocks`, the merge of its two children.
    pub open spec fn merged_on_path(blocks: Seq<Block>, order: nat, pos: nat, top: nat) -> bool {
        forall|o: nat|
            order < o <= top ==> #[trigger] Self::value_in(blocks, o, Self::ancestor(order, pos, o))
                == merged_order(
                Self::value_in(blocks, (o - 1) as nat, 2 * Self::ancestor(order, pos, o)),
                Self::value_in(blocks, (o - 1) as nat, 2 * Self::ancestor(order, pos, o) + 1),
            )
    }

    /// `after` is `before` with the ancestors of the node `(order, pos)`, up
    /// to order `top`, recomputed from the bottom up by the merge rule, and
    /// nothing else changed.
    pub open spec fn propagated_to(
        before: Seq<Block>,
        after: Seq<Block>,
        order: nat,
        pos: nat,
        top: nat,
    ) -> bool {
        &&& after.len() == before.len()
        &&& Self::unchanged_off_path(before, after, order, pos, top)
        &&& Self::merged_on_path(after, order, pos, top)
    }

    /// `after` is `before` with every ancestor of the node `(order, pos)`
    /// recomputed, up to the root.
    pub open spec fn propagated(before: Seq<Block>, after: Seq<Block>, order: nat, pos: nat) -> bool {
        Self::propagated_to(before, after, order, pos, LEVELS as nat)
    }

    pub fn subtree_order(order: Order) -> (r: SubtreeOrder)
        requires
            Self::valid_height(),
            1 <= order.0 <= LEVELS,
        ensures
            r.0 == tier_of_order(LEVELS as nat, order.0 as nat),
            r.0 < tier_count(LEVELS as nat),
    {
        proof {
            lemma_tier_of_order(LEVELS as nat, order.0 as nat);
        }
        let bottom = bottom_levels(LEVELS);
        SubtreeOrder(
            if order.0 <= bottom {
                0
            } else {
                (order.0 - bottom - 1) / LEVELS_IN_SUBTREE + 1
            },
        )
    }

    pub fn subtree_slice_offset(subtree_order: SubtreeOrder) -> (r: usize)
        requires
            Self::valid_height(),
            subtree_order.0 < tier_count(LEVELS as nat),
        ensures
            r == slice_offset(LEVELS as nat, subtree_order.0 as nat),
    {
        proof {
            lemma_fits_usize_bound(LEVELS as nat);
            lemma_slice_end(LEVELS as nat, subtree_order.0 as nat);
            let c = (LEVELS - tier_top(LEVELS as nat, subtree_order.0 as nat)) as nat;
            lemma_pow2_le(c, LEVELS as nat);
            lemma_pow2_pos(c);
            assert(tree_size(c) <= tree_size(LEVELS as nat));
        }
        let top = subtree_top(LEVELS, subtree_order.0);
        flat_tree::blocks_in_tree(LEVELS - top)
    }

    pub fn size_of_subtree(subtree_order: SubtreeOrder) -> (r: usize)
        requires
            Self::valid_height(),
            subtree_order.0 < tier_count(LEVELS as nat),
        ensures
            r == subtree_size(LEVELS as nat, subtree_order.0 as nat),
    {
        proof {
            lemma_fits_usize_bound(LEVELS as nat);
            lemma2_to64();
        }
        if subtree_order.0 == 0 {
            let bottom = bottom_levels(LEVELS);
            proof {
                lemma_pow2_le(bottom as nat, LEVELS as nat);
                lemma_pow2_pos(bottom as nat);
                assert(tree_size(bottom as nat) <= tree_size(LEVELS as nat));
            }
            flat_tree::blocks_in_tree(bottom)
        } else {
            SIZE_OF_SUBTREE
        }
    }

    pub fn subtree_idx(idx: GlobalIndex, subtree_order: SubtreeOrder) -> (r: SubtreeIndex)
        requires
            Self::valid_height(),
            subtree_order.0 < tier_count(LEVELS as nat),
            slice_offset(LEVELS as nat, subtree_order.0 as nat) <= idx.0,
        ensures
            r.0 == subtree_of(LEVELS as nat, idx.0 as nat, subtree_order.0 as nat),
    {
        proof {
            lemma_pow2_pos(
                tier_height(LEVELS as nat, subtree_order.0 as nat),
            );
            lemma2_to64();
        }
        let subtree_slice_idx = idx.0 - Self::subtree_slice_offset(subtree_order);
        SubtreeIndex(subtree_slice_idx / Self::size_of_subtree(subtree_order))
    }

    pub fn local_idx(idx: GlobalIndex, subtree_order: SubtreeOrder) -> (r: LocalIndex)
        requires
            Self::valid_height(),
            subtree_order.0 < tier_count(LEVELS as nat),
            slice_offset(LEVELS as nat, subtree_order.0 as nat) <= idx.0,
        ensures
            r.0 == local_of(LEVELS as nat, idx.0 as nat, subtree_order.0 as nat),
    {
        proof {
            lemma2_to64();
        }
        let subtree_slice_idx = idx.0 - Self::subtree_slice_offset(subtree_order);
        LocalIndex(subtree_slice_idx % Self::size_of_subtree(subtree_order))
    }

    pub fn global_idx(
        local_idx: LocalIndex,
        subtree_idx: SubtreeIndex,
        subtree_order: SubtreeOrder,
    ) -> (r: GlobalIndex)
        requires
            Self::valid_height(),
            subtree_order.0 < tier_count(LEVELS as nat),
            local_idx.0 < subtree_size(LEVELS as nat, subtree_order.0 as nat),
            subtree_idx.0 < subtree_count(LEVELS as nat, subtree_order.0 as nat),
        ensures
            r.0 == global_of(
                LEVELS as nat,
                local_idx.0 as nat,
                subtree_idx.0 as nat,
                subtree_order.0 as nat,
            ),
            r.0 < tree_size(LEVELS as nat),
    {
        let ghost t = subtree_order.0 as nat;
        let ghost size = subtree_size(LEVELS as nat, t);
        proof {
            lemma_fits_usize_bound(LEVELS as nat);
            lemma_slice_end(LEVELS as nat, t);
            if t > 0 {
                lemma_slices_ordered(LEVELS as nat, 0, t);
                lemma_slice_end(LEVELS as nat, 0);
            }
            assert(subtree_idx.0 * size + local_idx.0 < subtree_count(LEVELS as nat, t) * size)
                by (nonlinear_arith)
                requires
                    subtree_idx.0 < subtree_count(LEVELS as nat, t),
                    local_idx.0 < size,
            ;
        }
        let subtree_slice_offset = Self::subtree_slice_offset(subtree_order);
        GlobalIndex(
            subtree_idx.0 * Self::size_of_subtree(subtree_order) + local_idx.0 + subtree_slice_offset,
        )
    }

    /// Array index of the parent of the node of order `order` at `idx`.
    pub fn parent(idx: GlobalIndex, order: Order) -> (r: GlobalIndex)
        requires
            Self::valid_height(),
            order.0 < LEVELS,
            is_node_index(LEVELS as nat, idx.0 as nat, order.0 as nat),
        ensures
            r.0 == node_index(
                LEVELS as nat,
                (order.0 + 1) as nat,
                (node_position(LEVELS as nat, idx.0 as nat, order.0 as nat) / 2) as nat,
            ),
            is_node_index(LEVELS as nat, r.0 as nat, (order.0 + 1) as nat),
    {
        let ghost pos = node_position(LEVELS as nat, idx.0 as nat, order.0 as nat) as nat;
        proof {
            lemma_node_index(LEVELS as nat, order.0 as nat, pos);
            lemma_parent_index(LEVELS as nat, order.0 as nat, pos);
            lemma_node_index(LEVELS as nat, (order.0 + 1) as nat, pos / 2);
            lemma2_to64();
        }
        let subtree_order = Self::subtree_order(order);
        let local_idx = Self::local_idx(idx, subtree_order);
        let subtree_idx = Self::subtree_idx(idx, subtree_order);
        if local_idx.is_root() {
            // The root of a sub-tree hangs from the bottom level of a
            // sub-tree of the tier above.
            let up = subtree_idx.0 / 2;
            Self::global_idx(
                LocalIndex(LEAVES_IN_SUBTREE - 1 + up % LEAVES_IN_SUBTREE),
                SubtreeIndex(up / LEAVES_IN_SUBTREE),
                SubtreeOrder(subtree_order.0 + 1),
            )
        } else {
            Self::global_idx(LocalIndex(flat_tree::parent_of(local_idx.0)), subtree_idx, subtree_order)
        }
    }

    /// Array index of the buddy of the node of order `order` at `idx`.
    pub fn sibling(idx: GlobalIndex, order: Order) -> (r: GlobalIndex)
        requires
            Self::valid_height(),
            order.0 < LEVELS,
            is_node_index(LEVELS as nat, idx.0 as nat, order.0 as nat),
        ensures
            r.0 == node_index(
                LEVELS as nat,
                order.0 as nat,
                sibling_spec(node_position(LEVELS as nat, idx.0 as nat, order.0 as nat) as nat),
            ),
            is_node_index(LEVELS as nat, r.0 as nat, order.0 as nat),
    {
        let ghost pos = node_position(LEVELS as nat, idx.0 as nat, order.0 as nat) as nat;
        proof {
            lemma_node_index(LEVELS as nat, order.0 as nat, pos);
            lemma_sibling_index(LEVELS as nat, order.0 as nat, pos);
            lemma_fits_usize_bound(LEVELS as nat);
            lemma_node_index(LEVELS as nat, order.0 as nat, sibling_spec(pos));
        }
        let subtree_order = Self::subtree_order(order);
        let subtree_idx = Self::subtree_idx(idx, subtree_order);
        let local_idx = Self::local_idx(idx, subtree_order);
        if local_idx.is_root() {
            let sibling_subtree_idx = SubtreeIndex(flat_tree::sibling_of(subtree_idx.0));
            Self::global_idx(LocalIndex(0), sibling_subtree_idx, subtree_order)
        } else {
            // A sub-tree's own layout starts at 0, so its buddies pair up as
            // `(odd, odd + 1)`: pair them by the position counted from 1.
            let sibling_local = LocalIndex(flat_tree::sibling_of(local_idx.0 + 1) - 1);
            Self::global_idx(sibling_local, subtree_idx, subtree_order)
        }
    }

    /// Array index of the node of order `order` at position `pos` of its
    /// level, counted from the left.
    pub fn index_of(order: Order, pos: usize) -> (r: GlobalIndex)
        requires
            Self::valid_height(),
            Self::is_node(order.0 as nat, pos as nat),
        ensures
            r.0 == node_index(LEVELS as nat, order.0 as nat, pos as nat),
            r.0 < tree_size(LEVELS as nat),
            is_node_index(LEVELS as nat, r.0 as nat, order.0 as nat),
    {
        proof {
            lemma_node_index(LEVELS as nat, order.0 as nat, pos as nat);
            lemma_tier_of_order(LEVELS as nat, order.0 as nat);
            lemma_fits_usize_bound(LEVELS as nat);
            lemma2_to64();
        }
        let subtree_order = Self::subtree_order(order);
        let depth = subtree_top(LEVELS, subtree_order.0) - order.0;
        proof {
            lemma_pow2_le(depth as nat, 6);
        }
        let width = flat_tree::pow2_exec(depth);
        Self::global_idx(
            LocalIndex(width - 1 + pos % width),
            SubtreeIndex(pos / width),
            subtree_order,
        )
    }

    /// The block at `idx`.
    pub fn get(&self, idx: GlobalIndex) -> (r: Block)
        requires
            idx.0 < self@.len(),
        ensures
            r == self@[idx.0 as int],
    {
        self.blocks[idx.0]
    }

    /// Overwrites the block at `idx`; nothing above it is updated.
    pub fn set(&mut self, idx: GlobalIndex, block: Block)
        requires
            idx.0 < old(self)@.len(),
        ensures
            final(self)@ == old(self)@.update(idx.0 as int, block),
    {
        self.blocks.set(idx.0, block);
    }

    /// Writes at `idx` the merge of the children blocks `left` and `right`.
    pub fn merge_from_children(&mut self, idx: GlobalIndex, left: Block, right: Block)
        requires
            idx.0 < old(self)@.len(),
            merged_order(left.order_free, right.order_free) <= u8::MAX,
        ensures
            final(self)@ == old(self)@.update(
                idx.0 as int,
                Block { order_free: merged_order(left.order_free, right.order_free) as u8 },
            ),
    {
        let merged = if left == right && !left.is_used() {
            left.add(1)
        } else if left.order_free >= right.order_free {
            left
        } else {
            right
        };
        self.blocks.set(idx.0, merged);
    }

    /// One step of the upward walk: writing the merge at the parent of the
    /// ancestor of order `o` extends the recomputed chain by one order.
    proof fn lemma_propagate_step(
        before: Seq<Block>,
        cur: Seq<Block>,
        new: Seq<Block>,
        order: nat,
        pos: nat,
        o: nat,
    )
        requires
            Self::valid_height(),
            before.len() == tree_size(LEVELS as nat),
            1 <= order <= o < LEVELS,
            pos < pow2((LEVELS - order) as nat),
            Self::propagated_to(before, cur, order, pos, o),
            Self::bounded_in(cur),
            new == cur.update(
                node_index(LEVELS as nat, o + 1, Self::ancestor(order, pos, o + 1)) as int,
                Block {
                    order_free: merged_order(
                        Self::value_in(cur, o, Self::ancestor(order, pos, o)),
                        Self::value_in(cur, o, sibling_spec(Self::ancestor(order, pos, o))),
                    ) as u8,
                },
            ),
            merged_order(
                Self::value_in(cur, o, Self::ancestor(order, pos, o)),
                Self::value_in(cur, o, sibling_spec(Self::ancestor(order, pos, o))),
            ) <= o + 1,
        ensures
            Self::propagated_to(before, new, order, pos, o + 1),
            Self::bounded_in(new),
    {
        let levels = LEVELS as nat;
        let anc = Self::ancestor(order, pos, o);
        let par = Self::ancestor(order, pos, o + 1);
        lemma_ancestor_step(order, pos, o);
        lemma_ancestor_bound(levels, order, pos, o);
        lemma_ancestor_bound(levels, order, pos, o + 1);
        let merged = Block {
            order_free: merged_order(
                Self::value_in(cur, o, anc),
                Self::value_in(cur, o, sibling_spec(anc)),
            ) as u8,
        };
        Self::lemma_write_node(cur, o + 1, par, merged);
        Self::lemma_step_frame(before, cur, new, order, pos, o);
        Self::lemma_step_merged(cur, new, order, pos, o);
        Self::lemma_step_bounded(cur, new, o + 1, par);
    }

    /// After the step, the chain of merges reaches order `o + 1`.
    proof fn lemma_step_merged(cur: Seq<Block>, new: Seq<Block>, order: nat, pos: nat, o: nat)
        requires
            1 <= order <= o < LEVELS,
            pos < pow2((LEVELS - order) as nat),
            Self::merged_on_path(cur, order, pos, o),
            Self::ancestor(order, pos, o + 1) == Self::ancestor(order, pos, o) / 2,
            Self::value_in(new, o + 1, Self::ancestor(order, pos, o + 1)) == merged_order(
                Self::value_in(cur, o, Self::ancestor(order, pos, o)),
                Self::value_in(cur, o, sibling_spec(Self::ancestor(order, pos, o))),
            ),
            forall|o2: nat, p2: nat|
                #[trigger] Self::is_node(o2, p2) && (o2 != o + 1 || p2 != Self::ancestor(
                    order,
                    pos,
                    o + 1,
                )) ==> Self::value_in(new, o2, p2) == Self::value_in(cur, o2, p2),
        ensures
            Self::merged_on_path(new, order, pos, o + 1),
    {
        let levels = LEVELS as nat;
        assert forall|o2: nat| order < o2 <= o + 1 implies #[trigger] Self::value_in(
            new,
            o2,
            Self::ancestor(order, pos, o2),
        ) == merged_order(
            Self::value_in(new, (o2 - 1) as nat, 2 * Self::ancestor(order, pos, o2)),
            Self::value_in(new, (o2 - 1) as nat, 2 * Self::ancestor(order, pos, o2) + 1),
        ) by {
            let a2 = Self::ancestor(order, pos, o2);
            lemma_ancestor_bound(levels, order, pos, o2);
            lemma_pow2_unfold((levels - (o2 - 1)) as nat);
            assert((levels - (o2 - 1)) as nat == (levels - o2) as nat + 1);
            assert(Self::is_node((o2 - 1) as nat, 2 * a2));
            assert(Self::is_node((o2 - 1) as nat, 2 * a2 + 1));
            if o2 <= o {
                assert(Self::is_node(o2, a2));
            }
        }
    }

    /// After the step, no node records an order above its own.
    proof fn lemma_step_bounded(cur: Seq<Block>, new: Seq<Block>, o: nat, p: nat)
        requires
            Self::bounded_in(cur),
            Self::value_in(new, o, p) <= o,
            forall|o2: nat, p2: nat|
                #[trigger] Self::is_node(o2, p2) && (o2 != o || p2 != p) ==> Self::value_in(
                    new,
                    o2,
                    p2,
                ) == Self::value_in(cur, o2, p2),
        ensures
            Self::bounded_in(new),
    {
        assert forall|o2: nat, p2: nat| #[trigger] Self::is_node(o2, p2) implies Self::value_in(
            new,
            o2,
            p2,
        ) <= o2 by {
            if o2 != o || p2 != p {
                assert(Self::value_in(cur, o2, p2) <= o2);
            }
        }
    }

    /// The only index the step writes holds the ancestor of order `o + 1`.
    proof fn lemma_step_frame(
        before: Seq<Block>,
        cur: Seq<Block>,
        new: Seq<Block>,
        order: nat,
        pos: nat,
        o: nat,
    )
        requires
            order <= o,
            before.len() == cur.len(),
            forall|i: int|
                0 <= i < before.len() && !Self::holds_ancestor(i, order, pos, o) ==> cur[i]
                    == before[i],
            0 <= node_index(LEVELS as nat, o + 1, Self::ancestor(order, pos, o + 1)) < cur.len(),
            new.len() == cur.len(),
            forall|i: int|
                0 <= i < cur.len() && i != node_index(
                    LEVELS as nat,
                    o + 1,
                    Self::ancestor(order, pos, o + 1),
                ) ==> new[i] == cur[i],
        ensures
            forall|i: int|
                0 <= i < before.len() && !Self::holds_ancestor(i, order, pos, o + 1) ==> new[i]
                    == before[i],
    {
        assert forall|i: int|
            0 <= i < before.len() && !Self::holds_ancestor(i, order, pos, o + 1) implies new[i]
            == before[i] by {
            if Self::holds_ancestor(i, order, pos, o) {
                let o2 = choose|o2: nat|
                    order < o2 <= o && i == #[trigger] node_index(
                        LEVELS as nat,
                        o2,
                        Self::ancestor(order, pos, o2),
                    );
                assert(Self::holds_ancestor(i, order, pos, o + 1));
            }
            if i == node_index(LEVELS as nat, o + 1, Self::ancestor(order, pos, o + 1)) {
                assert(Self::holds_ancestor(i, order, pos, o + 1));
            }
        }
    }

    /// Recomputes, from the node of order `order` at `index` up to the
    /// root, each ancestor's free order from its two children.
    pub fn update_blocks_above(&mut self, index: GlobalIndex, order: Order)
        requires
            old(self).well_formed(),
            old(self).orders_bounded(),
            is_node_index(LEVELS as nat, index.0 as nat, order.0 as nat),
        ensures
            final(self).well_formed(),
            final(self).orders_bounded(),
            Self::propagated(
                old(self)@,
                final(self)@,
                order.0 as nat,
                node_position(LEVELS as nat, index.0 as nat, order.0 as nat) as nat,
            ),
    {
        let ghost levels = LEVELS as nat;
        let ghost start = order.0 as nat;
        let ghost pos = node_position(levels, index.0 as nat, start) as nat;
        let ghost before = self@;
        proof {
            lemma_ancestor_step(start, pos, start);
        }
        let mut idx = index;
        let mut o: u8 = order.0;
        while o < LEVELS
            invariant
                self.well_formed(),
                self.orders_bounded(),
                before.len() == self@.len(),
                1 <= start <= o <= LEVELS,
                start == order.0,
                pos < pow2((levels - start) as nat),
                levels == LEVELS,
                is_node_index(levels, idx.0 as nat, o as nat),
                node_position(levels, idx.0 as nat, o as nat) == Self::ancestor(start, pos, o as nat),
                Self::propagated_to(before, self@, start, pos, o as nat),
            decreases LEVELS - o,
        {
            let ghost cur = self@;
            let ghost anc = Self::ancestor(start, pos, o as nat);
            proof {
                lemma_node_index(levels, o as nat, anc);
                lemma_ancestor_step(start, pos, o as nat);
                lemma_ancestor_bound(levels, start, pos, o as nat);
                lemma_sibling_index(levels, o as nat, anc);
                lemma_parent_index(levels, o as nat, anc);
                lemma_node_index(levels, o as nat, sibling_spec(anc));
                lemma_node_index(levels, (o + 1) as nat, anc / 2);
                assert(Self::is_node(o as nat, anc));
                assert(Self::is_node(o as nat, sibling_spec(anc)));
            }
            let block = self.get(idx);
            let sibling_idx = Self::sibling(idx, Order(o));
            let sibling = self.get(sibling_idx);
            let parent_idx = Self::parent(idx, Order(o));
            self.merge_from_children(parent_idx, block, sibling);
            proof {
                Self::lemma_propagate_step(before, cur, self@, start, pos, o as nat);
                lemma_ancestor_bound(levels, start, pos, (o + 1) as nat);
                lemma_node_index(levels, (o + 1) as nat, Self::ancestor(start, pos, (o + 1) as nat));
            }
            idx = parent_idx;
            o = o + 1;
        }
    }

    /// Writing at the node `(order, pos)` leaves every other node as it was.
    proof fn lemma_write_node(blocks: Seq<Block>, order: nat, pos: nat, block: Block)
        requires
            Self::valid_height(),
            blocks.len() == tree_size(LEVELS as nat),
            Self::is_node(order, pos),
        ensures
            node_index(LEVELS as nat, order, pos) < blocks.len(),
            Self::value_in(
                blocks.update(node_index(LEVELS as nat, order, pos) as int, block),
                order,
                pos,
            ) == block.order_free,
            forall|o: nat, p: nat|
                #[trigger] Self::is_node(o, p) && (o != order || p != pos) ==> Self::value_in(
                    blocks.update(node_index(LEVELS as nat, order, pos) as int, block),
                    o,
                    p,
                ) == Self::value_in(blocks, o, p),
    {
        lemma_node_index(LEVELS as nat, order, pos);
        assert forall|o: nat, p: nat|
            #[trigger] Self::is_node(o, p) && (o != order || p != pos) implies Self::value_in(
            blocks.update(node_index(LEVELS as nat, order, pos) as int, block),
            o,
            p,
        ) == Self::value_in(blocks, o, p) by {
            lemma_node_index(LEVELS as nat, o, p);
            if node_index(LEVELS as nat, o, p) == node_index(LEVELS as nat, order, pos) {
                lemma_node_index_injective(LEVELS as nat, o, p, order, pos);
            }
        }
    }

    /// Takes `blocks` as the tree's storage and marks the whole tree free:
    /// each leaf records order 1, each node above the merge of its children.
    pub fn new_free(blocks: Vec<Block>) -> (r: Self)
        requires
            Self::valid_height(),
            blocks@.len() == tree_size(LEVELS as nat),
        ensures
            r.well_formed(),
            r.orders_bounded(),
            r.consistent(),
            forall|o: nat, p: nat| #[trigger] Self::is_node(o, p) ==> r.value(o, p) == o,
    {
        let ghost levels = LEVELS as nat;
        let mut tree = Tree { blocks };
        proof {
            lemma_fits_usize_bound(levels);
            lemma_pow2_strictly_increases((levels - 1) as nat, levels);
        }
        let leaves = flat_tree::pow2_exec(LEVELS - 1);
        let mut p: usize = 0;
        while p < leaves
            invariant
                tree.well_formed(),
                leaves == pow2((levels - 1) as nat),
                tree_size(levels) <= usize::MAX,
                levels == LEVELS,
                p <= leaves,
                forall|p2: nat| p2 < p ==> #[trigger] Self::value_in(tree@, 1, p2) == 1,
            decreases leaves - p,
        {
            let idx = Self::index_of(Order(1), p);
            let ghost prev = tree@;
            proof {
                Self::lemma_write_node(prev, 1, p as nat, Block { order_free: 1 });
            }
            tree.set(idx, Block { order_free: 1 });
            proof {
                assert forall|p2: nat| p2 < p + 1 implies #[trigger] Self::value_in(tree@, 1, p2) == 1 by {
                    assert(Self::is_node(1, p2));
                    if p2 < p {
                        assert(Self::value_in(prev, 1, p2) == 1);
                    }
                }
            }
            p = p + 1;
        }
        let mut o: u8 = 2;
        while o <= LEVELS
            invariant
                tree.well_formed(),
                levels == LEVELS,
                2 <= o <= LEVELS + 1,
                LEVELS <= 64,
                tree_size(levels) <= usize::MAX,
                forall|o2: nat, p2: nat|
                    #[trigger] Self::is_node(o2, p2) && o2 < o ==> Self::value_in(tree@, o2, p2) == o2,
            decreases LEVELS + 1 - o,
        {
            proof {
                lemma_pow2_le((levels - o) as nat, levels);
                lemma_pow2_strictly_increases((levels - o) as nat, levels);
            }
            let count = flat_tree::pow2_exec(LEVELS - o);
            let mut p: usize = 0;
            while p < count
                invariant
                    tree.well_formed(),
                    levels == LEVELS,
                    2 <= o <= LEVELS,
                    LEVELS <= 64,
                    tree_size(levels) <= usize::MAX,
                    count == pow2((levels - o) as nat),
                    p <= count,
                    forall|o2: nat, p2: nat|
                        #[trigger] Self::is_node(o2, p2) && o2 < o ==> Self::value_in(tree@, o2, p2) == o2,
                    forall|p2: nat| p2 < p ==> #[trigger] Self::value_in(tree@, o as nat, p2) == o,
                decreases count - p,
            {
                proof {
                    lemma_pow2_unfold((levels - (o - 1)) as nat);
                    assert((levels - (o - 1)) as nat == (levels - o) as nat + 1);
                    assert(Self::is_node((o - 1) as nat, 2 * p as nat));
                    assert(Self::is_node((o - 1) as nat, 2 * p as nat + 1));
                    lemma_pow2_le((levels - (o - 1)) as nat, (levels - 1) as nat);
                    lemma_pow2_strictly_increases((levels - 1) as nat, levels);
                }
                let left = tree.get(Self::index_of(Order(o - 1), 2 * p));
                let right = tree.get(Self::index_of(Order(o - 1), 2 * p + 1));
                let idx = Self::index_of(Order(o), p);
                let ghost prev = tree@;
                proof {
                    assert(left.order_free == o - 1);
                    assert(right.order_free == o - 1);
                    Self::lemma_write_node(
                        prev,
                        o as nat,
                        p as nat,
                        Block { order_free: merged_order(left.order_free, right.order_free) as u8 },
                    );
                }
                tree.merge_from_children(idx, left, right);
                proof {
                    assert forall|o2: nat, p2: nat|
                        #[trigger] Self::is_node(o2, p2) && o2 < o implies Self::value_in(tree@, o2, p2) == o2 by {
                        assert(Self::value_in(prev, o2, p2) == o2);
                    }
                    assert forall|p2: nat| p2 < p + 1 implies #[trigger] Self::value_in(tree@, o as nat, p2) == o by {
                        assert(Self::is_node(o as nat, p2));
                        if p2 < p {
                            assert(Self::value_in(prev, o as nat, p2) == o);
                        }
                    }
                }
                p = p + 1;
            }
            o = o + 1;
        }
        proof {
            assert forall|o2: nat, p2: nat| #[trigger] Self::is_node(o2, p2) && o2 > 1 implies tree.value(o2, p2) == merged_order(
                tree.value((o2 - 1) as nat, 2 * p2),
                tree.value((o2 - 1) as nat, 2 * p2 + 1),
            ) by {
                lemma_pow2_unfold((levels - (o2 - 1)) as nat);
                assert((levels - (o2 - 1)) as nat == (levels - o2) as nat + 1);
                assert(Self::is_node((o2 - 1) as nat, 2 * p2));
                assert(Self::is_node((o2 - 1) as nat, 2 * p2 + 1));
            }
        }
        tree
    }

    /// A node that is not an ancestor of `(order, pos)` sits at no
    /// ancestor's index.
    proof fn lemma_not_ancestor(order: nat, pos: nat, top: nat, o: nat, c: nat)
        requires
            Self::valid_height(),
            Self::is_node(order, pos),
            top <= LEVELS,
            Self::is_node(o, c),
            o <= order || c != Self::ancestor(order, pos, o),
        ensures
            !Self::holds_ancestor(node_index(LEVELS as nat, o, c) as int, order, pos, top),
    {
        if Self::holds_ancestor(node_index(LEVELS as nat, o, c) as int, order, pos, top) {
            let o2 = choose|o2: nat|
                order < o2 <= top && node_index(LEVELS as nat, o, c) as int == #[trigger] node_index(
                    LEVELS as nat,
                    o2,
                    Self::ancestor(order, pos, o2),
                );
            lemma_ancestor_bound(LEVELS as nat, order, pos, o2);
            lemma_node_index_injective(LEVELS as nat, o, c, o2, Self::ancestor(order, pos, o2));
        }
    }

    /// After two propagations from `(order, pos)` the ancestor of order `o`
    /// records what it recorded after the first.
    proof fn lemma_idempotent_at(
        first: Seq<Block>,
        second: Seq<Block>,
        third: Seq<Block>,
        order: nat,
        pos: nat,
        o: nat,
    )
        requires
            Self::valid_height(),
            first.len() == tree_size(LEVELS as nat),
            Self::is_node(order, pos),
            order <= o <= LEVELS,
            Self::propagated(first, second, order, pos),
            Self::propagated(second, third, order, pos),
        ensures
            Self::value_in(third, o, Self::ancestor(order, pos, o)) == Self::value_in(
                second,
                o,
                Self::ancestor(order, pos, o),
            ),
        decreases o - order,
    {
        let levels = LEVELS as nat;
        lemma_ancestor_bound(levels, order, pos, o);
        lemma_ancestor_step(order, pos, order);
        if o == order {
            lemma_node_index(levels, order, pos);
            Self::lemma_not_ancestor(order, pos, levels, order, pos);
        } else {
            let a = Self::ancestor(order, pos, o);
            let below = Self::ancestor(order, pos, (o - 1) as nat);
            lemma_ancestor_step(order, pos, (o - 1) as nat);
            assert((o - 1 + 1) as nat == o);
            assert(a == below / 2);
            Self::lemma_idempotent_at(first, second, third, order, pos, (o - 1) as nat);
            lemma_pow2_unfold((levels - (o - 1)) as nat);
            assert((levels - (o - 1)) as nat == (levels - o) as nat + 1);
            assert(Self::value_in(third, o, a) == merged_order(
                Self::value_in(third, (o - 1) as nat, 2 * a),
                Self::value_in(third, (o - 1) as nat, 2 * a + 1),
            ));
            assert(Self::value_in(second, o, a) == merged_order(
                Self::value_in(second, (o - 1) as nat, 2 * a),
                Self::value_in(second, (o - 1) as nat, 2 * a + 1),
            ));
            lemma_node_index(levels, (o - 1) as nat, 2 * a);
            lemma_node_index(levels, (o - 1) as nat, 2 * a + 1);
            if below == 2 * a {
                Self::lemma_not_ancestor(order, pos, levels, (o - 1) as nat, 2 * a + 1);
            } else {
                Self::lemma_not_ancestor(order, pos, levels, (o - 1) as nat, 2 * a);
            }
        }
    }

    /// Propagating a second time from the same node, with nothing changed
    /// in between, leaves every block as the first propagation left it.
    pub proof fn lemma_propagation_idempotent(
        first: Seq<Block>,
        second: Seq<Block>,
        third: Seq<Block>,
        order: nat,
        pos: nat,
    )
        requires
            Self::valid_height(),
            first.len() == tree_size(LEVELS as nat),
            Self::is_node(order, pos),
            Self::propagated(first, second, order, pos),
            Self::propagated(second, third, order, pos),
        ensures
            third == second,
    {
        assert forall|i: int| 0 <= i < second.len() implies third[i] == second[i] by {
            if Self::holds_ancestor(i, order, pos, LEVELS as nat) {
                let o = choose|o: nat|
                    order < o <= LEVELS && i == #[trigger] node_index(
                        LEVELS as nat,
                        o,
                        Self::ancestor(order, pos, o),
                    );
                Self::lemma_idempotent_at(first, second, third, order, pos, o);
            }
        }
        assert(third =~= second);
    }

    /// Propagating from a node after a change to that node alone makes the
    /// whole tree consistent again.
    pub proof fn lemma_propagation_restores(
        before: Seq<Block>,
        after: Seq<Block>,
        order: nat,
        pos: nat,
    )
        requires
            Self::valid_height(),
            before.len() == tree_size(LEVELS as nat),
            Self::is_node(order, pos),
            Self::consistent_off_path(before, order, pos),
            Self::propagated(before, after, order, pos),
        ensures
            Self::consistent_in(after),
    {
        let levels = LEVELS as nat;
        assert forall|o: nat, p: nat| #[trigger] Self::is_node(o, p) && o > 1 implies Self::value_in(
            after,
            o,
            p,
        ) == merged_order(
            Self::value_in(after, (o - 1) as nat, 2 * p),
            Self::value_in(after, (o - 1) as nat, 2 * p + 1),
        ) by {
            if !(o > order && p == Self::ancestor(order, pos, o)) {
                lemma_pow2_unfold((levels - (o - 1)) as nat);
                assert((levels - (o - 1)) as nat == (levels - o) as nat + 1);
                lemma_node_index(levels, o, p);
                lemma_node_index(levels, (o - 1) as nat, 2 * p);
                lemma_node_index(levels, (o - 1) as nat, 2 * p + 1);
                Self::lemma_not_ancestor(order, pos, levels, o, p);
                if o - 1 > order {
                    lemma_ancestor_step(order, pos, (o - 1) as nat);
                    assert((o - 1 + 1) as nat == o);
                }
                Self::lemma_not_ancestor(order, pos, levels, (o - 1) as nat, 2 * p);
                Self::lemma_not_ancestor(order, pos, levels, (o - 1) as nat, 2 * p + 1);
            }
        }
    }
}

} // verus!
