//! Index arithmetic for a complete binary tree stored breadth-first in one
//! array, root at index 0.

use vstd::prelude::*;
use vstd::arithmetic::power2::{pow2, lemma_pow2_unfold, lemma_pow2_pos, lemma_pow2_strictly_increases, lemma2_to64};

verus! {

/// The index paired with `index`: pairs are `(even, even + 1)`.
pub open spec fn sibling_spec(index: nat) -> nat {
    if index % 2 == 0 {
        index + 1
    } else {
        (index - 1) as nat
    }
}

/// The index of the parent of a non-root node.
pub open spec fn parent_spec(index: nat) -> nat
    recommends
        index >= 1,
{
    ((index - 1) / 2) as nat
}

/// Number of nodes of a complete binary tree with `levels` levels.
pub open spec fn tree_size(levels: nat) -> nat {
    (pow2(levels) - 1) as nat
}

/// Number of nodes on level `level` (1 is the root's level).
pub open spec fn level_size(level: nat) -> nat
    recommends
        level >= 1,
{
    pow2((level - 1) as nat)
}

/// Whether a tree of `levels` levels can be counted in a `usize`, that is
/// `2^levels - 1 <= usize::MAX`.
pub open spec fn fits_usize(levels: nat) -> bool {
    levels <= usize::BITS
}

/// `2^e` as a machine integer.
pub(crate) fn pow2_exec(e: u8) -> (r: usize)
    requires
        pow2(e as nat) <= usize::MAX,
    ensures
        r == pow2(e as nat),
{
    let mut r: usize = 1;
    let mut i: u8 = 0;
    proof {
        lemma2_to64();
    }
    while i < e
        invariant
            i <= e,
            r == pow2(i as nat),
            pow2(e as nat) <= usize::MAX,
        decreases e - i,
    {
        proof {
            lemma_pow2_unfold((i + 1) as nat);
            if i + 1 < e {
                lemma_pow2_strictly_increases((i + 1) as nat, e as nat);
            }
        }
        r = r * 2;
        i = i + 1;
    }
    r
}

pub fn sibling_of(index: usize) -> (r: usize)
    ensures
        r == sibling_spec(index as nat),
{
    assert(index & 1 == 0 <==> index % 2 == 0) by (bit_vector);
    if index & 1 == 0 {
        index + 1
    } else {
        index - 1
    }
}

pub fn parent_of(index: usize) -> (r: usize)
    requires
        index >= 1,
    ensures
        r == parent_spec(index as nat),
{
    let i = index - 1;
    assert(i >> 1 == i / 2) by (bit_vector);
    i >> 1
}

pub fn blocks_in_tree(levels: u8) -> (r: usize)
    requires
        fits_usize(levels as nat),
    ensures
        r == tree_size(levels as nat),
{
    proof {
        lemma_fits_usize_bound(levels as nat);
        lemma_pow2_pos(levels as nat);
    }
    if levels == 0 {
        proof {
            lemma2_to64();
        }
        0
    } else {
        proof {
            lemma_pow2_unfold(levels as nat);
        }
        let half = pow2_exec(levels - 1);
        half - 1 + half
    }
}

pub fn blocks_in_level(level: u8) -> (r: usize)
    requires
        level >= 1,
        fits_usize(level as nat),
    ensures
        r == level_size(level as nat),
{
    proof {
        lemma_fits_usize_bound(level as nat);
        lemma_pow2_unfold(level as nat);
        lemma_pow2_pos((level - 1) as nat);
    }
    blocks_in_tree(level) - blocks_in_tree(level - 1)
}

/// Pairing is an involution: the sibling of a node's sibling is the node.
pub proof fn lemma_sibling_involution(index: nat)
    requires
        index >= 1,
    ensures
        sibling_spec(sibling_spec(index)) == index,
        sibling_spec(index) != index,
{
}

/// A tree of `levels` levels is the tree one level shorter plus its last level.
pub proof fn lemma_tree_size_additive(levels: nat)
    requires
        levels >= 1,
    ensures
        tree_size(levels) == tree_size((levels - 1) as nat) + level_size(levels),
{
    lemma_pow2_unfold(levels);
    lemma_pow2_pos((levels - 1) as nat);
}

/// A tree whose node count fits a `usize` has at most 64 levels.
pub proof fn lemma_fits_usize_bound(levels: nat)
    requires
        fits_usize(levels),
    ensures
        levels <= 64,
        tree_size(levels) <= usize::MAX,
{
    vstd::layout::unsigned_int_max_values();
    lemma2_to64();
    lemma_pow2_pos(levels);
    if levels < usize::BITS {
        lemma_pow2_strictly_increases(levels, usize::BITS as nat);
    }
    assert(pow2(levels) <= pow2(usize::BITS as nat));
}

} // verus!
