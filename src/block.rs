//! The annotation of one tree node and the rule that merges two children.

use vstd::prelude::*;

verus! {

/// One node of the tree.
#[derive(Clone, Copy, Debug, PartialEq, Eq, Structural, PartialOrd, Ord)]
pub struct Block {
    /// Greatest order of a free block below this node; zero means nothing.
    pub order_free: u8,
}

/// The order a parent records for children recording `left` and `right`:
/// two free buddies of one order make a block of the next order; otherwise
/// the larger of the two.
pub open spec fn merged_order(left: u8, right: u8) -> int {
    if left == right && left != 0 {
        left + 1
    } else if left >= right {
        left as int
    } else {
        right as int
    }
}

impl Block {
    pub fn is_used(&self) -> (r: bool)
        ensures
            r == (self.order_free == 0),
    {
        self.order_free == 0
    }

    /// The block `rhs` orders higher.
    pub fn add(self, rhs: u8) -> (r: Block)
        requires
            self.order_free + rhs <= u8::MAX,
        ensures
            r.order_free == self.order_free + rhs,
    {
        Block { order_free: self.order_free + rhs }
    }
}

} // verus!
