use buddy_tree::block::Block;
use buddy_tree::blocks_in_tree;
use buddy_tree::tree::{GlobalIndex, LocalIndex, Order, SubtreeIndex, SubtreeOrder, Tree};

fn free_tree<const LEVELS: u8>() -> Tree<LEVELS> {
    Tree::<LEVELS>::new_free(vec![Block { order_free: 1 }; blocks_in_tree(LEVELS)])
}

fn orders<const LEVELS: u8>(tree: &Tree<LEVELS>) -> Vec<u8> {
    (0..blocks_in_tree(LEVELS)).map(|i| tree.get(GlobalIndex(i)).order_free).collect()
}

#[test]
fn test_init_tree() {
    type TestTree = Tree<8>;
    let tree = TestTree::new_free(vec![Block { order_free: 1 }; blocks_in_tree(8)]);

    // Highest level has 1 block, next has 2, next 4
    assert_eq!(tree.get(GlobalIndex(0)).order_free, 8);

    assert_eq!(tree.get(GlobalIndex(1)).order_free, 7);
    assert_eq!(tree.get(GlobalIndex(2)).order_free, 7);

    assert_eq!(tree.get(GlobalIndex(3)).order_free, 6);
    assert_eq!(tree.get(GlobalIndex(4)).order_free, 6);
    assert_eq!(tree.get(GlobalIndex(5)).order_free, 6);
    assert_eq!(tree.get(GlobalIndex(6)).order_free, 6);
}

#[test]
fn init_overwrites_any_storage() {
    let tree = Tree::<3>::new_free(vec![Block { order_free: 0 }; blocks_in_tree(3)]);
    assert_eq!(orders(&tree), vec![3, 2, 2, 1, 1, 1, 1]);
}

#[test]
fn init_gives_every_node_its_order() {
    let tree = free_tree::<13>();
    for order in 1..=13u8 {
        for pos in 0..(1usize << (13 - order)) {
            let idx = Tree::<13>::index_of(Order(order), pos);
            assert_eq!(tree.get(idx).order_free, order);
        }
    }
}

#[test]
fn leaf_flipped_used_then_free() {
    let mut tree = free_tree::<3>();
    assert_eq!(orders(&tree), vec![3, 2, 2, 1, 1, 1, 1]);

    tree.set(GlobalIndex(3), Block { order_free: 0 });
    tree.update_blocks_above(GlobalIndex(3), Order(1));
    // b = max(0, 1); a = max(b, c) = max(1, 2)
    assert_eq!(orders(&tree), vec![2, 1, 2, 0, 1, 1, 1]);

    tree.set(GlobalIndex(3), Block { order_free: 1 });
    tree.update_blocks_above(GlobalIndex(3), Order(1));
    assert_eq!(orders(&tree), vec![3, 2, 2, 1, 1, 1, 1]);
}

#[test]
fn propagating_twice_changes_nothing() {
    let mut tree = free_tree::<8>();
    let leaf = Tree::<8>::index_of(Order(1), 77);
    tree.set(leaf, Block { order_free: 0 });
    tree.update_blocks_above(leaf, Order(1));
    let once = orders(&tree);
    tree.update_blocks_above(leaf, Order(1));
    assert_eq!(orders(&tree), once);
    assert_eq!(tree.get(GlobalIndex(0)).order_free, 7);
}

#[test]
fn propagation_crosses_tiers() {
    let mut tree = free_tree::<8>();
    let leaf = Tree::<8>::index_of(Order(1), 0);
    tree.set(leaf, Block { order_free: 0 });
    tree.update_blocks_above(leaf, Order(1));
    assert_eq!(tree.get(Tree::<8>::index_of(Order(2), 0)).order_free, 1);
    assert_eq!(tree.get(Tree::<8>::index_of(Order(3), 0)).order_free, 2);
    assert_eq!(tree.get(Tree::<8>::index_of(Order(7), 0)).order_free, 6);
    assert_eq!(tree.get(Tree::<8>::index_of(Order(7), 1)).order_free, 7);
    assert_eq!(tree.get(GlobalIndex(0)).order_free, 7);
}

#[test]
fn merge_rule() {
    let mut tree = free_tree::<3>();
    tree.merge_from_children(GlobalIndex(0), Block { order_free: 2 }, Block { order_free: 2 });
    assert_eq!(tree.get(GlobalIndex(0)).order_free, 3);
    tree.merge_from_children(GlobalIndex(0), Block { order_free: 0 }, Block { order_free: 0 });
    assert_eq!(tree.get(GlobalIndex(0)).order_free, 0);
    tree.merge_from_children(GlobalIndex(0), Block { order_free: 1 }, Block { order_free: 2 });
    assert_eq!(tree.get(GlobalIndex(0)).order_free, 2);
    tree.merge_from_children(GlobalIndex(0), Block { order_free: 2 }, Block { order_free: 0 });
    assert_eq!(tree.get(GlobalIndex(0)).order_free, 2);
}

#[test]
fn block_is_used_and_add() {
    assert!(Block { order_free: 0 }.is_used());
    assert!(!Block { order_free: 3 }.is_used());
    assert_eq!(Block { order_free: 3 }.add(2), Block { order_free: 5 });
    assert!(LocalIndex(0).is_root());
    assert!(!LocalIndex(4).is_root());
}

#[test]
fn tiers_of_a_height_eight_tree() {
    type T = Tree<8>;
    assert_eq!(T::subtree_order(Order(1)).0, 0);
    assert_eq!(T::subtree_order(Order(2)).0, 0);
    assert_eq!(T::subtree_order(Order(3)).0, 1);
    assert_eq!(T::subtree_order(Order(8)).0, 1);
    assert_eq!(T::size_of_subtree(SubtreeOrder(0)), 3);
    assert_eq!(T::size_of_subtree(SubtreeOrder(1)), 63);
    assert_eq!(T::subtree_slice_offset(SubtreeOrder(0)), 63);
    assert_eq!(T::subtree_slice_offset(SubtreeOrder(1)), 0);
}

#[test]
fn tiers_of_a_height_twelve_tree() {
    type T = Tree<12>;
    assert_eq!(T::subtree_order(Order(6)).0, 0);
    assert_eq!(T::subtree_order(Order(7)).0, 1);
    assert_eq!(T::size_of_subtree(SubtreeOrder(0)), 63);
    assert_eq!(T::subtree_slice_offset(SubtreeOrder(0)), 63);
    assert_eq!(T::subtree_slice_offset(SubtreeOrder(1)), 0);
}

#[test]
fn parent_and_sibling_across_a_tier_boundary() {
    type T = Tree<8>;
    assert_eq!(T::index_of(Order(2), 0).0, 63);
    assert_eq!(T::index_of(Order(1), 0).0, 64);
    assert_eq!(T::index_of(Order(1), 1).0, 65);
    assert_eq!(T::parent(GlobalIndex(64), Order(1)).0, 63);
    assert_eq!(T::parent(GlobalIndex(65), Order(1)).0, 63);
    assert_eq!(T::sibling(GlobalIndex(64), Order(1)).0, 65);
    assert_eq!(T::sibling(GlobalIndex(63), Order(2)).0, 66);
    assert_eq!(T::parent(GlobalIndex(63), Order(2)).0, 31);
    assert_eq!(T::parent(GlobalIndex(66), Order(2)).0, 31);
    assert_eq!(T::sibling(GlobalIndex(1), Order(7)).0, 2);
    assert_eq!(T::parent(GlobalIndex(2), Order(7)).0, 0);
}

#[test]
fn parent_and_sibling_agree_with_positions() {
    type T = Tree<13>;
    for order in 1..13u8 {
        for pos in 0..(1usize << (13 - order)) {
            let idx = T::index_of(Order(order), pos);
            assert_eq!(T::parent(idx, Order(order)).0, T::index_of(Order(order + 1), pos / 2).0);
            assert_eq!(T::sibling(idx, Order(order)).0, T::index_of(Order(order), pos ^ 1).0);
        }
    }
}

#[test]
fn split_and_join_round_trip() {
    type T = Tree<13>;
    let total = blocks_in_tree(13);
    let mut seen = vec![false; total];
    for order in 1..=13u8 {
        for pos in 0..(1usize << (13 - order)) {
            let idx = T::index_of(Order(order), pos);
            assert!(idx.0 < total);
            assert!(!seen[idx.0]);
            seen[idx.0] = true;
            let tier = T::subtree_order(Order(order));
            let local = T::local_idx(idx, tier);
            let subtree = T::subtree_idx(idx, tier);
            assert_eq!(T::global_idx(local, subtree, tier).0, idx.0);
        }
    }
    assert!(seen.iter().all(|s| *s));
    let tier = SubtreeOrder(1);
    let back = T::global_idx(LocalIndex(40), SubtreeIndex(3), tier);
    assert_eq!(T::local_idx(back, tier).0, 40);
    assert_eq!(T::subtree_idx(back, tier).0, 3);
}
