use buddy_tree::blocks_in_tree;
use buddy_tree::flat_tree;

#[test]
fn flat_tree_fns() {
    //       1
    //     2   2
    //    3 3 3 3

    assert_eq!(flat_tree::blocks_in_tree(3), 1 + 2 + 4);
    assert_eq!(flat_tree::blocks_in_tree(2), 1 + 2);
    assert_eq!(flat_tree::blocks_in_tree(1), 1);

    assert_eq!(flat_tree::blocks_in_level(1), 1);
    assert_eq!(flat_tree::blocks_in_level(2), 2);
    assert_eq!(flat_tree::blocks_in_level(3), 4);
}

#[test]
fn sibling_pairs_even_with_odd() {
    assert_eq!(flat_tree::sibling_of(0), 1);
    assert_eq!(flat_tree::sibling_of(1), 0);
    assert_eq!(flat_tree::sibling_of(2), 3);
    assert_eq!(flat_tree::sibling_of(3), 2);
    assert_eq!(flat_tree::sibling_of(usize::MAX), usize::MAX - 1);
}

#[test]
fn sibling_is_an_involution() {
    for i in 1..200usize {
        let s = flat_tree::sibling_of(i);
        assert_ne!(s, i);
        assert_eq!(flat_tree::sibling_of(s), i);
    }
}

#[test]
fn parent_of_breadth_first_indices() {
    assert_eq!(flat_tree::parent_of(1), 0);
    assert_eq!(flat_tree::parent_of(2), 0);
    assert_eq!(flat_tree::parent_of(3), 1);
    assert_eq!(flat_tree::parent_of(4), 1);
    assert_eq!(flat_tree::parent_of(5), 2);
    assert_eq!(flat_tree::parent_of(6), 2);
}

#[test]
fn flat_counts_edges() {
    assert_eq!(flat_tree::blocks_in_tree(0), 0);
    assert_eq!(flat_tree::blocks_in_tree(20), 1_048_575);
    assert_eq!(flat_tree::blocks_in_tree(64), usize::MAX);
    assert_eq!(flat_tree::blocks_in_level(64), 1usize << 63);
}

#[test]
fn node_counts_add_up_by_level() {
    for levels in 1..=40u8 {
        assert_eq!(
            flat_tree::blocks_in_tree(levels),
            flat_tree::blocks_in_tree(levels - 1) + flat_tree::blocks_in_level(levels)
        );
    }
}

#[test]
fn nested_count_matches_flat_count() {
    assert_eq!(blocks_in_tree(0), 0);
    assert_eq!(blocks_in_tree(1), 1);
    assert_eq!(blocks_in_tree(6), 63);
    assert_eq!(blocks_in_tree(8), 255);
    assert_eq!(blocks_in_tree(12), 4095);
    assert_eq!(blocks_in_tree(13), 8191);
    for levels in 0..=40u8 {
        assert_eq!(blocks_in_tree(levels), flat_tree::blocks_in_tree(levels));
    }
}
