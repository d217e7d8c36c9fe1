use buddy_allocator_workshop::buddy_allocator_bitmap::{demo, left_child, parent, Tree};
use buddy_allocator_workshop::{BASE_ORDER, MAX_ORDER, MAX_ORDER_SIZE};
use std::collections::BTreeSet;

#[test]
fn test_flat_tree_fns() {
    //    1
    //  2   3
    // 4 5 6 7
    assert_eq!(left_child(1), 2);
    assert_eq!(parent(2), 1);
}

#[test]
fn test_blocks_in_tree() {
    assert_eq!(Tree::blocks_in_tree(3), 1 + 2 + 4);
    assert_eq!(Tree::blocks_in_tree(1), 1);
}

#[test]
fn test_tree_runs_out_of_blocks() {
    let mut tree = Tree::new();
    let max_blocks = Tree::blocks_in_level(MAX_ORDER);
    for _ in 0..max_blocks {
        assert_ne!(tree.alloc_exact(0), None);
    }

    assert_eq!(tree.alloc_exact(0), None);
}

#[test]
fn test_init_tree() {
    let tree = Tree::new();

    // Highest level has 1 block, next has 2, next 4
    assert_eq!(tree.block(0).order_free, 19);

    assert_eq!(tree.block(1).order_free, 18);
    assert_eq!(tree.block(2).order_free, 18);

    assert_eq!(tree.block(3).order_free, 17);
    assert_eq!(tree.block(4).order_free, 17);
    assert_eq!(tree.block(5).order_free, 17);
    assert_eq!(tree.block(6).order_free, 17);
}

#[test]
fn test_alloc_exact() {
    let mut tree = Tree::new();
    tree.alloc_exact(3).unwrap();

    tree = Tree::new();
    assert_eq!(tree.alloc_exact(MAX_ORDER - 1), Some(0x0));
    assert_eq!(
        tree.alloc_exact(MAX_ORDER - 1),
        Some(2usize.pow(MAX_ORDER_SIZE as u32) / 2)
    );
    assert_eq!(tree.alloc_exact(0), None);
    assert_eq!(tree.alloc_exact(MAX_ORDER - 1), None);

    tree = Tree::new();
    assert_eq!(tree.alloc_exact(MAX_ORDER), Some(0x0));
    assert_eq!(tree.alloc_exact(MAX_ORDER), None);
}

#[test]
fn test_alloc_unique_addresses() {
    let max_blocks = Tree::blocks_in_level(MAX_ORDER);
    let mut seen = BTreeSet::new();
    let mut tree = Tree::new();

    for _ in 0..max_blocks {
        let addr = tree.alloc_exact(0).unwrap();

        if seen.contains(&addr) {
            panic!("Allocator must return addresses never been allocated before!");
        } else {
            seen.insert(addr);
        }
    }
}

#[test]
fn bitmap_order_zero_blocks_come_in_ascending_order() {
    let mut tree = Tree::new();
    let count = Tree::blocks_in_level(MAX_ORDER);
    for k in 0..count {
        assert_eq!(tree.alloc_exact(0), Some(k * 4096));
    }
    assert_eq!(tree.alloc_exact(0), None);
}

#[test]
fn bitmap_order_three_then_next_buddy() {
    let mut tree = Tree::new();
    assert_eq!(tree.alloc_exact(3), Some(0x0));
    assert_eq!(tree.alloc_exact(3), Some(0x8000));
    assert_eq!(tree.alloc_exact(3), Some(0x10000));
}

#[test]
fn bitmap_order_too_large_is_refused() {
    let mut tree = Tree::new();
    assert_eq!(tree.alloc_exact(MAX_ORDER + 1), None);
    assert_eq!(tree.alloc_exact(255), None);
    assert_eq!(tree.block(0).order_free, MAX_ORDER + 1);
}

#[test]
fn bitmap_parent_takes_larger_child_after_allocation() {
    let mut tree = Tree::new();
    assert_eq!(tree.alloc_exact(0), Some(0));
    // The leaf of the block at 0 is used, so every node on its path offers one order less
    // than its own, while the right child of the root is still wholly free.
    let leaf = (1usize << MAX_ORDER) - 1;
    assert_eq!(tree.block(leaf).order_free, 0);
    assert_eq!(tree.block(leaf + 1).order_free, 1);
    assert_eq!(tree.block(0).order_free, MAX_ORDER);
    assert_eq!(tree.block(1).order_free, MAX_ORDER - 1);
    assert_eq!(tree.block(2).order_free, MAX_ORDER);
}

#[test]
fn bitmap_mixed_orders_do_not_overlap() {
    let mut tree = Tree::new();
    let small = tree.alloc_exact(0).unwrap();
    let big = tree.alloc_exact(MAX_ORDER - 1).unwrap();
    let mid = tree.alloc_exact(4).unwrap();
    assert_eq!(small, 0);
    assert_eq!(big, 1 << (BASE_ORDER + MAX_ORDER - 1));
    assert_eq!(mid, 1 << (BASE_ORDER + 4));
    assert_eq!(mid % (1 << (BASE_ORDER + 4)), 0);
}

#[test]
fn bitmap_demo_starts_new_trees() {
    let addresses = demo(3, MAX_ORDER);
    assert_eq!(addresses, vec![0, 0, 0]);
    let addresses = demo(4, MAX_ORDER - 1);
    assert_eq!(addresses, vec![0, 1 << 29, 0, 1 << 29]);
}

#[test]
fn bitmap_blocks_in_level_counts() {
    assert_eq!(Tree::blocks_in_level(0), 1);
    assert_eq!(Tree::blocks_in_level(MAX_ORDER), 1 << 18);
    assert_eq!(Tree::blocks_in_tree(19), (1 << 19) - 1);
}
