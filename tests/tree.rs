use buddy_allocator_workshop::buddy_allocator_tree::{
    demo_linked_lists, demo_vecs, Block, BlockAllocateError, BlockPtrList, BlockSplitError,
    BuddyAllocator, FreeList,
};
use buddy_allocator_workshop::{top_level_blocks, PageSize, BASE_ORDER, MAX_ORDER};

#[test]
fn buddy_allocator_tree_test_create_top_level() {
    let mut allocator = BuddyAllocator::<Vec<usize>>::new();
    allocator.create_top_level(0);
    allocator.create_top_level(2usize.pow((BASE_ORDER + MAX_ORDER) as u32));

    let expected = vec![
        Block::new(0, MAX_ORDER, false),
        Block::new(
            2usize.pow((BASE_ORDER + MAX_ORDER) as u32),
            MAX_ORDER,
            false,
        ),
    ];

    assert_eq!(*allocator.blocks(), expected);
}

#[test]
fn split() {
    let mut allocator = BuddyAllocator::<Vec<usize>>::new();
    let block = allocator.create_top_level(0);
    allocator.split(block).unwrap();

    let expected = vec![
        Block::new(0, MAX_ORDER - 1, false),
        Block::new(
            2usize.pow((BASE_ORDER + MAX_ORDER - 1) as u32),
            MAX_ORDER - 1,
            false,
        ),
    ];

    assert_eq!(*allocator.blocks(), expected);
}

#[test]
fn buddy_allocator_tree_test_allocate_exact_with_free() {
    let mut allocator = BuddyAllocator::<Vec<usize>>::new();
    allocator.create_top_level(0);
    let block = allocator.allocate_exact(MAX_ORDER).unwrap();
    let expected_block = Block::new(0, MAX_ORDER, true);
    assert_eq!(block, expected_block);
}

#[test]
fn buddy_allocator_tree_test_allocate_exact_no_free() {
    let mut allocator = BuddyAllocator::<Vec<usize>>::new();
    allocator.create_top_level(0);
    let block = allocator.allocate_exact(MAX_ORDER - 2).unwrap();
    let expected_block = Block::new(0, MAX_ORDER - 2, true);

    assert_eq!(block, expected_block);
}

#[test]
fn test_linked_list_remove() {
    let mut list = BlockPtrList::empty();
    list.push(1);
    list.push(2);
    list.push(3);
    list.push(4);
    list.push(5);
    list.remove(2).unwrap();

    assert_eq!(list.pointers(), vec![5, 4, 3, 1]);
}

fn tree_unique_addresses<L: FreeList>(mut allocator: BuddyAllocator<L>) {
    for block_number in 0..top_level_blocks(1000, 0) {
        allocator.create_top_level(
            2usize.pow((MAX_ORDER + BASE_ORDER) as u32) * block_number as usize,
        );
    }

    let mut seen = Vec::with_capacity(1000);
    for _ in 0..1000 {
        let block = allocator.allocate_exact(0).unwrap();
        let addr = block.address();

        if seen.contains(&addr) {
            panic!("Allocator must return addresses never been allocated before!");
        } else {
            seen.push(addr);
        }
    }
}

#[test]
fn buddy_allocator_tree_test_unique_addresses_vecs() {
    tree_unique_addresses(BuddyAllocator::<Vec<usize>>::new());
}

#[test]
fn buddy_allocator_tree_test_unique_addresses_linked_lists() {
    tree_unique_addresses(BuddyAllocator::<BlockPtrList>::new());
}

#[test]
fn test_block_bitfields() {
    let mut block = Block::new(2usize.pow(56) - 1, 64, false);

    assert!(!block.used());
    assert_eq!(block.order(), 64);
    assert_eq!(block.address(), 2usize.pow(56) - 1);

    block.set_used(true);
    assert!(block.used());
    assert_eq!(block.order(), 64);
    assert_eq!(block.address(), 2usize.pow(56) - 1);
}

#[test]
fn tree_block_fields_are_packed() {
    let block = Block::new(0x1234_5000, 5, true);
    assert!(block.used());
    assert_eq!(block.order(), 5);
    assert_eq!(block.address(), 0x1234_5000);
    assert_ne!(Block::new(0x1000, 0, false), Block::new(0x2000, 0, false));
    assert_ne!(Block::new(0x1000, 0, false), Block::new(0x1000, 1, false));
    assert_ne!(Block::new(0x1000, 0, false), Block::new(0x1000, 0, true));
}

#[test]
fn tree_split_down_keeps_address_order() {
    let mut allocator = BuddyAllocator::<Vec<usize>>::new();
    allocator.create_top_level(0);
    let block = allocator.allocate_exact(MAX_ORDER - 2).unwrap();
    assert_eq!(block.address(), 0);
    assert_eq!(block.order(), MAX_ORDER - 2);
    assert!(block.used());
    let blocks = allocator.blocks();
    // The region was replaced by its two halves, and the first half by its two quarters.
    assert_eq!(blocks.len(), 3);
    assert_eq!(
        *blocks,
        vec![
            Block::new(0, MAX_ORDER - 2, true),
            Block::new(1 << 28, MAX_ORDER - 2, false),
            Block::new(1 << 29, MAX_ORDER - 1, false),
        ]
    );
    for pair in blocks.windows(2) {
        assert!(pair[0].address() < pair[1].address());
    }
}

#[test]
fn tree_free_lists_are_last_in_first_out() {
    let mut allocator = BuddyAllocator::<Vec<usize>>::new();
    allocator.create_top_level(0);
    allocator.create_top_level(1 << 30);
    // The region registered last comes out first.
    let a = allocator.allocate_exact(MAX_ORDER).unwrap();
    let b = allocator.allocate_exact(MAX_ORDER).unwrap();
    assert_eq!((a.address(), b.address()), (1 << 30, 0));
    assert!(matches!(
        allocator.allocate_exact(MAX_ORDER),
        Err(BlockAllocateError::NoBlocksAvailable)
    ));
}

#[test]
fn tree_errors() {
    let mut allocator = BuddyAllocator::<BlockPtrList>::new();
    assert!(matches!(
        allocator.allocate_exact(MAX_ORDER + 1),
        Err(BlockAllocateError::OrderTooLarge(19))
    ));
    assert!(matches!(
        allocator.allocate_exact(0),
        Err(BlockAllocateError::NoBlocksAvailable)
    ));
    allocator.create_top_level(0);
    let block = allocator.allocate_exact(0).unwrap();
    assert_eq!(block.address(), 0);
    // The buddy of the block just handed out is free, and of order 0.
    assert_eq!(allocator.blocks()[1], Block::new(4096, 0, false));
    assert!(matches!(
        allocator.split(1),
        Err(BlockSplitError::BlockSmallestPossible)
    ));
}

#[test]
fn tree_next_allocation_takes_the_buddy() {
    let mut allocator = BuddyAllocator::<BlockPtrList>::new();
    allocator.create_top_level(0);
    let a = allocator.allocate_exact(3).unwrap();
    let b = allocator.allocate_exact(3).unwrap();
    assert_eq!(a.address(), 0);
    assert_eq!(b.address(), 0x8000);
}

#[test]
fn tree_demos() {
    let addresses = demo_vecs(4, 0).unwrap();
    assert_eq!(addresses, vec![0, 4096, 8192, 12288]);
    let addresses = demo_linked_lists(2, MAX_ORDER).unwrap();
    assert_eq!(addresses, vec![1 << 30, 0]);
}

#[test]
fn tree_alloc_page_by_size() {
    let mut allocator = BuddyAllocator::<Vec<usize>>::new();
    allocator.create_top_level(0);
    assert_eq!(allocator.alloc_page(PageSize::Mib2).unwrap(), 0);
    assert_eq!(allocator.alloc_page(PageSize::Kib4).unwrap(), 0x20_0000);
    assert!(matches!(
        allocator.alloc_page(PageSize::Gib1),
        Err(BlockAllocateError::NoBlocksAvailable)
    ));
}
