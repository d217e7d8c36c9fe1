use buddy_allocator_workshop::buddy_allocator_lists::{
    demo_linked_lists, demo_vecs, Block, BlockAllocateError, BlockIndex, BlockSplitError,
    BlockState, BuddyAllocator,
};
use buddy_allocator_workshop::{top_level_blocks, PageSize, BASE_ORDER, MAX_ORDER};

#[test]
fn buddy_allocator_lists_test_create_top_level() {
    let mut allocator = BuddyAllocator::new();
    allocator.create_top_level(0);
    allocator.create_top_level(2usize.pow((BASE_ORDER + MAX_ORDER) as u32));

    let expected = vec![
        Block {
            begin_address: 0,
            order: MAX_ORDER,
            state: BlockState::Free,
        },
        Block {
            begin_address: 2usize.pow((BASE_ORDER + MAX_ORDER) as u32),
            order: MAX_ORDER,
            state: BlockState::Free,
        },
    ];

    assert_eq!(allocator.list_of(MAX_ORDER - 1).len(), 0);
    assert_eq!(*allocator.list_of(MAX_ORDER), expected);
}

#[test]
fn buddy_allocator_lists_test_split() {
    let mut allocator = BuddyAllocator::new();
    allocator.create_top_level(0);
    allocator
        .split(BlockIndex {
            index: 0,
            order: MAX_ORDER,
        })
        .unwrap();

    let expected_blocks = [
        Block {
            begin_address: 0,
            order: MAX_ORDER - 1,
            state: BlockState::Free,
        },
        Block {
            begin_address: 2usize.pow((BASE_ORDER + MAX_ORDER) as u32 - 1),
            order: MAX_ORDER - 1,
            state: BlockState::Free,
        },
    ];

    assert_eq!(allocator.list_of(MAX_ORDER - 1).len(), 2);
    assert_eq!(allocator.list_of(MAX_ORDER).len(), 0);

    allocator
        .list_of(MAX_ORDER - 1)
        .iter()
        .zip(expected_blocks.iter())
        .for_each(|(block, expected)| assert_eq!(block, expected));
}

#[test]
fn test_get_linked_list() {
    let mut allocator = BuddyAllocator::new();
    allocator.create_top_level(0);
    allocator.create_top_level(2usize.pow((MAX_ORDER + BASE_ORDER) as u32));

    let first = allocator
        .split(BlockIndex {
            index: 0,
            order: MAX_ORDER,
        })
        .unwrap();
    let second = allocator
        .split(BlockIndex {
            index: 0,
            order: MAX_ORDER,
        })
        .unwrap();
    let mut indices: [BlockIndex; 2] = [first, second];

    indices[1].index += 1; // Make sure we iterate from back too

    let expected_blocks = [
        Block {
            begin_address: 0,
            order: MAX_ORDER - 1,
            state: BlockState::Free,
        },
        Block {
            begin_address: 2usize.pow((BASE_ORDER + MAX_ORDER) as u32 - 1) * indices[1].index,
            order: MAX_ORDER - 1,
            state: BlockState::Free,
        },
    ];

    for (index, expected) in indices.iter().zip(expected_blocks.iter()) {
        let block = allocator.get(index).unwrap();
        assert_eq!(block, expected)
    }
}

#[test]
fn buddy_allocator_lists_test_allocate_exact_with_free() {
    let mut allocator = BuddyAllocator::new();
    allocator.create_top_level(0);
    let index = allocator.allocate_exact(MAX_ORDER).unwrap();
    let expected_block = Block {
        begin_address: 0,
        order: MAX_ORDER,
        state: BlockState::Used,
    };
    assert_eq!(*allocator.get(&index).unwrap(), expected_block);
}

#[test]
fn buddy_allocator_lists_test_allocate_exact_no_free() {
    let mut allocator = BuddyAllocator::new();
    allocator.create_top_level(0);
    let index = allocator.allocate_exact(MAX_ORDER - 2).unwrap();
    let expected_block = Block {
        begin_address: 0,
        order: MAX_ORDER - 2,
        state: BlockState::Used,
    };

    assert_eq!(*allocator.get(&index).unwrap(), expected_block);
}

fn lists_unique_addresses() {
    let mut allocator = BuddyAllocator::new();

    for block_number in 0..top_level_blocks(1000, 0) {
        allocator.create_top_level(
            2usize.pow((MAX_ORDER + BASE_ORDER) as u32) * block_number as usize,
        );
    }
    let mut seen = Vec::with_capacity(1000);
    for _ in 0..1000 {
        let index = allocator.allocate_exact(0).unwrap();
        let addr = allocator.get(&index).unwrap().begin_address;

        if seen.contains(&addr) {
            panic!("Allocator must return addresses never been allocated before!");
        } else {
            seen.push(addr);
        }
    }
}

#[test]
fn buddy_allocator_lists_test_unique_addresses_linked_lists() {
    lists_unique_addresses();
}

#[test]
fn buddy_allocator_lists_test_unique_addresses_vecs() {
    lists_unique_addresses();
}

#[test]
fn lists_whole_region_then_exhausted() {
    let mut allocator = BuddyAllocator::new();
    allocator.create_top_level(0);
    let index = allocator.allocate_exact(MAX_ORDER).unwrap();
    assert_eq!(allocator.get(&index).unwrap().begin_address, 0);
    assert_eq!(allocator.get(&index).unwrap().state, BlockState::Used);
    assert!(matches!(
        allocator.allocate_exact(MAX_ORDER),
        Err(BlockAllocateError::NoBlocksAvailable)
    ));
    assert!(matches!(
        allocator.allocate_exact(0),
        Err(BlockAllocateError::NoBlocksAvailable)
    ));
}

#[test]
fn lists_split_down_leaves_buddies_free() {
    let mut allocator = BuddyAllocator::new();
    allocator.create_top_level(0);
    let index = allocator.allocate_exact(MAX_ORDER - 2).unwrap();
    assert_eq!(index.order, MAX_ORDER - 2);
    assert_eq!(allocator.list_of(MAX_ORDER).len(), 0);
    // The region was split into two, and its first half into two again.
    assert_eq!(allocator.list_of(MAX_ORDER - 1).len(), 1);
    assert_eq!(allocator.list_of(MAX_ORDER - 2).len(), 2);
    assert_eq!(
        allocator.list_of(MAX_ORDER - 1)[0],
        Block {
            begin_address: 1 << 29,
            order: MAX_ORDER - 1,
            state: BlockState::Free,
        }
    );
    let next = allocator.allocate_exact(MAX_ORDER - 2).unwrap();
    assert_eq!(allocator.get(&next).unwrap().begin_address, 1 << 28);
}

#[test]
fn lists_errors() {
    let mut allocator = BuddyAllocator::new();
    assert!(matches!(
        allocator.allocate_exact(MAX_ORDER + 1),
        Err(BlockAllocateError::OrderTooLarge(19))
    ));
    assert!(matches!(
        allocator.allocate_exact(0),
        Err(BlockAllocateError::NoBlocksAvailable)
    ));
    allocator.create_top_level(0);
    let index = allocator.allocate_exact(0).unwrap();
    assert_eq!(index.order, 0);
    // Splitting a free block of order 0 is refused.
    let free = BlockIndex { order: 0, index: 1 };
    assert_eq!(allocator.get(&free).unwrap().state, BlockState::Free);
    assert!(matches!(
        allocator.split(free),
        Err(BlockSplitError::BlockSmallestPossible)
    ));
}

#[test]
fn lists_second_region_used_after_first() {
    let mut allocator = BuddyAllocator::new();
    allocator.create_top_level(0);
    allocator.create_top_level(1 << 30);
    let a = allocator.allocate_exact(MAX_ORDER).unwrap();
    let a = allocator.get(&a).unwrap().begin_address;
    let b = allocator.allocate_exact(MAX_ORDER).unwrap();
    let b = allocator.get(&b).unwrap().begin_address;
    assert_eq!((a, b), (0, 1 << 30));
}

#[test]
fn lists_demos() {
    let addresses = demo_vecs(5, 0).unwrap();
    assert_eq!(addresses, vec![0, 4096, 8192, 12288, 16384]);
    let addresses = demo_linked_lists(3, MAX_ORDER).unwrap();
    assert_eq!(addresses, vec![0, 1 << 30, 2 << 30]);
}

#[test]
fn lists_alloc_page_by_size() {
    let mut allocator = BuddyAllocator::new();
    allocator.create_top_level(0);
    assert_eq!(allocator.alloc_page(PageSize::Mib2).unwrap(), 0);
    assert_eq!(allocator.alloc_page(PageSize::Kib4).unwrap(), 0x20_0000);
    assert!(matches!(
        allocator.alloc_page(PageSize::Gib1),
        Err(BlockAllocateError::NoBlocksAvailable)
    ));
}
