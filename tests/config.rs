use buddy_allocator_workshop::{order_size, top_level_blocks, PageSize, BASE_ORDER, MAX_ORDER};

#[test]
fn page_sizes_have_their_exponents() {
    assert_eq!(PageSize::Kib4.power_of_two(), 12);
    assert_eq!(PageSize::Mib2.power_of_two(), 21);
    assert_eq!(PageSize::Gib1.power_of_two(), 30);
    assert_eq!(PageSize::Kib4.power_of_two() - BASE_ORDER, 0);
    assert_eq!(PageSize::Gib1.power_of_two() - BASE_ORDER, MAX_ORDER);
}

#[test]
fn top_level_blocks_rounds_up() {
    assert_eq!(top_level_blocks(1000, 0), 1);
    assert_eq!(top_level_blocks(0, 0), 0);
    assert_eq!(top_level_blocks(1 << 18, 0), 1);
    assert_eq!(top_level_blocks((1 << 18) + 1, 0), 2);
    assert_eq!(top_level_blocks(3, MAX_ORDER), 3);
    assert_eq!(top_level_blocks(5, MAX_ORDER - 1), 3);
    assert_eq!(top_level_blocks(u32::MAX, MAX_ORDER), u32::MAX as u64);
}

#[test]
fn order_sizes() {
    assert_eq!(order_size(0), 4096);
    assert_eq!(order_size(MAX_ORDER), 1 << 30);
}
