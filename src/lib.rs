//! Three buddy allocators over a flat address space: per-order lists of block records, an
//! address-ordered set of packed block records with per-order free lists, and a flat bitmap
//! where each node of an implicit binary tree records the largest order free beneath it.
use vstd::arithmetic::power2::{lemma2_to64, pow2};
use vstd::bits::lemma_usize_shl_is_mul;
use vstd::prelude::*;

pub mod buddy_allocator_bitmap;
pub mod buddy_allocator_lists;
pub mod buddy_allocator_tree;

verus! {

/// Number of orders, `MAX_ORDER + 1`.
pub const LEVEL_COUNT: u8 = 19;

/// The maximum order.
pub const MAX_ORDER: u8 = LEVEL_COUNT - 1;

/// The minimum order: the size of a block of order `k` is `2^(k + BASE_ORDER)` bytes, not `2^k`.
/// It is at most the base-2 logarithm of 4096, so that 4 KiB pages can always be allocated.
pub const BASE_ORDER: u8 = 12;

/// The size, as a power of two, of a block of the maximum order.
pub const MAX_ORDER_SIZE: u8 = BASE_ORDER + MAX_ORDER;

/// Size in bytes of a block of order `order`.
pub open spec fn block_size(order: nat) -> nat {
    pow2(BASE_ORDER as nat + order)
}

/// Size in bytes of a top-level region, a block of the maximum order.
pub open spec fn region_size() -> nat {
    block_size(MAX_ORDER as nat)
}

/// Whether `[a, a + sa)` and `[b, b + sb)` do not overlap.
pub open spec fn ranges_disjoint(a: int, sa: int, b: int, sb: int) -> bool {
    a + sa <= b || b + sb <= a
}

/// Both halves of an aligned block are aligned to the half size.
pub proof fn lemma_halves_aligned(a: int, order: nat)
    requires
        order >= 1,
        a >= 0,
        a % block_size(order) as int == 0,
    ensures
        block_size(order) == 2 * block_size((order - 1) as nat),
        block_size((order - 1) as nat) > 0,
        a % block_size((order - 1) as nat) as int == 0,
        (a + block_size((order - 1) as nat)) % block_size((order - 1) as nat) as int == 0,
{
    let h = block_size((order - 1) as nat) as int;
    vstd::arithmetic::power2::lemma_pow2_unfold(BASE_ORDER as nat + order);
    vstd::arithmetic::power2::lemma_pow2_pos(BASE_ORDER as nat + (order - 1) as nat);
    vstd::arithmetic::div_mod::lemma_fundamental_div_mod(a, 2 * h);
    let q = a / (2 * h);
    assert(a == (2 * q) * h) by (nonlinear_arith)
        requires
            a == (2 * h) * q + a % (2 * h),
            a % (2 * h) == 0,
    ;
    assert(a + h == (2 * q + 1) * h) by (nonlinear_arith)
        requires
            a == (2 * q) * h,
    ;
    vstd::arithmetic::div_mod::lemma_mod_multiples_basic(2 * q, h);
    vstd::arithmetic::div_mod::lemma_mod_multiples_basic(2 * q + 1, h);
}

/// Two distinct addresses aligned to `s` start disjoint blocks of size `s`.
pub proof fn lemma_aligned_disjoint(a: int, b: int, s: int)
    requires
        s > 0,
        a % s == 0,
        b % s == 0,
        a != b,
    ensures
        ranges_disjoint(a, s, b, s),
{
    vstd::arithmetic::div_mod::lemma_fundamental_div_mod(a, s);
    vstd::arithmetic::div_mod::lemma_fundamental_div_mod(b, s);
    let x = a / s;
    let y = b / s;
    if x < y {
        assert(s * x + s <= s * y) by (nonlinear_arith)
            requires
                x + 1 <= y,
                s > 0,
        ;
    } else {
        assert(s * y + s <= s * x) by (nonlinear_arith)
            requires
                y + 1 <= x,
                s > 0,
        ;
    }
}

/// `2^e` computed as a shift.
pub fn pow2_usize(e: u8) -> (r: usize)
    requires
        e <= MAX_ORDER_SIZE,
    ensures
        r == pow2(e as nat),
{
    proof {
        lemma2_to64();
        vstd::arithmetic::power2::lemma_pow2_strictly_increases(e as nat, 31);
        lemma_usize_shl_is_mul(1, e as usize);
    }
    1usize << e as usize
}

/// Size in bytes of a block of order `order`.
pub fn order_size(order: u8) -> (r: usize)
    requires
        order <= MAX_ORDER,
    ensures
        r == block_size(order as nat),
        r > 0,
{
    proof {
        vstd::arithmetic::power2::lemma_pow2_pos((BASE_ORDER + order) as nat);
    }
    pow2_usize(BASE_ORDER + order)
}

/// The canonical page sizes.
#[derive(Debug, Copy, Clone, PartialEq, Eq, Structural)]
pub enum PageSize {
    Kib4,
    Mib2,
    Gib1,
}

impl PageSize {
    /// The base-2 logarithm of the page size in bytes.
    pub open spec fn spec_power_of_two(self) -> u8 {
        match self {
            PageSize::Kib4 => 12,
            PageSize::Mib2 => 21,
            PageSize::Gib1 => 30,
        }
    }

    /// The base-2 logarithm of the page size in bytes.
    pub fn power_of_two(self) -> (r: u8)
        ensures
            r == self.spec_power_of_two(),
    {
        match self {
            PageSize::Kib4 => 12,
            PageSize::Mib2 => 21,
            PageSize::Gib1 => 30,
        }
    }
}

/// How many top-level regions it takes to hold `blocks` blocks of order `block_order`:
/// `ceil(2^(block_order + BASE_ORDER) * blocks / 2^(MAX_ORDER + BASE_ORDER))`.
pub open spec fn spec_top_level_blocks(blocks: nat, block_order: nat) -> nat {
    ((block_size(block_order) * blocks + region_size() - 1) / region_size() as int) as nat
}

/// How many top-level regions must be registered to satisfy `blocks` allocations of order
/// `block_size`.
pub fn top_level_blocks(blocks: u32, block_size: u8) -> (r: u64)
    requires
        block_size <= MAX_ORDER,
    ensures
        r == spec_top_level_blocks(blocks as nat, block_size as nat),
{
    let size = order_size(block_size) as u64;
    let region = order_size(MAX_ORDER) as u64;
    proof {
        lemma2_to64();
        if block_size < MAX_ORDER {
            vstd::arithmetic::power2::lemma_pow2_strictly_increases(
                (BASE_ORDER + block_size) as nat,
                (BASE_ORDER + MAX_ORDER) as nat,
            );
        }
        assert(size * blocks <= 0x4000_0000 * 0xffff_ffff) by (nonlinear_arith)
            requires
                size <= 0x4000_0000,
                blocks <= 0xffff_ffff,
        ;
    }
    let total = size * blocks as u64;
    (total + region - 1) / region
}

} // verus!
