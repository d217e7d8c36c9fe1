//! A buddy allocator that keeps, for each order, a sequence of block records and finds free
//! blocks by linear search.
use crate::{
    block_size, lemma_aligned_disjoint, lemma_halves_aligned, order_size, ranges_disjoint,
    region_size, top_level_blocks, PageSize, BASE_ORDER, LEVEL_COUNT, MAX_ORDER,
};
use vstd::prelude::*;

verus! {

/// Whether a block is handed out or free.
#[derive(Debug, Clone, Copy, PartialEq, Eq, Structural)]
pub enum BlockState {
    Used,
    Free,
}

/// A block record.
#[derive(Debug, Clone, Copy, PartialEq, Eq, Structural)]
pub struct Block {
    pub begin_address: usize,
    pub order: u8,
    pub state: BlockState,
}

/// The position of a block record: its order, and its index in the sequence of that order. It
/// is only good until the allocator changes.
#[derive(Debug, Clone, Copy)]
pub struct BlockIndex {
    pub order: u8,
    pub index: usize,
}

#[derive(Debug, Clone, Copy, PartialEq, Eq, Structural)]
pub enum BlockSplitError {
    BlockSmallestPossible,
}

#[derive(Debug, Clone, Copy, PartialEq, Eq, Structural)]
pub enum BlockAllocateError {
    NoBlocksAvailable,
    OrderTooLarge(u8),
}

pub open spec fn is_free(b: Block) -> bool {
    b.state == BlockState::Free
}

/// Whether `s` holds a free block.
pub open spec fn has_free(s: Seq<Block>) -> bool {
    exists|i: int| 0 <= i < s.len() && is_free(#[trigger] s[i])
}

/// Whether `p` is the position of the first free block of `s`.
pub open spec fn is_first_free(s: Seq<Block>, p: int) -> bool {
    &&& 0 <= p < s.len()
    &&& is_free(s[p])
    &&& forall|q: int| 0 <= q < p ==> !is_free(#[trigger] s[q])
}

/// The two free halves of a block.
pub open spec fn buddies(b: Block) -> (Block, Block) {
    let order = (b.order - 1) as u8;
    (
        Block { begin_address: b.begin_address, order, state: BlockState::Free },
        Block {
            begin_address: (b.begin_address + block_size(order as nat)) as usize,
            order,
            state: BlockState::Free,
        },
    )
}

/// The allocator: one sequence of block records per order.
pub struct BuddyAllocator {
    lists: Vec<Vec<Block>>,
    /// Base addresses of the registered top-level regions.
    regions: Ghost<Set<int>>,
    /// The blocks handed out, as (address, order).
    handed_out: Ghost<Set<(int, int)>>,
}

impl BuddyAllocator {
    /// The sequence of block records of order `k`.
    pub closed spec fn list(self, k: int) -> Seq<Block> {
        self.lists@[k]@
    }

    /// Base addresses of the registered top-level regions.
    pub closed spec fn regions(self) -> Set<int> {
        self.regions@
    }

    /// The blocks handed out so far, as (address, order).
    pub closed spec fn allocations(self) -> Set<(int, int)> {
        self.handed_out@
    }

    pub open spec fn valid_entry(self, k: int, i: int) -> bool {
        0 <= k <= MAX_ORDER && 0 <= i < self.list(k).len()
    }

    /// Whether the block of order `order` at `a` lies within a registered region.
    pub open spec fn in_region(self, a: int, order: int) -> bool {
        exists|base: int|
            #![trigger self.regions().contains(base)]
            self.regions().contains(base) && base <= a && a + block_size(order as nat) <= base
                + region_size()
    }

    /// The smallest order from `k` up whose sequence holds a free block, or -1 when none does.
    pub open spec fn lowest_free(self, k: int) -> int
        decreases MAX_ORDER + 1 - k,
    {
        if k > MAX_ORDER || k < 0 {
            -1
        } else if has_free(self.list(k)) {
            k
        } else {
            self.lowest_free(k + 1)
        }
    }

    /// The allocator's invariant: records sit in the sequence of their order, are aligned, lie
    /// in registered regions and do not overlap; blocks handed out overlap no free record.
    #[verifier::opaque]
    pub closed spec fn wf(self) -> bool {
        &&& self.lists@.len() == LEVEL_COUNT
        &&& forall|b: int| #[trigger]
            self.regions@.contains(b) ==> b >= 0 && b % region_size() as int == 0 && b
                + region_size() <= usize::MAX
        &&& forall|k: int, i: int|
            #![trigger self.list(k)[i]]
            self.valid_entry(k, i) ==> {
                let b = self.list(k)[i];
                &&& b.order == k
                &&& b.begin_address as int % block_size(k as nat) as int == 0
                &&& self.in_region(b.begin_address as int, k)
            }
        &&& forall|k1: int, i1: int, k2: int, i2: int|
            #![trigger self.list(k1)[i1], self.list(k2)[i2]]
            self.valid_entry(k1, i1) && self.valid_entry(k2, i2) && !(k1 == k2 && i1 == i2)
                ==> ranges_disjoint(
                self.list(k1)[i1].begin_address as int,
                block_size(k1 as nat) as int,
                self.list(k2)[i2].begin_address as int,
                block_size(k2 as nat) as int,
            )
        &&& forall|a: int, k: int| #[trigger]
            self.handed_out@.contains((a, k)) ==> 0 <= k <= MAX_ORDER && self.in_region(a, k)
        &&& forall|a1: int, k1: int, a2: int, k2: int|
            #![trigger self.handed_out@.contains((a1, k1)), self.handed_out@.contains((a2, k2))]
            self.handed_out@.contains((a1, k1)) && self.handed_out@.contains((a2, k2)) && (a1, k1)
                != (a2, k2) ==> ranges_disjoint(
                a1,
                block_size(k1 as nat) as int,
                a2,
                block_size(k2 as nat) as int,
            )
        &&& forall|a: int, k: int, k2: int, i2: int|
            #![trigger self.handed_out@.contains((a, k)), self.list(k2)[i2]]
            self.handed_out@.contains((a, k)) && self.valid_entry(k2, i2) && is_free(
                self.list(k2)[i2],
            ) ==> ranges_disjoint(
                a,
                block_size(k as nat) as int,
                self.list(k2)[i2].begin_address as int,
                block_size(k2 as nat) as int,
            )
    }

    /// An allocator with no regions.
    pub fn new() -> (r: Self)
        ensures
            r.wf(),
            forall|k: int| 0 <= k <= MAX_ORDER ==> #[trigger] r.list(k).len() == 0,
            r.regions() == Set::<int>::empty(),
            r.allocations() == Set::<(int, int)>::empty(),
    {
        let mut lists: Vec<Vec<Block>> = Vec::new();
        let mut k: u8 = 0;
        while k < LEVEL_COUNT
            invariant
                k <= LEVEL_COUNT,
                lists@.len() == k,
                forall|j: int| 0 <= j < k ==> #[trigger] lists@[j]@.len() == 0,
            decreases LEVEL_COUNT - k,
        {
            lists.push(Vec::new());
            k = k + 1;
        }
        let r = BuddyAllocator { lists, regions: Ghost(Set::empty()), handed_out: Ghost(Set::empty()) };
        proof {
            reveal(BuddyAllocator::wf);
        }
        r
    }

    /// The sequence of block records of order `order`.
    pub fn list_of(&self, order: u8) -> (r: &Vec<Block>)
        requires
            self.wf(),
            order <= MAX_ORDER,
        ensures
            r@ == self.list(order as int),
    {
        proof {
            reveal(BuddyAllocator::wf);
        }
        &self.lists[order as usize]
    }

    /// The block record at `index`, if there is one.
    pub fn get(&self, index: &BlockIndex) -> (r: Option<&Block>)
        requires
            self.wf(),
            index.order <= MAX_ORDER,
        ensures
            r is Some <==> index.index < self.list(index.order as int).len(),
            r matches Some(b) ==> *b == self.list(index.order as int)[index.index as int],
    {
        proof {
            reveal(BuddyAllocator::wf);
        }
        let list = &self.lists[index.order as usize];
        if index.index < list.len() {
            Some(&list[index.index])
        } else {
            None
        }
    }

    /// Registers a free top-level region at `begin_address`.
    pub fn create_top_level(&mut self, begin_address: usize)
        requires
            old(self).wf(),
            begin_address as int % region_size() as int == 0,
            begin_address + region_size() <= usize::MAX,
            !old(self).regions().contains(begin_address as int),
        ensures
            final(self).wf(),
            final(self).regions() == old(self).regions().insert(begin_address as int),
            final(self).allocations() == old(self).allocations(),
            final(self).list(MAX_ORDER as int) == old(self).list(MAX_ORDER as int).push(
                Block { begin_address, order: MAX_ORDER, state: BlockState::Free },
            ),
            forall|k: int|
                0 <= k < MAX_ORDER ==> #[trigger] final(self).list(k) == old(self).list(k),
    {
        proof {
            reveal(BuddyAllocator::wf);
        }
        let ghost pre = *self;
        self.lists[MAX_ORDER as usize].push(
            Block { begin_address, order: MAX_ORDER, state: BlockState::Free },
        );
        self.regions = Ghost(self.regions@.insert(begin_address as int));
        proof {
            lemma_create_top_level(pre, *self, begin_address as int);
        }
    }

    /// Position of the first free record of order `order`.
    fn position_free(&self, order: u8) -> (r: Option<usize>)
        requires
            self.wf(),
            order <= MAX_ORDER,
        ensures
            r matches Some(i) ==> is_first_free(self.list(order as int), i as int),
            r is None ==> !has_free(self.list(order as int)),
    {
        let list = self.list_of(order);
        let mut i: usize = 0;
        while i < list.len()
            invariant
                list@ == self.list(order as int),
                i <= list@.len(),
                forall|q: int| 0 <= q < i ==> !is_free(#[trigger] list@[q]),
            decreases list@.len() - i,
        {
            if list[i].state == BlockState::Free {
                return Some(i);
            }
            i = i + 1;
        }
        None
    }

    /// Splits the free record at `index` in two free halves, appended to the sequence of the
    /// order below, and returns the position of the first half.
    pub fn split(&mut self, index: BlockIndex) -> (r: Result<BlockIndex, BlockSplitError>)
        requires
            old(self).wf(),
            old(self).valid_entry(index.order as int, index.index as int),
            is_free(old(self).list(index.order as int)[index.index as int]),
        ensures
            final(self).wf(),
            final(self).regions() == old(self).regions(),
            final(self).allocations() == old(self).allocations(),
            r is Err <==> index.order == 0,
            r is Err ==> r == Err::<BlockIndex, BlockSplitError>(
                BlockSplitError::BlockSmallestPossible,
            ) && *final(self) == *old(self),
            r matches Ok(first) ==> {
                let k = index.order as int;
                let b = old(self).list(k)[index.index as int];
                &&& first.order == k - 1
                &&& first.index == old(self).list(k - 1).len()
                &&& final(self).list(k) == old(self).list(k).remove(index.index as int)
                &&& final(self).list(k - 1) == old(self).list(k - 1).push(buddies(b).0).push(
                    buddies(b).1,
                )
                &&& forall|j: int|
                    0 <= j <= MAX_ORDER && j != k && j != k - 1 ==> #[trigger] final(self).list(j)
                        == old(self).list(j)
            },
    {
        let k = index.order;
        if k == 0 {
            return Err(BlockSplitError::BlockSmallestPossible);
        }
        proof {
            reveal(BuddyAllocator::wf);
        }
        let ghost pre = *self;
        let block = self.lists[k as usize][index.index];
        let order = k - 1;
        let half = order_size(order);
        proof {
            lemma_split_bounds(pre, k as int, index.index as int);
        }
        let first = Block { begin_address: block.begin_address, order, state: BlockState::Free };
        let second = Block {
            begin_address: block.begin_address + half,
            order,
            state: BlockState::Free,
        };
        self.lists[k as usize].remove(index.index);
        self.lists[order as usize].push(first);
        self.lists[order as usize].push(second);
        proof {
            lemma_split_wf(pre, *self, k as int, index.index as int);
        }
        Ok(BlockIndex { order, index: self.lists[order as usize].len() - 2 })
    }

    /// Finds a free record of order `order`, splitting records of higher orders when that order
    /// has none, and returns its position. Does not mark it used.
    fn find_or_split(&mut self, order: u8) -> (r: Result<BlockIndex, BlockAllocateError>)
        requires
            old(self).wf(),
            order <= MAX_ORDER,
        ensures
            final(self).wf(),
            final(self).regions() == old(self).regions(),
            final(self).allocations() == old(self).allocations(),
            r is Err <==> old(self).lowest_free(order as int) == -1,
            r is Err ==> r == Err::<BlockIndex, BlockAllocateError>(
                BlockAllocateError::NoBlocksAvailable,
            ) && *final(self) == *old(self),
            r matches Ok(idx) ==> {
                let low = old(self).lowest_free(order as int);
                &&& idx.order == order
                &&& final(self).valid_entry(order as int, idx.index as int)
                &&& is_free(final(self).list(order as int)[idx.index as int])
                &&& exists|p: int|
                    is_first_free(old(self).list(low), p) && #[trigger] old(self).list(
                        low,
                    )[p].begin_address == final(self).list(order as int)[idx.index as int].begin_address
            },
        decreases MAX_ORDER - order,
    {
        let ghost pre = *self;
        match self.position_free(order) {
            Some(index) => {
                proof {
                    assert(has_free(self.list(order as int)));
                    assert(pre.lowest_free(order as int) == order);
                    assert(is_first_free(pre.list(order as int), index as int));
                    assert(pre.list(order as int)[index as int].begin_address == self.list(
                        order as int,
                    )[index as int].begin_address);
                }
                Ok(BlockIndex { order, index })
            },
            None => {
                if order >= MAX_ORDER {
                    assert(self.lowest_free(order as int + 1) == -1);
                    return Err(BlockAllocateError::NoBlocksAvailable);
                }
                let block_index = match self.find_or_split(order + 1) {
                    Ok(i) => i,
                    Err(e) => {
                        return Err(e);
                    },
                };
                let ghost mid = *self;
                let first = self.split(block_index).unwrap();
                proof {
                    let low = pre.lowest_free(order as int);
                    assert(low == pre.lowest_free(order as int + 1));
                    let p = choose|p: int|
                        is_first_free(pre.list(low), p) && #[trigger] pre.list(
                            low,
                        )[p].begin_address == mid.list(
                            order + 1,
                        )[block_index.index as int].begin_address;
                    assert(self.list(order as int)[first.index as int] == buddies(
                        mid.list(order + 1)[block_index.index as int],
                    ).0);
                    assert(pre.list(low)[p].begin_address == self.list(
                        order as int,
                    )[first.index as int].begin_address);
                }
                Ok(first)
            },
        }
    }

    /// Allocates a block of order `order`: the first free record of the lowest order from
    /// `order` up that has one, split down to `order` if need be, and marked used.
    pub fn allocate_exact(&mut self, order: u8) -> (r: Result<BlockIndex, BlockAllocateError>)
        requires
            old(self).wf(),
        ensures
            final(self).wf(),
            final(self).regions() == old(self).regions(),
            order > MAX_ORDER ==> r == Err::<BlockIndex, BlockAllocateError>(
                BlockAllocateError::OrderTooLarge(order),
            ),
            order <= MAX_ORDER && old(self).lowest_free(order as int) == -1 ==> r == Err::<
                BlockIndex,
                BlockAllocateError,
            >(BlockAllocateError::NoBlocksAvailable),
            r is Err ==> *final(self) == *old(self),
            r is Ok <==> order <= MAX_ORDER && old(self).lowest_free(order as int) != -1,
            r matches Ok(idx) ==> {
                let b = final(self).list(order as int)[idx.index as int];
                let a = b.begin_address as int;
                let low = old(self).lowest_free(order as int);
                &&& idx.order == order
                &&& final(self).valid_entry(order as int, idx.index as int)
                &&& b.order == order
                &&& b.state == BlockState::Used
                &&& a % block_size(order as nat) as int == 0
                &&& old(self).in_region(a, order as int)
                &&& exists|p: int|
                    is_first_free(old(self).list(low), p) && #[trigger] old(self).list(
                        low,
                    )[p].begin_address == a
                &&& final(self).allocations() == old(self).allocations().insert((a, order as int))
                &&& forall|u: int, k: int| #[trigger]
                    old(self).allocations().contains((u, k)) ==> u != a && ranges_disjoint(
                        a,
                        block_size(order as nat) as int,
                        u,
                        block_size(k as nat) as int,
                    )
            },
    {
        if order > MAX_ORDER {
            return Err(BlockAllocateError::OrderTooLarge(order));
        }
        let index = match self.find_or_split(order) {
            Ok(i) => i,
            Err(e) => {
                return Err(e);
            },
        };
        let ghost mid = *self;
        proof {
            reveal(BuddyAllocator::wf);
        }
        let mut block = self.lists[order as usize][index.index];
        block.state = BlockState::Used;
        self.lists[order as usize][index.index] = block;
        self.handed_out = Ghost(
            self.handed_out@.insert((block.begin_address as int, order as int)),
        );
        proof {
            lemma_mark_used(mid, *self, order as int, index.index as int);
        }
        Ok(index)
    }

    /// Allocates a page of size `size`, a block of order `size.power_of_two() - BASE_ORDER`, and
    /// returns its address.
    pub fn alloc_page(&mut self, size: PageSize) -> (r: Result<usize, BlockAllocateError>)
        requires
            old(self).wf(),
        ensures
            final(self).wf(),
            final(self).regions() == old(self).regions(),
            ({
                let order = size.spec_power_of_two() - BASE_ORDER;
                &&& r is Ok <==> old(self).lowest_free(order) != -1
                &&& r is Err ==> r == Err::<usize, BlockAllocateError>(
                    BlockAllocateError::NoBlocksAvailable,
                ) && *final(self) == *old(self)
                &&& r matches Ok(a) ==> {
                    let low = old(self).lowest_free(order);
                    &&& a as int % block_size(order as nat) as int == 0
                    &&& old(self).in_region(a as int, order)
                    &&& exists|p: int|
                        is_first_free(old(self).list(low), p) && #[trigger] old(self).list(
                            low,
                        )[p].begin_address == a
                    &&& final(self).allocations() == old(self).allocations().insert(
                        (a as int, order),
                    )
                    &&& forall|u: int, k: int| #[trigger]
                        old(self).allocations().contains((u, k)) ==> u != a && ranges_disjoint(
                            a as int,
                            block_size(order as nat) as int,
                            u,
                            block_size(k as nat) as int,
                        )
                }
            }),
    {
        let order = size.power_of_two() - BASE_ORDER;
        match self.allocate_exact(order) {
            Ok(index) => {
                let block = self.get(&index).unwrap();
                Ok(block.begin_address)
            },
            Err(e) => Err(e),
        }
    }
}

/// Registers, at consecutive multiples of the region size from 0, the regions needed for
/// `blocks` blocks of order `block_size` (as many of them as the address space holds), then
/// allocates `blocks` blocks of that order and returns their addresses, or the error of the
/// first allocation that fails.
fn demo(allocator: BuddyAllocator, blocks: u32, block_size: u8) -> (r: Result<
    Vec<usize>,
    BlockAllocateError,
>)
    requires
        allocator.wf(),
        allocator.regions() == Set::<int>::empty(),
        allocator.allocations() == Set::<(int, int)>::empty(),
        block_size <= MAX_ORDER,
    ensures
        r matches Ok(v) ==> {
            &&& v@.len() == blocks
            &&& forall|k: int|
                0 <= k < blocks ==> #[trigger] v@[k] as int % crate::block_size(
                    block_size as nat,
                ) as int == 0
            &&& forall|k1: int, k2: int|
                0 <= k1 < k2 < blocks ==> #[trigger] v@[k1] != #[trigger] v@[k2]
        },
{
    let mut allocator = allocator;
    let region = order_size(MAX_ORDER);
    let wanted = top_level_blocks(blocks, block_size);
    let room = (usize::MAX / region) as u64;
    let count = if wanted < room {
        wanted
    } else {
        room
    };
    let mut n: u64 = 0;
    proof {
        vstd::arithmetic::power2::lemma2_to64();
    }
    while n < count
        invariant
            allocator.wf(),
            region == region_size(),
            region_size() == 0x4000_0000,
            count <= usize::MAX / region,
            n <= count,
            forall|b: int| #[trigger] allocator.regions().contains(b) ==> b < n * region,
            allocator.allocations() == Set::<(int, int)>::empty(),
        decreases count - n,
    {
        proof {
            assert(n * region + region <= usize::MAX) by (nonlinear_arith)
                requires
                    n < count,
                    count <= usize::MAX / region,
                    region > 0,
            ;
            vstd::arithmetic::div_mod::lemma_mod_multiples_basic(n as int, region as int);
        }
        allocator.create_top_level(region * n as usize);
        n = n + 1;
    }
    let mut addresses: Vec<usize> = Vec::new();
    let mut done: u32 = 0;
    while done < blocks
        invariant
            allocator.wf(),
            block_size <= MAX_ORDER,
            done <= blocks,
            addresses@.len() == done,
            forall|k: int|
                0 <= k < done ==> allocator.allocations().contains(
                    (#[trigger] addresses@[k] as int, block_size as int),
                ),
            forall|k: int|
                0 <= k < done ==> #[trigger] addresses@[k] as int % crate::block_size(
                    block_size as nat,
                ) as int == 0,
            forall|k1: int, k2: int|
                0 <= k1 < k2 < done ==> #[trigger] addresses@[k1] != #[trigger] addresses@[k2],
        decreases blocks - done,
    {
        let index = match allocator.allocate_exact(block_size) {
            Ok(i) => i,
            Err(e) => {
                return Err(e);
            },
        };
        let addr = allocator.get(&index).unwrap().begin_address;
        proof {
            assert forall|k: int| 0 <= k < done implies #[trigger] addresses@[k] != addr by {
                assert(allocator.allocations().contains((addresses@[k] as int, block_size as int)));
            }
        }
        addresses.push(addr);
        done = done + 1;
    }
    Ok(addresses)
}

/// Runs the allocation demo on block records kept in vectors.
pub fn demo_vecs(blocks: u32, block_size: u8) -> (r: Result<Vec<usize>, BlockAllocateError>)
    requires
        block_size <= MAX_ORDER,
    ensures
        r matches Ok(v) ==> {
            &&& v@.len() == blocks
            &&& forall|k: int|
                0 <= k < blocks ==> #[trigger] v@[k] as int % crate::block_size(
                    block_size as nat,
                ) as int == 0
            &&& forall|k1: int, k2: int|
                0 <= k1 < k2 < blocks ==> #[trigger] v@[k1] != #[trigger] v@[k2]
        },
{
    demo(BuddyAllocator::new(), blocks, block_size)
}

/// Runs the allocation demo of the linked-list flavour. The sequences of block records are the
/// same vectors as in `demo_vecs`: std's `LinkedList` has no specification to verify against.
pub fn demo_linked_lists(blocks: u32, block_size: u8) -> (r: Result<Vec<usize>, BlockAllocateError>)
    requires
        block_size <= MAX_ORDER,
    ensures
        r matches Ok(v) ==> {
            &&& v@.len() == blocks
            &&& forall|k: int|
                0 <= k < blocks ==> #[trigger] v@[k] as int % crate::block_size(
                    block_size as nat,
                ) as int == 0
            &&& forall|k1: int, k2: int|
                0 <= k1 < k2 < blocks ==> #[trigger] v@[k1] != #[trigger] v@[k2]
        },
{
    demo(BuddyAllocator::new(), blocks, block_size)
}

/// Whether a block lies in a region depends on the regions alone.
proof fn lemma_in_region_same(x: BuddyAllocator, y: BuddyAllocator, a: int, k: int)
    requires
        x.regions() == y.regions(),
        x.in_region(a, k),
    ensures
        y.in_region(a, k),
{
    let w = choose|w: int|
        #![trigger x.regions().contains(w)]
        x.regions().contains(w) && w <= a && a + block_size(k as nat) <= w + region_size();
    assert(y.regions().contains(w));
}

/// Registering a region that is not registered yet keeps the invariant.
proof fn lemma_create_top_level(pre: BuddyAllocator, post: BuddyAllocator, base: int)
    requires
        pre.wf(),
        base >= 0,
        base % region_size() as int == 0,
        base + region_size() <= usize::MAX,
        !pre.regions().contains(base),
        post.lists@.len() == LEVEL_COUNT,
        post.list(MAX_ORDER as int) == pre.list(MAX_ORDER as int).push(
            Block { begin_address: base as usize, order: MAX_ORDER, state: BlockState::Free },
        ),
        forall|k: int| 0 <= k < MAX_ORDER ==> #[trigger] post.list(k) == pre.list(k),
        post.regions@ == pre.regions@.insert(base),
        post.handed_out@ == pre.handed_out@,
    ensures
        post.wf(),
{
    reveal(BuddyAllocator::wf);
    let n = pre.list(MAX_ORDER as int).len() as int;
    let r = region_size() as int;
    vstd::arithmetic::power2::lemma_pow2_pos(crate::BASE_ORDER as nat + MAX_ORDER as nat);
    assert forall|k: int, i: int| pre.valid_entry(k, i) implies post.valid_entry(k, i)
        && #[trigger] post.list(k)[i] == pre.list(k)[i] by {
        if k == MAX_ORDER {
            assert(post.list(k)[i] == pre.list(k)[i]);
        }
    }
    // A block inside another registered region is disjoint from the new region.
    assert forall|a: int, k: int|
        pre.in_region(a, k) && 0 <= k <= MAX_ORDER implies #[trigger] post.in_region(a, k)
        && ranges_disjoint(a, block_size(k as nat) as int, base, r) by {
        let w = choose|w: int|
            #![trigger pre.regions().contains(w)]
            pre.regions().contains(w) && w <= a && a + block_size(k as nat) <= w + region_size();
        assert(post.regions().contains(w));
        lemma_aligned_disjoint(w, base, r);
    }
    assert(post.in_region(base, MAX_ORDER as int)) by {
        assert(post.regions().contains(base));
    }
    assert forall|k: int, i: int|
        #[trigger] post.valid_entry(k, i) && !(k == MAX_ORDER && i == n) implies pre.valid_entry(
        k,
        i,
    ) by {
        if k < MAX_ORDER {
            assert(post.list(k) == pre.list(k));
        }
    }
    assert forall|k: int, i: int|
        #![trigger post.list(k)[i]]
        post.valid_entry(k, i) implies {
        let b = post.list(k)[i];
        &&& b.order == k
        &&& b.begin_address as int % block_size(k as nat) as int == 0
        &&& post.in_region(b.begin_address as int, k)
    } by {
        if !(k == MAX_ORDER && i == n) {
            assert(pre.valid_entry(k, i));
            assert(pre.in_region(pre.list(k)[i].begin_address as int, k));
        }
    }
    assert forall|k1: int, i1: int, k2: int, i2: int|
        #![trigger post.list(k1)[i1], post.list(k2)[i2]]
        post.valid_entry(k1, i1) && post.valid_entry(k2, i2) && !(k1 == k2 && i1 == i2)
            implies ranges_disjoint(
            post.list(k1)[i1].begin_address as int,
            block_size(k1 as nat) as int,
            post.list(k2)[i2].begin_address as int,
            block_size(k2 as nat) as int,
        ) by {
        let new1 = k1 == MAX_ORDER && i1 == n;
        let new2 = k2 == MAX_ORDER && i2 == n;
        if !new1 {
            assert(pre.valid_entry(k1, i1));
            assert(pre.in_region(pre.list(k1)[i1].begin_address as int, k1));
        }
        if !new2 {
            assert(pre.valid_entry(k2, i2));
            assert(pre.in_region(pre.list(k2)[i2].begin_address as int, k2));
        }
        if !new1 && !new2 {
            assert(pre.list(k1)[i1] == post.list(k1)[i1]);
            assert(pre.list(k2)[i2] == post.list(k2)[i2]);
        }
    }
    assert forall|a: int, k: int, k2: int, i2: int|
        #![trigger post.handed_out@.contains((a, k)), post.list(k2)[i2]]
        post.handed_out@.contains((a, k)) && post.valid_entry(k2, i2) && is_free(
            post.list(k2)[i2],
        ) implies ranges_disjoint(
        a,
        block_size(k as nat) as int,
        post.list(k2)[i2].begin_address as int,
        block_size(k2 as nat) as int,
    ) by {
        assert(pre.handed_out@.contains((a, k)));
        assert(pre.in_region(a, k));
        assert(post.in_region(a, k));
        if !(k2 == MAX_ORDER && i2 == n) {
            assert(pre.valid_entry(k2, i2));
            assert(pre.list(k2)[i2] == post.list(k2)[i2]);
        }
    }
}

/// A free record of order `k >= 1` at `i` is twice the size of its halves and ends within
/// the address space.
proof fn lemma_split_bounds(pre: BuddyAllocator, k: int, i: int)
    requires
        pre.wf(),
        pre.valid_entry(k, i),
        k >= 1,
    ensures
        block_size(k as nat) == 2 * block_size((k - 1) as nat),
        pre.list(k)[i].begin_address + block_size(k as nat) <= usize::MAX,
{
    reveal(BuddyAllocator::wf);
    let b = pre.list(k)[i];
    assert(pre.in_region(b.begin_address as int, k));
    let w = choose|w: int|
        #![trigger pre.regions().contains(w)]
        pre.regions().contains(w) && w <= b.begin_address && b.begin_address + block_size(
            k as nat,
        ) <= w + region_size();
    lemma_halves_aligned(b.begin_address as int, k as nat);
}

/// Where a record after a split came from: `(order, index)` of the same record before the
/// split, or `(-1, h)` for half `h` of the split record.
spec fn split_origin(pre: BuddyAllocator, k: int, i: int, j: int, x: int) -> (int, int) {
    if j == k {
        if x < i {
            (k, x)
        } else {
            (k, x + 1)
        }
    } else if j == k - 1 && x >= pre.list(k - 1).len() {
        (-1, x - pre.list(k - 1).len())
    } else {
        (j, x)
    }
}

/// The relation between the allocator before and after splitting the record at `(k, i)`.
spec fn split_step(pre: BuddyAllocator, post: BuddyAllocator, k: int, i: int) -> bool {
    let b = pre.list(k)[i];
    &&& post.lists@.len() == LEVEL_COUNT
    &&& post.list(k) == pre.list(k).remove(i)
    &&& post.list(k - 1) == pre.list(k - 1).push(buddies(b).0).push(buddies(b).1)
    &&& forall|j: int| 0 <= j <= MAX_ORDER && j != k && j != k - 1 ==> #[trigger] post.list(j) == pre.list(j)
    &&& post.regions@ == pre.regions@
    &&& post.handed_out@ == pre.handed_out@
}

proof fn lemma_split_entry(pre: BuddyAllocator, post: BuddyAllocator, k: int, i: int, j: int, x: int)
    requires
        pre.lists@.len() == LEVEL_COUNT,
        pre.valid_entry(k, i),
        k >= 1,
        split_step(pre, post, k, i),
        post.valid_entry(j, x),
    ensures
        ({
            let (o, p) = split_origin(pre, k, i, j, x);
            &&& o >= 0 ==> pre.valid_entry(o, p) && !(o == k && p == i) && post.list(j)[x]
                == pre.list(o)[p]
            &&& o < 0 ==> j == k - 1 && (p == 0 && post.list(j)[x] == buddies(pre.list(k)[i]).0
                || p == 1 && post.list(j)[x] == buddies(pre.list(k)[i]).1)
        }),
{
    if j != k && j != k - 1 {
        assert(post.list(j) == pre.list(j));
    }
}

/// Splitting a free record keeps the invariant.
proof fn lemma_split_wf(pre: BuddyAllocator, post: BuddyAllocator, k: int, i: int)
    requires
        pre.wf(),
        pre.valid_entry(k, i),
        k >= 1,
        is_free(pre.list(k)[i]),
        split_step(pre, post, k, i),
    ensures
        post.wf(),
{
    reveal(BuddyAllocator::wf);
    let b = pre.list(k)[i];
    let a = b.begin_address as int;
    let h = block_size((k - 1) as nat) as int;
    lemma_halves_aligned(a, k as nat);
    lemma_split_bounds(pre, k, i);
    assert(buddies(b).1.begin_address == a + h);
    assert(pre.in_region(a, k));
    let w = choose|w: int|
        #![trigger pre.regions().contains(w)]
        pre.regions().contains(w) && w <= a && a + block_size(k as nat) <= w + region_size();
    assert(post.in_region(a, k - 1)) by {
        assert(post.regions().contains(w));
    }
    assert(post.in_region(a + h, k - 1)) by {
        assert(post.regions().contains(w));
    }
    assert forall|j: int, x: int|
        #![trigger post.list(j)[x]]
        post.valid_entry(j, x) implies {
        let e = post.list(j)[x];
        &&& e.order == j
        &&& e.begin_address as int % block_size(j as nat) as int == 0
        &&& post.in_region(e.begin_address as int, j)
    } by {
        lemma_split_entry(pre, post, k, i, j, x);
        let (o, p) = split_origin(pre, k, i, j, x);
        if o >= 0 {
            let e = pre.list(o)[p];
            assert(pre.in_region(e.begin_address as int, o));
            let v = choose|v: int|
                #![trigger pre.regions().contains(v)]
                pre.regions().contains(v) && v <= e.begin_address && e.begin_address + block_size(
                    o as nat,
                ) <= v + region_size();
            assert(post.regions().contains(v));
        }
    }
    assert forall|k1: int, i1: int, k2: int, i2: int|
        #![trigger post.list(k1)[i1], post.list(k2)[i2]]
        post.valid_entry(k1, i1) && post.valid_entry(k2, i2) && !(k1 == k2 && i1 == i2)
            implies ranges_disjoint(
            post.list(k1)[i1].begin_address as int,
            block_size(k1 as nat) as int,
            post.list(k2)[i2].begin_address as int,
            block_size(k2 as nat) as int,
        ) by {
        lemma_split_entry(pre, post, k, i, k1, i1);
        lemma_split_entry(pre, post, k, i, k2, i2);
        let (o1, x1) = split_origin(pre, k, i, k1, i1);
        let (o2, x2) = split_origin(pre, k, i, k2, i2);
        if o1 >= 0 && o2 >= 0 {
            assert(pre.list(o1)[x1] == post.list(k1)[i1]);
            assert(pre.list(o2)[x2] == post.list(k2)[i2]);
        } else if o1 >= 0 {
            assert(pre.list(o1)[x1] == post.list(k1)[i1]);
            assert(pre.list(k)[i] == b);
        } else if o2 >= 0 {
            assert(pre.list(o2)[x2] == post.list(k2)[i2]);
            assert(pre.list(k)[i] == b);
        }
    }
    assert forall|u: int, ku: int, k2: int, i2: int|
        #![trigger post.handed_out@.contains((u, ku)), post.list(k2)[i2]]
        post.handed_out@.contains((u, ku)) && post.valid_entry(k2, i2) && is_free(
            post.list(k2)[i2],
        ) implies ranges_disjoint(
        u,
        block_size(ku as nat) as int,
        post.list(k2)[i2].begin_address as int,
        block_size(k2 as nat) as int,
    ) by {
        lemma_split_entry(pre, post, k, i, k2, i2);
        let (o, p) = split_origin(pre, k, i, k2, i2);
        assert(pre.handed_out@.contains((u, ku)));
        if o >= 0 {
            assert(pre.list(o)[p] == post.list(k2)[i2]);
        } else {
            assert(pre.list(k)[i] == b);
        }
    }
}

/// Marking the free record at `(k, i)` used, and recording its block as handed out, keeps the
/// invariant; that block overlaps no block handed out before.
proof fn lemma_mark_used(mid: BuddyAllocator, post: BuddyAllocator, k: int, i: int)
    requires
        mid.wf(),
        mid.valid_entry(k, i),
        is_free(mid.list(k)[i]),
        post.lists@.len() == LEVEL_COUNT,
        post.list(k) == mid.list(k).update(
            i,
            Block { state: BlockState::Used, ..mid.list(k)[i] },
        ),
        forall|j: int| 0 <= j <= MAX_ORDER && j != k ==> #[trigger] post.list(j) == mid.list(j),
        post.regions@ == mid.regions@,
        post.handed_out@ == mid.handed_out@.insert((mid.list(k)[i].begin_address as int, k)),
    ensures
        post.wf(),
        mid.list(k)[i].begin_address as int % block_size(k as nat) as int == 0,
        mid.in_region(mid.list(k)[i].begin_address as int, k),
        forall|u: int, ku: int| #[trigger]
            mid.handed_out@.contains((u, ku)) ==> u != mid.list(k)[i].begin_address && ranges_disjoint(
                mid.list(k)[i].begin_address as int,
                block_size(k as nat) as int,
                u,
                block_size(ku as nat) as int,
            ),
{
    reveal(BuddyAllocator::wf);
    let b = mid.list(k)[i];
    let a = b.begin_address as int;
    assert forall|j: int, x: int| #[trigger] post.valid_entry(j, x) implies mid.valid_entry(j, x)
        && post.list(j)[x].begin_address == mid.list(j)[x].begin_address && post.list(j)[x].order
        == mid.list(j)[x].order && (is_free(post.list(j)[x]) ==> is_free(mid.list(j)[x]) && !(j
        == k && x == i)) by {
        if j != k {
            assert(post.list(j) == mid.list(j));
        }
    }
    assert forall|j: int, x: int| #[trigger] mid.valid_entry(j, x) implies post.valid_entry(j, x) by {
        if j != k {
            assert(post.list(j) == mid.list(j));
        }
    }
    assert forall|u: int, ku: int| #[trigger]
        mid.handed_out@.contains((u, ku)) implies u != a && ranges_disjoint(
        a,
        block_size(k as nat) as int,
        u,
        block_size(ku as nat) as int,
    ) by {
        assert(mid.list(k)[i] == b);
        vstd::arithmetic::power2::lemma_pow2_pos(crate::BASE_ORDER as nat + k as nat);
        vstd::arithmetic::power2::lemma_pow2_pos(crate::BASE_ORDER as nat + ku as nat);
    }
    assert(mid.list(k)[i] == b);
    assert forall|j: int, x: int|
        #![trigger post.list(j)[x]]
        post.valid_entry(j, x) implies {
        let e = post.list(j)[x];
        &&& e.order == j
        &&& e.begin_address as int % block_size(j as nat) as int == 0
        &&& post.in_region(e.begin_address as int, j)
    } by {
        assert(mid.valid_entry(j, x));
        assert(mid.list(j)[x].order == j);
        lemma_in_region_same(mid, post, mid.list(j)[x].begin_address as int, j);
    }
    assert forall|k1: int, i1: int, k2: int, i2: int|
        #![trigger post.list(k1)[i1], post.list(k2)[i2]]
        post.valid_entry(k1, i1) && post.valid_entry(k2, i2) && !(k1 == k2 && i1 == i2)
            implies ranges_disjoint(
            post.list(k1)[i1].begin_address as int,
            block_size(k1 as nat) as int,
            post.list(k2)[i2].begin_address as int,
            block_size(k2 as nat) as int,
        ) by {
        assert(mid.valid_entry(k1, i1));
        assert(mid.valid_entry(k2, i2));
        assert(mid.list(k1)[i1].begin_address == post.list(k1)[i1].begin_address);
        assert(mid.list(k2)[i2].begin_address == post.list(k2)[i2].begin_address);
    }
    assert forall|u: int, ku: int, k2: int, i2: int|
        #![trigger post.handed_out@.contains((u, ku)), post.list(k2)[i2]]
        post.handed_out@.contains((u, ku)) && post.valid_entry(k2, i2) && is_free(
            post.list(k2)[i2],
        ) implies ranges_disjoint(
        u,
        block_size(ku as nat) as int,
        post.list(k2)[i2].begin_address as int,
        block_size(k2 as nat) as int,
    ) by {
        assert(mid.valid_entry(k2, i2));
        assert(is_free(mid.list(k2)[i2]));
        if (u, ku) == (a, k) {
            assert(mid.list(k2)[i2].begin_address == post.list(k2)[i2].begin_address);
        } else {
            assert(mid.handed_out@.contains((u, ku)));
        }
    }
    assert forall|u: int, ku: int| #[trigger]
        post.handed_out@.contains((u, ku)) implies 0 <= ku <= MAX_ORDER && post.in_region(u, ku) by {
        if (u, ku) != (a, k) {
            assert(mid.handed_out@.contains((u, ku)));
        }
        lemma_in_region_same(mid, post, u, ku);
    }
    assert forall|a1: int, k1: int, a2: int, k2: int|
        #![trigger post.handed_out@.contains((a1, k1)), post.handed_out@.contains((a2, k2))]
        post.handed_out@.contains((a1, k1)) && post.handed_out@.contains((a2, k2)) && (a1, k1)
            != (a2, k2) implies ranges_disjoint(
        a1,
        block_size(k1 as nat) as int,
        a2,
        block_size(k2 as nat) as int,
    ) by {
        if (a1, k1) == (a, k) {
            assert(mid.handed_out@.contains((a2, k2)));
        } else if (a2, k2) == (a, k) {
            assert(mid.handed_out@.contains((a1, k1)));
        } else {
            assert(mid.handed_out@.contains((a1, k1)));
            assert(mid.handed_out@.contains((a2, k2)));
        }
    }
}

/// Any two distinct blocks handed out, over any sequence of calls, are disjoint: no address is
/// handed out twice and no block overlaps another.
pub proof fn lemma_allocations_disjoint(
    allocator: BuddyAllocator,
    a1: int,
    k1: int,
    a2: int,
    k2: int,
)
    requires
        allocator.wf(),
        allocator.allocations().contains((a1, k1)),
        allocator.allocations().contains((a2, k2)),
        (a1, k1) != (a2, k2),
    ensures
        a1 != a2,
        ranges_disjoint(a1, block_size(k1 as nat) as int, a2, block_size(k2 as nat) as int),
{
    reveal(BuddyAllocator::wf);
    vstd::arithmetic::power2::lemma_pow2_pos(crate::BASE_ORDER as nat + k1 as nat);
    vstd::arithmetic::power2::lemma_pow2_pos(crate::BASE_ORDER as nat + k2 as nat);
}

} // verus!
