//! A buddy allocator that keeps its block records in an address-ordered set, with one free list
//! per order. A record is one packed 64-bit word: bit 0 tells whether the block is used, bits
//! 1 to 7 hold its order and bits 8 to 63 its address.
use crate::{
    block_size, lemma_aligned_disjoint, lemma_halves_aligned, order_size, ranges_disjoint,
    region_size, top_level_blocks, PageSize, BASE_ORDER, LEVEL_COUNT, MAX_ORDER,
};
use bit_field::BitField;
use vstd::prelude::*;

verus! {

/// Relies on `<u64 as bit_field::BitField>::get_bit`: whether bit `bit` of `w` is set.
#[verifier::external_body]
fn word_get_bit(w: u64, bit: usize) -> (r: bool)
    requires
        bit < 64,
    ensures
        r == (w & (1u64 << bit as u64) != 0),
{
    w.get_bit(bit)
}

/// Relies on `<u64 as bit_field::BitField>::set_bit`: `w` with bit `bit` set to `value`.
#[verifier::external_body]
fn word_set_bit(w: u64, bit: usize, value: bool) -> (r: u64)
    requires
        bit < 64,
    ensures
        r == if value {
            w | (1u64 << bit as u64)
        } else {
            w & !(1u64 << bit as u64)
        },
{
    let mut x = w;
    x.set_bit(bit, value);
    x
}

/// Relies on `<u64 as bit_field::BitField>::get_bits`: bits `start..end` of `w`, shifted down
/// to bit 0.
#[verifier::external_body]
fn word_get_bits(w: u64, start: usize, end: usize) -> (r: u64)
    requires
        start < end <= 64,
    ensures
        r == ((w << (64 - end) as u64) >> (64 - end) as u64) >> start as u64,
{
    w.get_bits(start..end)
}

/// Relies on `<u64 as bit_field::BitField>::set_bits`: `w` with bits `start..end` replaced by
/// `value`, which must fit in them.
#[verifier::external_body]
fn word_set_bits(w: u64, start: usize, end: usize, value: u64) -> (r: u64)
    requires
        start < end <= 64,
        (value << (64 - (end - start)) as u64) >> (64 - (end - start)) as u64 == value,
    ensures
        r == (w & !(((((!0u64) << (64 - end) as u64) >> (64 - end) as u64) >> start as u64)
            << start as u64)) | (value << start as u64),
{
    let mut x = w;
    x.set_bits(start..end, value);
    x
}

/// A block record, packed in one word.
#[derive(Debug, Clone, Copy, PartialEq, Eq, Structural)]
pub struct Block {
    bit_field: u64,
}

impl Block {
    /// Whether the block is handed out.
    pub closed spec fn spec_used(self) -> bool {
        self.bit_field & 1 != 0
    }

    /// The block's order.
    pub closed spec fn spec_order(self) -> u64 {
        (self.bit_field >> 1u64) & 0x7f
    }

    /// The block's address.
    pub closed spec fn spec_address(self) -> u64 {
        self.bit_field >> 8u64
    }

    /// A record of the block of order `order` at `begin_address`.
    pub fn new(begin_address: usize, order: u8, used: bool) -> (r: Block)
        requires
            order < 128,
            begin_address < 0x100_0000_0000_0000,
        ensures
            r.spec_used() == used,
            r.spec_order() == order,
            r.spec_address() == begin_address,
    {
        let w0 = word_set_bit(0, 0, used);
        assert(w0 == if used {
            1u64
        } else {
            0u64
        }) by (bit_vector)
            requires
                w0 == if used {
                    0u64 | (1u64 << 0u64)
                } else {
                    0u64 & !(1u64 << 0u64)
                },
        ;
        let o = order as u64;
        assert((o << 57u64) >> 57u64 == o) by (bit_vector)
            requires
                o < 128,
        ;
        let w1 = word_set_bits(w0, 1, 8, o);
        let a = begin_address as u64;
        assert((a << 8u64) >> 8u64 == a) by (bit_vector)
            requires
                a < 0x100_0000_0000_0000,
        ;
        let w2 = word_set_bits(w1, 8, 64, a);
        assert(((w2 & 1 != 0) == used) && (w2 >> 1u64) & 0x7f == o && w2 >> 8u64 == a) by (bit_vector)
            requires
                w0 == if used {
                    1u64
                } else {
                    0u64
                },
                o < 128,
                a < 0x100_0000_0000_0000,
                w1 == (w0 & !(((((!0u64) << 56u64) >> 56u64) >> 1u64) << 1u64)) | (o << 1u64),
                w2 == (w1 & !(((((!0u64) << 0u64) >> 0u64) >> 8u64) << 8u64)) | (a << 8u64),
        ;
        Block { bit_field: w2 }
    }

    /// Whether the block is handed out.
    pub fn used(&self) -> (r: bool)
        ensures
            r == self.spec_used(),
    {
        let w = self.bit_field;
        let r = word_get_bit(w, 0);
        assert(r == (w & 1 != 0)) by (bit_vector)
            requires
                r == (w & (1u64 << 0u64) != 0),
        ;
        r
    }

    /// Marks the block used or free.
    pub fn set_used(&mut self, used: bool)
        ensures
            final(self).spec_used() == used,
            final(self).spec_order() == old(self).spec_order(),
            final(self).spec_address() == old(self).spec_address(),
    {
        let w = self.bit_field;
        let n = word_set_bit(w, 0, used);
        assert(((n & 1 != 0) == used) && (n >> 1u64) & 0x7f == (w >> 1u64) & 0x7f && n >> 8u64 == w
            >> 8u64) by (bit_vector)
            requires
                n == if used {
                    w | (1u64 << 0u64)
                } else {
                    w & !(1u64 << 0u64)
                },
        ;
        self.bit_field = n;
    }

    /// The block's order.
    pub fn order(&self) -> (r: u8)
        ensures
            r == self.spec_order(),
    {
        let w = self.bit_field;
        let r = word_get_bits(w, 1, 8);
        assert(r == (w >> 1u64) & 0x7f && r < 128) by (bit_vector)
            requires
                r == ((w << 56u64) >> 56u64) >> 1u64,
        ;
        r as u8
    }

    /// The block's address.
    pub fn address(&self) -> (r: usize)
        requires
            self.spec_address() <= usize::MAX,
        ensures
            r == self.spec_address(),
    {
        let w = self.bit_field;
        let r = word_get_bits(w, 8, 64);
        assert(r == w >> 8u64) by (bit_vector)
            requires
                r == ((w << 0u64) >> 0u64) >> 8u64,
        ;
        r as usize
    }
}

#[derive(Debug, Clone, Copy, PartialEq, Eq, Structural)]
pub enum BlockSplitError {
    BlockSmallestPossible,
}

#[derive(Debug, Clone, Copy, PartialEq, Eq, Structural)]
pub enum BlockAllocateError {
    NoBlocksAvailable,
    OrderTooLarge(u8),
}

/// Largest address a record can hold, plus one.
pub open spec fn address_limit() -> int {
    0x100_0000_0000_0000
}

pub open spec fn addr_of(b: Block) -> int {
    b.spec_address() as int
}

pub open spec fn order_of(b: Block) -> int {
    b.spec_order() as int
}

/// A last-in first-out list of free blocks of one order, each named by its address.
pub trait FreeList: Sized {
    /// The addresses in the list; the last one is the next to come out.
    spec fn items(&self) -> Seq<usize>;

    fn empty() -> (r: Self)
        ensures
            r.items() == Seq::<usize>::empty(),
    ;

    fn push(&mut self, block: usize)
        ensures
            final(self).items() == old(self).items().push(block),
    ;

    fn pop(&mut self) -> (r: Option<usize>)
        ensures
            old(self).items().len() == 0 ==> r is None && final(self).items() == old(self).items(),
            old(self).items().len() > 0 ==> r == Some(old(self).items().last()) && final(self).items() == old(self).items().drop_last(),
    ;

    /// Removes an occurrence of `block`, if there is one.
    fn remove(&mut self, block: usize) -> (r: Option<()>)
        ensures
            !old(self).items().contains(block) ==> r is None && final(self).items() == old(self).items(),
            old(self).items().contains(block) ==> r is Some && exists|i: int|
                0 <= i < old(self).items().len() && #[trigger] old(self).items()[i] == block
                    && final(self).items() == old(self).items().remove(i),
    ;
}

impl FreeList for Vec<usize> {
    open spec fn items(&self) -> Seq<usize> {
        self@
    }

    fn empty() -> (r: Self) {
        Vec::new()
    }

    fn push(&mut self, block: usize) {
        Vec::push(self, block);
    }

    fn pop(&mut self) -> (r: Option<usize>) {
        Vec::pop(self)
    }

    fn remove(&mut self, block: usize) -> (r: Option<()>) {
        let ghost pre = self@;
        let mut i: usize = 0;
        while i < self.len()
            invariant
                self@ == pre,
                pre == old(self)@,
                i <= pre.len(),
                forall|j: int| 0 <= j < i ==> pre[j] != block,
            decreases pre.len() - i,
        {
            if self[i] == block {
                Vec::remove(self, i);
                proof {
                    assert(pre[i as int] == block);
                    assert(pre.contains(block));
                    assert(self@ == pre.remove(i as int));
                }
                return Some(());
            }
            i = i + 1;
        }
        proof {
            if pre.contains(block) {
                let j = choose|j: int| 0 <= j < pre.len() && #[trigger] pre[j] == block;
                assert(pre[j] != block);
            }
        }
        None
    }
}

/// A node of a singly linked free list: the address of a free block, and the rest of the list.
pub struct BlockPtr {
    ptr: usize,
    next: Option<Box<BlockPtr>>,
}

/// The addresses from `n` to the end of the list, last node first.
pub closed spec fn chain(n: Option<Box<BlockPtr>>) -> Seq<usize>
    decreases n,
{
    match n {
        None => Seq::empty(),
        Some(b) => chain(b.next).push(b.ptr),
    }
}

/// Removes the first node holding `block` from the list starting at `list`.
fn remove_from(list: Option<Box<BlockPtr>>, block: usize) -> (r: (Option<Box<BlockPtr>>, bool))
    ensures
        !chain(list).contains(block) ==> !r.1 && chain(r.0) == chain(list),
        chain(list).contains(block) ==> r.1 && exists|i: int|
            0 <= i < chain(list).len() && #[trigger] chain(list)[i] == block && chain(r.0) == chain(
                list,
            ).remove(i),
    decreases list,
{
    match list {
        None => (None, false),
        Some(node) => {
            let BlockPtr { ptr, next } = *node;
            proof {
                assert(chain(Some(node)) == chain(next).push(ptr));
            }
            if ptr == block {
                proof {
                    let s = chain(next).push(ptr);
                    assert(s[s.len() - 1] == block);
                    assert(s.remove(s.len() - 1) =~= chain(next));
                }
                (next, true)
            } else {
                let ghost rest_before = chain(next);
                let (rest, found) = remove_from(next, block);
                let result = Some(Box::new(BlockPtr { ptr, next: rest }));
                proof {
                    let s = rest_before.push(ptr);
                    assert(chain(result) == chain(rest).push(ptr));
                    if s.contains(block) {
                        let j = choose|j: int| 0 <= j < s.len() && s[j] == block;
                        assert(j < rest_before.len());
                        assert(rest_before[j] == block);
                        let i = choose|i: int|
                            0 <= i < rest_before.len() && #[trigger] rest_before[i] == block
                                && chain(rest) == rest_before.remove(i);
                        assert(s[i] == block);
                        assert(chain(result) =~= s.remove(i));
                    } else {
                        if rest_before.contains(block) {
                            let j = choose|j: int| 0 <= j < rest_before.len() && rest_before[j] == block;
                            assert(s[j] == block);
                        }
                        assert(chain(result) =~= s);
                    }
                }
                (result, found)
            }
        },
    }
}

/// A singly linked free list: pushes and pops at the front.
pub struct BlockPtrList {
    head: Option<Box<BlockPtr>>,
}

impl FreeList for BlockPtrList {
    closed spec fn items(&self) -> Seq<usize> {
        chain(self.head)
    }

    fn empty() -> (r: Self) {
        BlockPtrList { head: None }
    }

    fn push(&mut self, block: usize) {
        let rest = self.head.take();
        self.head = Some(Box::new(BlockPtr { ptr: block, next: rest }));
    }

    fn pop(&mut self) -> (r: Option<usize>) {
        match self.head.take() {
            None => None,
            Some(node) => {
                let BlockPtr { ptr, next } = *node;
                proof {
                    assert(chain(Some(node)) == chain(next).push(ptr));
                    assert(chain(next).push(ptr).drop_last() =~= chain(next));
                }
                self.head = next;
                Some(ptr)
            },
        }
    }

    fn remove(&mut self, block: usize) -> (r: Option<()>) {
        let (rest, found) = remove_from(self.head.take(), block);
        self.head = rest;
        if found {
            Some(())
        } else {
            None
        }
    }
}

impl BlockPtrList {
    /// The addresses in the list, front first.
    pub fn pointers(&self) -> (r: Vec<usize>)
        ensures
            r@ == self.items().reverse(),
    {
        let mut out: Vec<usize> = Vec::new();
        collect(&self.head, &mut out);
        proof {
            assert(out@ =~= Seq::<usize>::empty() + chain(self.head).reverse());
        }
        out
    }
}

/// Appends the addresses from `n` to the end of the list, in list order, to `out`.
fn collect(n: &Option<Box<BlockPtr>>, out: &mut Vec<usize>)
    ensures
        final(out)@ == old(out)@ + chain(*n).reverse(),
    decreases *n,
{
    match n {
        None => {
            assert(chain(*n).reverse() =~= Seq::<usize>::empty());
            assert(final(out)@ =~= old(out)@ + chain(*n).reverse());
        },
        Some(node) => {
            let ghost before = out@;
            out.push(node.ptr);
            collect(&node.next, out);
            proof {
                assert(chain(*n) == chain(node.next).push(node.ptr));
                assert(chain(*n).reverse() =~= seq![node.ptr] + chain(node.next).reverse());
                assert(out@ =~= before + chain(*n).reverse());
            }
        },
    }
}

/// The allocator: records ordered by address, and one free list per order.
pub struct BuddyAllocator<L: FreeList> {
    tree: Vec<Block>,
    free: Vec<L>,
    /// Base addresses of the registered top-level regions.
    regions: Ghost<Set<int>>,
    /// The blocks handed out, as (address, order).
    handed_out: Ghost<Set<(int, int)>>,
}

impl<L: FreeList> BuddyAllocator<L> {
    /// The records, in the order of the set.
    pub closed spec fn records(self) -> Seq<Block> {
        self.tree@
    }

    /// The free lists.
    pub closed spec fn lists(self) -> Seq<L> {
        self.free@
    }

    /// The free list of order `k`.
    pub closed spec fn free_list(self, k: int) -> Seq<usize> {
        self.free@[k].items()
    }

    /// Base addresses of the registered top-level regions.
    pub closed spec fn regions(self) -> Set<int> {
        self.regions@
    }

    /// The blocks handed out so far, as (address, order).
    pub closed spec fn allocations(self) -> Set<(int, int)> {
        self.handed_out@
    }

    /// Whether the block of order `order` at `a` lies within a registered region.
    pub open spec fn in_region(self, a: int, order: int) -> bool {
        exists|base: int|
            #![trigger self.regions().contains(base)]
            self.regions().contains(base) && base <= a && a + block_size(order as nat) <= base
                + region_size()
    }

    /// Whether some free record of order `k` sits at address `a`.
    pub open spec fn is_free_record(self, a: int, k: int) -> bool {
        exists|i: int|
            0 <= i < self.records().len() && addr_of(#[trigger] self.records()[i]) == a
                && order_of(self.records()[i]) == k && !self.records()[i].spec_used()
    }

    /// The smallest order from `k` up whose free list is not empty, or -1 when all are.
    pub open spec fn lowest_listed(self, k: int) -> int
        decreases MAX_ORDER + 1 - k,
    {
        if k > MAX_ORDER || k < 0 {
            -1
        } else if self.free_list(k).len() > 0 {
            k
        } else {
            self.lowest_listed(k + 1)
        }
    }

    /// The records are in strictly ascending address order and do not overlap; each is
    /// aligned and lies in a registered region; blocks handed out lie in registered regions and
    /// overlap no free record.
    #[verifier::opaque]
    pub closed spec fn tree_ok(self) -> bool {
        &&& forall|b: int| #[trigger]
            self.regions@.contains(b) ==> b >= 0 && b % region_size() as int == 0 && b
                + region_size() <= usize::MAX && b + region_size() <= address_limit()
        &&& forall|i: int|
            0 <= i < self.tree@.len() ==> {
                let b = #[trigger] self.tree@[i];
                &&& order_of(b) <= MAX_ORDER
                &&& addr_of(b) % block_size(order_of(b) as nat) as int == 0
                &&& self.in_region(addr_of(b), order_of(b))
            }
        &&& forall|i: int, j: int|
            #![trigger self.tree@[i], self.tree@[j]]
            0 <= i < j < self.tree@.len() ==> addr_of(self.tree@[i]) + block_size(
                order_of(self.tree@[i]) as nat,
            ) <= addr_of(self.tree@[j])
        &&& forall|a: int, k: int| #[trigger]
            self.handed_out@.contains((a, k)) ==> 0 <= k <= MAX_ORDER && self.in_region(a, k)
        &&& forall|a1: int, k1: int, a2: int, k2: int|
            #![trigger self.handed_out@.contains((a1, k1)), self.handed_out@.contains((a2, k2))]
            self.handed_out@.contains((a1, k1)) && self.handed_out@.contains((a2, k2)) && (a1, k1)
                != (a2, k2) ==> ranges_disjoint(
                a1,
                block_size(k1 as nat) as int,
                a2,
                block_size(k2 as nat) as int,
            )
        &&& forall|a: int, k: int, i: int|
            #![trigger self.handed_out@.contains((a, k)), self.tree@[i]]
            self.handed_out@.contains((a, k)) && 0 <= i < self.tree@.len()
                && !self.tree@[i].spec_used() ==> ranges_disjoint(
                a,
                block_size(k as nat) as int,
                addr_of(self.tree@[i]),
                block_size(order_of(self.tree@[i]) as nat) as int,
            )
    }

    /// Free list `k` holds distinct addresses of free records of order `k`, and every free
    /// record but the one at address `skip` is listed.
    #[verifier::opaque]
    pub closed spec fn lists_ok(self, skip: int) -> bool {
        &&& self.free@.len() == LEVEL_COUNT
        &&& forall|k: int| 0 <= k <= MAX_ORDER ==> #[trigger] self.free_list(k).no_duplicates()
        &&& forall|k: int, x: int|
            0 <= k <= MAX_ORDER && 0 <= x < self.free_list(k).len() ==> self.is_free_record(
                #[trigger] self.free_list(k)[x] as int,
                k,
            )
        &&& forall|i: int|
            0 <= i < self.tree@.len() && !(#[trigger] self.tree@[i]).spec_used() && addr_of(
                self.tree@[i],
            ) != skip ==> self.free_list(order_of(self.tree@[i])).contains(
                addr_of(self.tree@[i]) as usize,
            )
    }

    /// The allocator's invariant.
    pub open spec fn wf(self) -> bool {
        self.tree_ok() && self.lists_ok(-1)
    }

    /// An allocator with no regions.
    pub fn new() -> (r: Self)
        ensures
            r.wf(),
            r.records() == Seq::<Block>::empty(),
            forall|k: int| 0 <= k <= MAX_ORDER ==> #[trigger] r.free_list(k) == Seq::<usize>::empty(),
            r.regions() == Set::<int>::empty(),
            r.allocations() == Set::<(int, int)>::empty(),
    {
        let mut free: Vec<L> = Vec::new();
        let mut k: u8 = 0;
        while k < LEVEL_COUNT
            invariant
                k <= LEVEL_COUNT,
                free@.len() == k,
                forall|j: int| 0 <= j < k ==> #[trigger] free@[j].items() == Seq::<usize>::empty(),
            decreases LEVEL_COUNT - k,
        {
            free.push(L::empty());
            k = k + 1;
        }
        let r = BuddyAllocator {
            tree: Vec::new(),
            free,
            regions: Ghost(Set::empty()),
            handed_out: Ghost(Set::empty()),
        };
        proof {
            reveal(BuddyAllocator::tree_ok);
            reveal(BuddyAllocator::lists_ok);
        }
        r
    }

    /// The records, in ascending address order.
    pub fn blocks(&self) -> (r: &Vec<Block>)
        ensures
            r@ == self.records(),
    {
        &self.tree
    }

    /// Position of the first record whose address is not below `address`.
    fn lower_bound(&self, address: usize) -> (r: usize)
        requires
            self.tree_ok(),
        ensures
            r <= self.records().len(),
            forall|q: int| 0 <= q < r ==> addr_of(#[trigger] self.records()[q]) < address,
            forall|q: int|
                r <= q < self.records().len() ==> addr_of(#[trigger] self.records()[q]) >= address,
    {
        let mut lo: usize = 0;
        let mut hi: usize = self.tree.len();
        while lo < hi
            invariant
                self.tree_ok(),
                lo <= hi <= self.records().len(),
                forall|q: int| 0 <= q < lo ==> addr_of(#[trigger] self.records()[q]) < address,
                forall|q: int|
                    hi <= q < self.records().len() ==> addr_of(#[trigger] self.records()[q])
                        >= address,
            decreases hi - lo,
        {
            let mid = lo + (hi - lo) / 2;
            proof {
                lemma_record_bounds(*self, mid as int);
            }
            if self.tree[mid].address() < address {
                proof {
                    assert forall|q: int| 0 <= q <= mid implies addr_of(
                        #[trigger] self.records()[q],
                    ) < address by {
                        if q < mid {
                            lemma_record_order(*self, q, mid as int);
                        }
                    }
                }
                lo = mid + 1;
            } else {
                proof {
                    assert forall|q: int| mid <= q < self.records().len() implies addr_of(
                        #[trigger] self.records()[q],
                    ) >= address by {
                        if q > mid {
                            lemma_record_order(*self, mid as int, q);
                        }
                    }
                }
                hi = mid;
            }
        }
        lo
    }

    /// Position of the record at `address`, which must exist.
    fn position_of(&self, address: usize) -> (r: usize)
        requires
            self.tree_ok(),
            exists|i: int|
                0 <= i < self.records().len() && addr_of(#[trigger] self.records()[i]) == address,
        ensures
            r < self.records().len(),
            addr_of(self.records()[r as int]) == address,
    {
        let p = self.lower_bound(address);
        proof {
            let t = choose|i: int|
                0 <= i < self.records().len() && addr_of(#[trigger] self.records()[i]) == address;
            if t > p {
                lemma_record_order(*self, p as int, t);
            }
        }
        p
    }

    /// Registers a free top-level region at `begin_address` and returns the position of its
    /// record.
    pub fn create_top_level(&mut self, begin_address: usize) -> (r: usize)
        requires
            old(self).wf(),
            begin_address as int % region_size() as int == 0,
            begin_address + region_size() <= usize::MAX,
            begin_address + region_size() <= address_limit(),
            !old(self).regions().contains(begin_address as int),
        ensures
            final(self).wf(),
            final(self).regions() == old(self).regions().insert(begin_address as int),
            final(self).allocations() == old(self).allocations(),
            r <= old(self).records().len(),
            final(self).records() == old(self).records().insert(r as int, final(self).records()[r as int]),
            addr_of(final(self).records()[r as int]) == begin_address,
            order_of(final(self).records()[r as int]) == MAX_ORDER,
            !final(self).records()[r as int].spec_used(),
            final(self).free_list(MAX_ORDER as int) == old(self).free_list(MAX_ORDER as int).push(begin_address),
            forall|k: int| 0 <= k < MAX_ORDER ==> #[trigger] final(self).free_list(k) == old(self).free_list(k),
    {
        let ghost pre = *self;
        let p = self.lower_bound(begin_address);
        proof {
            reveal(BuddyAllocator::lists_ok);
            vstd::arithmetic::power2::lemma2_to64();
        }
        let block = Block::new(begin_address, MAX_ORDER, false);
        self.tree.insert(p, block);
        self.free[MAX_ORDER as usize].push(begin_address);
        self.regions = Ghost(self.regions@.insert(begin_address as int));
        proof {
            lemma_create_top_level(pre, *self, p as int, begin_address as int);
        }
        p
    }

    /// Finds a free record of order `order`, taking the most recently listed one, or splitting
    /// one of a higher order when that order's list is empty, and returns its position. Does not
    /// mark it used.
    fn find_or_split(&mut self, order: u8) -> (r: Result<usize, BlockAllocateError>)
        requires
            old(self).wf(),
            order <= MAX_ORDER,
        ensures
            final(self).tree_ok(),
            final(self).regions() == old(self).regions(),
            final(self).allocations() == old(self).allocations(),
            r is Err <==> old(self).lowest_listed(order as int) == -1,
            r is Err ==> r == Err::<usize, BlockAllocateError>(BlockAllocateError::NoBlocksAvailable)
                && final(self).records() == old(self).records() && final(self).lists_ok(-1) && (
            forall|k: int| 0 <= k <= MAX_ORDER ==> #[trigger] final(self).free_list(k) == old(self).free_list(k)),
            r matches Ok(p) ==> {
                let b = final(self).records()[p as int];
                &&& p < final(self).records().len()
                &&& !b.spec_used()
                &&& order_of(b) == order
                &&& final(self).lists_ok(addr_of(b))
                &&& addr_of(b) == old(self).free_list(old(self).lowest_listed(order as int)).last()
            },
        decreases MAX_ORDER - order,
    {
        let ghost pre = *self;
        proof {
            reveal(BuddyAllocator::lists_ok);
        }
        let popped = self.free[order as usize].pop();
        match popped {
            Some(a) => {
                proof {
                    lemma_pop(pre, *self, order as int);
                }
                let p = self.position_of(a);
                proof {
                    let i = choose|i: int|
                        0 <= i < self.records().len() && addr_of(#[trigger] self.records()[i]) == a
                            && order_of(self.records()[i]) == order && !self.records()[i].spec_used();
                    if i < p {
                        lemma_record_order(*self, i, p as int);
                    } else if i > p {
                        lemma_record_order(*self, p as int, i);
                    }
                    assert(i == p);
                    assert(a == pre.free_list(order as int).last());
                    assert(pre.lowest_listed(order as int) == order);
                    assert(pre == *old(self));
                    assert(addr_of(self.records()[p as int]) == old(self).free_list(
                        old(self).lowest_listed(order as int),
                    ).last());
                }
                Ok(p)
            },
            None => {
                let ghost emptied = *self;
                proof {
                    lemma_same_views(pre, *self, -1);
                }
                if order >= MAX_ORDER {
                    assert(pre.lowest_listed(order as int + 1) == -1);
                    return Err(BlockAllocateError::NoBlocksAvailable);
                }
                let p = match self.find_or_split(order + 1) {
                    Ok(p) => p,
                    Err(e) => {
                        return Err(e);
                    },
                };
                let ghost mid = *self;
                proof {
                    lemma_record_bounds(mid, p as int);
                }
                let a = self.tree[p].address();
                let halves = self.split(p).unwrap();
                let ghost halved = *self;
                let _ = self.free[order as usize + 1].remove(a);
                self.free[order as usize].push(halves.0);
                self.free[order as usize].push(halves.1);
                proof {
                    assert forall|k: int| 0 <= k <= MAX_ORDER implies #[trigger] halved.free_list(k)
                        == mid.free_list(k) by {
                        assert(halved.lists() == mid.lists());
                    }
                    lemma_split_lists(mid, halved, *self, p as int, order as int);
                    let low = emptied.lowest_listed(order as int + 1);
                    lemma_lowest_range(emptied, order as int + 1);
                    assert(pre.lowest_listed(order as int) == low);
                    assert(pre.free_list(low) == emptied.free_list(low));
                    assert(addr_of(self.records()[p as int]) == addr_of(mid.records()[p as int]));
                }
                Ok(p)
            },
        }
    }

    /// Allocates a block of order `order` and returns its record, now marked used: the block
    /// most recently listed free at the lowest order from `order` up whose list is not empty,
    /// split down to `order` if need be.
    pub fn allocate_exact(&mut self, order: u8) -> (r: Result<Block, BlockAllocateError>)
        requires
            old(self).wf(),
        ensures
            final(self).wf(),
            final(self).regions() == old(self).regions(),
            order > MAX_ORDER ==> r == Err::<Block, BlockAllocateError>(
                BlockAllocateError::OrderTooLarge(order),
            ),
            order <= MAX_ORDER && old(self).lowest_listed(order as int) == -1 ==> r == Err::<
                Block,
                BlockAllocateError,
            >(BlockAllocateError::NoBlocksAvailable),
            r is Ok <==> order <= MAX_ORDER && old(self).lowest_listed(order as int) != -1,
            r is Err ==> final(self).records() == old(self).records() && final(self).allocations()
                == old(self).allocations() && (forall|k: int|
                0 <= k <= MAX_ORDER ==> #[trigger] final(self).free_list(k) == old(self).free_list(k)),
            r matches Ok(b) ==> {
                let a = addr_of(b);
                let low = old(self).lowest_listed(order as int);
                &&& final(self).records().contains(b)
                &&& b.spec_used()
                &&& order_of(b) == order
                &&& a % block_size(order as nat) as int == 0
                &&& a + block_size(order as nat) <= usize::MAX
                &&& old(self).in_region(a, order as int)
                &&& a == old(self).free_list(low).last()
                &&& final(self).allocations() == old(self).allocations().insert((a, order as int))
                &&& forall|u: int, k: int| #[trigger]
                    old(self).allocations().contains((u, k)) ==> u != a && ranges_disjoint(
                        a,
                        block_size(order as nat) as int,
                        u,
                        block_size(k as nat) as int,
                    )
            },
    {
        if order > MAX_ORDER {
            return Err(BlockAllocateError::OrderTooLarge(order));
        }
        let p = match self.find_or_split(order) {
            Ok(p) => p,
            Err(e) => {
                return Err(e);
            },
        };
        let ghost mid = *self;
        proof {
            lemma_record_bounds(mid, p as int);
            reveal(BuddyAllocator::lists_ok);
        }
        self.tree[p].set_used(true);
        let a = self.tree[p].address();
        let _ = self.free[order as usize].remove(a);
        self.handed_out = Ghost(self.handed_out@.insert((a as int, order as int)));
        proof {
            lemma_mark_tree(mid, *self, p as int, order as int);
        }
        Ok(self.tree[p])
    }

    /// Allocates a page of size `size`, a block of order `size.power_of_two() - BASE_ORDER`, and
    /// returns its address.
    pub fn alloc_page(&mut self, size: PageSize) -> (r: Result<usize, BlockAllocateError>)
        requires
            old(self).wf(),
        ensures
            final(self).wf(),
            final(self).regions() == old(self).regions(),
            ({
                let order = size.spec_power_of_two() - BASE_ORDER;
                &&& r is Ok <==> old(self).lowest_listed(order) != -1
                &&& r is Err ==> r == Err::<usize, BlockAllocateError>(
                    BlockAllocateError::NoBlocksAvailable,
                ) && final(self).records() == old(self).records() && final(self).allocations()
                    == old(self).allocations()
                &&& r matches Ok(a) ==> {
                    &&& a as int % block_size(order as nat) as int == 0
                    &&& old(self).in_region(a as int, order)
                    &&& a == old(self).free_list(old(self).lowest_listed(order)).last()
                    &&& final(self).allocations() == old(self).allocations().insert(
                        (a as int, order),
                    )
                    &&& forall|u: int, k: int| #[trigger]
                        old(self).allocations().contains((u, k)) ==> u != a && ranges_disjoint(
                            a as int,
                            block_size(order as nat) as int,
                            u,
                            block_size(k as nat) as int,
                        )
                }
            }),
    {
        let order = size.power_of_two() - BASE_ORDER;
        match self.allocate_exact(order) {
            Ok(block) => Ok(block.address()),
            Err(e) => Err(e),
        }
    }

    /// Splits the free record at `position` into its two free halves, which take its place in
    /// the set, and returns their addresses. Leaves the free lists alone.
    pub fn split(&mut self, position: usize) -> (r: Result<(usize, usize), BlockSplitError>)
        requires
            old(self).tree_ok(),
            position < old(self).records().len(),
            !old(self).records()[position as int].spec_used(),
        ensures
            final(self).tree_ok(),
            final(self).regions() == old(self).regions(),
            final(self).allocations() == old(self).allocations(),
            final(self).lists() == old(self).lists(),
            r is Err <==> order_of(old(self).records()[position as int]) == 0,
            r is Err ==> r == Err::<(usize, usize), BlockSplitError>(
                BlockSplitError::BlockSmallestPossible,
            ) && final(self).records() == old(self).records(),
            r matches Ok((a0, a1)) ==> {
                let b = old(self).records()[position as int];
                let k = order_of(b);
                let first = final(self).records()[position as int];
                let second = final(self).records()[position + 1];
                &&& a0 == addr_of(b)
                &&& a1 == addr_of(b) + block_size((k - 1) as nat)
                &&& addr_of(first) == a0 && order_of(first) == k - 1 && !first.spec_used()
                &&& addr_of(second) == a1 && order_of(second) == k - 1 && !second.spec_used()
                &&& final(self).records() == old(self).records().update(position as int, first).insert(
                    position + 1,
                    second,
                )
            },
    {
        let ghost pre = *self;
        proof {
            lemma_record_bounds(pre, position as int);
        }
        let block = self.tree[position];
        let order = block.order();
        if order == 0 {
            return Err(BlockSplitError::BlockSmallestPossible);
        }
        let address = block.address();
        let half = order_size(order - 1);
        proof {
            lemma_halves_aligned(address as int, order as nat);
        }
        let first = Block::new(address, order - 1, false);
        let second = Block::new(address + half, order - 1, false);
        self.tree[position] = first;
        assert(position < self.tree.len());
        self.tree.insert(position + 1, second);
        proof {
            lemma_split_tree(pre, *self, position as int);
        }
        Ok((address, address + half))
    }
}

/// Registers, at consecutive multiples of the region size from 0, the regions needed for
/// `blocks` blocks of order `block_size` (as many of them as the address space holds), then
/// allocates `blocks` blocks of that order and returns their addresses, or the error of the
/// first allocation that fails.
fn demo<L: FreeList>(allocator: BuddyAllocator<L>, blocks: u32, block_size: u8) -> (r: Result<
    Vec<usize>,
    BlockAllocateError,
>)
    requires
        allocator.wf(),
        allocator.regions() == Set::<int>::empty(),
        allocator.allocations() == Set::<(int, int)>::empty(),
        block_size <= MAX_ORDER,
    ensures
        r matches Ok(v) ==> {
            &&& v@.len() == blocks
            &&& forall|k: int|
                0 <= k < blocks ==> #[trigger] v@[k] as int % crate::block_size(
                    block_size as nat,
                ) as int == 0
            &&& forall|k1: int, k2: int|
                0 <= k1 < k2 < blocks ==> #[trigger] v@[k1] != #[trigger] v@[k2]
        },
{
    let mut allocator = allocator;
    let region = order_size(MAX_ORDER);
    let wanted = top_level_blocks(blocks, block_size);
    let by_width = (usize::MAX / region) as u64;
    let by_record = 0x100_0000_0000_0000u64 / region as u64;
    let room = if by_width < by_record {
        by_width
    } else {
        by_record
    };
    let count = if wanted < room {
        wanted
    } else {
        room
    };
    let mut n: u64 = 0;
    proof {
        vstd::arithmetic::power2::lemma2_to64();
    }
    while n < count
        invariant
            allocator.wf(),
            region == region_size(),
            region_size() == 0x4000_0000,
            count <= usize::MAX / region,
            count <= 0x100_0000_0000_0000u64 / region as u64,
            n <= count,
            forall|b: int| #[trigger] allocator.regions().contains(b) ==> b < n * region,
            allocator.allocations() == Set::<(int, int)>::empty(),
        decreases count - n,
    {
        proof {
            assert(n * region + region <= usize::MAX) by (nonlinear_arith)
                requires
                    n < count,
                    count <= usize::MAX / region,
                    region > 0,
            ;
            assert(n * region + region <= address_limit()) by (nonlinear_arith)
                requires
                    n < count,
                    count <= 0x100_0000_0000_0000u64 / region as u64,
                    region > 0,
            ;
            vstd::arithmetic::div_mod::lemma_mod_multiples_basic(n as int, region as int);
        }
        allocator.create_top_level(region * n as usize);
        n = n + 1;
    }
    let mut addresses: Vec<usize> = Vec::new();
    let mut done: u32 = 0;
    while done < blocks
        invariant
            allocator.wf(),
            block_size <= MAX_ORDER,
            done <= blocks,
            addresses@.len() == done,
            forall|k: int|
                0 <= k < done ==> allocator.allocations().contains(
                    (#[trigger] addresses@[k] as int, block_size as int),
                ),
            forall|k: int|
                0 <= k < done ==> #[trigger] addresses@[k] as int % crate::block_size(
                    block_size as nat,
                ) as int == 0,
            forall|k1: int, k2: int|
                0 <= k1 < k2 < done ==> #[trigger] addresses@[k1] != #[trigger] addresses@[k2],
        decreases blocks - done,
    {
        let block = match allocator.allocate_exact(block_size) {
            Ok(b) => b,
            Err(e) => {
                return Err(e);
            },
        };
        let addr = block.address();
        proof {
            assert forall|k: int| 0 <= k < done implies #[trigger] addresses@[k] != addr by {
                assert(allocator.allocations().contains((addresses@[k] as int, block_size as int)));
            }
        }
        addresses.push(addr);
        done = done + 1;
    }
    Ok(addresses)
}

/// Runs the allocation demo with free lists kept in vectors.
pub fn demo_vecs(blocks: u32, block_size: u8) -> (r: Result<Vec<usize>, BlockAllocateError>)
    requires
        block_size <= MAX_ORDER,
    ensures
        r matches Ok(v) ==> {
            &&& v@.len() == blocks
            &&& forall|k: int|
                0 <= k < blocks ==> #[trigger] v@[k] as int % crate::block_size(
                    block_size as nat,
                ) as int == 0
            &&& forall|k1: int, k2: int|
                0 <= k1 < k2 < blocks ==> #[trigger] v@[k1] != #[trigger] v@[k2]
        },
{
    demo(BuddyAllocator::<Vec<usize>>::new(), blocks, block_size)
}

/// Runs the allocation demo with free lists kept as singly linked lists.
pub fn demo_linked_lists(blocks: u32, block_size: u8) -> (r: Result<Vec<usize>, BlockAllocateError>)
    requires
        block_size <= MAX_ORDER,
    ensures
        r matches Ok(v) ==> {
            &&& v@.len() == blocks
            &&& forall|k: int|
                0 <= k < blocks ==> #[trigger] v@[k] as int % crate::block_size(
                    block_size as nat,
                ) as int == 0
            &&& forall|k1: int, k2: int|
                0 <= k1 < k2 < blocks ==> #[trigger] v@[k1] != #[trigger] v@[k2]
        },
{
    demo(BuddyAllocator::<BlockPtrList>::new(), blocks, block_size)
}

/// Any two distinct blocks handed out, over any sequence of calls, are disjoint: no address is
/// handed out twice and no block overlaps another.
pub proof fn lemma_allocations_disjoint<L: FreeList>(
    allocator: BuddyAllocator<L>,
    a1: int,
    k1: int,
    a2: int,
    k2: int,
)
    requires
        allocator.wf(),
        allocator.allocations().contains((a1, k1)),
        allocator.allocations().contains((a2, k2)),
        (a1, k1) != (a2, k2),
    ensures
        a1 != a2,
        ranges_disjoint(a1, block_size(k1 as nat) as int, a2, block_size(k2 as nat) as int),
{
    reveal(BuddyAllocator::tree_ok);
    vstd::arithmetic::power2::lemma_pow2_pos(crate::BASE_ORDER as nat + k1 as nat);
    vstd::arithmetic::power2::lemma_pow2_pos(crate::BASE_ORDER as nat + k2 as nat);
}

/// Walking the set in order visits the records in strictly ascending address order, each one
/// ending before the next begins.
pub proof fn lemma_records_ascending<L: FreeList>(t: BuddyAllocator<L>, i: int, j: int)
    requires
        t.wf(),
        0 <= i < j < t.records().len(),
    ensures
        addr_of(t.records()[i]) < addr_of(t.records()[j]),
        addr_of(t.records()[i]) + block_size(order_of(t.records()[i]) as nat) <= addr_of(
            t.records()[j],
        ),
{
    lemma_record_order(t, i, j);
}

/// What the invariant says of one record.
proof fn lemma_record_bounds<L: FreeList>(t: BuddyAllocator<L>, i: int)
    requires
        t.tree_ok(),
        0 <= i < t.records().len(),
    ensures
        0 <= order_of(t.records()[i]) <= MAX_ORDER,
        0 <= addr_of(t.records()[i]),
        block_size(order_of(t.records()[i]) as nat) > 0,
        addr_of(t.records()[i]) % block_size(order_of(t.records()[i]) as nat) as int == 0,
        addr_of(t.records()[i]) + block_size(order_of(t.records()[i]) as nat) <= usize::MAX,
        addr_of(t.records()[i]) + block_size(order_of(t.records()[i]) as nat) <= address_limit(),
        t.in_region(addr_of(t.records()[i]), order_of(t.records()[i])),
{
    reveal(BuddyAllocator::tree_ok);
    let b = t.tree@[i];
    assert(t.in_region(addr_of(b), order_of(b)));
    let w = choose|w: int|
        #![trigger t.regions().contains(w)]
        t.regions().contains(w) && w <= addr_of(b) && addr_of(b) + block_size(order_of(b) as nat)
            <= w + region_size();
    vstd::arithmetic::power2::lemma_pow2_pos(crate::BASE_ORDER as nat + order_of(b) as nat);
}

/// Records further on in the set lie at higher addresses, past the end of earlier ones.
proof fn lemma_record_order<L: FreeList>(t: BuddyAllocator<L>, i: int, j: int)
    requires
        t.tree_ok(),
        0 <= i < j < t.records().len(),
    ensures
        addr_of(t.records()[i]) + block_size(order_of(t.records()[i]) as nat) <= addr_of(
            t.records()[j],
        ),
        addr_of(t.records()[i]) < addr_of(t.records()[j]),
{
    reveal(BuddyAllocator::tree_ok);
    lemma_record_bounds(t, i);
    assert(t.tree@[i] == t.records()[i]);
    assert(t.tree@[j] == t.records()[j]);
}

/// A block in a registered region is disjoint from an aligned region that is not registered.
proof fn lemma_region_apart<L: FreeList>(t: BuddyAllocator<L>, a: int, k: int, begin: int)
    requires
        t.tree_ok(),
        t.in_region(a, k),
        0 <= k <= MAX_ORDER,
        begin >= 0,
        begin % region_size() as int == 0,
        !t.regions().contains(begin),
    ensures
        ranges_disjoint(a, block_size(k as nat) as int, begin, region_size() as int),
        a != begin,
{
    reveal(BuddyAllocator::tree_ok);
    let w = choose|w: int|
        #![trigger t.regions().contains(w)]
        t.regions().contains(w) && w <= a && a + block_size(k as nat) <= w + region_size();
    vstd::arithmetic::power2::lemma_pow2_pos(crate::BASE_ORDER as nat + MAX_ORDER as nat);
    vstd::arithmetic::power2::lemma_pow2_pos(crate::BASE_ORDER as nat + k as nat);
    lemma_aligned_disjoint(w, begin, region_size() as int);
}

/// Whether a block lies in a region depends on the regions alone, and more regions keep it so.
proof fn lemma_in_region_grow<L: FreeList>(x: BuddyAllocator<L>, y: BuddyAllocator<L>, a: int, k: int)
    requires
        x.regions().subset_of(y.regions()),
        x.in_region(a, k),
    ensures
        y.in_region(a, k),
{
    let w = choose|w: int|
        #![trigger x.regions().contains(w)]
        x.regions().contains(w) && w <= a && a + block_size(k as nat) <= w + region_size();
    assert(y.regions().contains(w));
}

/// Registering a region that is not registered yet keeps the invariant.
proof fn lemma_create_top_level<L: FreeList>(
    pre: BuddyAllocator<L>,
    post: BuddyAllocator<L>,
    p: int,
    begin: int,
)
    requires
        pre.wf(),
        begin >= 0,
        begin % region_size() as int == 0,
        begin + region_size() <= usize::MAX,
        begin + region_size() <= address_limit(),
        !pre.regions().contains(begin),
        0 <= p <= pre.records().len(),
        forall|q: int| 0 <= q < p ==> addr_of(#[trigger] pre.records()[q]) < begin,
        forall|q: int| p <= q < pre.records().len() ==> addr_of(#[trigger] pre.records()[q]) >= begin,
        post.records() == pre.records().insert(p, post.records()[p]),
        addr_of(post.records()[p]) == begin,
        order_of(post.records()[p]) == MAX_ORDER,
        !post.records()[p].spec_used(),
        post.free@.len() == pre.free@.len(),
        post.free_list(MAX_ORDER as int) == pre.free_list(MAX_ORDER as int).push(begin as usize),
        forall|k: int| 0 <= k < MAX_ORDER ==> #[trigger] post.free_list(k) == pre.free_list(k),
        post.regions@ == pre.regions@.insert(begin),
        post.handed_out@ == pre.handed_out@,
    ensures
        post.wf(),
{
    let n = pre.records().len() as int;
    let r = region_size() as int;
    vstd::arithmetic::power2::lemma_pow2_pos(crate::BASE_ORDER as nat + MAX_ORDER as nat);
    assert forall|i: int| 0 <= i < n implies {
        &&& ranges_disjoint(
            addr_of(#[trigger] pre.records()[i]),
            block_size(order_of(pre.records()[i]) as nat) as int,
            begin,
            r,
        )
        &&& addr_of(pre.records()[i]) != begin
        &&& post.in_region(addr_of(pre.records()[i]), order_of(pre.records()[i]))
    } by {
        lemma_record_bounds(pre, i);
        lemma_region_apart(pre, addr_of(pre.records()[i]), order_of(pre.records()[i]), begin);
        lemma_in_region_grow(pre, post, addr_of(pre.records()[i]), order_of(pre.records()[i]));
    }
    assert(post.in_region(begin, MAX_ORDER as int)) by {
        assert(post.regions().contains(begin));
    }
    // Where each record of `post` was in `pre`.
    assert forall|q: int| 0 <= q <= n && q != p implies #[trigger] post.records()[q]
        == pre.records()[if q < p {
        q
    } else {
        q - 1
    }] by {}
    reveal(BuddyAllocator::tree_ok);
    reveal(BuddyAllocator::lists_ok);
    assert(post.tree@ == post.records());
    assert(pre.tree@ == pre.records());
    assert forall|i: int|
        0 <= i < post.tree@.len() implies {
        let b = #[trigger] post.tree@[i];
        &&& order_of(b) <= MAX_ORDER
        &&& addr_of(b) % block_size(order_of(b) as nat) as int == 0
        &&& post.in_region(addr_of(b), order_of(b))
    } by {
        if i != p {
            let o = if i < p {
                i
            } else {
                i - 1
            };
            assert(post.records()[i] == pre.records()[o]);
            lemma_record_bounds(pre, o);
        }
    }
    assert forall|i: int, j: int|
        #![trigger post.tree@[i], post.tree@[j]]
        0 <= i < j < post.tree@.len() implies addr_of(post.tree@[i]) + block_size(
            order_of(post.tree@[i]) as nat,
        ) <= addr_of(post.tree@[j]) by {
        let oi = if i < p {
            i
        } else {
            i - 1
        };
        let oj = if j < p {
            j
        } else {
            j - 1
        };
        if i != p && j != p {
            assert(post.records()[i] == pre.records()[oi]);
            assert(post.records()[j] == pre.records()[oj]);
            lemma_record_order(pre, oi, oj);
        } else if i == p {
            assert(post.records()[j] == pre.records()[oj]);
            lemma_record_bounds(pre, oj);
        } else {
            assert(post.records()[i] == pre.records()[oi]);
            lemma_record_bounds(pre, oi);
        }
    }
    assert forall|a: int, k: int| #[trigger]
        post.handed_out@.contains((a, k)) implies 0 <= k <= MAX_ORDER && post.in_region(a, k) by {
        lemma_in_region_grow(pre, post, a, k);
    }
    assert forall|a: int, k: int, i: int|
        #![trigger post.handed_out@.contains((a, k)), post.tree@[i]]
        post.handed_out@.contains((a, k)) && 0 <= i < post.tree@.len()
            && !post.tree@[i].spec_used() implies ranges_disjoint(
        a,
        block_size(k as nat) as int,
        addr_of(post.tree@[i]),
        block_size(order_of(post.tree@[i]) as nat) as int,
    ) by {
        if i == p {
            lemma_region_apart(pre, a, k, begin);
        } else {
            let o = if i < p {
                i
            } else {
                i - 1
            };
            assert(post.records()[i] == pre.records()[o]);
            assert(pre.tree@[o] == pre.records()[o]);
        }
    }
    assert(post.tree_ok());
    // Free lists.
    let m = MAX_ORDER as int;
    assert(!pre.free_list(m).contains(begin as usize)) by {
        if pre.free_list(m).contains(begin as usize) {
            let x = choose|x: int| 0 <= x < pre.free_list(m).len() && #[trigger] pre.free_list(m)[x] == begin as usize;
            assert(pre.is_free_record(pre.free_list(m)[x] as int, m));
            let i = choose|i: int|
                0 <= i < pre.records().len() && addr_of(#[trigger] pre.records()[i]) == begin
                    && order_of(pre.records()[i]) == m && !pre.records()[i].spec_used();
        }
    }
    assert forall|k: int| 0 <= k <= MAX_ORDER implies #[trigger] post.free_list(k).no_duplicates() by {
        if k == m {
            assert(pre.free_list(m).no_duplicates());
        } else {
            assert(post.free_list(k) == pre.free_list(k));
        }
    }
    assert forall|k: int, x: int|
        0 <= k <= MAX_ORDER && 0 <= x < post.free_list(k).len() implies post.is_free_record(
        #[trigger] post.free_list(k)[x] as int,
        k,
    ) by {
        if k == m && x == pre.free_list(m).len() {
            assert(post.records()[p] == post.records()[p]);
        } else {
            if k < m {
                assert(post.free_list(k) == pre.free_list(k));
            }
            assert(post.free_list(k)[x] == pre.free_list(k)[x]);
            assert(pre.is_free_record(pre.free_list(k)[x] as int, k));
            let i = choose|i: int|
                0 <= i < pre.records().len() && addr_of(#[trigger] pre.records()[i])
                    == pre.free_list(k)[x] as int && order_of(pre.records()[i]) == k
                    && !pre.records()[i].spec_used();
            let q = if i < p {
                i
            } else {
                i + 1
            };
            assert(post.records()[q] == pre.records()[i]);
        }
    }
    assert forall|i: int|
        0 <= i < post.tree@.len() && !(#[trigger] post.tree@[i]).spec_used() && addr_of(
            post.tree@[i],
        ) != -1 implies post.free_list(order_of(post.tree@[i])).contains(
        addr_of(post.tree@[i]) as usize,
    ) by {
        if i == p {
            assert(post.free_list(m)[pre.free_list(m).len() as int] == begin as usize);
        } else {
            let o = if i < p {
                i
            } else {
                i - 1
            };
            assert(post.records()[i] == pre.records()[o]);
            assert(pre.tree@[o] == pre.records()[o]);
            lemma_record_bounds(pre, o);
            let k = order_of(pre.records()[o]);
            assert(pre.free_list(k).contains(addr_of(pre.records()[o]) as usize));
            let x = choose|x: int|
                0 <= x < pre.free_list(k).len() && #[trigger] pre.free_list(k)[x] == addr_of(
                    pre.records()[o],
                ) as usize;
            if k < m {
                assert(post.free_list(k) == pre.free_list(k));
            }
            assert(post.free_list(k)[x] == pre.free_list(k)[x]);
        }
    }
}

/// Splitting a free record in place keeps the records in order, aligned and apart.
proof fn lemma_split_tree<L: FreeList>(pre: BuddyAllocator<L>, post: BuddyAllocator<L>, p: int)
    requires
        pre.tree_ok(),
        0 <= p < pre.records().len(),
        !pre.records()[p].spec_used(),
        order_of(pre.records()[p]) >= 1,
        post.records() == pre.records().update(p, post.records()[p]).insert(
            p + 1,
            post.records()[p + 1],
        ),
        addr_of(post.records()[p]) == addr_of(pre.records()[p]),
        addr_of(post.records()[p + 1]) == addr_of(pre.records()[p]) + block_size(
            (order_of(pre.records()[p]) - 1) as nat,
        ),
        order_of(post.records()[p]) == order_of(pre.records()[p]) - 1,
        order_of(post.records()[p + 1]) == order_of(pre.records()[p]) - 1,
        !post.records()[p].spec_used(),
        !post.records()[p + 1].spec_used(),
        post.regions@ == pre.regions@,
        post.handed_out@ == pre.handed_out@,
    ensures
        post.tree_ok(),
{
    let n = pre.records().len() as int;
    let b = pre.records()[p];
    let a = addr_of(b);
    let k = order_of(b);
    let h = block_size((k - 1) as nat) as int;
    lemma_record_bounds(pre, p);
    lemma_halves_aligned(a, k as nat);
    assert forall|q: int| 0 <= q <= n && q != p && q != p + 1 implies #[trigger] post.records()[q]
        == pre.records()[if q < p {
        q
    } else {
        q - 1
    }] by {}
    reveal(BuddyAllocator::tree_ok);
    assert(post.tree@ == post.records());
    assert(pre.tree@ == pre.records());
    assert(pre.tree@[p] == b);
    let w = choose|w: int|
        #![trigger pre.regions().contains(w)]
        pre.regions().contains(w) && w <= a && a + block_size(k as nat) <= w + region_size();
    assert(post.regions().contains(w));
    assert forall|i: int|
        0 <= i < post.tree@.len() implies {
        let e = #[trigger] post.tree@[i];
        &&& order_of(e) <= MAX_ORDER
        &&& addr_of(e) % block_size(order_of(e) as nat) as int == 0
        &&& post.in_region(addr_of(e), order_of(e))
    } by {
        if i != p && i != p + 1 {
            let o = if i < p {
                i
            } else {
                i - 1
            };
            assert(post.records()[i] == pre.records()[o]);
            lemma_record_bounds(pre, o);
            lemma_in_region_grow(pre, post, addr_of(pre.records()[o]), order_of(pre.records()[o]));
        }
    }
    assert forall|i: int, j: int|
        #![trigger post.tree@[i], post.tree@[j]]
        0 <= i < j < post.tree@.len() implies addr_of(post.tree@[i]) + block_size(
            order_of(post.tree@[i]) as nat,
        ) <= addr_of(post.tree@[j]) by {
        let oi = if i < p {
            i
        } else {
            i - 1
        };
        let oj = if j < p {
            j
        } else {
            j - 1
        };
        if i != p && i != p + 1 {
            assert(post.records()[i] == pre.records()[oi]);
        }
        if j != p && j != p + 1 {
            assert(post.records()[j] == pre.records()[oj]);
        }
        if i < p {
            lemma_record_order(pre, i, p);
            if j > p + 1 {
                lemma_record_order(pre, i, oj);
            }
        } else if i == p || i == p + 1 {
            if j > p + 1 {
                lemma_record_order(pre, p, oj);
            }
        } else {
            lemma_record_order(pre, oi, oj);
        }
    }
    assert forall|u: int, ku: int| #[trigger]
        post.handed_out@.contains((u, ku)) implies 0 <= ku <= MAX_ORDER && post.in_region(u, ku) by {
        lemma_in_region_grow(pre, post, u, ku);
    }
    assert forall|u: int, ku: int, i: int|
        #![trigger post.handed_out@.contains((u, ku)), post.tree@[i]]
        post.handed_out@.contains((u, ku)) && 0 <= i < post.tree@.len()
            && !post.tree@[i].spec_used() implies ranges_disjoint(
        u,
        block_size(ku as nat) as int,
        addr_of(post.tree@[i]),
        block_size(order_of(post.tree@[i]) as nat) as int,
    ) by {
        if i != p && i != p + 1 {
            let o = if i < p {
                i
            } else {
                i - 1
            };
            assert(post.records()[i] == pre.records()[o]);
            assert(pre.tree@[o] == pre.records()[o]);
        } else {
            assert(pre.handed_out@.contains((u, ku)));
        }
    }
}

/// The records' invariant depends on the records, the regions and the blocks handed out alone.
proof fn lemma_tree_ok_same<L: FreeList>(x: BuddyAllocator<L>, y: BuddyAllocator<L>)
    requires
        x.tree_ok(),
        x.tree@ == y.tree@,
        x.regions@ == y.regions@,
        x.handed_out@ == y.handed_out@,
    ensures
        y.tree_ok(),
{
    reveal(BuddyAllocator::tree_ok);
    assert forall|i: int|
        0 <= i < y.tree@.len() implies {
        let b = #[trigger] y.tree@[i];
        &&& order_of(b) <= MAX_ORDER
        &&& addr_of(b) % block_size(order_of(b) as nat) as int == 0
        &&& y.in_region(addr_of(b), order_of(b))
    } by {
        assert(x.tree@[i] == y.tree@[i]);
        lemma_in_region_grow(x, y, addr_of(x.tree@[i]), order_of(x.tree@[i]));
    }
    assert forall|a: int, k: int| #[trigger]
        y.handed_out@.contains((a, k)) implies 0 <= k <= MAX_ORDER && y.in_region(a, k) by {
        lemma_in_region_grow(x, y, a, k);
    }
    assert forall|i: int, j: int|
        #![trigger y.tree@[i], y.tree@[j]]
        0 <= i < j < y.tree@.len() implies addr_of(y.tree@[i]) + block_size(
            order_of(y.tree@[i]) as nat,
        ) <= addr_of(y.tree@[j]) by {
        assert(x.tree@[i] == y.tree@[i]);
        assert(x.tree@[j] == y.tree@[j]);
    }
    assert forall|a: int, k: int, i: int|
        #![trigger y.handed_out@.contains((a, k)), y.tree@[i]]
        y.handed_out@.contains((a, k)) && 0 <= i < y.tree@.len()
            && !y.tree@[i].spec_used() implies ranges_disjoint(
        a,
        block_size(k as nat) as int,
        addr_of(y.tree@[i]),
        block_size(order_of(y.tree@[i]) as nat) as int,
    ) by {
        assert(x.tree@[i] == y.tree@[i]);
        assert(x.handed_out@.contains((a, k)));
    }
}

/// Two allocators with the same records, free lists and ghost state satisfy the same
/// invariants.
proof fn lemma_same_views<L: FreeList>(x: BuddyAllocator<L>, y: BuddyAllocator<L>, skip: int)
    requires
        x.tree_ok(),
        x.records() == y.records(),
        x.free@.len() == y.free@.len(),
        forall|k: int| 0 <= k <= MAX_ORDER ==> #[trigger] x.free_list(k) == y.free_list(k),
        x.regions@ == y.regions@,
        x.handed_out@ == y.handed_out@,
    ensures
        x.tree_ok() == y.tree_ok(),
        x.lists_ok(skip) == y.lists_ok(skip),
        forall|k: int| #[trigger] x.lowest_listed(k) == y.lowest_listed(k),
{
    assert(x.tree@ == y.tree@);
    if x.tree_ok() {
        lemma_tree_ok_same(x, y);
    }
    if y.tree_ok() {
        lemma_tree_ok_same(y, x);
    }
    reveal(BuddyAllocator::lists_ok);
    assert forall|k: int| #[trigger] x.lowest_listed(k) == y.lowest_listed(k) by {
        lemma_lowest_same(x, y, k);
    }
    if x.lists_ok(skip) {
        assert forall|k: int, i: int|
            0 <= k <= MAX_ORDER && 0 <= i < y.free_list(k).len() implies y.is_free_record(
            #[trigger] y.free_list(k)[i] as int,
            k,
        ) by {
            assert(x.free_list(k) == y.free_list(k));
            assert(x.is_free_record(x.free_list(k)[i] as int, k));
        }
    }
    if y.lists_ok(skip) {
        assert forall|k: int, i: int|
            0 <= k <= MAX_ORDER && 0 <= i < x.free_list(k).len() implies x.is_free_record(
            #[trigger] x.free_list(k)[i] as int,
            k,
        ) by {
            assert(x.free_list(k) == y.free_list(k));
            assert(y.is_free_record(y.free_list(k)[i] as int, k));
        }
    }
    assert forall|i: int| 0 <= i < x.tree@.len() implies 0 <= order_of(#[trigger] x.tree@[i])
        <= MAX_ORDER && x.free_list(order_of(x.tree@[i])) == y.free_list(order_of(x.tree@[i])) by {
        assert(x.tree@[i] == x.records()[i]);
        lemma_record_bounds(x, i);
    }
}

proof fn lemma_lowest_range<L: FreeList>(x: BuddyAllocator<L>, k: int)
    ensures
        x.lowest_listed(k) == -1 || k <= x.lowest_listed(k) <= MAX_ORDER && x.free_list(
            x.lowest_listed(k),
        ).len() > 0,
    decreases MAX_ORDER + 1 - k,
{
    if 0 <= k <= MAX_ORDER {
        lemma_lowest_range(x, k + 1);
    }
}

proof fn lemma_lowest_same<L: FreeList>(x: BuddyAllocator<L>, y: BuddyAllocator<L>, k: int)
    requires
        forall|j: int| 0 <= j <= MAX_ORDER ==> #[trigger] x.free_list(j) == y.free_list(j),
    ensures
        x.lowest_listed(k) == y.lowest_listed(k),
    decreases MAX_ORDER + 1 - k,
{
    if 0 <= k <= MAX_ORDER {
        assert(x.free_list(k) == y.free_list(k));
        lemma_lowest_same(x, y, k + 1);
    }
}

/// Taking the last address off a free list leaves every free record but that one listed.
proof fn lemma_pop<L: FreeList>(pre: BuddyAllocator<L>, post: BuddyAllocator<L>, order: int)
    requires
        pre.wf(),
        0 <= order <= MAX_ORDER,
        pre.free_list(order).len() > 0,
        post.records() == pre.records(),
        post.free@.len() == pre.free@.len(),
        post.free_list(order) == pre.free_list(order).drop_last(),
        forall|k: int| 0 <= k <= MAX_ORDER && k != order ==> #[trigger] post.free_list(k) == pre.free_list(k),
        post.regions@ == pre.regions@,
        post.handed_out@ == pre.handed_out@,
    ensures
        post.tree_ok(),
        post.lists_ok(pre.free_list(order).last() as int),
        post.is_free_record(pre.free_list(order).last() as int, order),
        pre.lowest_listed(order) == order,
        exists|i: int|
            0 <= i < post.records().len() && addr_of(#[trigger] post.records()[i])
                == pre.free_list(order).last() as int,
{
    assert(post.tree@ == pre.tree@);
    lemma_tree_ok_same(pre, post);
    reveal(BuddyAllocator::lists_ok);
    let l = pre.free_list(order);
    let a = l.last();
    assert(pre.is_free_record(l[l.len() - 1] as int, order));
    assert forall|k: int, x: int|
        0 <= k <= MAX_ORDER && 0 <= x < post.free_list(k).len() implies post.is_free_record(
        #[trigger] post.free_list(k)[x] as int,
        k,
    ) by {
        assert(post.free_list(k)[x] == pre.free_list(k)[x]);
        assert(pre.is_free_record(pre.free_list(k)[x] as int, k));
    }
    assert forall|k: int| 0 <= k <= MAX_ORDER implies #[trigger] post.free_list(k).no_duplicates() by {
        assert(pre.free_list(k).no_duplicates());
    }
    assert forall|i: int|
        0 <= i < post.tree@.len() && !(#[trigger] post.tree@[i]).spec_used() && addr_of(
            post.tree@[i],
        ) != a as int implies post.free_list(order_of(post.tree@[i])).contains(
        addr_of(post.tree@[i]) as usize,
    ) by {
        let k = order_of(pre.tree@[i]);
        assert(pre.free_list(k).contains(addr_of(pre.tree@[i]) as usize));
        let x = choose|x: int|
            0 <= x < pre.free_list(k).len() && pre.free_list(k)[x] == addr_of(pre.tree@[i]) as usize;
        assert(pre.tree@[i] == pre.records()[i]);
        lemma_record_bounds(pre, i);
        if k == order {
            assert(x != l.len() - 1);
            assert(post.free_list(k)[x] == pre.free_list(k)[x]);
        } else {
            assert(post.free_list(k) == pre.free_list(k));
        }
    }
}

#[verifier::rlimit(60)]
/// After the record of order `order + 1` at position `p` (address `a`) has been split, `a` taken
/// off the free list of order `order + 1` and both halves put on the list of order `order`,
/// every free record but the first half is listed.
proof fn lemma_split_lists<L: FreeList>(
    mid: BuddyAllocator<L>,
    halved: BuddyAllocator<L>,
    post: BuddyAllocator<L>,
    p: int,
    order: int,
)
    requires
        mid.tree_ok(),
        0 <= order < MAX_ORDER,
        0 <= p < mid.records().len(),
        mid.lists_ok(addr_of(mid.records()[p])),
        !mid.records()[p].spec_used(),
        order_of(mid.records()[p]) == order + 1,
        halved.tree_ok(),
        halved.regions@ == mid.regions@,
        halved.handed_out@ == mid.handed_out@,
        halved.records() == mid.records().update(p, halved.records()[p]).insert(
            p + 1,
            halved.records()[p + 1],
        ),
        addr_of(halved.records()[p]) == addr_of(mid.records()[p]),
        addr_of(halved.records()[p + 1]) == addr_of(mid.records()[p]) + block_size(order as nat),
        order_of(halved.records()[p]) == order,
        order_of(halved.records()[p + 1]) == order,
        !halved.records()[p].spec_used(),
        !halved.records()[p + 1].spec_used(),
        forall|k: int| 0 <= k <= MAX_ORDER ==> #[trigger] halved.free_list(k) == mid.free_list(k),
        post.records() == halved.records(),
        post.free@.len() == mid.free@.len(),
        !mid.free_list(order + 1).contains(addr_of(mid.records()[p]) as usize) ==> post.free_list(
            order + 1,
        ) == mid.free_list(order + 1),
        mid.free_list(order + 1).contains(addr_of(mid.records()[p]) as usize) ==> exists|i: int|
            0 <= i < mid.free_list(order + 1).len() && #[trigger] mid.free_list(order + 1)[i] == addr_of(
                mid.records()[p],
            ) as usize && post.free_list(order + 1) == mid.free_list(order + 1).remove(i),
        post.free_list(order) == mid.free_list(order).push(addr_of(mid.records()[p]) as usize).push(
            (addr_of(mid.records()[p]) + block_size(order as nat)) as usize,
        ),
        forall|k: int|
            0 <= k <= MAX_ORDER && k != order && k != order + 1 ==> #[trigger] post.free_list(k)
                == mid.free_list(k),
        post.regions@ == mid.regions@,
        post.handed_out@ == mid.handed_out@,
    ensures
        post.tree_ok(),
        post.lists_ok(addr_of(mid.records()[p])),
{
    let n = mid.records().len() as int;
    let b = mid.records()[p];
    let a = addr_of(b);
    let h = block_size(order as nat) as int;
    lemma_record_bounds(mid, p);
    lemma_halves_aligned(a, (order + 1) as nat);
    assert(post.tree@ == halved.tree@);
    lemma_tree_ok_same(halved, post);
    reveal(BuddyAllocator::tree_ok);
    reveal(BuddyAllocator::lists_ok);
    assert forall|q: int| 0 <= q <= n && q != p && q != p + 1 implies #[trigger] post.records()[q]
        == mid.records()[if q < p {
        q
    } else {
        q - 1
    }] by {}
    // No record of `mid` other than the split one sits at `a` or at `a + h`.
    assert forall|i: int| 0 <= i < n && i != p implies addr_of(#[trigger] mid.records()[i]) != a
        && addr_of(mid.records()[i]) != a + h by {
        if i < p {
            lemma_record_order(mid, i, p);
        } else {
            lemma_record_order(mid, p, i);
        }
    }
    let lo = mid.free_list(order);
    let hi = mid.free_list(order + 1);
    // Every listed address other than `a` belongs to a free record other than the split one.
    assert forall|k: int, x: int|
        0 <= k <= MAX_ORDER && 0 <= x < mid.free_list(k).len() && mid.free_list(k)[x] as int != a
            implies exists|i: int|
        0 <= i < n && i != p && addr_of(#[trigger] mid.records()[i]) == mid.free_list(k)[x] as int
            && order_of(mid.records()[i]) == k && !mid.records()[i].spec_used() by {
        assert(mid.is_free_record(mid.free_list(k)[x] as int, k));
    }
    assert(!lo.contains(a as usize)) by {
        if lo.contains(a as usize) {
            let x = choose|x: int| 0 <= x < lo.len() && #[trigger] lo[x] == a as usize;
            assert(mid.is_free_record(lo[x] as int, order));
            let i = choose|i: int|
                0 <= i < mid.records().len() && addr_of(#[trigger] mid.records()[i]) == lo[x] as int
                    && order_of(mid.records()[i]) == order && !mid.records()[i].spec_used();
        }
    }
    assert(!lo.contains((a + h) as usize)) by {
        if lo.contains((a + h) as usize) {
            let x = choose|x: int| 0 <= x < lo.len() && #[trigger] lo[x] == (a + h) as usize;
            assert(mid.is_free_record(lo[x] as int, order));
            let i = choose|i: int|
                0 <= i < mid.records().len() && addr_of(#[trigger] mid.records()[i]) == lo[x] as int
                    && order_of(mid.records()[i]) == order && !mid.records()[i].spec_used();
        }
    }
    // The list of order `order + 1` no longer holds `a`.
    assert(!post.free_list(order + 1).contains(a as usize) && post.free_list(order + 1).no_duplicates()
        && forall|x: int|
        0 <= x < post.free_list(order + 1).len() ==> hi.contains(
            #[trigger] post.free_list(order + 1)[x],
        )) by {
        assert(hi.no_duplicates());
        if hi.contains(a as usize) {
            let i = choose|i: int|
                0 <= i < hi.len() && #[trigger] hi[i] == a as usize && post.free_list(order + 1) == hi.remove(i);
            assert forall|x: int| 0 <= x < post.free_list(order + 1).len() implies hi.contains(
                #[trigger] post.free_list(order + 1)[x],
            ) by {
                let y = if x < i {
                    x
                } else {
                    x + 1
                };
                assert(post.free_list(order + 1)[x] == hi[y]);
            }
            if post.free_list(order + 1).contains(a as usize) {
                let x = choose|x: int|
                    0 <= x < post.free_list(order + 1).len() && #[trigger] post.free_list(order + 1)[x]
                        == a as usize;
                let y = if x < i {
                    x
                } else {
                    x + 1
                };
                assert(hi[y] == a as usize);
            }
        } else {
            assert forall|x: int| 0 <= x < post.free_list(order + 1).len() implies hi.contains(
                #[trigger] post.free_list(order + 1)[x],
            ) by {
                assert(post.free_list(order + 1)[x] == hi[x]);
            }
        }
    }
    assert forall|k: int| 0 <= k <= MAX_ORDER implies #[trigger] post.free_list(k).no_duplicates() by {
        if k == order {
            assert(lo.no_duplicates());
            assert(a != a + h);
        } else if k != order + 1 {
            assert(mid.free_list(k).no_duplicates());
        }
    }
    assert forall|k: int, x: int|
        0 <= k <= MAX_ORDER && 0 <= x < post.free_list(k).len() implies post.is_free_record(
        #[trigger] post.free_list(k)[x] as int,
        k,
    ) by {
        let e = post.free_list(k)[x];
        if k == order && x == lo.len() {
            assert(post.records()[p] == halved.records()[p]);
        } else if k == order && x == lo.len() + 1 {
            assert(post.records()[p + 1] == halved.records()[p + 1]);
        } else {
            let y = choose|y: int| 0 <= y < mid.free_list(k).len() && mid.free_list(k)[y] == e;
            if k == order {
                assert(lo[x] == e);
                assert(lo.contains(e));
            } else if k == order + 1 {
                assert(hi.contains(e));
            } else {
                assert(mid.free_list(k)[x] == e);
            }
            let y = choose|y: int| 0 <= y < mid.free_list(k).len() && mid.free_list(k)[y] == e;
            assert(e as int != a);
            let i = choose|i: int|
                0 <= i < n && i != p && addr_of(#[trigger] mid.records()[i]) == mid.free_list(
                    k,
                )[y] as int && order_of(mid.records()[i]) == k && !mid.records()[i].spec_used();
            let q = if i < p {
                i
            } else {
                i + 1
            };
            assert(post.records()[q] == mid.records()[i]);
        }
    }
    assert forall|i: int|
        0 <= i < post.tree@.len() && !(#[trigger] post.tree@[i]).spec_used() && addr_of(
            post.tree@[i],
        ) != a implies post.free_list(order_of(post.tree@[i])).contains(
        addr_of(post.tree@[i]) as usize,
    ) by {
        assert(post.tree@[i] == post.records()[i]);
        if i == p + 1 {
            assert(post.free_list(order)[lo.len() as int + 1] == (a + h) as usize);
        } else if i != p {
            let o = if i < p {
                i
            } else {
                i - 1
            };
            assert(post.records()[i] == mid.records()[o]);
            assert(mid.tree@[o] == mid.records()[o]);
            lemma_record_bounds(mid, o);
            let k = order_of(mid.records()[o]);
            let e = addr_of(mid.records()[o]) as usize;
            assert(mid.free_list(k).contains(e));
            let x = choose|x: int| 0 <= x < mid.free_list(k).len() && mid.free_list(k)[x] == e;
            if k == order {
                assert(post.free_list(k)[x] == e);
            } else if k == order + 1 {
                assert(hi.no_duplicates());
                if hi.contains(a as usize) {
                    let j = choose|j: int|
                        0 <= j < hi.len() && #[trigger] hi[j] == a as usize && post.free_list(order + 1)
                            == hi.remove(j);
                    let z = if x < j {
                        x
                    } else {
                        x - 1
                    };
                    assert(post.free_list(k)[z] == e);
                } else {
                    assert(post.free_list(k)[x] == e);
                }
            } else {
                assert(post.free_list(k)[x] == e);
            }
        }
    }
}

/// Marking the record at `p` used, taking its address off its free list and recording its block
/// as handed out restores the invariant; that block overlaps no block handed out before.
proof fn lemma_mark_tree<L: FreeList>(mid: BuddyAllocator<L>, post: BuddyAllocator<L>, p: int, order: int)
    requires
        mid.tree_ok(),
        0 <= p < mid.records().len(),
        mid.lists_ok(addr_of(mid.records()[p])),
        !mid.records()[p].spec_used(),
        order_of(mid.records()[p]) == order,
        0 <= order <= MAX_ORDER,
        post.records() == mid.records().update(p, post.records()[p]),
        post.records()[p].spec_used(),
        addr_of(post.records()[p]) == addr_of(mid.records()[p]),
        order_of(post.records()[p]) == order,
        post.free@.len() == mid.free@.len(),
        !mid.free_list(order).contains(addr_of(mid.records()[p]) as usize) ==> post.free_list(order)
            == mid.free_list(order),
        mid.free_list(order).contains(addr_of(mid.records()[p]) as usize) ==> exists|i: int|
            0 <= i < mid.free_list(order).len() && #[trigger] mid.free_list(order)[i] == addr_of(
                mid.records()[p],
            ) as usize && post.free_list(order) == mid.free_list(order).remove(i),
        forall|k: int| 0 <= k <= MAX_ORDER && k != order ==> #[trigger] post.free_list(k) == mid.free_list(k),
        post.regions@ == mid.regions@,
        post.handed_out@ == mid.handed_out@.insert((addr_of(mid.records()[p]), order)),
    ensures
        post.wf(),
        addr_of(mid.records()[p]) % block_size(order as nat) as int == 0,
        mid.in_region(addr_of(mid.records()[p]), order),
        post.records().contains(post.records()[p]),
        forall|u: int, k: int| #[trigger]
            mid.handed_out@.contains((u, k)) ==> u != addr_of(mid.records()[p]) && ranges_disjoint(
                addr_of(mid.records()[p]),
                block_size(order as nat) as int,
                u,
                block_size(k as nat) as int,
            ),
{
    let n = mid.records().len() as int;
    let b = mid.records()[p];
    let a = addr_of(b);
    lemma_record_bounds(mid, p);
    assert forall|i: int| 0 <= i < n && i != p implies addr_of(#[trigger] mid.records()[i]) != a
        && ranges_disjoint(
        a,
        block_size(order as nat) as int,
        addr_of(mid.records()[i]),
        block_size(order_of(mid.records()[i]) as nat) as int,
    ) by {
        lemma_record_bounds(mid, i);
        if i < p {
            lemma_record_order(mid, i, p);
        } else {
            lemma_record_order(mid, p, i);
        }
    }
    reveal(BuddyAllocator::tree_ok);
    reveal(BuddyAllocator::lists_ok);
    assert(post.tree@ == post.records());
    assert(mid.tree@ == mid.records());
    assert(post.records()[p] == post.tree@[p]);
    assert forall|u: int, k: int| #[trigger]
        mid.handed_out@.contains((u, k)) implies u != a && ranges_disjoint(
        a,
        block_size(order as nat) as int,
        u,
        block_size(k as nat) as int,
    ) by {
        assert(mid.tree@[p] == b);
        vstd::arithmetic::power2::lemma_pow2_pos(crate::BASE_ORDER as nat + order as nat);
        vstd::arithmetic::power2::lemma_pow2_pos(crate::BASE_ORDER as nat + k as nat);
    }
    let l = mid.free_list(order);
    assert(!post.free_list(order).contains(a as usize) && post.free_list(order).no_duplicates()
        && forall|x: int|
        0 <= x < post.free_list(order).len() ==> l.contains(#[trigger] post.free_list(order)[x]))
        by {
        assert(l.no_duplicates());
        if l.contains(a as usize) {
            let i = choose|i: int|
                0 <= i < l.len() && l[i] == a as usize && post.free_list(order) == l.remove(i);
            assert forall|x: int| 0 <= x < post.free_list(order).len() implies l.contains(
                #[trigger] post.free_list(order)[x],
            ) by {
                let y = if x < i {
                    x
                } else {
                    x + 1
                };
                assert(post.free_list(order)[x] == l[y]);
            }
            if post.free_list(order).contains(a as usize) {
                let x = choose|x: int|
                    0 <= x < post.free_list(order).len() && #[trigger] post.free_list(order)[x] == a as usize;
                let y = if x < i {
                    x
                } else {
                    x + 1
                };
                assert(l[y] == a as usize);
            }
        } else {
            assert forall|x: int| 0 <= x < post.free_list(order).len() implies l.contains(
                #[trigger] post.free_list(order)[x],
            ) by {
                assert(post.free_list(order)[x] == l[x]);
            }
        }
    }
    assert forall|i: int|
        0 <= i < post.tree@.len() implies {
        let e = #[trigger] post.tree@[i];
        &&& order_of(e) <= MAX_ORDER
        &&& addr_of(e) % block_size(order_of(e) as nat) as int == 0
        &&& post.in_region(addr_of(e), order_of(e))
    } by {
        if i != p {
            assert(post.tree@[i] == mid.tree@[i]);
        }
        lemma_record_bounds(mid, i);
        let w = choose|w: int|
            #![trigger mid.regions().contains(w)]
            mid.regions().contains(w) && w <= addr_of(mid.records()[i]) && addr_of(mid.records()[i])
                + block_size(order_of(mid.records()[i]) as nat) <= w + region_size();
        assert(post.regions().contains(w));
    }
    assert forall|i: int, j: int|
        #![trigger post.tree@[i], post.tree@[j]]
        0 <= i < j < post.tree@.len() implies addr_of(post.tree@[i]) + block_size(
            order_of(post.tree@[i]) as nat,
        ) <= addr_of(post.tree@[j]) by {
        lemma_record_order(mid, i, j);
    }
    assert forall|u: int, k: int| #[trigger]
        post.handed_out@.contains((u, k)) implies 0 <= k <= MAX_ORDER && post.in_region(u, k) by {
        if (u, k) != (a, order) {
            assert(mid.handed_out@.contains((u, k)));
        }
        assert(mid.in_region(u, k) || (u, k) == (a, order));
        lemma_in_region_grow(mid, post, u, k);
    }
    assert forall|u: int, k: int, i: int|
        #![trigger post.handed_out@.contains((u, k)), post.tree@[i]]
        post.handed_out@.contains((u, k)) && 0 <= i < post.tree@.len()
            && !post.tree@[i].spec_used() implies ranges_disjoint(
        u,
        block_size(k as nat) as int,
        addr_of(post.tree@[i]),
        block_size(order_of(post.tree@[i]) as nat) as int,
    ) by {
        assert(i != p);
        assert(post.tree@[i] == mid.tree@[i]);
        if (u, k) != (a, order) {
            assert(mid.handed_out@.contains((u, k)));
        }
    }
    assert forall|a1: int, k1: int, a2: int, k2: int|
        #![trigger post.handed_out@.contains((a1, k1)), post.handed_out@.contains((a2, k2))]
        post.handed_out@.contains((a1, k1)) && post.handed_out@.contains((a2, k2)) && (a1, k1)
            != (a2, k2) implies ranges_disjoint(
        a1,
        block_size(k1 as nat) as int,
        a2,
        block_size(k2 as nat) as int,
    ) by {
        if (a1, k1) == (a, order) {
            assert(mid.handed_out@.contains((a2, k2)));
        } else if (a2, k2) == (a, order) {
            assert(mid.handed_out@.contains((a1, k1)));
        } else {
            assert(mid.handed_out@.contains((a1, k1)));
            assert(mid.handed_out@.contains((a2, k2)));
        }
    }
    assert(post.tree_ok());
    assert forall|k: int| 0 <= k <= MAX_ORDER implies #[trigger] post.free_list(k).no_duplicates() by {
        if k != order {
            assert(mid.free_list(k).no_duplicates());
        }
    }
    assert forall|k: int, x: int|
        0 <= k <= MAX_ORDER && 0 <= x < post.free_list(k).len() implies post.is_free_record(
        #[trigger] post.free_list(k)[x] as int,
        k,
    ) by {
        let e = post.free_list(k)[x];
        if k == order {
            assert(l.contains(e));
        } else {
            assert(mid.free_list(k)[x] == e);
            assert(mid.free_list(k).contains(e));
        }
        let y = choose|y: int| 0 <= y < mid.free_list(k).len() && mid.free_list(k)[y] == e;
        assert(mid.is_free_record(mid.free_list(k)[y] as int, k));
        let i = choose|i: int|
            0 <= i < mid.records().len() && addr_of(#[trigger] mid.records()[i]) == e as int
                && order_of(mid.records()[i]) == k && !mid.records()[i].spec_used();
        if k == order {
            assert(e as int != a);
        }
        assert(i != p) by {
            if i == p {
                assert(k == order);
            }
        }
        assert(post.records()[i] == mid.records()[i]);
    }
    assert forall|i: int|
        0 <= i < post.tree@.len() && !(#[trigger] post.tree@[i]).spec_used() && addr_of(
            post.tree@[i],
        ) != -1 implies post.free_list(order_of(post.tree@[i])).contains(
        addr_of(post.tree@[i]) as usize,
    ) by {
        assert(i != p);
        assert(post.tree@[i] == mid.tree@[i]);
        let k = order_of(mid.tree@[i]);
        let e = addr_of(mid.tree@[i]) as usize;
        lemma_record_bounds(mid, i);
        assert(addr_of(mid.records()[i]) != a);
        assert(mid.free_list(k).contains(e));
        let x = choose|x: int| 0 <= x < mid.free_list(k).len() && mid.free_list(k)[x] == e;
        if k == order {
            if l.contains(a as usize) {
                let j = choose|j: int|
                    0 <= j < l.len() && #[trigger] l[j] == a as usize && post.free_list(order) == l.remove(j);
                let z = if x < j {
                    x
                } else {
                    x - 1
                };
                assert(post.free_list(k)[z] == e);
            } else {
                assert(post.free_list(k)[x] == e);
            }
        } else {
            assert(post.free_list(k)[x] == e);
        }
    }
}

} // verus!
