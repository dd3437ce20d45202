//! A first-fit allocator over a list of free regions.

use crate::align::{
    adjusted_align, adjusted_size, align_up, checked_align_to, checked_size_align, is_aligned,
    lemma_adjusted, lemma_align_up, lemma_aligned_to_multiple, lemma_pow2_positive, size_align,
    Layout,
};
use crate::block::{AllocError, Block};
use crate::mutex::{guarded, Mutexed};
use vstd::arithmetic::power2::is_pow2;
use vstd::prelude::*;

verus! {

/// The least size of a free region, in bytes.
pub const NODE_SIZE: usize = 16;

/// The alignment of the start of a free region, in bytes.
pub const NODE_ALIGN: usize = 8;

/// Where a request for `size` bytes aligned to `align` starts in the free
/// region `region`, if the region can serve it: the request must end inside
/// the region, and what is left behind it must be nothing or enough for a
/// free region of its own.
pub open spec fn fit(region: Block, size: int, align: int) -> Option<usize> {
    let start = align_up(region.start as int, align);
    let excess = region.end() - (start + size);
    if excess == 0 || excess >= NODE_SIZE {
        Some(start as usize)
    } else {
        None
    }
}

/// The position in `free` of the first region that can serve a request for
/// `size` bytes aligned to `align`.
pub open spec fn first_fit(free: Seq<Block>, size: int, align: int) -> Option<int>
    decreases free.len(),
{
    if free.len() == 0 {
        None
    } else if fit(free[0], size, align) is Some {
        Some(0)
    } else {
        match first_fit(free.skip(1), size, align) {
            Some(i) => Some(i + 1),
            None => None,
        }
    }
}

/// `first_fit` is the position of a region that fits, with none that fits
/// before it; it is `None` only where no region fits.
pub proof fn lemma_first_fit(free: Seq<Block>, size: int, align: int)
    ensures
        match first_fit(free, size, align) {
            Some(i) => 0 <= i < free.len() && fit(free[i], size, align) is Some && forall|j: int|
                0 <= j < i ==> fit(#[trigger] free[j], size, align) is None,
            None => forall|j: int| 0 <= j < free.len() ==> fit(#[trigger] free[j], size, align) is None,
        },
    decreases free.len(),
{
    if free.len() > 0 && fit(free[0], size, align) is None {
        let rest = free.skip(1);
        lemma_first_fit(rest, size, align);
        assert forall|j: int| 0 <= j < free.len() implies #[trigger] free[j] == if j == 0 {
            free[0]
        } else {
            rest[j - 1]
        } by {}
        match first_fit(rest, size, align) {
            Some(i) => {
                assert forall|j: int| 0 <= j < i + 1 implies fit(#[trigger] free[j], size, align) is None by {
                    if j > 0 {
                        assert(free[j] == rest[j - 1]);
                    }
                }
            },
            None => {
                assert forall|j: int| 0 <= j < free.len() implies fit(#[trigger] free[j], size, align) is None by {
                    if j > 0 {
                        assert(free[j] == rest[j - 1]);
                    }
                }
            },
        }
    }
}

/// A region that fits, with none that fits before it, is the first fit.
pub proof fn lemma_first_fit_at(free: Seq<Block>, size: int, align: int, i: int)
    requires
        0 <= i < free.len(),
        fit(free[i], size, align) is Some,
        forall|j: int| 0 <= j < i ==> fit(#[trigger] free[j], size, align) is None,
    ensures
        first_fit(free, size, align) == Some(i),
{
    lemma_first_fit(free, size, align);
}

/// Where no region fits, there is no first fit.
pub proof fn lemma_first_fit_none(free: Seq<Block>, size: int, align: int)
    requires
        forall|j: int| 0 <= j < free.len() ==> fit(#[trigger] free[j], size, align) is None,
    ensures
        first_fit(free, size, align) is None,
{
    lemma_first_fit(free, size, align);
}

/// A free region.
#[derive(Clone, Copy, Debug)]
pub struct Node {
    start: usize,
    size: usize,
}

impl View for Node {
    type V = Block;

    closed spec fn view(&self) -> Block {
        Block { start: self.start, size: self.size }
    }
}

impl Node {
    /// A free region can hold a node's header, starts at a multiple of the
    /// header's alignment and ends within the address space.
    #[verifier::type_invariant]
    pub open spec fn wf(&self) -> bool {
        &&& self@.size >= NODE_SIZE
        &&& is_aligned(self@.start as int, NODE_ALIGN as int)
        &&& self@.end() <= usize::MAX
    }

    /// The layout of a free region's header.
    pub fn layout() -> (meta: Layout)
        ensures
            meta.wf(),
            meta.size() == NODE_SIZE,
            meta.align() == NODE_ALIGN,
    {
        assert(is_pow2(NODE_ALIGN as int)) by {
            reveal_with_fuel(is_pow2, 4);
        }
        Layout::new(NODE_SIZE, NODE_ALIGN)
    }

    /// The free region of `size` bytes that begins at `start`.
    pub fn with_size(start: usize, size: usize) -> (node: Node)
        requires
            size >= NODE_SIZE,
            is_aligned(start as int, NODE_ALIGN as int),
            start + size <= usize::MAX,
        ensures
            node@ == (Block { start, size }),
            node.wf(),
    {
        Node { start, size }
    }

    /// Checks if this region can serve a request for `size` bytes aligned
    /// to `align`. Returns the address at which the request would start.
    pub fn can_allocate(&self, size: usize, align: usize) -> (alloc_start: Option<usize>)
        requires
            is_pow2(align as int),
        ensures
            alloc_start == fit(self@, size as int, align as int),
    {
        proof {
            use_type_invariant(self);
            lemma_pow2_positive(align as int);
            lemma_align_up(self@.start as int, align as int);
        }
        let alloc_start: usize = checked_align_to(self.starting_address(), align)?;
        let alloc_end: usize = alloc_start.checked_add(size)?;

        if alloc_end > self.ending_address() {
            // This region cannot fit `size`
            return None;
        }
        // How much memory would be left in the region after fitting `size`
        let excess_size: usize = self.ending_address() - alloc_end;
        if excess_size > 0 && excess_size < NODE_SIZE {
            return None;
        }
        Some(alloc_start)
    }

    /// The address of the region's first byte.
    pub fn starting_address(&self) -> (addr: usize)
        ensures
            addr == self@.start,
    {
        self.start
    }

    /// The address just past the region's last byte.
    pub fn ending_address(&self) -> (addr: usize)
        ensures
            addr == self@.end(),
    {
        proof {
            use_type_invariant(self);
        }
        self.start + self.size
    }
}

/// The size of the block that serves a request of layout `layout`: the
/// request adjusted so that the block can become a free region again.
pub open spec fn node_size(layout: Layout) -> int {
    adjusted_size(layout.size() as int, layout.align() as int, NODE_SIZE as int, NODE_ALIGN as int)
}

/// The alignment of the block that serves a request of layout `layout`.
pub open spec fn node_align(layout: Layout) -> int {
    adjusted_align(layout.align() as int, NODE_ALIGN as int)
}

/// What serving a request of layout `layout` from the free list `free`
/// yields: the block granted, and the free list afterwards. The block lies
/// in the first region that fits; that region leaves the list, and what is
/// left of it behind the block enters the list at the head. A request whose
/// adjusted size no address can express is not served.
pub open spec fn grant(free: Seq<Block>, layout: Layout) -> Option<(Block, Seq<Block>)> {
    let size = node_size(layout);
    let align = node_align(layout);
    match first_fit(free, size, align) {
        Some(i) if size <= usize::MAX => {
            let start = align_up(free[i].start as int, align);
            let end = start + size;
            let block = Block { start: start as usize, size: size as usize };
            let rest = free.remove(i);
            if end < free[i].end() {
                Some(
                    (
                        block,
                        seq![Block { start: end as usize, size: (free[i].end() - end) as usize }]
                            + rest,
                    ),
                )
            } else {
                Some((block, rest))
            }
        },
        _ => None,
    }
}

/// The block that a request of layout `layout` served at `addr` occupies.
pub open spec fn granted_block(addr: usize, layout: Layout) -> Block {
    Block { start: addr, size: node_size(layout) as usize }
}

/// Whether the free regions `free` and the live blocks `live` share the
/// memory `arena` between them: each lies in the arena, and no two of them
/// overlap.
pub open spec fn consistent(free: Seq<Block>, live: Set<Block>, arena: Block) -> bool {
    &&& arena.end() <= usize::MAX
    &&& forall|i: int| 0 <= i < free.len() ==> (#[trigger] free[i]).within(arena)
    &&& forall|i: int, j: int|
        0 <= i < j < free.len() ==> (#[trigger] free[i]).disjoint(#[trigger] free[j])
    &&& forall|b: Block| #[trigger] live.contains(b) ==> b.within(arena)
    &&& forall|b: Block, i: int|
        #[trigger] live.contains(b) && 0 <= i < free.len() ==> b.disjoint(#[trigger] free[i])
    &&& forall|a: Block, b: Block|
        #[trigger] live.contains(a) && #[trigger] live.contains(b) && a != b ==> a.disjoint(b)
}

/// A block granted from a consistent free list lies in the arena and
/// overlaps no live block and no region that stays free, and the free
/// regions and live blocks are consistent afterwards.
pub proof fn lemma_grant_consistent(
    free: Seq<Block>,
    live: Set<Block>,
    arena: Block,
    layout: Layout,
)
    requires
        layout.wf(),
        consistent(free, live, arena),
        grant(free, layout) is Some,
    ensures
        ({
            let (block, rest) = grant(free, layout)->0;
            &&& block.within(arena)
            &&& block.size >= NODE_SIZE
            &&& forall|b: Block| live.contains(b) ==> b.disjoint(block)
            &&& forall|i: int| 0 <= i < rest.len() ==> block.disjoint(#[trigger] rest[i])
            &&& consistent(rest, live.insert(block), arena)
        }),
{
    let size = node_size(layout);
    let align = node_align(layout);
    let (block, rest) = grant(free, layout)->0;
    let i = first_fit(free, size, align)->0;
    lemma_first_fit(free, size, align);
    lemma_node_layout(layout);
    lemma_align_up(free[i].start as int, align);
    lemma_adjusted(layout.size() as int, layout.align() as int, NODE_SIZE as int, NODE_ALIGN as int);
    let region = free[i];
    assert(region.within(arena));
    assert(block.within(region));
    let tail = free.remove(i);
    assert forall|j: int| 0 <= j < tail.len() implies (#[trigger] tail[j]).disjoint(region)
        && tail[j].within(arena) by {
        if j < i {
            assert(tail[j] == free[j]);
        } else {
            assert(tail[j] == free[j + 1]);
        }
    }
    assert forall|j: int, k: int| 0 <= j < k < tail.len() implies (#[trigger] tail[j]).disjoint(
        #[trigger] tail[k],
    ) by {
        let jj = if j < i { j } else { j + 1 };
        let kk = if k < i { k } else { k + 1 };
        assert(tail[j] == free[jj]);
        assert(tail[k] == free[kk]);
    }
    assert forall|b: Block, j: int| #[trigger] live.contains(b) && 0 <= j < tail.len() implies b.disjoint(
        #[trigger] tail[j],
    ) by {
        let jj = if j < i { j } else { j + 1 };
        assert(tail[j] == free[jj]);
    }
    assert forall|b: Block| live.contains(b) implies b.disjoint(block) by {
        assert(b.disjoint(free[i]));
    }
    if block.end() < region.end() {
        let left = Block { start: block.end() as usize, size: (region.end() - block.end()) as usize };
        assert(left.within(region));
        assert(rest =~= seq![left] + tail);
        assert forall|j: int| 0 <= j < rest.len() implies #[trigger] rest[j] == if j == 0 {
            left
        } else {
            tail[j - 1]
        } by {}
        assert forall|j: int, k: int| 0 <= j < k < rest.len() implies (#[trigger] rest[j]).disjoint(
            #[trigger] rest[k],
        ) by {
            assert(rest[k] == tail[k - 1]);
            if j > 0 {
                assert(rest[j] == tail[j - 1]);
            }
        }
        assert forall|b: Block, j: int| #[trigger]
            live.insert(block).contains(b) && 0 <= j < rest.len() implies b.disjoint(
            #[trigger] rest[j],
        ) by {
            if j > 0 {
                assert(rest[j] == tail[j - 1]);
            }
            if b != block {
                assert(live.contains(b));
                assert(b.disjoint(free[i]));
            }
        }
    } else {
        assert(rest == tail);
    }
}

/// Giving a live block back keeps the free regions and live blocks
/// consistent.
pub proof fn lemma_release_consistent(
    free: Seq<Block>,
    live: Set<Block>,
    arena: Block,
    block: Block,
)
    requires
        consistent(free, live, arena),
        live.contains(block),
    ensures
        consistent(seq![block] + free, live.remove(block), arena),
{
    let after = seq![block] + free;
    assert forall|j: int| 0 <= j < after.len() implies #[trigger] after[j] == if j == 0 {
        block
    } else {
        free[j - 1]
    } by {}
    assert forall|j: int, k: int| 0 <= j < k < after.len() implies (#[trigger] after[j]).disjoint(
        #[trigger] after[k],
    ) by {
        assert(after[k] == free[k - 1]);
        if j > 0 {
            assert(after[j] == free[j - 1]);
        }
    }
    assert forall|b: Block, j: int| #[trigger]
        live.remove(block).contains(b) && 0 <= j < after.len() implies b.disjoint(
        #[trigger] after[j],
    ) by {
        assert(live.contains(b));
        if j > 0 {
            assert(after[j] == free[j - 1]);
        }
    }
}

/// The block that serves a request can become a free region again: its
/// size is a multiple of its alignment, both are multiples of a free
/// region's alignment, and its size is at least a free region's and the
/// request's.
pub proof fn lemma_node_layout(layout: Layout)
    requires
        layout.wf(),
    ensures
        layout.align() > 0,
        is_pow2(layout.align() as int),
        is_pow2(node_align(layout)),
        is_aligned(node_align(layout), NODE_ALIGN as int),
        is_aligned(node_size(layout), node_align(layout)),
        is_aligned(node_size(layout), NODE_ALIGN as int),
        node_size(layout) >= NODE_SIZE,
        node_size(layout) >= layout.size(),
{
    lemma_pow2_positive(layout.align() as int);
    let align = node_align(layout);
    assert(is_pow2(NODE_ALIGN as int)) by {
        reveal_with_fuel(is_pow2, 4);
    }
    assert(is_aligned(align, NODE_ALIGN as int)) by {
        reveal_with_fuel(is_pow2, 4);
    }
    lemma_adjusted(layout.size() as int, layout.align() as int, NODE_SIZE as int, NODE_ALIGN as int);
    lemma_aligned_to_multiple(node_size(layout), align, NODE_ALIGN as int);
}

/// A block given back serves the next request of the same layout: the
/// request gets the block's address, and the free list is what it was
/// before the block came back.
pub proof fn lemma_release_then_grant(free: Seq<Block>, addr: usize, layout: Layout)
    requires
        layout.wf(),
        is_aligned(addr as int, node_align(layout)),
        addr + node_size(layout) <= usize::MAX,
    ensures
        grant(seq![granted_block(addr, layout)] + free, layout) == Some(
            (granted_block(addr, layout), free),
        ),
{
    let block = granted_block(addr, layout);
    let after = seq![block] + free;
    lemma_node_layout(layout);
    assert(after[0] == block);
    assert(fit(block, node_size(layout), node_align(layout)) == Some(addr));
    assert(after.remove(0) =~= free);
}

/// A request that, adjusted, takes exactly the one free region is served
/// with the whole of it, and one for a byte more is not served, where the
/// region starts at an address aligned as the requests ask.
pub proof fn lemma_exact_fit(region: Block, exact: Layout, more: Layout)
    requires
        exact.wf(),
        more.wf(),
        region.end() <= usize::MAX,
        is_aligned(region.start as int, node_align(exact)),
        exact.size() == region.size,
        node_size(exact) == region.size,
        more.size() == exact.size() + 1,
    ensures
        grant(seq![region], exact) == Some((region, Seq::<Block>::empty())),
        grant(seq![region], more) is None,
{
    let free = seq![region];
    lemma_node_layout(exact);
    lemma_node_layout(more);
    assert(free[0] == region);
    assert(fit(region, node_size(exact), node_align(exact)) == Some(region.start));
    assert(free.remove(0) =~= Seq::<Block>::empty());
    lemma_first_fit(free, node_size(more), node_align(more));
    lemma_pow2_positive(node_align(more));
    lemma_align_up(region.start as int, node_align(more));
    lemma_adjusted(more.size() as int, more.align() as int, NODE_SIZE as int, NODE_ALIGN as int);
}

/// An allocator that serves each request from the first free region that
/// fits it.
pub struct LinkedListAllocator {
    /// The free regions, the head of the list last.
    nodes: Vec<Node>,
    /// The memory that the allocator was made over.
    arena: Ghost<Block>,
    /// The blocks granted and not yet given back.
    live: Ghost<Set<Block>>,
}

impl LinkedListAllocator {
    /// The free regions, from the head of the list on.
    pub closed spec fn free_list(&self) -> Seq<Block> {
        Seq::new(self.nodes@.len(), |i: int| self.nodes@[self.nodes@.len() - 1 - i]@)
    }

    /// The blocks granted and not yet given back.
    pub closed spec fn live(&self) -> Set<Block> {
        self.live@
    }

    /// The memory that the allocator was made over.
    pub closed spec fn arena(&self) -> Block {
        self.arena@
    }

    /// The free regions and the live blocks lie in the arena, and no two of
    /// them overlap.
    pub open spec fn consistent(&self) -> bool {
        consistent(self.free_list(), self.live(), self.arena())
    }

    /// An allocator over the `heap_size` bytes that begin at `heap_start`:
    /// the whole of it is one free region.
    pub fn new(heap_start: usize, heap_size: usize) -> (alloc: Self)
        requires
            heap_size >= NODE_SIZE,
            is_aligned(heap_start as int, NODE_ALIGN as int),
            heap_start + heap_size <= usize::MAX,
        ensures
            alloc.free_list() == seq![Block { start: heap_start, size: heap_size }],
            alloc.live() == Set::<Block>::empty(),
            alloc.arena() == (Block { start: heap_start, size: heap_size }),
            alloc.consistent(),
    {
        let mut this = LinkedListAllocator {
            nodes: Vec::new(),
            arena: Ghost(Block { start: heap_start, size: heap_size }),
            live: Ghost(Set::empty()),
        };
        assert(this.free_list() =~= Seq::<Block>::empty());
        this.add_free_region(heap_start, heap_size);
        this
    }

    /// Puts the `size` bytes that begin at `addr` at the head of the free
    /// list.
    fn add_free_region(&mut self, addr: usize, size: usize)
        requires
            size >= NODE_SIZE,
            is_aligned(addr as int, NODE_ALIGN as int),
            addr + size <= usize::MAX,
        ensures
            final(self).free_list() == seq![Block { start: addr, size }] + old(self).free_list(),
            final(self).live() == old(self).live(),
            final(self).arena() == old(self).arena(),
    {
        let new_node = Node::with_size(addr, size);
        self.nodes.push(new_node);
        assert(self.free_list() =~= seq![Block { start: addr, size }] + old(self).free_list());
    }

    /// Looks for a free region that can serve a request for `size` bytes
    /// aligned to `align`, from the head of the list on, and removes the
    /// first one from the list.
    ///
    /// Returns the region and the address at which the request starts.
    pub fn find_region(&mut self, size: usize, align: usize) -> (found: Option<(Node, usize)>)
        requires
            is_pow2(align as int),
        ensures
            final(self).live() == old(self).live(),
            final(self).arena() == old(self).arena(),
            match first_fit(old(self).free_list(), size as int, align as int) {
                Some(i) => {
                    &&& found matches Some((region, alloc_start))
                    &&& region@ == old(self).free_list()[i]
                    &&& region.wf()
                    &&& Some(alloc_start) == fit(region@, size as int, align as int)
                    &&& final(self).free_list() == old(self).free_list().remove(i)
                },
                None => found is None && final(self).free_list() == old(self).free_list(),
            },
    {
        let ghost free = self.free_list();
        let len: usize = self.nodes.len();
        // position just above the region to look at next
        let mut k: usize = len;
        while k > 0
            invariant
                *self == *old(self),
                free == self.free_list(),
                len == self.nodes@.len(),
                k <= len,
                is_pow2(align as int),
                forall|j: int| 0 <= j < len - k ==> fit(#[trigger] free[j], size as int, align as int) is None,
            decreases k,
        {
            k = k - 1;
            let region: Node = self.nodes[k];
            assert(region@ == free[len - 1 - k]);
            match region.can_allocate(size, align) {
                Some(alloc_start) => {
                    // region suitable for the request -> remove it from the list
                    let region: Node = self.nodes.remove(k);
                    proof {
                        use_type_invariant(&region);
                        lemma_first_fit_at(free, size as int, align as int, len - 1 - k);
                        assert(self.free_list() =~= free.remove(len - 1 - k));
                    }
                    return Some((region, alloc_start));
                },
                None => {},
            }
        }
        proof {
            lemma_first_fit_none(free, size as int, align as int);
        }
        // no suitable region found
        None
    }

    /// An allocator over the `cap` bytes that a memory source mapped at
    /// `base`, where a `base` of 0 says that the source had none to give.
    /// Fails where there is no memory to serve from: `cap` is 0 or `base`
    /// is 0.
    pub fn with_capacity(cap: usize, base: usize) -> (made: Result<Self, AllocError>)
        requires
            cap != 0 && base != 0 ==> {
                &&& cap >= NODE_SIZE
                &&& is_aligned(base as int, NODE_ALIGN as int)
                &&& base + cap <= usize::MAX
            },
        ensures
            match made {
                Ok(alloc) => {
                    &&& cap != 0 && base != 0
                    &&& alloc.free_list() == seq![Block { start: base, size: cap }]
                    &&& alloc.live() == Set::<Block>::empty()
                    &&& alloc.arena() == (Block { start: base, size: cap })
                    &&& alloc.consistent()
                },
                Err(_) => cap == 0 || base == 0,
            },
    {
        if cap == 0 || base == 0 {
            return Err(AllocError);
        }
        Ok(Self::new(base, cap))
    }

    /// Serves a request of layout `layout` from the first free region that
    /// fits it. What is left of the region behind the block granted goes
    /// back to the free list.
    pub fn allocate(&mut self, layout: Layout) -> (granted: Result<Block, AllocError>)
        ensures
            final(self).arena() == old(self).arena(),
            match grant(old(self).free_list(), layout) {
                Some((block, free)) => {
                    &&& granted == Ok::<Block, AllocError>(block)
                    &&& final(self).free_list() == free
                    &&& final(self).live() == old(self).live().insert(block)
                },
                None => {
                    &&& granted == Err::<Block, AllocError>(AllocError)
                    &&& final(self).free_list() == old(self).free_list()
                    &&& final(self).live() == old(self).live()
                },
            },
            granted matches Ok(block) ==> {
                &&& block.size == node_size(layout)
                &&& is_aligned(block.start as int, node_align(layout))
                &&& block.end() <= usize::MAX
            },
            old(self).consistent() ==> final(self).consistent(),
            old(self).consistent() ==> (granted matches Ok(block) ==> {
                &&& block.within(old(self).arena())
                &&& forall|b: Block| old(self).live().contains(b) ==> b.disjoint(block)
            }),
    {
        let ghost free = self.free_list();
        proof {
            use_type_invariant(&layout);
            lemma_node_layout(layout);
            lemma_first_fit(free, node_size(layout), node_align(layout));
            if self.consistent() && grant(free, layout) is Some {
                lemma_grant_consistent(free, self.live(), self.arena(), layout);
            }
        }
        let meta = Node::layout();
        let (size, align): (usize, usize) = match checked_size_align(layout, meta) {
            Some(adjusted) => adjusted,
            None => return Err(AllocError),
        };
        match self.find_region(size, align) {
            Some((region, alloc_start)) => {
                proof {
                    lemma_align_up(region@.start as int, align as int);
                    lemma_aligned_to_multiple(alloc_start as int, align as int, NODE_ALIGN as int);
                }
                let alloc_end: usize = alloc_start + size;
                let excess_size: usize = region.ending_address() - alloc_end;
                if excess_size > 0 {
                    self.add_free_region(alloc_end, excess_size);
                }
                let block = Block { start: alloc_start, size };
                self.live = Ghost(self.live@.insert(block));
                Ok(block)
            },
            None => Err(AllocError),
        }
    }

    /// Takes back the block that served a request of layout `layout` at
    /// `addr`: it becomes the head of the free list.
    pub fn deallocate(&mut self, addr: usize, layout: Layout)
        requires
            is_aligned(addr as int, NODE_ALIGN as int),
            addr + node_size(layout) <= usize::MAX,
        ensures
            final(self).free_list() == seq![granted_block(addr, layout)] + old(self).free_list(),
            final(self).live() == old(self).live().remove(granted_block(addr, layout)),
            final(self).arena() == old(self).arena(),
            old(self).consistent() && old(self).live().contains(granted_block(addr, layout))
                ==> final(self).consistent(),
    {
        proof {
            use_type_invariant(&layout);
            lemma_node_layout(layout);
            if self.consistent() && self.live().contains(granted_block(addr, layout)) {
                lemma_release_consistent(
                    self.free_list(),
                    self.live(),
                    self.arena(),
                    granted_block(addr, layout),
                );
            }
        }
        // the adjusted size fits, as the block ends within the address space
        if let Some((size, _)) = checked_size_align(layout, Node::layout()) {
            self.add_free_region(addr, size);
            self.live = Ghost(self.live@.remove(Block { start: addr, size }));
        }
    }
}

/// A first-fit allocator protected by a spinlock mutex.
pub type LockedLinkedListAllocator = Mutexed<LinkedListAllocator>;

impl Mutexed<LinkedListAllocator> {
    /// Creates a [`LockedLinkedListAllocator`] over the `cap` bytes that a
    /// memory source mapped at `base`, where a `base` of 0 says that the
    /// source had none to give.
    pub fn with_capacity(cap: usize, base: usize) -> (made: Result<Self, AllocError>)
        requires
            cap != 0 && base != 0 ==> {
                &&& cap >= NODE_SIZE
                &&& is_aligned(base as int, NODE_ALIGN as int)
                &&& base + cap <= usize::MAX
            },
        ensures
            made is Ok <==> cap != 0 && base != 0,
    {
        match LinkedListAllocator::with_capacity(cap, base) {
            Ok(alloc) => Ok(Mutexed::new(alloc)),
            Err(err) => Err(err),
        }
    }

    /// Serves a request of layout `layout` from the allocator behind the
    /// lock, as [`LinkedListAllocator::allocate`] does, in whatever state
    /// the allocator is found.
    pub fn allocate(&self, layout: Layout) -> (granted: Result<Block, AllocError>)
        ensures
            granted matches Ok(block) ==> {
                &&& block.size == node_size(layout)
                &&& is_aligned(block.start as int, node_align(layout))
                &&& block.end() <= usize::MAX
            },
    {
        let mut guard = self.lock();
        let alloc = guarded(&mut guard);
        alloc.allocate(layout)
    }

    /// Takes the block that served a request of layout `layout` at `addr`
    /// back into the allocator behind the lock, as
    /// [`LinkedListAllocator::deallocate`] does. Says whether it did: a
    /// block that cannot become a free region, because it is not aligned as
    /// one or does not end within the address space, is not taken, and
    /// nothing changes.
    pub fn deallocate(&self, addr: usize, layout: Layout) -> (taken: bool)
        ensures
            taken <==> is_aligned(addr as int, NODE_ALIGN as int) && addr + node_size(layout)
                <= usize::MAX,
    {
        if addr % NODE_ALIGN != 0 {
            return false;
        }
        let size: usize = match checked_size_align(layout, Node::layout()) {
            Some((size, _)) => size,
            None => return false,
        };
        if addr.checked_add(size).is_none() {
            return false;
        }
        let mut guard = self.lock();
        let alloc = guarded(&mut guard);
        alloc.deallocate(addr, layout);
        true
    }
}

} // verus!
