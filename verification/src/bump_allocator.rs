//! An allocator that hands out its arena front to back, and takes it back
//! whole.

use crate::align::{align_up, checked_align_to, is_aligned, lemma_align_up, lemma_pow2_positive, Layout};
use crate::block::{AllocError, Block};
use crate::mmap::AnonymousMapping;
use crate::mutex::{guarded, Mutexed};
use vstd::prelude::*;

verus! {

/// Single-block bump heap allocator
pub struct BumpAllocator {
    /// The lower bound (or start) of the heap memory region.
    heap_start: usize,
    /// The upper bound (or end) of the heap memory region.
    heap_end: usize,
    /// The next unused memory position in the heap.
    next: usize,
    /// How many of the blocks granted were not given back
    allocations: usize,
    /// The blocks granted since the heap was last empty, oldest first.
    granted: Ghost<Seq<Block>>,
}

impl BumpAllocator {
    /// The unused memory lies within the heap; a heap with no block in use
    /// is unused as a whole; and the blocks granted since it last was lie
    /// one behind the other in the used part.
    #[verifier::type_invariant]
    pub open spec fn wf(&self) -> bool {
        let granted = self.granted();
        &&& self.heap_start() <= self.next_unused() <= self.heap_end()
        &&& self.live_count() == 0 ==> self.next_unused() == self.heap_start() && granted.len() == 0
        &&& forall|i: int|
            0 <= i < granted.len() ==> self.heap_start() <= (#[trigger] granted[i]).start
                && granted[i].end() <= self.next_unused()
        &&& forall|i: int, j: int|
            0 <= i < j < granted.len() ==> (#[trigger] granted[i]).end() <= (
            #[trigger] granted[j]).start
    }

    pub closed spec fn spec_heap_start(&self) -> usize {
        self.heap_start
    }

    pub closed spec fn spec_heap_end(&self) -> usize {
        self.heap_end
    }

    pub closed spec fn spec_next_unused(&self) -> usize {
        self.next
    }

    pub closed spec fn spec_live_count(&self) -> usize {
        self.allocations
    }

    /// The blocks granted since the heap was last empty, oldest first.
    pub closed spec fn granted(&self) -> Seq<Block> {
        self.granted@
    }

    /// The block that a request of layout `layout` would get.
    pub open spec fn next_block(&self, layout: Layout) -> Block {
        Block {
            start: align_up(self.next_unused() as int, layout.align() as int) as usize,
            size: layout.size(),
        }
    }

    /// Whether a request of layout `layout` can be served: the block for it
    /// ends within the heap.
    pub open spec fn fits(&self, layout: Layout) -> bool {
        align_up(self.next_unused() as int, layout.align() as int) + layout.size()
            <= self.heap_end()
    }

    /// Creates a [`BumpAllocator`] with the given heap region
    pub fn new(start: usize, end: usize) -> (alloc: Self)
        requires
            start <= end,
        ensures
            alloc.wf(),
            alloc.heap_start() == start,
            alloc.heap_end() == end,
            alloc.next_unused() == start,
            alloc.live_count() == 0,
            alloc.granted() == Seq::<Block>::empty(),
    {
        Self { heap_start: start, heap_end: end, next: start, allocations: 0, granted: Ghost(Seq::empty()) }
    }

    /// An allocator over the `cap` bytes that a memory source mapped at
    /// `base`, where a `base` of 0 says that the source had none to give.
    /// Fails where there is no memory to serve from: `cap` is 0 or `base`
    /// is 0.
    pub fn with_capacity(cap: usize, base: usize) -> (made: Result<Self, AllocError>)
        requires
            cap != 0 && base != 0 ==> base + cap <= usize::MAX,
        ensures
            match made {
                Ok(alloc) => {
                    &&& cap != 0 && base != 0
                    &&& alloc.wf()
                    &&& alloc.heap_start() == base
                    &&& alloc.heap_end() == base + cap
                    &&& alloc.next_unused() == base
                    &&& alloc.live_count() == 0
                    &&& alloc.granted() == Seq::<Block>::empty()
                },
                Err(_) => cap == 0 || base == 0,
            },
    {
        if cap == 0 || base == 0 {
            return Err(AllocError);
        }
        Ok(Self::new(base, base + cap))
    }

    /// Serves a request of layout `layout` from the unused memory: the
    /// block starts at the first address of it that is aligned. The count
    /// of blocks in use must have room to go up.
    pub fn allocate(&mut self, layout: Layout) -> (granted: Result<Block, AllocError>)
        requires
            old(self).live_count() < usize::MAX,
        ensures
            final(self).wf(),
            final(self).heap_start() == old(self).heap_start(),
            final(self).heap_end() == old(self).heap_end(),
            match granted {
                Ok(block) => {
                    &&& old(self).fits(layout)
                    &&& block == old(self).next_block(layout)
                    &&& is_aligned(block.start as int, layout.align() as int)
                    &&& old(self).next_unused() <= block.start
                    &&& block.end() <= old(self).heap_end()
                    &&& final(self).next_unused() == block.end()
                    &&& final(self).live_count() == old(self).live_count() + 1
                    &&& final(self).granted() == old(self).granted().push(block)
                    &&& forall|i: int|
                        0 <= i < old(self).granted().len() ==> (#[trigger] old(self).granted()[i]).disjoint(
                            block,
                        )
                },
                Err(_) => !old(self).fits(layout) && *final(self) == *old(self),
            },
    {
        proof {
            use_type_invariant(&*self);
            use_type_invariant(&layout);
            lemma_pow2_positive(layout.align() as int);
            lemma_align_up(self.next_unused() as int, layout.align() as int);
        }
        // The start of the current allocation
        let start: usize = match checked_align_to(self.next, layout.align()) {
            Some(start) => start,
            None => return Err(AllocError),
        };
        // The end of the current allocation
        let end: usize = match start.checked_add(layout.size()) {
            Some(end) => end,
            None => return Err(AllocError),
        };
        // Check if we've run out of memory
        if end > self.heap_end {
            return Err(AllocError);
        }
        let block = Block { start, size: layout.size() };
        *self = BumpAllocator {
            heap_start: self.heap_start,
            heap_end: self.heap_end,
            next: end,
            allocations: self.allocations + 1,
            granted: Ghost(self.granted@.push(block)),
        };
        Ok(block)
    }

    /// Serves a request of layout `layout` as [`Self::allocate`] does,
    /// where the count of blocks in use has room to go up. Where it has
    /// none, the request fails and nothing changes.
    pub fn try_allocate(&mut self, layout: Layout) -> (granted: Result<Block, AllocError>)
        ensures
            final(self).wf(),
            final(self).heap_start() == old(self).heap_start(),
            final(self).heap_end() == old(self).heap_end(),
            match granted {
                Ok(block) => {
                    &&& old(self).fits(layout)
                    &&& old(self).live_count() < usize::MAX
                    &&& block == old(self).next_block(layout)
                    &&& is_aligned(block.start as int, layout.align() as int)
                    &&& old(self).next_unused() <= block.start
                    &&& block.end() <= old(self).heap_end()
                    &&& final(self).next_unused() == block.end()
                    &&& final(self).live_count() == old(self).live_count() + 1
                    &&& final(self).granted() == old(self).granted().push(block)
                    &&& forall|i: int|
                        0 <= i < old(self).granted().len() ==> (#[trigger] old(self).granted()[i]).disjoint(
                            block,
                        )
                },
                Err(_) => {
                    &&& !old(self).fits(layout) || old(self).live_count() == usize::MAX
                    &&& *final(self) == *old(self)
                },
            },
    {
        proof {
            use_type_invariant(&*self);
        }
        if self.allocations == usize::MAX {
            return Err(AllocError);
        }
        self.allocate(layout)
    }

    /// Takes a block back. The memory is unused again once every block has
    /// come back, not before.
    pub fn deallocate(&mut self, addr: usize, layout: Layout)
        requires
            old(self).live_count() > 0,
        ensures
            final(self).wf(),
            final(self).heap_start() == old(self).heap_start(),
            final(self).heap_end() == old(self).heap_end(),
            final(self).live_count() == old(self).live_count() - 1,
            final(self).next_unused() == if old(self).live_count() == 1 {
                old(self).heap_start()
            } else {
                old(self).next_unused()
            },
            final(self).granted() == if old(self).live_count() == 1 {
                Seq::<Block>::empty()
            } else {
                old(self).granted()
            },
    {
        proof {
            use_type_invariant(&*self);
        }
        if self.allocations == 1 {
            *self = BumpAllocator {
                heap_start: self.heap_start,
                heap_end: self.heap_end,
                next: self.heap_start,
                allocations: 0,
                granted: Ghost(Seq::empty()),
            };
        } else {
            assert(self.granted() == old(self).granted());
            self.allocations = self.allocations - 1;
        }
    }

    /// Takes a block back if one is in use, as [`Self::deallocate`] does,
    /// and says whether one was. Where none was, nothing changes.
    pub fn try_deallocate(&mut self, addr: usize, layout: Layout) -> (taken: bool)
        ensures
            final(self).wf(),
            taken <==> old(self).live_count() > 0,
            !taken ==> *final(self) == *old(self),
            taken ==> {
                &&& final(self).heap_start() == old(self).heap_start()
                &&& final(self).heap_end() == old(self).heap_end()
                &&& final(self).live_count() == old(self).live_count() - 1
                &&& final(self).next_unused() == if old(self).live_count() == 1 {
                    old(self).heap_start()
                } else {
                    old(self).next_unused()
                }
                &&& final(self).granted() == if old(self).live_count() == 1 {
                    Seq::<Block>::empty()
                } else {
                    old(self).granted()
                }
            },
    {
        proof {
            use_type_invariant(&*self);
        }
        if self.allocations == 0 {
            return false;
        }
        self.deallocate(addr, layout);
        true
    }

    /// The first address of the heap.
    #[verifier::when_used_as_spec(spec_heap_start)]
    pub fn heap_start(&self) -> (addr: usize)
        ensures
            addr == self.heap_start(),
    {
        self.heap_start
    }

    /// The address just past the heap.
    #[verifier::when_used_as_spec(spec_heap_end)]
    pub fn heap_end(&self) -> (addr: usize)
        ensures
            addr == self.heap_end(),
    {
        self.heap_end
    }

    /// The first address of the unused memory.
    #[verifier::when_used_as_spec(spec_next_unused)]
    pub fn next_unused(&self) -> (addr: usize)
        ensures
            addr == self.next_unused(),
    {
        self.next
    }

    /// How many of the blocks granted were not given back.
    #[verifier::when_used_as_spec(spec_live_count)]
    pub fn live_count(&self) -> (count: usize)
        ensures
            count == self.live_count(),
    {
        self.allocations
    }

    /// The memory that the heap covers.
    pub fn mapping(&self) -> (mapping: AnonymousMapping)
        ensures
            mapping.start() == self.heap_start(),
            mapping.end() == self.heap_end(),
    {
        proof {
            use_type_invariant(self);
        }
        AnonymousMapping::new(self.heap_start, self.heap_end)
    }
}

/// The blocks granted since the heap was last empty lie within the heap,
/// and no two of them overlap.
pub proof fn lemma_granted_blocks_disjoint(alloc: BumpAllocator, i: int, j: int)
    requires
        alloc.wf(),
        0 <= i < alloc.granted().len(),
        0 <= j < alloc.granted().len(),
        i != j,
    ensures
        alloc.granted()[i].disjoint(alloc.granted()[j]),
        alloc.heap_start() <= alloc.granted()[i].start,
        alloc.granted()[i].end() <= alloc.heap_end(),
{
    if i < j {
        assert(alloc.granted()[i].end() <= alloc.granted()[j].start);
    } else {
        assert(alloc.granted()[j].end() <= alloc.granted()[i].start);
    }
}

/// Once every block has come back, the next block granted starts at the
/// start of the heap again, where that address is aligned as the request
/// asks.
pub proof fn lemma_drained_heap_starts_over(alloc: BumpAllocator, layout: Layout)
    requires
        alloc.wf(),
        layout.wf(),
        alloc.live_count() == 0,
        is_aligned(alloc.heap_start() as int, layout.align() as int),
    ensures
        alloc.next_block(layout).start == alloc.heap_start(),
        alloc.fits(layout) <==> layout.size() <= alloc.heap_end() - alloc.heap_start(),
{
}

/// A request for exactly the unused memory is served, and one for a byte
/// more is not, where the unused memory starts at an address aligned as the
/// requests ask.
pub proof fn lemma_exact_fit(alloc: BumpAllocator, exact: Layout, more: Layout)
    requires
        alloc.wf(),
        exact.wf(),
        more.wf(),
        is_aligned(alloc.next_unused() as int, exact.align() as int),
        is_aligned(alloc.next_unused() as int, more.align() as int),
        exact.size() == alloc.heap_end() - alloc.next_unused(),
        more.size() == exact.size() + 1,
    ensures
        alloc.fits(exact),
        alloc.next_block(exact) == (Block { start: alloc.next_unused(), size: exact.size() }),
        !alloc.fits(more),
{
}

/// A single-block bump heap allocator protected by a spinlock mutex.
pub type LockedBumpAllocator = Mutexed<BumpAllocator>;

impl Mutexed<BumpAllocator> {
    /// Creates a [`LockedBumpAllocator`] over the `cap` bytes that a memory
    /// source mapped at `base`, where a `base` of 0 says that the source
    /// had none to give.
    pub fn with_capacity(cap: usize, base: usize) -> (made: Result<Self, AllocError>)
        requires
            cap != 0 && base != 0 ==> base + cap <= usize::MAX,
        ensures
            made is Ok <==> cap != 0 && base != 0,
    {
        match BumpAllocator::with_capacity(cap, base) {
            Ok(alloc) => Ok(Mutexed::new(alloc)),
            Err(err) => Err(err),
        }
    }

    /// Serves a request of layout `layout` from the allocator behind the
    /// lock, as [`BumpAllocator::try_allocate`] does, in whatever state the
    /// allocator is found.
    pub fn allocate(&self, layout: Layout) -> (granted: Result<Block, AllocError>)
        ensures
            granted matches Ok(block) ==> {
                &&& block.size == layout.size()
                &&& is_aligned(block.start as int, layout.align() as int)
                &&& block.end() <= usize::MAX
            },
    {
        let mut guard = self.lock();
        let alloc = guarded(&mut guard);
        alloc.try_allocate(layout)
    }

    /// Takes a block back into the allocator behind the lock, as
    /// [`BumpAllocator::try_deallocate`] does, in whatever state the
    /// allocator is found. Says whether a block was in use: where none
    /// was, nothing changes.
    pub fn deallocate(&self, addr: usize, layout: Layout) -> (taken: bool) {
        let mut guard = self.lock();
        let alloc = guarded(&mut guard);
        alloc.try_deallocate(addr, layout)
    }
}

} // verus!
