use allocators::align::Layout;
use allocators::block::{AllocError, Block};
use allocators::bump_allocator::{BumpAllocator, LockedBumpAllocator};

const BASE: usize = 0x1000;

fn byte() -> Layout {
    Layout::new(1, 1)
}

#[test]
fn allocates_vec_correctly() {
    let alloc = LockedBumpAllocator::with_capacity(24, BASE).unwrap();
    let mut heap = [0u8; 24];
    let mut blocks = Vec::new();
    for value in [2u8, 3, 4] {
        let block = alloc.allocate(byte()).unwrap();
        heap[block.start - BASE] = value;
        blocks.push(block);
    }
    // three adjacent addresses
    assert_eq!(blocks[1].start, blocks[0].start + 1);
    assert_eq!(blocks[2].start, blocks[1].start + 1);
    let bytes: Vec<u8> = blocks.iter().map(|b| heap[b.start - BASE]).collect();
    assert_eq!(bytes, &[2, 3, 4])
}

#[test]
fn reserves_to_total_capacity() {
    let alloc = LockedBumpAllocator::with_capacity(24, BASE).unwrap();
    alloc.allocate(Layout::new(24, 1)).unwrap();
}

#[test]
fn errs_when_capacity_is_overflown() {
    let alloc = LockedBumpAllocator::with_capacity(24, BASE).unwrap();
    alloc.allocate(Layout::new(25, 1)).unwrap_err();
}

#[test]
fn new_allocator_is_unused() {
    let alloc = BumpAllocator::new(BASE, BASE + 24);
    assert_eq!(alloc.heap_start(), BASE);
    assert_eq!(alloc.heap_end(), BASE + 24);
    assert_eq!(alloc.next_unused(), BASE);
    assert_eq!(alloc.live_count(), 0);
    let mapping = alloc.mapping();
    assert_eq!(mapping.start(), BASE);
    assert_eq!(mapping.end(), BASE + 24);
    assert_eq!(mapping.bytes(), 24);
}

#[test]
fn allocate_aligns_and_advances() {
    let mut alloc = BumpAllocator::new(BASE + 1, BASE + 64);
    assert_eq!(alloc.allocate(byte()), Ok(Block { start: BASE + 1, size: 1 }));
    assert_eq!(alloc.next_unused(), BASE + 2);
    assert_eq!(alloc.allocate(Layout::new(4, 8)), Ok(Block { start: BASE + 8, size: 4 }));
    assert_eq!(alloc.next_unused(), BASE + 12);
    assert_eq!(alloc.allocate(Layout::new(0, 16)), Ok(Block { start: BASE + 16, size: 0 }));
    assert_eq!(alloc.next_unused(), BASE + 16);
    assert_eq!(alloc.live_count(), 3);
}

#[test]
fn failed_request_changes_nothing() {
    let mut alloc = BumpAllocator::new(BASE, BASE + 24);
    alloc.allocate(Layout::new(10, 1)).unwrap();
    assert_eq!(alloc.allocate(Layout::new(15, 1)), Err(AllocError));
    assert_eq!(alloc.next_unused(), BASE + 10);
    assert_eq!(alloc.live_count(), 1);
    // the padding in front of the block counts too
    assert_eq!(alloc.allocate(Layout::new(9, 16)), Err(AllocError));
    assert_eq!(alloc.allocate(Layout::new(8, 16)), Ok(Block { start: BASE + 16, size: 8 }));
}

#[test]
fn request_that_overflows_the_address_space_fails() {
    let mut alloc = BumpAllocator::new(usize::MAX - 3, usize::MAX);
    assert_eq!(alloc.allocate(Layout::new(1, 8)), Err(AllocError));
    assert_eq!(alloc.allocate(Layout::new(usize::MAX, 1)), Err(AllocError));
    assert_eq!(alloc.allocate(Layout::new(3, 1)), Ok(Block { start: usize::MAX - 3, size: 3 }));
}

#[test]
fn bump_exact_fit_is_served_and_one_byte_more_is_not() {
    let mut alloc = BumpAllocator::new(BASE, BASE + 24);
    alloc.allocate(Layout::new(7, 1)).unwrap();
    let mut other = BumpAllocator::new(BASE, BASE + 24);
    other.allocate(Layout::new(7, 1)).unwrap();
    assert_eq!(alloc.allocate(Layout::new(18, 1)), Err(AllocError));
    assert_eq!(other.allocate(Layout::new(17, 1)), Ok(Block { start: BASE + 7, size: 17 }));
    assert_eq!(other.next_unused(), other.heap_end());
}

#[test]
fn blocks_do_not_overlap_until_all_are_back() {
    let mut alloc = BumpAllocator::new(BASE, BASE + 64);
    let layouts = [Layout::new(3, 1), Layout::new(8, 8), Layout::new(1, 2), Layout::new(16, 16)];
    let mut blocks: Vec<Block> = Vec::new();
    for layout in layouts {
        blocks.push(alloc.allocate(layout).unwrap());
    }
    // giving back some of them frees nothing
    alloc.deallocate(blocks[0].start, layouts[0]);
    alloc.deallocate(blocks[1].start, layouts[1]);
    blocks.push(alloc.allocate(Layout::new(5, 1)).unwrap());
    for i in 0..blocks.len() {
        assert!(BASE <= blocks[i].start && blocks[i].start + blocks[i].size <= BASE + 64);
        for j in 0..i {
            let (a, b) = (blocks[j], blocks[i]);
            assert!(a.start + a.size <= b.start || b.start + b.size <= a.start);
        }
    }
}

#[test]
fn heap_starts_over_when_every_block_is_back() {
    let mut alloc = BumpAllocator::new(BASE, BASE + 24);
    let first = alloc.allocate(Layout::new(8, 8)).unwrap();
    let second = alloc.allocate(Layout::new(8, 8)).unwrap();
    assert_eq!(first.start, BASE);
    assert_eq!(second.start, BASE + 8);
    alloc.deallocate(first.start, Layout::new(8, 8));
    assert_eq!(alloc.live_count(), 1);
    assert_eq!(alloc.next_unused(), BASE + 16);
    alloc.deallocate(second.start, Layout::new(8, 8));
    assert_eq!(alloc.live_count(), 0);
    assert_eq!(alloc.next_unused(), BASE);
    assert_eq!(alloc.allocate(Layout::new(24, 8)), Ok(Block { start: BASE, size: 24 }));
}

#[test]
fn bump_with_capacity_fails_without_memory() {
    // no capacity asked for
    assert!(BumpAllocator::with_capacity(0, BASE).is_err());
    assert!(LockedBumpAllocator::with_capacity(0, BASE).is_err());
    // the memory source had nothing to give
    assert!(BumpAllocator::with_capacity(24, 0).is_err());
    assert!(LockedBumpAllocator::with_capacity(24, 0).is_err());
    assert!(BumpAllocator::with_capacity(0, 0).is_err());
    let alloc = BumpAllocator::with_capacity(24, BASE).unwrap();
    assert_eq!(alloc.heap_start(), BASE);
    assert_eq!(alloc.heap_end(), BASE + 24);
    assert_eq!(alloc.next_unused(), BASE);
    assert_eq!(alloc.live_count(), 0);
}

#[test]
fn locked_bump_allocator_keeps_its_state_between_calls() {
    let alloc = LockedBumpAllocator::with_capacity(24, BASE).unwrap();
    let layout = Layout::new(8, 8);
    // nothing is in use yet
    assert!(!alloc.deallocate(BASE, layout));
    let first = alloc.allocate(layout).unwrap();
    let second = alloc.allocate(layout).unwrap();
    assert_eq!(first, Block { start: BASE, size: 8 });
    assert_eq!(second, Block { start: BASE + 8, size: 8 });
    assert_eq!(alloc.lock().live_count(), 2);
    assert!(alloc.deallocate(first.start, layout));
    assert!(alloc.deallocate(second.start, layout));
    assert!(!alloc.deallocate(second.start, layout));
    assert_eq!(alloc.lock().next_unused(), BASE);
    assert_eq!(alloc.allocate(layout), Ok(Block { start: BASE, size: 8 }));
}

#[test]
fn try_deallocate_takes_only_what_is_in_use() {
    let mut alloc = BumpAllocator::new(BASE, BASE + 24);
    let layout = Layout::new(8, 8);
    assert!(!alloc.try_deallocate(BASE, layout));
    assert_eq!(alloc.live_count(), 0);
    assert_eq!(alloc.next_unused(), BASE);
    let first = alloc.allocate(layout).unwrap();
    let second = alloc.allocate(layout).unwrap();
    assert!(alloc.try_deallocate(first.start, layout));
    assert_eq!(alloc.live_count(), 1);
    assert_eq!(alloc.next_unused(), BASE + 16);
    assert!(alloc.try_deallocate(second.start, layout));
    assert_eq!(alloc.live_count(), 0);
    assert_eq!(alloc.next_unused(), BASE);
    assert!(!alloc.try_deallocate(second.start, layout));
    assert_eq!(alloc.next_unused(), BASE);
}

#[test]
fn try_allocate_serves_as_allocate_does() {
    let mut alloc = BumpAllocator::new(BASE, BASE + 24);
    assert_eq!(alloc.try_allocate(Layout::new(4, 8)), Ok(Block { start: BASE, size: 4 }));
    assert_eq!(alloc.try_allocate(Layout::new(16, 8)), Ok(Block { start: BASE + 8, size: 16 }));
    assert_eq!(alloc.live_count(), 2);
    assert_eq!(alloc.try_allocate(Layout::new(1, 1)), Err(AllocError));
    assert_eq!(alloc.next_unused(), BASE + 24);
    assert_eq!(alloc.live_count(), 2);
    assert_eq!(alloc.try_allocate(Layout::new(0, 1)), Ok(Block { start: BASE + 24, size: 0 }));
}
