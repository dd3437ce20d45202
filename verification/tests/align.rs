use allocators::align::{align_to, checked_align_to, checked_size_align, is_power_of_two, size_align, Layout};

#[test]
fn test_align_to() {
    assert_eq!(align_to(2, 8), 8);
    assert_eq!(align_to(7, 8), 8);
    assert_eq!(align_to(8, 8), 8);
    assert_eq!(align_to(11, 8), 16);
    assert_eq!(align_to(16, 8), 16);
    assert_eq!(align_to(255, 64), 256);
    assert_eq!(align_to(257, 64), 320);
}

#[test]
fn align_to_stays_within_one_alignment() {
    for align in [1usize, 2, 4, 8, 16, 4096] {
        for addr in 0usize..200 {
            let aligned = align_to(addr, align);
            assert!(addr <= aligned && aligned < addr + align);
            assert_eq!(aligned % align, 0);
        }
    }
}

#[test]
fn checked_align_to_finds_overflow() {
    assert_eq!(checked_align_to(usize::MAX, 1), Some(usize::MAX));
    assert_eq!(checked_align_to(usize::MAX, 2), None);
    assert_eq!(checked_align_to(usize::MAX - 7, 8), Some(usize::MAX - 7));
    assert_eq!(checked_align_to(usize::MAX - 6, 8), None);
    assert_eq!(checked_align_to(0, 8), Some(0));
    assert_eq!(checked_align_to(9, 8), Some(16));
}

#[test]
fn powers_of_two_are_recognised() {
    assert!(!is_power_of_two(0));
    assert!(is_power_of_two(1));
    assert!(is_power_of_two(2));
    assert!(!is_power_of_two(3));
    assert!(is_power_of_two(64));
    assert!(!is_power_of_two(96));
    assert!(is_power_of_two(1 << (usize::BITS - 1)));
    assert!(!is_power_of_two(usize::MAX));
}

#[test]
fn layout_needs_a_power_of_two() {
    assert!(Layout::from_size_align(10, 0).is_none());
    assert!(Layout::from_size_align(10, 3).is_none());
    let layout = Layout::from_size_align(10, 4).unwrap();
    assert_eq!(layout.size(), 10);
    assert_eq!(layout.align(), 4);
    let layout = Layout::new(0, 1);
    assert_eq!(layout.size(), 0);
    assert_eq!(layout.align(), 1);
}

#[test]
fn size_align_makes_room_for_the_other_layout() {
    let meta = Layout::new(16, 8);
    // a small request grows to the other layout's size and alignment
    assert_eq!(size_align(Layout::new(1, 1), meta), (16, 8));
    assert_eq!(size_align(Layout::new(0, 1), meta), (16, 8));
    assert_eq!(size_align(Layout::new(16, 8), meta), (16, 8));
    // a larger one is rounded up to the larger alignment
    assert_eq!(size_align(Layout::new(17, 1), meta), (24, 8));
    assert_eq!(size_align(Layout::new(24, 4), meta), (24, 8));
    assert_eq!(size_align(Layout::new(25, 1), meta), (32, 8));
    assert_eq!(size_align(Layout::new(64, 1), meta), (64, 8));
    // the request's alignment wins where it is the larger
    assert_eq!(size_align(Layout::new(1, 32), meta), (32, 32));
    assert_eq!(size_align(Layout::new(33, 32), meta), (64, 32));
    assert_eq!(size_align(Layout::new(0, 32), meta), (32, 32));
    // the other layout's size is rounded up as well
    assert_eq!(size_align(Layout::new(16, 16), Layout::new(24, 8)), (32, 16));
    assert_eq!(size_align(Layout::new(0, 1), Layout::new(3, 2)), (4, 2));
    for (size, align) in [(0usize, 1usize), (1, 1), (15, 4), (16, 64), (100, 32), (4096, 8)] {
        let (adjusted, larger) = size_align(Layout::new(size, align), meta);
        assert_eq!(adjusted % larger, 0);
        assert!(adjusted >= size && adjusted >= meta.size());
        assert!(larger >= align && larger >= meta.align());
    }
}

#[test]
fn checked_size_align_finds_overflow() {
    let meta = Layout::new(16, 8);
    assert_eq!(checked_size_align(Layout::new(1, 1), meta), Some((16, 8)));
    assert_eq!(checked_size_align(Layout::new(usize::MAX, 1), meta), None);
    assert_eq!(
        checked_size_align(Layout::new(usize::MAX - 7, 1), meta),
        Some((usize::MAX - 7, 8))
    );
    assert_eq!(checked_size_align(Layout::new(usize::MAX, 1), Layout::new(0, 1)), Some((usize::MAX, 1)));
    assert_eq!(checked_size_align(Layout::new(0, 32), meta), Some((32, 32)));
    assert_eq!(checked_size_align(Layout::new(0, 1), Layout::new(usize::MAX, 2)), None);
}
