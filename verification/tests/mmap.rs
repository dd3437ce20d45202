use allocators::mmap::AnonymousMapping;
use allocators::mutex::Mutexed;

#[test]
fn mapping_counts_its_bytes() {
    let mapping = AnonymousMapping::new(0x1000, 0x1018);
    assert_eq!(mapping.start(), 0x1000);
    assert_eq!(mapping.end(), 0x1018);
    assert_eq!(mapping.bytes(), 24);
    let empty = AnonymousMapping::new(7, 7);
    assert_eq!(empty.bytes(), 0);
    let whole = AnonymousMapping::new(0, usize::MAX);
    assert_eq!(whole.bytes(), usize::MAX);
}

#[test]
fn mutexed_gives_access_to_what_it_holds() {
    let shared = Mutexed::new(41u32);
    assert_eq!(*shared.lock(), 41);
    *shared.lock() += 1;
    assert_eq!(*shared.lock(), 42);
    {
        let mut guard = shared.lock();
        *guard = 7;
    }
    assert_eq!(*shared.lock(), 7);
}
