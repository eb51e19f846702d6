use xo_os::mem::buddy::BuddyAllocator;
use xo_os::mem::memory_map::{Entry, EntryType, MemoryMap};
use xo_os::mem::slab::{SlabAllocator, MAX_FRAME_SIZE, MIN_FRAME_SIZE, PAGE_NODE_BYTES};

fn buddy(pages: u64) -> BuddyAllocator {
    let start: u64 = 0x20_0000;
    let end: u64 = start + 296 + 4120 * pages;
    let entries = [Entry::new(start, end, EntryType::Available)];
    let mmap = MemoryMap::load(&entries, 0, 0);
    BuddyAllocator::init_default(&mmap)
}

#[test]
fn min_frame_at_least_node_size() {
    // a free frame holds a list node: two links
    assert!(MIN_FRAME_SIZE >= 2 * std::mem::size_of::<u64>());
    assert_eq!(2032, MAX_FRAME_SIZE);
    assert_eq!(48, PAGE_NODE_BYTES);
}

#[test]
fn simple() {
    const N: usize = 200;
    const SIZE: usize = 160;

    let mut buddy = buddy(64);
    let mut allocator = SlabAllocator::new(SIZE);
    for _round in 0..2 {
        let mut ptrs = [0u64; N];
        for i in 0..N {
            ptrs[i] = allocator.allocate(&mut buddy).unwrap();
            // allocated objects don't intersect
            for j in 0..i {
                let addr1 = ptrs[j] as i128;
                let addr2 = ptrs[i] as i128;
                assert!((addr1 - addr2).abs() >= SIZE as i128);
            }
        }
        for i in 0..N {
            allocator.deallocate(ptrs[i]);
        }
    }
}

#[test]
fn frames_are_eight_byte_aligned() {
    let mut buddy = buddy(16);
    let mut allocator = SlabAllocator::new(40);
    let mut ptrs = Vec::new();
    for _ in 0..150 {
        let p = allocator.allocate(&mut buddy).unwrap();
        assert_eq!(0, p % 8);
        ptrs.push(p);
    }
    // reused frames too
    for p in ptrs.iter() {
        allocator.deallocate(*p);
    }
    for _ in 0..150 {
        assert_eq!(0, allocator.allocate(&mut buddy).unwrap() % 8);
    }
}

#[test]
fn frames_are_cut_in_order_after_the_page_record() {
    let mut buddy = buddy(16);
    let mut allocator = SlabAllocator::new(1024);
    let a = allocator.allocate(&mut buddy).unwrap();
    let b = allocator.allocate(&mut buddy).unwrap();
    let c = allocator.allocate(&mut buddy).unwrap();
    assert_eq!(48, a % 4096);
    assert_eq!(a + 1024, b);
    assert_eq!(b + 1024, c);
    // (4096 - 48) / 1024 = 3 frames per page: the fourth comes from a new page
    let d = allocator.allocate(&mut buddy).unwrap();
    assert_eq!(48, d % 4096);
    assert_ne!(a / 4096, d / 4096);
}

#[test]
fn freed_frame_is_handed_out_first() {
    let mut buddy = buddy(16);
    let mut allocator = SlabAllocator::new(64);
    let a = allocator.allocate(&mut buddy).unwrap();
    let b = allocator.allocate(&mut buddy).unwrap();
    allocator.deallocate(a);
    assert_eq!(a, allocator.allocate(&mut buddy).unwrap());
    allocator.deallocate(b);
    allocator.deallocate(a);
    assert_eq!(a, allocator.allocate(&mut buddy).unwrap());
    assert_eq!(b, allocator.allocate(&mut buddy).unwrap());
}

#[test]
fn emptied_older_page_is_retired() {
    let mut buddy = buddy(16);
    let mut allocator = SlabAllocator::new(MAX_FRAME_SIZE);
    // one frame per page
    let a = allocator.allocate(&mut buddy).unwrap();
    let b = allocator.allocate(&mut buddy).unwrap();
    assert_ne!(a / 4096, b / 4096);
    // the page of `a` is older and now empty: its frame leaves the stack
    allocator.deallocate(a);
    let c = allocator.allocate(&mut buddy).unwrap();
    assert_ne!(a, c);
    assert_ne!(b, c);
    // the newest page is kept: its frame comes back
    allocator.deallocate(c);
    assert_eq!(c, allocator.allocate(&mut buddy).unwrap());
}

#[test]
fn no_page_left() {
    let mut buddy = BuddyAllocator::uninitialized();
    let mut allocator = SlabAllocator::new(16);
    assert_eq!(None, allocator.allocate(&mut buddy));
}
