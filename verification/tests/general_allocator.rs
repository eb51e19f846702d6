use xo_os::mem::buddy::BuddyAllocator;
use xo_os::mem::general_allocator::{get_slub_num, GeneralAllocator, SLAB_CNT};
use xo_os::mem::memory_map::{Entry, EntryType, MemoryMap};
use xo_os::mem::slab::{SlabAllocator, MAX_FRAME_SIZE};

/// A buddy allocator over one region of about 256 pages.
fn buddy() -> BuddyAllocator {
    let start: u64 = 0x10_0000;
    let end: u64 = start + 296 + 4120 * 257;
    let entries = [Entry::new(start, end, EntryType::Available)];
    let mmap = MemoryMap::load(&entries, 0, 0);
    BuddyAllocator::init_default(&mmap)
}

#[test]
fn get_slub_num_test() {
    assert!(get_slub_num(1) == 0);
    assert!(get_slub_num(2) == 0);
    assert!(get_slub_num(8) == 0);
    assert!(get_slub_num(15) == 0);
    assert!(get_slub_num(16) == 0);
    assert!(get_slub_num(17) == 1);
    assert!(get_slub_num(32) == 1);
    assert!(get_slub_num(33) == 2);
    assert!(get_slub_num(95) == 3);
    assert!(get_slub_num(127) == 3);
    assert!(get_slub_num(128) == 3);
    assert!(get_slub_num(129) == 4);
    assert!(get_slub_num(256) == 4);
}

#[test]
fn get_slub_num_largest_classes() {
    assert_eq!(0, get_slub_num(0));
    assert_eq!(6, get_slub_num(1024));
    assert_eq!(7, get_slub_num(1025));
    assert_eq!(SLAB_CNT - 1, get_slub_num(MAX_FRAME_SIZE));
}

#[test]
fn check_slab_sizes() {
    let sizes = [16, 32, 64, 128, 256, 512, 1024, MAX_FRAME_SIZE];
    for size in sizes.iter() {
        assert!(SlabAllocator::check_size(*size));
        SlabAllocator::new_unchecked(*size).check_correctness();
    }
}

#[test]
fn frame_sizes_out_of_limits() {
    assert!(!SlabAllocator::check_size(8));
    assert!(!SlabAllocator::check_size(20));
    assert!(!SlabAllocator::check_size(2048));
    assert!(SlabAllocator::check_size(2032));
}

#[test]
fn allocate_simple() {
    const CNT: usize = 16;
    let sizes: [usize; CNT] = [
        1, 2, 4, 8, 16, 24, 32, 72, 160, 256, 1800, MAX_FRAME_SIZE, 2048, 4000, 4096, 120 * 1024,
    ];
    let mut heap = GeneralAllocator::new(buddy());
    for _round in 0..2 {
        let mut ptrs = [0u64; CNT];
        for (size, ptr) in sizes.iter().zip(ptrs.iter_mut()) {
            *ptr = heap.allocate(*size, 8).expect("Failed to allocate memory");
        }
        for i in 0..CNT {
            for j in 0..i {
                assert_ne!(ptrs[i], ptrs[j]);
            }
        }
        for (size, ptr) in sizes.iter().zip(ptrs.iter()) {
            heap.deallocate(*ptr, *size);
        }
    }
}

#[test]
fn small_requests_share_a_page_large_ones_are_page_aligned() {
    let mut heap = GeneralAllocator::new(buddy());
    let a = heap.allocate(24, 8).unwrap();
    let b = heap.allocate(30, 4).unwrap();
    assert_eq!(a / 4096, b / 4096);
    assert_eq!(32, a.abs_diff(b));
    let big = heap.allocate(5000, 1).unwrap();
    assert_eq!(0, big % 4096);
    heap.deallocate(b, 30);
    let c = heap.allocate(17, 8).unwrap();
    assert_eq!(b, c);
    heap.deallocate(big, 5000);
    let big2 = heap.allocate(8192, 8).unwrap();
    assert_eq!(big, big2);
}
