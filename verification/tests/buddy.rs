use xo_os::mem::buddy::single::Single;
use xo_os::mem::buddy::{BuddyAllocator, BuddyBox};
use xo_os::mem::memory_map::{Entry, EntryType, MemoryMap};

fn buddy(pages: u64) -> BuddyAllocator {
    let start: u64 = 0x40_0000;
    let end: u64 = start + 296 + 4120 * pages;
    let entries = [Entry::new(start, end, EntryType::Available)];
    let mmap = MemoryMap::load(&entries, 0, 0);
    BuddyAllocator::init_default(&mmap)
}

#[test]
fn size_to_level_test() {
    assert_eq!(0, BuddyAllocator::size_to_level(1));
    assert_eq!(0, BuddyAllocator::size_to_level(4000));
    assert_eq!(0, BuddyAllocator::size_to_level(4096));
    assert_eq!(1, BuddyAllocator::size_to_level(4097));
    assert_eq!(1, BuddyAllocator::size_to_level(4096 * 2));
    assert_eq!(2, BuddyAllocator::size_to_level(4096 * 2 + 1));
    assert_eq!(5, BuddyAllocator::size_to_level(4096 * (1 << 5)));
    assert_eq!(6, BuddyAllocator::size_to_level(4096 * (1 << 6) - 1));
}

#[test]
fn size_to_level_largest_request() {
    // the largest size whose page count is computed without overflow
    let pages = (usize::MAX - 4095) / 4096 + 1;
    let expected = (usize::BITS - (pages - 1).leading_zeros()) as usize;
    assert_eq!(expected, BuddyAllocator::size_to_level(usize::MAX - 4095));
}

#[test]
fn allocate_test() {
    let mut allocator = buddy(64);
    let page1 = allocator.allocate(123).unwrap();
    let page2 = allocator.allocate(123).unwrap();
    let page3 = allocator.allocate(4096 * 2).unwrap();
    let page4 = allocator.allocate(4096 * 10).unwrap();

    assert!(page1.get() % 4096 == 0);
    assert!(page2.get() % 4096 == 0);
    assert!(page3.get() % 4096 == 0);
    assert!(page4.get() % 4096 == 0);

    assert!(page1 != page2);
    assert!(page1 != page3);
    assert!(page1 != page4);
    assert!(page2 != page3);
    assert!(page2 != page4);
    assert!(page3 != page4);
}

/// The largest block the allocator can hand out, with its level.
fn max_possible_page(allocator: &mut BuddyAllocator) -> Option<(BuddyBox, usize)> {
    for level in (0..32).rev() {
        if let Some(page) = allocator.allocate_level(level) {
            return Some((page, level));
        }
    }
    None
}

const N: usize = 32;

/// The largest blocks, taken one after another `N` times (`None` where
/// nothing was left).
fn allocate_max(allocator: &mut BuddyAllocator) -> Vec<Option<(BuddyBox, usize)>> {
    (0..N).map(|_| max_possible_page(allocator)).collect()
}

/// Gives the blocks back, first to last.
fn release_all(allocator: &mut BuddyAllocator, pages: &[Option<(BuddyBox, usize)>]) {
    for (page, _) in pages.iter().flatten() {
        allocator.deallocate(page);
    }
}

/// Takes the largest blocks `N` times, then gives them all back; returns
/// their levels (-1 where nothing was left).
fn allocate_max_levels(allocator: &mut BuddyAllocator) -> [isize; N] {
    let pages = allocate_max(allocator);
    let mut levels = [0isize; N];
    for (i, item) in pages.iter().enumerate() {
        levels[i] = match item.as_ref() {
            Some(pair) => pair.1 as isize,
            None => -1,
        };
    }
    release_all(allocator, &pages);
    levels
}

#[test]
fn allocate_big_twice_test() {
    let mut allocator = buddy(100);

    // assert allocate_max correctness
    {
        let foo = allocate_max(&mut allocator);
        let bar = allocate_max(&mut allocator); // must be empty
        for x in bar.iter() {
            assert!(x.is_none());
        }
        release_all(&mut allocator, &bar);
        release_all(&mut allocator, &foo);
    }

    let _page = allocator.allocate_level(0).unwrap();

    // Allocate all, clear, allocate all again.
    // Results of allocations must be identical.
    {
        let levels1 = allocate_max_levels(&mut allocator);
        let levels2 = allocate_max_levels(&mut allocator);
        assert_eq!(levels1, levels2);
    }

    // Allocate all, clear, allocate some memory, allocate all again.
    // Results of allocations must be different.
    {
        let levels1 = allocate_max_levels(&mut allocator);
        let _page2 = allocator.allocate_level(0).unwrap();
        let levels2 = allocate_max_levels(&mut allocator);
        assert_ne!(levels1, levels2);
    }
}

#[test]
fn release_order_does_not_matter() {
    // the same blocks taken from two equal allocators and given back in
    // opposite orders leave the same free blocks behind
    let mut a = buddy(100);
    let mut b = buddy(100);
    let levels = [0usize, 3, 1, 0, 2, 0, 1];
    let mut xs: Vec<BuddyBox> = Vec::new();
    let mut ys: Vec<BuddyBox> = Vec::new();
    for &l in levels.iter() {
        xs.push(a.allocate_level(l).unwrap());
        ys.push(b.allocate_level(l).unwrap());
    }
    for x in xs.iter() {
        a.deallocate(x);
    }
    for y in ys.iter().rev() {
        b.deallocate(y);
    }
    assert_eq!(allocate_max_levels(&mut a), allocate_max_levels(&mut b));
    assert_eq!(allocate_max_levels(&mut a), allocate_max_levels(&mut buddy(100)));
}

#[test]
fn release_restores_the_block() {
    let mut allocator = buddy(64);
    let first = allocator.allocate_level(2).unwrap();
    allocator.deallocate(&first);
    let again = allocator.allocate_level(2).unwrap();
    assert!(first == again);
}

#[test]
fn release_by_address() {
    let mut allocator = buddy(64);
    let raw = allocator.allocate_raw(3 * 4096).unwrap();
    assert_eq!(0, raw.single_num);
    allocator.deallocate_unknown(raw.pointer);
    let again = allocator.allocate_raw(4 * 4096).unwrap();
    assert_eq!(raw.pointer, again.pointer);
}

#[test]
fn no_region_no_block() {
    let mut allocator = BuddyAllocator::uninitialized();
    assert!(allocator.allocate(1).is_none());
    assert!(allocator.allocate_level(0).is_none());
}

#[test]
fn small_entries_give_no_region() {
    let e = Entry::new(0x1000, 0x1000 + 40000, EntryType::Available);
    assert!(Single::new(&e).is_none());
    let e = Entry::new(0x1000, 0x100000, EntryType::Occupied);
    assert!(Single::new(&e).is_none());
    let e = Entry::new(0x1000, 0x100000, EntryType::Available);
    let s = Single::new(&e).unwrap();
    assert!(s.contains_addr(0xffff_8000_0010_0000 - 4096));
    assert!(!s.contains_addr(0x1000));
}

#[test]
fn single_blocks_split_and_merge() {
    // 16 pages
    let e = Entry::new(0x1000, 0x1000 + 69632, EntryType::Available);
    let mut s = Single::new(&e).unwrap();
    let a = s.allocate(0).unwrap();
    let b = s.allocate(0).unwrap();
    assert_eq!(a + 4096, b);
    let c = s.allocate(1).unwrap();
    assert_eq!(a + 2 * 4096, c);
    let d = s.allocate(3).unwrap();
    assert_eq!(a + 8 * 4096, d);
    assert!(s.allocate(3).is_none());
    assert!(s.allocate(4).is_none());
    s.deallocate(a);
    s.deallocate(b);
    s.deallocate(c);
    s.deallocate(d);
    let whole = s.allocate(4).unwrap();
    assert_eq!(a, whole);
}

#[test]
fn memory_map_fits() {
    let good = [
        Entry::new(0x10_0000, 0x20_0000, EntryType::Available),
        Entry::new(0x20_0000, 0x30_0000, EntryType::Available),
    ];
    assert!(BuddyAllocator::fits(&MemoryMap::load(&good, 0, 0)));
    let overlapping = [
        Entry::new(0x10_0000, 0x20_0000, EntryType::Available),
        Entry::new(0x1f_0000, 0x30_0000, EntryType::Available),
    ];
    assert!(!BuddyAllocator::fits(&MemoryMap::load(&overlapping, 0, 0)));
    let too_high = [Entry::new(0x8000_0000_0000, 0x8000_0010_0000, EntryType::Available)];
    assert!(!BuddyAllocator::fits(&MemoryMap::load(&too_high, 0, 0)));
}

#[test]
fn blocks_do_not_overlap() {
    let mut allocator = buddy(100);
    let mut blocks: Vec<(u64, u64)> = Vec::new();
    for &level in [0usize, 3, 1, 0, 2, 4, 0, 1].iter() {
        let b = allocator.allocate_level(level).unwrap();
        blocks.push((b.get(), b.get() + (4096u64 << level)));
    }
    for i in 0..blocks.len() {
        assert_eq!(0, blocks[i].0 % 4096);
        for j in 0..i {
            assert!(blocks[i].1 <= blocks[j].0 || blocks[j].1 <= blocks[i].0);
        }
    }
}

#[test]
fn fresh_region_is_all_free() {
    // 16 pages, all free: sixteen single pages can be taken, then none
    let e = Entry::new(0x1000, 0x1000 + 69632, EntryType::Available);
    let mut s = Single::new(&e).unwrap();
    for _ in 0..16 {
        assert!(s.allocate(0).is_some());
    }
    assert!(s.allocate(0).is_none());
}

#[test]
fn reserved_ranges_high_up_are_left_alone() {
    let e = Entry::new(0xffff_ffff_0000_0000, 0xffff_ffff_ffff_f000, EntryType::Occupied);
    assert!(Single::new(&e).is_none());
    // available, but too small for a region
    let e = Entry::new(0xffff_ffff_ffff_8000, u64::MAX, EntryType::Available);
    assert!(Single::new(&e).is_none());
    let es = [
        Entry::new(0x10_0000, 0x80_0000, EntryType::Available),
        Entry::new(0xfd00_0000_0000, 0x1_0000_0000_0000, EntryType::Occupied),
    ];
    let map = MemoryMap::load(&es, 0, 0);
    assert!(BuddyAllocator::fits(&map));
    let allocator = BuddyAllocator::init_default(&map);
    let mut allocator = allocator;
    assert!(allocator.allocate_level(0).is_some());
}

#[test]
fn blocks_are_never_null() {
    let mut allocator = buddy(16);
    while let Some(b) = allocator.allocate_level(0) {
        assert!(b.get() >= 0xffff_8000_0000_0000);
    }
}
