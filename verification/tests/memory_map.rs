use xo_os::boot_info::{MultibootInfo, MULTIBOOT_INFO_BYTES};
use xo_os::mem::memory_map::{decode, loads, Entry, EntryType, MemoryMap, MemoryMapPtr};

fn raw_entry(start: u64, len: u64, typ: u32) -> Vec<u8> {
    let mut v = Vec::new();
    v.extend_from_slice(&20u32.to_le_bytes());
    v.extend_from_slice(&start.to_le_bytes());
    v.extend_from_slice(&len.to_le_bytes());
    v.extend_from_slice(&typ.to_le_bytes());
    v
}

#[test]
fn decode_entries() {
    let mut raw = raw_entry(0, 0x9fc00, 1);
    raw.extend(raw_entry(0x100000, 0x7ee0000, 1));
    raw.extend(raw_entry(0xfffc0000, 0x40000, 2));
    let es = decode(&raw).unwrap();
    assert_eq!(3, es.len());
    assert_eq!(0x100000, es[1].start());
    assert_eq!(0x7ee0000, es[1].len());
    assert_eq!(0x100000 + 0x7ee0000, es[1].end());
    assert!(es[1].is_available());
    assert_eq!(EntryType::Occupied, es[2].typ());
    assert_eq!(20, es[0].skip_to_next());
}

#[test]
fn decode_truncated_entry() {
    let mut raw = raw_entry(0, 0x1000, 1);
    raw.truncate(20);
    assert!(decode(&raw).is_none());
    assert_eq!(0, decode(&[]).unwrap().len());
}

#[test]
fn load_splits_the_kernel_entry() {
    let es = [
        Entry::new(0, 0x9fc00, EntryType::Available),
        Entry::new(0x100000, 0x8000000, EntryType::Available),
    ];
    assert!(loads(&es, 0x200000, 0x300000));
    let map = MemoryMap::load(&es, 0x200000, 0x300000);
    let all = map.iter();
    assert_eq!(4, all.len());
    assert_eq!((0x100000, 0x200000, true), (all[1].start(), all[1].end(), all[1].is_available()));
    assert_eq!((0x200000, 0x300000, false), (all[2].start(), all[2].end(), all[2].is_available()));
    assert_eq!((0x300000, 0x8000000, true), (all[3].start(), all[3].end(), all[3].is_available()));
}

#[test]
fn kernel_in_occupied_memory_is_refused() {
    let es = [Entry::new(0x100000, 0x8000000, EntryType::Occupied)];
    assert!(!loads(&es, 0x200000, 0x300000));
}

#[test]
fn too_many_entries_are_refused() {
    let es: Vec<Entry> = (0..32).map(|i| Entry::new(i * 0x1000, i * 0x1000 + 0x800, EntryType::Available)).collect();
    assert!(!loads(&es, 0, 0));
    assert!(loads(&es[..31], 0, 0));
}

fn info(flags: u32, length: u32, addr: u32) -> Vec<u8> {
    let mut raw = vec![0u8; MULTIBOOT_INFO_BYTES];
    raw[0..4].copy_from_slice(&flags.to_le_bytes());
    raw[44..48].copy_from_slice(&length.to_le_bytes());
    raw[48..52].copy_from_slice(&addr.to_le_bytes());
    raw
}

#[test]
fn multiboot_info_flags() {
    assert!(MultibootInfo::load(&info(0, 0, 0)).is_none());
    assert!(MultibootInfo::load(&info(1 << 6 | 1 << 4 | 1 << 5, 0, 0)).is_none());
    let i = MultibootInfo::load(&info(1 << 6 | 1 << 4, 48, 0x9000)).unwrap();
    assert_eq!(1 << 6 | 1 << 4, i.flags());
    assert!(i.mmap_ptr() == MemoryMapPtr { length: 48, addr: 0x9000 });
}

#[test]
fn multiboot_memory_map() {
    let mut region = raw_entry(0, 0x9fc00, 1);
    region.extend(raw_entry(0x100000, 0x7f00000, 1));
    let i = MultibootInfo::load(&info(1 << 6, region.len() as u32, 0x9000)).unwrap();
    let ptr = i.mmap_ptr();
    assert_eq!(2, ptr.iter(&region).unwrap().len());
    let map = i.memory_map(&region, 0x100000 + 0x1000, 0x200000).unwrap();
    assert_eq!(4, map.iter().len());
    let mut bad = region.clone();
    bad[44..48].copy_from_slice(&2u32.to_le_bytes());
    assert!(i.memory_map(&bad, 0x100000 + 0x1000, 0x200000).is_none());
}
