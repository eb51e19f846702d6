use xo_os::interrupts::idt::{new_table, setup_offsets, IdtItem, IdtPtr, InterruptType, IDT_SIZE};
use xo_os::interrupts::pic::{end_of_interrupt_targets, line_of, pic_1, pic_2, unmasked, Pic};
use xo_os::ioports::IOPort;
use xo_os::mem::get_mut_ptr;
use xo_os::mem::paging::{fill_default, Entry, PagingTable, GB, PAGE_FLAGS, TABLE_FLAGS, TABLE_SIZE};

#[test]
fn paging_entry_bits() {
    let mut e = Entry::new_empty();
    assert_eq!(0, e.bits());
    e.set_page_phys(0x4000_0000);
    assert_eq!(0x4000_0000 | 135, e.bits());
    e.remove(128);
    assert_eq!(0x4000_0000 | 7, e.bits());
    e.insert(0x8000_0000_0000_0000);
    assert_eq!(0x8000_0000_4000_0007, e.bits());
    e.set_next_level_phys(0x3000);
    assert_eq!(0x3007, e.bits());
}

#[test]
fn default_mapping() {
    let mut pml4 = PagingTable::new_empty();
    let mut pml3 = PagingTable::new_empty();
    fill_default(&mut pml4, &mut pml3, 0x5000);
    assert_eq!(0x5000 | TABLE_FLAGS, pml4.index(0).bits());
    assert_eq!(0x5000 | TABLE_FLAGS, pml4.index(TABLE_SIZE / 2).bits());
    assert_eq!(0x5000 | TABLE_FLAGS, pml4.index(TABLE_SIZE - 1).bits());
    assert_eq!(0, pml4.index(1).bits());
    assert_eq!(3 * GB | PAGE_FLAGS, pml3.index(3).bits());
    assert_eq!(PAGE_FLAGS, pml3.index(TABLE_SIZE - 2).bits());
    assert_eq!(GB | PAGE_FLAGS, pml3.index(TABLE_SIZE - 1).bits());
}

#[test]
fn physical_memory_is_mapped_high() {
    assert_eq!(0xffff_8000_0000_1000, get_mut_ptr(0x1000));
}

#[test]
fn idt_item_offset() {
    let mut item = IdtItem::new();
    assert_eq!(0, item.get_offset());
    item.set_offset(0xdead_beef_1234_5678);
    assert_eq!(0xdead_beef_1234_5678, item.get_offset());
    assert_eq!(0x8f, InterruptType::ValidTrapGate.code());
    assert_eq!(0x8e, InterruptType::ValidInterruptGate.code());
}

#[test]
fn idt_table_and_pointer() {
    let mut table = new_table();
    assert_eq!(IDT_SIZE, table.len());
    setup_offsets(&mut table, 0x10_0000, 0x10_0010);
    assert_eq!(0x10_0000, table[0].get_offset());
    assert_eq!(0x10_0000 + 5 * 0x10, table[5].get_offset());
    let ptr = IdtPtr::new(&table, 0x1234);
    assert_eq!((IDT_SIZE * 16 - 1) as u16, ptr.limit());
    assert_eq!(0x1234, ptr.base());
}

#[test]
fn pic_lines() {
    let p1 = pic_1();
    let p2 = pic_2();
    assert!(p1.has_interrupt(32));
    assert!(p1.has_interrupt(39));
    assert!(!p1.has_interrupt(40));
    assert!(p2.has_interrupt(40));
    assert!(!p2.has_interrupt(48));
    assert_eq!((true, false), end_of_interrupt_targets(&p1, &p2, 33));
    assert_eq!((true, true), end_of_interrupt_targets(&p1, &p2, 41));
    assert_eq!((false, false), end_of_interrupt_targets(&p1, &p2, 3));
    assert_eq!((0, 3), line_of(3));
    assert_eq!((1, 2), line_of(10));
    assert_eq!(0b1111_1011, unmasked(0xff, 2));
    assert_eq!(0x20, p1.command().num());
    assert_eq!(0xA1, p2.data().num());
    let p = Pic::new(0x30, 0x31, 100);
    assert_eq!(100, p.idt_start());
    let port: IOPort<u8, u8> = IOPort::new(123);
    assert_eq!(123, port.num());
}

#[test]
fn descriptors_in_processor_format() {
    let mut item = IdtItem::new();
    item.set_offset(0x1122_3344_5566_7788);
    assert_eq!(
        vec![0x88, 0x77, 0x08, 0x00, 0x00, 0x8f, 0x66, 0x55, 0x44, 0x33, 0x22, 0x11, 0, 0, 0, 0],
        item.to_bytes()
    );
    let table = new_table();
    let ptr = IdtPtr::new(&table, 0x0102_0304_0506_0708);
    assert_eq!(vec![0xff, 0x03, 0x08, 0x07, 0x06, 0x05, 0x04, 0x03, 0x02, 0x01], ptr.to_bytes());
}
