use xo_os::utility::{bit, dist, get_bit, log2_ceil, log2_floor, round_down, round_up, UInt};

#[test]
fn log2_floor_test() {
    assert_eq!(0, log2_floor(1 as u8));
    assert_eq!(1, log2_floor(2 as u16));
    assert_eq!(1, log2_floor(3 as u32));
    assert_eq!(2, log2_floor(4 as u64));
    assert_eq!(8, log2_floor(257 as u64));
}

#[test]
fn log2_ceil_test() {
    assert_eq!(0, log2_ceil(1 as u8));
    assert_eq!(1, log2_ceil(2 as u16));
    assert_eq!(2, log2_ceil(3 as u32));
    assert_eq!(2, log2_ceil(4 as u64));
    assert_eq!(9, log2_ceil(257 as u64));
}

#[test]
fn log2_of_largest_values() {
    assert_eq!(63, log2_floor(u64::MAX));
    assert_eq!(64, log2_ceil(u64::MAX));
    assert_eq!(7, log2_floor(255 as u8));
    assert_eq!(8, log2_ceil(255 as u8));
    assert_eq!(63, log2_ceil(1u64 << 63));
}

#[test]
fn bits() {
    assert_eq!(32u8, bit::<u8>(5));
    assert_eq!(1u64 << 40, bit::<u64>(40));
    assert_eq!(0u8, bit::<u8>(9));
    assert!(get_bit(0b100u32, 2));
    assert!(!get_bit(0b100u32, 1));
    assert!(get_bit(u64::MAX, 63));
}

#[test]
fn rounding() {
    assert_eq!(4096u64, round_up(1u64, 4096));
    assert_eq!(4096u64, round_up(4096u64, 4096));
    assert_eq!(8192u64, round_up(4097u64, 4096));
    assert_eq!(0u64, round_up(0u64, 8));
    assert_eq!(0u64, round_down(4095u64, 4096));
    assert_eq!(4096u64, round_down(8191u64, 4096));
    assert_eq!(24usize, round_down(31usize, 8));
    assert_eq!(32usize, round_up(25usize, 8));
}

#[test]
fn distances() {
    assert_eq!(16, dist(100, 116));
    assert_eq!(-16, dist(116, 100));
    assert_eq!(0, dist(7, 7));
}

#[test]
fn widening_round_trip() {
    assert_eq!(200, <u8 as UInt>::from64(200).to64());
    assert_eq!(0xffff, <u16 as UInt>::from64(0xffff).to64());
    assert_eq!(0x1234_5678, <u32 as UInt>::from64(0x1234_5678).to64());
    assert_eq!(44, <u8 as UInt>::from64(300).to64());
    assert_eq!(0x1200, round_down(0x12ffu16, 0x100u16).to64());
}
