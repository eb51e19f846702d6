use xo_os::fmt::{decimal, hex, hex_digits, octal, octal_digits, signed_digits, Buffer, FmtError};

#[test]
fn overflow() {
    let mut buf = Buffer::new(vec![0u8; 10]);
    assert_eq!(buf.len(), 0);
    assert_eq!(buf.capacity(), 10);
    buf.write_str(&format!("123{}", 4)).unwrap();
    assert_eq!(buf.len(), 4);
    buf.write_str(&format!("{}", "5678")).unwrap();
    assert_eq!(buf.len(), 8);
    let err = buf.write_str(&format!("{}", "9ab"));
    assert!(err.is_err());
    assert_eq!(err, Err(FmtError));
    assert_eq!(buf.len(), 8);
    assert_eq!(&buf.data()[..8], b"12345678");
}

#[test]
fn write_char_fills_the_buffer() {
    let mut buf = Buffer::new(vec![0u8; 2]);
    assert!(buf.write_char('a').is_ok());
    assert!(buf.write_char('b').is_ok());
    assert!(buf.write_char('c').is_err());
    assert_eq!(buf.data(), b"ab");
    assert!(buf.write_str("").is_ok());
}

#[test]
fn number_digits() {
    let x: u64 = 123456789;
    assert_eq!(decimal(x), b"123456789".to_vec());
    assert_eq!(octal_digits(x), b"726746425".to_vec());
    assert_eq!(hex_digits(x), b"75bcd15".to_vec());
}

#[test]
fn digits_of_zero_and_extremes() {
    assert_eq!(decimal(0), b"0".to_vec());
    assert_eq!(hex_digits(0), b"0".to_vec());
    assert_eq!(hex_digits(u64::MAX), b"ffffffffffffffff".to_vec());
    assert_eq!(octal_digits(8), b"10".to_vec());
    assert_eq!(decimal(u64::MAX), b"18446744073709551615".to_vec());
}

#[test]
fn signed_numbers() {
    assert_eq!(signed_digits(-255, 16), b"-ff".to_vec());
    assert_eq!(signed_digits(255, 16), b"ff".to_vec());
    assert_eq!(signed_digits(-8, 8), b"-10".to_vec());
    assert_eq!(signed_digits(0, 10), b"0".to_vec());
    assert_eq!(signed_digits(i64::MAX, 10), b"9223372036854775807".to_vec());
}

#[test]
fn wrappers_keep_the_value() {
    let x: u64 = 42;
    assert_eq!(*hex(&x).get(), 42);
    assert_eq!(*octal(&x).get(), 42);
}

#[test]
fn digits_read_back() {
    for &x in [0u64, 7, 10, 255, 4096, 123456789, u64::MAX].iter() {
        let d = String::from_utf8(decimal(x)).unwrap();
        assert_eq!(x, d.parse::<u64>().unwrap());
        let h = String::from_utf8(hex_digits(x)).unwrap();
        assert_eq!(x, u64::from_str_radix(&h, 16).unwrap());
        let o = String::from_utf8(octal_digits(x)).unwrap();
        assert_eq!(x, u64::from_str_radix(&o, 8).unwrap());
    }
}

/// Formats into a fresh buffer of 32 bytes and returns its bytes.
fn formatted(text: String) -> Vec<u8> {
    let mut buf = Buffer::new(vec![0u8; 32]);
    buf.write_str(&text).unwrap();
    buf.data().to_vec()
}

#[test]
fn numbers() {
    let x: i64 = 123456789;
    assert!(formatted(format!("{}", x)).starts_with(b"123456789"));
    assert!(formatted(format!("{:#o}", x)).starts_with(b"0o726746425"));
    assert!(formatted(format!("{:#X}", x)).starts_with(b"0x75BCD15"));
}
