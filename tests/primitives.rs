use dns_codec::error::DnsError;
use dns_codec::primitive::{get_bit_at, read_u16_be, read_u32_be, set_bit_at, write_u16_be, write_u32_be};

#[test]
fn get_bit_reads_each_position() {
    assert!(get_bit_at(0b1000_0001, 0));
    assert!(!get_bit_at(0b1000_0001, 1));
    assert!(get_bit_at(0b1000_0001, 7));
    assert!(!get_bit_at(0xff, 8));
    assert!(!get_bit_at(0xff, 200));
}

#[test]
fn set_bit_changes_one_bit_only() {
    assert_eq!(set_bit_at(0, 7, true), 0x80);
    assert_eq!(set_bit_at(0xff, 0, false), 0xfe);
    assert_eq!(set_bit_at(0x10, 4, true), 0x10);
    assert_eq!(set_bit_at(0x10, 4, false), 0x00);
    assert_eq!(set_bit_at(0x5a, 9, true), 0x5a);
    for byte in 0..=255u8 {
        for n in 0..8u8 {
            for value in [false, true] {
                let r = set_bit_at(byte, n, value);
                for m in 0..8u8 {
                    let expected = if m == n { value } else { get_bit_at(byte, m) };
                    assert_eq!(get_bit_at(r, m), expected);
                }
            }
        }
    }
}

#[test]
fn read_u16_is_big_endian() {
    let buf = [0x12u8, 0x34, 0x56];
    assert_eq!(read_u16_be(&buf, 0), Ok((0x1234, 2)));
    assert_eq!(read_u16_be(&buf, 1), Ok((0x3456, 3)));
    assert_eq!(read_u16_be(&buf, 2), Err(DnsError::BufferTooShort));
    assert_eq!(read_u16_be(&buf, 7), Err(DnsError::BufferTooShort));
    assert_eq!(read_u16_be(&[], 0), Err(DnsError::BufferTooShort));
}

#[test]
fn read_u32_is_big_endian() {
    let buf = [0xdeu8, 0xad, 0xbe, 0xef, 0x01];
    assert_eq!(read_u32_be(&buf, 0), Ok((0xdead_beef, 4)));
    assert_eq!(read_u32_be(&buf, 1), Ok((0xadbe_ef01, 5)));
    assert_eq!(read_u32_be(&buf, 2), Err(DnsError::BufferTooShort));
}

#[test]
fn write_integers_big_endian() {
    let mut out = vec![0xaau8];
    write_u16_be(&mut out, 0x1234);
    write_u32_be(&mut out, 0x0102_0304);
    assert_eq!(out, vec![0xaa, 0x12, 0x34, 0x01, 0x02, 0x03, 0x04]);
    let mut back = Vec::new();
    write_u16_be(&mut back, 0xbeef);
    assert_eq!(read_u16_be(&back, 0), Ok((0xbeef, 2)));
}
