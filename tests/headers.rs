use dns_codec::error::DnsError;
use dns_codec::header::{decode_header, extract_op_code, extract_rcode, extract_z, write_header, Header};

fn sample() -> Header {
    Header {
        id: 0x1234,
        qr: true,
        opcode: 0,
        aa: true,
        tc: false,
        rd: true,
        ra: true,
        z: 0,
        rcode: 0,
        qd_count: 0,
        an_count: 0,
        ns_count: 0,
        ar_count: 0,
    }
}

fn encode(h: &Header) -> Vec<u8> {
    let mut out = Vec::new();
    write_header(h, h.qd_count, h.an_count, h.ns_count, h.ar_count, &mut out);
    out
}

#[test]
fn known_header_encodes_to_known_bytes() {
    assert_eq!(encode(&sample()), vec![0x12, 0x34, 0x85, 0x80, 0, 0, 0, 0, 0, 0, 0, 0]);
}

#[test]
fn known_bytes_decode_to_known_header() {
    let bytes = [0x12u8, 0x34, 0x85, 0x80, 0, 0, 0, 0, 0, 0, 0, 0];
    assert_eq!(decode_header(&bytes), Ok(sample()));
}

#[test]
fn header_counts_are_the_ones_supplied() {
    let mut h = sample();
    h.qd_count = 7;
    let mut out = Vec::new();
    write_header(&h, 1, 2, 3, 0x0405, &mut out);
    assert_eq!(&out[4..], &[0, 1, 0, 2, 0, 3, 4, 5]);
    let d = decode_header(&out).unwrap();
    assert_eq!((d.qd_count, d.an_count, d.ns_count, d.ar_count), (1, 2, 3, 0x0405));
}

#[test]
fn short_header_is_buffer_too_short() {
    assert_eq!(decode_header(&[0u8; 11]), Err(DnsError::BufferTooShort));
    assert_eq!(decode_header(&[]), Err(DnsError::BufferTooShort));
}

#[test]
fn sub_byte_fields_are_extracted() {
    assert_eq!(extract_op_code(0b0111_1000), 0x0f);
    assert_eq!(extract_op_code(0b1001_0111), 0x02);
    assert_eq!(extract_z(0b0101_0000), 0x05);
    assert_eq!(extract_z(0b1000_1111), 0x00);
    assert_eq!(extract_rcode(0b1111_0011), 0x03);
}

#[test]
fn nonzero_z_is_accepted_on_decode() {
    let bytes = [0u8, 1, 0, 0x70, 0, 0, 0, 0, 0, 0, 0, 0];
    assert_eq!(decode_header(&bytes).unwrap().z, 7);
}

#[test]
fn out_of_range_fields_are_masked_on_write() {
    let mut h = sample();
    h.opcode = 0x1f;
    h.z = 0x0f;
    h.rcode = 0x13;
    let d = decode_header(&encode(&h)).unwrap();
    assert_eq!((d.opcode, d.z, d.rcode), (0x0f, 0x07, 0x03));
    assert!(d.qr && d.aa && !d.tc && d.rd && d.ra);
}

#[test]
fn header_new_checks_field_widths() {
    assert_eq!(Header::new(0x1234, true, 0, true, false, true, true, 0, 0), Some(sample()));
    assert_eq!(Header::new(1, false, 16, false, false, false, false, 0, 0), None);
    assert_eq!(Header::new(1, false, 0, false, false, false, false, 8, 0), None);
    assert_eq!(Header::new(1, false, 0, false, false, false, false, 0, 16), None);
    assert!(Header::new(1, false, 15, false, false, false, false, 7, 15).is_some());
}

#[test]
fn every_flag_combination_round_trips() {
    for bits in 0u32..(1 << 5) {
        for opcode in 0..16u8 {
            for z in 0..8u8 {
                for rcode in 0..16u8 {
                    let h = Header {
                        id: 0xbeef,
                        qr: bits & 1 != 0,
                        opcode,
                        aa: bits & 2 != 0,
                        tc: bits & 4 != 0,
                        rd: bits & 8 != 0,
                        ra: bits & 16 != 0,
                        z,
                        rcode,
                        qd_count: 1,
                        an_count: 2,
                        ns_count: 3,
                        ar_count: 4,
                    };
                    assert_eq!(decode_header(&encode(&h)), Ok(h));
                }
            }
        }
    }
}

#[test]
fn toggling_one_field_leaves_the_others() {
    let base = sample();
    let toggles: Vec<Box<dyn Fn(&mut Header)>> = vec![
        Box::new(|h| h.qr = !h.qr),
        Box::new(|h| h.aa = !h.aa),
        Box::new(|h| h.tc = !h.tc),
        Box::new(|h| h.rd = !h.rd),
        Box::new(|h| h.ra = !h.ra),
        Box::new(|h| h.opcode = 9),
        Box::new(|h| h.z = 5),
        Box::new(|h| h.rcode = 3),
    ];
    for toggle in toggles {
        let mut h = base;
        toggle(&mut h);
        assert_eq!(decode_header(&encode(&h)), Ok(h));
        assert_ne!(h, base);
    }
}
