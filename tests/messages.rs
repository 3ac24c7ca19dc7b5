use dns_codec::error::DnsError;
use dns_codec::header::{decode_header, Header};
use dns_codec::message::{decode_message, encode_message, Message};
use dns_codec::name::Name;
use dns_codec::section::{decode_question, decode_record, write_question, write_record, Question, ResourceRecord};

fn name(labels: &[&[u8]]) -> Name {
    Name { labels: labels.iter().map(|l| l.to_vec()).collect() }
}

fn header(qd: u16, an: u16, ns: u16, ar: u16) -> Header {
    Header {
        id: 0xabcd,
        qr: true,
        opcode: 2,
        aa: false,
        tc: true,
        rd: true,
        ra: false,
        z: 1,
        rcode: 5,
        qd_count: qd,
        an_count: an,
        ns_count: ns,
        ar_count: ar,
    }
}

fn record(n: &[&[u8]], ttl: u32, rdata: &[u8]) -> ResourceRecord {
    ResourceRecord { name: name(n), rtype: 1, rclass: 1, ttl, rdata: rdata.to_vec() }
}

fn sample(h: Header) -> Message {
    Message {
        header: h,
        questions: vec![Question { name: name(&[b"example", b"com"]), qtype: 1, qclass: 1 }],
        answers: vec![record(&[b"example", b"com"], 3600, &[93, 184, 216, 34]), record(&[b"www"], 60, &[])],
        authority: vec![record(&[b"ns", b"example"], 0xffff_ffff, b"ns1")],
        additional: vec![],
    }
}

#[test]
fn question_encodes_name_type_class() {
    let q = Question { name: name(&[b"a"]), qtype: 0x001c, qclass: 0x0001 };
    let mut out = Vec::new();
    assert_eq!(write_question(&q, &mut out), Ok(()));
    assert_eq!(out, vec![1, b'a', 0, 0x00, 0x1c, 0x00, 0x01]);
    assert_eq!(decode_question(&out, 0), Ok((q, 7)));
    assert_eq!(decode_question(&out[..6], 0), Err(DnsError::BufferTooShort));
}

#[test]
fn record_encodes_all_fields() {
    let r = ResourceRecord { name: name(&[b"a"]), rtype: 0x0010, rclass: 0x0001, ttl: 0x0102_0304, rdata: vec![7, 8] };
    let mut out = Vec::new();
    assert_eq!(write_record(&r, &mut out), Ok(()));
    assert_eq!(out, vec![1, b'a', 0, 0x00, 0x10, 0x00, 0x01, 0x01, 0x02, 0x03, 0x04, 0x00, 0x02, 7, 8]);
    assert_eq!(decode_record(&out, 0), Ok((r, 15)));
}

#[test]
fn record_data_shorter_than_declared_is_buffer_too_short() {
    let wire = [0u8, 0, 1, 0, 1, 0, 0, 0, 0, 0, 3, 9, 9];
    assert_eq!(decode_record(&wire, 0), Err(DnsError::BufferTooShort));
}

#[test]
fn record_data_over_16_bits_is_count_mismatch() {
    let r = ResourceRecord { name: name(&[]), rtype: 1, rclass: 1, ttl: 0, rdata: vec![0; 0x1_0000] };
    let mut out = Vec::new();
    assert_eq!(write_record(&r, &mut out), Err(DnsError::CountMismatch));
}

#[test]
fn message_round_trips() {
    let m = sample(header(1, 2, 1, 0));
    let bytes = encode_message(&m).unwrap();
    assert_eq!(decode_message(&bytes), Ok(m));
}

#[test]
fn stale_counts_are_replaced_on_encode() {
    let m = sample(header(9, 0, 7, 3));
    let bytes = encode_message(&m).unwrap();
    let h = decode_header(&bytes).unwrap();
    assert_eq!((h.qd_count, h.an_count, h.ns_count, h.ar_count), (1, 2, 1, 0));
    let back = decode_message(&bytes).unwrap();
    assert_eq!(back, sample(header(1, 2, 1, 0)));
}

#[test]
fn every_shorter_prefix_is_buffer_too_short() {
    let bytes = encode_message(&sample(header(0, 0, 0, 0))).unwrap();
    for k in 0..bytes.len() {
        assert_eq!(decode_message(&bytes[..k]), Err(DnsError::BufferTooShort), "prefix of {} bytes", k);
    }
    assert!(decode_message(&bytes).is_ok());
}

#[test]
fn declared_section_missing_is_an_error() {
    let mut bytes = vec![0u8; 12];
    bytes[5] = 1;
    assert_eq!(decode_message(&bytes), Err(DnsError::BufferTooShort));
}

#[test]
fn bytes_after_the_last_record_are_ignored() {
    let m = sample(header(1, 2, 1, 0));
    let mut bytes = encode_message(&m).unwrap();
    bytes.extend_from_slice(&[1, 2, 3]);
    assert_eq!(decode_message(&bytes), Ok(m));
}

#[test]
fn bad_name_in_a_section_fails_the_encode() {
    let mut m = sample(header(0, 0, 0, 0));
    m.additional.push(record(&[&[b'x'; 64]], 1, &[]));
    assert_eq!(encode_message(&m), Err(DnsError::InvalidLabelLength));
}

#[test]
fn empty_message_is_only_a_header() {
    let m = Message { header: header(0, 0, 0, 0), questions: vec![], answers: vec![], authority: vec![], additional: vec![] };
    let bytes = encode_message(&m).unwrap();
    assert_eq!(bytes, vec![0xab, 0xcd, 0x93, 0x15, 0, 0, 0, 0, 0, 0, 0, 0]);
    assert_eq!(decode_message(&bytes), Ok(m));
}

#[test]
fn query_from_the_wire_decodes() {
    let mut bytes = vec![0x12u8, 0x34, 0x01, 0x00, 0, 1, 0, 0, 0, 0, 0, 0];
    bytes.extend_from_slice(&[7, b'e', b'x', b'a', b'm', b'p', b'l', b'e', 3, b'c', b'o', b'm', 0, 0, 1, 0, 1]);
    let m = decode_message(&bytes).unwrap();
    assert_eq!(m.header.id, 0x1234);
    assert!(!m.header.qr && m.header.rd);
    assert_eq!(m.questions, vec![Question { name: name(&[b"example", b"com"]), qtype: 1, qclass: 1 }]);
    assert!(m.answers.is_empty() && m.authority.is_empty() && m.additional.is_empty());
}
