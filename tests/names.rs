use dns_codec::error::DnsError;
use dns_codec::name::{decode_name, encode_name, write_name, Name};

fn name(labels: &[&[u8]]) -> Name {
    Name { labels: labels.iter().map(|l| l.to_vec()).collect() }
}

const EXAMPLE_COM: [u8; 13] = [0x07, 0x65, 0x78, 0x61, 0x6d, 0x70, 0x6c, 0x65, 0x03, 0x63, 0x6f, 0x6d, 0x00];

#[test]
fn example_com_encodes_to_known_bytes() {
    let n = name(&[b"example", b"com"]);
    assert_eq!(encode_name(&n), Ok(EXAMPLE_COM.to_vec()));
}

#[test]
fn example_com_decodes_to_labels() {
    let (n, end) = decode_name(&EXAMPLE_COM, 0).unwrap();
    assert_eq!(n.labels, vec![b"example".to_vec(), b"com".to_vec()]);
    assert_eq!(end, 13);
}

#[test]
fn root_name_is_a_single_zero_byte() {
    assert_eq!(encode_name(&name(&[b""])), Ok(vec![0]));
    assert_eq!(encode_name(&name(&[])), Ok(vec![0]));
    let (n, end) = decode_name(&[0], 0).unwrap();
    assert!(n.labels.is_empty());
    assert_eq!(end, 1);
}

#[test]
fn trailing_root_label_is_implicit() {
    assert_eq!(encode_name(&name(&[b"example", b"com", b""])), Ok(EXAMPLE_COM.to_vec()));
}

#[test]
fn empty_label_inside_a_name_is_refused() {
    assert_eq!(encode_name(&name(&[b"a", b"", b"b"])), Err(DnsError::InvalidLabelLength));
}

#[test]
fn label_of_63_bytes_is_accepted() {
    let label = vec![b'x'; 63];
    let encoded = encode_name(&Name { labels: vec![label.clone()] }).unwrap();
    assert_eq!(encoded.len(), 65);
    assert_eq!(encoded[0], 63);
    let (n, end) = decode_name(&encoded, 0).unwrap();
    assert_eq!(n.labels, vec![label]);
    assert_eq!(end, 65);
}

#[test]
fn label_of_64_bytes_is_refused() {
    let label = vec![b'x'; 64];
    assert_eq!(encode_name(&Name { labels: vec![label.clone()] }), Err(DnsError::InvalidLabelLength));
    let mut wire = vec![64u8];
    wire.extend_from_slice(&label);
    wire.push(0);
    assert_eq!(decode_name(&wire, 0), Err(DnsError::InvalidLabelLength));
}

#[test]
fn compression_pointer_is_refused() {
    assert_eq!(decode_name(&[0xc0, 0x0c], 0), Err(DnsError::InvalidLabelLength));
}

#[test]
fn name_longer_than_255_bytes_is_refused() {
    // Four labels of 63 bytes take 256 bytes with the terminator.
    let long = Name { labels: vec![vec![b'a'; 63]; 4] };
    assert_eq!(encode_name(&long), Err(DnsError::NameTooLong));
    let mut wire = Vec::new();
    for _ in 0..4 {
        wire.push(63u8);
        wire.extend_from_slice(&[b'a'; 63]);
    }
    wire.push(0);
    assert_eq!(decode_name(&wire, 0), Err(DnsError::NameTooLong));
    // Three labels of 63 and one of 61 take exactly 255 bytes.
    let fits = Name { labels: vec![vec![b'a'; 63], vec![b'a'; 63], vec![b'a'; 63], vec![b'a'; 61]] };
    let encoded = encode_name(&fits).unwrap();
    assert_eq!(encoded.len(), 255);
    assert_eq!(decode_name(&encoded, 0).unwrap().0, fits);
}

#[test]
fn truncated_name_is_buffer_too_short() {
    assert_eq!(decode_name(&[], 0), Err(DnsError::BufferTooShort));
    assert_eq!(decode_name(&EXAMPLE_COM[..5], 0), Err(DnsError::BufferTooShort));
    assert_eq!(decode_name(&EXAMPLE_COM[..12], 0), Err(DnsError::BufferTooShort));
    assert_eq!(decode_name(&EXAMPLE_COM, 13), Err(DnsError::BufferTooShort));
}

#[test]
fn name_decodes_from_an_offset() {
    let mut buf = vec![0xffu8, 0xff];
    buf.extend_from_slice(&EXAMPLE_COM);
    buf.push(0x42);
    let (n, end) = decode_name(&buf, 2).unwrap();
    assert_eq!(n, name(&[b"example", b"com"]));
    assert_eq!(end, 15);
}

#[test]
fn write_name_appends() {
    let mut out = vec![9u8];
    assert_eq!(write_name(&name(&[b"com"]), &mut out), Ok(()));
    assert_eq!(out, vec![9, 3, b'c', b'o', b'm', 0]);
}
