use crate::error::DnsError;
use crate::primitive::{
    be16, be16_bytes, bit_of, get_bit_at, lemma_be16_round_trip, read_u16_be, set_bit_at, with_bit, write_u16_be,
};
use vstd::prelude::*;

verus! {

/// The length of the fixed header, in bytes.
pub const HEADER_LEN: usize = 12;

/// The fixed header of a message. `opcode` and `rcode` hold 4 bits, `z` 3 bits.
#[derive(Clone, Copy, Debug, PartialEq, Eq, Structural)]
pub struct Header {
    pub id: u16,
    pub qr: bool,
    pub opcode: u8,
    pub aa: bool,
    pub tc: bool,
    pub rd: bool,
    pub ra: bool,
    pub z: u8,
    pub rcode: u8,
    pub qd_count: u16,
    pub an_count: u16,
    pub ns_count: u16,
    pub ar_count: u16,
}

/// Every sub-byte field of `h` is within its width.
pub open spec fn header_wf(h: Header) -> bool {
    h.opcode <= 15 && h.z <= 7 && h.rcode <= 15
}

/// The value of four bits given from the most significant to the least significant.
pub open spec fn bits4(b3: bool, b2: bool, b1: bool, b0: bool) -> u8 {
    (if b3 { 8u8 } else { 0u8 }) | (if b2 { 4u8 } else { 0u8 }) | (if b1 { 2u8 } else { 0u8 }) | (if b0 {
        1u8
    } else {
        0u8
    })
}

/// The third header byte: QR, OpCode (masked to 4 bits), AA, TC, RD.
pub open spec fn flags_hi(qr: bool, opcode: u8, aa: bool, tc: bool, rd: bool) -> u8 {
    (if qr { 0x80u8 } else { 0u8 }) | ((opcode & 0x0f) << 3u8) | (if aa { 4u8 } else { 0u8 }) | (if tc {
        2u8
    } else {
        0u8
    }) | (if rd { 1u8 } else { 0u8 })
}

/// The fourth header byte: RA, Z (masked to 3 bits), RCode (masked to 4 bits).
pub open spec fn flags_lo(ra: bool, z: u8, rcode: u8) -> u8 {
    (if ra { 0x80u8 } else { 0u8 }) | ((z & 0x07) << 4u8) | (rcode & 0x0f)
}

/// The wire form of `h` with the given section counts in place of its own.
pub open spec fn header_wire(h: Header, qd: u16, an: u16, ns: u16, ar: u16) -> Seq<u8> {
    be16_bytes(h.id) + seq![flags_hi(h.qr, h.opcode, h.aa, h.tc, h.rd), flags_lo(h.ra, h.z, h.rcode)]
        + be16_bytes(qd) + be16_bytes(an) + be16_bytes(ns) + be16_bytes(ar)
}

/// Decoding the header at the start of `buf`.
pub open spec fn parse_header(buf: Seq<u8>) -> Result<Header, DnsError> {
    if buf.len() < HEADER_LEN {
        Err(DnsError::BufferTooShort)
    } else {
        Ok(
            Header {
                id: be16(buf[0], buf[1]) as u16,
                qr: bit_of(buf[2], 7),
                opcode: (buf[2] >> 3u8) & 0x0f,
                aa: bit_of(buf[2], 2),
                tc: bit_of(buf[2], 1),
                rd: bit_of(buf[2], 0),
                ra: bit_of(buf[3], 7),
                z: (buf[3] >> 4u8) & 0x07,
                rcode: buf[3] & 0x0f,
                qd_count: be16(buf[4], buf[5]) as u16,
                an_count: be16(buf[6], buf[7]) as u16,
                ns_count: be16(buf[8], buf[9]) as u16,
                ar_count: be16(buf[10], buf[11]) as u16,
            },
        )
    }
}

/// `h` with the given section counts.
pub open spec fn with_counts(h: Header, qd: u16, an: u16, ns: u16, ar: u16) -> Header {
    Header { qd_count: qd, an_count: an, ns_count: ns, ar_count: ar, ..h }
}

impl Header {
    /// A header with the given fields and all counts zero; `None` where OpCode or RCode
    /// exceeds 4 bits or Z exceeds 3 bits.
    pub fn new(id: u16, qr: bool, opcode: u8, aa: bool, tc: bool, rd: bool, ra: bool, z: u8, rcode: u8) -> (r:
        Option<Header>)
        ensures
            r is Some <==> (opcode <= 15 && z <= 7 && rcode <= 15),
            r matches Some(h) ==> h == (Header {
                id,
                qr,
                opcode,
                aa,
                tc,
                rd,
                ra,
                z,
                rcode,
                qd_count: 0,
                an_count: 0,
                ns_count: 0,
                ar_count: 0,
            }),
    {
        if opcode > 15 || z > 7 || rcode > 15 {
            None
        } else {
            Some(
                Header {
                    id,
                    qr,
                    opcode,
                    aa,
                    tc,
                    rd,
                    ra,
                    z,
                    rcode,
                    qd_count: 0,
                    an_count: 0,
                    ns_count: 0,
                    ar_count: 0,
                },
            )
        }
    }
}

/// The OpCode field (bits 6 to 3) of the third header byte.
pub fn extract_op_code(byte: u8) -> (r: u8)
    ensures
        r == (byte >> 3u8) & 0x0f,
        r == bits4(bit_of(byte, 6), bit_of(byte, 5), bit_of(byte, 4), bit_of(byte, 3)),
{
    assert((byte >> 3u8) & 0x0f == bits4(bit_of(byte, 6), bit_of(byte, 5), bit_of(byte, 4), bit_of(byte, 3)))
        by (bit_vector);
    (byte >> 3u8) & 0x0f
}

/// The Z field (bits 6 to 4) of the fourth header byte.
pub fn extract_z(byte: u8) -> (r: u8)
    ensures
        r == (byte >> 4u8) & 0x07,
        r == bits4(false, bit_of(byte, 6), bit_of(byte, 5), bit_of(byte, 4)),
{
    assert((byte >> 4u8) & 0x07 == bits4(false, bit_of(byte, 6), bit_of(byte, 5), bit_of(byte, 4))) by (bit_vector);
    (byte >> 4u8) & 0x07
}

/// The RCode field (bits 3 to 0) of the fourth header byte.
pub fn extract_rcode(byte: u8) -> (r: u8)
    ensures
        r == byte & 0x0f,
        r == bits4(bit_of(byte, 3), bit_of(byte, 2), bit_of(byte, 1), bit_of(byte, 0)),
{
    assert(byte & 0x0f == bits4(bit_of(byte, 3), bit_of(byte, 2), bit_of(byte, 1), bit_of(byte, 0))) by (bit_vector);
    byte & 0x0f
}

/// Decodes the header at the start of `buf`; the Z field is taken as it stands.
pub fn decode_header(buf: &[u8]) -> (r: Result<Header, DnsError>)
    ensures
        r == parse_header(buf@),
{
    if buf.len() < HEADER_LEN {
        return Err(DnsError::BufferTooShort);
    }
    let (id, _) = read_u16_be(buf, 0).unwrap();
    let (qd_count, _) = read_u16_be(buf, 4).unwrap();
    let (an_count, _) = read_u16_be(buf, 6).unwrap();
    let (ns_count, _) = read_u16_be(buf, 8).unwrap();
    let (ar_count, _) = read_u16_be(buf, 10).unwrap();
    let b2 = buf[2];
    let b3 = buf[3];
    Ok(
        Header {
            id,
            qr: get_bit_at(b2, 7),
            opcode: extract_op_code(b2),
            aa: get_bit_at(b2, 2),
            tc: get_bit_at(b2, 1),
            rd: get_bit_at(b2, 0),
            ra: get_bit_at(b3, 7),
            z: extract_z(b3),
            rcode: extract_rcode(b3),
            qd_count,
            an_count,
            ns_count,
            ar_count,
        },
    )
}

/// Appends the wire form of `h`, with the given section counts written in place of the
/// header's own; OpCode, Z and RCode are masked to their widths.
pub fn write_header(h: &Header, qd: u16, an: u16, ns: u16, ar: u16, out: &mut Vec<u8>)
    ensures
        final(out)@ == old(out)@ + header_wire(*h, qd, an, ns, ar),
{
    let opcode = h.opcode;
    let z = h.z;
    let rcode = h.rcode;
    let hi0 = (opcode & 0x0f) << 3u8;
    let hi1 = set_bit_at(hi0, 7, h.qr);
    let hi2 = set_bit_at(hi1, 2, h.aa);
    let hi3 = set_bit_at(hi2, 1, h.tc);
    let hi = set_bit_at(hi3, 0, h.rd);
    let (qr, aa, tc, rd) = (h.qr, h.aa, h.tc, h.rd);
    assert(hi == flags_hi(qr, opcode, aa, tc, rd)) by (bit_vector)
        requires
            hi0 == (opcode & 0x0f) << 3u8,
            hi1 == with_bit(hi0, 7, qr),
            hi2 == with_bit(hi1, 2, aa),
            hi3 == with_bit(hi2, 1, tc),
            hi == with_bit(hi3, 0, rd),
    ;
    let lo0 = ((z & 0x07) << 4u8) | (rcode & 0x0f);
    let lo = set_bit_at(lo0, 7, h.ra);
    let ra = h.ra;
    assert(lo == flags_lo(ra, z, rcode)) by (bit_vector)
        requires
            lo0 == ((z & 0x07) << 4u8) | (rcode & 0x0f),
            lo == with_bit(lo0, 7, ra),
    ;
    write_u16_be(out, h.id);
    out.push(hi);
    out.push(lo);
    write_u16_be(out, qd);
    write_u16_be(out, an);
    write_u16_be(out, ns);
    write_u16_be(out, ar);
    assert(final(out)@ =~= old(out)@ + header_wire(*h, qd, an, ns, ar));
}

/// Decoding the flag bytes gives back each field that was encoded into them.
proof fn lemma_flags_round_trip(qr: bool, opcode: u8, aa: bool, tc: bool, rd: bool, ra: bool, z: u8, rcode: u8)
    by (bit_vector)
    requires
        opcode <= 15,
        z <= 7,
        rcode <= 15,
    ensures
        bit_of(flags_hi(qr, opcode, aa, tc, rd), 7) == qr,
        (flags_hi(qr, opcode, aa, tc, rd) >> 3u8) & 0x0f == opcode,
        bit_of(flags_hi(qr, opcode, aa, tc, rd), 2) == aa,
        bit_of(flags_hi(qr, opcode, aa, tc, rd), 1) == tc,
        bit_of(flags_hi(qr, opcode, aa, tc, rd), 0) == rd,
        bit_of(flags_lo(ra, z, rcode), 7) == ra,
        (flags_lo(ra, z, rcode) >> 4u8) & 0x07 == z,
        flags_lo(ra, z, rcode) & 0x0f == rcode,
{
}

/// Whatever its other fields hold, a header's wire form decodes to the id and the counts
/// that were written; bytes after the header do not matter.
pub proof fn lemma_header_counts(h: Header, qd: u16, an: u16, ns: u16, ar: u16, rest: Seq<u8>)
    ensures
        header_wire(h, qd, an, ns, ar).len() == HEADER_LEN,
        parse_header(header_wire(h, qd, an, ns, ar) + rest) is Ok,
        ({
            let d = parse_header(header_wire(h, qd, an, ns, ar) + rest)->Ok_0;
            d.id == h.id && d.qd_count == qd && d.an_count == an && d.ns_count == ns && d.ar_count == ar
        }),
{
    let buf = header_wire(h, qd, an, ns, ar) + rest;
    lemma_be16_round_trip(h.id);
    lemma_be16_round_trip(qd);
    lemma_be16_round_trip(an);
    lemma_be16_round_trip(ns);
    lemma_be16_round_trip(ar);
    assert(buf[0] == be16_bytes(h.id)[0] && buf[1] == be16_bytes(h.id)[1]);
    assert(buf[4] == be16_bytes(qd)[0] && buf[5] == be16_bytes(qd)[1]);
    assert(buf[6] == be16_bytes(an)[0] && buf[7] == be16_bytes(an)[1]);
    assert(buf[8] == be16_bytes(ns)[0] && buf[9] == be16_bytes(ns)[1]);
    assert(buf[10] == be16_bytes(ar)[0] && buf[11] == be16_bytes(ar)[1]);
}

/// A header whose sub-byte fields fit their widths decodes from its wire form to itself,
/// carrying the counts that were written; bytes after the header do not matter.
pub proof fn lemma_header_round_trip(h: Header, qd: u16, an: u16, ns: u16, ar: u16, rest: Seq<u8>)
    requires
        header_wf(h),
    ensures
        header_wire(h, qd, an, ns, ar).len() == HEADER_LEN,
        parse_header(header_wire(h, qd, an, ns, ar) + rest) == Ok::<Header, DnsError>(with_counts(h, qd, an, ns, ar)),
{
    let buf = header_wire(h, qd, an, ns, ar) + rest;
    lemma_flags_round_trip(h.qr, h.opcode, h.aa, h.tc, h.rd, h.ra, h.z, h.rcode);
    lemma_header_counts(h, qd, an, ns, ar, rest);
    assert(buf[2] == flags_hi(h.qr, h.opcode, h.aa, h.tc, h.rd));
    assert(buf[3] == flags_lo(h.ra, h.z, h.rcode));
}

/// Changing any of the flag, OpCode, Z or RCode fields of a header leaves every other field
/// as it decodes unchanged: each field decodes from the wire form of the header as it was
/// set, whatever the others hold.
pub proof fn lemma_header_fields_independent(h1: Header, h2: Header, qd: u16, an: u16, ns: u16, ar: u16)
    requires
        header_wf(h1),
        header_wf(h2),
    ensures
        ({
            let d1 = parse_header(header_wire(h1, qd, an, ns, ar))->Ok_0;
            let d2 = parse_header(header_wire(h2, qd, an, ns, ar))->Ok_0;
            &&& d2.qr == h2.qr && (h1.qr == h2.qr ==> d1.qr == d2.qr)
            &&& d2.opcode == h2.opcode && (h1.opcode == h2.opcode ==> d1.opcode == d2.opcode)
            &&& d2.aa == h2.aa && (h1.aa == h2.aa ==> d1.aa == d2.aa)
            &&& d2.tc == h2.tc && (h1.tc == h2.tc ==> d1.tc == d2.tc)
            &&& d2.rd == h2.rd && (h1.rd == h2.rd ==> d1.rd == d2.rd)
            &&& d2.ra == h2.ra && (h1.ra == h2.ra ==> d1.ra == d2.ra)
            &&& d2.z == h2.z && (h1.z == h2.z ==> d1.z == d2.z)
            &&& d2.rcode == h2.rcode && (h1.rcode == h2.rcode ==> d1.rcode == d2.rcode)
            &&& d2.id == h2.id && (h1.id == h2.id ==> d1.id == d2.id)
        }),
{
    lemma_header_round_trip(h1, qd, an, ns, ar, Seq::empty());
    lemma_header_round_trip(h2, qd, an, ns, ar, Seq::empty());
    assert(header_wire(h1, qd, an, ns, ar) + Seq::<u8>::empty() =~= header_wire(h1, qd, an, ns, ar));
    assert(header_wire(h2, qd, an, ns, ar) + Seq::<u8>::empty() =~= header_wire(h2, qd, an, ns, ar));
}

} // verus!
