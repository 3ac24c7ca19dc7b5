use crate::error::{decoded, DnsError};
use crate::name::{
    copy_bytes, decode_name, lemma_labels_wire_ok, lemma_name_round_trip, lemma_parse_labels_prefix,
    name_wf, name_wire, parse_name, write_name, Name,
};
use crate::primitive::{
    be16_bytes, be32_bytes, lemma_parse_u16_prefix, lemma_parse_u16_wire, lemma_parse_u32_prefix,
    lemma_parse_u32_wire, lemma_split_at, parse_u16, parse_u32, read_u16_be, read_u32_be, write_u16_be,
    write_u32_be,
};
use vstd::prelude::*;

verus! {

/// The largest value of a 16-bit length or count field.
pub const MAX_U16_FIELD: usize = 0xffff;

/// An entry of the question section.
#[derive(Clone, Debug, PartialEq, Eq)]
pub struct Question {
    pub name: Name,
    pub qtype: u16,
    pub qclass: u16,
}

/// A question as the model sees it.
pub struct QuestionModel {
    pub name: Seq<Seq<u8>>,
    pub qtype: u16,
    pub qclass: u16,
}

impl View for Question {
    type V = QuestionModel;

    open spec fn view(&self) -> QuestionModel {
        QuestionModel { name: self.name@, qtype: self.qtype, qclass: self.qclass }
    }
}

/// An entry of the answer, authority or additional section.
#[derive(Clone, Debug, PartialEq, Eq)]
pub struct ResourceRecord {
    pub name: Name,
    pub rtype: u16,
    pub rclass: u16,
    pub ttl: u32,
    pub rdata: Vec<u8>,
}

/// A resource record as the model sees it.
pub struct RecordModel {
    pub name: Seq<Seq<u8>>,
    pub rtype: u16,
    pub rclass: u16,
    pub ttl: u32,
    pub rdata: Seq<u8>,
}

impl View for ResourceRecord {
    type V = RecordModel;

    open spec fn view(&self) -> RecordModel {
        RecordModel { name: self.name@, rtype: self.rtype, rclass: self.rclass, ttl: self.ttl, rdata: self.rdata@ }
    }
}

/// Decoding the question at `pos`: name, type, class.
pub open spec fn parse_question(buf: Seq<u8>, pos: int) -> Result<(QuestionModel, int), DnsError> {
    match parse_name(buf, pos) {
        Err(e) => Err(e),
        Ok((name, p1)) => match parse_u16(buf, p1) {
            Err(e) => Err(e),
            Ok((qtype, p2)) => match parse_u16(buf, p2) {
                Err(e) => Err(e),
                Ok((qclass, p3)) => Ok((QuestionModel { name, qtype, qclass }, p3)),
            },
        },
    }
}

/// Decoding the resource record at `pos`: name, type, class, TTL, data length, and that
/// many bytes of data.
pub open spec fn parse_record(buf: Seq<u8>, pos: int) -> Result<(RecordModel, int), DnsError> {
    match parse_name(buf, pos) {
        Err(e) => Err(e),
        Ok((name, p1)) => match parse_u16(buf, p1) {
            Err(e) => Err(e),
            Ok((rtype, p2)) => match parse_u16(buf, p2) {
                Err(e) => Err(e),
                Ok((rclass, p3)) => match parse_u32(buf, p3) {
                    Err(e) => Err(e),
                    Ok((ttl, p4)) => match parse_u16(buf, p4) {
                        Err(e) => Err(e),
                        Ok((rdlen, p5)) => if p5 + rdlen <= buf.len() {
                            Ok(
                                (
                                    RecordModel { name, rtype, rclass, ttl, rdata: buf.subrange(p5, p5 + rdlen) },
                                    p5 + rdlen,
                                ),
                            )
                        } else {
                            Err(DnsError::BufferTooShort)
                        },
                    },
                },
            },
        },
    }
}

/// The wire form of a question.
pub open spec fn question_wire(q: QuestionModel) -> Result<Seq<u8>, DnsError> {
    match name_wire(q.name) {
        Err(e) => Err(e),
        Ok(b) => Ok(b + be16_bytes(q.qtype) + be16_bytes(q.qclass)),
    }
}

/// The wire form of a resource record; its data length is that of its data, which must fit
/// 16 bits.
pub open spec fn record_wire(r: RecordModel) -> Result<Seq<u8>, DnsError> {
    match name_wire(r.name) {
        Err(e) => Err(e),
        Ok(b) => if r.rdata.len() > MAX_U16_FIELD {
            Err(DnsError::CountMismatch)
        } else {
            Ok(
                b + be16_bytes(r.rtype) + be16_bytes(r.rclass) + be32_bytes(r.ttl) + be16_bytes(
                    r.rdata.len() as u16,
                ) + r.rdata,
            )
        },
    }
}

/// A question that fits the wire.
pub open spec fn question_wf(q: QuestionModel) -> bool {
    name_wf(q.name)
}

/// A resource record that fits the wire.
pub open spec fn record_wf(r: RecordModel) -> bool {
    name_wf(r.name) && r.rdata.len() <= MAX_U16_FIELD
}

/// Decodes the question at `pos`, with the cursor past it.
pub fn decode_question(buf: &[u8], pos: usize) -> (r: Result<(Question, usize), DnsError>)
    ensures
        decoded(r) == parse_question(buf@, pos as int),
{
    let (name, p1) = match decode_name(buf, pos) {
        Ok(v) => v,
        Err(e) => return Err(e),
    };
    let (qtype, p2) = match read_u16_be(buf, p1) {
        Ok(v) => v,
        Err(e) => return Err(e),
    };
    let (qclass, p3) = match read_u16_be(buf, p2) {
        Ok(v) => v,
        Err(e) => return Err(e),
    };
    Ok((Question { name, qtype, qclass }, p3))
}

/// Decodes the resource record at `pos`, with the cursor past it.
pub fn decode_record(buf: &[u8], pos: usize) -> (r: Result<(ResourceRecord, usize), DnsError>)
    ensures
        decoded(r) == parse_record(buf@, pos as int),
{
    let (name, p1) = match decode_name(buf, pos) {
        Ok(v) => v,
        Err(e) => return Err(e),
    };
    let (rtype, p2) = match read_u16_be(buf, p1) {
        Ok(v) => v,
        Err(e) => return Err(e),
    };
    let (rclass, p3) = match read_u16_be(buf, p2) {
        Ok(v) => v,
        Err(e) => return Err(e),
    };
    let (ttl, p4) = match read_u32_be(buf, p3) {
        Ok(v) => v,
        Err(e) => return Err(e),
    };
    let (rdlen, p5) = match read_u16_be(buf, p4) {
        Ok(v) => v,
        Err(e) => return Err(e),
    };
    if rdlen as usize > buf.len() - p5 {
        return Err(DnsError::BufferTooShort);
    }
    let rdata = copy_bytes(buf, p5, p5 + rdlen as usize);
    Ok((ResourceRecord { name, rtype, rclass, ttl, rdata }, p5 + rdlen as usize))
}

/// Appends the wire form of `q`; on an error `out` holds a partial write.
pub fn write_question(q: &Question, out: &mut Vec<u8>) -> (r: Result<(), DnsError>)
    ensures
        match question_wire(q@) {
            Ok(b) => r is Ok && final(out)@ == old(out)@ + b,
            Err(e) => r == Err::<(), DnsError>(e),
        },
{
    match write_name(&q.name, out) {
        Ok(()) => {},
        Err(e) => return Err(e),
    }
    write_u16_be(out, q.qtype);
    write_u16_be(out, q.qclass);
    proof {
        let b = name_wire(q.name@)->Ok_0;
        assert(out@ =~= old(out)@ + (b + be16_bytes(q.qtype) + be16_bytes(q.qclass)));
    }
    Ok(())
}

/// Appends the wire form of `rr`, its data length taken from its data; on an error `out`
/// holds a partial write.
pub fn write_record(rr: &ResourceRecord, out: &mut Vec<u8>) -> (r: Result<(), DnsError>)
    ensures
        match record_wire(rr@) {
            Ok(b) => r is Ok && final(out)@ == old(out)@ + b,
            Err(e) => r == Err::<(), DnsError>(e),
        },
{
    match write_name(&rr.name, out) {
        Ok(()) => {},
        Err(e) => return Err(e),
    }
    if rr.rdata.len() > MAX_U16_FIELD {
        return Err(DnsError::CountMismatch);
    }
    write_u16_be(out, rr.rtype);
    write_u16_be(out, rr.rclass);
    write_u32_be(out, rr.ttl);
    write_u16_be(out, rr.rdata.len() as u16);
    let mut j: usize = 0;
    let ghost mid = out@;
    while j < rr.rdata.len()
        invariant
            j <= rr.rdata@.len(),
            out@ == mid + rr.rdata@.subrange(0, j as int),
        decreases rr.rdata@.len() - j,
    {
        out.push(rr.rdata[j]);
        j += 1;
        assert(out@ =~= mid + rr.rdata@.subrange(0, j as int));
    }
    proof {
        let b = name_wire(rr.name@)->Ok_0;
        assert(rr.rdata@.subrange(0, rr.rdata@.len() as int) =~= rr.rdata@);
        assert(out@ =~= old(out)@ + (b + be16_bytes(rr.rtype) + be16_bytes(rr.rclass) + be32_bytes(rr.ttl)
            + be16_bytes(rr.rdata@.len() as u16) + rr.rdata@));
    }
    Ok(())
}

/// A question that fits the wire encodes without error, and decodes from its wire form,
/// wherever that stands in a buffer, to itself.
pub proof fn lemma_question_round_trip(q: QuestionModel, buf: Seq<u8>, pos: int)
    requires
        question_wf(q),
        0 <= pos,
        pos + question_wire(q)->Ok_0.len() <= buf.len(),
        buf.subrange(pos, pos + question_wire(q)->Ok_0.len()) == question_wire(q)->Ok_0,
    ensures
        question_wire(q) is Ok,
        parse_question(buf, pos) == Ok::<(QuestionModel, int), DnsError>(
            (q, pos + question_wire(q)->Ok_0.len()),
        ),
{
    lemma_labels_wire_ok(q.name, 0);
    let nb = name_wire(q.name)->Ok_0;
    let tb = be16_bytes(q.qtype);
    let cb = be16_bytes(q.qclass);
    lemma_split_at(buf, pos, nb + tb, cb);
    lemma_split_at(buf, pos, nb, tb);
    lemma_name_round_trip(q.name, buf, pos);
    lemma_parse_u16_wire(q.qtype, buf, pos + nb.len());
    lemma_parse_u16_wire(q.qclass, buf, pos + nb.len() + 2);
}

/// A resource record that fits the wire encodes without error, and decodes from its wire
/// form, wherever that stands in a buffer, to itself.
pub proof fn lemma_record_round_trip(r: RecordModel, buf: Seq<u8>, pos: int)
    requires
        record_wf(r),
        0 <= pos,
        pos + record_wire(r)->Ok_0.len() <= buf.len(),
        buf.subrange(pos, pos + record_wire(r)->Ok_0.len()) == record_wire(r)->Ok_0,
    ensures
        record_wire(r) is Ok,
        parse_record(buf, pos) == Ok::<(RecordModel, int), DnsError>((r, pos + record_wire(r)->Ok_0.len())),
{
    lemma_labels_wire_ok(r.name, 0);
    let nb = name_wire(r.name)->Ok_0;
    let tb = be16_bytes(r.rtype);
    let cb = be16_bytes(r.rclass);
    let ttlb = be32_bytes(r.ttl);
    let lb = be16_bytes(r.rdata.len() as u16);
    lemma_split_at(buf, pos, nb + tb + cb + ttlb + lb, r.rdata);
    lemma_split_at(buf, pos, nb + tb + cb + ttlb, lb);
    lemma_split_at(buf, pos, nb + tb + cb, ttlb);
    lemma_split_at(buf, pos, nb + tb, cb);
    lemma_split_at(buf, pos, nb, tb);
    lemma_name_round_trip(r.name, buf, pos);
    let p1 = pos + nb.len();
    lemma_parse_u16_wire(r.rtype, buf, p1);
    lemma_parse_u16_wire(r.rclass, buf, p1 + 2);
    lemma_parse_u32_wire(r.ttl, buf, p1 + 4);
    lemma_parse_u16_wire(r.rdata.len() as u16, buf, p1 + 8);
}

/// Decoding a question from a prefix of a buffer that starts at or before `pos`: the same
/// result where the prefix holds the whole question, `BufferTooShort` where it does not.
pub proof fn lemma_question_prefix(buf: Seq<u8>, pos: int, k: int)
    requires
        parse_question(buf, pos) is Ok,
        0 <= pos <= k <= buf.len(),
    ensures
        parse_question(buf.take(k), pos) == if parse_question(buf, pos)->Ok_0.1 <= k {
            parse_question(buf, pos)
        } else {
            Err(DnsError::BufferTooShort)
        },
        parse_question(buf, pos)->Ok_0.1 > pos,
{
    lemma_parse_labels_prefix(buf, pos, 0, k);
    crate::name::lemma_parse_labels_end(buf, pos, 0);
    let p1 = parse_name(buf, pos)->Ok_0.1;
    if p1 <= k {
        lemma_parse_u16_prefix(buf, p1, k);
        if p1 + 2 <= k {
            lemma_parse_u16_prefix(buf, p1 + 2, k);
        }
    }
}

/// Decoding a resource record from a prefix of a buffer that starts at or before `pos`:
/// the same result where the prefix holds the whole record, `BufferTooShort` where it does
/// not.
pub proof fn lemma_record_prefix(buf: Seq<u8>, pos: int, k: int)
    requires
        parse_record(buf, pos) is Ok,
        0 <= pos <= k <= buf.len(),
    ensures
        parse_record(buf.take(k), pos) == if parse_record(buf, pos)->Ok_0.1 <= k {
            parse_record(buf, pos)
        } else {
            Err(DnsError::BufferTooShort)
        },
        parse_record(buf, pos)->Ok_0.1 > pos,
{
    let t = buf.take(k);
    lemma_parse_labels_prefix(buf, pos, 0, k);
    crate::name::lemma_parse_labels_end(buf, pos, 0);
    let p1 = parse_name(buf, pos)->Ok_0.1;
    if p1 <= k {
        lemma_parse_u16_prefix(buf, p1, k);
        if p1 + 2 <= k {
            lemma_parse_u16_prefix(buf, p1 + 2, k);
            if p1 + 4 <= k {
                lemma_parse_u32_prefix(buf, p1 + 4, k);
                if p1 + 8 <= k {
                    lemma_parse_u16_prefix(buf, p1 + 8, k);
                    let rdlen = parse_u16(buf, p1 + 8)->Ok_0.0 as int;
                    if p1 + 10 + rdlen <= k {
                        assert(t.subrange(p1 + 10, p1 + 10 + rdlen) =~= buf.subrange(p1 + 10, p1 + 10 + rdlen));
                    }
                }
            }
        }
    }
}

} // verus!
