use crate::error::DnsError;
use crate::header::{
    decode_header, header_wf, header_wire, lemma_header_counts, lemma_header_round_trip, parse_header, with_counts,
    write_header, Header, HEADER_LEN,
};
use crate::name::lemma_labels_wire_ok;
use crate::primitive::lemma_split_at;
use crate::section::{
    decode_question, decode_record, lemma_question_prefix, lemma_question_round_trip, lemma_record_prefix,
    lemma_record_round_trip, parse_question, parse_record, question_wf, question_wire, record_wf,
    record_wire, write_question, write_record, Question, QuestionModel, RecordModel, ResourceRecord,
    MAX_U16_FIELD,
};
use vstd::prelude::*;

verus! {

/// A whole message: the header and the four sections in wire order.
#[derive(Clone, Debug, PartialEq, Eq)]
pub struct Message {
    pub header: Header,
    pub questions: Vec<Question>,
    pub answers: Vec<ResourceRecord>,
    pub authority: Vec<ResourceRecord>,
    pub additional: Vec<ResourceRecord>,
}

/// A message as the model sees it.
pub struct MessageModel {
    pub header: Header,
    pub questions: Seq<QuestionModel>,
    pub answers: Seq<RecordModel>,
    pub authority: Seq<RecordModel>,
    pub additional: Seq<RecordModel>,
}

/// The models of a sequence of questions.
pub open spec fn questions_view(qs: Seq<Question>) -> Seq<QuestionModel> {
    qs.map_values(|q: Question| q@)
}

/// The models of a sequence of resource records.
pub open spec fn records_view(rs: Seq<ResourceRecord>) -> Seq<RecordModel> {
    rs.map_values(|r: ResourceRecord| r@)
}

impl View for Message {
    type V = MessageModel;

    open spec fn view(&self) -> MessageModel {
        MessageModel {
            header: self.header,
            questions: questions_view(self.questions@),
            answers: records_view(self.answers@),
            authority: records_view(self.authority@),
            additional: records_view(self.additional@),
        }
    }
}

/// Decoding `n` questions one after another from `pos`.
pub open spec fn parse_questions(buf: Seq<u8>, pos: int, n: nat) -> Result<(Seq<QuestionModel>, int), DnsError>
    decreases n,
{
    if n == 0 {
        Ok((Seq::empty(), pos))
    } else {
        match parse_questions(buf, pos, (n - 1) as nat) {
            Err(e) => Err(e),
            Ok((qs, p)) => match parse_question(buf, p) {
                Err(e) => Err(e),
                Ok((q, end)) => Ok((qs.push(q), end)),
            },
        }
    }
}

/// Decoding `n` resource records one after another from `pos`.
pub open spec fn parse_records(buf: Seq<u8>, pos: int, n: nat) -> Result<(Seq<RecordModel>, int), DnsError>
    decreases n,
{
    if n == 0 {
        Ok((Seq::empty(), pos))
    } else {
        match parse_records(buf, pos, (n - 1) as nat) {
            Err(e) => Err(e),
            Ok((rs, p)) => match parse_record(buf, p) {
                Err(e) => Err(e),
                Ok((r, end)) => Ok((rs.push(r), end)),
            },
        }
    }
}

/// Decoding a message: the header, then as many questions, answers, authority and
/// additional records as its counts declare; with the cursor past the last of them.
pub open spec fn parse_message_at(buf: Seq<u8>) -> Result<(MessageModel, int), DnsError> {
    match parse_header(buf) {
        Err(e) => Err(e),
        Ok(h) => match parse_questions(buf, HEADER_LEN as int, h.qd_count as nat) {
            Err(e) => Err(e),
            Ok((questions, p1)) => match parse_records(buf, p1, h.an_count as nat) {
                Err(e) => Err(e),
                Ok((answers, p2)) => match parse_records(buf, p2, h.ns_count as nat) {
                    Err(e) => Err(e),
                    Ok((authority, p3)) => match parse_records(buf, p3, h.ar_count as nat) {
                        Err(e) => Err(e),
                        Ok((additional, p4)) => Ok(
                            (MessageModel { header: h, questions, answers, authority, additional }, p4),
                        ),
                    },
                },
            },
        },
    }
}

/// The message that `buf` holds.
pub open spec fn parse_message(buf: Seq<u8>) -> Result<MessageModel, DnsError> {
    match parse_message_at(buf) {
        Ok((m, _)) => Ok(m),
        Err(e) => Err(e),
    }
}

/// The wire form of questions one after another.
pub open spec fn questions_wire(qs: Seq<QuestionModel>) -> Result<Seq<u8>, DnsError>
    decreases qs.len(),
{
    if qs.len() == 0 {
        Ok(Seq::empty())
    } else {
        match questions_wire(qs.drop_last()) {
            Err(e) => Err(e),
            Ok(b) => match question_wire(qs.last()) {
                Err(e) => Err(e),
                Ok(qb) => Ok(b + qb),
            },
        }
    }
}

/// The wire form of resource records one after another.
pub open spec fn records_wire(rs: Seq<RecordModel>) -> Result<Seq<u8>, DnsError>
    decreases rs.len(),
{
    if rs.len() == 0 {
        Ok(Seq::empty())
    } else {
        match records_wire(rs.drop_last()) {
            Err(e) => Err(e),
            Ok(b) => match record_wire(rs.last()) {
                Err(e) => Err(e),
                Ok(rb) => Ok(b + rb),
            },
        }
    }
}

/// The wire form of a message. The header's counts are the lengths of the sections, which
/// must fit 16 bits; the counts that the header holds are not used.
pub open spec fn message_wire(m: MessageModel) -> Result<Seq<u8>, DnsError> {
    if m.questions.len() > MAX_U16_FIELD || m.answers.len() > MAX_U16_FIELD || m.authority.len()
        > MAX_U16_FIELD || m.additional.len() > MAX_U16_FIELD {
        Err(DnsError::CountMismatch)
    } else {
        match questions_wire(m.questions) {
            Err(e) => Err(e),
            Ok(qb) => match records_wire(m.answers) {
                Err(e) => Err(e),
                Ok(ab) => match records_wire(m.authority) {
                    Err(e) => Err(e),
                    Ok(nb) => match records_wire(m.additional) {
                        Err(e) => Err(e),
                        Ok(rb) => Ok(
                            header_wire(
                                m.header,
                                m.questions.len() as u16,
                                m.answers.len() as u16,
                                m.authority.len() as u16,
                                m.additional.len() as u16,
                            ) + qb + ab + nb + rb,
                        ),
                    },
                },
            },
        }
    }
}

/// `m` with the header's counts set to the lengths of its sections.
pub open spec fn with_live_counts(m: MessageModel) -> MessageModel {
    MessageModel {
        header: with_counts(
            m.header,
            m.questions.len() as u16,
            m.answers.len() as u16,
            m.authority.len() as u16,
            m.additional.len() as u16,
        ),
        ..m
    }
}

/// The header's counts are the lengths of the sections.
pub open spec fn counts_live(m: MessageModel) -> bool {
    &&& m.header.qd_count == m.questions.len()
    &&& m.header.an_count == m.answers.len()
    &&& m.header.ns_count == m.authority.len()
    &&& m.header.ar_count == m.additional.len()
}

/// A message that fits the wire: header fields within their widths, every question and
/// record fitting, and every section short enough for a 16-bit count.
pub open spec fn message_wf(m: MessageModel) -> bool {
    &&& header_wf(m.header)
    &&& forall|i: int| 0 <= i < m.questions.len() ==> question_wf(#[trigger] m.questions[i])
    &&& forall|i: int| 0 <= i < m.answers.len() ==> record_wf(#[trigger] m.answers[i])
    &&& forall|i: int| 0 <= i < m.authority.len() ==> record_wf(#[trigger] m.authority[i])
    &&& forall|i: int| 0 <= i < m.additional.len() ==> record_wf(#[trigger] m.additional[i])
    &&& m.questions.len() <= MAX_U16_FIELD
    &&& m.answers.len() <= MAX_U16_FIELD
    &&& m.authority.len() <= MAX_U16_FIELD
    &&& m.additional.len() <= MAX_U16_FIELD
}

/// Once decoding the first `i` questions fails, decoding `n >= i` fails the same way.
proof fn lemma_questions_err_extends(buf: Seq<u8>, pos: int, i: nat, n: nat)
    requires
        i <= n,
        parse_questions(buf, pos, i) is Err,
    ensures
        parse_questions(buf, pos, n) == parse_questions(buf, pos, i),
    decreases n,
{
    if n > i {
        lemma_questions_err_extends(buf, pos, i, (n - 1) as nat);
    }
}

/// Once decoding the first `i` records fails, decoding `n >= i` fails the same way.
proof fn lemma_records_err_extends(buf: Seq<u8>, pos: int, i: nat, n: nat)
    requires
        i <= n,
        parse_records(buf, pos, i) is Err,
    ensures
        parse_records(buf, pos, n) == parse_records(buf, pos, i),
    decreases n,
{
    if n > i {
        lemma_records_err_extends(buf, pos, i, (n - 1) as nat);
    }
}

/// Once encoding the first `i` questions fails, encoding all of them fails the same way.
proof fn lemma_questions_wire_err_extends(qs: Seq<QuestionModel>, i: int)
    requires
        0 <= i <= qs.len(),
        questions_wire(qs.take(i)) is Err,
    ensures
        questions_wire(qs) == questions_wire(qs.take(i)),
    decreases qs.len(),
{
    if qs.len() == i {
        assert(qs.take(i) =~= qs);
    } else {
        assert(qs.drop_last().take(i) =~= qs.take(i));
        lemma_questions_wire_err_extends(qs.drop_last(), i);
    }
}

/// Once encoding the first `i` records fails, encoding all of them fails the same way.
proof fn lemma_records_wire_err_extends(rs: Seq<RecordModel>, i: int)
    requires
        0 <= i <= rs.len(),
        records_wire(rs.take(i)) is Err,
    ensures
        records_wire(rs) == records_wire(rs.take(i)),
    decreases rs.len(),
{
    if rs.len() == i {
        assert(rs.take(i) =~= rs);
    } else {
        assert(rs.drop_last().take(i) =~= rs.take(i));
        lemma_records_wire_err_extends(rs.drop_last(), i);
    }
}

/// Decodes `n` questions one after another from `pos`, with the cursor past the last.
pub fn decode_questions(buf: &[u8], pos: usize, n: u16) -> (r: Result<(Vec<Question>, usize), DnsError>)
    ensures
        match r {
            Ok((qs, end)) => parse_questions(buf@, pos as int, n as nat) == Ok::<
                (Seq<QuestionModel>, int),
                DnsError,
            >((questions_view(qs@), end as int)),
            Err(e) => parse_questions(buf@, pos as int, n as nat) == Err::<(Seq<QuestionModel>, int), DnsError>(e),
        },
{
    let mut qs: Vec<Question> = Vec::new();
    let mut p: usize = pos;
    let mut i: u16 = 0;
    assert(questions_view(qs@) =~= Seq::<QuestionModel>::empty());
    while i < n
        invariant
            i <= n,
            parse_questions(buf@, pos as int, i as nat) == Ok::<(Seq<QuestionModel>, int), DnsError>(
                (questions_view(qs@), p as int),
            ),
        decreases n - i,
    {
        let ghost before = questions_view(qs@);
        match decode_question(buf, p) {
            Ok((q, next)) => {
                qs.push(q);
                p = next;
                assert(questions_view(qs@) =~= before.push(q@));
            },
            Err(e) => {
                proof {
                    lemma_questions_err_extends(buf@, pos as int, (i + 1) as nat, n as nat);
                }
                return Err(e);
            },
        }
        i = i + 1;
    }
    Ok((qs, p))
}

/// Decodes `n` resource records one after another from `pos`, with the cursor past the last.
pub fn decode_records(buf: &[u8], pos: usize, n: u16) -> (r: Result<(Vec<ResourceRecord>, usize), DnsError>)
    ensures
        match r {
            Ok((rs, end)) => parse_records(buf@, pos as int, n as nat) == Ok::<(Seq<RecordModel>, int), DnsError>(
                (records_view(rs@), end as int),
            ),
            Err(e) => parse_records(buf@, pos as int, n as nat) == Err::<(Seq<RecordModel>, int), DnsError>(e),
        },
{
    let mut rs: Vec<ResourceRecord> = Vec::new();
    let mut p: usize = pos;
    let mut i: u16 = 0;
    assert(records_view(rs@) =~= Seq::<RecordModel>::empty());
    while i < n
        invariant
            i <= n,
            parse_records(buf@, pos as int, i as nat) == Ok::<(Seq<RecordModel>, int), DnsError>(
                (records_view(rs@), p as int),
            ),
        decreases n - i,
    {
        let ghost before = records_view(rs@);
        match decode_record(buf, p) {
            Ok((rr, next)) => {
                rs.push(rr);
                p = next;
                assert(records_view(rs@) =~= before.push(rr@));
            },
            Err(e) => {
                proof {
                    lemma_records_err_extends(buf@, pos as int, (i + 1) as nat, n as nat);
                }
                return Err(e);
            },
        }
        i = i + 1;
    }
    Ok((rs, p))
}

/// Decodes the message that `buf` holds; bytes after its last record are not read.
pub fn decode_message(buf: &[u8]) -> (r: Result<Message, DnsError>)
    ensures
        match r {
            Ok(m) => parse_message(buf@) == Ok::<MessageModel, DnsError>(m@),
            Err(e) => parse_message(buf@) == Err::<MessageModel, DnsError>(e),
        },
{
    let header = match decode_header(buf) {
        Ok(h) => h,
        Err(e) => return Err(e),
    };
    let (questions, p1) = match decode_questions(buf, HEADER_LEN, header.qd_count) {
        Ok(v) => v,
        Err(e) => return Err(e),
    };
    let (answers, p2) = match decode_records(buf, p1, header.an_count) {
        Ok(v) => v,
        Err(e) => return Err(e),
    };
    let (authority, p3) = match decode_records(buf, p2, header.ns_count) {
        Ok(v) => v,
        Err(e) => return Err(e),
    };
    let (additional, _) = match decode_records(buf, p3, header.ar_count) {
        Ok(v) => v,
        Err(e) => return Err(e),
    };
    Ok(Message { header, questions, answers, authority, additional })
}

/// Appends the wire forms of `qs` one after another; on an error `out` holds a partial write.
pub fn write_questions(qs: &Vec<Question>, out: &mut Vec<u8>) -> (r: Result<(), DnsError>)
    ensures
        match questions_wire(questions_view(qs@)) {
            Ok(b) => r is Ok && final(out)@ == old(out)@ + b,
            Err(e) => r == Err::<(), DnsError>(e),
        },
{
    let ghost v = questions_view(qs@);
    let mut i: usize = 0;
    assert(v.take(0) =~= Seq::<QuestionModel>::empty());
    assert(out@ =~= old(out)@ + Seq::<u8>::empty());
    while i < qs.len()
        invariant
            v == questions_view(qs@),
            i <= qs@.len(),
            questions_wire(v.take(i as int)) is Ok,
            out@ == old(out)@ + questions_wire(v.take(i as int))->Ok_0,
        decreases qs@.len() - i,
    {
        assert(v.take(i + 1).drop_last() =~= v.take(i as int));
        assert(v.take(i + 1).last() == qs@[i as int]@);
        match write_question(&qs[i], out) {
            Ok(()) => {
                assert(out@ =~= old(out)@ + questions_wire(v.take(i + 1))->Ok_0);
            },
            Err(e) => {
                proof {
                    lemma_questions_wire_err_extends(v, i + 1);
                }
                return Err(e);
            },
        }
        i = i + 1;
    }
    assert(v.take(qs@.len() as int) =~= v);
    Ok(())
}

/// Appends the wire forms of `rs` one after another; on an error `out` holds a partial write.
pub fn write_records(rs: &Vec<ResourceRecord>, out: &mut Vec<u8>) -> (r: Result<(), DnsError>)
    ensures
        match records_wire(records_view(rs@)) {
            Ok(b) => r is Ok && final(out)@ == old(out)@ + b,
            Err(e) => r == Err::<(), DnsError>(e),
        },
{
    let ghost v = records_view(rs@);
    let mut i: usize = 0;
    assert(v.take(0) =~= Seq::<RecordModel>::empty());
    assert(out@ =~= old(out)@ + Seq::<u8>::empty());
    while i < rs.len()
        invariant
            v == records_view(rs@),
            i <= rs@.len(),
            records_wire(v.take(i as int)) is Ok,
            out@ == old(out)@ + records_wire(v.take(i as int))->Ok_0,
        decreases rs@.len() - i,
    {
        assert(v.take(i + 1).drop_last() =~= v.take(i as int));
        assert(v.take(i + 1).last() == rs@[i as int]@);
        match write_record(&rs[i], out) {
            Ok(()) => {
                assert(out@ =~= old(out)@ + records_wire(v.take(i + 1))->Ok_0);
            },
            Err(e) => {
                proof {
                    lemma_records_wire_err_extends(v, i + 1);
                }
                return Err(e);
            },
        }
        i = i + 1;
    }
    assert(v.take(rs@.len() as int) =~= v);
    Ok(())
}

/// The wire form of `m`, its header counts taken from the lengths of its sections.
pub fn encode_message(m: &Message) -> (r: Result<Vec<u8>, DnsError>)
    ensures
        match r {
            Ok(b) => message_wire(m@) == Ok::<Seq<u8>, DnsError>(b@),
            Err(e) => message_wire(m@) == Err::<Seq<u8>, DnsError>(e),
        },
{
    let qd = m.questions.len();
    let an = m.answers.len();
    let ns = m.authority.len();
    let ar = m.additional.len();
    if qd > MAX_U16_FIELD || an > MAX_U16_FIELD || ns > MAX_U16_FIELD || ar > MAX_U16_FIELD {
        return Err(DnsError::CountMismatch);
    }
    let mut out: Vec<u8> = Vec::new();
    write_header(&m.header, qd as u16, an as u16, ns as u16, ar as u16, &mut out);
    match write_questions(&m.questions, &mut out) {
        Ok(()) => {},
        Err(e) => return Err(e),
    }
    match write_records(&m.answers, &mut out) {
        Ok(()) => {},
        Err(e) => return Err(e),
    }
    match write_records(&m.authority, &mut out) {
        Ok(()) => {},
        Err(e) => return Err(e),
    }
    match write_records(&m.additional, &mut out) {
        Ok(()) => {},
        Err(e) => return Err(e),
    }
    proof {
        let hw = header_wire(m.header, qd as u16, an as u16, ns as u16, ar as u16);
        let qb = questions_wire(m@.questions)->Ok_0;
        let ab = records_wire(m@.answers)->Ok_0;
        let nb = records_wire(m@.authority)->Ok_0;
        let rb = records_wire(m@.additional)->Ok_0;
        assert(out@ =~= hw + qb + ab + nb + rb);
    }
    Ok(out)
}

/// Questions that each fit the wire encode without error.
proof fn lemma_questions_wire_ok(qs: Seq<QuestionModel>)
    requires
        forall|i: int| 0 <= i < qs.len() ==> question_wf(#[trigger] qs[i]),
    ensures
        questions_wire(qs) is Ok,
    decreases qs.len(),
{
    if qs.len() > 0 {
        let init = qs.drop_last();
        assert forall|i: int| 0 <= i < init.len() implies question_wf(#[trigger] init[i]) by {
            assert(init[i] == qs[i]);
        }
        lemma_questions_wire_ok(init);
        assert(question_wf(qs[qs.len() - 1]));
        lemma_labels_wire_ok(qs.last().name, 0);
    }
}

/// Records that each fit the wire encode without error.
proof fn lemma_records_wire_ok(rs: Seq<RecordModel>)
    requires
        forall|i: int| 0 <= i < rs.len() ==> record_wf(#[trigger] rs[i]),
    ensures
        records_wire(rs) is Ok,
    decreases rs.len(),
{
    if rs.len() > 0 {
        let init = rs.drop_last();
        assert forall|i: int| 0 <= i < init.len() implies record_wf(#[trigger] init[i]) by {
            assert(init[i] == rs[i]);
        }
        lemma_records_wire_ok(init);
        assert(record_wf(rs[rs.len() - 1]));
        lemma_labels_wire_ok(rs.last().name, 0);
    }
}

/// Questions that each fit the wire decode from their wire form, wherever it stands in a
/// buffer, to themselves.
proof fn lemma_questions_round_trip(qs: Seq<QuestionModel>, buf: Seq<u8>, pos: int)
    requires
        forall|i: int| 0 <= i < qs.len() ==> question_wf(#[trigger] qs[i]),
        0 <= pos,
        pos + questions_wire(qs)->Ok_0.len() <= buf.len(),
        buf.subrange(pos, pos + questions_wire(qs)->Ok_0.len()) == questions_wire(qs)->Ok_0,
    ensures
        questions_wire(qs) is Ok,
        parse_questions(buf, pos, qs.len()) == Ok::<(Seq<QuestionModel>, int), DnsError>(
            (qs, pos + questions_wire(qs)->Ok_0.len()),
        ),
    decreases qs.len(),
{
    lemma_questions_wire_ok(qs);
    if qs.len() > 0 {
        let init = qs.drop_last();
        let b0 = questions_wire(init)->Ok_0;
        let qb = question_wire(qs.last())->Ok_0;
        assert forall|i: int| 0 <= i < init.len() implies question_wf(#[trigger] init[i]) by {
            assert(init[i] == qs[i]);
        }
        assert(question_wf(qs[qs.len() - 1]));
        lemma_split_at(buf, pos, b0, qb);
        lemma_questions_round_trip(init, buf, pos);
        lemma_question_round_trip(qs.last(), buf, pos + b0.len());
        assert(init.push(qs.last()) =~= qs);
    } else {
        assert(qs =~= Seq::<QuestionModel>::empty());
    }
}

/// Records that each fit the wire decode from their wire form, wherever it stands in a
/// buffer, to themselves.
proof fn lemma_records_round_trip(rs: Seq<RecordModel>, buf: Seq<u8>, pos: int)
    requires
        forall|i: int| 0 <= i < rs.len() ==> record_wf(#[trigger] rs[i]),
        0 <= pos,
        pos + records_wire(rs)->Ok_0.len() <= buf.len(),
        buf.subrange(pos, pos + records_wire(rs)->Ok_0.len()) == records_wire(rs)->Ok_0,
    ensures
        records_wire(rs) is Ok,
        parse_records(buf, pos, rs.len()) == Ok::<(Seq<RecordModel>, int), DnsError>(
            (rs, pos + records_wire(rs)->Ok_0.len()),
        ),
    decreases rs.len(),
{
    lemma_records_wire_ok(rs);
    if rs.len() > 0 {
        let init = rs.drop_last();
        let b0 = records_wire(init)->Ok_0;
        let rb = record_wire(rs.last())->Ok_0;
        assert forall|i: int| 0 <= i < init.len() implies record_wf(#[trigger] init[i]) by {
            assert(init[i] == rs[i]);
        }
        assert(record_wf(rs[rs.len() - 1]));
        lemma_split_at(buf, pos, b0, rb);
        lemma_records_round_trip(init, buf, pos);
        lemma_record_round_trip(rs.last(), buf, pos + b0.len());
        assert(init.push(rs.last()) =~= rs);
    } else {
        assert(rs =~= Seq::<RecordModel>::empty());
    }
}

/// Decoding questions from a prefix of a buffer that starts at or before `pos`: the same
/// result where the prefix holds them all, `BufferTooShort` where it does not.
proof fn lemma_questions_prefix(buf: Seq<u8>, pos: int, n: nat, k: int)
    requires
        parse_questions(buf, pos, n) is Ok,
        0 <= pos <= k <= buf.len(),
    ensures
        parse_questions(buf.take(k), pos, n) == if parse_questions(buf, pos, n)->Ok_0.1 <= k {
            parse_questions(buf, pos, n)
        } else {
            Err(DnsError::BufferTooShort)
        },
        parse_questions(buf, pos, n)->Ok_0.1 >= pos,
    decreases n,
{
    if n > 0 {
        lemma_questions_prefix(buf, pos, (n - 1) as nat, k);
        let p = parse_questions(buf, pos, (n - 1) as nat)->Ok_0.1;
        lemma_question_prefix(buf, p, if p <= k { k } else { buf.len() as int });
        if p <= k {
            lemma_question_prefix(buf, p, k);
        }
    }
}

/// Decoding records from a prefix of a buffer that starts at or before `pos`: the same
/// result where the prefix holds them all, `BufferTooShort` where it does not.
proof fn lemma_records_prefix(buf: Seq<u8>, pos: int, n: nat, k: int)
    requires
        parse_records(buf, pos, n) is Ok,
        0 <= pos <= k <= buf.len(),
    ensures
        parse_records(buf.take(k), pos, n) == if parse_records(buf, pos, n)->Ok_0.1 <= k {
            parse_records(buf, pos, n)
        } else {
            Err(DnsError::BufferTooShort)
        },
        parse_records(buf, pos, n)->Ok_0.1 >= pos,
    decreases n,
{
    if n > 0 {
        lemma_records_prefix(buf, pos, (n - 1) as nat, k);
        let p = parse_records(buf, pos, (n - 1) as nat)->Ok_0.1;
        lemma_record_prefix(buf, p, if p <= k { k } else { buf.len() as int });
        if p <= k {
            lemma_record_prefix(buf, p, k);
        }
    }
}

/// A message that fits the wire encodes without error.
proof fn lemma_message_wire_ok(m: MessageModel)
    requires
        message_wf(m),
    ensures
        message_wire(m) is Ok,
        questions_wire(m.questions) is Ok,
        records_wire(m.answers) is Ok,
        records_wire(m.authority) is Ok,
        records_wire(m.additional) is Ok,
{
    lemma_questions_wire_ok(m.questions);
    lemma_records_wire_ok(m.answers);
    lemma_records_wire_ok(m.authority);
    lemma_records_wire_ok(m.additional);
}

/// Where `buf` is `a + b + c + d + e`, each part stands at its offset.
proof fn lemma_five_parts(buf: Seq<u8>, a: Seq<u8>, b: Seq<u8>, c: Seq<u8>, d: Seq<u8>, e: Seq<u8>)
    requires
        buf == a + b + c + d + e,
    ensures
        buf.subrange(a.len() as int, a.len() as int + b.len()) == b,
        buf.subrange(a.len() as int + b.len(), a.len() as int + b.len() + c.len()) == c,
        buf.subrange(a.len() as int + b.len() + c.len(), a.len() as int + b.len() + c.len() + d.len()) == d,
        buf.subrange(a.len() as int + b.len() + c.len() + d.len(), buf.len() as int) == e,
        buf == a + (b + c + d + e),
{
    assert(buf.subrange(0, buf.len() as int) =~= buf);
    lemma_split_at(buf, 0, a + b + c + d, e);
    lemma_split_at(buf, 0, a + b + c, d);
    lemma_split_at(buf, 0, a + b, c);
    lemma_split_at(buf, 0, a, b);
    assert(buf =~= a + (b + c + d + e));
}

/// Round trip: a message that fits the wire encodes without error, and decoding its wire
/// form, which it fills exactly, gives it back with the header's counts set to the lengths
/// of its sections; where those counts were already right, it gives back the message itself.
pub proof fn lemma_message_round_trip(m: MessageModel)
    requires
        message_wf(m),
    ensures
        message_wire(m) is Ok,
        parse_message_at(message_wire(m)->Ok_0) == Ok::<(MessageModel, int), DnsError>(
            (with_live_counts(m), message_wire(m)->Ok_0.len() as int),
        ),
        parse_message(message_wire(m)->Ok_0) == Ok::<MessageModel, DnsError>(with_live_counts(m)),
        counts_live(m) ==> parse_message(message_wire(m)->Ok_0) == Ok::<MessageModel, DnsError>(m),
{
    lemma_message_wire_ok(m);
    let (qd, an, ns, ar) = (
        m.questions.len() as u16,
        m.answers.len() as u16,
        m.authority.len() as u16,
        m.additional.len() as u16,
    );
    let hw = header_wire(m.header, qd, an, ns, ar);
    let qb = questions_wire(m.questions)->Ok_0;
    let ab = records_wire(m.answers)->Ok_0;
    let nb = records_wire(m.authority)->Ok_0;
    let rb = records_wire(m.additional)->Ok_0;
    let buf = message_wire(m)->Ok_0;
    assert(buf == hw + qb + ab + nb + rb);
    lemma_five_parts(buf, hw, qb, ab, nb, rb);
    lemma_header_round_trip(m.header, qd, an, ns, ar, qb + ab + nb + rb);
    let h = with_counts(m.header, qd, an, ns, ar);
    assert(parse_header(buf) == Ok::<Header, DnsError>(h));
    assert(h.qd_count as nat == m.questions.len());
    assert(h.an_count as nat == m.answers.len());
    assert(h.ns_count as nat == m.authority.len());
    assert(h.ar_count as nat == m.additional.len());
    let p1 = HEADER_LEN + qb.len();
    let p2 = p1 + ab.len();
    let p3 = p2 + nb.len();
    lemma_questions_round_trip(m.questions, buf, HEADER_LEN as int);
    lemma_records_round_trip(m.answers, buf, p1);
    lemma_records_round_trip(m.authority, buf, p2);
    lemma_records_round_trip(m.additional, buf, p3);
    assert(with_live_counts(m) == MessageModel { header: h, ..m });
    if counts_live(m) {
        assert(with_live_counts(m) == m);
    }
}

/// Count fidelity: whatever counts the header of `m` holds, the counts in its wire form are
/// the lengths of its sections.
pub proof fn lemma_count_fidelity(m: MessageModel)
    requires
        message_wire(m) is Ok,
    ensures
        parse_header(message_wire(m)->Ok_0) is Ok,
        parse_header(message_wire(m)->Ok_0)->Ok_0.qd_count == m.questions.len(),
        parse_header(message_wire(m)->Ok_0)->Ok_0.an_count == m.answers.len(),
        parse_header(message_wire(m)->Ok_0)->Ok_0.ns_count == m.authority.len(),
        parse_header(message_wire(m)->Ok_0)->Ok_0.ar_count == m.additional.len(),
{
    let (qd, an, ns, ar) = (
        m.questions.len() as u16,
        m.answers.len() as u16,
        m.authority.len() as u16,
        m.additional.len() as u16,
    );
    let qb = questions_wire(m.questions)->Ok_0;
    let ab = records_wire(m.answers)->Ok_0;
    let nb = records_wire(m.authority)->Ok_0;
    let rb = records_wire(m.additional)->Ok_0;
    let hw = header_wire(m.header, qd, an, ns, ar);
    assert(message_wire(m)->Ok_0 =~= hw + (qb + ab + nb + rb));
    lemma_header_counts(m.header, qd, an, ns, ar, qb + ab + nb + rb);
}

/// Truncation: where `buf` holds exactly one message, every shorter prefix of it fails to
/// decode with `BufferTooShort`.
pub proof fn lemma_truncated_message(buf: Seq<u8>, k: int)
    requires
        parse_message_at(buf) is Ok,
        parse_message_at(buf)->Ok_0.1 == buf.len(),
        0 <= k < buf.len(),
    ensures
        parse_message(buf.take(k)) == Err::<MessageModel, DnsError>(DnsError::BufferTooShort),
{
    let t = buf.take(k);
    if k >= HEADER_LEN {
        let h = parse_header(buf)->Ok_0;
        assert(parse_header(t) == parse_header(buf));
        lemma_questions_prefix(buf, HEADER_LEN as int, h.qd_count as nat, k);
        let p1 = parse_questions(buf, HEADER_LEN as int, h.qd_count as nat)->Ok_0.1;
        lemma_records_prefix(buf, p1, h.an_count as nat, if p1 <= k { k } else { buf.len() as int });
        if p1 <= k {
            lemma_records_prefix(buf, p1, h.an_count as nat, k);
            let p2 = parse_records(buf, p1, h.an_count as nat)->Ok_0.1;
            lemma_records_prefix(buf, p2, h.ns_count as nat, if p2 <= k { k } else { buf.len() as int });
            if p2 <= k {
                lemma_records_prefix(buf, p2, h.ns_count as nat, k);
                let p3 = parse_records(buf, p2, h.ns_count as nat)->Ok_0.1;
                lemma_records_prefix(buf, p3, h.ar_count as nat, if p3 <= k { k } else { buf.len() as int });
                if p3 <= k {
                    lemma_records_prefix(buf, p3, h.ar_count as nat, k);
                }
            }
        }
    }
}

/// Truncation of an encoded message: every prefix of the wire form of a message that fits
/// the wire, shorter than the whole, fails to decode with `BufferTooShort`.
pub proof fn lemma_truncated_encoding(m: MessageModel, k: int)
    requires
        message_wf(m),
        0 <= k < message_wire(m)->Ok_0.len(),
    ensures
        parse_message(message_wire(m)->Ok_0.take(k)) == Err::<MessageModel, DnsError>(DnsError::BufferTooShort),
{
    lemma_message_round_trip(m);
    lemma_truncated_message(message_wire(m)->Ok_0, k);
}

} // verus!
