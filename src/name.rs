use crate::error::{decoded, DnsError};
use vstd::prelude::*;

verus! {

/// The longest label, in bytes.
pub const MAX_LABEL_LEN: usize = 63;

/// The longest encoded name, length bytes and terminator included.
pub const MAX_NAME_LEN: usize = 255;

/// A domain name: its labels in order, the root label left implicit.
#[derive(Clone, Debug, PartialEq, Eq)]
pub struct Name {
    pub labels: Vec<Vec<u8>>,
}

impl View for Name {
    type V = Seq<Seq<u8>>;

    open spec fn view(&self) -> Seq<Seq<u8>> {
        self.labels@.map_values(|l: Vec<u8>| l@)
    }
}

/// `r` with `acc` put before the labels it decoded.
pub open spec fn after_labels(acc: Seq<Seq<u8>>, r: Result<(Seq<Seq<u8>>, int), DnsError>) -> Result<
    (Seq<Seq<u8>>, int),
    DnsError,
> {
    match r {
        Ok((ls, end)) => Ok((acc + ls, end)),
        Err(e) => Err(e),
    }
}

/// `r` with `acc` put before the bytes it encoded.
pub open spec fn after_bytes(acc: Seq<u8>, r: Result<Seq<u8>, DnsError>) -> Result<Seq<u8>, DnsError> {
    match r {
        Ok(b) => Ok(acc + b),
        Err(e) => Err(e),
    }
}

/// Decoding the labels that start at `pos`, where `used` bytes of the same name were
/// already read: length-prefixed labels up to a zero length byte.
pub open spec fn parse_labels(buf: Seq<u8>, pos: int, used: int) -> Result<(Seq<Seq<u8>>, int), DnsError>
    decreases buf.len() - pos,
{
    if pos < 0 || pos >= buf.len() {
        Err(DnsError::BufferTooShort)
    } else {
        let len = buf[pos] as int;
        if len == 0 {
            Ok((Seq::empty(), pos + 1))
        } else if len > MAX_LABEL_LEN {
            Err(DnsError::InvalidLabelLength)
        } else if used + len + 2 > MAX_NAME_LEN {
            Err(DnsError::NameTooLong)
        } else if pos + 1 + len > buf.len() {
            Err(DnsError::BufferTooShort)
        } else {
            after_labels(
                seq![buf.subrange(pos + 1, pos + 1 + len)],
                parse_labels(buf, pos + 1 + len, used + 1 + len),
            )
        }
    }
}

/// Decoding the name that starts at `pos`: its labels and the cursor past its terminator.
pub open spec fn parse_name(buf: Seq<u8>, pos: int) -> Result<(Seq<Seq<u8>>, int), DnsError> {
    parse_labels(buf, pos, 0)
}

/// Encoding labels after `used` bytes of the same name: each label as its length byte and
/// its bytes, then the zero terminator. A last empty label is the root, which the
/// terminator already denotes; any other empty label, or one over 63 bytes, is refused, and
/// so is a name whose encoding would pass 255 bytes.
pub open spec fn labels_wire(ls: Seq<Seq<u8>>, used: int) -> Result<Seq<u8>, DnsError>
    decreases ls.len(),
{
    if ls.len() == 0 || (ls.len() == 1 && ls[0].len() == 0) {
        Ok(seq![0u8])
    } else if ls[0].len() == 0 || ls[0].len() > MAX_LABEL_LEN {
        Err(DnsError::InvalidLabelLength)
    } else if used + ls[0].len() + 2 > MAX_NAME_LEN {
        Err(DnsError::NameTooLong)
    } else {
        after_bytes(seq![ls[0].len() as u8] + ls[0], labels_wire(ls.drop_first(), used + 1 + ls[0].len()))
    }
}

/// The wire form of a name.
pub open spec fn name_wire(ls: Seq<Seq<u8>>) -> Result<Seq<u8>, DnsError> {
    labels_wire(ls, 0)
}

/// The labels that a name's wire form gives back: a last empty label (the root) is implicit.
pub open spec fn canonical_labels(ls: Seq<Seq<u8>>) -> Seq<Seq<u8>> {
    if ls.len() > 0 && ls.last().len() == 0 {
        ls.drop_last()
    } else {
        ls
    }
}

/// The bytes that the labels take on the wire, without the terminator.
pub open spec fn labels_len(ls: Seq<Seq<u8>>) -> int
    decreases ls.len(),
{
    if ls.len() == 0 {
        0
    } else {
        1 + ls[0].len() + labels_len(ls.drop_first())
    }
}

/// A name in canonical form that fits the wire: every label 1 to 63 bytes long, and at
/// most 255 bytes encoded.
pub open spec fn name_wf(ls: Seq<Seq<u8>>) -> bool {
    &&& forall|i: int| 0 <= i < ls.len() ==> 1 <= #[trigger] ls[i].len() <= MAX_LABEL_LEN
    &&& labels_len(ls) + 1 <= MAX_NAME_LEN
}

/// The bytes `buf[start..end]`.
pub(crate) fn copy_bytes(buf: &[u8], start: usize, end: usize) -> (r: Vec<u8>)
    requires
        start <= end <= buf@.len(),
    ensures
        r@ == buf@.subrange(start as int, end as int),
{
    let mut r: Vec<u8> = Vec::new();
    let mut j: usize = start;
    while j < end
        invariant
            start <= j <= end <= buf@.len(),
            r@ == buf@.subrange(start as int, j as int),
        decreases end - j,
    {
        r.push(buf[j]);
        j += 1;
        assert(r@ =~= buf@.subrange(start as int, j as int));
    }
    r
}

/// Decodes the name that starts at `pos`, with the cursor past its terminator.
pub fn decode_name(buf: &[u8], pos: usize) -> (r: Result<(Name, usize), DnsError>)
    ensures
        decoded(r) == parse_name(buf@, pos as int),
{
    let mut labels: Vec<Vec<u8>> = Vec::new();
    let mut p: usize = pos;
    let mut used: usize = 0;
    loop
        invariant
            used <= MAX_NAME_LEN,
            parse_name(buf@, pos as int) == after_labels(
                labels@.map_values(|l: Vec<u8>| l@),
                parse_labels(buf@, p as int, used as int),
            ),
        decreases buf@.len() - p,
    {
        let ghost acc = labels@.map_values(|l: Vec<u8>| l@);
        if p >= buf.len() {
            return Err(DnsError::BufferTooShort);
        }
        let len = buf[p] as usize;
        if len == 0 {
            proof {
                assert(acc + Seq::<Seq<u8>>::empty() =~= acc);
            }
            return Ok((Name { labels }, p + 1));
        }
        if len > MAX_LABEL_LEN {
            return Err(DnsError::InvalidLabelLength);
        }
        if used + len + 2 > MAX_NAME_LEN {
            return Err(DnsError::NameTooLong);
        }
        if len > buf.len() - p - 1 {
            return Err(DnsError::BufferTooShort);
        }
        let label = copy_bytes(buf, p + 1, p + 1 + len);
        labels.push(label);
        proof {
            let lab = buf@.subrange(p + 1, p + 1 + len);
            let rest = parse_labels(buf@, p + 1 + len, used + 1 + len);
            assert(labels@.map_values(|l: Vec<u8>| l@) =~= acc.push(lab));
            assert(acc + seq![lab] =~= acc.push(lab));
            match rest {
                Ok((ls, end)) => {
                    assert(acc + (seq![lab] + ls) =~= acc.push(lab) + ls);
                },
                Err(e) => {},
            }
        }
        used = used + 1 + len;
        p = p + 1 + len;
    }
}

/// Appends the bytes of `src` to `out`.
fn append_bytes(out: &mut Vec<u8>, src: &Vec<u8>)
    ensures
        final(out)@ == old(out)@ + src@,
{
    let mut j: usize = 0;
    while j < src.len()
        invariant
            j <= src@.len(),
            out@ == old(out)@ + src@.subrange(0, j as int),
        decreases src@.len() - j,
    {
        out.push(src[j]);
        j += 1;
        assert(out@ =~= old(out)@ + src@.subrange(0, j as int));
    }
    assert(src@.subrange(0, src@.len() as int) =~= src@);
}

/// Appends the wire form of `name` to `out`; on an error `out` holds a partial write.
pub fn write_name(name: &Name, out: &mut Vec<u8>) -> (r: Result<(), DnsError>)
    ensures
        match name_wire(name@) {
            Ok(b) => r is Ok && final(out)@ == old(out)@ + b,
            Err(e) => r == Err::<(), DnsError>(e),
        },
{
    let ghost ls = name@;
    let n = name.labels.len();
    let mut i: usize = 0;
    let mut used: usize = 0;
    proof {
        assert(ls.skip(0) =~= ls);
        let empty = out@.subrange(old(out)@.len() as int, out@.len() as int);
        assert(empty =~= Seq::<u8>::empty());
        match name_wire(ls) {
            Ok(b) => {
                assert(empty + b =~= b);
            },
            Err(e) => {},
        }
    }
    loop
        invariant
            ls == name@,
            n == ls.len(),
            i <= n,
            used <= MAX_NAME_LEN,
            old(out)@.len() <= out@.len(),
            out@.subrange(0, old(out)@.len() as int) == old(out)@,
            name_wire(ls) == after_bytes(
                out@.subrange(old(out)@.len() as int, out@.len() as int),
                labels_wire(ls.skip(i as int), used as int),
            ),
        decreases n - i,
    {
        let ghost rest = ls.skip(i as int);
        let ghost written = out@.subrange(old(out)@.len() as int, out@.len() as int);
        if i == n || (i + 1 == n && name.labels[i].len() == 0) {
            out.push(0);
            proof {
                assert(out@ =~= old(out)@ + (written + seq![0u8]));
            }
            return Ok(());
        }
        let label = &name.labels[i];
        let len = label.len();
        assert(rest[0] == label@);
        if len == 0 || len > MAX_LABEL_LEN {
            return Err(DnsError::InvalidLabelLength);
        }
        if used + len + 2 > MAX_NAME_LEN {
            return Err(DnsError::NameTooLong);
        }
        out.push(len as u8);
        append_bytes(out, label);
        proof {
            assert(rest.drop_first() =~= ls.skip(i + 1));
            let head = seq![len as u8] + label@;
            assert(out@ =~= old(out)@ + (written + head));
            assert(out@.subrange(0, old(out)@.len() as int) =~= old(out)@);
            assert(out@.subrange(old(out)@.len() as int, out@.len() as int) =~= written + head);
            match labels_wire(ls.skip(i + 1), used + 1 + len) {
                Ok(b) => {
                    assert(written + (head + b) =~= (written + head) + b);
                },
                Err(e) => {},
            }
        }
        used = used + 1 + len;
        i = i + 1;
    }
}

/// The wire form of `name`.
pub fn encode_name(name: &Name) -> (r: Result<Vec<u8>, DnsError>)
    ensures
        match r {
            Ok(b) => name_wire(name@) == Ok::<Seq<u8>, DnsError>(b@),
            Err(e) => name_wire(name@) == Err::<Seq<u8>, DnsError>(e),
        },
{
    let mut out: Vec<u8> = Vec::new();
    match write_name(name, &mut out) {
        Ok(()) => {
            assert(out@ =~= Seq::<u8>::empty() + out@);
            Ok(out)
        },
        Err(e) => Err(e),
    }
}

/// A name that fits the wire encodes without error, in `labels_len + 1` bytes.
pub proof fn lemma_labels_wire_ok(ls: Seq<Seq<u8>>, used: int)
    requires
        forall|i: int| 0 <= i < ls.len() ==> 1 <= #[trigger] ls[i].len() <= MAX_LABEL_LEN,
        0 <= used,
        used + labels_len(ls) + 1 <= MAX_NAME_LEN,
    ensures
        labels_wire(ls, used) is Ok,
        labels_wire(ls, used)->Ok_0.len() == labels_len(ls) + 1,
    decreases ls.len(),
{
    if ls.len() > 0 {
        let rest = ls.drop_first();
        assert forall|i: int| 0 <= i < rest.len() implies 1 <= #[trigger] rest[i].len() <= MAX_LABEL_LEN by {
            assert(rest[i] == ls[i + 1]);
        }
        assert(ls[0].len() >= 1);
        lemma_labels_len_nonneg(rest);
        lemma_labels_wire_ok(rest, used + 1 + ls[0].len());
    }
}

/// The wire length of labels is never negative.
pub proof fn lemma_labels_len_nonneg(ls: Seq<Seq<u8>>)
    ensures
        labels_len(ls) >= 0,
    decreases ls.len(),
{
    if ls.len() > 0 {
        lemma_labels_len_nonneg(ls.drop_first());
    }
}

/// Decoding the wire form of labels, wherever it stands in a buffer, gives back the labels
/// without a last root label, and the cursor just past the form.
pub proof fn lemma_parse_labels_wire(ls: Seq<Seq<u8>>, used: int, b: Seq<u8>, buf: Seq<u8>, pos: int)
    requires
        labels_wire(ls, used) == Ok::<Seq<u8>, DnsError>(b),
        0 <= used,
        0 <= pos,
        pos + b.len() <= buf.len(),
        buf.subrange(pos, pos + b.len()) == b,
    ensures
        parse_labels(buf, pos, used) == Ok::<(Seq<Seq<u8>>, int), DnsError>((canonical_labels(ls), pos + b.len())),
    decreases ls.len(),
{
    assert(buf[pos] == b[0]) by {
        assert(buf.subrange(pos, pos + b.len())[0] == buf[pos]);
    }
    if ls.len() == 0 || (ls.len() == 1 && ls[0].len() == 0) {
        assert(canonical_labels(ls) =~= Seq::<Seq<u8>>::empty());
    } else {
        let l0 = ls[0];
        let len = l0.len() as int;
        let rest = ls.drop_first();
        let rb = labels_wire(rest, used + 1 + len)->Ok_0;
        assert(b == seq![len as u8] + l0 + rb);
        assert(buf.subrange(pos + 1, pos + 1 + len) =~= l0) by {
            assert forall|j: int| 0 <= j < len implies buf.subrange(pos + 1, pos + 1 + len)[j] == l0[j] by {
                assert(buf.subrange(pos, pos + b.len())[1 + j] == b[1 + j]);
            }
        }
        assert(buf.subrange(pos + 1 + len, pos + 1 + len + rb.len()) =~= rb) by {
            assert forall|j: int| 0 <= j < rb.len() implies buf.subrange(pos + 1 + len, pos + 1 + len + rb.len())[j]
                == rb[j] by {
                assert(buf.subrange(pos, pos + b.len())[1 + len + j] == b[1 + len + j]);
            }
        }
        lemma_parse_labels_wire(rest, used + 1 + len, rb, buf, pos + 1 + len);
        if rest.len() > 0 && rest.last().len() == 0 {
            assert(seq![l0] + rest.drop_last() =~= ls.drop_last());
        } else {
            assert(seq![l0] + rest =~= ls);
        }
    }
}

/// A name that fits the wire decodes from its wire form to itself.
pub proof fn lemma_name_round_trip(ls: Seq<Seq<u8>>, buf: Seq<u8>, pos: int)
    requires
        name_wf(ls),
        0 <= pos,
        pos + labels_len(ls) + 1 <= buf.len(),
        buf.subrange(pos, pos + labels_len(ls) + 1) == name_wire(ls)->Ok_0,
    ensures
        name_wire(ls) is Ok,
        name_wire(ls)->Ok_0.len() == labels_len(ls) + 1,
        parse_name(buf, pos) == Ok::<(Seq<Seq<u8>>, int), DnsError>((ls, pos + labels_len(ls) + 1)),
{
    lemma_labels_wire_ok(ls, 0);
    lemma_parse_labels_wire(ls, 0, name_wire(ls)->Ok_0, buf, pos);
    assert(canonical_labels(ls) == ls);
}

/// A successful decode of labels ends past where it started.
pub proof fn lemma_parse_labels_end(buf: Seq<u8>, pos: int, used: int)
    requires
        parse_labels(buf, pos, used) is Ok,
    ensures
        parse_labels(buf, pos, used)->Ok_0.1 > pos,
    decreases buf.len() - pos,
{
    let len = buf[pos] as int;
    if len != 0 {
        lemma_parse_labels_end(buf, pos + 1 + len, used + 1 + len);
    }
}

/// Decoding labels from a prefix of a buffer: the same result where the prefix holds all
/// the bytes that the decode read, `BufferTooShort` where it does not.
pub proof fn lemma_parse_labels_prefix(buf: Seq<u8>, pos: int, used: int, k: int)
    requires
        parse_labels(buf, pos, used) is Ok,
        0 <= pos <= k <= buf.len(),
    ensures
        parse_labels(buf.take(k), pos, used) == if parse_labels(buf, pos, used)->Ok_0.1 <= k {
            parse_labels(buf, pos, used)
        } else {
            Err(DnsError::BufferTooShort)
        },
    decreases buf.len() - pos,
{
    let t = buf.take(k);
    lemma_parse_labels_end(buf, pos, used);
    if pos < k {
        let len = buf[pos] as int;
        assert(t[pos] == buf[pos]);
        if len != 0 {
            let next = pos + 1 + len;
            lemma_parse_labels_end(buf, next, used + 1 + len);
            if next <= k {
                assert(t.subrange(pos + 1, next) =~= buf.subrange(pos + 1, next));
                lemma_parse_labels_prefix(buf, next, used + 1 + len, k);
            }
        }
    }
}

/// A label of 63 bytes is accepted on both sides; one of 64 bytes is refused on both sides
/// with `InvalidLabelLength`.
pub proof fn lemma_label_length_boundary(label: Seq<u8>, rest: Seq<u8>)
    ensures
        label.len() == 63 ==> name_wire(seq![label]) == Ok::<Seq<u8>, DnsError>(
            seq![63u8] + label + seq![0u8],
        ),
        label.len() == 63 ==> parse_name(seq![63u8] + label + seq![0u8] + rest, 0) == Ok::<
            (Seq<Seq<u8>>, int),
            DnsError,
        >((seq![label], 65)),
        label.len() == 64 ==> name_wire(seq![label]) == Err::<Seq<u8>, DnsError>(DnsError::InvalidLabelLength),
        parse_name(seq![64u8] + rest, 0) == Err::<(Seq<Seq<u8>>, int), DnsError>(DnsError::InvalidLabelLength),
{
    let one = seq![label];
    assert(one.drop_first() =~= Seq::<Seq<u8>>::empty());
    assert((seq![64u8] + rest)[0] == 64u8);
    if label.len() == 63 {
        assert(labels_wire(one.drop_first(), 64) == Ok::<Seq<u8>, DnsError>(seq![0u8]));
        let buf = seq![63u8] + label + seq![0u8] + rest;
        assert(labels_len(one.drop_first()) == 0);
        assert(labels_len(one) == 64);
        lemma_labels_wire_ok(one, 0);
        assert(buf.subrange(0, 65) =~= seq![63u8] + label + seq![0u8]);
        lemma_name_round_trip(one, buf, 0);
    }
}

} // verus!
