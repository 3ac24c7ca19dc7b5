use crate::error::{decoded, DnsError};
use byteorder::{BigEndian, ByteOrder};
use vstd::prelude::*;

verus! {

/// Bit `n` of `x`, counting from the least significant bit; false for `n >= 8`.
pub open spec fn bit_of(x: u8, n: u8) -> bool {
    n < 8 && (x >> n) & 1 == 1
}

/// `x` with bit `n` set to `value`; `x` itself for `n >= 8`.
pub open spec fn with_bit(x: u8, n: u8, value: bool) -> u8 {
    if n >= 8 {
        x
    } else if value {
        x | (1u8 << n)
    } else {
        x & !(1u8 << n)
    }
}

/// The integer that two bytes denote, most significant first.
pub open spec fn be16(hi: u8, lo: u8) -> int {
    hi as int * 256 + lo as int
}

/// The integer that four bytes denote, most significant first.
pub open spec fn be32(b0: u8, b1: u8, b2: u8, b3: u8) -> int {
    ((b0 as int * 256 + b1 as int) * 256 + b2 as int) * 256 + b3 as int
}

/// The two bytes of `n`, most significant first.
pub open spec fn be16_bytes(n: u16) -> Seq<u8> {
    seq![(n / 256) as u8, (n % 256) as u8]
}

/// The four bytes of `n`, most significant first.
pub open spec fn be32_bytes(n: u32) -> Seq<u8> {
    seq![(n / 0x100_0000) as u8, (n / 0x1_0000 % 256) as u8, (n / 256 % 256) as u8, (n % 256) as u8]
}

/// Reading a 16-bit big-endian integer at `pos`.
pub open spec fn parse_u16(buf: Seq<u8>, pos: int) -> Result<(u16, int), DnsError> {
    if 0 <= pos && pos + 2 <= buf.len() {
        Ok((be16(buf[pos], buf[pos + 1]) as u16, pos + 2))
    } else {
        Err(DnsError::BufferTooShort)
    }
}

/// Reading a 32-bit big-endian integer at `pos`.
pub open spec fn parse_u32(buf: Seq<u8>, pos: int) -> Result<(u32, int), DnsError> {
    if 0 <= pos && pos + 4 <= buf.len() {
        Ok((be32(buf[pos], buf[pos + 1], buf[pos + 2], buf[pos + 3]) as u32, pos + 4))
    } else {
        Err(DnsError::BufferTooShort)
    }
}

/// Whether bit `n` of `input` is set; bit 0 is the least significant.
pub fn get_bit_at(input: u8, n: u8) -> (r: bool)
    ensures
        r == bit_of(input, n),
{
    if n < 8 {
        assert((input & (1u8 << n) != 0) == ((input >> n) & 1 == 1)) by (bit_vector)
            requires
                n < 8,
        ;
        input & (1u8 << n) != 0
    } else {
        false
    }
}

/// `input` with bit `n` set to `value`; every other bit is kept.
pub fn set_bit_at(input: u8, n: u8, value: bool) -> (r: u8)
    ensures
        r == with_bit(input, n, value),
        forall|m: u8| m < 8 ==> #[trigger] bit_of(r, m) == if m == n { value } else { bit_of(input, m) },
{
    let r = if n < 8 && get_bit_at(input, n) != value {
        input ^ (1u8 << n)
    } else {
        input
    };
    assert(r == with_bit(input, n, value)) by {
        if n < 8 {
            let b = bit_of(input, n);
            assert(b != value ==> input ^ (1u8 << n) == with_bit(input, n, value)) by (bit_vector)
                requires
                    n < 8,
                    b == bit_of(input, n),
            ;
            assert(b == value ==> input == with_bit(input, n, value)) by (bit_vector)
                requires
                    n < 8,
                    b == bit_of(input, n),
            ;
        }
    }
    assert forall|m: u8| m < 8 implies #[trigger] bit_of(r, m) == if m == n { value } else { bit_of(input, m) } by {
        assert(m < 8 ==> bit_of(with_bit(input, n, value), m) == if m == n { value } else { bit_of(input, m) }) by (bit_vector);
    }
    r
}

/// Relies on byteorder's `BigEndian::read_u16`: the two bytes at the start of the slice
/// it is given, most significant first.
#[verifier::external_body]
fn be_u16_at(buf: &[u8], pos: usize) -> (r: u16)
    requires
        pos + 2 <= buf@.len(),
    ensures
        r as int == be16(buf@[pos as int], buf@[pos + 1]),
{
    BigEndian::read_u16(&buf[pos..])
}

/// Relies on byteorder's `BigEndian::read_u32`: the four bytes at the start of the slice
/// it is given, most significant first.
#[verifier::external_body]
fn be_u32_at(buf: &[u8], pos: usize) -> (r: u32)
    requires
        pos + 4 <= buf@.len(),
    ensures
        r as int == be32(buf@[pos as int], buf@[pos + 1], buf@[pos + 2], buf@[pos + 3]),
{
    BigEndian::read_u32(&buf[pos..])
}

/// Relies on byteorder's `BigEndian::write_u16`: it stores `n` into the first two bytes
/// of the slice, most significant first.
#[verifier::external_body]
fn u16_be_bytes(n: u16) -> (r: [u8; 2])
    ensures
        r@ == be16_bytes(n),
{
    let mut b = [0u8; 2];
    BigEndian::write_u16(&mut b, n);
    b
}

/// Relies on byteorder's `BigEndian::write_u32`: it stores `n` into the first four bytes
/// of the slice, most significant first.
#[verifier::external_body]
fn u32_be_bytes(n: u32) -> (r: [u8; 4])
    ensures
        r@ == be32_bytes(n),
{
    let mut b = [0u8; 4];
    BigEndian::write_u32(&mut b, n);
    b
}

/// Reads the big-endian 16-bit integer at `pos`, with the cursor past it.
pub fn read_u16_be(buf: &[u8], pos: usize) -> (r: Result<(u16, usize), DnsError>)
    ensures
        decoded(r) == parse_u16(buf@, pos as int),
{
    if buf.len() < 2 || pos > buf.len() - 2 {
        Err(DnsError::BufferTooShort)
    } else {
        let v = be_u16_at(buf, pos);
        Ok((v, pos + 2))
    }
}

/// Reads the big-endian 32-bit integer at `pos`, with the cursor past it.
pub fn read_u32_be(buf: &[u8], pos: usize) -> (r: Result<(u32, usize), DnsError>)
    ensures
        decoded(r) == parse_u32(buf@, pos as int),
{
    if buf.len() < 4 || pos > buf.len() - 4 {
        Err(DnsError::BufferTooShort)
    } else {
        let v = be_u32_at(buf, pos);
        Ok((v, pos + 4))
    }
}

/// Appends the two big-endian bytes of `n`.
pub fn write_u16_be(out: &mut Vec<u8>, n: u16)
    ensures
        final(out)@ == old(out)@ + be16_bytes(n),
{
    let b = u16_be_bytes(n);
    out.push(b[0]);
    out.push(b[1]);
    assert(final(out)@ =~= old(out)@ + be16_bytes(n));
}

/// Appends the four big-endian bytes of `n`.
pub fn write_u32_be(out: &mut Vec<u8>, n: u32)
    ensures
        final(out)@ == old(out)@ + be32_bytes(n),
{
    let b = u32_be_bytes(n);
    out.push(b[0]);
    out.push(b[1]);
    out.push(b[2]);
    out.push(b[3]);
    assert(final(out)@ =~= old(out)@ + be32_bytes(n));
}

/// Reading back the two bytes written for `n` gives `n`.
pub proof fn lemma_be16_round_trip(n: u16)
    ensures
        be16(be16_bytes(n)[0], be16_bytes(n)[1]) == n,
{
}

/// Reading back the four bytes written for `n` gives `n`.
pub proof fn lemma_be32_round_trip(n: u32)
    ensures
        be32(be32_bytes(n)[0], be32_bytes(n)[1], be32_bytes(n)[2], be32_bytes(n)[3]) == n,
{
}

/// Where `buf` holds `a + b` at `pos`, it holds `a` at `pos` and `b` right after it.
pub proof fn lemma_split_at(buf: Seq<u8>, pos: int, a: Seq<u8>, b: Seq<u8>)
    requires
        0 <= pos,
        pos + a.len() + b.len() <= buf.len(),
        buf.subrange(pos, pos + a.len() + b.len()) == a + b,
    ensures
        buf.subrange(pos, pos + a.len()) == a,
        buf.subrange(pos + a.len(), pos + a.len() + b.len()) == b,
{
    assert forall|j: int| 0 <= j < a.len() implies buf.subrange(pos, pos + a.len())[j] == a[j] by {
        assert(buf.subrange(pos, pos + a.len() + b.len())[j] == (a + b)[j]);
    }
    assert forall|j: int| 0 <= j < b.len() implies buf.subrange(pos + a.len(), pos + a.len() + b.len())[j]
        == b[j] by {
        assert(buf.subrange(pos, pos + a.len() + b.len())[a.len() + j] == (a + b)[a.len() + j]);
        assert((a + b)[a.len() + j] == b[j]);
        assert(buf.subrange(pos, pos + a.len() + b.len())[a.len() + j] == buf[pos + a.len() + j]);
    }
    assert(buf.subrange(pos, pos + a.len()) =~= a);
    assert(buf.subrange(pos + a.len(), pos + a.len() + b.len()) =~= b);
}

/// Reading a 16-bit integer where its wire form stands gives it back.
pub proof fn lemma_parse_u16_wire(n: u16, buf: Seq<u8>, pos: int)
    requires
        0 <= pos,
        pos + 2 <= buf.len(),
        buf.subrange(pos, pos + 2) == be16_bytes(n),
    ensures
        parse_u16(buf, pos) == Ok::<(u16, int), DnsError>((n, pos + 2)),
{
    assert(buf[pos] == buf.subrange(pos, pos + 2)[0]);
    assert(buf[pos + 1] == buf.subrange(pos, pos + 2)[1]);
    lemma_be16_round_trip(n);
}

/// Reading a 32-bit integer where its wire form stands gives it back.
pub proof fn lemma_parse_u32_wire(n: u32, buf: Seq<u8>, pos: int)
    requires
        0 <= pos,
        pos + 4 <= buf.len(),
        buf.subrange(pos, pos + 4) == be32_bytes(n),
    ensures
        parse_u32(buf, pos) == Ok::<(u32, int), DnsError>((n, pos + 4)),
{
    assert(buf[pos] == buf.subrange(pos, pos + 4)[0]);
    assert(buf[pos + 1] == buf.subrange(pos, pos + 4)[1]);
    assert(buf[pos + 2] == buf.subrange(pos, pos + 4)[2]);
    assert(buf[pos + 3] == buf.subrange(pos, pos + 4)[3]);
    lemma_be32_round_trip(n);
}

/// Reading a 16-bit integer from a prefix of a buffer that starts at or before `pos`: the
/// same result where the prefix holds both bytes, `BufferTooShort` where it does not.
pub proof fn lemma_parse_u16_prefix(buf: Seq<u8>, pos: int, k: int)
    requires
        parse_u16(buf, pos) is Ok,
        0 <= pos <= k <= buf.len(),
    ensures
        parse_u16(buf.take(k), pos) == if pos + 2 <= k {
            parse_u16(buf, pos)
        } else {
            Err(DnsError::BufferTooShort)
        },
        parse_u16(buf, pos)->Ok_0.1 == pos + 2,
{
}

/// Reading a 32-bit integer from a prefix of a buffer that starts at or before `pos`: the
/// same result where the prefix holds all four bytes, `BufferTooShort` where it does not.
pub proof fn lemma_parse_u32_prefix(buf: Seq<u8>, pos: int, k: int)
    requires
        parse_u32(buf, pos) is Ok,
        0 <= pos <= k <= buf.len(),
    ensures
        parse_u32(buf.take(k), pos) == if pos + 4 <= k {
            parse_u32(buf, pos)
        } else {
            Err(DnsError::BufferTooShort)
        },
        parse_u32(buf, pos)->Ok_0.1 == pos + 4,
{
}

} // verus!
