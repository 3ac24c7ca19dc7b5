use vstd::prelude::*;

verus! {

/// Why a decode or an encode did not complete.
#[derive(Clone, Copy, Debug, PartialEq, Eq, Structural)]
pub enum DnsError {
    /// Fewer bytes remain than a field or section requires.
    BufferTooShort,
    /// A label length byte is outside 1..=63, or a label to encode is empty or longer than 63 bytes.
    InvalidLabelLength,
    /// The encoded name would exceed 255 bytes.
    NameTooLong,
    /// A section length or a record's data length does not fit its 16-bit wire field.
    CountMismatch,
}

/// The result of a decode step as the model sees it: the decoded value's view and the
/// cursor just past it.
pub open spec fn decoded<T: View>(r: Result<(T, usize), DnsError>) -> Result<(T::V, int), DnsError> {
    match r {
        Ok((v, end)) => Ok((v@, end as int)),
        Err(e) => Err(e),
    }
}

} // verus!
