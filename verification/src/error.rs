//! Errors reported while reading a stream.

use vstd::prelude::*;

verus! {

/// Why a stream could not be read.
#[derive(Debug, Clone, PartialEq, Eq)]
pub enum Error {
    /// The stream does not start with the expected magic bytes.
    BadMagic,
    /// The stream header declares a format version this build cannot read.
    UnsupportedVersion(u8),
    /// The stream ended in the middle of a header, frame, or payload.
    Truncated,
    /// A block declared a mode ID this build does not implement.
    UnknownMode(u8),
    /// A payload was malformed for its declared mode.
    CorruptPayload(&'static str),
    /// The decoded value count did not match the header.
    LengthMismatch { expected: usize, got: usize },
    /// The header declares a column type this build does not implement.
    UnsupportedDType(u8),
    /// A type-specific decompress was called on a stream holding a different
    /// column type.
    DTypeMismatch,
    /// The Arrow adapter was given an array of a type it does not support yet.
    UnsupportedArrowType,
}

/// The result of a decoder with its list taken as a sequence.
pub open spec fn viewed<T>(r: Result<Vec<T>, Error>) -> Result<Seq<T>, Error> {
    match r {
        Ok(v) => Ok(v@),
        Err(e) => Err(e),
    }
}

/// The decimal digit `d`.
pub open spec fn digit_text(d: nat) -> Seq<char> {
    if d == 0 {
        "0"@
    } else if d == 1 {
        "1"@
    } else if d == 2 {
        "2"@
    } else if d == 3 {
        "3"@
    } else if d == 4 {
        "4"@
    } else if d == 5 {
        "5"@
    } else if d == 6 {
        "6"@
    } else if d == 7 {
        "7"@
    } else if d == 8 {
        "8"@
    } else {
        "9"@
    }
}

/// `n` in decimal.
pub open spec fn decimal_text(n: nat) -> Seq<char>
    decreases n,
{
    if n < 10 {
        digit_text(n)
    } else {
        decimal_text(n / 10) + digit_text(n % 10)
    }
}

fn digit(d: usize) -> (s: &'static str)
    requires
        d < 10,
    ensures
        s@ == digit_text(d as nat),
{
    if d == 0 {
        "0"
    } else if d == 1 {
        "1"
    } else if d == 2 {
        "2"
    } else if d == 3 {
        "3"
    } else if d == 4 {
        "4"
    } else if d == 5 {
        "5"
    } else if d == 6 {
        "6"
    } else if d == 7 {
        "7"
    } else if d == 8 {
        "8"
    } else {
        "9"
    }
}

/// Append `n` in decimal.
fn append_decimal(s: &mut String, n: usize)
    ensures
        final(s)@ == old(s)@ + decimal_text(n as nat),
    decreases n,
{
    if n < 10 {
        s.append(digit(n));
    } else {
        append_decimal(s, n / 10);
        s.append(digit(n % 10));
        assert(s@ =~= old(s)@ + decimal_text(n as nat));
    }
}

/// `front`, then `n` in decimal.
fn numbered(front: &str, n: usize) -> (s: String)
    ensures
        s@ == front@ + decimal_text(n as nat),
{
    let mut s = front.to_owned();
    append_decimal(&mut s, n);
    s
}

impl Error {
    /// The message for a reader.
    pub open spec fn text(self) -> Seq<char> {
        match self {
            Error::BadMagic => "bad magic: not an quoin stream"@,
            Error::UnsupportedVersion(v) => "unsupported format version "@ + decimal_text(v as nat),
            Error::Truncated => "truncated stream"@,
            Error::UnknownMode(m) => "unknown block mode "@ + decimal_text(m as nat),
            Error::CorruptPayload(w) => "corrupt payload: "@ + w@,
            Error::LengthMismatch { expected, got } => "length mismatch: expected "@ + decimal_text(
                expected as nat,
            ) + " values, decoded "@ + decimal_text(got as nat),
            Error::UnsupportedDType(d) => "unsupported column type id "@ + decimal_text(d as nat),
            Error::DTypeMismatch => "stream column type does not match the requested type"@,
            Error::UnsupportedArrowType => "unsupported Arrow array type"@,
        }
    }

    /// The message for a reader.
    pub fn message(&self) -> (s: String)
        ensures
            s@ == self.text(),
    {
        match self {
            Error::BadMagic => "bad magic: not an quoin stream".to_owned(),
            Error::UnsupportedVersion(v) => numbered("unsupported format version ", *v as usize),
            Error::Truncated => "truncated stream".to_owned(),
            Error::UnknownMode(m) => numbered("unknown block mode ", *m as usize),
            Error::CorruptPayload(w) => {
                let mut s = "corrupt payload: ".to_owned();
                s.append(w);
                s
            },
            Error::LengthMismatch { expected, got } => {
                let mut s = numbered("length mismatch: expected ", *expected);
                s.append(" values, decoded ");
                append_decimal(&mut s, *got);
                s
            },
            Error::UnsupportedDType(d) => numbered("unsupported column type id ", *d as usize),
            Error::DTypeMismatch => "stream column type does not match the requested type".to_owned(),
            Error::UnsupportedArrowType => "unsupported Arrow array type".to_owned(),
        }
    }
}

} // verus!
