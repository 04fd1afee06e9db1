//! Error types of the decoder and the encoder.

use vstd::prelude::*;

verus! {

/// Why a byte string was rejected by a decoder.
#[derive(Clone, Copy, Debug, PartialEq, Eq)]
pub enum DecodeError {
    /// The tag at the current position is not the expected one, or, for a CHOICE,
    /// none of the alternatives.
    TagMismatch,
    /// The length octets are not a valid DER definite length, the declared length
    /// runs past the bytes that are available, or the fields of a constructed value
    /// do not fill its declared length exactly.
    LengthMismatch,
    /// The input is exhausted at the position where a mandatory field must start.
    MissingField,
    /// An optional attribute set is present but holds no element.
    EmptyOptionalCollection,
    /// Bytes remain after a complete record where none are expected.
    TrailingData,
    /// A correctly framed element holds contents that are not a value of its type.
    MalformedElement,
}

/// Why a value was not encoded.
#[derive(Clone, Copy, Debug, PartialEq, Eq)]
pub enum EncodeError {
    /// A value to be framed is longer than `MAX_LENGTH` bytes, so that its length does
    /// not fit in the length octets that the codec writes.
    Overflow,
    /// An optional attribute set is present but holds no element.
    EmptyOptionalCollection,
}

/// The result `r` of reading a value from the front of some input is what the model
/// `m` says: the same value and the same number of bytes taken, or the same error.
pub open spec fn parsed_as<T: View>(
    r: Result<(T, usize), DecodeError>,
    m: Result<(T::V, nat), DecodeError>,
) -> bool {
    match r {
        Ok((value, used)) => m == Ok::<(T::V, nat), DecodeError>((value@, used as nat)),
        Err(e) => m == Err::<(T::V, nat), DecodeError>(e),
    }
}

/// The result `r` of decoding a whole input is what the model `m` says: the same
/// value, or the same error.
pub open spec fn decoded_as<T: View>(
    r: Result<T, DecodeError>,
    m: Result<T::V, DecodeError>,
) -> bool {
    match r {
        Ok(value) => m == Ok::<T::V, DecodeError>(value@),
        Err(e) => m == Err::<T::V, DecodeError>(e),
    }
}

} // verus!
