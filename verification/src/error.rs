use vstd::prelude::*;

verus! {

/// The errors that operations on bytes objects raise, each with the
/// Python exception class that carries it (see [`BytesError::exception_name`]).
#[derive(Debug, Clone, Copy, PartialEq, Eq, Structural)]
pub enum BytesError {
    /// `ValueError`: a searched subsequence does not occur.
    SubstringNotFound,
    /// `OverflowError`: a repetition would be longer than `isize::MAX`.
    RepeatedTooLong,
    /// `OverflowError`: a result would be longer than `isize::MAX`.
    ResultTooLong,
    /// `OverflowError`: `__sizeof__` does not fit in a machine word.
    SizeTooLarge,
    /// `ValueError`: an integer that should be a byte lies outside `range(0, 256)`.
    ByteOutOfRange,
    /// `IndexError`: a subscript lies outside the object.
    IndexOutOfRange,
    /// `ValueError`: a slice has step zero.
    SliceStepZero,
    /// `ValueError`: a separator is empty.
    EmptySeparator,
    /// `ValueError`: a negative count was given for a new object.
    NegativeCount,
    /// `ValueError`: a translation table is not 256 bytes long.
    TranslationTableLength,
    /// `ValueError`: the two arguments of `maketrans` differ in length.
    MaketransLength,
    /// `TypeError`: a fill character is not a single byte.
    FillCharLength,
    /// `ValueError`: `fromhex` met a character that is not a hex digit, at this position.
    NonHexadecimal(usize),
    /// `TypeError`: a text argument came without an encoding.
    StringWithoutEncoding,
    /// `TypeError`: an encoding came without a text argument.
    EncodingWithoutString,
    /// `LookupError`: the codec is not known.
    UnknownEncoding,
    /// `LookupError`: the error handler is not known.
    UnknownErrorHandler,
    /// `UnicodeDecodeError`: the byte at this position cannot be decoded.
    DecodeError(usize),
    /// `UnicodeEncodeError`: the character at this position cannot be encoded.
    EncodeError(usize),
}

/// The Python exception classes that errors of bytes objects belong to.
#[derive(Debug, Clone, Copy, PartialEq, Eq, Structural)]
pub enum ExceptionKind {
    ValueError,
    OverflowError,
    IndexError,
    TypeError,
    LookupError,
    UnicodeDecodeError,
    UnicodeEncodeError,
}

/// The exception class of each error.
pub open spec fn spec_exception_kind(e: BytesError) -> ExceptionKind {
    match e {
        BytesError::SubstringNotFound => ExceptionKind::ValueError,
        BytesError::RepeatedTooLong => ExceptionKind::OverflowError,
        BytesError::ResultTooLong => ExceptionKind::OverflowError,
        BytesError::SizeTooLarge => ExceptionKind::OverflowError,
        BytesError::ByteOutOfRange => ExceptionKind::ValueError,
        BytesError::IndexOutOfRange => ExceptionKind::IndexError,
        BytesError::SliceStepZero => ExceptionKind::ValueError,
        BytesError::EmptySeparator => ExceptionKind::ValueError,
        BytesError::NegativeCount => ExceptionKind::ValueError,
        BytesError::TranslationTableLength => ExceptionKind::ValueError,
        BytesError::MaketransLength => ExceptionKind::ValueError,
        BytesError::FillCharLength => ExceptionKind::TypeError,
        BytesError::NonHexadecimal(_) => ExceptionKind::ValueError,
        BytesError::StringWithoutEncoding => ExceptionKind::TypeError,
        BytesError::EncodingWithoutString => ExceptionKind::TypeError,
        BytesError::UnknownEncoding => ExceptionKind::LookupError,
        BytesError::UnknownErrorHandler => ExceptionKind::LookupError,
        BytesError::DecodeError(_) => ExceptionKind::UnicodeDecodeError,
        BytesError::EncodeError(_) => ExceptionKind::UnicodeEncodeError,
    }
}

impl BytesError {
    /// The Python exception class that carries this error.
    pub fn kind(&self) -> (k: ExceptionKind)
        ensures
            k == spec_exception_kind(*self),
    {
        match self {
            BytesError::SubstringNotFound => ExceptionKind::ValueError,
            BytesError::RepeatedTooLong => ExceptionKind::OverflowError,
            BytesError::ResultTooLong => ExceptionKind::OverflowError,
            BytesError::SizeTooLarge => ExceptionKind::OverflowError,
            BytesError::ByteOutOfRange => ExceptionKind::ValueError,
            BytesError::IndexOutOfRange => ExceptionKind::IndexError,
            BytesError::SliceStepZero => ExceptionKind::ValueError,
            BytesError::EmptySeparator => ExceptionKind::ValueError,
            BytesError::NegativeCount => ExceptionKind::ValueError,
            BytesError::TranslationTableLength => ExceptionKind::ValueError,
            BytesError::MaketransLength => ExceptionKind::ValueError,
            BytesError::FillCharLength => ExceptionKind::TypeError,
            BytesError::NonHexadecimal(_) => ExceptionKind::ValueError,
            BytesError::StringWithoutEncoding => ExceptionKind::TypeError,
            BytesError::EncodingWithoutString => ExceptionKind::TypeError,
            BytesError::UnknownEncoding => ExceptionKind::LookupError,
            BytesError::UnknownErrorHandler => ExceptionKind::LookupError,
            BytesError::DecodeError(_) => ExceptionKind::UnicodeDecodeError,
            BytesError::EncodeError(_) => ExceptionKind::UnicodeEncodeError,
            }
    }
}

} // verus!
