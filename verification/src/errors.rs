use vstd::prelude::*;

verus! {

/// What reading an item comes to where it gives none.
#[derive(Debug, Clone, Copy, PartialEq, Eq)]
pub enum Failure {
    /// The bytes end before the item does.
    Eof,
    /// A push of data in a script runs past the script's end.
    TooLong,
    /// A block starts with the magic number 0.
    MagicZero,
    /// The size of a push of data (`OP_PUSHDATA1`, `2` or `4`) is cut off
    /// by the end of its script, so that the count of bytes left in the
    /// script goes below zero: an arithmetic overflow, on which reading
    /// panics in a debug build.
    LengthUnderflow,
    /// A block starts with a magic number other than 0 and `BLOCK_MAGIC`,
    /// on which reading a block panics.
    BadMagic,
}

/// Why a transaction or a block could not be read.
#[derive(Debug, Clone, Copy, PartialEq, Eq)]
pub enum ParseError {
    /// The bytes end before the item does.
    UnexpectedEof,
    /// A script holds a push of data that runs past its end.
    ScriptTooLong,
    /// A block starts with the magic number 0 (the zero padding at the end
    /// of the last block file).
    MagicNumberZero,
}

/// Whether a reading on which it comes to `r` returns (rather than
/// panicking).
pub open spec fn reading_returns<T>(r: Result<T, Failure>) -> bool {
    !(r matches Err(Failure::LengthUnderflow)) && !(r matches Err(Failure::BadMagic))
}

/// The error that a failure which reading returns from is reported as.
pub open spec fn error_of(f: Failure) -> ParseError {
    match f {
        Failure::Eof => ParseError::UnexpectedEof,
        Failure::TooLong => ParseError::ScriptTooLong,
        _ => ParseError::MagicNumberZero,
    }
}

/// `error_of`, for a failure that reading returns from.
pub fn to_parse_error(f: Failure) -> (e: ParseError)
    requires
        f != Failure::LengthUnderflow,
        f != Failure::BadMagic,
    ensures
        e == error_of(f),
{
    match f {
        Failure::Eof => ParseError::UnexpectedEof,
        Failure::TooLong => ParseError::ScriptTooLong,
        _ => ParseError::MagicNumberZero,
    }
}

} // verus!
