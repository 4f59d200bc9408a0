//! Why a decoding stopped.

use vstd::prelude::*;

verus! {

/// The broad class of a [`DecodeError`].
#[derive(Clone, Copy, Debug, PartialEq, Eq, Structural)]
pub enum ErrorKind {
    /// The input ended inside a group that no padding closed.
    UnexpectedEof,
    /// The input holds something that no alphabet can decode.
    InvalidData,
}

/// The reason for which a decoding was given up.
#[derive(Clone, Copy, Debug, PartialEq, Eq, Structural)]
pub enum DecodeError {
    /// The number of scalars is no multiple of four and the last one read
    /// is no padding.
    UnexpectedEof,
    /// The scalar belongs to neither alphabet, or only to the one that was
    /// left behind.
    InvalidCharacter(char),
    /// The input is not UTF-8.
    InvalidUtf8,
    /// The decoded bytes are not UTF-8, where a text was asked for.
    InvalidText,
}

impl DecodeError {
    /// The class of this error.
    pub open spec fn spec_kind(self) -> ErrorKind {
        match self {
            DecodeError::UnexpectedEof => ErrorKind::UnexpectedEof,
            DecodeError::InvalidCharacter(_) => ErrorKind::InvalidData,
            DecodeError::InvalidUtf8 => ErrorKind::InvalidData,
            DecodeError::InvalidText => ErrorKind::InvalidData,
        }
    }

    /// The class of this error.
    #[verifier::when_used_as_spec(spec_kind)]
    pub fn kind(self) -> (k: ErrorKind)
        ensures
            k == self.spec_kind(),
    {
        match self {
            DecodeError::UnexpectedEof => ErrorKind::UnexpectedEof,
            DecodeError::InvalidCharacter(_) => ErrorKind::InvalidData,
            DecodeError::InvalidUtf8 => ErrorKind::InvalidData,
            DecodeError::InvalidText => ErrorKind::InvalidData,
        }
    }
}

} // verus!
