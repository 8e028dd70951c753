use vstd::prelude::*;

verus! {

#[verifier::external_type_specification]
#[verifier::external_body]
pub struct ExIoError(std::io::Error);

#[verifier::external_type_specification]
#[verifier::external_body]
pub struct ExFromUtf8Error(std::string::FromUtf8Error);

/// Why a document could not be decoded. Every failure aborts the whole parse.
#[derive(Debug)]
pub enum NbtReadError {
    /// Fewer bytes were available than a field required.
    UnexpectedEof,
    /// A tag-type byte outside the twelve known codes.
    UnknownTagType(u8),
    /// A structurally invalid tag: a non-empty list of End, or End where a
    /// value is expected.
    InvalidTagType,
    /// The byte source failed for a reason other than running out of input.
    IoError(std::io::Error),
    /// String bytes that are not valid UTF-8.
    InvalidUtf8(std::string::FromUtf8Error),
}

/// The kinds of failure, as plain values.
pub enum Fault {
    Eof,
    UnknownTag(u8),
    InvalidTag,
    Transport,
    Utf8,
}

impl NbtReadError {
    /// The kind of this failure.
    pub open spec fn fault(&self) -> Fault {
        match self {
            NbtReadError::UnexpectedEof => Fault::Eof,
            NbtReadError::UnknownTagType(t) => Fault::UnknownTag(*t),
            NbtReadError::InvalidTagType => Fault::InvalidTag,
            NbtReadError::IoError(_) => Fault::Transport,
            NbtReadError::InvalidUtf8(_) => Fault::Utf8,
        }
    }
}

} // verus!
