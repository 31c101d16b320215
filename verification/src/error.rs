use vstd::prelude::*;
use vstd::std_specs::convert::FromSpecImpl;

verus! {

/// Makes `std::io::Error` known as a type. Nothing is claimed of its values: the decoder
/// passes them on as they come.
#[verifier::external_type_specification]
#[verifier::external_body]
pub struct ExIoError(std::io::Error);

/// Where a byte sequence stops being UTF-8, and how long the offending sequence is.
#[derive(Debug, Clone, Copy, PartialEq, Eq)]
pub struct MalformedSequence {
    /// Index of the first offending byte among the bytes that were decoded together.
    pub valid_up_to: usize,
    /// Number of bytes, from that index on, that make up the offending sequence.
    pub error_len: usize,
}

/// Why a decoder stopped.
#[derive(Debug)]
pub enum DecodeError {
    /// The source ended inside a character; the bytes of its beginning are kept.
    IncompleteUtf8Sequence(Vec<u8>),
    /// The source delivered bytes that no continuation can turn into UTF-8.
    Utf8Error(MalformedSequence),
    /// Reading from the source failed.
    IOError(std::io::Error),
}

/// A `DecodeError` as contracts see it.
pub enum Fault {
    /// The bytes that began a character when the source ended.
    Incomplete(Seq<u8>),
    /// The index of the first offending byte.
    Malformed(nat),
    /// The failure that the source reported.
    Transport(std::io::Error),
}

impl View for DecodeError {
    type V = Fault;

    open spec fn view(&self) -> Fault {
        match *self {
            DecodeError::IncompleteUtf8Sequence(bytes) => Fault::Incomplete(bytes@),
            DecodeError::Utf8Error(malformed) => Fault::Malformed(malformed.valid_up_to as nat),
            DecodeError::IOError(error) => Fault::Transport(error),
        }
    }
}

impl From<MalformedSequence> for DecodeError {
    fn from(malformed: MalformedSequence) -> (error: DecodeError) {
        DecodeError::Utf8Error(malformed)
    }
}

impl FromSpecImpl<MalformedSequence> for DecodeError {
    open spec fn obeys_from_spec() -> bool {
        true
    }

    open spec fn from_spec(malformed: MalformedSequence) -> DecodeError {
        DecodeError::Utf8Error(malformed)
    }
}

impl From<std::io::Error> for DecodeError {
    fn from(failure: std::io::Error) -> (error: DecodeError) {
        DecodeError::IOError(failure)
    }
}

impl FromSpecImpl<std::io::Error> for DecodeError {
    open spec fn obeys_from_spec() -> bool {
        true
    }

    open spec fn from_spec(failure: std::io::Error) -> DecodeError {
        DecodeError::IOError(failure)
    }
}

} // verus!
