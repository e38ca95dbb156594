//! The failures the reader reports.

use vstd::prelude::*;

verus! {

/// The four classes of failure.
#[derive(Clone, Copy, Debug, PartialEq, Eq, Structural)]
pub enum ErrorKind {
    /// The bytes at a block's offset are not a well-formed BGZF block.
    Format,
    /// The byte source ended before a read was filled.
    Io,
    /// A block did not decompress to its declared length.
    Decode,
    /// The request does not fit the destination buffer.
    Bounds,
}

/// Why an operation failed.
#[derive(Clone, Copy, Debug, PartialEq, Eq, Structural)]
pub enum Error {
    /// The first four header bytes are not the gzip magic, the deflate
    /// method and the extra-field flag.
    IncorrectHeader,
    /// The extra field does not start with the `BC` subfield identifier.
    BadSubfieldIdentifier,
    /// The `BC` subfield does not declare two bytes of data, or does not fit
    /// the extra field.
    BadSubfieldLength,
    /// The declared block size leaves no room for the header and footer.
    BadBlockSize,
    /// The byte source ended before a read was filled.
    UnexpectedEof,
    /// A block did not decompress to its declared length.
    NotFullyDecompressed,
    /// Bytes were requested for a destination buffer of length zero.
    EmptyBuffer,
    /// The requested window does not lie within the destination buffer.
    IndexOutOfBound,
}

impl Error {
    /// The class this failure belongs to.
    pub open spec fn spec_kind(self) -> ErrorKind {
        match self {
            Error::IncorrectHeader => ErrorKind::Format,
            Error::BadSubfieldIdentifier => ErrorKind::Format,
            Error::BadSubfieldLength => ErrorKind::Format,
            Error::BadBlockSize => ErrorKind::Format,
            Error::UnexpectedEof => ErrorKind::Io,
            Error::NotFullyDecompressed => ErrorKind::Decode,
            Error::EmptyBuffer => ErrorKind::Bounds,
            Error::IndexOutOfBound => ErrorKind::Bounds,
        }
    }

    /// The text that describes this failure.
    pub open spec fn message(self) -> Seq<char> {
        match self {
            Error::IncorrectHeader => "Incorrect header"@,
            Error::BadSubfieldIdentifier => "Bad subfield Identifier"@,
            Error::BadSubfieldLength => "Bad subfield Length"@,
            Error::BadBlockSize => "Bad block size"@,
            Error::UnexpectedEof => "failed to fill whole buffer"@,
            Error::NotFullyDecompressed => "Did not fully de-compress"@,
            Error::EmptyBuffer => "Buffer size needs to be greater than 0"@,
            Error::IndexOutOfBound => "Index out of bound exception"@,
        }
    }

    /// The class this failure belongs to.
    #[verifier::when_used_as_spec(spec_kind)]
    pub fn kind(self) -> (k: ErrorKind)
        ensures
            k == self.spec_kind(),
    {
        match self {
            Error::IncorrectHeader => ErrorKind::Format,
            Error::BadSubfieldIdentifier => ErrorKind::Format,
            Error::BadSubfieldLength => ErrorKind::Format,
            Error::BadBlockSize => ErrorKind::Format,
            Error::UnexpectedEof => ErrorKind::Io,
            Error::NotFullyDecompressed => ErrorKind::Decode,
            Error::EmptyBuffer => ErrorKind::Bounds,
            Error::IndexOutOfBound => ErrorKind::Bounds,
        }
    }

    /// This failure as a message-carrying error value.
    pub fn describe(self) -> (e: BGZFError)
        ensures
            e@ == self.message(),
    {
        match self {
            Error::IncorrectHeader => BGZFError::new("Incorrect header"),
            Error::BadSubfieldIdentifier => BGZFError::new("Bad subfield Identifier"),
            Error::BadSubfieldLength => BGZFError::new("Bad subfield Length"),
            Error::BadBlockSize => BGZFError::new("Bad block size"),
            Error::UnexpectedEof => BGZFError::new("failed to fill whole buffer"),
            Error::NotFullyDecompressed => BGZFError::new("Did not fully de-compress"),
            Error::EmptyBuffer => BGZFError::new("Buffer size needs to be greater than 0"),
            Error::IndexOutOfBound => BGZFError::new("Index out of bound exception"),
        }
    }
}

/// A failure in the form of its message.
#[derive(Debug)]
pub struct BGZFError {
    msg: String,
}

impl View for BGZFError {
    type V = Seq<char>;

    closed spec fn view(&self) -> Seq<char> {
        self.msg@
    }
}

impl BGZFError {
    /// An error that carries `msg`.
    pub fn new(msg: &str) -> (e: BGZFError)
        ensures
            e@ == msg@,
    {
        BGZFError { msg: msg.to_owned() }
    }

    /// The message this error was made with.
    pub fn description(&self) -> (s: &str)
        ensures
            s@ == self@,
    {
        self.msg.as_str()
    }
}

} // verus!
