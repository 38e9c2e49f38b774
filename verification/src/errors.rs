//! What can go wrong while opening or reading a recording.

use vstd::prelude::*;

verus! {

/// The failures of opening and reading a recording.
#[derive(Debug, Clone, PartialEq, Eq)]
pub enum Error {
    /// The byte source could not be read.
    Io,
    /// The leading version line is not the supported one.
    InvalidFormat,
    /// A record's lengths or fields are inconsistent.
    MalformedRecord,
    /// A chunk names a compression codec that is not known.
    UnsupportedCompression(String),
    /// A chunk's payload does not decompress to its declared length.
    DecompressionError,
    /// The trailing index is absent or declared empty.
    MissingIndex,
}

/// The mathematical counterpart of [`Error`].
pub enum Fault {
    Io,
    InvalidFormat,
    MalformedRecord,
    UnsupportedCompression(Seq<char>),
    DecompressionError,
    MissingIndex,
}

impl View for Error {
    type V = Fault;

    open spec fn view(&self) -> Fault {
        match self {
            Error::Io => Fault::Io,
            Error::InvalidFormat => Fault::InvalidFormat,
            Error::MalformedRecord => Fault::MalformedRecord,
            Error::UnsupportedCompression(name) => Fault::UnsupportedCompression(name@),
            Error::DecompressionError => Fault::DecompressionError,
            Error::MissingIndex => Fault::MissingIndex,
        }
    }
}

impl Error {
    /// A short description of the failure, for reports.
    pub fn message(&self) -> (r: String)
        ensures
            r@ == match self@ {
                Fault::Io => "the byte source could not be read"@,
                Fault::InvalidFormat => "not a version 2.0 recording"@,
                Fault::MalformedRecord => "malformed record"@,
                Fault::UnsupportedCompression(name) => "unsupported compression: "@ + name,
                Fault::DecompressionError => "chunk does not decompress to its declared size"@,
                Fault::MissingIndex => "the recording has no index"@,
            },
    {
        match self {
            Error::Io => "the byte source could not be read".to_owned(),
            Error::InvalidFormat => "not a version 2.0 recording".to_owned(),
            Error::MalformedRecord => "malformed record".to_owned(),
            Error::UnsupportedCompression(name) => {
                let head: String = "unsupported compression: ".to_owned();
                head.concat(name.as_str())
            },
            Error::DecompressionError => "chunk does not decompress to its declared size".to_owned(),
            Error::MissingIndex => "the recording has no index".to_owned(),
        }
    }
}

} // verus!
