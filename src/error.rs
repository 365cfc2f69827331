use vstd::prelude::*;

verus! {

/// `std::io::Error` travels through the library unchanged inside the
/// transport variants; nothing here looks inside it.
#[verifier::external_type_specification]
#[verifier::external_body]
pub struct ExIoError(std::io::Error);

/// Every way an operation of this client can fail.
#[derive(Debug)]
pub enum ClamAVClientError {
    /// The stream to the daemon could not be opened, or a command could not be sent.
    UnableToConnect(std::io::Error),
    /// The socket address could not be resolved.
    InvalidSocketAddress(std::io::Error),
    /// The daemon's reply was not valid UTF-8.
    InvalidUTf8(std::io::Error),
    /// The reply is text but not a scan reply; it holds the text.
    UnableToParseResponse(String),
    /// Writing to the stream failed.
    UnableToWriteToStream(std::io::Error),
    /// Reading the data to scan failed.
    UnableToReadSource(std::io::Error),
    /// A chunk size of zero, or one whose length prefix would not fit in 32 bits.
    InvalidChunkSize(usize),
}

} // verus!
