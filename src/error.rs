use vstd::prelude::*;

verus! {

/// What can go wrong while encoding or decoding a stream.
#[derive(Debug)]
pub enum Error {
    /// Malformed framing, undecodable text, or an envelope that fails to open.
    InvalidInput,
    /// Unsupported version, bad part metadata, incomplete fragment set, or a bad option value.
    ValueValidation,
    /// The payload does not fit into the largest allowed number of parts.
    Usage,
    /// A storage or transport failure, with its description.
    Io(String),
    /// The cipher refused to seal the payload.
    Crypto,
    /// A QR symbol could not be built for a reason other than its capacity.
    Symbol,
}

/// Builds an `Io` error carrying `message`.
pub fn io_error(message: &str) -> (e: Error)
    ensures
        e matches Error::Io(m) && m@ == message@,
{
    Error::Io(message.to_owned())
}

impl Error {
    /// A one-line description of the error kind.
    pub fn describe(&self) -> &'static str {
        match self {
            Error::InvalidInput => "invalid input",
            Error::ValueValidation => "invalid value",
            Error::Usage => "data too large to encode",
            Error::Io(_) => "i/o failure",
            Error::Crypto => "encryption failure",
            Error::Symbol => "qr symbol could not be built",
        }
    }
}

} // verus!
