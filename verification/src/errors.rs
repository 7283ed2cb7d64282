//! Error taxonomy of the transport.

use vstd::prelude::*;

verus! {

/// Error while decoding a sequence of bytes into a msgpack-rpc message.
#[derive(Clone, Debug, PartialEq, Eq, Structural)]
pub enum DecodeError {
    /// Some bytes are missing to decode a full msgpack value. Recovered
    /// locally by waiting for more input; never surfaced to a caller.
    Truncated,
    /// A byte sequence could not be decoded as a msgpack value, or this value
    /// is not a valid msgpack-rpc message. Fatal to the owning connection.
    Invalid,
    /// An unknown I/O error while reading a byte sequence. The codec itself
    /// never produces this; the I/O shell wraps read failures with it.
    UnknownIo,
}

impl DecodeError {
    /// A short diagnostic for each variant.
    pub fn description(&self) -> (r: &'static str)
        ensures
            r@ == self.description_spec(),
    {
        match self {
            DecodeError::Truncated => "could not read enough bytes to decode a complete message",
            DecodeError::UnknownIo => "Unknown IO error while decoding a message",
            DecodeError::Invalid => "the byte sequence is not a valid msgpack-rpc message",
        }
    }

    pub open spec fn description_spec(&self) -> Seq<char> {
        match self {
            DecodeError::Truncated => "could not read enough bytes to decode a complete message"@,
            DecodeError::UnknownIo => "Unknown IO error while decoding a message"@,
            DecodeError::Invalid => "the byte sequence is not a valid msgpack-rpc message"@,
        }
    }
}

/// A transport-level failure: the connection was refused, reset or closed.
/// Every pending call on a torn-down connection resolves with one of these.
#[derive(Clone, Copy, Debug, PartialEq, Eq, Structural)]
pub enum NetworkError {
    /// The completion channel of a call was closed before a response arrived.
    Recv,
    /// An underlying I/O failure.
    Io,
}

} // verus!
