use vstd::prelude::*;

verus! {

/// Conditions that end a connection.
#[derive(Clone, Copy, Debug, PartialEq, Eq, Structural)]
pub enum WsError {
    /// The handshake request has no `Sec-WebSocket-Key` header.
    MissingHeader,
    /// The bytes end before the frame they start is complete.
    StreamTruncated,
    /// A frame field holds a value that the wire format does not define.
    ProtocolViolation,
    /// A received message is not valid UTF-8 text.
    EncodingViolation,
}

} // verus!
