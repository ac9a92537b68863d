use vstd::prelude::*;

verus! {

/// Errors raised while decoding records, frames and on-disk data.
#[derive(Debug, Clone)]
pub enum DeserializeError {
    /// The buffer ended before the announced data was available.
    UnexpectedEOF,
    /// A field that must be UTF-8 held bytes that are not.
    InvalidUtf8,
    /// The data is structurally malformed; the string says how.
    InvalidFormat(String),
    /// The requested offset lies in no retained segment.
    OffsetNotFound(u64),
}

/// Errors raised while decoding wire frames and request/response payloads.
#[derive(Debug, Clone)]
pub enum ProtocolError {
    /// The payload began with an opcode byte that names no operation.
    UnknownOpCode(u8),
    /// The buffered bytes do not yet hold a whole frame.
    IncompleteFrame,
    /// A request or response payload is malformed; the string says how.
    PayloadError(String),
    /// The frame type byte names no frame type.
    UnknownFrameType(u8),
    /// The payload checksum did not match the one carried by the frame.
    ChecksumMismatch { expected: u32, found: u32 },
    /// A record inside a payload failed to decode.
    MessageDeserializeError(DeserializeError),
    /// An engine error, carried to the protocol layer as text.
    EngineErrorMapped(String),
}

/// Errors surfaced by the log engine's operations.
#[derive(Debug, Clone)]
pub enum EngineError {
    /// The named topic does not exist.
    NoTopic,
    /// The topic exists but has no partition with the requested id.
    NoPartition,
    /// Stored data failed to decode.
    Deserialize(DeserializeError),
    /// Any other engine failure, described as text.
    Other(String),
}

impl DeserializeError {
    /// A short description, in place of a `Display` impl.
    pub fn describe(&self) -> String {
        match self {
            DeserializeError::UnexpectedEOF => "unexpected end of input".to_owned(),
            DeserializeError::InvalidUtf8 => "invalid UTF-8 in message".to_owned(),
            DeserializeError::InvalidFormat(s) => s.clone(),
            DeserializeError::OffsetNotFound(_) => "offset not found in any segment".to_owned(),
        }
    }
}

impl EngineError {
    /// A short description, in place of a `Display` impl.
    pub fn describe(&self) -> String {
        match self {
            EngineError::NoTopic => "topic does not exist".to_owned(),
            EngineError::NoPartition => "partition does not exist".to_owned(),
            EngineError::Deserialize(e) => e.describe(),
            EngineError::Other(s) => s.clone(),
        }
    }
}

} // verus!
