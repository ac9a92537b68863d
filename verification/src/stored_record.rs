use vstd::prelude::*;

use crate::errors::DeserializeError;
use crate::message::{
    msg_fits, parse_record_body, record_body_bytes, Message, MessageView, RecordParseError,
};
use crate::wire::u32_be_bytes;

verus! {

/// A stored record as it lies in a log file: a four-byte length prefix
/// covering everything after itself, then the record body.
pub open spec fn framed_record_bytes(m: MessageView, offset: u64) -> Seq<u8> {
    u32_be_bytes(record_body_bytes(m, offset).len() as u32) + record_body_bytes(m, offset)
}

/// A message paired with the absolute partition offset it was stored at:
/// the unit written to disk.
#[derive(Debug)]
pub struct StoredRecord {
    pub offset: u64,
    pub message: Message,
}

impl StoredRecord {
    /// Serialises the record for disk: length prefix, offset, message body.
    pub fn serialize(&self) -> (r: Vec<u8>)
        requires
            msg_fits(self.message@),
        ensures
            r@ == framed_record_bytes(self.message@, self.offset),
    {
        self.message.serialize_for_disk(self.offset)
    }

    /// Parses a record body (no length prefix): the offset, then the
    /// message. Behaves exactly as [`parse_record_body`] on the buffer.
    pub fn deserialize(buf: &[u8]) -> (r: Result<StoredRecord, DeserializeError>)
        ensures
            r matches Ok(sr) ==> (parse_record_body(buf@) matches Ok(t) && t.0 == sr.offset && t.1
                == sr.message@),
            r matches Err(e) ==> (parse_record_body(buf@) matches Err(pe) && ((pe
                == RecordParseError::Eof && e is UnexpectedEOF) || (pe == RecordParseError::Utf8
                && e is InvalidUtf8))),
            r is Ok <==> parse_record_body(buf@) is Ok,
    {
        match Message::deserialize(buf) {
            Ok((offset, message)) => Ok(StoredRecord { offset, message }),
            Err(e) => Err(e),
        }
    }
}

} // verus!
