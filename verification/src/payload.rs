use vstd::prelude::*;

use crate::errors::ProtocolError;
use crate::op_code::{byte_op_code, is_op_code_byte, op_code_byte, OpCode};
use crate::wire::put_bytes;

verus! {

/// A frame payload: one opcode byte followed by the operation's data.
pub open spec fn payload_bytes(op: OpCode, data: Seq<u8>) -> Seq<u8> {
    seq![op_code_byte(op)] + data
}

/// The payload of a request frame.
#[derive(Debug)]
pub struct RequestPayload {
    pub op_code: OpCode,
    pub data: Vec<u8>,
}

/// The payload of a response frame.
#[derive(Debug)]
pub struct ResponsePayload {
    pub op_code: OpCode,
    pub data: Vec<u8>,
}

impl RequestPayload {
    /// The encoded payload: opcode byte, then the data.
    pub fn serialize(&self) -> (r: Vec<u8>)
        ensures
            r@ == payload_bytes(self.op_code, self.data@),
    {
        let mut buf: Vec<u8> = Vec::new();
        buf.push(self.op_code.to_byte());
        put_bytes(&mut buf, self.data.as_slice());
        proof {
            assert(buf@ =~= payload_bytes(self.op_code, self.data@));
        }
        buf
    }

    /// Splits a payload into its opcode and data. Fails on an empty buffer
    /// and on a byte that names no operation.
    pub fn deserialize(buf: &[u8]) -> (r: Result<RequestPayload, ProtocolError>)
        ensures
            r is Ok <==> buf@.len() >= 1 && is_op_code_byte(buf@[0]),
            r matches Ok(p) ==> p.op_code == byte_op_code(buf@[0]) && p.data@ == buf@.skip(1),
            r matches Err(e) ==> ((buf@.len() == 0 && e is PayloadError) || (buf@.len() >= 1
                && !is_op_code_byte(buf@[0]) && (e matches ProtocolError::UnknownOpCode(b) && b
                == buf@[0]))),
    {
        if buf.len() < 1 {
            return Err(ProtocolError::PayloadError("Empty request payload".to_owned()));
        }
        let op_code = match OpCode::try_from(buf[0]) {
            Ok(op) => op,
            Err(e) => {
                return Err(e);
            },
        };
        let data = vstd::slice::slice_to_vec(vstd::slice::slice_subrange(buf, 1, buf.len()));
        proof {
            assert(buf@.subrange(1, buf@.len() as int) =~= buf@.skip(1));
        }
        Ok(RequestPayload { op_code, data })
    }
}

impl ResponsePayload {
    /// The encoded payload: opcode byte, then the data.
    pub fn serialize(&self) -> (r: Vec<u8>)
        ensures
            r@ == payload_bytes(self.op_code, self.data@),
    {
        let mut buf: Vec<u8> = Vec::new();
        buf.push(self.op_code.to_byte());
        put_bytes(&mut buf, self.data.as_slice());
        proof {
            assert(buf@ =~= payload_bytes(self.op_code, self.data@));
        }
        buf
    }

    /// Splits a payload into its opcode and data. Fails on an empty buffer
    /// and on a byte that names no operation.
    pub fn deserialize(buf: &[u8]) -> (r: Result<ResponsePayload, ProtocolError>)
        ensures
            r is Ok <==> buf@.len() >= 1 && is_op_code_byte(buf@[0]),
            r matches Ok(p) ==> p.op_code == byte_op_code(buf@[0]) && p.data@ == buf@.skip(1),
            r matches Err(e) ==> ((buf@.len() == 0 && e is PayloadError) || (buf@.len() >= 1
                && !is_op_code_byte(buf@[0]) && (e matches ProtocolError::UnknownOpCode(b) && b
                == buf@[0]))),
    {
        if buf.len() < 1 {
            return Err(ProtocolError::PayloadError("Empty response payload".to_owned()));
        }
        let op_code = match OpCode::try_from(buf[0]) {
            Ok(op) => op,
            Err(e) => {
                return Err(e);
            },
        };
        let data = vstd::slice::slice_to_vec(vstd::slice::slice_subrange(buf, 1, buf.len()));
        proof {
            assert(buf@.subrange(1, buf@.len() as int) =~= buf@.skip(1));
        }
        Ok(ResponsePayload { op_code, data })
    }
}

} // verus!
