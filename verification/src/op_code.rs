use vstd::prelude::*;

use crate::errors::ProtocolError;

verus! {

/// The operations the wire protocol exposes, each named by one payload byte.
#[derive(Debug, Clone, Copy, Eq, PartialEq, Structural)]
pub enum OpCode {
    Produce,
    Consume,
    ConsumeWithGroup,
    CommitOffset,
    Watermark,
    GetConsumerLag,
    GetPartitionHealth,
}

/// The byte that names each operation on the wire.
pub open spec fn op_code_byte(op: OpCode) -> u8 {
    match op {
        OpCode::Produce => 1,
        OpCode::Consume => 2,
        OpCode::ConsumeWithGroup => 3,
        OpCode::CommitOffset => 4,
        OpCode::Watermark => 5,
        OpCode::GetConsumerLag => 13,
        OpCode::GetPartitionHealth => 14,
    }
}

/// True when a byte names an operation.
pub open spec fn is_op_code_byte(b: u8) -> bool {
    1 <= b <= 5 || b == 13 || b == 14
}

/// The operation a byte names, for bytes that name one.
pub open spec fn byte_op_code(b: u8) -> OpCode
    recommends
        is_op_code_byte(b),
{
    if b == 1 {
        OpCode::Produce
    } else if b == 2 {
        OpCode::Consume
    } else if b == 3 {
        OpCode::ConsumeWithGroup
    } else if b == 4 {
        OpCode::CommitOffset
    } else if b == 5 {
        OpCode::Watermark
    } else if b == 13 {
        OpCode::GetConsumerLag
    } else {
        OpCode::GetPartitionHealth
    }
}

impl OpCode {
    /// The wire byte for this operation.
    pub fn to_byte(&self) -> (r: u8)
        ensures
            r == op_code_byte(*self),
    {
        match self {
            OpCode::Produce => 1,
            OpCode::Consume => 2,
            OpCode::ConsumeWithGroup => 3,
            OpCode::CommitOffset => 4,
            OpCode::Watermark => 5,
            OpCode::GetConsumerLag => 13,
            OpCode::GetPartitionHealth => 14,
        }
    }

    /// The operation a wire byte names; any other byte is refused.
    pub fn try_from(value: u8) -> (r: Result<OpCode, ProtocolError>)
        ensures
            r is Ok <==> is_op_code_byte(value),
            r matches Ok(op) ==> op == byte_op_code(value) && op_code_byte(op) == value,
            r matches Err(e) ==> e matches ProtocolError::UnknownOpCode(b) && b == value,
    {
        match value {
            1 => Ok(OpCode::Produce),
            2 => Ok(OpCode::Consume),
            3 => Ok(OpCode::ConsumeWithGroup),
            4 => Ok(OpCode::CommitOffset),
            5 => Ok(OpCode::Watermark),
            13 => Ok(OpCode::GetConsumerLag),
            14 => Ok(OpCode::GetPartitionHealth),
            _ => Err(ProtocolError::UnknownOpCode(value)),
        }
    }
}

} // verus!
