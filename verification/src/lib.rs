use vstd::prelude::*;

mod config;
mod dispatch;
mod errors;
mod frame;
mod hash;
mod log_engine;
mod message;
mod offset_tracker;
mod op_code;
mod partition;
mod partition_meta;
mod partition_state;
mod payload;
mod request;
mod response;
mod segment;
mod stored_record;
mod topic;
mod wire;
mod utils;

pub use config::BrokerConfig;
pub use dispatch::{dispatch_request, handle_commit_offset, handle_consume, handle_consume_with_group, handle_consumer_lag, handle_partition_health, handle_produce, handle_watermark};
pub use errors::{DeserializeError, EngineError, ProtocolError};
pub use log_engine::LogEngine;
pub use offset_tracker::OffsetTracker;
pub use topic::Topic;
pub use frame::{Frame, FrameType};
pub use message::Message;
pub use op_code::OpCode;
pub use payload::{RequestPayload, ResponsePayload};
pub use request::{CommitOffsetRequest, ConsumeRequest, ConsumeWithGroupRequest, ConsumerLagRequest, PartitionHealthRequest, ProduceRequest, WatermarkRequest};
pub use response::{ConsumeResponse, ConsumerLagResponse, PartitionHealthResponse, PartitionLag, ProduceAck, WatermarkResponse};
pub use partition::Partition;
pub use partition_meta::PartitionMeta;
pub use partition_state::PartitionState;
pub use segment::Segment;
pub use stored_record::StoredRecord;
pub use utils::read_bytes;

verus! {

} // verus!
