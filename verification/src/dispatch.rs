use vstd::prelude::*;

use crate::errors::{EngineError, ProtocolError};
use crate::log_engine::{consume_result, topic_idx, topic_produced, LogEngine};
use crate::message::{msg_fits, Message, MessageView};
use crate::op_code::OpCode;
use crate::offset_tracker::store_fetch;
use crate::payload::{RequestPayload, ResponsePayload};
use crate::request::{
    parse_consume_request, parse_consume_with_group_request, parse_consumer_lag_request,
    parse_produce_request, parse_topic_partition, CommitOffsetRequest, ConsumeRequest,
    ConsumeWithGroupRequest, ConsumerLagRequest, PartitionHealthRequest, ProduceRequest,
    WatermarkRequest,
};
use crate::response::{
    consume_response_bytes, produce_ack_bytes, watermark_response_bytes, ConsumeResponse,
    ConsumerLagResponse, PartitionHealthResponse, PartitionLag, ProduceAck, WatermarkResponse,
};

verus! {

/// The message a produce request carries: the raw bytes as the value, no
/// key, no headers, stamped with the broker's clock.
pub open spec fn produce_msg(value: Seq<u8>, now_ms: u64) -> MessageView {
    MessageView { key: None, value, timestamp: now_ms, headers: None }
}

/// Every partition of the engine can still assign an offset.
pub open spec fn offsets_available(e: &LogEngine) -> bool {
    forall|i: int, p: int|
        0 <= i < e.topics@.len() && 0 <= p < e.topics@[i].partitions@.len() ==> (
        #[trigger] e.topics@[i].partitions@[p]).state.log_end_offset < u64::MAX
}

/// What a produce through the wire does to the engine: the parsed topic
/// received the stamped message, whether it already existed or was created
/// for it.
pub open spec fn engine_produced(
    e0: &LogEngine,
    e1: &LogEngine,
    topic: Seq<char>,
    m: MessageView,
    pid: u32,
    off: u64,
) -> bool {
    let ti = topic_idx(e0.topics@, topic);
    if ti >= 0 {
        &&& e1.topics@.len() == e0.topics@.len()
        &&& topic_produced(e0.topics@[ti], e1.topics@[ti], pid, off, m)
        &&& forall|j: int|
            0 <= j < e0.topics@.len() && j != ti ==> e1.topics@[j] == (#[trigger] e0.topics@[j])
    } else {
        &&& e1.topics@.len() == e0.topics@.len() + 1
        &&& e1.topics@.last().name@ == topic
        &&& off == 0
        &&& e1.topics@.last().partitions@[pid as int].recs() == seq![(0u64, m)]
        &&& forall|j: int|
            0 <= j < e0.topics@.len() ==> e1.topics@[j] == (#[trigger] e0.topics@[j])
    }
}

/// A produce the broker owes an `Ok` answer: the request parses, the value
/// leaves room for the record framing, and the topic exists or may be
/// auto-created.
pub open spec fn produce_ok_owed(e: &LogEngine, data: Seq<u8>) -> bool {
    &&& parse_produce_request(data) matches Some(q)
    &&& q.1.len() <= 0xffff_ffdb
    &&& (e.auto_create_topic || topic_idx(e.topics@, q.0) >= 0)
}

/// A consume the broker owes an `Ok` answer: the request parses and names
/// an existing topic and partition.
pub open spec fn consume_ok_owed(e: &LogEngine, data: Seq<u8>) -> bool {
    &&& parse_consume_request(data) matches Some(q)
    &&& topic_idx(e.topics@, q.0) >= 0
    &&& q.1 < e.topics@[topic_idx(e.topics@, q.0)].partition_count
}

/// A group consume the broker owes an `Ok` answer.
pub open spec fn consume_group_ok_owed(e: &LogEngine, data: Seq<u8>) -> bool {
    &&& parse_consume_with_group_request(data) matches Some(q)
    &&& topic_idx(e.topics@, q.0) >= 0
    &&& q.1 < e.topics@[topic_idx(e.topics@, q.0)].partition_count
}

/// A commit the broker owes an `Ok` answer: the request parses and names an
/// existing topic.
pub open spec fn commit_ok_owed(e: &LogEngine, data: Seq<u8>) -> bool {
    &&& crate::request::parse_commit_offset_request(data) matches Some(q)
    &&& topic_idx(e.topics@, q.0) >= 0
}

/// A watermark or health query the broker owes an `Ok` answer: the request
/// parses and names an existing topic and partition.
pub open spec fn topic_partition_ok_owed(e: &LogEngine, data: Seq<u8>) -> bool {
    &&& parse_topic_partition(data) matches Some(q)
    &&& topic_idx(e.topics@, q.0) >= 0
    &&& q.1 < e.topics@[topic_idx(e.topics@, q.0)].partition_count
}

/// A lag query the broker owes an `Ok` answer: the request parses, and the
/// resulting breakdown fits its wire fields (the entry count and every
/// topic name length fit `u32` — always the case for realistic state).
pub open spec fn lag_ok_owed(e: &LogEngine, data: Seq<u8>) -> bool {
    &&& parse_consumer_lag_request(data) matches Some(q)
    &&& ({
        let entries = LogEngine::selected_entries(
            e.topics@,
            q.1,
            e.offset_tracker.store@,
            q.0,
        );
        &&& entries.len() <= u32::MAX
        &&& forall|i: int|
            0 <= i < entries.len() ==> vstd::utf8::encode_utf8(
                (#[trigger] entries[i]).0,
            ).len() <= u32::MAX
    })
}

/// Handles a produce: decodes the request, appends the message, answers
/// with the partition and offset it received.
pub fn handle_produce(engine: &mut LogEngine, data: &[u8], now_ms: u64) -> (r: Result<
    ResponsePayload,
    ProtocolError,
>)
    requires
        old(engine).wf(),
        offsets_available(old(engine)),
    ensures
        final(engine).wf(),
        final(engine).offset_tracker == old(engine).offset_tracker,
        r matches Ok(resp) ==> ({
            &&& resp.op_code is Produce
            &&& parse_produce_request(data@) matches Some(q)
            &&& exists|pid: u32, off: u64|
                resp.data@ == produce_ack_bytes(pid, off) && #[trigger] engine_produced(
                    old(engine),
                    final(engine),
                    q.0,
                    produce_msg(q.1, now_ms),
                    pid,
                    off,
                )
        }),
        r is Err ==> final(engine).topics@ == old(engine).topics@,
        parse_produce_request(data@) is None ==> r is Err,
        produce_ok_owed(old(engine), data@) ==> r is Ok,
{
    let req = match ProduceRequest::deserialize(data) {
        Ok(q) => q,
        Err(e) => {
            return Err(e);
        },
    };
    // The framed record adds fixed header bytes around the value; refuse a
    // value so large the record length field cannot carry it.
    if req.message.len() > 0xffff_ffdb {
        return Err(ProtocolError::PayloadError("Message too large".to_owned()));
    }
    let message = Message { key: None, value: req.message, timestamp: now_ms, headers: None };
    proof {
        reveal(crate::message::msg_fits);
    }
    let (pid, offset, _bytes) = match engine.produce(req.topic.as_str(), &message, now_ms) {
        Ok(v) => v,
        Err(_) => {
            return Err(ProtocolError::EngineErrorMapped("produce failed".to_owned()));
        },
    };
    let ack = ProduceAck { partition: pid, offset };
    let resp = ResponsePayload { op_code: OpCode::Produce, data: ack.serialize() };
    proof {
        let q = parse_produce_request(data@)->Some_0;
        assert(q.0 == req.topic@);
        assert(q.1 == message@.value);
        assert(message@ =~= produce_msg(q.1, now_ms));
        LogEngine::lemma_idx_range(old(engine).topics@, q.0);
        let ti = topic_idx(old(engine).topics@, q.0);
        if ti >= 0 {
            assert(topic_produced(
                old(engine).topics@[ti],
                engine.topics@[ti],
                pid,
                offset,
                message@,
            ));
            assert(engine_produced(old(engine), engine, q.0, produce_msg(q.1, now_ms), pid, offset));
        } else {
            assert(engine.topics@.last().partitions@[pid as int].recs() == seq![
                (0u64, message@)]);
            assert(seq![(0u64, message@)] =~= seq![(0u64, produce_msg(q.1, now_ms))]);
            assert(engine_produced(old(engine), engine, q.0, produce_msg(q.1, now_ms), pid, offset));
        }
    }
    Ok(resp)
}

/// Handles a plain consume: decodes the request and answers with the first
/// record at or after the requested offset, or an empty payload when there
/// is none.
pub fn handle_consume(engine: &LogEngine, data: &[u8]) -> (r: Result<
    ResponsePayload,
    ProtocolError,
>)
    requires
        engine.wf(),
    ensures
        r matches Ok(resp) ==> ({
            &&& resp.op_code is Consume
            &&& parse_consume_request(data@) matches Some(q)
            &&& topic_idx(engine.topics@, q.0) >= 0
            &&& q.1 < engine.topics@[topic_idx(engine.topics@, q.0)].partition_count
            &&& ({
                let p = engine.topics@[topic_idx(engine.topics@, q.0)].partitions@[q.1 as int];
                match consume_result(p, q.2) {
                    Some(m) => resp.data@ == consume_response_bytes(q.2, m),
                    None => resp.data@.len() == 0,
                }
            })
        }),
        parse_consume_request(data@) is None ==> r is Err,
        consume_ok_owed(engine, data@) ==> r is Ok,
{
    let req = match ConsumeRequest::deserialize(data) {
        Ok(q) => q,
        Err(e) => {
            return Err(e);
        },
    };
    let maybe = match engine.consume(req.topic.as_str(), req.partition, req.offset) {
        Ok(m) => m,
        Err(e) => {
            return Err(ProtocolError::EngineErrorMapped(e.describe()));
        },
    };
    match maybe {
        Some(message) => {
            proof {
                LogEngine::lemma_idx_range(engine.topics@, req.topic@);
                let ti = topic_idx(engine.topics@, req.topic@);
                let p = engine.topics@[ti].partitions@[req.partition as int];
                crate::partition::lemma_chain_recs(p.segments@);
                reveal(crate::message::msg_fits);
                assert(msg_fits(message@));
            }
            let resp_body = ConsumeResponse { offset: req.offset, message };
            Ok(ResponsePayload { op_code: OpCode::Consume, data: resp_body.serialize() })
        },
        None => Ok(ResponsePayload { op_code: OpCode::Consume, data: Vec::new() }),
    }
}

/// Handles a group consume: reads from the group's committed offset (or
/// the start) without advancing it.
pub fn handle_consume_with_group(engine: &LogEngine, data: &[u8]) -> (r: Result<
    ResponsePayload,
    ProtocolError,
>)
    requires
        engine.wf(),
    ensures
        r matches Ok(resp) ==> ({
            &&& resp.op_code is ConsumeWithGroup
            &&& parse_consume_with_group_request(data@) matches Some(q)
            &&& topic_idx(engine.topics@, q.0) >= 0
            &&& q.1 < engine.topics@[topic_idx(engine.topics@, q.0)].partition_count
            &&& ({
                let fetched = match store_fetch(engine.offset_tracker.store@, q.2, q.1) {
                    Some(v) => v,
                    None => 0,
                };
                let p = engine.topics@[topic_idx(engine.topics@, q.0)].partitions@[q.1 as int];
                match consume_result(p, fetched) {
                    Some(m) => resp.data@ == consume_response_bytes(fetched, m),
                    None => resp.data@.len() == 0,
                }
            })
        }),
        parse_consume_with_group_request(data@) is None ==> r is Err,
        consume_group_ok_owed(engine, data@) ==> r is Ok,
{
    let req = match ConsumeWithGroupRequest::deserialize(data) {
        Ok(q) => q,
        Err(e) => {
            return Err(e);
        },
    };
    let maybe = match engine.consume_with_group(
        req.topic.as_str(),
        req.partition,
        req.group.as_str(),
    ) {
        Ok(m) => m,
        Err(e) => {
            return Err(ProtocolError::EngineErrorMapped(e.describe()));
        },
    };
    match maybe {
        Some((offset, message)) => {
            proof {
                LogEngine::lemma_idx_range(engine.topics@, req.topic@);
                let ti = topic_idx(engine.topics@, req.topic@);
                let p = engine.topics@[ti].partitions@[req.partition as int];
                crate::partition::lemma_chain_recs(p.segments@);
                reveal(crate::message::msg_fits);
                assert(msg_fits(message@));
            }
            let resp_body = ConsumeResponse { offset, message };
            Ok(ResponsePayload { op_code: OpCode::ConsumeWithGroup, data: resp_body.serialize() })
        },
        None => Ok(ResponsePayload { op_code: OpCode::ConsumeWithGroup, data: Vec::new() }),
    }
}

/// Handles an offset commit: records the group's next read offset and
/// answers with an empty payload.
pub fn handle_commit_offset(engine: &mut LogEngine, data: &[u8]) -> (r: Result<
    ResponsePayload,
    ProtocolError,
>)
    requires
        old(engine).wf(),
    ensures
        final(engine).wf(),
        final(engine).topics@ == old(engine).topics@,
        r matches Ok(resp) ==> ({
            &&& resp.op_code is CommitOffset
            &&& resp.data@.len() == 0
            &&& parse_commit_request_ok(data@)
            &&& ({
                let q = crate::request::parse_commit_offset_request(data@)->Some_0;
                forall|g: Seq<char>, p: u32|
                    #[trigger] store_fetch(final(engine).offset_tracker.store@, g, p) == (if g
                        == q.2 && p == q.1 {
                        Some(q.3)
                    } else {
                        store_fetch(old(engine).offset_tracker.store@, g, p)
                    })
            })
        }),
        r is Err ==> final(engine).offset_tracker == old(engine).offset_tracker,
        crate::request::parse_commit_offset_request(data@) is None ==> r is Err,
        commit_ok_owed(old(engine), data@) ==> r is Ok,
{
    let req = match CommitOffsetRequest::deserialize(data) {
        Ok(q) => q,
        Err(e) => {
            return Err(e);
        },
    };
    match engine.commit_offset(req.topic.as_str(), req.partition, req.group.as_str(), req.offset) {
        Ok(()) => Ok(ResponsePayload { op_code: OpCode::CommitOffset, data: Vec::new() }),
        Err(e) => Err(ProtocolError::EngineErrorMapped(e.describe())),
    }
}

/// A commit request parsed and aimed at a topic the engine has.
pub open spec fn parse_commit_request_ok(data: Seq<u8>) -> bool {
    crate::request::parse_commit_offset_request(data) is Some
}

/// Handles a watermark query: answers with the partition's low and high
/// watermarks and its log end.
pub fn handle_watermark(engine: &LogEngine, data: &[u8]) -> (r: Result<
    ResponsePayload,
    ProtocolError,
>)
    requires
        engine.wf(),
    ensures
        r matches Ok(resp) ==> ({
            &&& resp.op_code is Watermark
            &&& parse_topic_partition(data@) matches Some(q)
            &&& topic_idx(engine.topics@, q.0) >= 0
            &&& q.1 < engine.topics@[topic_idx(engine.topics@, q.0)].partition_count
            &&& ({
                let p = engine.topics@[topic_idx(engine.topics@, q.0)].partitions@[q.1 as int];
                resp.data@ == watermark_response_bytes(
                    p.state.low_watermark,
                    p.state.high_watermark,
                    p.state.log_end_offset,
                )
            })
        }),
        parse_topic_partition(data@) is None ==> r is Err,
        topic_partition_ok_owed(engine, data@) ==> r is Ok,
{
    let req = match WatermarkRequest::deserialize(data) {
        Ok(q) => q,
        Err(e) => {
            return Err(e);
        },
    };
    let w = match engine.get_watermark(req.topic.as_str(), req.partition) {
        Ok(w) => w,
        Err(e) => {
            return Err(ProtocolError::EngineErrorMapped(e.describe()));
        },
    };
    let resp_body = WatermarkResponse {
        low_watermark: w.0,
        high_watermark: w.1,
        log_end_offset: w.2,
    };
    Ok(ResponsePayload { op_code: OpCode::Watermark, data: resp_body.serialize() })
}

/// Handles a lag query: answers with the group's saturated total lag and
/// the per-partition breakdown across the selected topics.
pub fn handle_consumer_lag(engine: &LogEngine, data: &[u8]) -> (r: Result<
    ResponsePayload,
    ProtocolError,
>)
    requires
        engine.wf(),
    ensures
        r matches Ok(resp) ==> ({
            &&& resp.op_code is GetConsumerLag
            &&& parse_consumer_lag_request(data@) matches Some(q)
            &&& ({
                let entries = LogEngine::selected_entries(
                    engine.topics@,
                    q.1,
                    engine.offset_tracker.store@,
                    q.0,
                );
                resp.data@ == crate::response::consumer_lag_response_bytes(
                    q.0,
                    LogEngine::fold_lag(0, entries),
                    entries,
                )
            })
        }),
        parse_consumer_lag_request(data@) is None ==> r is Err,
        lag_ok_owed(engine, data@) ==> r is Ok,
{
    let req = match ConsumerLagRequest::deserialize(data) {
        Ok(q) => q,
        Err(e) => {
            return Err(e);
        },
    };
    let group = req.consumer_group;
    let topics = req.topics;
    let (total, entries) = engine.get_consumer_lag(group.as_str(), topics);
    let mut partitions: Vec<PartitionLag> = Vec::new();
    let ghost entry_views = entries@.map_values(
        |e: (String, u32, u64, u64, u64)| (e.0@, e.1, e.2, e.3, e.4),
    );
    proof {
        // The group name came from a four-byte length field, so it fits one.
        crate::utils::lemma_parse_str_field_len(data@);
    }
    // The entry count and each topic name must fit their wire fields.
    if entries.len() > 0xffff_ffff {
        return Err(ProtocolError::PayloadError("Too many partitions".to_owned()));
    }
    let mut i: usize = 0;
    while i < entries.len()
        invariant
            i <= entries@.len(),
            entry_views == entries@.map_values(
                |e: (String, u32, u64, u64, u64)| (e.0@, e.1, e.2, e.3, e.4),
            ),
            parse_consumer_lag_request(data@) matches Some(pq)
                ==> LogEngine::selected_entries(
                engine.topics@,
                pq.1,
                engine.offset_tracker.store@,
                pq.0,
            ) == entry_views,
            partitions@.len() == i,
            forall|j: int|
                0 <= j < i ==> (#[trigger] partitions@[j])@ == entry_views[j],
            forall|j: int|
                0 <= j < i ==> vstd::utf8::encode_utf8((#[trigger] partitions@[j])@.0).len()
                    <= u32::MAX,
        decreases entries@.len() - i,
    {
        let e = &entries[i];
        if e.0.as_str().as_bytes().len() > 0xffff_ffff {
            proof {
                if lag_ok_owed(engine, data@) {
                    let pq = parse_consumer_lag_request(data@)->Some_0;
                    let sel = LogEngine::selected_entries(
                        engine.topics@,
                        pq.1,
                        engine.offset_tracker.store@,
                        pq.0,
                    );
                    assert(sel == entry_views);
                    assert(vstd::utf8::encode_utf8((sel[i as int]).0).len() <= u32::MAX);
                    assert(entry_views[i as int].0 == entries@[i as int].0@);
                    assert(false);
                }
            }
            return Err(ProtocolError::PayloadError("Topic name too long".to_owned()));
        }
        partitions.push(
            PartitionLag {
                topic: e.0.clone(),
                partition: e.1,
                committed_offset: e.2,
                high_watermark: e.3,
                lag: e.4,
            },
        );
        proof {
            assert(partitions@[i as int]@ == entry_views[i as int]);
            assert(vstd::utf8::encode_utf8(partitions@[i as int]@.0).len() <= u32::MAX);
        }
        i = i + 1;
    }
    let resp_body = ConsumerLagResponse {
        consumer_group: group,
        total_lag: total,
        partitions,
    };
    proof {
        assert(resp_body.partitions@.map_values(|l: PartitionLag| l@) =~= entry_views);
    }
    let data_out = resp_body.serialize();
    Ok(ResponsePayload { op_code: OpCode::GetConsumerLag, data: data_out })
}

/// Handles a health query: answers with the partition's segment count,
/// bytes, watermarks and (untracked) last cleanup time.
pub fn handle_partition_health(engine: &LogEngine, data: &[u8]) -> (r: Result<
    ResponsePayload,
    ProtocolError,
>)
    requires
        engine.wf(),
    ensures
        r matches Ok(resp) ==> ({
            &&& resp.op_code is GetPartitionHealth
            &&& parse_topic_partition(data@) matches Some(q)
            &&& topic_idx(engine.topics@, q.0) >= 0
            &&& q.1 < engine.topics@[topic_idx(engine.topics@, q.0)].partition_count
            &&& ({
                let p = engine.topics@[topic_idx(engine.topics@, q.0)].partitions@[q.1 as int];
                resp.data@ == crate::response::partition_health_response_bytes(
                    q.0,
                    q.1,
                    (if p.segments@.len() <= u32::MAX {
                        p.segments@.len() as u32
                    } else {
                        u32::MAX
                    }),
                    crate::partition::Partition::sizes_sat(p.segments@),
                    p.state.low_watermark,
                    p.state.high_watermark,
                    p.state.log_end_offset,
                    None,
                )
            })
        }),
        parse_topic_partition(data@) is None ==> r is Err,
        topic_partition_ok_owed(engine, data@) ==> r is Ok,
{
    let req = match PartitionHealthRequest::deserialize(data) {
        Ok(q) => q,
        Err(e) => {
            return Err(e);
        },
    };
    let h = match engine.get_partition_health(req.topic.as_str(), req.partition) {
        Ok(h) => h,
        Err(e) => {
            return Err(ProtocolError::EngineErrorMapped(e.describe()));
        },
    };
    proof {
        // The topic name came from a four-byte length field, so it fits one.
        crate::utils::lemma_parse_str_field_len(data@);
    }
    let resp_body = PartitionHealthResponse {
        topic: req.topic,
        partition: req.partition,
        segment_count: h.0,
        total_size_bytes: h.1,
        low_watermark: h.2,
        high_watermark: h.3,
        log_end_offset: h.4,
        last_cleanup: h.5,
    };
    let data_out = resp_body.serialize();
    Ok(ResponsePayload { op_code: OpCode::GetPartitionHealth, data: data_out })
}

/// Routes a decoded request payload to its handler. The response carries
/// the same opcode as the request; a malformed payload or an engine error
/// fails the request.
pub fn dispatch_request(engine: &mut LogEngine, request: &RequestPayload, now_ms: u64) -> (r:
    Result<ResponsePayload, ProtocolError>)
    requires
        old(engine).wf(),
        offsets_available(old(engine)),
    ensures
        final(engine).wf(),
        r matches Ok(resp) ==> resp.op_code == request.op_code,
        request.op_code is Produce && produce_ok_owed(old(engine), request.data@) ==> r is Ok,
        request.op_code is Consume && consume_ok_owed(old(engine), request.data@) ==> r is Ok,
        request.op_code is ConsumeWithGroup && consume_group_ok_owed(
            old(engine),
            request.data@,
        ) ==> r is Ok,
        request.op_code is CommitOffset && commit_ok_owed(old(engine), request.data@) ==> r is Ok,
        request.op_code is Watermark && topic_partition_ok_owed(
            old(engine),
            request.data@,
        ) ==> r is Ok,
        request.op_code is GetConsumerLag && lag_ok_owed(old(engine), request.data@) ==> r is Ok,
        request.op_code is GetPartitionHealth && topic_partition_ok_owed(
            old(engine),
            request.data@,
        ) ==> r is Ok,
{
    match request.op_code {
        OpCode::Produce => handle_produce(engine, request.data.as_slice(), now_ms),
        OpCode::Consume => handle_consume(engine, request.data.as_slice()),
        OpCode::ConsumeWithGroup => handle_consume_with_group(engine, request.data.as_slice()),
        OpCode::CommitOffset => handle_commit_offset(engine, request.data.as_slice()),
        OpCode::Watermark => handle_watermark(engine, request.data.as_slice()),
        OpCode::GetConsumerLag => handle_consumer_lag(engine, request.data.as_slice()),
        OpCode::GetPartitionHealth => handle_partition_health(engine, request.data.as_slice()),
    }
}

} // verus!
