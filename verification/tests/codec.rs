use flyq::{
    ConsumeResponse, ConsumeWithGroupRequest, ConsumerLagResponse, Frame, FrameType, Message,
    OpCode, PartitionHealthResponse, PartitionLag, ProduceAck, ProtocolError, RequestPayload,
    StoredRecord, WatermarkResponse,
};

#[test]
fn test_serialize_deserialize_roundtrip() {
    let original = Message {
        key: Some(b"user-42".to_vec()),
        value: b"click:event".to_vec(),
        timestamp: 1700000000000,
        headers: Some(vec![
            ("event-type".to_string(), b"click".to_vec()),
            ("source".to_string(), b"web".to_vec()),
        ]),
    };

    let offset = 12345;
    let serialized = original.serialize_for_disk(offset);

    // Extract message length and slice buffer
    let msg_len = u32::from_be_bytes(serialized[0..4].try_into().unwrap()) as usize;
    let msg_buf = &serialized[4..4 + msg_len];

    let (parsed_offset, parsed_msg) = Message::deserialize(msg_buf).expect("deserialize failed");

    assert_eq!(parsed_offset, offset);
    assert_eq!(parsed_msg.timestamp, original.timestamp);
    assert_eq!(parsed_msg.key, original.key);
    assert_eq!(parsed_msg.value, original.value);
    assert_eq!(parsed_msg.headers, original.headers);
}

#[test]
fn test_deserialize_with_no_key_or_headers() {
    let msg = Message {
        key: None,
        value: b"just value".to_vec(),
        timestamp: 42,
        headers: None,
    };

    let serialized = msg.serialize_for_disk(1);
    // Extract message length and slice buffer
    let msg_len = u32::from_be_bytes(serialized[0..4].try_into().unwrap()) as usize;
    let msg_buf = &serialized[4..4 + msg_len];

    let (_, deserialized) = Message::deserialize(msg_buf).unwrap();
    assert_eq!(deserialized.key, None);
    assert_eq!(deserialized.headers, None);
    assert_eq!(deserialized.value, msg.value);
    assert_eq!(deserialized.timestamp, 42);
}

#[test]
fn test_record_length_prefix_matches_body() {
    let msg = Message {
        key: Some(b"k".to_vec()),
        value: b"v".to_vec(),
        timestamp: 7,
        headers: None,
    };
    let bytes = msg.serialize_for_disk(3);
    let len = u32::from_be_bytes(bytes[0..4].try_into().unwrap()) as usize;
    assert_eq!(bytes.len(), 4 + len);
    // offset(8) + ts(8) + key_len(4) + key(1) + value_len(4) + value(1) + hdr_cnt(4)
    assert_eq!(len, 30);
}

#[test]
fn test_serialize_consume_with_group() {
    let topic = "my-topic";
    let group = "analytics-group";

    let req = ConsumeWithGroupRequest {
        topic: topic.into(),
        partition: 3,
        group: group.into(),
    };

    let bytes = req.serialize();

    let expected_len = 4 + topic.len() + 4 + 4 + group.len();
    assert_eq!(bytes.len(), expected_len);
}

#[test]
fn test_roundtrip_consume_with_group() {
    let req = ConsumeWithGroupRequest {
        topic: "orders".into(),
        partition: 2,
        group: "email-worker".into(),
    };

    let bytes = req.serialize();
    let deserialized = ConsumeWithGroupRequest::deserialize(&bytes).unwrap();

    assert_eq!(deserialized.topic, req.topic);
    assert_eq!(deserialized.partition, req.partition);
    assert_eq!(deserialized.group, req.group);
}

#[test]
fn test_consumer_lag_roundtrip() {
    let original = ConsumerLagResponse {
        consumer_group: "test-group".to_string(),
        total_lag: 100,
        partitions: vec![
            PartitionLag {
                topic: "events".to_string(),
                partition: 0,
                committed_offset: 50,
                high_watermark: 100,
                lag: 50,
            },
            PartitionLag {
                topic: "events".to_string(),
                partition: 1,
                committed_offset: 75,
                high_watermark: 125,
                lag: 50,
            },
        ],
    };

    let bytes = original.serialize();
    let parsed = ConsumerLagResponse::deserialize(&bytes).unwrap();

    assert_eq!(original.consumer_group, parsed.consumer_group);
    assert_eq!(original.total_lag, parsed.total_lag);
    assert_eq!(original.partitions.len(), parsed.partitions.len());

    for (orig, parsed) in original.partitions.iter().zip(parsed.partitions.iter()) {
        assert_eq!(orig.topic, parsed.topic);
        assert_eq!(orig.partition, parsed.partition);
        assert_eq!(orig.committed_offset, parsed.committed_offset);
        assert_eq!(orig.high_watermark, parsed.high_watermark);
        assert_eq!(orig.lag, parsed.lag);
    }
}

#[test]
fn test_partition_health_roundtrip() {
    let original = PartitionHealthResponse {
        topic: "events".to_string(),
        partition: 0,
        segment_count: 3,
        total_size_bytes: 1024 * 1024 * 100,
        low_watermark: 0,
        high_watermark: 1000,
        log_end_offset: 1000,
        last_cleanup: Some(1234567890),
    };

    let bytes = original.serialize();
    let parsed = PartitionHealthResponse::deserialize(&bytes).unwrap();

    assert_eq!(original.topic, parsed.topic);
    assert_eq!(original.partition, parsed.partition);
    assert_eq!(original.segment_count, parsed.segment_count);
    assert_eq!(original.total_size_bytes, parsed.total_size_bytes);
    assert_eq!(original.low_watermark, parsed.low_watermark);
    assert_eq!(original.high_watermark, parsed.high_watermark);
    assert_eq!(original.log_end_offset, parsed.log_end_offset);
    assert_eq!(original.last_cleanup, parsed.last_cleanup);
}

#[test]
fn test_partition_health_no_cleanup() {
    let original = PartitionHealthResponse {
        topic: "logs".to_string(),
        partition: 1,
        segment_count: 1,
        total_size_bytes: 1024,
        low_watermark: 0,
        high_watermark: 10,
        log_end_offset: 10,
        last_cleanup: None,
    };

    let bytes = original.serialize();
    let parsed = PartitionHealthResponse::deserialize(&bytes).unwrap();

    assert_eq!(original.last_cleanup, parsed.last_cleanup);
}

#[test]
fn test_watermark_roundtrip() {
    let original = WatermarkResponse {
        low_watermark: 1,
        high_watermark: 2,
        log_end_offset: 3,
    };

    let bytes = original.serialize();
    let parsed = WatermarkResponse::deserialize(&bytes).unwrap();

    assert_eq!(original.low_watermark, parsed.low_watermark);
    assert_eq!(original.high_watermark, parsed.high_watermark);
    assert_eq!(original.log_end_offset, parsed.log_end_offset);
}

#[test]
fn test_frame_roundtrip_with_checksum() {
    let frame = Frame {
        version: 1,
        frame_type: FrameType::Request,
        correlation_id: 77,
        payload: vec![1, 2, 3, 4, 5],
    };
    let mut buf: Vec<u8> = Vec::new();
    frame.encode(&mut buf);
    let (decoded, consumed) = Frame::decode(&buf).unwrap().unwrap();
    assert_eq!(consumed, buf.len());
    assert_eq!(decoded.version, 1);
    assert_eq!(decoded.frame_type, FrameType::Request);
    assert_eq!(decoded.correlation_id, 77);
    assert_eq!(decoded.payload, vec![1, 2, 3, 4, 5]);
}

#[test]
fn test_frame_bit_flip_fails_checksum() {
    let frame = Frame {
        version: 1,
        frame_type: FrameType::Response,
        correlation_id: 9,
        payload: vec![10, 20, 30],
    };
    let mut buf: Vec<u8> = Vec::new();
    frame.encode(&mut buf);
    // Flip one bit inside the payload (which starts after the 14-byte header).
    buf[14] ^= 0x01;
    match Frame::decode(&buf) {
        Err(ProtocolError::ChecksumMismatch { .. }) => {},
        other => panic!("expected a checksum mismatch, got {:?}", other.is_ok()),
    }
}

#[test]
fn test_frame_incomplete_returns_none() {
    let frame = Frame {
        version: 1,
        frame_type: FrameType::Heartbeat,
        correlation_id: 5,
        payload: vec![9, 9, 9, 9],
    };
    let mut buf: Vec<u8> = Vec::new();
    frame.encode(&mut buf);
    // Fewer than the header bytes, and fewer than the whole frame: both
    // must leave the buffer unconsumed.
    assert!(Frame::decode(&buf[..9]).unwrap().is_none());
    assert!(Frame::decode(&buf[..buf.len() - 1]).unwrap().is_none());
}

#[test]
fn test_unknown_frame_type_and_opcode() {
    let frame = Frame {
        version: 1,
        frame_type: FrameType::Request,
        correlation_id: 1,
        payload: vec![],
    };
    let mut buf: Vec<u8> = Vec::new();
    frame.encode(&mut buf);
    buf[1] = 9; // no frame type has this byte
    match Frame::decode(&buf) {
        Err(ProtocolError::UnknownFrameType(9)) => {},
        _ => panic!("expected an unknown frame type"),
    }
    match RequestPayload::deserialize(&[200u8, 1, 2]) {
        Err(ProtocolError::UnknownOpCode(200)) => {},
        _ => panic!("expected an unknown opcode"),
    }
    match RequestPayload::deserialize(&[]) {
        Err(ProtocolError::PayloadError(_)) => {},
        _ => panic!("expected a payload error on an empty payload"),
    }
    let good = RequestPayload {
        op_code: OpCode::Watermark,
        data: vec![7, 8],
    };
    let bytes = good.serialize();
    let parsed = RequestPayload::deserialize(&bytes).unwrap();
    assert_eq!(parsed.op_code, OpCode::Watermark);
    assert_eq!(parsed.data, vec![7, 8]);
}

#[test]
fn test_stored_record_roundtrip() {
    let record = StoredRecord {
        offset: 9,
        message: Message {
            key: None,
            value: b"payload".to_vec(),
            timestamp: 11,
            headers: None,
        },
    };
    let bytes = record.serialize();
    let len = u32::from_be_bytes(bytes[0..4].try_into().unwrap()) as usize;
    let parsed = StoredRecord::deserialize(&bytes[4..4 + len]).unwrap();
    assert_eq!(parsed.offset, 9);
    assert_eq!(parsed.message.value, b"payload");
    assert_eq!(parsed.message.timestamp, 11);
}

#[test]
fn test_produce_ack_roundtrip() {
    let ack = ProduceAck { partition: 3, offset: 41 };
    let bytes = ack.serialize();
    let parsed = ProduceAck::deserialize(&bytes).unwrap();
    assert_eq!(parsed.partition, 3);
    assert_eq!(parsed.offset, 41);
}

#[test]
fn test_consume_response_roundtrip() {
    let resp = ConsumeResponse {
        offset: 4,
        message: Message {
            key: Some(b"k".to_vec()),
            value: b"v".to_vec(),
            timestamp: 8,
            headers: None,
        },
    };
    let bytes = resp.serialize();
    let parsed = ConsumeResponse::deserialize(&bytes).unwrap();
    assert_eq!(parsed.offset, 4);
    assert_eq!(parsed.message.key, Some(b"k".to_vec()));
    assert_eq!(parsed.message.value, b"v".to_vec());
}
