use flyq::{
    dispatch_request, BrokerConfig, ConsumeRequest, ConsumeResponse, LogEngine, Message, OpCode,
    ProduceAck, ProduceRequest, RequestPayload, Topic,
};

fn engine() -> LogEngine {
    LogEngine::new(BrokerConfig::default(), "consumer_offsets.json".to_string())
}

fn value_msg(value: &str, timestamp: u64) -> Message {
    Message {
        key: None,
        value: value.as_bytes().to_vec(),
        timestamp,
        headers: None,
    }
}

#[test]
fn test_engine_consume_returns_produced_message() {
    let mut engine = engine();
    engine.create_topic("events", Some(1));
    engine
        .produce("events", &value_msg("ping", 42), 0)
        .expect("produce failed");

    let got = engine.consume("events", 0, 0).expect("consume failed");
    let message = got.expect("Expected message to be returned");
    assert_eq!(message.value, b"ping");
    assert_eq!(message.timestamp, 42);
}

#[test]
fn test_consume_past_end_returns_none() {
    let mut engine = engine();
    engine.create_topic("orders", Some(1));
    engine
        .produce("orders", &value_msg("hello", 100), 0)
        .expect("produce failed");

    let got = engine
        .consume("orders", 0, 1)
        .expect("consume failed at offset beyond end");
    assert!(got.is_none(), "Expected None for offset beyond end");
}

#[test]
fn engine_produce_creates_topic_and_segment_if_missing() {
    let mut engine = engine();
    assert!(!engine.has_topic("clicks"));
    let (partition, offset, _bytes) = engine
        .produce("clicks", &value_msg("test payload", 123456789), 0)
        .expect("produce failed");
    assert!(engine.has_topic("clicks"));
    assert_eq!(offset, 0);
    let (segment_count, _size, low, high, log_end, _cleanup) = engine
        .get_partition_health("clicks", partition)
        .expect("health failed");
    assert_eq!(segment_count, 1);
    assert_eq!((low, high, log_end), (0, 0, 1));
}

#[test]
fn test_consumer_group_offset_tracking() {
    let mut engine = engine();
    engine.create_topic("logs", Some(1));
    for _ in 0..3 {
        engine
            .produce("logs", &value_msg("event-a", 1), 0)
            .expect("produce failed");
    }

    let first = engine
        .consume_with_group("logs", 0, "analytics")
        .expect("consume_with_group failed")
        .expect("Expected a message");
    assert_eq!(first.0, 0);

    engine
        .commit_offset("logs", 0, "analytics", 1)
        .expect("commit_offset failed");

    let second = engine
        .consume_with_group("logs", 0, "analytics")
        .expect("consume_with_group after commit failed")
        .expect("Expected a message");
    assert_eq!(second.0, 1);

    engine
        .commit_offset("logs", 0, "analytics", 3)
        .expect("commit_offset failed");
    let done = engine
        .consume_with_group("logs", 0, "analytics")
        .expect("consume_with_group after commit failed");
    assert!(
        done.is_none(),
        "Expected None after committing past the last offset"
    );
}

#[test]
fn test_multiple_consumer_groups_track_offsets_independently() {
    let mut engine = engine();
    engine.create_topic("events", Some(1));
    for i in 0..2 {
        engine
            .produce("events", &value_msg(&format!("event-{}", i), 100), 0)
            .expect("produce failed");
    }

    let a1 = engine
        .consume_with_group("events", 0, "group-a")
        .expect("consume group-a #1")
        .unwrap();
    assert_eq!(a1.0, 0);
    engine
        .commit_offset("events", 0, "group-a", 1)
        .expect("commit group-a #1");

    let b1 = engine
        .consume_with_group("events", 0, "group-b")
        .expect("consume group-b #1")
        .unwrap();
    assert_eq!(b1.0, 0);
    engine
        .commit_offset("events", 0, "group-b", 1)
        .expect("commit group-b #1");

    let a2 = engine
        .consume_with_group("events", 0, "group-a")
        .expect("consume group-a #2")
        .unwrap();
    assert_eq!(a2.0, 1);
    engine
        .commit_offset("events", 0, "group-a", 2)
        .expect("commit group-a #2");

    let b2 = engine
        .consume_with_group("events", 0, "group-b")
        .expect("consume group-b #2")
        .unwrap();
    assert_eq!(b2.0, 1);
    engine
        .commit_offset("events", 0, "group-b", 2)
        .expect("commit group-b #2");

    assert_eq!(
        engine.offset_tracker.fetch("group-a", 0),
        Some(2),
        "group-a offset"
    );
    assert_eq!(
        engine.offset_tracker.fetch("group-b", 0),
        Some(2),
        "group-b offset"
    );
}

#[test]
fn test_watermark_tracking() {
    let mut engine = engine();
    engine.create_topic("watermark-test", Some(1));

    let (low, high, log_end) = engine.get_watermark("watermark-test", 0).unwrap();
    assert_eq!(low, 0);
    assert_eq!(high, 0);
    assert_eq!(log_end, 0);

    for i in 0..10 {
        engine
            .produce("watermark-test", &value_msg(&format!("Message {}", i), 5), 0)
            .unwrap();
    }

    let (low, high, log_end) = engine.get_watermark("watermark-test", 0).unwrap();
    assert_eq!(low, 0);
    assert_eq!(high, 9);
    assert_eq!(log_end, 10);
}

#[test]
fn test_consumer_lag_calculation() {
    let mut engine = engine();
    engine.create_topic("lag-test", Some(1));
    for i in 0..20 {
        engine
            .produce("lag-test", &value_msg(&format!("Message {}", i), 5), 0)
            .unwrap();
    }
    let (_, high, log_end) = engine.get_watermark("lag-test", 0).unwrap();
    assert_eq!(high, 19);
    assert_eq!(log_end, 20);

    let (total, entries) = engine.get_consumer_lag("test-group", None);
    assert_eq!(total, 19);
    assert_eq!(entries.len(), 1);
    assert_eq!(entries[0].2, 0);
    assert_eq!(entries[0].3, 19);
    assert_eq!(entries[0].4, 19);

    engine.commit_offset("lag-test", 0, "test-group", 10).unwrap();
    let (total, _) = engine.get_consumer_lag("test-group", None);
    assert_eq!(total, 9);

    engine.commit_offset("lag-test", 0, "test-group", 20).unwrap();
    let (total, entries) = engine.get_consumer_lag("test-group", None);
    assert_eq!(total, 0);
    assert_eq!(entries[0].4, 0);
}

#[test]
fn test_partition_health() {
    let mut engine = engine();
    engine.create_topic("health-test", Some(1));

    let (segment_count, total_size, low, high, log_end, _) = engine
        .get_partition_health("health-test", 0)
        .unwrap();
    assert_eq!(segment_count, 1);
    assert_eq!(total_size, 0);
    assert_eq!(low, 0);
    assert_eq!(high, 0);
    assert_eq!(log_end, 0);

    for _ in 0..100 {
        let m = Message {
            key: None,
            value: vec![0u8; 1024],
            timestamp: 5,
            headers: None,
        };
        engine.produce("health-test", &m, 0).unwrap();
    }

    let (segment_count, total_size, low, high, log_end, _) = engine
        .get_partition_health("health-test", 0)
        .unwrap();
    assert_eq!(segment_count, 1);
    assert!(total_size > 100 * 1024);
    assert_eq!(low, 0);
    assert_eq!(high, 99);
    assert_eq!(log_end, 100);
}

#[test]
fn test_consumer_lag_multiple_topics() {
    let mut engine = engine();
    engine.create_topic("events", Some(2));
    engine.create_topic("logs", Some(1));

    for i in 0..30 {
        engine
            .produce("events", &value_msg(&format!("Event {}", i), 3), 0)
            .unwrap();
    }
    for i in 0..20 {
        engine
            .produce("logs", &value_msg(&format!("Log {}", i), 3), 0)
            .unwrap();
    }

    let (total_lag, partitions) = engine.get_consumer_lag("multi-consumer", None);
    assert_eq!(partitions.len(), 3);
    let expected_total: u64 = partitions.iter().map(|p| p.4).sum();
    assert_eq!(total_lag, expected_total);

    engine.commit_offset("events", 0, "multi-consumer", 10).unwrap();
    engine.commit_offset("events", 1, "multi-consumer", 5).unwrap();
    let (after_commit, _) = engine.get_consumer_lag("multi-consumer", None);
    assert!(after_commit < total_lag);

    // A filtered query sees only the named topic's partitions.
    let (logs_total, logs_entries) =
        engine.get_consumer_lag("multi-consumer", Some(vec!["logs".to_string()]));
    assert_eq!(logs_entries.len(), 1);
    assert_eq!(logs_entries[0].0, "logs");
    assert_eq!(logs_total, logs_entries[0].4);
}

#[test]
fn test_partition_routing_determinism() {
    let key = b"user-42";
    let topic = Topic::new("routing".to_string(), 4, 1024);
    let expected = (xxhash_rust::xxh3::xxh3_64(key) % 4) as u32;
    assert_eq!(topic.hash_key_to_partition(key), expected);

    let mut engine = engine();
    engine.create_topic("routing", Some(4));
    let m = Message {
        key: Some(key.to_vec()),
        value: b"a".to_vec(),
        timestamp: 1,
        headers: None,
    };
    let (p1, _, _) = engine.produce("routing", &m, 0).unwrap();
    let (p2, _, _) = engine.produce("routing", &m, 0).unwrap();
    assert_eq!(p1, expected);
    assert_eq!(p2, expected);
}

#[test]
fn test_round_robin_for_keyless_messages() {
    let mut engine = engine();
    engine.create_topic("spread", Some(3));
    let mut seen = Vec::new();
    for i in 0..6 {
        let (pid, _, _) = engine
            .produce("spread", &value_msg(&format!("m{}", i), 1), 0)
            .unwrap();
        seen.push(pid);
    }
    assert_eq!(seen, vec![0, 1, 2, 0, 1, 2]);
}

#[test]
fn test_dispatch_produce_then_consume() {
    let mut engine = engine();
    let produce = RequestPayload {
        op_code: OpCode::Produce,
        data: ProduceRequest {
            topic: "wire".to_string(),
            message: b"over the wire".to_vec(),
        }
        .serialize(),
    };
    let resp = dispatch_request(&mut engine, &produce, 42).unwrap();
    assert_eq!(resp.op_code, OpCode::Produce);
    let ack = ProduceAck::deserialize(&resp.data).unwrap();
    assert_eq!(ack.offset, 0);

    let consume = RequestPayload {
        op_code: OpCode::Consume,
        data: ConsumeRequest {
            topic: "wire".to_string(),
            partition: ack.partition,
            offset: 0,
        }
        .serialize(),
    };
    let resp = dispatch_request(&mut engine, &consume, 43).unwrap();
    assert_eq!(resp.op_code, OpCode::Consume);
    let body = ConsumeResponse::deserialize(&resp.data).unwrap();
    assert_eq!(body.offset, 0);
    assert_eq!(body.message.value, b"over the wire");
    assert_eq!(body.message.timestamp, 42);
}
