use flyq::{Message, Partition, Segment};

fn msg(key: Option<&str>, value: &str, timestamp: u64) -> Message {
    Message {
        key: key.map(|k| k.as_bytes().to_vec()),
        value: value.as_bytes().to_vec(),
        timestamp,
        headers: None,
    }
}

#[test]
fn partition_test_partition_append_and_read() {
    let mut partition = Partition::new(0, 1024);

    let m = msg(Some("k"), "v", 1);
    let (offset, _bytes) = partition.append(&m, 0);
    let messages = partition.read_from_offset(offset).unwrap();

    assert_eq!(messages.len(), 1);
    assert_eq!(messages[0].value, m.value);
}

#[test]
fn partition_test_segment_rotation_on_append() {
    // Very small segment size to force rotation (e.g. 50 bytes)
    let mut partition = Partition::new(0, 50);

    let msg_count = 10;
    let mut offsets = Vec::new();

    for i in 0..msg_count {
        let m = msg(
            Some(&format!("key-{}", i)),
            &format!("value-{}", i),
            1000 + i,
        );
        let (offset, _bytes) = partition.append(&m, 0);
        offsets.push(offset);
    }

    // Read all messages from the first offset
    let messages = partition.read_from_offset(offsets[0]).unwrap();
    assert_eq!(messages.len() as u64, msg_count);

    for (i, m) in messages.iter().enumerate() {
        assert_eq!(m.value, format!("value-{}", i).as_bytes());
        assert_eq!(m.key.as_ref().unwrap(), format!("key-{}", i).as_bytes());
    }

    // Check segment count
    assert!(
        partition.segments.len() > 1,
        "Expected segment rotation to occur"
    );
}

#[test]
fn test_segment_read_without_index_file() {
    // Write a few records, then rebuild the segment from the log image
    // alone, as recovery after a crash that lost the index would.
    let mut segment = Segment::new(0);
    for i in 0..3u64 {
        let m = msg(Some(&format!("key-{}", i)), &format!("val-{}", i), 1000 + i);
        segment.append(i, &m, 0);
    }

    let (recovered_segment, _next) = Segment::recover_from_disk(0, segment.data.clone());

    let records = recovered_segment.read_from_offset(1);
    assert_eq!(records[0].1.value, b"val-1");
}

#[test]
fn test_segment_sparse_index_read_all() {
    // A sparse index (every third record) must not hide any record.
    let mut segment = Segment::with_index_interval(0, 3);

    for i in 0..5u64 {
        let m = msg(Some(&format!("k{}", i)), &format!("val-{}", i), 1000 + i);
        segment.append(i, &m, 0);
    }

    let (recovered_segment, _next) = Segment::recover_from_disk(0, segment.data.clone());

    let records = recovered_segment.read_from_offset(0);
    let values: Vec<Vec<u8>> = records.into_iter().map(|r| r.1.value).collect();

    let expected = vec![
        b"val-0".to_vec(),
        b"val-1".to_vec(),
        b"val-2".to_vec(),
        b"val-3".to_vec(),
        b"val-4".to_vec(),
    ];

    assert_eq!(values, expected);
}

#[test]
fn test_monotonic_offsets() {
    let mut partition = Partition::new(0, 1024);
    for i in 0..5u64 {
        let (offset, _) = partition.append(&msg(None, "x", i), 0);
        assert_eq!(offset, i);
    }
    assert_eq!(partition.state.log_end_offset, 5);
    assert_eq!(partition.state.high_watermark, 4);
}

#[test]
fn test_crash_recovery_from_segment_images() {
    // Build a partition whose appends span several segments, then rebuild
    // it from the byte images of its segment files alone.
    let mut partition = Partition::new(0, 50);
    for i in 0..10u64 {
        partition.append(&msg(Some(&format!("key-{}", i)), &format!("value-{}", i), i), 7);
    }
    assert!(partition.segments.len() > 1);

    let files: Vec<(u64, Vec<u8>, u64)> = partition
        .segments
        .iter()
        .map(|s| (s.base_offset, s.data.clone(), s.last_write))
        .collect();

    let recovered = Partition::recover(0, 50, files);
    assert_eq!(recovered.state.log_end_offset, 10);
    let messages = recovered.read_from_offset(0).unwrap();
    assert_eq!(messages.len(), 10);
    for (i, m) in messages.iter().enumerate() {
        assert_eq!(m.value, format!("value-{}", i).as_bytes());
    }
}

#[test]
fn test_recovery_drops_torn_tail() {
    // A record whose bytes were only partly written must vanish on
    // recovery; everything before it stays.
    let mut segment = Segment::new(0);
    for i in 0..3u64 {
        segment.append(i, &msg(None, &format!("val-{}", i), i), 0);
    }
    let mut image = segment.data.clone();
    image.truncate(image.len() - 1);

    let (recovered, next) = Segment::recover_from_disk(0, image);
    assert_eq!(next, 2);
    let records = recovered.read_from_offset(0);
    assert_eq!(records.len(), 2);
    assert_eq!(records[1].1.value, b"val-1");
}

#[test]
fn test_time_based_retention_cleanup() {
    // Small segments so appends spread over several of them; every record
    // written at time 0, cleaned up at 150 with a 100 ms retention.
    let mut partition = Partition::new(0, 100);
    for i in 0..10u64 {
        partition.append(
            &msg(Some(&format!("key{}", i)), &format!("payload{}", i), i),
            0,
        );
    }
    let before = partition.segments.len();
    assert!(before > 1);

    let removed = partition.maybe_cleanup(150, 100, None);

    let after = partition.segments.len();
    assert!(
        after < before,
        "Segments should be cleaned up. Before: {}, After: {}",
        before,
        after
    );
    assert_eq!(removed.len(), before - after);
    // The low watermark moved up, and everything at or above it still reads.
    assert!(partition.state.low_watermark > 0);
    let low = partition.state.low_watermark;
    let messages = partition.read_from_offset(low).unwrap();
    assert_eq!(messages.len() as u64, 10 - low);
    // Offsets below the new low watermark are gone.
    assert!(partition.read_from_offset(0).is_err());
}

#[test]
fn test_size_based_retention_cleanup() {
    let mut partition = Partition::new(0, 512);
    for i in 0..50u64 {
        partition.append(&msg(Some(&format!("key{}", i)), &"x".repeat(100), i), 0);
    }
    let before_segments = partition.segments.len();
    let before_size: u64 = partition.segments.iter().map(|s| s.size).sum();
    assert!(before_segments > 1);

    // Young segments, so time-based retention does not apply; the byte cap
    // does.
    partition.maybe_cleanup(0, 1_000_000, Some(2048));

    let after_segments = partition.segments.len();
    let after_size: u64 = partition.segments.iter().map(|s| s.size).sum();
    assert!(
        after_size < before_size,
        "Size should be reduced after cleanup. Before: {}, After: {}",
        before_size,
        after_size
    );
    assert!(after_segments < before_segments, "Should have fewer segments after cleanup");
}

#[test]
fn test_retention_never_removes_active_segment() {
    let mut partition = Partition::new(0, 1024);
    partition.append(&msg(None, "only", 0), 0);
    let removed = partition.maybe_cleanup(u64::MAX, 0, Some(0));
    assert_eq!(removed.len(), 0);
    assert_eq!(partition.segments.len(), 1);
    assert_eq!(partition.read_from_offset(0).unwrap().len(), 1);
}

#[test]
fn test_low_watermark_monotone_over_cleanups() {
    let mut partition = Partition::new(0, 60);
    for i in 0..12u64 {
        partition.append(&msg(None, &format!("value-{}", i), i), 0);
    }
    let mut last_low = partition.state.low_watermark;
    for _ in 0..3 {
        partition.maybe_cleanup(1_000_000, 10, None);
        let low = partition.state.low_watermark;
        assert!(low >= last_low);
        last_low = low;
    }
}

#[test]
fn test_recovery_of_empty_partition_keeps_watermark_order() {
    // A partition whose only surviving file parses to nothing, at a base
    // above zero: the watermarks must still satisfy low <= high <= log_end.
    let recovered = Partition::recover(0, 1024, vec![(5, Vec::new(), 0)]);
    let (low, high, log_end) = recovered.get_watermark();
    assert_eq!((low, high, log_end), (5, 5, 5));
    assert!(low <= high && high <= log_end);
}
