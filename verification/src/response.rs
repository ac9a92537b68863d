use vstd::prelude::*;

use vstd::utf8::encode_utf8;

use crate::errors::ProtocolError;
use crate::message::{
    message_body_bytes, msg_fits, parse_message_body, Message, RecordParseError,
};
use crate::utils::{parse_str_field, put_str_field, str_field_bytes, take_str_field};
use crate::wire::{
    be_to_u32, be_to_u64, put_u32, put_u64, take_u32, take_u64, take_u8, u32_be_bytes,
    u64_be_bytes,
};

verus! {

// ---------------------------------------------------------------------------
// Produce acknowledgement.
// ---------------------------------------------------------------------------

/// The answer to a produce: where the record landed.
#[derive(Debug)]
pub struct ProduceAck {
    pub partition: u32,
    pub offset: u64,
}

/// Layout: `[partition][offset]`.
pub open spec fn produce_ack_bytes(partition: u32, offset: u64) -> Seq<u8> {
    u32_be_bytes(partition) + u64_be_bytes(offset)
}

impl ProduceAck {
    /// The encoded acknowledgement.
    pub fn serialize(&self) -> (r: Vec<u8>)
        ensures
            r@ == produce_ack_bytes(self.partition, self.offset),
    {
        let mut buf: Vec<u8> = Vec::new();
        put_u32(&mut buf, self.partition);
        put_u64(&mut buf, self.offset);
        proof {
            assert(buf@ =~= produce_ack_bytes(self.partition, self.offset));
        }
        buf
    }

    /// Decodes an acknowledgement: succeeds exactly on twelve or more
    /// buffered bytes; trailing bytes are ignored.
    pub fn deserialize(buf: &[u8]) -> (r: Result<ProduceAck, ProtocolError>)
        ensures
            r is Ok <==> buf@.len() >= 12,
            r matches Ok(v) ==> v.partition == be_to_u32(buf@.take(4)) && v.offset == be_to_u64(
                buf@.skip(4).take(8),
            ),
            r matches Err(e) ==> e is PayloadError,
    {
        let mut cur: &[u8] = buf;
        if buf.len() < 12 {
            return Err(
                ProtocolError::PayloadError("Incomplete produce ack payload".to_owned()),
            );
        }
        let partition = match take_u32(&mut cur) {
            Ok(x) => x,
            Err(_) => {
                return Err(
                    ProtocolError::PayloadError("Incomplete produce ack payload".to_owned()),
                );
            },
        };
        let offset = match take_u64(&mut cur) {
            Ok(x) => x,
            Err(_) => {
                return Err(
                    ProtocolError::PayloadError("Incomplete produce ack payload".to_owned()),
                );
            },
        };
        Ok(ProduceAck { partition, offset })
    }
}

// ---------------------------------------------------------------------------
// Watermark response.
// ---------------------------------------------------------------------------

/// The three partition watermarks.
#[derive(Debug)]
pub struct WatermarkResponse {
    pub log_end_offset: u64,
    pub low_watermark: u64,
    pub high_watermark: u64,
}

/// Layout: `[low][high][log_end]`.
pub open spec fn watermark_response_bytes(low: u64, high: u64, log_end: u64) -> Seq<u8> {
    u64_be_bytes(low) + u64_be_bytes(high) + u64_be_bytes(log_end)
}

impl WatermarkResponse {
    /// The encoded response.
    pub fn serialize(&self) -> (r: Vec<u8>)
        ensures
            r@ == watermark_response_bytes(
                self.low_watermark,
                self.high_watermark,
                self.log_end_offset,
            ),
    {
        let mut buf: Vec<u8> = Vec::new();
        put_u64(&mut buf, self.low_watermark);
        put_u64(&mut buf, self.high_watermark);
        put_u64(&mut buf, self.log_end_offset);
        proof {
            assert(buf@ =~= watermark_response_bytes(
                self.low_watermark,
                self.high_watermark,
                self.log_end_offset,
            ));
        }
        buf
    }

    /// Decodes a response: succeeds exactly on twenty-four or more buffered
    /// bytes; trailing bytes are ignored.
    pub fn deserialize(buf: &[u8]) -> (r: Result<WatermarkResponse, ProtocolError>)
        ensures
            r is Ok <==> buf@.len() >= 24,
            r matches Ok(v) ==> v.low_watermark == be_to_u64(buf@.take(8)) && v.high_watermark
                == be_to_u64(buf@.skip(8).take(8)) && v.log_end_offset == be_to_u64(
                buf@.skip(8).skip(8).take(8),
            ),
            r matches Err(e) ==> e is PayloadError,
    {
        if buf.len() < 24 {
            return Err(
                ProtocolError::PayloadError(
                    "Incomplete watermark response payload".to_owned(),
                ),
            );
        }
        let mut cur: &[u8] = buf;
        let low_watermark = match take_u64(&mut cur) {
            Ok(x) => x,
            Err(_) => {
                return Err(ProtocolError::PayloadError("Incomplete payload".to_owned()));
            },
        };
        let high_watermark = match take_u64(&mut cur) {
            Ok(x) => x,
            Err(_) => {
                return Err(ProtocolError::PayloadError("Incomplete payload".to_owned()));
            },
        };
        let log_end_offset = match take_u64(&mut cur) {
            Ok(x) => x,
            Err(_) => {
                return Err(ProtocolError::PayloadError("Incomplete payload".to_owned()));
            },
        };
        Ok(WatermarkResponse { log_end_offset, low_watermark, high_watermark })
    }
}

// ---------------------------------------------------------------------------
// Consume response.
// ---------------------------------------------------------------------------

/// The answer to a consume that found a record: its offset and the message.
/// An empty payload (no record) is represented by the absence of this body,
/// not by a variant of it.
#[derive(Debug)]
pub struct ConsumeResponse {
    pub offset: u64,
    pub message: Message,
}

/// Layout: `[offset]` followed by the message's wire body.
pub open spec fn consume_response_bytes(offset: u64, m: crate::message::MessageView) -> Seq<u8> {
    u64_be_bytes(offset) + message_body_bytes(m)
}

impl ConsumeResponse {
    /// The encoded response.
    pub fn serialize(&self) -> (r: Vec<u8>)
        requires
            msg_fits(self.message@),
        ensures
            r@ == consume_response_bytes(self.offset, self.message@),
    {
        let mut buf: Vec<u8> = Vec::new();
        put_u64(&mut buf, self.offset);
        self.message.write_body(&mut buf);
        proof {
            assert(buf@ =~= consume_response_bytes(self.offset, self.message@));
        }
        buf
    }

    /// Decodes a response: the offset, then the message body; trailing bytes
    /// are ignored. Fails as a payload error when even the offset is missing
    /// and as a message decode error when the body is malformed.
    pub fn deserialize(buf: &[u8]) -> (r: Result<ConsumeResponse, ProtocolError>)
        ensures
            r is Ok <==> buf@.len() >= 8 && parse_message_body(buf@.skip(8)) is Ok,
            r matches Ok(v) ==> v.offset == be_to_u64(buf@.take(8)) && (parse_message_body(
                buf@.skip(8),
            ) matches Ok(t) && t.0 == v.message@),
            r matches Err(e) ==> ((buf@.len() < 8 && e is PayloadError) || (buf@.len() >= 8
                && e is MessageDeserializeError)),
    {
        if buf.len() < 8 {
            return Err(
                ProtocolError::PayloadError("Payload too short for offset".to_owned()),
            );
        }
        let mut cur: &[u8] = buf;
        let offset = match take_u64(&mut cur) {
            Ok(x) => x,
            Err(_) => {
                return Err(
                    ProtocolError::PayloadError("Payload too short for offset".to_owned()),
                );
            },
        };
        let message = match Message::parse_body_exec(&mut cur) {
            Ok(m) => m,
            Err(e) => {
                return Err(ProtocolError::MessageDeserializeError(e));
            },
        };
        Ok(ConsumeResponse { offset, message })
    }
}

// ---------------------------------------------------------------------------
// Consumer lag response.
// ---------------------------------------------------------------------------

/// One partition's lag for a consumer group.
#[derive(Debug, Clone)]
pub struct PartitionLag {
    pub topic: String,
    pub partition: u32,
    pub committed_offset: u64,
    pub high_watermark: u64,
    pub lag: u64,
}

impl View for PartitionLag {
    type V = (Seq<char>, u32, u64, u64, u64);

    open spec fn view(&self) -> (Seq<char>, u32, u64, u64, u64) {
        (self.topic@, self.partition, self.committed_offset, self.high_watermark, self.lag)
    }
}

/// Layout of one per-partition entry:
/// `[topic_len][topic][partition][committed][high][lag]`.
pub open spec fn partition_lag_bytes(l: (Seq<char>, u32, u64, u64, u64)) -> Seq<u8> {
    str_field_bytes(l.0) + u32_be_bytes(l.1) + u64_be_bytes(l.2) + u64_be_bytes(l.3)
        + u64_be_bytes(l.4)
}

/// Encoding of a list of per-partition entries, in order.
pub open spec fn partition_lags_bytes(ls: Seq<(Seq<char>, u32, u64, u64, u64)>) -> Seq<u8>
    decreases ls.len(),
{
    if ls.len() == 0 {
        Seq::empty()
    } else {
        partition_lag_bytes(ls[0]) + partition_lags_bytes(ls.drop_first())
    }
}

/// Appending one entry to a list appends its encoding to the list's.
pub proof fn lemma_partition_lags_bytes_snoc(
    ls: Seq<(Seq<char>, u32, u64, u64, u64)>,
    l: (Seq<char>, u32, u64, u64, u64),
)
    ensures
        partition_lags_bytes(ls.push(l)) == partition_lags_bytes(ls) + partition_lag_bytes(l),
    decreases ls.len(),
{
    if ls.len() == 0 {
        let p = ls.push(l);
        assert(p[0] == l);
        assert(p.drop_first() =~= Seq::<(Seq<char>, u32, u64, u64, u64)>::empty());
        assert(partition_lags_bytes(p.drop_first()) == Seq::<u8>::empty());
        assert(partition_lag_bytes(l) + Seq::<u8>::empty() =~= partition_lag_bytes(l));
        assert(partition_lags_bytes(ls) == Seq::<u8>::empty());
        assert(Seq::<u8>::empty() + partition_lag_bytes(l) =~= partition_lag_bytes(l));
    } else {
        assert(ls.push(l).drop_first() =~= ls.drop_first().push(l));
        lemma_partition_lags_bytes_snoc(ls.drop_first(), l);
        assert(ls.push(l)[0] == ls[0]);
        assert(partition_lag_bytes(ls[0]) + (partition_lags_bytes(ls.drop_first())
            + partition_lag_bytes(l)) =~= (partition_lag_bytes(ls[0]) + partition_lags_bytes(
            ls.drop_first(),
        )) + partition_lag_bytes(l));
    }
}

/// Parses one per-partition entry off the front of `b`.
pub open spec fn parse_partition_lag(b: Seq<u8>) -> Option<
    ((Seq<char>, u32, u64, u64, u64), Seq<u8>),
> {
    match parse_str_field(b) {
        Some((topic, b1)) => {
            if b1.len() < 28 {
                None
            } else {
                let partition = be_to_u32(b1.take(4));
                let b2 = b1.skip(4);
                let committed = be_to_u64(b2.take(8));
                let b3 = b2.skip(8);
                let high = be_to_u64(b3.take(8));
                let b4 = b3.skip(8);
                let lag = be_to_u64(b4.take(8));
                Some(((topic, partition, committed, high, lag), b4.skip(8)))
            }
        },
        None => None,
    }
}

/// Parses `n` per-partition entries off the front of `b`.
pub open spec fn parse_partition_lags(b: Seq<u8>, n: nat) -> Option<
    (Seq<(Seq<char>, u32, u64, u64, u64)>, Seq<u8>),
>
    decreases n,
{
    if n == 0 {
        Some((Seq::empty(), b))
    } else {
        match parse_partition_lag(b) {
            Some((l, rem)) => match parse_partition_lags(rem, (n - 1) as nat) {
                Some((rest, rem2)) => Some((seq![l] + rest, rem2)),
                None => None,
            },
            None => None,
        }
    }
}

/// The answer to a lag query: the group, its total lag, and the breakdown.
#[derive(Debug, Clone)]
pub struct ConsumerLagResponse {
    pub consumer_group: String,
    pub total_lag: u64,
    pub partitions: Vec<PartitionLag>,
}

/// Layout: `[group_len][group][total_lag][count]` then the entries.
pub open spec fn consumer_lag_response_bytes(
    group: Seq<char>,
    total: u64,
    ls: Seq<(Seq<char>, u32, u64, u64, u64)>,
) -> Seq<u8> {
    str_field_bytes(group) + u64_be_bytes(total) + u32_be_bytes(ls.len() as u32)
        + partition_lags_bytes(ls)
}

/// Parses a lag response; trailing bytes are ignored.
pub open spec fn parse_consumer_lag_response(b: Seq<u8>) -> Option<
    (Seq<char>, u64, Seq<(Seq<char>, u32, u64, u64, u64)>),
> {
    match parse_str_field(b) {
        Some((group, b1)) => {
            if b1.len() < 12 {
                None
            } else {
                let total = be_to_u64(b1.take(8));
                let b2 = b1.skip(8);
                let n = be_to_u32(b2.take(4));
                match parse_partition_lags(b2.skip(4), n as nat) {
                    Some((ls, _)) => Some((group, total, ls)),
                    None => None,
                }
            }
        },
        None => None,
    }
}

impl ConsumerLagResponse {
    /// The encoded response.
    pub fn serialize(&self) -> (r: Vec<u8>)
        requires
            encode_utf8(self.consumer_group@).len() <= u32::MAX,
            self.partitions@.len() <= u32::MAX,
            forall|i: int|
                0 <= i < self.partitions@.len() ==> encode_utf8(
                    (#[trigger] self.partitions@[i])@.0,
                ).len() <= u32::MAX,
        ensures
            r@ == consumer_lag_response_bytes(
                self.consumer_group@,
                self.total_lag,
                self.partitions@.map_values(|l: PartitionLag| l@),
            ),
    {
        let ghost ls = self.partitions@.map_values(|l: PartitionLag| l@);
        let mut buf: Vec<u8> = Vec::new();
        put_str_field(&mut buf, self.consumer_group.as_str());
        put_u64(&mut buf, self.total_lag);
        put_u32(&mut buf, self.partitions.len() as u32);
        let ghost before = buf@;
        let mut i: usize = 0;
        while i < self.partitions.len()
            invariant
                i <= self.partitions@.len(),
                ls.len() == self.partitions@.len(),
                forall|j: int|
                    0 <= j < self.partitions@.len() ==> ls[j] == (
                    #[trigger] self.partitions@[j])@,
                forall|j: int|
                    0 <= j < self.partitions@.len() ==> encode_utf8(
                        (#[trigger] self.partitions@[j])@.0,
                    ).len() <= u32::MAX,
                buf@ == before + partition_lags_bytes(ls.take(i as int)),
            decreases self.partitions@.len() - i,
        {
            let l = &self.partitions[i];
            put_str_field(&mut buf, l.topic.as_str());
            put_u32(&mut buf, l.partition);
            put_u64(&mut buf, l.committed_offset);
            put_u64(&mut buf, l.high_watermark);
            put_u64(&mut buf, l.lag);
            proof {
                lemma_partition_lags_bytes_snoc(ls.take(i as int), ls[i as int]);
                assert(ls.take(i as int).push(ls[i as int]) =~= ls.take(i + 1));
                assert(buf@ =~= before + partition_lags_bytes(ls.take(i + 1)));
            }
            i = i + 1;
        }
        proof {
            assert(ls.take(ls.len() as int) =~= ls);
            assert(buf@ =~= consumer_lag_response_bytes(
                self.consumer_group@,
                self.total_lag,
                ls,
            ));
        }
        buf
    }

    /// Decodes a response, exactly as [`parse_consumer_lag_response`]
    /// describes; any failure is a payload error.
    #[verifier::loop_isolation(false)]
    #[verifier::rlimit(100)]
    pub fn deserialize(buf: &[u8]) -> (r: Result<ConsumerLagResponse, ProtocolError>)
        ensures
            r is Ok <==> parse_consumer_lag_response(buf@) is Some,
            r matches Ok(v) ==> parse_consumer_lag_response(buf@) == Some(
                (
                    v.consumer_group@,
                    v.total_lag,
                    v.partitions@.map_values(|l: PartitionLag| l@),
                ),
            ),
            r matches Err(e) ==> e is PayloadError,
    {
        let mut cur: &[u8] = buf;
        let consumer_group = match take_str_field(&mut cur) {
            Some(g) => g,
            None => {
                return Err(
                    ProtocolError::PayloadError(
                        "Insufficient data for consumer group".to_owned(),
                    ),
                );
            },
        };
        if cur.len() < 12 {
            return Err(
                ProtocolError::PayloadError(
                    "Insufficient data for consumer lag response".to_owned(),
                ),
            );
        }
        let total_lag = match take_u64(&mut cur) {
            Ok(x) => x,
            Err(_) => {
                return Err(ProtocolError::PayloadError("Incomplete payload".to_owned()));
            },
        };
        let count = match take_u32(&mut cur) {
            Ok(x) => x,
            Err(_) => {
                return Err(ProtocolError::PayloadError("Incomplete payload".to_owned()));
            },
        };
        let ghost b3 = cur@;
        let mut partitions: Vec<PartitionLag> = Vec::new();
        let mut i: u32 = 0;
        while i < count
            invariant
                i <= count,
                partitions@.len() == i,
                parse_partition_lags(b3, count as nat) == (match parse_partition_lags(
                    cur@,
                    (count - i) as nat,
                ) {
                    Some((ls, rem)) => Some(
                        (partitions@.map_values(|l: PartitionLag| l@) + ls, rem),
                    ),
                    None => None::<(Seq<(Seq<char>, u32, u64, u64, u64)>, Seq<u8>)>,
                }),
            decreases count - i,
        {
            let ghost c0 = cur@;
            let ghost k = (count - i) as nat;
            let topic = match take_str_field(&mut cur) {
                Some(t) => t,
                None => {
                    proof {
                        assert(parse_partition_lags(c0, k) is None);
                    }
                    return Err(
                        ProtocolError::PayloadError(
                            "Insufficient data for topic".to_owned(),
                        ),
                    );
                },
            };
            if cur.len() < 28 {
                proof {
                    assert(parse_partition_lags(c0, k) is None);
                }
                return Err(
                    ProtocolError::PayloadError(
                        "Insufficient data for partition lag".to_owned(),
                    ),
                );
            }
            let partition = match take_u32(&mut cur) {
                Ok(x) => x,
                Err(_) => {
                    return Err(ProtocolError::PayloadError("Incomplete payload".to_owned()));
                },
            };
            let committed_offset = match take_u64(&mut cur) {
                Ok(x) => x,
                Err(_) => {
                    return Err(ProtocolError::PayloadError("Incomplete payload".to_owned()));
                },
            };
            let high_watermark = match take_u64(&mut cur) {
                Ok(x) => x,
                Err(_) => {
                    return Err(ProtocolError::PayloadError("Incomplete payload".to_owned()));
                },
            };
            let lag = match take_u64(&mut cur) {
                Ok(x) => x,
                Err(_) => {
                    return Err(ProtocolError::PayloadError("Incomplete payload".to_owned()));
                },
            };
            let ghost old_partitions = partitions@;
            partitions.push(
                PartitionLag { topic, partition, committed_offset, high_watermark, lag },
            );
            proof {
                let f = |l: PartitionLag| l@;
                let lv = partitions@[i as int]@;
                assert(partitions@.map_values(f) =~= old_partitions.map_values(f).push(lv));
                match parse_partition_lags(cur@, (k - 1) as nat) {
                    Some((ls, rem)) => {
                        assert(old_partitions.map_values(f) + (seq![lv] + ls)
                            =~= partitions@.map_values(f) + ls);
                    },
                    None => {},
                }
            }
            i = i + 1;
        }
        proof {
            assert(parse_partition_lags(cur@, 0) == Some(
                (Seq::<(Seq<char>, u32, u64, u64, u64)>::empty(), cur@),
            ));
            let f = |l: PartitionLag| l@;
            assert(partitions@.map_values(f) + Seq::empty() =~= partitions@.map_values(f));
        }
        Ok(ConsumerLagResponse { consumer_group, total_lag, partitions })
    }
}

// ---------------------------------------------------------------------------
// Partition health response.
// ---------------------------------------------------------------------------

/// The answer to a health query: segment count, total bytes, watermarks, and
/// the last cleanup time when one is tracked.
#[derive(Debug, Clone)]
pub struct PartitionHealthResponse {
    pub topic: String,
    pub partition: u32,
    pub segment_count: u32,
    pub total_size_bytes: u64,
    pub low_watermark: u64,
    pub high_watermark: u64,
    pub log_end_offset: u64,
    pub last_cleanup: Option<u64>,
}

/// Layout: `[topic_len][topic][partition][segment_count][total_size][low]
/// [high][log_end][has_cleanup]` then `[cleanup_ts]` when the flag is 1.
pub open spec fn partition_health_response_bytes(
    topic: Seq<char>,
    partition: u32,
    segment_count: u32,
    total_size: u64,
    low: u64,
    high: u64,
    log_end: u64,
    last_cleanup: Option<u64>,
) -> Seq<u8> {
    str_field_bytes(topic) + u32_be_bytes(partition) + u32_be_bytes(segment_count) + u64_be_bytes(
        total_size,
    ) + u64_be_bytes(low) + u64_be_bytes(high) + u64_be_bytes(log_end) + (match last_cleanup {
        Some(ts) => seq![1u8] + u64_be_bytes(ts),
        None => seq![0u8],
    })
}

/// Parses a health response; trailing bytes are ignored. A cleanup flag of 1
/// means a timestamp follows; any other flag byte means none.
pub open spec fn parse_partition_health_response(b: Seq<u8>) -> Option<
    (Seq<char>, u32, u32, u64, u64, u64, u64, Option<u64>),
> {
    match parse_str_field(b) {
        Some((topic, b1)) => {
            if b1.len() < 41 {
                None
            } else {
                let partition = be_to_u32(b1.take(4));
                let b2 = b1.skip(4);
                let segment_count = be_to_u32(b2.take(4));
                let b3 = b2.skip(4);
                let total_size = be_to_u64(b3.take(8));
                let b4 = b3.skip(8);
                let low = be_to_u64(b4.take(8));
                let b5 = b4.skip(8);
                let high = be_to_u64(b5.take(8));
                let b6 = b5.skip(8);
                let log_end = be_to_u64(b6.take(8));
                let b7 = b6.skip(8);
                let flag = b7[0];
                let b8 = b7.skip(1);
                if flag == 1 {
                    if b8.len() < 8 {
                        None
                    } else {
                        Some(
                            (
                                topic,
                                partition,
                                segment_count,
                                total_size,
                                low,
                                high,
                                log_end,
                                Some(be_to_u64(b8.take(8))),
                            ),
                        )
                    }
                } else {
                    Some((topic, partition, segment_count, total_size, low, high, log_end, None))
                }
            }
        },
        None => None,
    }
}

impl PartitionHealthResponse {
    /// The encoded response.
    pub fn serialize(&self) -> (r: Vec<u8>)
        requires
            encode_utf8(self.topic@).len() <= u32::MAX,
        ensures
            r@ == partition_health_response_bytes(
                self.topic@,
                self.partition,
                self.segment_count,
                self.total_size_bytes,
                self.low_watermark,
                self.high_watermark,
                self.log_end_offset,
                self.last_cleanup,
            ),
    {
        let mut buf: Vec<u8> = Vec::new();
        put_str_field(&mut buf, self.topic.as_str());
        put_u32(&mut buf, self.partition);
        put_u32(&mut buf, self.segment_count);
        put_u64(&mut buf, self.total_size_bytes);
        put_u64(&mut buf, self.low_watermark);
        put_u64(&mut buf, self.high_watermark);
        put_u64(&mut buf, self.log_end_offset);
        match self.last_cleanup {
            Some(ts) => {
                buf.push(1);
                put_u64(&mut buf, ts);
            },
            None => {
                buf.push(0);
            },
        }
        proof {
            assert(buf@ =~= partition_health_response_bytes(
                self.topic@,
                self.partition,
                self.segment_count,
                self.total_size_bytes,
                self.low_watermark,
                self.high_watermark,
                self.log_end_offset,
                self.last_cleanup,
            ));
        }
        buf
    }

    /// Decodes a response, exactly as [`parse_partition_health_response`]
    /// describes; any failure is a payload error.
    pub fn deserialize(buf: &[u8]) -> (r: Result<PartitionHealthResponse, ProtocolError>)
        ensures
            r is Ok <==> parse_partition_health_response(buf@) is Some,
            r matches Ok(v) ==> parse_partition_health_response(buf@) == Some(
                (
                    v.topic@,
                    v.partition,
                    v.segment_count,
                    v.total_size_bytes,
                    v.low_watermark,
                    v.high_watermark,
                    v.log_end_offset,
                    v.last_cleanup,
                ),
            ),
            r matches Err(e) ==> e is PayloadError,
    {
        let mut cur: &[u8] = buf;
        let topic = match take_str_field(&mut cur) {
            Some(t) => t,
            None => {
                return Err(
                    ProtocolError::PayloadError("Insufficient data for topic".to_owned()),
                );
            },
        };
        if cur.len() < 41 {
            return Err(
                ProtocolError::PayloadError(
                    "Insufficient data for partition health metrics".to_owned(),
                ),
            );
        }
        let partition = match take_u32(&mut cur) {
            Ok(x) => x,
            Err(_) => {
                return Err(ProtocolError::PayloadError("Incomplete payload".to_owned()));
            },
        };
        let segment_count = match take_u32(&mut cur) {
            Ok(x) => x,
            Err(_) => {
                return Err(ProtocolError::PayloadError("Incomplete payload".to_owned()));
            },
        };
        let total_size_bytes = match take_u64(&mut cur) {
            Ok(x) => x,
            Err(_) => {
                return Err(ProtocolError::PayloadError("Incomplete payload".to_owned()));
            },
        };
        let low_watermark = match take_u64(&mut cur) {
            Ok(x) => x,
            Err(_) => {
                return Err(ProtocolError::PayloadError("Incomplete payload".to_owned()));
            },
        };
        let high_watermark = match take_u64(&mut cur) {
            Ok(x) => x,
            Err(_) => {
                return Err(ProtocolError::PayloadError("Incomplete payload".to_owned()));
            },
        };
        let log_end_offset = match take_u64(&mut cur) {
            Ok(x) => x,
            Err(_) => {
                return Err(ProtocolError::PayloadError("Incomplete payload".to_owned()));
            },
        };
        let flag = match take_u8(&mut cur) {
            Ok(x) => x,
            Err(_) => {
                return Err(ProtocolError::PayloadError("Incomplete payload".to_owned()));
            },
        };
        let last_cleanup = if flag == 1 {
            match take_u64(&mut cur) {
                Ok(ts) => Some(ts),
                Err(_) => {
                    return Err(
                        ProtocolError::PayloadError(
                            "Insufficient data for last cleanup timestamp".to_owned(),
                        ),
                    );
                },
            }
        } else {
            None
        };
        Ok(
            PartitionHealthResponse {
                topic,
                partition,
                segment_count,
                total_size_bytes,
                low_watermark,
                high_watermark,
                log_end_offset,
                last_cleanup,
            },
        )
    }
}

} // verus!
