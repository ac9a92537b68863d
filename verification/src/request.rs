use vstd::prelude::*;

use vstd::utf8::encode_utf8;

use crate::errors::ProtocolError;
use crate::utils::{parse_str_field, put_str_field, str_field_bytes, take_str_field};
use crate::wire::{
    be_to_u32, be_to_u64, put_bytes, put_u32, put_u64, read_bytes_or_none, take_u32, take_u64,
    take_u8, u32_be_bytes, u64_be_bytes,
};

verus! {

// ---------------------------------------------------------------------------
// Shared shape for lists of strings (the consumer-lag request's topics).
// ---------------------------------------------------------------------------

/// Encoding of a list of strings, each length-prefixed, in order.
pub open spec fn str_list_bytes(ts: Seq<Seq<char>>) -> Seq<u8>
    decreases ts.len(),
{
    if ts.len() == 0 {
        Seq::empty()
    } else {
        str_field_bytes(ts[0]) + str_list_bytes(ts.drop_first())
    }
}

/// Appending one string to a list appends its encoding to the list's.
pub proof fn lemma_str_list_bytes_snoc(ts: Seq<Seq<char>>, t: Seq<char>)
    ensures
        str_list_bytes(ts.push(t)) == str_list_bytes(ts) + str_field_bytes(t),
    decreases ts.len(),
{
    if ts.len() == 0 {
        let p = ts.push(t);
        assert(p[0] == t);
        assert(p.drop_first() =~= Seq::<Seq<char>>::empty());
        assert(str_list_bytes(p.drop_first()) == Seq::<u8>::empty());
        assert(str_field_bytes(t) + Seq::<u8>::empty() =~= str_field_bytes(t));
        assert(str_list_bytes(ts) == Seq::<u8>::empty());
        assert(Seq::<u8>::empty() + str_field_bytes(t) =~= str_field_bytes(t));
    } else {
        assert(ts.push(t).drop_first() =~= ts.drop_first().push(t));
        lemma_str_list_bytes_snoc(ts.drop_first(), t);
        assert(ts.push(t)[0] == ts[0]);
        assert(str_field_bytes(ts[0]) + (str_list_bytes(ts.drop_first()) + str_field_bytes(t))
            =~= (str_field_bytes(ts[0]) + str_list_bytes(ts.drop_first())) + str_field_bytes(t));
    }
}

/// Parses `n` length-prefixed strings off the front of `b`.
pub open spec fn parse_str_list(b: Seq<u8>, n: nat) -> Option<(Seq<Seq<char>>, Seq<u8>)>
    decreases n,
{
    if n == 0 {
        Some((Seq::empty(), b))
    } else {
        match parse_str_field(b) {
            Some((s, rem)) => match parse_str_list(rem, (n - 1) as nat) {
                Some((rest, rem2)) => Some((seq![s] + rest, rem2)),
                None => None,
            },
            None => None,
        }
    }
}

// ---------------------------------------------------------------------------
// Produce.
// ---------------------------------------------------------------------------

/// A produce request: the topic to write to and the raw message value.
#[derive(Debug)]
pub struct ProduceRequest {
    pub topic: String,
    pub message: Vec<u8>,
}

/// Layout: `[topic_len][topic][message_len][message]`.
pub open spec fn produce_request_bytes(topic: Seq<char>, message: Seq<u8>) -> Seq<u8> {
    str_field_bytes(topic) + u32_be_bytes(message.len() as u32) + message
}

/// Parses a produce request; trailing bytes are ignored.
pub open spec fn parse_produce_request(b: Seq<u8>) -> Option<(Seq<char>, Seq<u8>)> {
    match parse_str_field(b) {
        Some((topic, b1)) => {
            if b1.len() < 4 {
                None
            } else {
                let mlen = be_to_u32(b1.take(4)) as int;
                let b2 = b1.skip(4);
                if b2.len() < mlen {
                    None
                } else {
                    Some((topic, b2.take(mlen)))
                }
            }
        },
        None => None,
    }
}

impl ProduceRequest {
    /// The encoded request.
    pub fn serialize(&self) -> (r: Vec<u8>)
        requires
            encode_utf8(self.topic@).len() <= u32::MAX,
            self.message@.len() <= u32::MAX,
        ensures
            r@ == produce_request_bytes(self.topic@, self.message@),
    {
        let mut buf: Vec<u8> = Vec::new();
        put_str_field(&mut buf, self.topic.as_str());
        put_u32(&mut buf, self.message.len() as u32);
        put_bytes(&mut buf, self.message.as_slice());
        proof {
            assert(buf@ =~= produce_request_bytes(self.topic@, self.message@));
        }
        buf
    }

    /// Decodes a request, exactly as [`parse_produce_request`] describes;
    /// any failure is a payload error.
    pub fn deserialize(buf: &[u8]) -> (r: Result<ProduceRequest, ProtocolError>)
        ensures
            r is Ok <==> parse_produce_request(buf@) is Some,
            r matches Ok(v) ==> (parse_produce_request(buf@) matches Some(t) && t.0 == v.topic@
                && t.1 == v.message@),
            r matches Err(e) ==> e is PayloadError,
    {
        let mut cur: &[u8] = buf;
        let topic = match take_str_field(&mut cur) {
            Some(t) => t,
            None => {
                return Err(ProtocolError::PayloadError("Incomplete produce payload".to_owned()));
            },
        };
        let mlen = match take_u32(&mut cur) {
            Ok(x) => x,
            Err(_) => {
                return Err(ProtocolError::PayloadError("Incomplete produce payload".to_owned()));
            },
        };
        let message = match read_bytes_or_none(&mut cur, mlen as usize) {
            Some(m) => m,
            None => {
                return Err(ProtocolError::PayloadError("Incomplete message payload".to_owned()));
            },
        };
        Ok(ProduceRequest { topic, message })
    }
}

// ---------------------------------------------------------------------------
// Consume.
// ---------------------------------------------------------------------------

/// A consume request: topic, partition and the offset to read from.
#[derive(Debug)]
pub struct ConsumeRequest {
    pub topic: String,
    pub partition: u32,
    pub offset: u64,
}

/// Layout: `[topic_len][topic][partition][offset]`.
pub open spec fn consume_request_bytes(topic: Seq<char>, partition: u32, offset: u64) -> Seq<u8> {
    str_field_bytes(topic) + u32_be_bytes(partition) + u64_be_bytes(offset)
}

/// Parses a consume request; trailing bytes are ignored.
pub open spec fn parse_consume_request(b: Seq<u8>) -> Option<(Seq<char>, u32, u64)> {
    match parse_str_field(b) {
        Some((topic, b1)) => {
            if b1.len() < 4 {
                None
            } else {
                let partition = be_to_u32(b1.take(4));
                let b2 = b1.skip(4);
                if b2.len() < 8 {
                    None
                } else {
                    Some((topic, partition, be_to_u64(b2.take(8))))
                }
            }
        },
        None => None,
    }
}

impl ConsumeRequest {
    /// The encoded request.
    pub fn serialize(&self) -> (r: Vec<u8>)
        requires
            encode_utf8(self.topic@).len() <= u32::MAX,
        ensures
            r@ == consume_request_bytes(self.topic@, self.partition, self.offset),
    {
        let mut buf: Vec<u8> = Vec::new();
        put_str_field(&mut buf, self.topic.as_str());
        put_u32(&mut buf, self.partition);
        put_u64(&mut buf, self.offset);
        proof {
            assert(buf@ =~= consume_request_bytes(self.topic@, self.partition, self.offset));
        }
        buf
    }

    /// Decodes a request, exactly as [`parse_consume_request`] describes;
    /// any failure is a payload error.
    pub fn deserialize(buf: &[u8]) -> (r: Result<ConsumeRequest, ProtocolError>)
        ensures
            r is Ok <==> parse_consume_request(buf@) is Some,
            r matches Ok(v) ==> parse_consume_request(buf@) == Some(
                (v.topic@, v.partition, v.offset),
            ),
            r matches Err(e) ==> e is PayloadError,
    {
        let mut cur: &[u8] = buf;
        let topic = match take_str_field(&mut cur) {
            Some(t) => t,
            None => {
                return Err(ProtocolError::PayloadError("Incomplete consume payload".to_owned()));
            },
        };
        let partition = match take_u32(&mut cur) {
            Ok(x) => x,
            Err(_) => {
                return Err(ProtocolError::PayloadError("Incomplete consume payload".to_owned()));
            },
        };
        let offset = match take_u64(&mut cur) {
            Ok(x) => x,
            Err(_) => {
                return Err(ProtocolError::PayloadError("Incomplete consume payload".to_owned()));
            },
        };
        Ok(ConsumeRequest { topic, partition, offset })
    }
}

// ---------------------------------------------------------------------------
// Consume with group.
// ---------------------------------------------------------------------------

/// A group consume request: topic, partition and consumer group.
pub struct ConsumeWithGroupRequest {
    pub topic: String,
    pub partition: u32,
    pub group: String,
}

/// Layout: `[topic_len][topic][partition][group_len][group]`.
pub open spec fn consume_with_group_request_bytes(
    topic: Seq<char>,
    partition: u32,
    group: Seq<char>,
) -> Seq<u8> {
    str_field_bytes(topic) + u32_be_bytes(partition) + str_field_bytes(group)
}

/// Parses a group consume request; trailing bytes are ignored.
pub open spec fn parse_consume_with_group_request(b: Seq<u8>) -> Option<
    (Seq<char>, u32, Seq<char>),
> {
    match parse_str_field(b) {
        Some((topic, b1)) => {
            if b1.len() < 4 {
                None
            } else {
                let partition = be_to_u32(b1.take(4));
                match parse_str_field(b1.skip(4)) {
                    Some((group, _)) => Some((topic, partition, group)),
                    None => None,
                }
            }
        },
        None => None,
    }
}

impl ConsumeWithGroupRequest {
    /// The encoded request.
    pub fn serialize(&self) -> (r: Vec<u8>)
        requires
            encode_utf8(self.topic@).len() <= u32::MAX,
            encode_utf8(self.group@).len() <= u32::MAX,
        ensures
            r@ == consume_with_group_request_bytes(self.topic@, self.partition, self.group@),
    {
        let mut buf: Vec<u8> = Vec::new();
        put_str_field(&mut buf, self.topic.as_str());
        put_u32(&mut buf, self.partition);
        put_str_field(&mut buf, self.group.as_str());
        proof {
            assert(buf@ =~= consume_with_group_request_bytes(
                self.topic@,
                self.partition,
                self.group@,
            ));
        }
        buf
    }

    /// Decodes a request, exactly as [`parse_consume_with_group_request`]
    /// describes; any failure is a payload error.
    pub fn deserialize(buf: &[u8]) -> (r: Result<ConsumeWithGroupRequest, ProtocolError>)
        ensures
            r is Ok <==> parse_consume_with_group_request(buf@) is Some,
            r matches Ok(v) ==> parse_consume_with_group_request(buf@) == Some(
                (v.topic@, v.partition, v.group@),
            ),
            r matches Err(e) ==> e is PayloadError,
    {
        let mut cur: &[u8] = buf;
        let topic = match take_str_field(&mut cur) {
            Some(t) => t,
            None => {
                return Err(
                    ProtocolError::PayloadError("Insufficient data for topic".to_owned()),
                );
            },
        };
        let partition = match take_u32(&mut cur) {
            Ok(x) => x,
            Err(_) => {
                return Err(
                    ProtocolError::PayloadError("Insufficient data for partition".to_owned()),
                );
            },
        };
        let group = match take_str_field(&mut cur) {
            Some(g) => g,
            None => {
                return Err(
                    ProtocolError::PayloadError("Buffer too short for group".to_owned()),
                );
            },
        };
        Ok(ConsumeWithGroupRequest { topic, partition, group })
    }
}

// ---------------------------------------------------------------------------
// Commit offset.
// ---------------------------------------------------------------------------

/// A commit request: the group's next read offset for (topic, partition).
pub struct CommitOffsetRequest {
    pub topic: String,
    pub partition: u32,
    pub group: String,
    pub offset: u64,
}

/// Layout: `[topic_len][topic][partition][group_len][group][offset]`.
pub open spec fn commit_offset_request_bytes(
    topic: Seq<char>,
    partition: u32,
    group: Seq<char>,
    offset: u64,
) -> Seq<u8> {
    str_field_bytes(topic) + u32_be_bytes(partition) + str_field_bytes(group) + u64_be_bytes(
        offset,
    )
}

/// Parses a commit request; trailing bytes are ignored.
pub open spec fn parse_commit_offset_request(b: Seq<u8>) -> Option<
    (Seq<char>, u32, Seq<char>, u64),
> {
    match parse_str_field(b) {
        Some((topic, b1)) => {
            if b1.len() < 4 {
                None
            } else {
                let partition = be_to_u32(b1.take(4));
                match parse_str_field(b1.skip(4)) {
                    Some((group, b2)) => {
                        if b2.len() < 8 {
                            None
                        } else {
                            Some((topic, partition, group, be_to_u64(b2.take(8))))
                        }
                    },
                    None => None,
                }
            }
        },
        None => None,
    }
}

impl CommitOffsetRequest {
    /// The encoded request.
    pub fn serialize(&self) -> (r: Vec<u8>)
        requires
            encode_utf8(self.topic@).len() <= u32::MAX,
            encode_utf8(self.group@).len() <= u32::MAX,
        ensures
            r@ == commit_offset_request_bytes(
                self.topic@,
                self.partition,
                self.group@,
                self.offset,
            ),
    {
        let mut buf: Vec<u8> = Vec::new();
        put_str_field(&mut buf, self.topic.as_str());
        put_u32(&mut buf, self.partition);
        put_str_field(&mut buf, self.group.as_str());
        put_u64(&mut buf, self.offset);
        proof {
            assert(buf@ =~= commit_offset_request_bytes(
                self.topic@,
                self.partition,
                self.group@,
                self.offset,
            ));
        }
        buf
    }

    /// Decodes a request, exactly as [`parse_commit_offset_request`]
    /// describes; any failure is a payload error.
    pub fn deserialize(buf: &[u8]) -> (r: Result<CommitOffsetRequest, ProtocolError>)
        ensures
            r is Ok <==> parse_commit_offset_request(buf@) is Some,
            r matches Ok(v) ==> parse_commit_offset_request(buf@) == Some(
                (v.topic@, v.partition, v.group@, v.offset),
            ),
            r matches Err(e) ==> e is PayloadError,
    {
        let mut cur: &[u8] = buf;
        let topic = match take_str_field(&mut cur) {
            Some(t) => t,
            None => {
                return Err(
                    ProtocolError::PayloadError("Insufficient data for topic".to_owned()),
                );
            },
        };
        let partition = match take_u32(&mut cur) {
            Ok(x) => x,
            Err(_) => {
                return Err(
                    ProtocolError::PayloadError("Insufficient data for partition".to_owned()),
                );
            },
        };
        let group = match take_str_field(&mut cur) {
            Some(g) => g,
            None => {
                return Err(
                    ProtocolError::PayloadError("Insufficient data for group".to_owned()),
                );
            },
        };
        let offset = match take_u64(&mut cur) {
            Ok(x) => x,
            Err(_) => {
                return Err(
                    ProtocolError::PayloadError("Insufficient data for offset".to_owned()),
                );
            },
        };
        Ok(CommitOffsetRequest { topic, partition, group, offset })
    }
}

// ---------------------------------------------------------------------------
// Watermark and partition health (same shape).
// ---------------------------------------------------------------------------

/// A watermark query: topic and partition.
#[derive(Debug)]
pub struct WatermarkRequest {
    pub topic: String,
    pub partition: u32,
}

/// A partition-health query: topic and partition.
#[derive(Debug)]
pub struct PartitionHealthRequest {
    pub topic: String,
    pub partition: u32,
}

/// Layout shared by watermark and health queries:
/// `[topic_len][topic][partition]`.
pub open spec fn topic_partition_bytes(topic: Seq<char>, partition: u32) -> Seq<u8> {
    str_field_bytes(topic) + u32_be_bytes(partition)
}

/// Parses a `[topic][partition]` query; trailing bytes are ignored.
pub open spec fn parse_topic_partition(b: Seq<u8>) -> Option<(Seq<char>, u32)> {
    match parse_str_field(b) {
        Some((topic, b1)) => {
            if b1.len() < 4 {
                None
            } else {
                Some((topic, be_to_u32(b1.take(4))))
            }
        },
        None => None,
    }
}

impl WatermarkRequest {
    /// The encoded request.
    pub fn serialize(&self) -> (r: Vec<u8>)
        requires
            encode_utf8(self.topic@).len() <= u32::MAX,
        ensures
            r@ == topic_partition_bytes(self.topic@, self.partition),
    {
        let mut buf: Vec<u8> = Vec::new();
        put_str_field(&mut buf, self.topic.as_str());
        put_u32(&mut buf, self.partition);
        proof {
            assert(buf@ =~= topic_partition_bytes(self.topic@, self.partition));
        }
        buf
    }

    /// Decodes a request, exactly as [`parse_topic_partition`] describes;
    /// any failure is a payload error.
    pub fn deserialize(buf: &[u8]) -> (r: Result<WatermarkRequest, ProtocolError>)
        ensures
            r is Ok <==> parse_topic_partition(buf@) is Some,
            r matches Ok(v) ==> parse_topic_partition(buf@) == Some((v.topic@, v.partition)),
            r matches Err(e) ==> e is PayloadError,
    {
        let mut cur: &[u8] = buf;
        let topic = match take_str_field(&mut cur) {
            Some(t) => t,
            None => {
                return Err(
                    ProtocolError::PayloadError("Insufficient data for topic".to_owned()),
                );
            },
        };
        let partition = match take_u32(&mut cur) {
            Ok(x) => x,
            Err(_) => {
                return Err(
                    ProtocolError::PayloadError("Insufficient data for partition".to_owned()),
                );
            },
        };
        Ok(WatermarkRequest { topic, partition })
    }
}

impl PartitionHealthRequest {
    /// The encoded request.
    pub fn serialize(&self) -> (r: Vec<u8>)
        requires
            encode_utf8(self.topic@).len() <= u32::MAX,
        ensures
            r@ == topic_partition_bytes(self.topic@, self.partition),
    {
        let mut buf: Vec<u8> = Vec::new();
        put_str_field(&mut buf, self.topic.as_str());
        put_u32(&mut buf, self.partition);
        proof {
            assert(buf@ =~= topic_partition_bytes(self.topic@, self.partition));
        }
        buf
    }

    /// Decodes a request, exactly as [`parse_topic_partition`] describes;
    /// any failure is a payload error.
    pub fn deserialize(buf: &[u8]) -> (r: Result<PartitionHealthRequest, ProtocolError>)
        ensures
            r is Ok <==> parse_topic_partition(buf@) is Some,
            r matches Ok(v) ==> parse_topic_partition(buf@) == Some((v.topic@, v.partition)),
            r matches Err(e) ==> e is PayloadError,
    {
        let mut cur: &[u8] = buf;
        let topic = match take_str_field(&mut cur) {
            Some(t) => t,
            None => {
                return Err(
                    ProtocolError::PayloadError("Insufficient data for topic".to_owned()),
                );
            },
        };
        let partition = match take_u32(&mut cur) {
            Ok(x) => x,
            Err(_) => {
                return Err(
                    ProtocolError::PayloadError("Insufficient data for partition".to_owned()),
                );
            },
        };
        Ok(PartitionHealthRequest { topic, partition })
    }
}

// ---------------------------------------------------------------------------
// Consumer lag.
// ---------------------------------------------------------------------------

/// A lag query: the consumer group and, optionally, the topics to restrict
/// it to. `None` means every topic the broker knows.
#[derive(Debug)]
pub struct ConsumerLagRequest {
    pub consumer_group: String,
    pub topics: Option<Vec<String>>,
}

/// Layout: `[group_len][group][has_topics]` then, when `has_topics` is 1,
/// `[count]` and that many length-prefixed topics.
pub open spec fn consumer_lag_request_bytes(
    group: Seq<char>,
    topics: Option<Seq<Seq<char>>>,
) -> Seq<u8> {
    str_field_bytes(group) + (match topics {
        Some(ts) => seq![1u8] + u32_be_bytes(ts.len() as u32) + str_list_bytes(ts),
        None => seq![0u8],
    })
}

/// Parses a lag query; trailing bytes are ignored. A topics flag of 1 means
/// a count-prefixed list follows; any other flag byte means no list.
pub open spec fn parse_consumer_lag_request(b: Seq<u8>) -> Option<
    (Seq<char>, Option<Seq<Seq<char>>>),
> {
    match parse_str_field(b) {
        Some((group, b1)) => {
            if b1.len() < 1 {
                None
            } else {
                let flag = b1[0];
                let b2 = b1.skip(1);
                if flag == 1 {
                    if b2.len() < 4 {
                        None
                    } else {
                        let n = be_to_u32(b2.take(4));
                        match parse_str_list(b2.skip(4), n as nat) {
                            Some((ts, _)) => Some((group, Some(ts))),
                            None => None,
                        }
                    }
                } else {
                    Some((group, None))
                }
            }
        },
        None => None,
    }
}

impl ConsumerLagRequest {
    /// The encoded request.
    pub fn serialize(&self) -> (r: Vec<u8>)
        requires
            encode_utf8(self.consumer_group@).len() <= u32::MAX,
            self.topics matches Some(ts) ==> ts@.len() <= u32::MAX && forall|i: int|
                0 <= i < ts@.len() ==> encode_utf8(#[trigger] ts@[i]@).len() <= u32::MAX,
        ensures
            r@ == consumer_lag_request_bytes(
                self.consumer_group@,
                match self.topics {
                    Some(ts) => Some(ts@.map_values(|t: String| t@)),
                    None => None,
                },
            ),
    {
        let mut buf: Vec<u8> = Vec::new();
        put_str_field(&mut buf, self.consumer_group.as_str());
        match &self.topics {
            Some(topics) => {
                let ghost ts = topics@.map_values(|t: String| t@);
                buf.push(1);
                put_u32(&mut buf, topics.len() as u32);
                let ghost before = buf@;
                let mut i: usize = 0;
                while i < topics.len()
                    invariant
                        i <= topics.len(),
                        ts.len() == topics@.len(),
                        forall|j: int| 0 <= j < topics@.len() ==> ts[j] == #[trigger] topics@[j]@,
                        forall|j: int|
                            0 <= j < topics@.len() ==> encode_utf8(#[trigger] ts[j]).len()
                                <= u32::MAX,
                        buf@ == before + str_list_bytes(ts.take(i as int)),
                    decreases topics.len() - i,
                {
                    put_str_field(&mut buf, topics[i].as_str());
                    proof {
                        lemma_str_list_bytes_snoc(ts.take(i as int), ts[i as int]);
                        assert(ts.take(i as int).push(ts[i as int]) =~= ts.take(i + 1));
                        assert(buf@ =~= before + str_list_bytes(ts.take(i + 1)));
                    }
                    i = i + 1;
                }
                proof {
                    assert(ts.take(ts.len() as int) =~= ts);
                    assert(buf@ =~= consumer_lag_request_bytes(self.consumer_group@, Some(ts)));
                }
            },
            None => {
                buf.push(0);
                proof {
                    assert(buf@ =~= consumer_lag_request_bytes(
                        self.consumer_group@,
                        None::<Seq<Seq<char>>>,
                    ));
                }
            },
        }
        buf
    }

    /// Decodes a request, exactly as [`parse_consumer_lag_request`]
    /// describes; any failure is a payload error.
    #[verifier::loop_isolation(false)]
    pub fn deserialize(buf: &[u8]) -> (r: Result<ConsumerLagRequest, ProtocolError>)
        ensures
            r is Ok <==> parse_consumer_lag_request(buf@) is Some,
            r matches Ok(v) ==> parse_consumer_lag_request(buf@) == Some(
                (
                    v.consumer_group@,
                    match v.topics {
                        Some(ts) => Some(ts@.map_values(|t: String| t@)),
                        None => None,
                    },
                ),
            ),
            r matches Err(e) ==> e is PayloadError,
    {
        let mut cur: &[u8] = buf;
        let consumer_group = match take_str_field(&mut cur) {
            Some(g) => g,
            None => {
                return Err(
                    ProtocolError::PayloadError(
                        "Insufficient data for consumer group".to_owned(),
                    ),
                );
            },
        };
        let flag = match take_u8(&mut cur) {
            Ok(x) => x,
            Err(_) => {
                return Err(ProtocolError::PayloadError("Missing topics flag".to_owned()));
            },
        };
        if flag != 1 {
            return Ok(ConsumerLagRequest { consumer_group, topics: None });
        }
        let count = match take_u32(&mut cur) {
            Ok(x) => x,
            Err(_) => {
                return Err(
                    ProtocolError::PayloadError("Insufficient data for topics count".to_owned()),
                );
            },
        };
        let ghost b3 = cur@;
        let mut topics: Vec<String> = Vec::new();
        let mut i: u32 = 0;
        while i < count
            invariant
                i <= count,
                topics@.len() == i,
                parse_str_list(b3, count as nat) == (match parse_str_list(
                    cur@,
                    (count - i) as nat,
                ) {
                    Some((ts, rem)) => Some(
                        (topics@.map_values(|t: String| t@) + ts, rem),
                    ),
                    None => None::<(Seq<Seq<char>>, Seq<u8>)>,
                }),
            decreases count - i,
        {
            let ghost c0 = cur@;
            let ghost k = (count - i) as nat;
            let t = match take_str_field(&mut cur) {
                Some(t) => t,
                None => {
                    proof {
                        assert(parse_str_list(c0, k) is None);
                    }
                    return Err(
                        ProtocolError::PayloadError("Insufficient data for topic".to_owned()),
                    );
                },
            };
            let ghost old_topics = topics@;
            topics.push(t);
            proof {
                let f = |t: String| t@;
                let tv = topics@[i as int]@;
                assert(topics@.map_values(f) =~= old_topics.map_values(f).push(tv));
                match parse_str_list(cur@, (k - 1) as nat) {
                    Some((ts, rem)) => {
                        assert(old_topics.map_values(f) + (seq![tv] + ts) =~= topics@.map_values(f)
                            + ts);
                    },
                    None => {},
                }
            }
            i = i + 1;
        }
        proof {
            assert(parse_str_list(cur@, 0) == Some((Seq::<Seq<char>>::empty(), cur@)));
            let f = |t: String| t@;
            assert(topics@.map_values(f) + Seq::empty() =~= topics@.map_values(f));
        }
        Ok(ConsumerLagRequest { consumer_group, topics: Some(topics) })
    }
}

} // verus!
