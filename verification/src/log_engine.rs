use vstd::prelude::*;

use crate::config::BrokerConfig;
use crate::errors::EngineError;
use crate::message::{msg_wf, Message, MessageView};
use crate::offset_tracker::{store_fetch, OffsetTracker};
use crate::partition::Partition;
use crate::topic::{route_of, Topic};

verus! {

/// How many partitions a topic created without an explicit count gets.
pub const DEFAULT_PARTITION_CNT: u32 = 1;

/// The position of the topic with the given name, or -1 when none has it.
pub open spec fn topic_idx(ts: Seq<Topic>, name: Seq<char>) -> int
    decreases ts.len(),
{
    if ts.len() == 0 {
        -1
    } else if ts[0].name@ == name {
        0
    } else {
        let r = topic_idx(ts.drop_first(), name);
        if r == -1 {
            -1
        } else {
            r + 1
        }
    }
}

/// What one produce does to a topic: the message lands in the routed
/// partition at its log end, and nothing else moves.
pub open spec fn topic_produced(t0: Topic, t1: Topic, pid: u32, off: u64, m: MessageView) -> bool {
    &&& pid == route_of(m, t0.next_partition, t0.partition_count)
    &&& pid < t0.partition_count
    &&& t1.name == t0.name
    &&& t1.partition_count == t0.partition_count
    &&& t1.partitions@.len() == t0.partitions@.len()
    &&& off == t0.partitions@[pid as int].state.log_end_offset
    &&& t1.partitions@[pid as int].recs() == t0.partitions@[pid as int].recs().push((off, m))
    &&& t1.partitions@[pid as int].state.log_end_offset == off + 1
    &&& forall|j: int|
        0 <= j < t0.partitions@.len() && j != pid ==> t1.partitions@[j] == (
        #[trigger] t0.partitions@[j])
}

/// The record a consume at `offset` yields from a partition: the first
/// retained record at or after `offset`, when the offset lies in a retained
/// segment's range, and nothing otherwise.
pub open spec fn consume_result(p: Partition, offset: u64) -> Option<MessageView> {
    if p.contains_offset(offset) && offset - p.start_offset() < p.recs().len() {
        Some(p.recs()[offset - p.start_offset()].1)
    } else {
        None
    }
}

/// The top-level facade: topics, the consumer-offset tracker, and the
/// broker configuration, all owned here. The surrounding program serialises
/// access and mirrors state changes to disk.
pub struct LogEngine {
    pub topics: Vec<Topic>,
    pub auto_create_topic: bool,
    pub offset_tracker: OffsetTracker,
    pub config: BrokerConfig,
}

impl LogEngine {
    /// The engine's invariant: every topic is well formed and names are
    /// unique.
    pub open spec fn wf(&self) -> bool {
        &&& forall|i: int| 0 <= i < self.topics@.len() ==> (#[trigger] self.topics@[i]).wf()
        &&& forall|i: int, j: int|
            0 <= i < j < self.topics@.len() ==> (#[trigger] self.topics@[i]).name@ != (
            #[trigger] self.topics@[j]).name@
    }

    /// A fresh engine with no topics, a clean tracker, and auto-creation of
    /// topics on first produce enabled.
    pub fn new(config: BrokerConfig, offsets_path: String) -> (r: LogEngine)
        ensures
            r.wf(),
            r.topics@.len() == 0,
            r.auto_create_topic,
            r.config == config,
            r.offset_tracker.store@.len() == 0,
            r.offset_tracker.dirty@.len() == 0,
    {
        LogEngine {
            topics: Vec::new(),
            auto_create_topic: true,
            offset_tracker: OffsetTracker::new(offsets_path),
            config,
        }
    }

    /// The position of the named topic, when the engine has it.
    fn find_topic(&self, name: &str) -> (r: Option<usize>)
        ensures
            r matches Some(i) ==> i == topic_idx(self.topics@, name@) && i < self.topics@.len()
                && self.topics@[i as int].name@ == name@,
            r is None ==> topic_idx(self.topics@, name@) == -1,
    {
        let name_owned = name.to_owned();
        let ghost ts = self.topics@;
        proof {
            assert(ts.skip(0) =~= ts);
        }
        let mut i: usize = 0;
        while i < self.topics.len()
            invariant
                i <= ts.len(),
                ts == self.topics@,
                name_owned@ == name@,
                topic_idx(ts, name@) == (if topic_idx(ts.skip(i as int), name@) == -1 {
                    -1int
                } else {
                    i + topic_idx(ts.skip(i as int), name@)
                }),
            decreases ts.len() - i,
        {
            proof {
                assert(ts.skip(i as int)[0] == ts[i as int]);
                assert(ts.skip(i as int).drop_first() =~= ts.skip(i as int + 1));
            }
            if self.topics[i].name == name_owned {
                return Some(i);
            }
            proof {
                assert(ts[i as int].name@ != name@);
                Self::lemma_idx_lower_bound(ts.skip(i as int + 1), name@);
                assert(topic_idx(ts.skip(i as int), name@) == (if topic_idx(
                    ts.skip(i as int + 1),
                    name@,
                ) == -1 {
                    -1int
                } else {
                    1 + topic_idx(ts.skip(i as int + 1), name@)
                }));
            }
            i = i + 1;
        }
        proof {
            assert(ts.skip(ts.len() as int) =~= Seq::<Topic>::empty());
        }
        None
    }

    /// Whether the engine has a topic with this name.
    pub fn has_topic(&self, name: &str) -> (r: bool)
        ensures
            r <==> topic_idx(self.topics@, name@) >= 0,
    {
        match self.find_topic(name) {
            Some(_) => true,
            None => false,
        }
    }

    /// Adds a topic recovered from disk. The caller checks the name is not
    /// taken ([`LogEngine::has_topic`]) before calling.
    pub fn insert_recovered_topic(&mut self, topic: Topic)
        requires
            old(self).wf(),
            topic.wf(),
            topic_idx(old(self).topics@, topic.name@) == -1,
        ensures
            final(self).wf(),
            final(self).topics@ == old(self).topics@.push(topic),
            final(self).offset_tracker == old(self).offset_tracker,
            final(self).config == old(self).config,
            final(self).auto_create_topic == old(self).auto_create_topic,
    {
        proof {
            Self::lemma_absent_topic(self.topics@, topic.name@);
        }
        self.topics.push(topic);
        proof {
            assert forall|i: int, j: int|
                0 <= i < j < self.topics@.len() implies (#[trigger] self.topics@[i]).name@ != (
            #[trigger] self.topics@[j]).name@ by {
                if j == self.topics@.len() - 1 {
                    assert(self.topics@[i] == old(self).topics@[i]);
                }
            }
        }
    }

    /// A topic index is either the absent sentinel or a position.
    pub proof fn lemma_idx_range(ts: Seq<Topic>, name: Seq<char>)
        ensures
            -1 <= topic_idx(ts, name) < ts.len(),
            topic_idx(ts, name) >= 0 ==> ts[topic_idx(ts, name)].name@ == name,
        decreases ts.len(),
    {
        if ts.len() > 0 {
            Self::lemma_idx_range(ts.drop_first(), name);
        }
    }

    /// A name whose index is -1 belongs to no topic.
    proof fn lemma_absent_topic(ts: Seq<Topic>, name: Seq<char>)
        requires
            topic_idx(ts, name) == -1,
        ensures
            forall|i: int| 0 <= i < ts.len() ==> (#[trigger] ts[i]).name@ != name,
        decreases ts.len(),
    {
        if ts.len() > 0 {
            assert(ts[0].name@ != name);
            Self::lemma_idx_lower_bound(ts.drop_first(), name);
            assert(topic_idx(ts.drop_first(), name) == -1);
            Self::lemma_absent_topic(ts.drop_first(), name);
            assert(forall|i: int|
                0 < i < ts.len() ==> (#[trigger] ts[i]) == ts.drop_first()[i - 1]);
        }
    }

    /// A topic index is never below the absent sentinel.
    proof fn lemma_idx_lower_bound(ts: Seq<Topic>, name: Seq<char>)
        ensures
            topic_idx(ts, name) >= -1,
        decreases ts.len(),
    {
        if ts.len() > 0 {
            Self::lemma_idx_lower_bound(ts.drop_first(), name);
        }
    }

    /// Creates a topic with the given partition count (default one). An
    /// existing topic of the same name is replaced with the fresh, empty
    /// one, as a repeated creation would leave it.
    pub fn create_topic(&mut self, name: &str, partition_count: Option<u32>)
        requires
            old(self).wf(),
            partition_count matches Some(c) ==> c >= 1,
        ensures
            final(self).wf(),
            final(self).offset_tracker == old(self).offset_tracker,
            final(self).config == old(self).config,
            final(self).auto_create_topic == old(self).auto_create_topic,
            topic_idx(final(self).topics@, name@) >= 0,
            ({
                let ti = topic_idx(final(self).topics@, name@);
                let t = final(self).topics@[ti];
                &&& t.wf()
                &&& t.name@ == name@
                &&& t.partition_count == (match partition_count {
                    Some(c) => c,
                    None => DEFAULT_PARTITION_CNT,
                })
                &&& forall|i: int|
                    0 <= i < t.partitions@.len() ==> (#[trigger] t.partitions@[i]).recs()
                        == Seq::<(u64, MessageView)>::empty()
                        && t.partitions@[i].state.log_end_offset == 0
            }),
            final(self).topics@.len() == (if topic_idx(old(self).topics@, name@) >= 0 {
                old(self).topics@.len() as int
            } else {
                old(self).topics@.len() + 1int
            }),
            topic_idx(final(self).topics@, name@) == (if topic_idx(old(self).topics@, name@)
                >= 0 {
                topic_idx(old(self).topics@, name@)
            } else {
                old(self).topics@.len() as int
            }),
            forall|j: int|
                0 <= j < old(self).topics@.len() && j != topic_idx(final(self).topics@, name@)
                    ==> final(self).topics@[j] == (#[trigger] old(self).topics@[j]),
    {
        let count = match partition_count {
            Some(c) => c,
            None => DEFAULT_PARTITION_CNT,
        };
        let topic = Topic::new(name.to_owned(), count, self.config.segment_max_bytes);
        match self.find_topic(name) {
            Some(i) => {
                let ghost ts0 = self.topics@;
                let slot = &mut self.topics[i];
                *slot = topic;
                proof {
                    assert(self.topics@ =~= ts0.update(i as int, self.topics@[i as int]));
                    assert(self.topics@[i as int].name@ == name@);
                    assert forall|j: int|
                        0 <= j < i implies (#[trigger] self.topics@[j]).name@ != name@ by {
                        assert(self.topics@[j] == ts0[j]);
                        assert(ts0[j].name@ != ts0[i as int].name@);
                    }
                    Self::lemma_idx_found(self.topics@, name@, i as int);
                    assert forall|a: int, b: int|
                        0 <= a < b < self.topics@.len() implies (
                    #[trigger] self.topics@[a]).name@ != (#[trigger] self.topics@[b]).name@ by {
                        if a != i && b != i {
                            assert(self.topics@[a] == ts0[a] && self.topics@[b] == ts0[b]);
                        } else if a == i {
                            assert(self.topics@[b] == ts0[b]);
                        } else {
                            assert(self.topics@[a] == ts0[a]);
                        }
                    }
                }
            },
            None => {
                proof {
                    Self::lemma_absent_topic(self.topics@, name@);
                }
                let ghost ts0 = self.topics@;
                self.topics.push(topic);
                proof {
                    assert(self.topics@.last().name@ == name@);
                    assert forall|j: int|
                        0 <= j < ts0.len() implies (#[trigger] self.topics@[j]).name@ != name@ by {
                        assert(self.topics@[j] == ts0[j]);
                    }
                    Self::lemma_idx_found(self.topics@, name@, ts0.len() as int);
                    assert forall|a: int, b: int|
                        0 <= a < b < self.topics@.len() implies (
                    #[trigger] self.topics@[a]).name@ != (#[trigger] self.topics@[b]).name@ by {
                        if b == self.topics@.len() - 1 {
                            assert(self.topics@[a] == ts0[a]);
                        }
                    }
                }
            },
        }
    }

    /// A position whose topic carries the name, with no earlier holder, is
    /// the name's index.
    proof fn lemma_idx_found(ts: Seq<Topic>, name: Seq<char>, i: int)
        requires
            0 <= i < ts.len(),
            ts[i].name@ == name,
            forall|j: int| 0 <= j < i ==> (#[trigger] ts[j]).name@ != name,
        ensures
            topic_idx(ts, name) == i,
        decreases i,
    {
        if i > 0 {
            assert(forall|j: int|
                0 < j < ts.len() ==> (#[trigger] ts[j]) == ts.drop_first()[j - 1]);
            Self::lemma_idx_found(ts.drop_first(), name, i - 1);
        }
    }

    /// Produces a message to the named topic, creating it with the default
    /// partition count first when it is missing and auto-creation is on.
    /// Returns the partition, the assigned offset, and the bytes appended
    /// to that partition's active segment, for mirroring to disk.
    pub fn produce(&mut self, topic_name: &str, msg: &Message, now_ms: u64) -> (r: Result<
        (u32, u64, Vec<u8>),
        EngineError,
    >)
        requires
            old(self).wf(),
            msg_wf(msg@),
            forall|i: int, p: int|
                0 <= i < old(self).topics@.len() && 0 <= p < old(self).topics@[i].partitions@.len()
                    ==> (#[trigger] old(self).topics@[i].partitions@[p]).state.log_end_offset
                    < u64::MAX,
        ensures
            final(self).wf(),
            final(self).offset_tracker == old(self).offset_tracker,
            final(self).config == old(self).config,
            r is Err <==> topic_idx(old(self).topics@, topic_name@) == -1 && !old(
                self,
            ).auto_create_topic,
            r matches Err(e) ==> e is NoTopic && final(self).topics@ == old(self).topics@,
            topic_idx(old(self).topics@, topic_name@) >= 0 ==> (r matches Ok(v) && ({
                let ti = topic_idx(old(self).topics@, topic_name@);
                &&& final(self).topics@.len() == old(self).topics@.len()
                &&& topic_produced(
                    old(self).topics@[ti],
                    final(self).topics@[ti],
                    v.0,
                    v.1,
                    msg@,
                )
                &&& forall|j: int|
                    0 <= j < old(self).topics@.len() && j != ti ==> final(self).topics@[j] == (
                    #[trigger] old(self).topics@[j])
            })),
            topic_idx(old(self).topics@, topic_name@) == -1 && old(self).auto_create_topic ==> (
            r matches Ok(v) && ({
                let t = final(self).topics@.last();
                &&& final(self).topics@.len() == old(self).topics@.len() + 1
                &&& forall|j: int|
                    0 <= j < old(self).topics@.len() ==> final(self).topics@[j] == (
                    #[trigger] old(self).topics@[j])
                &&& t.name@ == topic_name@
                &&& t.partition_count == DEFAULT_PARTITION_CNT
                &&& v.0 < DEFAULT_PARTITION_CNT
                &&& v.1 == 0
                &&& t.partitions@[v.0 as int].recs() == seq![(0u64, msg@)]
            })),
    {
        let idx = match self.find_topic(topic_name) {
            Some(i) => i,
            None => {
                if !self.auto_create_topic {
                    return Err(EngineError::NoTopic);
                }
                let ghost ts0 = self.topics@;
                self.create_topic(topic_name, None);
                proof {
                    assert(self.topics@.len() == ts0.len() + 1);
                    assert(topic_idx(self.topics@, topic_name@) == ts0.len() as int);
                }
                self.topics.len() - 1
            },
        };
        let ghost ts_before = self.topics@;
        let topic = &mut self.topics[idx];
        let (pid, offset, bytes) = topic.produce(msg, now_ms);
        proof {
            assert(self.topics@ =~= ts_before.update(idx as int, self.topics@[idx as int]));
            assert forall|a: int, b: int|
                0 <= a < b < self.topics@.len() implies (#[trigger] self.topics@[a]).name@ != (
            #[trigger] self.topics@[b]).name@ by {
                if a != idx {
                    assert(self.topics@[a] == ts_before[a]);
                }
                if b != idx {
                    assert(self.topics@[b] == ts_before[b]);
                }
            }
        }
        Ok((pid, offset, bytes))
    }

    /// Reads the first record at or after `offset` in the given partition,
    /// or nothing when the offset lies outside the partition's retained
    /// range — including one exactly at the log end.
    pub fn consume(&self, topic_name: &str, partition_id: u32, offset: u64) -> (r: Result<
        Option<Message>,
        EngineError,
    >)
        requires
            self.wf(),
        ensures
            r matches Err(e) ==> ((e is NoTopic && topic_idx(self.topics@, topic_name@) == -1) || (
            e is NoPartition && topic_idx(self.topics@, topic_name@) >= 0 && partition_id
                >= self.topics@[topic_idx(self.topics@, topic_name@)].partition_count)),
            r is Ok <==> topic_idx(self.topics@, topic_name@) >= 0 && partition_id
                < self.topics@[topic_idx(self.topics@, topic_name@)].partition_count,
            r matches Ok(o) ==> ({
                let p = self.topics@[topic_idx(self.topics@, topic_name@)]
                    .partitions@[partition_id as int];
                match o {
                    Some(m) => consume_result(p, offset) == Some(m@),
                    None => consume_result(p, offset) is None,
                }
            }),
    {
        let idx = match self.find_topic(topic_name) {
            Some(i) => i,
            None => {
                return Err(EngineError::NoTopic);
            },
        };
        let topic = &self.topics[idx];
        if partition_id >= topic.partition_count {
            return Err(EngineError::NoPartition);
        }
        let partition = &topic.partitions[partition_id as usize];
        match partition.read_from_offset(offset) {
            Ok(mut messages) => {
                if messages.len() == 0 {
                    proof {
                        let p = topic.partitions@[partition_id as int];
                        let suffix = p.recs().skip(offset - p.start_offset());
                        assert(suffix.map_values(|q: (u64, MessageView)| q.1).len() == 0);
                        assert(consume_result(p, offset) is None);
                    }
                    Ok(None)
                } else {
                    let ghost msgs0 = messages@;
                    let first = messages.remove(0);
                    proof {
                        let p = topic.partitions@[partition_id as int];
                        p.lemma_contains_bound(offset);
                        let suffix = p.recs().skip(offset - p.start_offset());
                        assert(msgs0.map_values(|m: Message| m@) =~= suffix.map_values(
                            |q: (u64, MessageView)| q.1,
                        ));
                        assert(offset - p.start_offset() <= p.recs().len());
                        assert(msgs0.map_values(|m: Message| m@).len() == msgs0.len());
                        assert(suffix.map_values(|q: (u64, MessageView)| q.1).len()
                            == suffix.len());
                        assert(suffix.len() == msgs0.len());
                        assert(suffix.len() > 0);
                        assert(msgs0.map_values(|m: Message| m@)[0] == suffix.map_values(
                            |q: (u64, MessageView)| q.1,
                        )[0]);
                        assert(first@ == suffix[0].1);
                        assert(offset - p.start_offset() < p.recs().len());
                        assert(consume_result(p, offset) == Some(first@));
                    }
                    Ok(Some(first))
                }
            },
            Err(_) => Ok(None),
        }
    }

    /// Reads for a consumer group: from the group's committed offset, or
    /// from the start when it has none. The committed offset is not
    /// advanced; the caller commits explicitly.
    pub fn consume_with_group(&self, topic_name: &str, partition: u32, group: &str) -> (r: Result<
        Option<(u64, Message)>,
        EngineError,
    >)
        requires
            self.wf(),
        ensures
            r is Ok <==> topic_idx(self.topics@, topic_name@) >= 0 && partition
                < self.topics@[topic_idx(self.topics@, topic_name@)].partition_count,
            r matches Ok(o) ==> ({
                let fetched = match store_fetch(self.offset_tracker.store@, group@, partition) {
                    Some(v) => v,
                    None => 0,
                };
                let p = self.topics@[topic_idx(self.topics@, topic_name@)]
                    .partitions@[partition as int];
                match o {
                    Some(v) => v.0 == fetched && consume_result(p, fetched) == Some(v.1@),
                    None => consume_result(p, fetched) is None,
                }
            }),
            r matches Err(e) ==> (e is NoTopic || e is NoPartition),
    {
        let fetched = match self.offset_tracker.fetch(group, partition) {
            Some(v) => v,
            None => 0,
        };
        match self.consume(topic_name, partition, fetched) {
            Ok(Some(m)) => Ok(Some((fetched, m))),
            Ok(None) => Ok(None),
            Err(e) => Err(e),
        }
    }

    /// Commits a group's next read offset for a partition of an existing
    /// topic; every other (group, partition) commitment stays as it was.
    pub fn commit_offset(&mut self, topic_name: &str, partition: u32, group: &str, offset: u64)
        -> (r: Result<(), EngineError>)
        requires
            old(self).wf(),
        ensures
            final(self).wf(),
            final(self).topics@ == old(self).topics@,
            final(self).config == old(self).config,
            r is Ok <==> topic_idx(old(self).topics@, topic_name@) >= 0,
            r matches Err(e) ==> e is NoTopic && final(self).offset_tracker == old(
                self,
            ).offset_tracker,
            r is Ok ==> (forall|g: Seq<char>, p: u32|
                #[trigger] store_fetch(final(self).offset_tracker.store@, g, p) == (if g == group@
                    && p == partition {
                    Some(offset)
                } else {
                    store_fetch(old(self).offset_tracker.store@, g, p)
                })),
    {
        if !self.has_topic(topic_name) {
            return Err(EngineError::NoTopic);
        }
        self.offset_tracker.commit(group, partition, offset);
        Ok(())
    }

    /// The watermark triple of a partition: low, high, log end.
    pub fn get_watermark(&self, topic_name: &str, partition_id: u32) -> (r: Result<
        (u64, u64, u64),
        EngineError,
    >)
        requires
            self.wf(),
        ensures
            r is Ok <==> topic_idx(self.topics@, topic_name@) >= 0 && partition_id
                < self.topics@[topic_idx(self.topics@, topic_name@)].partition_count,
            r matches Ok(w) ==> ({
                let p = self.topics@[topic_idx(self.topics@, topic_name@)]
                    .partitions@[partition_id as int];
                w.0 == p.state.low_watermark && w.1 == p.state.high_watermark && w.2
                    == p.state.log_end_offset
            }),
            r matches Err(e) ==> (e is NoTopic || e is NoPartition),
    {
        let idx = match self.find_topic(topic_name) {
            Some(i) => i,
            None => {
                return Err(EngineError::NoTopic);
            },
        };
        let topic = &self.topics[idx];
        if partition_id >= topic.partition_count {
            return Err(EngineError::NoPartition);
        }
        let partition = &topic.partitions[partition_id as usize];
        Ok(partition.get_watermark())
    }

    /// Saturating addition, as lag totals accumulate.
    pub open spec fn sat_add(a: u64, b: u64) -> u64 {
        if a + b <= u64::MAX {
            (a + b) as u64
        } else {
            u64::MAX
        }
    }

    /// A group's lag on one partition of a topic: the committed offset
    /// (absent commitments count as zero), the high watermark, and their
    /// difference clamped at zero.
    pub open spec fn lag_entry(
        t: Topic,
        store: Seq<(String, Vec<(u32, u64)>)>,
        g: Seq<char>,
        p: int,
    ) -> (Seq<char>, u32, u64, u64, u64) {
        let committed = match store_fetch(store, g, p as u32) {
            Some(v) => v,
            None => 0,
        };
        let high = t.partitions@[p].state.high_watermark;
        (t.name@, p as u32, committed, high, (if high >= committed {
            (high - committed) as u64
        } else {
            0
        }))
    }

    /// A group's lag entries for every partition of one topic, in id order.
    pub open spec fn topic_entries(
        t: Topic,
        store: Seq<(String, Vec<(u32, u64)>)>,
        g: Seq<char>,
    ) -> Seq<(Seq<char>, u32, u64, u64, u64)> {
        Seq::new(t.partitions@.len(), |p: int| Self::lag_entry(t, store, g, p))
    }

    /// Folds lag entries into a saturating total.
    pub open spec fn fold_lag(acc: u64, es: Seq<(Seq<char>, u32, u64, u64, u64)>) -> u64
        decreases es.len(),
    {
        if es.len() == 0 {
            acc
        } else {
            Self::fold_lag(Self::sat_add(acc, es[0].4), es.drop_first())
        }
    }

    /// Folding a concatenation folds the parts in turn.
    proof fn lemma_fold_lag_concat(
        acc: u64,
        a: Seq<(Seq<char>, u32, u64, u64, u64)>,
        b: Seq<(Seq<char>, u32, u64, u64, u64)>,
    )
        ensures
            Self::fold_lag(acc, a + b) == Self::fold_lag(Self::fold_lag(acc, a), b),
        decreases a.len(),
    {
        if a.len() == 0 {
            assert(a + b =~= b);
        } else {
            assert((a + b)[0] == a[0]);
            assert((a + b).drop_first() =~= a.drop_first() + b);
            Self::lemma_fold_lag_concat(Self::sat_add(acc, a[0].4), a.drop_first(), b);
        }
    }

    /// The lag entries a query returns: for every topic the engine holds
    /// when no filter is given, else for each named topic the engine holds,
    /// in the filter's order, silently skipping unknown names.
    pub open spec fn selected_entries(
        ts: Seq<Topic>,
        filter: Option<Seq<Seq<char>>>,
        store: Seq<(String, Vec<(u32, u64)>)>,
        g: Seq<char>,
    ) -> Seq<(Seq<char>, u32, u64, u64, u64)>
        decreases (match filter {
            Some(names) => names.len(),
            None => ts.len(),
        }),
    {
        match filter {
            None => {
                if ts.len() == 0 {
                    Seq::empty()
                } else {
                    Self::topic_entries(ts[0], store, g) + Self::selected_entries(
                        ts.drop_first(),
                        None,
                        store,
                        g,
                    )
                }
            },
            Some(names) => {
                if names.len() == 0 {
                    Seq::empty()
                } else {
                    let ti = topic_idx(ts, names[0]);
                    (if ti >= 0 {
                        Self::topic_entries(ts[ti], store, g)
                    } else {
                        Seq::empty()
                    }) + Self::selected_entries(ts, Some(names.drop_first()), store, g)
                }
            },
        }
    }

    /// Appends one topic's lag entries and folds them into the total.
    fn append_topic_lag(
        t: &Topic,
        tracker: &OffsetTracker,
        group: &str,
        out: &mut Vec<(String, u32, u64, u64, u64)>,
        total: u64,
    ) -> (r: u64)
        requires
            t.wf(),
        ensures
            final(out)@.map_values(|e: (String, u32, u64, u64, u64)| (e.0@, e.1, e.2, e.3, e.4))
                == old(out)@.map_values(
                |e: (String, u32, u64, u64, u64)| (e.0@, e.1, e.2, e.3, e.4),
            ) + Self::topic_entries(*t, tracker.store@, group@),
            r == Self::fold_lag(total, Self::topic_entries(*t, tracker.store@, group@)),
    {
        let ghost ev = |e: (String, u32, u64, u64, u64)| (e.0@, e.1, e.2, e.3, e.4);
        let ghost before = out@;
        let ghost entries = Self::topic_entries(*t, tracker.store@, group@);
        let ghost total0 = total;
        let mut total = total;
        let mut p: usize = 0;
        while p < t.partitions.len()
            invariant
                t.wf(),
                p <= t.partitions@.len(),
                ev == (|e: (String, u32, u64, u64, u64)| (e.0@, e.1, e.2, e.3, e.4)),
                entries == Self::topic_entries(*t, tracker.store@, group@),
                out@.map_values(ev) == before.map_values(ev) + entries.take(p as int),
                total == Self::fold_lag(total0, entries.take(p as int)),
            decreases t.partitions@.len() - p,
        {
            let committed = match tracker.fetch(group, p as u32) {
                Some(v) => v,
                None => 0,
            };
            let high = t.partitions[p].state.high_watermark;
            let lag = if high >= committed {
                high - committed
            } else {
                0
            };
            let entry_name = t.name.clone();
            let ghost prev = out@;
            out.push((entry_name, p as u32, committed, high, lag));
            total = if u64::MAX - lag < total {
                u64::MAX
            } else {
                total + lag
            };
            proof {
                assert(out@.map_values(ev) =~= prev.map_values(ev).push(
                    (t.name@, p as u32, committed, high, lag),
                ));
                assert(entries[p as int] == (t.name@, p as u32, committed, high, lag));
                assert(entries.take(p + 1) =~= entries.take(p as int).push(entries[p as int]));
                assert(prev.map_values(ev).push(entries[p as int]) =~= (before.map_values(ev)
                    + entries.take(p as int)).push(entries[p as int]));
                assert((before.map_values(ev) + entries.take(p as int)).push(entries[p as int])
                    =~= before.map_values(ev) + entries.take(p + 1));
                Self::lemma_fold_lag_concat(
                    total0,
                    entries.take(p as int),
                    seq![entries[p as int]],
                );
                assert(entries.take(p as int) + seq![entries[p as int]] =~= entries.take(p + 1));
                assert(Self::fold_lag(Self::fold_lag(total0, entries.take(p as int)), seq![
                    entries[p as int]]) == Self::sat_add(
                    Self::fold_lag(total0, entries.take(p as int)),
                    entries[p as int].4,
                )) by {
                    let x = Self::fold_lag(total0, entries.take(p as int));
                    assert(seq![entries[p as int]][0] == entries[p as int]);
                    assert(seq![entries[p as int]].drop_first() =~= Seq::<
                        (Seq<char>, u32, u64, u64, u64),
                    >::empty());
                    assert(Self::fold_lag(
                        Self::sat_add(x, entries[p as int].4),
                        Seq::<(Seq<char>, u32, u64, u64, u64)>::empty(),
                    ) == Self::sat_add(x, entries[p as int].4));
                }
            }
            p = p + 1;
        }
        proof {
            assert(entries.take(entries.len() as int) =~= entries);
        }
        total
    }

    /// A group's lag, totalled with saturation across the selected topics'
    /// partitions — every topic when no filter is given, else the named
    /// ones that exist — with the per-partition breakdown in order, as
    /// [`LogEngine::selected_entries`] describes.
    pub fn get_consumer_lag(&self, consumer_group: &str, topics: Option<Vec<String>>) -> (r: (
        u64,
        Vec<(String, u32, u64, u64, u64)>,
    ))
        requires
            self.wf(),
        ensures
            r.1@.map_values(|e: (String, u32, u64, u64, u64)| (e.0@, e.1, e.2, e.3, e.4))
                == Self::selected_entries(
                self.topics@,
                match topics {
                    Some(ref names) => Some(names@.map_values(|n: String| n@)),
                    None => None,
                },
                self.offset_tracker.store@,
                consumer_group@,
            ),
            r.0 == Self::fold_lag(
                0,
                Self::selected_entries(
                    self.topics@,
                    match topics {
                        Some(ref names) => Some(names@.map_values(|n: String| n@)),
                        None => None,
                    },
                    self.offset_tracker.store@,
                    consumer_group@,
                ),
            ),
    {
        let ghost ev = |e: (String, u32, u64, u64, u64)| (e.0@, e.1, e.2, e.3, e.4);
        let mut out: Vec<(String, u32, u64, u64, u64)> = Vec::new();
        let mut total: u64 = 0;
        match topics {
            None => {
                let ghost ts = self.topics@;
                let ghost store = self.offset_tracker.store@;
                let ghost g = consumer_group@;
                let mut i: usize = 0;
                proof {
                    assert(out@.map_values(ev) =~= Seq::<(Seq<char>, u32, u64, u64, u64)>::empty());
                }
                while i < self.topics.len()
                    invariant
                        self.wf(),
                        i <= ts.len(),
                        ts == self.topics@,
                        store == self.offset_tracker.store@,
                        g == consumer_group@,
                        ev == (|e: (String, u32, u64, u64, u64)| (e.0@, e.1, e.2, e.3, e.4)),
                        out@.map_values(ev) == Self::selected_entries(ts.take(i as int), None, store, g),
                        total == Self::fold_lag(
                            0,
                            Self::selected_entries(ts.take(i as int), None, store, g),
                        ),
                    decreases ts.len() - i,
                {
                    let ghost done = Self::selected_entries(ts.take(i as int), None, store, g);
                    let topic = &self.topics[i];
                    total = Self::append_topic_lag(
                        topic,
                        &self.offset_tracker,
                        consumer_group,
                        &mut out,
                        total,
                    );
                    proof {
                        Self::lemma_selected_snoc(ts, i as int, store, g);
                        Self::lemma_fold_lag_concat(
                            0,
                            done,
                            Self::topic_entries(ts[i as int], store, g),
                        );
                    }
                    i = i + 1;
                }
                proof {
                    assert(ts.take(ts.len() as int) =~= ts);
                }
            },
            Some(ref names) => {
                let ghost ts = self.topics@;
                let ghost store = self.offset_tracker.store@;
                let ghost g = consumer_group@;
                let ghost nv = names@.map_values(|n: String| n@);
                let mut k: usize = 0;
                proof {
                    assert(out@.map_values(ev) =~= Seq::<(Seq<char>, u32, u64, u64, u64)>::empty());
                    assert(nv.skip(0) =~= nv);
                }
                while k < names.len()
                    invariant
                        self.wf(),
                        k <= names@.len(),
                        ts == self.topics@,
                        store == self.offset_tracker.store@,
                        g == consumer_group@,
                        nv == names@.map_values(|n: String| n@),
                        ev == (|e: (String, u32, u64, u64, u64)| (e.0@, e.1, e.2, e.3, e.4)),
                        Self::selected_entries(ts, Some(nv), store, g) == out@.map_values(ev)
                            + Self::selected_entries(ts, Some(nv.skip(k as int)), store, g),
                        Self::fold_lag(0, Self::selected_entries(ts, Some(nv), store, g))
                            == Self::fold_lag(
                            total,
                            Self::selected_entries(ts, Some(nv.skip(k as int)), store, g),
                        ),
                    decreases names@.len() - k,
                {
                    proof {
                        assert(nv.skip(k as int)[0] == nv[k as int]);
                        assert(nv.skip(k as int).drop_first() =~= nv.skip(k as int + 1));
                    }
                    let ghost before = out@;
                    let ghost t_before = total;
                    let name = &names[k];
                    match self.find_topic(name.as_str()) {
                        Some(ti) => {
                            let topic = &self.topics[ti];
                            total = Self::append_topic_lag(
                                topic,
                                &self.offset_tracker,
                                consumer_group,
                                &mut out,
                                total,
                            );
                            proof {
                                let tail = Self::selected_entries(
                                    ts,
                                    Some(nv.skip(k as int + 1)),
                                    store,
                                    g,
                                );
                                let te = Self::topic_entries(ts[ti as int], store, g);
                                assert(Self::selected_entries(ts, Some(nv.skip(k as int)), store, g)
                                    == te + tail);
                                assert(before.map_values(ev) + (te + tail) =~= (before.map_values(
                                    ev,
                                ) + te) + tail);
                                Self::lemma_fold_lag_concat(t_before, te, tail);
                            }
                        },
                        None => {
                            proof {
                                let tail = Self::selected_entries(
                                    ts,
                                    Some(nv.skip(k as int + 1)),
                                    store,
                                    g,
                                );
                                assert(Self::selected_entries(ts, Some(nv.skip(k as int)), store, g)
                                    == Seq::<(Seq<char>, u32, u64, u64, u64)>::empty() + tail);
                                assert(Seq::<(Seq<char>, u32, u64, u64, u64)>::empty() + tail
                                    =~= tail);
                            }
                        },
                    }
                    k = k + 1;
                }
                proof {
                    assert(nv.skip(nv.len() as int) =~= Seq::<Seq<char>>::empty());
                    assert(Self::selected_entries(ts, Some(nv.skip(nv.len() as int)), store, g)
                        =~= Seq::<(Seq<char>, u32, u64, u64, u64)>::empty());
                    assert(out@.map_values(ev) + Seq::<(Seq<char>, u32, u64, u64, u64)>::empty()
                        =~= out@.map_values(ev));
                }
            },
        }
        (total, out)
    }

    /// Extending the unfiltered topic walk by one topic appends its entries.
    proof fn lemma_selected_snoc(
        ts: Seq<Topic>,
        i: int,
        store: Seq<(String, Vec<(u32, u64)>)>,
        g: Seq<char>,
    )
        requires
            0 <= i < ts.len(),
        ensures
            Self::selected_entries(ts.take(i + 1), None, store, g) == Self::selected_entries(
                ts.take(i),
                None,
                store,
                g,
            ) + Self::topic_entries(ts[i], store, g),
        decreases i,
    {
        if i == 0 {
            assert(ts.take(1)[0] == ts[0]);
            assert(ts.take(1).drop_first() =~= Seq::<Topic>::empty());
            assert(ts.take(0) =~= Seq::<Topic>::empty());
            assert(Self::selected_entries(ts.take(0), None, store, g) == Seq::<
                (Seq<char>, u32, u64, u64, u64),
            >::empty());
            assert(Self::topic_entries(ts[0], store, g) + Seq::<
                (Seq<char>, u32, u64, u64, u64),
            >::empty() =~= Self::topic_entries(ts[0], store, g));
            assert(Seq::<(Seq<char>, u32, u64, u64, u64)>::empty() + Self::topic_entries(
                ts[0],
                store,
                g,
            ) =~= Self::topic_entries(ts[0], store, g));
        } else {
            assert(ts.take(i + 1)[0] == ts[0]);
            assert(ts.take(i)[0] == ts[0]);
            assert(ts.take(i + 1).drop_first() =~= ts.drop_first().take(i));
            assert(ts.take(i).drop_first() =~= ts.drop_first().take(i - 1));
            assert(ts.drop_first()[i - 1] == ts[i]);
            Self::lemma_selected_snoc(ts.drop_first(), i - 1, store, g);
            crate::wire::lemma_concat_assoc_entries(
                Self::topic_entries(ts[0], store, g),
                Self::selected_entries(ts.drop_first().take(i - 1), None, store, g),
                Self::topic_entries(ts[i], store, g),
            );
        }
    }

    /// A partition's health snapshot: its segment count (saturated to fit),
    /// total bytes, the watermark triple, and the last cleanup time, which
    /// this engine does not track.
    pub fn get_partition_health(&self, topic_name: &str, partition_id: u32) -> (r: Result<
        (u32, u64, u64, u64, u64, Option<u64>),
        EngineError,
    >)
        requires
            self.wf(),
        ensures
            r is Ok <==> topic_idx(self.topics@, topic_name@) >= 0 && partition_id
                < self.topics@[topic_idx(self.topics@, topic_name@)].partition_count,
            r matches Ok(h) ==> ({
                let p = self.topics@[topic_idx(self.topics@, topic_name@)]
                    .partitions@[partition_id as int];
                &&& h.0 == (if p.segments@.len() <= u32::MAX {
                    p.segments@.len() as int
                } else {
                    u32::MAX as int
                })
                &&& h.1 == Partition::sizes_sat(p.segments@)
                &&& h.2 == p.state.low_watermark
                &&& h.3 == p.state.high_watermark
                &&& h.4 == p.state.log_end_offset
                &&& h.5 is None
            }),
            r matches Err(e) ==> (e is NoTopic || e is NoPartition),
    {
        let idx = match self.find_topic(topic_name) {
            Some(i) => i,
            None => {
                return Err(EngineError::NoTopic);
            },
        };
        let topic = &self.topics[idx];
        if partition_id >= topic.partition_count {
            return Err(EngineError::NoPartition);
        }
        let partition = &topic.partitions[partition_id as usize];
        let seg_len = partition.segments.len();
        let segment_count: u32 = if seg_len <= u32::MAX as usize {
            seg_len as u32
        } else {
            u32::MAX
        };
        let total = partition.total_bytes();
        let (low, high, log_end) = partition.get_watermark();
        Ok((segment_count, total, low, high, log_end, None))
    }
}

} // verus!
