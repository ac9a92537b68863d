use vstd::prelude::*;

use crate::hash::{xxh3_64_digest, xxh3_64_of};
use crate::message::{msg_wf, Message, MessageView};
use crate::partition::Partition;

verus! {

/// A named collection of partitions. Keyed messages are routed by key hash,
/// keyless ones round-robin.
pub struct Topic {
    pub name: String,
    pub partitions: Vec<Partition>,
    pub partition_count: u32,
    /// The partition the next keyless message goes to.
    pub next_partition: u32,
}

/// Where a message is routed: keyed messages to the key's 64-bit hash
/// modulo the partition count, keyless ones to the round-robin cursor.
pub open spec fn route_of(m: MessageView, next_partition: u32, partition_count: u32) -> u32
    recommends
        partition_count > 0,
{
    match m.key {
        Some(k) => (xxh3_64_of(k) % (partition_count as u64)) as u32,
        None => next_partition,
    }
}

impl Topic {
    /// The topic's invariant: a fixed positive number of well-formed
    /// partitions whose ids are their positions, with the cursor in range.
    pub open spec fn wf(&self) -> bool {
        &&& self.partition_count >= 1
        &&& self.partitions@.len() == self.partition_count
        &&& forall|i: int|
            0 <= i < self.partitions@.len() ==> (#[trigger] self.partitions@[i]).wf()
                && self.partitions@[i].id == i
        &&& self.next_partition < self.partition_count
    }

    /// A fresh topic with `partition_count` empty partitions.
    pub fn new(name: String, partition_count: u32, max_segment_bytes: u64) -> (r: Topic)
        requires
            partition_count >= 1,
        ensures
            r.wf(),
            r.name == name,
            r.partition_count == partition_count,
            r.next_partition == 0,
            forall|i: int|
                0 <= i < r.partitions@.len() ==> (#[trigger] r.partitions@[i]).recs() == Seq::<
                    (u64, MessageView),
                >::empty() && r.partitions@[i].state.log_end_offset == 0
                    && r.partitions@[i].max_segment_bytes == max_segment_bytes
                    && r.partitions@[i].segments@.len() == 1,
    {
        let mut partitions: Vec<Partition> = Vec::new();
        let mut i: u32 = 0;
        while i < partition_count
            invariant
                i <= partition_count,
                partitions@.len() == i,
                forall|j: int|
                    0 <= j < i ==> (#[trigger] partitions@[j]).wf() && partitions@[j].id == j
                        && partitions@[j].recs() == Seq::<(u64, MessageView)>::empty()
                        && partitions@[j].state.log_end_offset == 0
                        && partitions@[j].max_segment_bytes == max_segment_bytes
                        && partitions@[j].segments@.len() == 1,
            decreases partition_count - i,
        {
            partitions.push(Partition::new(i, max_segment_bytes));
            i = i + 1;
        }
        Topic { name, partitions, partition_count, next_partition: 0 }
    }

    /// A topic assembled from recovered partitions, ids in position order.
    pub fn from_recovered(name: String, partitions: Vec<Partition>) -> (r: Topic)
        requires
            partitions@.len() >= 1,
            partitions@.len() <= u32::MAX,
            forall|i: int|
                0 <= i < partitions@.len() ==> (#[trigger] partitions@[i]).wf()
                    && partitions@[i].id == i,
        ensures
            r.wf(),
            r.name == name,
            r.partitions@ == partitions@,
            r.next_partition == 0,
    {
        let partition_count = partitions.len() as u32;
        Topic { name, partitions, partition_count, next_partition: 0 }
    }

    /// The partition a key routes to: its 64-bit hash modulo the partition
    /// count, so the same key always targets the same partition.
    pub fn hash_key_to_partition(&self, key: &[u8]) -> (r: u32)
        requires
            self.partition_count >= 1,
        ensures
            r == xxh3_64_of(key@) % (self.partition_count as u64),
            r < self.partition_count,
    {
        let hash = xxh3_64_digest(key);
        (hash % (self.partition_count as u64)) as u32
    }

    /// Appends a message to the partition its key (or the round-robin
    /// cursor) routes it to, as [`route_of`] describes, and returns the
    /// partition id, the assigned offset, and the bytes appended to that
    /// partition's active segment.
    pub fn produce(&mut self, msg: &Message, now_ms: u64) -> (r: (u32, u64, Vec<u8>))
        requires
            old(self).wf(),
            msg_wf(msg@),
            forall|i: int|
                0 <= i < old(self).partitions@.len() ==> (
                #[trigger] old(self).partitions@[i]).state.log_end_offset < u64::MAX,
        ensures
            final(self).wf(),
            r.0 == route_of(msg@, old(self).next_partition, old(self).partition_count),
            r.0 < old(self).partition_count,
            final(self).name == old(self).name,
            final(self).partition_count == old(self).partition_count,
            final(self).next_partition == (if msg@.key is Some {
                old(self).next_partition as int
            } else {
                (old(self).next_partition + 1) as int % (old(self).partition_count as int)
            }),
            r.1 == old(self).partitions@[r.0 as int].state.log_end_offset,
            final(self).partitions@.len() == old(self).partitions@.len(),
            final(self).partitions@[r.0 as int].recs() == old(self).partitions@[r.0 as int]
                .recs().push((r.1, msg@)),
            final(self).partitions@[r.0 as int].state.log_end_offset == r.1 + 1,
            forall|j: int|
                0 <= j < old(self).partitions@.len() && j != r.0 ==> final(self).partitions@[j]
                    == (#[trigger] old(self).partitions@[j]),
    {
        let partition_id = match &msg.key {
            Some(key) => self.hash_key_to_partition(key.as_slice()),
            None => {
                let id = self.next_partition;
                self.next_partition = (self.next_partition + 1) % self.partition_count;
                id
            },
        };
        let p = &mut self.partitions[partition_id as usize];
        let (offset, bytes) = p.append(msg, now_ms);
        (partition_id, offset, bytes)
    }
}

} // verus!
