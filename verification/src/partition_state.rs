use vstd::prelude::*;

use crate::partition_meta::PartitionMeta;

verus! {

/// The three offset counters of a partition: where the next record goes,
/// the largest offset readable, and the smallest offset still retained.
#[derive(Debug)]
pub struct PartitionState {
    pub log_end_offset: u64,
    pub low_watermark: u64,
    pub high_watermark: u64,
}

impl PartitionState {
    /// A fresh state with all three counters at `start_offset`.
    pub fn new(start_offset: u64) -> (r: PartitionState)
        ensures
            r.log_end_offset == start_offset,
            r.low_watermark == start_offset,
            r.high_watermark == start_offset,
    {
        PartitionState {
            log_end_offset: start_offset,
            low_watermark: start_offset,
            high_watermark: start_offset,
        }
    }

    /// The state a persisted metadata document describes.
    pub fn from_meta(meta: &PartitionMeta) -> (r: PartitionState)
        ensures
            r.log_end_offset == meta.log_end_offset,
            r.low_watermark == meta.low_watermark,
            r.high_watermark == meta.high_watermark,
    {
        PartitionState {
            log_end_offset: meta.log_end_offset,
            low_watermark: meta.low_watermark,
            high_watermark: meta.high_watermark,
        }
    }

    /// Reserves the next offset: returns the log end and advances it by one.
    pub fn fetch_and_increment_log_end(&mut self) -> (r: u64)
        requires
            old(self).log_end_offset < u64::MAX,
        ensures
            r == old(self).log_end_offset,
            final(self).log_end_offset == old(self).log_end_offset + 1,
            final(self).low_watermark == old(self).low_watermark,
            final(self).high_watermark == old(self).high_watermark,
    {
        let r = self.log_end_offset;
        self.log_end_offset = self.log_end_offset + 1;
        r
    }

    /// The offset the next record will receive.
    pub fn log_end_offset(&self) -> (r: u64)
        ensures
            r == self.log_end_offset,
    {
        self.log_end_offset
    }

    /// Overwrites the log end offset.
    pub fn set_log_end_offset(&mut self, val: u64)
        ensures
            final(self).log_end_offset == val,
            final(self).low_watermark == old(self).low_watermark,
            final(self).high_watermark == old(self).high_watermark,
    {
        self.log_end_offset = val;
    }

    /// The smallest offset still retained.
    pub fn low_watermark(&self) -> (r: u64)
        ensures
            r == self.low_watermark,
    {
        self.low_watermark
    }

    /// Overwrites the low watermark.
    pub fn set_low_watermark(&mut self, val: u64)
        ensures
            final(self).low_watermark == val,
            final(self).log_end_offset == old(self).log_end_offset,
            final(self).high_watermark == old(self).high_watermark,
    {
        self.low_watermark = val;
    }

    /// The largest offset committed for read.
    pub fn high_watermark(&self) -> (r: u64)
        ensures
            r == self.high_watermark,
    {
        self.high_watermark
    }

    /// Overwrites the high watermark.
    pub fn set_high_watermark(&mut self, val: u64)
        ensures
            final(self).high_watermark == val,
            final(self).log_end_offset == old(self).log_end_offset,
            final(self).low_watermark == old(self).low_watermark,
    {
        self.high_watermark = val;
    }
}

} // verus!
