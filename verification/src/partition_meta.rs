use vstd::prelude::*;

verus! {

/// The watermark triple a partition persists between runs. The surrounding
/// program writes it to the partition's metadata document and reads it back;
/// the engine itself treats the segment files as authoritative on recovery.
#[derive(Debug, Clone, Copy, PartialEq, Eq, Structural)]
pub struct PartitionMeta {
    pub low_watermark: u64,
    pub high_watermark: u64,
    pub log_end_offset: u64,
}

} // verus!
