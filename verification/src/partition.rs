use vstd::prelude::*;

use crate::errors::DeserializeError;
use crate::message::{msg_wf, Message, MessageView};
use crate::partition_meta::PartitionMeta;
use crate::partition_state::PartitionState;
use crate::segment::{log_bytes, parse_log_from, Segment};

verus! {

// ---------------------------------------------------------------------------
// The records of a run of segments.
// ---------------------------------------------------------------------------

/// All records of a sequence of segments, oldest segment first.
pub open spec fn all_recs(ss: Seq<Segment>) -> Seq<(u64, MessageView)>
    decreases ss.len(),
{
    if ss.len() == 0 {
        Seq::empty()
    } else {
        ss[0].recs() + all_recs(ss.drop_first())
    }
}

/// Appending a segment appends its records.
pub proof fn lemma_all_recs_snoc(ss: Seq<Segment>, s: Segment)
    ensures
        all_recs(ss.push(s)) == all_recs(ss) + s.recs(),
    decreases ss.len(),
{
    if ss.len() == 0 {
        let p = ss.push(s);
        assert(p[0] == s);
        assert(p.drop_first() =~= Seq::<Segment>::empty());
        assert(all_recs(p.drop_first()) == Seq::<(u64, MessageView)>::empty());
        assert(s.recs() + Seq::<(u64, MessageView)>::empty() =~= s.recs());
        assert(all_recs(ss) == Seq::<(u64, MessageView)>::empty());
        assert(Seq::<(u64, MessageView)>::empty() + s.recs() =~= s.recs());
    } else {
        assert(ss.push(s).drop_first() =~= ss.drop_first().push(s));
        lemma_all_recs_snoc(ss.drop_first(), s);
        assert(ss.push(s)[0] == ss[0]);
        assert(ss[0].recs() + (all_recs(ss.drop_first()) + s.recs()) =~= (ss[0].recs()
            + all_recs(ss.drop_first())) + s.recs());
    }
}

/// The records split at any segment boundary.
pub proof fn lemma_all_recs_split(ss: Seq<Segment>, k: int)
    requires
        0 <= k <= ss.len(),
    ensures
        all_recs(ss) == all_recs(ss.take(k)) + all_recs(ss.skip(k)),
    decreases k,
{
    if k == 0 {
        assert(ss.take(0) =~= Seq::<Segment>::empty());
        assert(ss.skip(0) =~= ss);
        assert(Seq::<(u64, MessageView)>::empty() + all_recs(ss) =~= all_recs(ss));
    } else {
        assert(ss.take(k)[0] == ss[0]);
        assert(ss.take(k).drop_first() =~= ss.drop_first().take(k - 1));
        assert(ss.skip(k) =~= ss.drop_first().skip(k - 1));
        lemma_all_recs_split(ss.drop_first(), k - 1);
        assert(ss[0].recs() + (all_recs(ss.drop_first().take(k - 1)) + all_recs(
            ss.drop_first().skip(k - 1),
        )) =~= (ss[0].recs() + all_recs(ss.drop_first().take(k - 1))) + all_recs(
            ss.drop_first().skip(k - 1),
        ));
    }
}

/// Segments chain when each is well formed, each one's offsets continue the
/// previous one's, and only the last may be empty.
pub open spec fn seg_chain(ss: Seq<Segment>) -> bool {
    &&& forall|i: int| 0 <= i < ss.len() ==> (#[trigger] ss[i]).wf()
    &&& forall|i: int|
        0 < i < ss.len() ==> (#[trigger] ss[i]).base_offset == ss[i - 1].base_offset
            + ss[i - 1].recs().len()
    &&& forall|i: int| 0 <= i < ss.len() - 1 ==> (#[trigger] ss[i]).recs().len() > 0
}

/// Chained segments hold consecutive well-formed records from the first
/// segment's base offset.
pub proof fn lemma_chain_recs(ss: Seq<Segment>)
    requires
        ss.len() >= 1,
        seg_chain(ss),
    ensures
        ss[0].base_offset + all_recs(ss).len() == ss.last().base_offset
            + ss.last().recs().len(),
        forall|j: int|
            0 <= j < all_recs(ss).len() ==> (#[trigger] all_recs(ss)[j]).0 == ss[0].base_offset
                + j && msg_wf(all_recs(ss)[j].1),
    decreases ss.len(),
{
    (ss[0]).lemma_wf_bounds();
    if ss.len() == 1 {
        assert(ss.drop_first() =~= Seq::<Segment>::empty());
        assert(all_recs(ss.drop_first()) == Seq::<(u64, MessageView)>::empty());
        assert(ss[0].recs() + Seq::<(u64, MessageView)>::empty() =~= ss[0].recs());
        assert(ss.last() == ss[0]);
    } else {
        assert(seg_chain(ss.drop_first()));
        lemma_chain_recs(ss.drop_first());
        assert(ss.drop_first()[0] == ss[1]);
        assert(ss.drop_first().last() == ss.last());
        assert(ss[1].base_offset == ss[0].base_offset + ss[0].recs().len());
        assert(forall|j: int|
            0 <= j < all_recs(ss).len() ==> (#[trigger] all_recs(ss)[j]) == (if j < ss[0].recs().len() {
                ss[0].recs()[j]
            } else {
                all_recs(ss.drop_first())[j - ss[0].recs().len()]
            }));
    }
}

// ---------------------------------------------------------------------------
// The partition.
// ---------------------------------------------------------------------------

/// An ordered run of segments holding one partition's records, with its
/// watermark state. Offsets are gap-free: the records of all segments form
/// one consecutive run starting at the oldest segment's base offset.
pub struct Partition {
    pub id: u32,
    pub segments: Vec<Segment>,
    /// Base offset of the active (latest) segment.
    pub active_segment: u64,
    pub max_segment_bytes: u64,
    pub state: PartitionState,
    pub meta_flush_pending: bool,
}

impl Partition {
    /// All records of the partition, oldest first.
    pub open spec fn recs(&self) -> Seq<(u64, MessageView)> {
        all_recs(self.segments@)
    }

    /// The smallest offset the partition retains: the oldest segment's base.
    pub open spec fn start_offset(&self) -> u64 {
        self.segments@[0].base_offset
    }

    /// The partition's invariant: at least one segment; segments chain; the
    /// active segment is the last; and the three watermarks agree with the
    /// records.
    pub open spec fn wf(&self) -> bool {
        &&& self.segments@.len() >= 1
        &&& seg_chain(self.segments@)
        &&& self.active_segment == self.segments@.last().base_offset
        &&& self.state.log_end_offset == self.segments@.last().base_offset
            + self.segments@.last().recs().len()
        &&& self.state.low_watermark == self.start_offset()
        &&& self.state.high_watermark == (if self.recs().len() == 0 {
            self.state.log_end_offset as int
        } else {
            self.state.log_end_offset - 1
        })
    }

    /// A fresh partition: one empty segment at offset zero.
    pub fn new(id: u32, max_segment_bytes: u64) -> (r: Partition)
        ensures
            r.wf(),
            r.id == id,
            r.max_segment_bytes == max_segment_bytes,
            r.recs() == Seq::<(u64, MessageView)>::empty(),
            r.state.log_end_offset == 0,
            r.state.low_watermark == 0,
            r.segments@.len() == 1,
    {
        let seg = Segment::new(0);
        let mut segments: Vec<Segment> = Vec::new();
        segments.push(seg);
        let r = Partition {
            id,
            segments,
            active_segment: 0,
            max_segment_bytes,
            state: PartitionState::new(0),
            meta_flush_pending: false,
        };
        proof {
            assert(r.segments@.drop_first() =~= Seq::<Segment>::empty());
            assert(all_recs(r.segments@.drop_first()) == Seq::<(u64, MessageView)>::empty());
            assert(r.segments@[0].recs() + Seq::<(u64, MessageView)>::empty()
                =~= r.segments@[0].recs());
        }
        r
    }

    /// Appends a message: reserves the next offset, rotates to a new segment
    /// when the active one is full, writes the record, and advances the high
    /// watermark to the new offset. `now_ms` stamps the segment's last write
    /// for retention. Returns the assigned offset and the bytes that were
    /// appended to the active segment's log image, for mirroring to disk.
    #[verifier::rlimit(100)]
    pub fn append(&mut self, msg: &Message, now_ms: u64) -> (r: (u64, Vec<u8>))
        requires
            old(self).wf(),
            msg_wf(msg@),
            old(self).state.log_end_offset < u64::MAX,
        ensures
            final(self).wf(),
            r.0 == old(self).state.log_end_offset,
            final(self).state.log_end_offset == old(self).state.log_end_offset + 1,
            final(self).state.high_watermark == r.0,
            final(self).state.low_watermark == old(self).state.low_watermark,
            final(self).recs() == old(self).recs().push((r.0, msg@)),
            final(self).meta_flush_pending,
            final(self).id == old(self).id,
            final(self).max_segment_bytes == old(self).max_segment_bytes,
            r.1@ == crate::stored_record::framed_record_bytes(msg@, r.0),
            final(self).active_segment == (if old(self).segments@.last().size > 0 && old(
                self,
            ).segments@.last().size + r.1@.len() > old(self).max_segment_bytes {
                r.0
            } else {
                old(self).active_segment
            }),
            final(self).segments@.len() == (if old(self).segments@.last().size > 0 && old(
                self,
            ).segments@.last().size + r.1@.len() > old(self).max_segment_bytes {
                old(self).segments@.len() + 1nat
            } else {
                old(self).segments@.len()
            }),
    {
        proof {
            lemma_chain_recs(self.segments@);
            (self.segments@.last()).lemma_wf_bounds();
        }
        let offset = self.state.fetch_and_increment_log_end();
        let probe = msg.serialize_for_disk(offset);
        let record_len = probe.len() as u64;
        // Rotate when the active segment is non-empty and this record would
        // push it past the limit.
        let last_idx = self.segments.len() - 1;
        let rotate = self.segments[last_idx].size > 0 && u64::MAX - record_len
            >= self.segments[last_idx].size && self.segments[last_idx].size + record_len
            > self.max_segment_bytes;
        if rotate {
            let fresh = Segment::new(offset);
            proof {
                lemma_all_recs_snoc(self.segments@, fresh);
            }
            self.segments.push(fresh);
            proof {
                assert(self.recs() =~= old(self).recs());
            }
        }
        let mut active = match self.segments.pop() {
            Some(s) => s,
            None => {
                proof {
                    assert(false);
                }
                Segment::new(0)
            },
        };
        let ghost prefix = self.segments@;
        proof {
            lemma_all_recs_snoc(prefix, active);
            assert(prefix.push(active) =~= (if rotate {
                old(self).segments@.push(active)
            } else {
                old(self).segments@
            }));
        }
        let ghost active0 = active;
        let bytes = active.append(offset, msg, now_ms);
        self.segments.push(active);
        self.state.set_high_watermark(offset);
        self.active_segment = self.segments[self.segments.len() - 1].base_offset;
        self.meta_flush_pending = true;
        proof {
            let ssn = self.segments@;
            assert(ssn =~= prefix.push(ssn.last()));
            assert(forall|i: int|
                0 <= i < prefix.len() ==> (#[trigger] prefix[i]) == ssn[i]);
            assert(self.recs() =~= old(self).recs().push((offset, msg@))) by {
                lemma_all_recs_snoc(prefix, ssn.last());
                assert(all_recs(prefix) + active0.recs().push((offset, msg@)) =~= (all_recs(
                    prefix,
                ) + active0.recs()).push((offset, msg@)));
            }
            assert(seg_chain(ssn)) by {
                if rotate {
                    (prefix.last()).lemma_wf_bounds();
                }
            }
        }
        (offset, bytes)
    }

    /// The watermark triple: low, high, log end.
    pub fn get_watermark(&self) -> (r: (u64, u64, u64))
        ensures
            r.0 == self.state.low_watermark,
            r.1 == self.state.high_watermark,
            r.2 == self.state.log_end_offset,
    {
        (self.state.low_watermark(), self.state.high_watermark(), self.state.log_end_offset())
    }

    /// True when some segment's range contains `offset`: it is neither below
    /// the low watermark nor past the last written record.
    pub open spec fn contains_offset(&self, offset: u64) -> bool {
        self.start_offset() <= offset && offset <= self.segments@.last().last_offset
    }

    /// The total size in bytes of a run of segments, saturating at the
    /// largest representable value.
    pub open spec fn sizes_sat(ss: Seq<Segment>) -> u64
        decreases ss.len(),
    {
        if ss.len() == 0 {
            0
        } else {
            let rest = Self::sizes_sat(ss.drop_first());
            if ss[0].size + rest <= u64::MAX {
                (ss[0].size + rest) as u64
            } else {
                u64::MAX
            }
        }
    }

    /// Total on-disk bytes across all segments, saturating at `u64::MAX`.
    pub fn total_bytes(&self) -> (r: u64)
        ensures
            r == Self::sizes_sat(self.segments@),
    {
        let ghost ss = self.segments@;
        let mut total: u64 = 0;
        let mut i: usize = self.segments.len();
        while i > 0
            invariant
                i <= ss.len(),
                ss == self.segments@,
                total == Self::sizes_sat(ss.skip(i as int)),
            decreases i,
        {
            i = i - 1;
            let sz = self.segments[i].size;
            total = if u64::MAX - sz < total {
                u64::MAX
            } else {
                total + sz
            };
            proof {
                assert(ss.skip(i as int)[0] == ss[i as int]);
                assert(ss.skip(i as int).drop_first() =~= ss.skip(i as int + 1));
            }
        }
        proof {
            assert(ss.skip(0) =~= ss);
        }
        total
    }

    /// How many leading segments retention removes: walking from the oldest
    /// and never touching the last (active) segment, a segment goes when its
    /// last write is at least `retention_ms` old, or when a byte cap is set
    /// and the remaining total still exceeds it; the walk stops at the first
    /// segment it keeps.
    pub open spec fn cleanup_drops(
        ss: Seq<Segment>,
        now_ms: u64,
        retention_ms: u64,
        retention_bytes: Option<u64>,
        total: u64,
    ) -> int
        decreases ss.len(),
    {
        if ss.len() <= 1 {
            0
        } else {
            let s0 = ss[0];
            let old_enough = now_ms >= s0.last_write && now_ms - s0.last_write >= retention_ms;
            let too_big = match retention_bytes {
                Some(cap) => total > cap,
                None => false,
            };
            if old_enough || too_big {
                let rest_total = if total >= s0.size {
                    (total - s0.size) as u64
                } else {
                    0
                };
                1 + Self::cleanup_drops(
                    ss.drop_first(),
                    now_ms,
                    retention_ms,
                    retention_bytes,
                    rest_total,
                )
            } else {
                0
            }
        }
    }

    /// Applies retention: removes eligible leading segments, never the
    /// active one, and advances the low watermark to just past what was
    /// removed. Records at or above the new low watermark stay readable,
    /// and the low watermark never moves backwards. Returns the base
    /// offsets of the removed segments so their files can be unlinked.
    pub fn maybe_cleanup(
        &mut self,
        now_ms: u64,
        retention_ms: u64,
        retention_bytes: Option<u64>,
    ) -> (r: Vec<u64>)
        requires
            old(self).wf(),
        ensures
            final(self).wf(),
            final(self).segments@ == old(self).segments@.skip(
                Self::cleanup_drops(
                    old(self).segments@,
                    now_ms,
                    retention_ms,
                    retention_bytes,
                    Self::sizes_sat(old(self).segments@),
                ),
            ),
            final(self).state.low_watermark >= old(self).state.low_watermark,
            final(self).recs() == old(self).recs().skip(
                final(self).state.low_watermark - old(self).state.low_watermark,
            ),
            final(self).state.log_end_offset == old(self).state.log_end_offset,
            final(self).state.high_watermark == (if final(self).recs().len() == 0 {
                final(self).state.log_end_offset as int
            } else {
                old(self).state.high_watermark as int
            }),
            final(self).id == old(self).id,
            final(self).max_segment_bytes == old(self).max_segment_bytes,
            final(self).active_segment == old(self).active_segment,
            r@.len() == Self::cleanup_drops(
                old(self).segments@,
                now_ms,
                retention_ms,
                retention_bytes,
                Self::sizes_sat(old(self).segments@),
            ),
            forall|i: int|
                0 <= i < r@.len() ==> r@[i] == (#[trigger] old(self).segments@[i]).base_offset,
    {
        let ghost ss0 = self.segments@;
        let ghost total0 = Self::sizes_sat(ss0);
        let ghost drops = Self::cleanup_drops(ss0, now_ms, retention_ms, retention_bytes, total0);
        proof {
            lemma_chain_recs(ss0);
        }
        let mut total = self.total_bytes();
        let mut removed: Vec<u64> = Vec::new();
        while self.segments.len() > 1
            invariant
                self.wf(),
                removed@.len() <= ss0.len(),
                self.segments@ == ss0.skip(removed@.len() as int),
                self.state.low_watermark - old(self).state.low_watermark <= old(
                    self,
                ).recs().len(),
                removed@.len() as int + Self::cleanup_drops(
                    self.segments@,
                    now_ms,
                    retention_ms,
                    retention_bytes,
                    total,
                ) == drops,
                forall|i: int|
                    0 <= i < removed@.len() ==> removed@[i] == (
                    #[trigger] ss0[i]).base_offset,
                self.state.log_end_offset == old(self).state.log_end_offset,
                self.state.high_watermark == (if self.recs().len() == 0 {
                    self.state.log_end_offset as int
                } else {
                    old(self).state.high_watermark as int
                }),
                self.state.low_watermark >= old(self).state.low_watermark,
                self.id == old(self).id,
                self.max_segment_bytes == old(self).max_segment_bytes,
                self.active_segment == old(self).active_segment,
                self.recs() == old(self).recs().skip(
                    self.state.low_watermark - old(self).state.low_watermark,
                ),
            ensures
                self.wf(),
                removed@.len() == drops,
                self.segments@ == ss0.skip(drops),
                self.state.log_end_offset == old(self).state.log_end_offset,
                self.state.high_watermark == (if self.recs().len() == 0 {
                    self.state.log_end_offset as int
                } else {
                    old(self).state.high_watermark as int
                }),
                self.state.low_watermark >= old(self).state.low_watermark,
                self.id == old(self).id,
                self.max_segment_bytes == old(self).max_segment_bytes,
                self.active_segment == old(self).active_segment,
                self.recs() == old(self).recs().skip(
                    self.state.low_watermark - old(self).state.low_watermark,
                ),
                forall|i: int|
                    0 <= i < removed@.len() ==> removed@[i] == (
                    #[trigger] ss0[i]).base_offset,
            decreases self.segments@.len(),
        {
            let head = &self.segments[0];
            let old_enough = now_ms >= head.last_write && now_ms - head.last_write
                >= retention_ms;
            let too_big = match retention_bytes {
                Some(cap) => total > cap,
                None => false,
            };
            if !(old_enough || too_big) {
                break ;
            }
            let ghost ss_before = self.segments@;
            proof {
                lemma_chain_recs(ss_before);
                (ss_before[0]).lemma_wf_bounds();
                (ss_before[1]).lemma_wf_bounds();
                assert(seg_chain(ss_before.drop_first())) by {
                    assert(forall|i: int|
                        0 <= i < ss_before.drop_first().len() ==> (
                        #[trigger] ss_before.drop_first()[i]) == ss_before[i + 1]);
                }
            }
            let gone = self.segments.remove(0);
            let sz = gone.size;
            total = if total >= sz {
                total - sz
            } else {
                0
            };
            let new_low = self.segments[0].base_offset;
            self.state.set_low_watermark(new_low);
            // Removing every record leaves an empty partition, whose high
            // watermark sits at its log end.
            if self.segments.len() == 1 && self.segments[0].size == 0 {
                let log_end = self.state.log_end_offset();
                self.state.set_high_watermark(log_end);
            }
            removed.push(gone.base_offset);
            proof {
                assert(self.segments@ =~= ss_before.drop_first());
                assert(self.segments@ =~= ss0.skip(removed@.len() as int));
                lemma_chain_recs(self.segments@);
                (gone).lemma_wf_bounds();
                (self.segments@[0]).lemma_wf_bounds();
                if self.segments@.len() == 1 {
                    assert(self.segments@.drop_first() =~= Seq::<Segment>::empty());
                    assert(all_recs(self.segments@.drop_first()) == Seq::<
                        (u64, MessageView),
                    >::empty());
                    assert(self.recs() =~= self.segments@[0].recs());
                }
                // Dropping the head segment drops exactly its records.
                assert(all_recs(ss_before) == gone.recs() + all_recs(self.segments@));
                let glen = gone.recs().len() as int;
                assert(all_recs(self.segments@) =~= all_recs(ss_before).skip(glen));
                let pd = ss_before[0].base_offset - old(self).state.low_watermark;
                let nd = self.state.low_watermark - old(self).state.low_watermark;
                assert(all_recs(ss_before) == old(self).recs().skip(pd));
                assert(all_recs(ss_before).len() == old(self).recs().len() - pd);
                assert(self.state.low_watermark == gone.base_offset + glen);
                assert(nd == pd + glen);
                assert(old(self).recs().skip(pd).skip(glen) =~= old(self).recs().skip(nd));
                assert(self.recs() == old(self).recs().skip(nd));
                assert(nd <= old(self).recs().len());
            }
        }
        removed
    }

    /// The records a list of segment files yields on recovery: each file is
    /// parsed as a log image ([`parse_log_from`]); files are accepted while
    /// each one's base offset continues where the previous one ended, and a
    /// torn or empty file ends the run.
    pub open spec fn recover_chain(files: Seq<(u64, Seq<u8>, u64)>, next: u64) -> Seq<
        (u64, MessageView),
    >
        decreases files.len(),
    {
        if files.len() == 0 {
            Seq::empty()
        } else if files[0].0 != next {
            Seq::empty()
        } else {
            let rs = parse_log_from(files[0].1, next);
            if next + rs.len() > u64::MAX {
                Seq::empty()
            } else if rs.len() == 0 {
                rs
            } else {
                rs + Self::recover_chain(files.drop_first(), (next + rs.len()) as u64)
            }
        }
    }

    /// The records of a whole partition directory: its files in base-offset
    /// order, chained from the first file's base.
    pub open spec fn recover_records(files: Seq<(u64, Seq<u8>, u64)>) -> Seq<(u64, MessageView)> {
        if files.len() == 0 {
            Seq::empty()
        } else {
            Self::recover_chain(files, files[0].0)
        }
    }

    /// Rebuilds a partition from its segment files, read back from disk in
    /// base-offset order as `(base_offset, log image, last-write ms)`. The
    /// files are authoritative: every watermark is recomputed from what they
    /// parse to, as [`recover_records`] describes. Files that do not chain
    /// onto the records before them are ignored.
    #[verifier::rlimit(100)]
    #[verifier::spinoff_prover]
    pub fn recover(id: u32, max_segment_bytes: u64, files: Vec<(u64, Vec<u8>, u64)>) -> (r:
        Partition)
        ensures
            r.wf(),
            r.id == id,
            r.max_segment_bytes == max_segment_bytes,
            r.recs() == Self::recover_records(
                files@.map_values(|f: (u64, Vec<u8>, u64)| (f.0, f.1@, f.2)),
            ),
            r.state.low_watermark == (if files@.len() == 0 {
                0int
            } else {
                files@[0].0 as int
            }),
            r.state.log_end_offset == r.state.low_watermark + r.recs().len(),
    {
        let ghost fview = files@.map_values(|f: (u64, Vec<u8>, u64)| (f.0, f.1@, f.2));
        if files.len() == 0 {
            return Partition::new(id, max_segment_bytes);
        }
        let start = files[0].0;
        let mut segments: Vec<Segment> = Vec::new();
        let mut next: u64 = start;
        let mut i: usize = 0;
        let mut stopped: bool = false;
        let file_count = files.len();
        proof {
            assert(all_recs(Seq::<Segment>::empty()) == Seq::<(u64, MessageView)>::empty());
            assert(Seq::<(u64, MessageView)>::empty() + Self::recover_chain(fview, start)
                =~= Self::recover_chain(fview, start));
            assert(fview.skip(0) =~= fview);
        }
        while i < file_count
            invariant
                file_count == files@.len(),
                fview == files@.map_values(|f: (u64, Vec<u8>, u64)| (f.0, f.1@, f.2)),
                i <= files@.len(),
                seg_chain(segments@),
                segments@.len() >= 1 ==> segments@[0].base_offset == start,
                segments@.len() >= 1 ==> next == segments@.last().base_offset
                    + segments@.last().recs().len(),
                segments@.len() == 0 ==> next == start && all_recs(segments@) == Seq::<
                    (u64, MessageView),
                >::empty(),
                start + all_recs(segments@).len() == next,
                !stopped ==> Self::recover_chain(fview, start) == all_recs(segments@)
                    + Self::recover_chain(fview.skip(i as int), next),
                stopped ==> Self::recover_chain(fview, start) == all_recs(segments@),
                forall|k: int| 0 <= k < segments@.len() - 1 ==> (#[trigger] segments@[k]).recs().len() > 0,
                !stopped && segments@.len() >= 1 ==> segments@.last().recs().len() > 0,
            ensures
                seg_chain(segments@),
                segments@.len() >= 1 ==> segments@[0].base_offset == start,
                segments@.len() >= 1 ==> next == segments@.last().base_offset
                    + segments@.last().recs().len(),
                segments@.len() == 0 ==> next == start,
                start + all_recs(segments@).len() == next,
                Self::recover_chain(fview, start) == all_recs(segments@),
            decreases file_count - i + (if stopped {
                0int
            } else {
                1int
            }),
        {
            if stopped {
                break ;
            }
            let ghost fcur = fview.skip(i as int);
            proof {
                assert(fcur[0] == fview[i as int]);
                assert(fcur.drop_first() =~= fview.skip(i as int + 1));
            }
            let base = files[i].0;
            let image = crate::message::clone_bytes(&files[i].1);
            let last_write = files[i].2;
            if base != next {
                stopped = true;
                proof {
                    assert(Self::recover_chain(fcur, next) =~= Seq::<(u64, MessageView)>::empty());
                    assert(all_recs(segments@) + Seq::<(u64, MessageView)>::empty()
                        =~= all_recs(segments@));
                }
                break ;
            }
            let (mut seg, seg_next) = Segment::recover_from_disk(base, image);
            seg.last_write = last_write;
            proof {
                reveal(crate::segment::Segment::wf);
                assert(seg.wf());
                (seg).lemma_wf_bounds();
            }
            let full = seg_next == u64::MAX && seg.last_offset == u64::MAX
                && seg.size > 0;
            if full {
                stopped = true;
                proof {
                    assert(base + seg.recs().len() > u64::MAX);
                    assert(Self::recover_chain(fcur, next) =~= Seq::<(u64, MessageView)>::empty());
                    assert(all_recs(segments@) + Seq::<(u64, MessageView)>::empty()
                        =~= all_recs(segments@));
                }
                break ;
            }
            let empty_seg = seg.size == 0;
            let ghost segs_before = segments@;
            proof {
                lemma_all_recs_snoc(segs_before, seg);
            }
            segments.push(seg);
            next = seg_next;
            proof {
                assert(segments@ =~= segs_before.push(segments@.last()));
                assert(seg_chain(segments@)) by {
                    if segs_before.len() >= 1 {
                        assert(segs_before.last().recs().len() > 0);
                        assert(segments@.last().base_offset == segs_before.last().base_offset
                            + segs_before.last().recs().len());
                        assert(forall|k: int|
                            0 <= k < segs_before.len() ==> (#[trigger] segments@[k])
                                == segs_before[k]);
                    }
                }
                assert(Self::recover_chain(fcur, base) == parse_log_from(fcur[0].1, base) + (
                if parse_log_from(fcur[0].1, base).len() == 0 {
                    Seq::<(u64, MessageView)>::empty()
                } else {
                    Self::recover_chain(fcur.drop_first(), seg_next)
                }));
                assert(all_recs(segs_before) + (segments@.last().recs() + Self::recover_chain(
                    fcur.drop_first(),
                    seg_next,
                )) =~= all_recs(segments@) + Self::recover_chain(fview.skip(i as int + 1),
                seg_next));
            }
            if empty_seg {
                stopped = true;
                proof {
                    assert(segments@.last().recs().len() == 0);
                    assert(parse_log_from(fcur[0].1, base).len() == 0);
                    assert(all_recs(segs_before) + (segments@.last().recs() + Seq::<
                        (u64, MessageView),
                    >::empty()) =~= all_recs(segments@));
                    assert(Self::recover_chain(fcur, base) =~= segments@.last().recs());
                    assert(all_recs(segs_before) + Self::recover_chain(fcur, base)
                        =~= all_recs(segments@));
                }
                break ;
            }
            proof {
                assert(segments@.last().recs().len() > 0);
            }
            i = i + 1;
        }
        if segments.len() == 0 {
            let seg = Segment::new(start);
            proof {
                lemma_all_recs_snoc(segments@, seg);
            }
            segments.push(seg);
            proof {
                assert(all_recs(segments@) =~= Seq::<(u64, MessageView)>::empty());
            }
        }
        let low = segments[0].base_offset;
        let log_end = next;
        // An empty partition's high watermark sits at its log end, keeping
        // low <= high <= log_end; with records it is the last offset.
        let high = if next == start {
            log_end
        } else {
            log_end - 1
        };
        let active_segment = segments[segments.len() - 1].base_offset;
        let r = Partition {
            id,
            segments,
            active_segment,
            max_segment_bytes,
            state: PartitionState {
                log_end_offset: log_end,
                low_watermark: low,
                high_watermark: high,
            },
            meta_flush_pending: false,
        };
        proof {
            lemma_chain_recs(r.segments@);
        }
        r
    }

    /// The crash-recovery law: rebuilding a partition from the byte images
    /// of its segment files — disk alone — yields exactly the records it
    /// held, whatever their last-write stamps read back as.
    pub proof fn lemma_crash_recovery(p: &Partition, stamps: Seq<u64>)
        requires
            p.wf(),
            stamps.len() == p.segments@.len(),
        ensures
            Self::recover_records(
                Seq::new(
                    p.segments@.len(),
                    |i: int| (p.segments@[i].base_offset, p.segments@[i].data@, stamps[i]),
                ),
            ) == p.recs(),
    {
        let files = Seq::new(
            p.segments@.len(),
            |i: int| (p.segments@[i].base_offset, p.segments@[i].data@, stamps[i]),
        );
        lemma_chain_recs(p.segments@);
        assert(p.segments@.last().base_offset + p.segments@.last().recs().len() <= u64::MAX);
        Self::lemma_recover_chain(p.segments@, files);
    }

    /// Recovery inverts persistence segment by segment.
    proof fn lemma_recover_chain(ss: Seq<Segment>, files: Seq<(u64, Seq<u8>, u64)>)
        requires
            ss.len() >= 1,
            seg_chain(ss),
            ss.last().base_offset + ss.last().recs().len() <= u64::MAX,
            files.len() == ss.len(),
            forall|i: int|
                0 <= i < ss.len() ==> (#[trigger] files[i]).0 == ss[i].base_offset && files[i].1
                    == ss[i].data@,
        ensures
            Self::recover_chain(files, ss[0].base_offset) == all_recs(ss),
        decreases ss.len(),
    {
        let s0 = ss[0];
        (s0).lemma_wf_bounds();
        crate::segment::lemma_segment_data_parses(&s0);
        let rs = parse_log_from(files[0].1, s0.base_offset);
        assert(rs == s0.recs());
        if ss.len() == 1 {
            assert(ss.drop_first() =~= Seq::<Segment>::empty());
            assert(all_recs(ss.drop_first()) == Seq::<(u64, MessageView)>::empty());
            if s0.recs().len() == 0 {
                assert(Self::recover_chain(files, s0.base_offset) =~= all_recs(ss));
            } else {
                assert(s0.base_offset + rs.len() <= u64::MAX);
                assert(files.drop_first() =~= Seq::<(u64, Seq<u8>, u64)>::empty());
                assert(Self::recover_chain(
                    files.drop_first(),
                    (s0.base_offset + rs.len()) as u64,
                ) == Seq::<(u64, MessageView)>::empty());
                assert(rs + Seq::<(u64, MessageView)>::empty() =~= rs);
                assert(s0.recs() + all_recs(ss.drop_first()) =~= s0.recs());
            }
        } else {
            // Only the last segment may be empty, so this one is not.
            assert(s0.recs().len() > 0);
            assert(seg_chain(ss.drop_first())) by {
                assert(forall|i: int|
                    0 <= i < ss.drop_first().len() ==> (#[trigger] ss.drop_first()[i]) == ss[i
                        + 1]);
            }
            assert(forall|i: int|
                0 <= i < ss.drop_first().len() ==> (#[trigger] files.drop_first()[i]).0
                    == ss.drop_first()[i].base_offset && files.drop_first()[i].1
                    == ss.drop_first()[i].data@);
            assert(ss.drop_first().last() == ss.last());
            Self::lemma_recover_chain(ss.drop_first(), files.drop_first());
            assert(ss[1].base_offset == s0.base_offset + s0.recs().len());
            assert(ss.drop_first()[0] == ss[1]);
            assert(Self::recover_chain(files.drop_first(), ss[1].base_offset) == all_recs(
                ss.drop_first(),
            ));
            // The next segment's base witnesses that the sum stays in range.
            lemma_chain_recs(ss);
            assert(s0.base_offset + rs.len() <= u64::MAX);
            assert(Self::recover_chain(files, s0.base_offset) == rs + Self::recover_chain(
                files.drop_first(),
                ss[1].base_offset,
            ));
            assert(rs + all_recs(ss.drop_first()) == all_recs(ss));
        }
    }

    /// The persisted form of the watermark triple.
    pub fn meta(&self) -> (r: PartitionMeta)
        ensures
            r.low_watermark == self.state.low_watermark,
            r.high_watermark == self.state.high_watermark,
            r.log_end_offset == self.state.log_end_offset,
    {
        PartitionMeta {
            low_watermark: self.state.low_watermark(),
            high_watermark: self.state.high_watermark(),
            log_end_offset: self.state.log_end_offset(),
        }
    }

    /// One step of the suffix collection: segment `i`'s records from the
    /// requested offset onward extend the collected range to the end of
    /// segment `i`.
    #[verifier::rlimit(100)]
    proof fn lemma_collect_step(ss: Seq<Segment>, start: int, i: int, offset: u64, c: int)
        requires
            ss.len() >= 1,
            seg_chain(ss),
            0 <= c <= i < ss.len(),
            ss[c].base_offset <= offset,
            offset <= ss[c].last_offset,
            start == offset - ss[0].base_offset,
            0 <= start,
            i > c ==> all_recs(ss.take(i)).len() >= start,
            i == c ==> all_recs(ss.take(i)).len() <= start,
        ensures
            all_recs(ss).subrange(start, Self::collected_upto(ss, start, i + 1)) == all_recs(
                ss,
            ).subrange(start, Self::collected_upto(ss, start, i)) + ss[i].recs().skip(
                ss[i].start_index(offset),
            ),
            all_recs(ss.take(i + 1)).len() >= start,
            Self::collected_upto(ss, start, i + 1) <= all_recs(ss).len(),
    {
        lemma_chain_recs(ss);
        (ss[c]).lemma_wf_bounds();
        (ss[i]).lemma_wf_bounds();
        lemma_all_recs_split(ss, i);
        assert(ss.take(i + 1) =~= ss.take(i).push(ss[i]));
        lemma_all_recs_snoc(ss.take(i), ss[i]);
        let g_i = all_recs(ss.take(i)).len() as int;
        let g_i1 = all_recs(ss.take(i + 1)).len() as int;
        assert(g_i1 == g_i + ss[i].recs().len());
        // The records before segment i are exactly the offsets below its base.
        if i > 0 {
            lemma_chain_recs(ss.take(i));
            assert(ss.take(i)[0] == ss[0]);
            assert(ss.take(i).last() == ss[i - 1]);
            assert(ss[i].base_offset == ss[i - 1].base_offset + ss[i - 1].recs().len());
            assert(ss[i].base_offset == ss[0].base_offset + g_i);
        } else {
            assert(ss.take(0) =~= Seq::<Segment>::empty());
            assert(all_recs(ss.take(0)) == Seq::<(u64, MessageView)>::empty());
        }
        // Segment i's records sit at global positions g_i onward.
        assert(ss.skip(i)[0] == ss[i]);
        assert(ss.skip(i).drop_first() =~= ss.skip(i + 1));
        assert(forall|j: int|
            0 <= j < ss[i].recs().len() ==> all_recs(ss)[g_i + j]
                == (#[trigger] ss[i].recs()[j]));
        if i == c {
            assert(offset >= ss[i].base_offset);
            assert(ss[i].start_index(offset) == offset - ss[i].base_offset);
            assert(offset - ss[i].base_offset <= ss[i].recs().len());
            assert(g_i1 >= start);
        } else {
            // Later segments begin past the offset.
            assert(ss[c].recs().len() > 0);
            lemma_all_recs_split(ss, c);
            assert(ss.take(c + 1) =~= ss.take(c).push(ss[c]));
            lemma_all_recs_snoc(ss.take(c), ss[c]);
            if c > 0 {
                lemma_chain_recs(ss.take(c));
                assert(ss.take(c)[0] == ss[0]);
                assert(ss.take(c).last() == ss[c - 1]);
                assert(ss[c].base_offset == ss[0].base_offset + all_recs(ss.take(c)).len());
            } else {
                assert(ss.take(0) =~= Seq::<Segment>::empty());
            }
            assert(ss[c].last_offset == ss[c].base_offset + ss[c].recs().len() - 1);
            assert(start < all_recs(ss.take(c + 1)).len());
            assert(ss.take(i).take(c + 1) =~= ss.take(c + 1));
            lemma_all_recs_split(ss.take(i), c + 1);
            assert(all_recs(ss.take(c + 1)).len() <= g_i);
            assert(offset < ss[i].base_offset);
            assert(ss[i].start_index(offset) == 0);
        }
        assert(all_recs(ss).subrange(start, Self::collected_upto(ss, start, i + 1))
            =~= all_recs(ss).subrange(start, Self::collected_upto(ss, start, i))
            + ss[i].recs().skip(ss[i].start_index(offset)));
    }

    /// The watermark order of the data model: the low watermark never
    /// passes the high watermark, which never passes the log end.
    pub proof fn lemma_watermark_order(&self)
        requires
            self.wf(),
        ensures
            self.state.low_watermark <= self.state.high_watermark,
            self.state.high_watermark <= self.state.log_end_offset,
    {
        lemma_chain_recs(self.segments@);
        (self.segments@.last()).lemma_wf_bounds();
    }

    /// A contained offset sits at most one past the retained records.
    pub proof fn lemma_contains_bound(&self, offset: u64)
        requires
            self.wf(),
            self.contains_offset(offset),
        ensures
            self.start_offset() <= offset,
            offset - self.start_offset() <= self.recs().len(),
    {
        lemma_chain_recs(self.segments@);
        (self.segments@.last()).lemma_wf_bounds();
    }

    /// The number of records collected once the scan has passed segment
    /// `i`, counted from the requested offset's global position.
    pub open spec fn collected_upto(ss: Seq<Segment>, start: int, i: int) -> int {
        let g = all_recs(ss.take(i)).len() as int;
        if g >= start {
            g
        } else {
            start
        }
    }

    /// Reads every record from `offset` on, in offset order. Fails with
    /// `OffsetNotFound` exactly when no retained segment covers `offset` —
    /// it lies below the low watermark or at or past the log end.
    #[verifier::rlimit(100)]
    pub fn read_from_offset(&self, offset: u64) -> (r: Result<Vec<Message>, DeserializeError>)
        requires
            self.wf(),
        ensures
            r is Ok <==> self.contains_offset(offset),
            r matches Ok(list) ==> list@.map_values(|m: Message| m@) == self.recs().skip(
                offset - self.start_offset(),
            ).map_values(|p: (u64, MessageView)| p.1),
            r matches Err(e) ==> e matches DeserializeError::OffsetNotFound(o) && o == offset,
    {
        proof {
            lemma_chain_recs(self.segments@);
        }
        // Find a segment whose range contains the offset, scanning from the
        // newest backwards.
        let mut found: bool = false;
        let mut c: usize = 0;
        let mut j: usize = self.segments.len();
        while j > 0 && !found
            invariant
                self.wf(),
                j <= self.segments@.len(),
                !found ==> forall|i: int|
                    j <= i < self.segments@.len() ==> !((#[trigger] self.segments@[i]).base_offset
                        <= offset && offset <= self.segments@[i].last_offset),
                found ==> c < self.segments@.len() && self.segments@[c as int].base_offset
                    <= offset && offset <= self.segments@[c as int].last_offset,
            decreases j,
        {
            j = j - 1;
            let seg = &self.segments[j];
            if seg.base_offset <= offset && offset <= seg.last_offset {
                found = true;
                c = j;
            }
        }
        if !found {
            proof {
                if self.contains_offset(offset) {
                    Self::lemma_some_segment_covers(self.segments@, offset);
                    assert(false);
                }
            }
            return Err(DeserializeError::OffsetNotFound(offset));
        }
        let ghost ss = self.segments@;
        let ghost start: int = offset - self.start_offset();
        let ghost fview = |m: Message| m@;
        let ghost gview = |p: (u64, MessageView)| p.1;
        let ghost hview = |p: (u64, Message)| p.1@;
        let mut out: Vec<Message> = Vec::new();
        proof {
            Self::lemma_cover_bounds(ss, offset, c as int);
            // The offset's global position is at least the record count
            // before the containing segment, so nothing is collected yet.
            lemma_all_recs_split(ss, c as int);
            if c > 0 {
                lemma_chain_recs(ss.take(c as int));
                assert(ss.take(c as int)[0] == ss[0]);
                assert(ss.take(c as int).last() == ss[c - 1]);
                assert(ss[c as int].base_offset == ss[c - 1].base_offset
                    + ss[c - 1].recs().len());
            } else {
                assert(ss.take(0) =~= Seq::<Segment>::empty());
                assert(all_recs(ss.take(0)) == Seq::<(u64, MessageView)>::empty());
            }
            assert(all_recs(ss.take(c as int)).len() <= start);
            assert(out@.map_values(fview) =~= self.recs().subrange(start, start).map_values(
                gview,
            ));
        }
        let mut i: usize = c;
        while i < self.segments.len()
            invariant
                self.wf(),
                ss == self.segments@,
                fview == (|m: Message| m@),
                gview == (|p: (u64, MessageView)| p.1),
                hview == (|p: (u64, Message)| p.1@),
                start == offset - self.start_offset(),
                0 <= start,
                c <= i <= ss.len(),
                c < ss.len(),
                self.segments@[c as int].base_offset <= offset,
                offset <= self.segments@[c as int].last_offset,
                i == c ==> all_recs(ss.take(i as int)).len() <= start,
                out@.map_values(fview) == self.recs().subrange(
                    start,
                    Self::collected_upto(ss, start, i as int),
                ).map_values(gview),
                i > c ==> all_recs(ss.take(i as int)).len() >= start,
            decreases ss.len() - i,
        {
            let seg = &self.segments[i];
            let part = seg.read_from_offset(offset);
            let ghost part0 = part@;
            proof {
                Self::lemma_collect_step(ss, start, i as int, offset, c as int);
            }
            let mut k: usize = 0;
            let ghost before = out@;
            while k < part.len()
                invariant
                    k <= part0.len(),
                    part@ == part0,
                    fview == (|m: Message| m@),
                    hview == (|p: (u64, Message)| p.1@),
                    out@.map_values(fview) == before.map_values(fview) + part0.take(
                        k as int,
                    ).map_values(hview),
                decreases part0.len() - k,
            {
                let ghost prev = out@;
                let entry = &part[k];
                let cloned = entry.1.clone();
                proof {
                    assert(cloned@ == part0[k as int].1@);
                }
                out.push(cloned);
                proof {
                    assert(out@ == prev.push(cloned));
                    assert(part0.take(k + 1) =~= part0.take(k as int).push(part0[k as int]));
                    assert(out@.map_values(fview) =~= prev.map_values(fview).push(cloned@));
                    assert(part0.take(k + 1).map_values(hview) =~= part0.take(
                        k as int,
                    ).map_values(hview).push(part0[k as int].1@));
                    assert(out@.map_values(fview) =~= before.map_values(fview) + part0.take(
                        k + 1,
                    ).map_values(hview));
                }
                k = k + 1;
            }
            proof {
                assert(part0.take(part0.len() as int) =~= part0);
                let six = seg.start_index(offset);
                assert(part0.map_values(|p: (u64, Message)| (p.0, p.1@)) == seg.recs().skip(
                    six,
                ));
                assert(part0.map_values(hview) =~= seg.recs().skip(six).map_values(gview));
                assert(self.recs().subrange(
                    start,
                    Self::collected_upto(ss, start, i as int + 1),
                ).map_values(gview) =~= self.recs().subrange(
                    start,
                    Self::collected_upto(ss, start, i as int),
                ).map_values(gview) + seg.recs().skip(six).map_values(gview));
            }
            i = i + 1;
        }
        proof {
            Self::lemma_cover_bounds(ss, offset, c as int);
            assert(ss.take(ss.len() as int) =~= ss);
            assert(Self::collected_upto(ss, start, ss.len() as int) == self.recs().len());
            assert(self.recs().subrange(start, self.recs().len() as int) =~= self.recs().skip(
                start,
            ));
            assert(out@.map_values(|m: Message| m@) =~= out@.map_values(fview));
            assert(self.recs().skip(start).map_values(|p: (u64, MessageView)| p.1)
                =~= self.recs().skip(start).map_values(gview));
        }
        Ok(out)
    }

    /// An offset covered by some segment lies within the whole retained
    /// span, at a global position no further than the record count.
    proof fn lemma_cover_bounds(ss: Seq<Segment>, offset: u64, c: int)
        requires
            ss.len() >= 1,
            seg_chain(ss),
            0 <= c < ss.len(),
            ss[c].base_offset <= offset,
            offset <= ss[c].last_offset,
        ensures
            ss[0].base_offset <= offset,
            offset <= ss.last().last_offset,
            offset - ss[0].base_offset <= all_recs(ss).len(),
    {
        lemma_chain_recs(ss);
        (ss[c]).lemma_wf_bounds();
        (ss.last()).lemma_wf_bounds();
        lemma_all_recs_split(ss, c);
        if c > 0 {
            lemma_chain_recs(ss.take(c));
            assert(ss.take(c)[0] == ss[0]);
            assert(ss.take(c).last() == ss[c - 1]);
            assert(ss[c].base_offset == ss[c - 1].base_offset + ss[c - 1].recs().len());
            assert(ss[c].base_offset == ss[0].base_offset + all_recs(ss.take(c)).len());
        } else {
            assert(ss.take(0) =~= Seq::<Segment>::empty());
            assert(all_recs(ss.take(0)) == Seq::<(u64, MessageView)>::empty());
        }
        lemma_all_recs_split(ss, c + 1);
        assert(ss.take(c + 1) =~= ss.take(c).push(ss[c]));
        lemma_all_recs_snoc(ss.take(c), ss[c]);
        let g_c = all_recs(ss.take(c)).len() as int;
        let g_c1 = all_recs(ss.take(c + 1)).len() as int;
        let total = all_recs(ss).len() as int;
        assert(g_c1 <= total);
        if ss[c].recs().len() > 0 {
            assert(offset - ss[0].base_offset <= g_c1 - 1);
            assert(all_recs(ss).len() > 0);
            if ss.last().recs().len() == 0 {
                // The last segment is empty, so its range starts right after
                // every record, which includes the offset.
                assert(ss[0].base_offset + all_recs(ss).len() == ss.last().base_offset);
                assert(ss.last().last_offset == ss.last().base_offset);
                assert(offset <= ss.last().last_offset);
            } else {
                assert(ss.last().last_offset == ss[0].base_offset + all_recs(ss).len() - 1);
                assert(offset <= ss.last().last_offset);
            }
        } else {
            // An empty segment is the last one; the offset equals its base.
            assert(c == ss.len() - 1);
            assert(ss[c].last_offset == ss[c].base_offset);
            assert(offset == ss[c].base_offset);
        }
    }

    /// Every offset between a chained run's start and its last segment's
    /// last offset lies in some segment's range.
    proof fn lemma_some_segment_covers(ss: Seq<Segment>, o: u64)
        requires
            ss.len() >= 1,
            seg_chain(ss),
            ss[0].base_offset <= o,
            o <= ss.last().last_offset,
        ensures
            exists|i: int|
                0 <= i < ss.len() && (#[trigger] ss[i]).base_offset <= o
                    && o <= ss[i].last_offset,
        decreases ss.len(),
    {
        if ss.len() == 1 {
            assert(ss[0].base_offset <= o && o <= ss[0].last_offset);
        } else {
            let l = ss.len() - 1;
            if ss[l].base_offset <= o {
                assert(ss[l].base_offset <= o && o <= ss[l].last_offset);
            } else {
                assert(seg_chain(ss.take(l)));
                assert(ss.take(l).last() == ss[l - 1]);
                assert(ss[l - 1].recs().len() > 0);
                (ss[l - 1]).lemma_wf_bounds();
                assert(ss[l].base_offset == ss[l - 1].base_offset + ss[l - 1].recs().len());
                assert(ss[l - 1].last_offset == ss[l - 1].base_offset + ss[l - 1].recs().len()
                    - 1);
                Self::lemma_some_segment_covers(ss.take(l), o);
                let i = choose|i: int|
                    0 <= i < ss.take(l).len() && (#[trigger] ss.take(l)[i]).base_offset <= o && o
                        <= ss.take(l)[i].last_offset;
                assert(ss[i].base_offset <= o && o <= ss[i].last_offset);
            }
        }
    }
}

} // verus!
