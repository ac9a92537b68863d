use vstd::prelude::*;

use crate::message::{
    msg_fits, msg_wf, parse_record_body, record_body_bytes, Message, MessageView,
};
use crate::stored_record::framed_record_bytes;
use crate::utils::read_bytes;
use crate::wire::{be_to_u32, put_bytes, take_u32, take_u64, u32_be_bytes};

verus! {

/// How many records pass between two sparse-index entries by default.
pub const DEFAULT_INDEX_INTERVAL: u32 = 100;

// ---------------------------------------------------------------------------
// The byte image of a record log.
// ---------------------------------------------------------------------------

/// The byte image of a sequence of stored records, each framed with its
/// length prefix, in order.
pub open spec fn log_bytes(rs: Seq<(u64, MessageView)>) -> Seq<u8>
    decreases rs.len(),
{
    if rs.len() == 0 {
        Seq::empty()
    } else {
        framed_record_bytes(rs[0].1, rs[0].0) + log_bytes(rs.drop_first())
    }
}

/// Appending one record to a log appends its framed bytes to the image.
pub proof fn lemma_log_bytes_snoc(rs: Seq<(u64, MessageView)>, r: (u64, MessageView))
    ensures
        log_bytes(rs.push(r)) == log_bytes(rs) + framed_record_bytes(r.1, r.0),
    decreases rs.len(),
{
    if rs.len() == 0 {
        let p = rs.push(r);
        assert(p[0] == r);
        assert(p.drop_first() =~= Seq::<(u64, MessageView)>::empty());
        assert(log_bytes(p.drop_first()) == Seq::<u8>::empty());
        assert(framed_record_bytes(r.1, r.0) + Seq::<u8>::empty() =~= framed_record_bytes(
            r.1,
            r.0,
        ));
        assert(log_bytes(rs) == Seq::<u8>::empty());
        assert(Seq::<u8>::empty() + framed_record_bytes(r.1, r.0) =~= framed_record_bytes(
            r.1,
            r.0,
        ));
    } else {
        assert(rs.push(r).drop_first() =~= rs.drop_first().push(r));
        lemma_log_bytes_snoc(rs.drop_first(), r);
        assert(rs.push(r)[0] == rs[0]);
        assert(framed_record_bytes(rs[0].1, rs[0].0) + (log_bytes(rs.drop_first())
            + framed_record_bytes(r.1, r.0)) =~= (framed_record_bytes(rs[0].1, rs[0].0)
            + log_bytes(rs.drop_first())) + framed_record_bytes(r.1, r.0));
    }
}

/// A log image splits at any record boundary.
pub proof fn lemma_log_bytes_split(rs: Seq<(u64, MessageView)>, k: int)
    requires
        0 <= k <= rs.len(),
    ensures
        log_bytes(rs) == log_bytes(rs.take(k)) + log_bytes(rs.skip(k)),
    decreases k,
{
    if k == 0 {
        assert(rs.take(0) =~= Seq::<(u64, MessageView)>::empty());
        assert(rs.skip(0) =~= rs);
        assert(Seq::<u8>::empty() + log_bytes(rs) =~= log_bytes(rs));
    } else {
        assert(rs.take(k)[0] == rs[0]);
        assert(rs.take(k).drop_first() =~= rs.drop_first().take(k - 1));
        assert(rs.skip(k) =~= rs.drop_first().skip(k - 1));
        lemma_log_bytes_split(rs.drop_first(), k - 1);
        crate::wire::lemma_concat_assoc(
            framed_record_bytes(rs[0].1, rs[0].0),
            log_bytes(rs.drop_first().take(k - 1)),
            log_bytes(rs.drop_first().skip(k - 1)),
        );
    }
}

/// Greedy parse of a log image. Records must be canonical — the length
/// prefix covers exactly one record body — and must carry consecutive
/// offsets starting at `next`; parsing stops cleanly at the first torn,
/// malformed or out-of-order record, treating it and everything after it as
/// an unwritten tail.
pub open spec fn parse_log_from(b: Seq<u8>, next: u64) -> Seq<(u64, MessageView)>
    decreases b.len(),
{
    if b.len() < 4 {
        Seq::empty()
    } else {
        let len = be_to_u32(b.take(4)) as int;
        if b.len() - 4 < len {
            Seq::empty()
        } else {
            let body = b.skip(4).take(len);
            match parse_record_body(body) {
                Ok((o, m, rem)) => {
                    if rem.len() != 0 || o != next {
                        Seq::empty()
                    } else if o == u64::MAX {
                        seq![(o, m)]
                    } else {
                        seq![(o, m)] + parse_log_from(b.skip(4 + len), (o + 1) as u64)
                    }
                },
                Err(_) => Seq::empty(),
            }
        }
    }
}

/// Recovery parses a log image back to exactly the records whose encodings
/// it is, when their offsets run consecutively from `base`.
#[verifier::rlimit(100)]
pub proof fn lemma_parse_log_round(rs: Seq<(u64, MessageView)>, base: u64)
    requires
        forall|i: int|
            0 <= i < rs.len() ==> msg_wf((#[trigger] rs[i]).1) && rs[i].0 == base + i,
    ensures
        parse_log_from(log_bytes(rs), base) == rs,
    decreases rs.len(),
{
    if rs.len() == 0 {
        assert(log_bytes(rs) == Seq::<u8>::empty());
        assert(parse_log_from(log_bytes(rs), base) =~= rs);
    } else {
        let m = rs[0].1;
        assert(rs[0].0 == base);
        crate::message::lemma_fits_len(m, base);
        let body = record_body_bytes(m, base);
        let tail = log_bytes(rs.drop_first());
        let s = log_bytes(rs);
        assert(s == framed_record_bytes(m, base) + tail);
        crate::wire::lemma_concat_assoc(u32_be_bytes(body.len() as u32), body, tail);
        assert(s == u32_be_bytes(body.len() as u32) + (body + tail));
        crate::wire::lemma_split_concat(u32_be_bytes(body.len() as u32), body + tail, 4);
        crate::wire::lemma_u32_be_round(body.len() as u32);
        crate::wire::lemma_split_concat(body, tail, body.len() as int);
        crate::message::lemma_record_round_trip(m, base);
        assert(parse_record_body(body) == Ok::<_, crate::message::RecordParseError>(
            (base, m, Seq::<u8>::empty()),
        ));
        if base == u64::MAX {
            if rs.len() > 1 {
                assert(rs[1].0 == base + 1);
                assert(false);
            }
            assert(seq![(base, m)] =~= rs);
        } else {
            assert(forall|i: int|
                0 <= i < rs.drop_first().len() ==> msg_wf((#[trigger] rs.drop_first()[i]).1)
                    && rs.drop_first()[i].0 == (base + 1) + i);
            lemma_parse_log_round(rs.drop_first(), (base + 1) as u64);
            assert(s.skip(4).skip(body.len() as int) =~= s.skip(4 + body.len() as int));
            assert(s.skip(4 + body.len() as int) == tail);
            assert(seq![(base, m)] + rs.drop_first() =~= rs);
        }
    }
}

/// A well-formed segment's byte image parses back to exactly its records.
pub proof fn lemma_segment_data_parses(s: &Segment)
    requires
        s.wf(),
    ensures
        parse_log_from(s.data@, s.base_offset) == s.recs(),
{
    reveal(Segment::wf);
    lemma_parse_log_round(s.recs(), s.base_offset);
}

/// One successful step of the log parse: a canonical record with the
/// expected offset contributes itself, and parsing continues after it.
proof fn lemma_log_step(c0: Seq<u8>, next: u64, len: u32, m: MessageView)
    requires
        c0.len() >= 4,
        len == be_to_u32(c0.take(4)),
        c0.len() - 4 >= len,
        parse_record_body(c0.skip(4).take(len as int)) == Ok::<
            _,
            crate::message::RecordParseError,
        >((next, m, Seq::<u8>::empty())),
    ensures
        next < u64::MAX ==> parse_log_from(c0, next) == seq![(next, m)] + parse_log_from(
            c0.skip(4 + len as int),
            (next + 1) as u64,
        ),
        next == u64::MAX ==> parse_log_from(c0, next) == seq![(next, m)],
{
}

/// A stopped step of the log parse: a torn, malformed, non-canonical or
/// out-of-order record ends the log here.
proof fn lemma_log_stop(c0: Seq<u8>, next: u64)
    requires
        c0.len() < 4 || c0.len() - 4 < be_to_u32(c0.take(4)) || (match parse_record_body(
            c0.skip(4).take(be_to_u32(c0.take(4)) as int),
        ) {
            Ok((o, m, rem)) => rem.len() != 0 || o != next,
            Err(_) => true,
        }),
    ensures
        parse_log_from(c0, next) == Seq::<(u64, MessageView)>::empty(),
{
}

// ---------------------------------------------------------------------------
// The segment.
// ---------------------------------------------------------------------------

/// One append-only run of records covering a contiguous offset range. The
/// byte image of its log file is held in `data`; the records it encodes are
/// the segment's abstract contents. A sparse index maps some offsets to the
/// byte position of their record.
pub struct Segment {
    pub base_offset: u64,
    /// Offset of the last record, or `base_offset` while empty.
    pub last_offset: u64,
    /// Bytes in the log image.
    pub size: u64,
    /// Wall-clock milliseconds of the last append, as the caller supplied
    /// them; retention measures age from here. Zero until known.
    pub last_write: u64,
    pub data: Vec<u8>,
    pub index: Vec<(u64, u64)>,
    pub index_interval: u32,
    pub index_counter: u32,
    pub records: Ghost<Seq<(u64, MessageView)>>,
}

impl Segment {
    /// The records this segment holds, offset first.
    pub open spec fn recs(&self) -> Seq<(u64, MessageView)> {
        self.records@
    }

    /// One sparse-index entry points at the start of the record it names.
    pub open spec fn index_entry_wf(&self, e: (u64, u64)) -> bool {
        &&& self.base_offset <= e.0
        &&& e.0 - self.base_offset < self.recs().len()
        &&& e.1 == log_bytes(self.recs().take(e.0 - self.base_offset)).len()
    }

    /// The segment's invariant: the byte image is the concatenation of the
    /// records' framed encodings, the records are well formed and carry
    /// consecutive offsets from `base_offset`, size and last offset agree
    /// with them, and every index entry points at a record boundary.
    #[verifier::opaque]
    pub open spec fn wf(&self) -> bool {
        &&& self.data@ == log_bytes(self.recs())
        &&& forall|i: int|
            0 <= i < self.recs().len() ==> msg_wf((#[trigger] self.recs()[i]).1)
                && self.recs()[i].0 == self.base_offset + i
        &&& self.size == self.data@.len()
        &&& if self.recs().len() == 0 {
            self.last_offset == self.base_offset
        } else {
            self.last_offset == self.base_offset + self.recs().len() - 1
        }
        &&& forall|i: int| 0 <= i < self.index@.len() ==> self.index_entry_wf(#[trigger] self.index@[i])
        &&& self.index_interval >= 1
    }

    /// What the invariant says about the visible fields: offsets are
    /// consecutive from the base, the last offset and size agree with the
    /// records, and every record is well formed.
    pub proof fn lemma_wf_bounds(&self)
        requires
            self.wf(),
        ensures
            self.recs().len() == 0 ==> self.last_offset == self.base_offset && self.size == 0,
            self.recs().len() > 0 ==> self.last_offset == self.base_offset + self.recs().len()
                - 1,
            self.size == 0 <==> self.recs().len() == 0,
            self.base_offset + self.recs().len() <= u64::MAX + 1,
            forall|i: int|
                0 <= i < self.recs().len() ==> (#[trigger] self.recs()[i]).0 == self.base_offset
                    + i && msg_wf(self.recs()[i].1),
    {
        reveal(Segment::wf);
        if self.recs().len() > 0 {
            assert(self.data@.len() >= crate::stored_record::framed_record_bytes(
                self.recs()[0].1,
                self.recs()[0].0,
            ).len());
            assert(self.recs()[self.recs().len() - 1].0 <= u64::MAX);
        }
    }

    /// A fresh, empty segment starting at `base_offset`, with the default
    /// sparse-index interval.
    pub fn new(base_offset: u64) -> (r: Segment)
        ensures
            r.wf(),
            r.base_offset == base_offset,
            r.recs() == Seq::<(u64, MessageView)>::empty(),
            r.size == 0,
    {
        Self::with_index_interval(base_offset, DEFAULT_INDEX_INTERVAL)
    }

    /// A fresh, empty segment with the given sparse-index interval.
    pub fn with_index_interval(base_offset: u64, index_interval: u32) -> (r: Segment)
        requires
            index_interval >= 1,
        ensures
            r.wf(),
            r.base_offset == base_offset,
            r.recs() == Seq::<(u64, MessageView)>::empty(),
            r.size == 0,
    {
        proof {
            reveal(Segment::wf);
        }
        Segment {
            base_offset,
            last_offset: base_offset,
            size: 0,
            last_write: 0,
            data: Vec::new(),
            index: Vec::new(),
            index_interval,
            index_counter: index_interval,
            records: Ghost(Seq::empty()),
        }
    }

    /// Whether this record's offset gets a sparse-index entry: the first
    /// record of the segment always does, later ones every
    /// `index_interval` records.
    fn should_index(&mut self, offset: u64) -> (r: bool)
        ensures
            final(self).base_offset == old(self).base_offset,
            final(self).last_offset == old(self).last_offset,
            final(self).size == old(self).size,
            final(self).data@ == old(self).data@,
            final(self).index@ == old(self).index@,
            final(self).index_interval == old(self).index_interval,
            final(self).last_write == old(self).last_write,
            final(self).records@ == old(self).records@,
            r == (offset == old(self).base_offset || old(self).index_counter == 0),
            offset == old(self).base_offset ==> final(self).index_counter
                == old(self).index_counter,
            offset != old(self).base_offset && old(self).index_counter == 0
                ==> final(self).index_counter == old(self).index_interval,
            offset != old(self).base_offset && old(self).index_counter != 0
                ==> final(self).index_counter == old(self).index_counter - 1,
    {
        if offset == self.base_offset {
            return true;
        }
        if self.index_counter == 0 {
            self.index_counter = self.index_interval;
            return true;
        }
        self.index_counter = self.index_counter - 1;
        false
    }

    /// Appends the record with the next offset in line, returning the bytes
    /// that were added to the log image, so the caller can mirror them to
    /// the segment's file.
    pub fn append(&mut self, offset: u64, msg: &Message, now_ms: u64) -> (r: Vec<u8>)
        requires
            old(self).wf(),
            msg_wf(msg@),
            offset == old(self).base_offset + old(self).recs().len(),
        ensures
            final(self).wf(),
            final(self).recs() == old(self).recs().push((offset, msg@)),
            final(self).base_offset == old(self).base_offset,
            final(self).last_offset == offset,
            final(self).last_write == now_ms,
            final(self).data@ == old(self).data@ + r@,
            final(self).size == old(self).size + r@.len(),
            r@ == framed_record_bytes(msg@, offset),
            // The sparse index gains an entry for the segment's first record
            // and thereafter whenever the interval counter has run out.
            offset == old(self).base_offset || old(self).index_counter == 0
                ==> final(self).index@ == old(self).index@.push((offset, old(self).size)),
            !(offset == old(self).base_offset || old(self).index_counter == 0)
                ==> final(self).index@ == old(self).index@,
            offset == old(self).base_offset ==> final(self).index_counter
                == old(self).index_counter,
            offset != old(self).base_offset && old(self).index_counter == 0
                ==> final(self).index_counter == old(self).index_interval,
            offset != old(self).base_offset && old(self).index_counter != 0
                ==> final(self).index_counter == old(self).index_counter - 1,
            final(self).index_interval == old(self).index_interval,
    {
        proof {
            reveal(Segment::wf);
        }
        let bytes = msg.serialize_for_disk(offset);
        let pos = self.size;
        put_bytes(&mut self.data, bytes.as_slice());
        self.size = self.data.len() as u64;
        self.last_offset = offset;
        self.last_write = now_ms;
        let ghost old_recs = self.records@;
        proof {
            self.records@ = old_recs.push((offset, msg@));
            lemma_log_bytes_snoc(old_recs, (offset, msg@));
            assert(forall|k: int|
                0 <= k <= old_recs.len() ==> old_recs.push((offset, msg@)).take(k)
                    =~= old_recs.take(k));
        }
        if self.should_index(offset) {
            proof {
                assert(old_recs.push((offset, msg@)).take(offset - self.base_offset)
                    =~= old_recs);
            }
            self.index.push((offset, pos));
        }
        bytes
    }

    /// All records at or after `offset`, in order: the suffix of the
    /// segment's records beginning at `offset`, all of them when `offset`
    /// lies below the segment, none when it lies beyond.
    pub open spec fn start_index(&self, offset: u64) -> int {
        if offset <= self.base_offset {
            0
        } else if offset - self.base_offset <= self.recs().len() {
            offset - self.base_offset
        } else {
            self.recs().len() as int
        }
    }

    /// Reads every record with offset at least `offset`, in offset order.
    /// The sparse index only decides where the scan starts; the result is
    /// exactly the record suffix from `offset` on.
    #[verifier::loop_isolation(false)]
    #[verifier::rlimit(100)]
    pub fn read_from_offset(&self, offset: u64) -> (r: Vec<(u64, Message)>)
        requires
            self.wf(),
        ensures
            r@.map_values(|p: (u64, Message)| (p.0, p.1@)) == self.recs().skip(
                self.start_index(offset),
            ),
    {
        proof {
            reveal(Segment::wf);
        }
        // Start at the position of the largest indexed offset at or below
        // the target, or at the start of the image.
        let mut start_pos: u64 = 0;
        let ghost mut start_rec: int = 0;
        proof {
            assert(self.recs().take(0) =~= Seq::<(u64, MessageView)>::empty());
        }
        let mut j: usize = 0;
        while j < self.index.len()
            invariant
                j <= self.index@.len(),
                0 <= start_rec <= self.recs().len(),
                start_rec <= self.start_index(offset),
                start_pos == log_bytes(self.recs().take(start_rec)).len(),
            decreases self.index@.len() - j,
        {
            let entry = self.index[j];
            if entry.0 <= offset {
                start_pos = entry.1;
                proof {
                    start_rec = entry.0 - self.base_offset;
                }
            }
            j = j + 1;
        }
        proof {
            lemma_log_bytes_split(self.recs(), start_rec);
        }
        // Scan forward from there, skipping records below the target.
        let mut out: Vec<(u64, Message)> = Vec::new();
        let data_slice: &[u8] = self.data.as_slice();
        let mut cur: &[u8] = vstd::slice::slice_subrange(
            data_slice,
            start_pos as usize,
            data_slice.len(),
        );
        let ghost mut k: int = start_rec;
        proof {
            assert(self.data@.subrange(start_pos as int, self.data@.len() as int)
                =~= self.data@.skip(start_pos as int));
            crate::wire::lemma_split_concat(
                log_bytes(self.recs().take(start_rec)),
                log_bytes(self.recs().skip(start_rec)),
                start_pos as int,
            );
            assert(cur@ == log_bytes(self.recs().skip(k)));
            let s0 = self.start_index(offset);
            assert(self.recs().subrange(s0, s0) =~= Seq::<(u64, MessageView)>::empty());
            assert(out@.map_values(|p: (u64, Message)| (p.0, p.1@)) =~= Seq::<
                (u64, MessageView),
            >::empty());
        }
        loop
            invariant
                self.wf(),
                start_rec <= k <= self.recs().len(),
                cur@ == log_bytes(self.recs().skip(k)),
                // Everything at or past the target seen so far is in `out`.
                out@.map_values(|p: (u64, Message)| (p.0, p.1@)) == self.recs().subrange(
                    self.start_index(offset),
                    if k >= self.start_index(offset) {
                        k
                    } else {
                        self.start_index(offset)
                    },
                ),
            decreases self.recs().len() - k,
        {
            if cur.len() == 0 {
                proof {
                    if k < self.recs().len() {
                        let rest = self.recs().skip(k);
                        assert(rest.len() > 0);
                        assert(log_bytes(rest).len() >= framed_record_bytes(
                            rest[0].1,
                            rest[0].0,
                        ).len());
                        assert(framed_record_bytes(rest[0].1, rest[0].0).len() >= 4);
                    }
                    assert(k == self.recs().len());
                    assert(self.recs().subrange(
                        self.start_index(offset),
                        if k >= self.start_index(offset) {
                            k
                        } else {
                            self.start_index(offset)
                        },
                    ) =~= self.recs().skip(self.start_index(offset)));
                }
                return out;
            }
            let ghost rest = self.recs().skip(k);
            let ghost rec = rest[0];
            let ghost body_spec = record_body_bytes(rec.1, rec.0);
            proof {
                crate::message::lemma_fits_len(rec.1, rec.0);
                assert(rest.len() > 0);
                assert(rec == self.recs()[k]);
                assert(log_bytes(rest) == framed_record_bytes(rec.1, rec.0) + log_bytes(
                    rest.drop_first(),
                ));
                crate::wire::lemma_concat_assoc(
                    u32_be_bytes(body_spec.len() as u32),
                    body_spec,
                    log_bytes(rest.drop_first()),
                );
                crate::wire::lemma_split_concat(
                    u32_be_bytes(body_spec.len() as u32),
                    body_spec + log_bytes(rest.drop_first()),
                    4,
                );
                crate::wire::lemma_u32_be_round(body_spec.len() as u32);
                crate::wire::lemma_split_concat(
                    body_spec,
                    log_bytes(rest.drop_first()),
                    body_spec.len() as int,
                );
                crate::message::lemma_record_round_trip(rec.1, rec.0);
            }
            let len = match take_u32(&mut cur) {
                Ok(x) => x,
                Err(_) => {
                    proof {
                        assert(false);
                    }
                    return out;
                },
            };
            let body = match read_bytes(&mut cur, len as usize) {
                Ok(b) => b,
                Err(_) => {
                    proof {
                        assert(false);
                    }
                    return out;
                },
            };
            let (rec_offset, message) = match Message::deserialize(body) {
                Ok(p) => p,
                Err(_) => {
                    proof {
                        assert(false);
                    }
                    return out;
                },
            };
            proof {
                assert(rec_offset == rec.0);
                assert(message@ == rec.1);
                assert(rest.drop_first() =~= self.recs().skip(k + 1));
            }
            let ghost old_out = out@;
            if rec_offset >= offset {
                out.push((rec_offset, message));
            }
            proof {
                let f = |p: (u64, Message)| (p.0, p.1@);
                let s = self.start_index(offset);
                if rec_offset >= offset {
                    assert(out@.map_values(f) =~= old_out.map_values(f).push((rec.0, rec.1)));
                    assert(k >= s);
                    assert(self.recs().subrange(s, k + 1) =~= self.recs().subrange(s, k).push(
                        rec,
                    ));
                } else {
                    assert(rec.0 < offset);
                    assert(k + 1 <= s);
                }
                assert(out@.map_values(f) =~= self.recs().subrange(
                    s,
                    if k + 1 >= s {
                        k + 1
                    } else {
                        s
                    },
                ));
            }
            proof {
                k = k + 1;
            }
        }
    }

    /// Rebuilds a segment from the byte image of its log file, read back
    /// from disk. The image is parsed as far as it is well formed — see
    /// [`parse_log_from`] — and any torn tail is dropped from the image;
    /// the sparse index is rebuilt as the appends would have built it. Also
    /// returned is the next offset after the segment's records (its base
    /// when it holds none), saturating at the largest offset.
    #[verifier::rlimit(100)]
    pub fn recover_from_disk(base_offset: u64, log_data: Vec<u8>) -> (r: (Segment, u64))
        ensures
            r.0.wf(),
            r.0.base_offset == base_offset,
            r.0.recs() == parse_log_from(log_data@, base_offset),
            r.1 == if base_offset + r.0.recs().len() <= u64::MAX {
                base_offset + r.0.recs().len()
            } else {
                u64::MAX as int
            },
    {
        proof {
            reveal(Segment::wf);
        }
        let ghost log0 = log_data@;
        let total_len: usize = log_data.len();
        let mut seg = Segment::with_index_interval(base_offset, DEFAULT_INDEX_INTERVAL);
        let mut consumed: usize = 0;
        let mut next: u64 = base_offset;
        let mut full: bool = false;
        let data_slice: &[u8] = log_data.as_slice();
        let mut cur: &[u8] = data_slice;
        proof {
            assert(log0.skip(0) =~= log0);
            assert(log0.take(0) =~= Seq::<u8>::empty());
        }
        loop
            invariant
                seg.wf(),
                seg.base_offset == base_offset,
                seg.size == consumed,
                consumed <= log0.len(),
                log0.len() == total_len,
                cur@ == log0.skip(consumed as int),
                log0.take(consumed as int) == log_bytes(seg.recs()),
                !full ==> next == base_offset + seg.recs().len(),
                full ==> base_offset + seg.recs().len() == u64::MAX + 1,
                full ==> next == u64::MAX,
                !full ==> parse_log_from(log0, base_offset) == seg.recs() + parse_log_from(
                    cur@,
                    next,
                ),
                full ==> parse_log_from(log0, base_offset) == seg.recs(),
            ensures
                seg.wf(),
                seg.base_offset == base_offset,
                seg.size == consumed,
                consumed <= log0.len(),
                log0.take(consumed as int) == log_bytes(seg.recs()),
                parse_log_from(log0, base_offset) == seg.recs(),
                !full ==> next == base_offset + seg.recs().len(),
                full ==> base_offset + seg.recs().len() == u64::MAX + 1,
                full ==> next == u64::MAX,
            decreases cur@.len() + 1 + (if full {
                0int
            } else {
                1int
            }),
        {
            if full {
                break ;
            }
            let ghost c0 = cur@;
            let ghost stopped: Seq<(u64, MessageView)> = Seq::empty();
            let mut attempt: &[u8] = cur;
            let len = match take_u32(&mut attempt) {
                Ok(x) => x,
                Err(_) => {
                    proof {
                        lemma_log_stop(c0, next);
                        assert(seg.recs() + stopped =~= seg.recs());
                    }
                    break ;
                },
            };
            let body = match read_bytes(&mut attempt, len as usize) {
                Ok(b) => b,
                Err(_) => {
                    proof {
                        assert(c0.skip(4).len() < len);
                        lemma_log_stop(c0, next);
                        assert(seg.recs() + stopped =~= seg.recs());
                    }
                    break ;
                },
            };
            let ghost spec_body = c0.skip(4).take(len as int);
            proof {
                assert(body@ == spec_body);
            }
            let mut body_cur: &[u8] = body;
            let parse_failed = match take_u64(&mut body_cur) {
                Ok(_) => false,
                Err(_) => true,
            };
            if parse_failed {
                proof {
                    assert(parse_record_body(spec_body) is Err);
                    lemma_log_stop(c0, next);
                    assert(seg.recs() + stopped =~= seg.recs());
                }
                break ;
            }
            let message = match Message::parse_body_exec(&mut body_cur) {
                Ok(m) => m,
                Err(_) => {
                    proof {
                        assert(parse_record_body(spec_body) is Err);
                        lemma_log_stop(c0, next);
                        assert(seg.recs() + stopped =~= seg.recs());
                    }
                    break ;
                },
            };
            if body_cur.len() != 0 {
                proof {
                    assert(parse_record_body(spec_body) matches Ok(t) && t.2.len() != 0);
                    lemma_log_stop(c0, next);
                    assert(seg.recs() + stopped =~= seg.recs());
                }
                break ;
            }
            let mut rec_cur: &[u8] = body;
            let rec_offset = match take_u64(&mut rec_cur) {
                Ok(x) => x,
                Err(_) => {
                    proof {
                        assert(false);
                    }
                    break ;
                },
            };
            if rec_offset != next {
                proof {
                    assert(parse_record_body(spec_body) matches Ok(t) && t.0 != next);
                    lemma_log_stop(c0, next);
                    assert(seg.recs() + stopped =~= seg.recs());
                }
                break ;
            }
            proof {
                // The parsed record is exactly what this chunk encodes, so
                // appending it extends the image by the chunk.
                crate::message::lemma_parse_record_sound(spec_body);
                assert(parse_record_body(spec_body) matches Ok(t) && t.0 == next && t.1
                    == message@ && t.2.len() == 0);
                assert(spec_body == record_body_bytes(message@, next));
                assert(msg_wf(message@)) by {
                    reveal(crate::message::msg_fits);
                    assert(record_body_bytes(message@, 0).len() == record_body_bytes(
                        message@,
                        next,
                    ).len());
                }
                crate::wire::lemma_u32_be_inverse(c0.take(4));
                assert(u32_be_bytes(spec_body.len() as u32) == c0.take(4));
                crate::wire::lemma_take_split(log0, consumed as int, 4 + len as int);
                crate::wire::lemma_take_split(c0, 4, len as int);
                assert(consumed + 4 + len <= log0.len());
            }
            let ghost pre_recs = seg.recs();
            let _ = seg.append(next, &message, 0);
            let ghost prev_recs = seg.recs().drop_last();
            proof {
                assert(framed_record_bytes(message@, next) == c0.take(4 + len as int)) by {
                    assert(c0.take(4 + len as int) == c0.take(4) + spec_body);
                }
                lemma_log_bytes_snoc(pre_recs, (next, message@));
                assert(log0.take((consumed + 4 + len as usize) as int) == log_bytes(seg.recs()))
                    by {
                    assert(log0.take((consumed + 4 + len as usize) as int) == log0.take(
                        consumed as int,
                    ) + c0.take(4 + len as int));
                    assert(log_bytes(seg.recs()) == log_bytes(pre_recs) + framed_record_bytes(
                        message@,
                        next,
                    ));
                }
                assert(seg.recs() =~= prev_recs.push((next, message@)));
            }
            consumed = consumed + 4 + len as usize;
            cur = attempt;
            proof {
                assert(cur@ == log0.skip(consumed as int)) by {
                    assert(c0.skip(4).skip(len as int) == c0.skip(4 + len as int)) by {
                        crate::wire::lemma_take_split(c0, 4, len as int);
                    }
                    assert(log0.skip(consumed as int) == c0.skip(4 + len as int)) by {
                        crate::wire::lemma_take_split(
                            log0,
                            (consumed - 4 - len) as int,
                            4 + len as int,
                        );
                    }
                }
                assert(parse_record_body(spec_body)->Ok_0.2 =~= Seq::<u8>::empty());
                assert(parse_record_body(spec_body) == Ok::<
                    _,
                    crate::message::RecordParseError,
                >((next, message@, Seq::<u8>::empty())));
                lemma_log_step(c0, next, len, message@);
            }
            if next == u64::MAX {
                full = true;
                proof {
                    assert(prev_recs + seq![(next, message@)] =~= seg.recs());
                }
            } else {
                let ghost prev_next = next;
                next = next + 1;
                proof {
                    assert(prev_recs + (seq![(prev_next, message@)] + parse_log_from(cur@, next))
                        =~= seg.recs() + parse_log_from(cur@, next));
                }
            }
        }
        let mut data = log_data;
        data.truncate(consumed);
        proof {
            assert(data@ =~= log0.take(consumed as int));
        }
        // Install the truncated on-disk image as the segment's own; it holds
        // exactly the recovered records' bytes.
        seg.data = data;
        proof {
            assert(seg.wf());
        }
        (seg, next)
    }
}

} // verus!
