use vstd::pervasive::VecAdditionalExecFns;
use vstd::prelude::*;
use vstd::slice::slice_to_vec;

verus! {

use crate::errors::Error;
use crate::convert::{bytes_mut_data, bytes_mut_from_slice};
use crate::missing::MissingSegment;
use crate::model::{
    content_of, locate, missing_of, put_model, splice_fill, PutOutcome, QuiltModel, SegModel,
    lemma_locate, lemma_locate_unique, lemma_no_missing, lemma_put_model_wf,
    lemma_seg_in_range,
};

/// One ledger entry: a reserved gap, or bytes already received.
enum Segment {
    Missing { offset: usize, size: usize },
    Received { offset: usize, data: Vec<u8> },
}

impl View for Segment {
    type V = SegModel;

    closed spec fn view(&self) -> SegModel {
        match self {
            Segment::Missing { offset, size } => SegModel::Missing {
                start: *offset as int,
                size: *size as int,
            },
            Segment::Received { offset, data } => SegModel::Received {
                start: *offset as int,
                data: data@,
            },
        }
    }
}

/// A byte buffer that tracks the locations of random-access writes.
///
/// Writes may arrive at arbitrary offsets of one logically contiguous
/// stream. The buffer keeps an ordered ledger of segments covering
/// `[0, frontier)`, each either `Missing` (reserved, unfilled) or
/// `Received`, and a live tail of contiguous received bytes starting at
/// the frontier. Gap lookup is logarithmic in the ledger size; recording
/// a split is linear, which favours the expected small gap counts.
pub struct BytesQuilt {
    tail_offset: usize,
    segments: Vec<Segment>,
    buffer_tail: Vec<u8>,
}

impl View for BytesQuilt {
    type V = QuiltModel;

    closed spec fn view(&self) -> QuiltModel {
        QuiltModel {
            frontier: self.tail_offset as int,
            segs: self.segments@.map_values(|s: Segment| s@),
            tail: self.buffer_tail@,
        }
    }
}

impl BytesQuilt {
    /// Creates a new `BytesQuilt` with default capacity.
    pub fn new() -> (r: Self)
        ensures
            r@ == QuiltModel::empty(),
            r@.wf(),
    {
        let r = BytesQuilt { tail_offset: 0, segments: Vec::new(), buffer_tail: Vec::new() };
        proof {
            assert(r@ =~= QuiltModel::empty());
        }
        r
    }

    /// Creates a new `BytesQuilt` whose tail starts with the given
    /// capacity. The capacity is a performance hint only: it never
    /// constrains which writes are accepted.
    pub fn with_capacity(capacity: usize) -> (r: Self)
        ensures
            r@ == QuiltModel::empty(),
            r@.wf(),
    {
        let r = BytesQuilt {
            tail_offset: 0,
            segments: Vec::new(),
            buffer_tail: Vec::with_capacity(capacity),
        };
        proof {
            assert(r@ =~= QuiltModel::empty());
        }
        r
    }

    /// The starting offset of the ledger entry at `i`.
    fn seg_start(&self, i: usize) -> (r: usize)
        requires
            i < self@.segs.len(),
        ensures
            r as int == self@.segs[i as int].start(),
    {
        match &self.segments[i] {
            Segment::Missing { offset, .. } => *offset,
            Segment::Received { offset, .. } => *offset,
        }
    }

    /// Binary search for the ledger entry whose range contains `pos`.
    fn locate_index(&self, pos: usize) -> (i: usize)
        requires
            self@.wf(),
            pos < self@.frontier,
        ensures
            i < self@.segs.len(),
            i as int == locate(self@.segs, pos as int),
            self@.segs[i as int].start() <= (pos as int) < self@.segs[i as int].end(),
    {
        proof {
            lemma_locate(self@.segs, pos as int);
        }
        let mut lo: usize = 0;
        let mut hi: usize = self.segments.len();
        proof {
            assert(self@.segs.len() == self.segments@.len());
        }
        while hi - lo > 1
            invariant
                self@.wf(),
                pos < self@.frontier,
                hi <= self@.segs.len() == self.segments@.len(),
                lo < hi,
                self@.segs[lo as int].start() <= pos as int,
                hi < self@.segs.len() ==> (pos as int) < self@.segs[hi as int].start(),
            decreases hi - lo,
        {
            let mid = lo + (hi - lo) / 2;
            assert(lo < mid < hi);
            let mid_start = self.seg_start(mid);
            if pos < mid_start {
                hi = mid;
            } else {
                lo = mid;
            }
        }
        proof {
            // `pos` lies before the next entry's start (or before the
            // frontier when `lo` is the last entry), hence inside entry `lo`.
            if lo + 1 < self@.segs.len() {
                assert(self@.segs[lo as int].end() == self@.segs[lo as int + 1].start());
            } else {
                lemma_seg_in_range(self@, lo as int);
                assert(self@.segs[lo as int] == self@.segs.last());
            }
            lemma_locate_unique(self@.segs, pos as int, lo as int);
        }
        lo
    }

    /// Whether the ledger entry at `i` is missing, with its start and size.
    fn seg_bounds(&self, i: usize) -> (r: (bool, usize, usize))
        requires
            i < self@.segs.len(),
        ensures
            r.0 == self@.segs[i as int].is_missing(),
            r.1 as int == self@.segs[i as int].start(),
            r.2 as int == self@.segs[i as int].size(),
    {
        match &self.segments[i] {
            Segment::Missing { offset, size } => (true, *offset, *size),
            Segment::Received { offset, data } => (false, *offset, data.len()),
        }
    }

    /// Fill part of the gap at ledger index `i` with `src`, starting at
    /// `offset`: the gap is replaced by a shorter front gap where the write
    /// began past its start, the received bytes, and a shorter back gap
    /// where the write stopped short of its end.
    fn fill_gap(&mut self, i: usize, offset: usize, src: &[u8])
        requires
            i < old(self)@.segs.len(),
            old(self)@.segs[i as int] is Missing,
            old(self)@.segs[i as int].start() <= offset as int,
            offset + src@.len() <= old(self)@.segs[i as int].end(),
            src@.len() > 0,
            offset + src@.len() <= usize::MAX,
        ensures
            final(self)@.frontier == old(self)@.frontier,
            final(self)@.tail == old(self)@.tail,
            final(self)@.segs == splice_fill(old(self)@.segs, i as int, offset as int, src@),
    {
        let ghost pre = self@;
        let n = self.segments.len();
        assert(i < n);
        let (_, s, z) = self.seg_bounds(i);
        let rel = offset - s;
        let room = z - rel;
        let data: Vec<u8> = slice_to_vec(src);
        let fits = src.len() < room;
        let rest_off = offset + src.len();
        let rest_size = room - src.len();
        if rel == 0 {
            self.segments.set(i, Segment::Received { offset, data });
            if fits {
                self.segments.insert(i + 1, Segment::Missing { offset: rest_off, size: rest_size });
            }
        } else {
            self.segments.set(i, Segment::Missing { offset: s, size: rel });
            self.segments.insert(i + 1, Segment::Received { offset, data });
            let n2 = self.segments.len();
            if fits {
                assert(i + 2 <= n2);
                self.segments.insert(i + 2, Segment::Missing { offset: rest_off, size: rest_size });
            }
        }
        proof {
            assert(self@.segs =~= splice_fill(pre.segs, i as int, offset as int, src@));
        }
    }

    /// Freeze a non-empty tail into the ledger, record the range between
    /// the live edge and `offset` as a new gap, and restart the tail at
    /// `offset` holding `src`.
    fn open_gap(&mut self, offset: usize, src: &[u8]) -> (g: MissingSegment)
        requires
            old(self)@.wf(),
            offset > old(self)@.end(),
            offset + src@.len() <= usize::MAX,
        ensures
            final(self)@ == put_model(old(self)@, offset as int, src@).0,
            g.offset as int == old(self)@.end(),
            g.length as int == offset - old(self)@.end(),
            put_model(old(self)@, offset as int, src@).1 == (PutOutcome::GapOpened {
                start: old(self)@.end(),
                size: offset - old(self)@.end(),
            }),
    {
        let ghost pre = self@;
        if self.buffer_tail.len() > 0 {
            let data = self.buffer_tail.split_off(0);
            proof {
                assert(data@ =~= pre.tail);
            }
            let seg_off = self.tail_offset;
            self.tail_offset = self.tail_offset + data.len();
            self.segments.push(Segment::Received { offset: seg_off, data });
        }
        let gap_start = self.tail_offset;
        let gap_len = offset - gap_start;
        self.segments.push(Segment::Missing { offset: gap_start, size: gap_len });
        self.tail_offset = offset;
        self.buffer_tail = slice_to_vec(src);
        proof {
            assert(self@.segs =~~= put_model(pre, offset as int, src@).0.segs);
            assert(self@ =~~= put_model(pre, offset as int, src@).0);
        }
        MissingSegment { offset: gap_start, length: gap_len }
    }

    /// Transfer bytes into `self` from `src` at `offset`.
    ///
    /// The `offset` counts from the beginning of the stream. A write below
    /// the frontier must fill (part of) a recorded gap from its own start:
    /// it is refused with `WouldOverwrite` when it lands on received bytes
    /// and with `NotEnoughSpace` when it is longer than the rest of its
    /// gap, and a refused write changes nothing. A write past the live edge
    /// freezes the tail, records the skipped range as a gap, and returns
    /// that gap; this is the only place a new gap is ever reported. A write
    /// at the start of a non-empty tail is refused with `WouldOverwrite`;
    /// any other write in the tail's range is appended at the live edge. A
    /// zero-length write into a gap changes nothing.
    pub fn put_at(&mut self, offset: usize, src: &[u8]) -> (r: Result<
        Option<MissingSegment>,
        Error,
    >)
        requires
            old(self)@.wf(),
            offset + src@.len() <= usize::MAX,
            old(self)@.end() + src@.len() <= usize::MAX,
        ensures
            final(self)@ == put_model(old(self)@, offset as int, src@).0,
            final(self)@.wf(),
            match put_model(old(self)@, offset as int, src@).1 {
                PutOutcome::Stored => r == Ok::<Option<MissingSegment>, Error>(None),
                PutOutcome::GapOpened { start, size } => (r matches Ok(Some(ms)) && ms.offset
                    as int == start && ms.length as int == size),
                PutOutcome::Refused { reason } => r == Err::<Option<MissingSegment>, Error>(
                    reason,
                ),
            },
    {
        let ghost pre = self@;
        proof {
            lemma_put_model_wf(pre, offset as int, src@);
        }
        if offset < self.tail_offset {
            // Backfill: the write must land inside a recorded gap.
            let i = self.locate_index(offset);
            let (miss, s, z) = self.seg_bounds(i);
            if !miss {
                return Err(Error::WouldOverwrite);
            }
            if src.len() == 0 {
                return Ok(None);
            }
            let rel = offset - s;
            let room = z - rel;
            if src.len() > room {
                return Err(Error::NotEnoughSpace);
            }
            self.fill_gap(i, offset, src);
            proof {
                assert(self@ =~= put_model(pre, offset as int, src@).0);
            }
            Ok(None)
        } else if offset > self.tail_offset + self.buffer_tail.len() {
            // The write opens a new gap ahead of the live edge.
            let g = self.open_gap(offset, src);
            Ok(Some(g))
        } else if offset == self.tail_offset && self.buffer_tail.len() > 0 {
            // Rewriting the start of the live tail would overwrite bytes
            // already accepted.
            Err(Error::WouldOverwrite)
        } else {
            // The write lands in the live tail's range: append.
            let mut extra = slice_to_vec(src);
            self.buffer_tail.append(&mut extra);
            proof {
                assert(self@ =~= put_model(pre, offset as int, src@).0);
            }
            Ok(None)
        }
    }

    /// One `MissingSegment` per gap currently recorded in the ledger, in
    /// ascending offset order. The live tail is never represented: it is
    /// fully received by construction.
    pub fn missing_segments(&self) -> (r: Vec<MissingSegment>)
        requires
            self@.wf(),
        ensures
            r@.len() == self@.missing_list().len(),
            forall|j: int| 0 <= j < r@.len() ==> {
                &&& (#[trigger] r@[j]).offset as int == self@.missing_list()[j].0
                &&& r@[j].length as int == self@.missing_list()[j].1
                &&& r@[j].wf()
            },
    {
        let mut r: Vec<MissingSegment> = Vec::new();
        let n = self.segments.len();
        let mut i: usize = 0;
        while i < n
            invariant
                self@.wf(),
                n == self@.segs.len(),
                i <= n,
                r@.len() == missing_of(self@.segs.take(i as int)).len(),
                forall|j: int| 0 <= j < r@.len() ==> {
                    &&& (#[trigger] r@[j]).offset as int == missing_of(
                        self@.segs.take(i as int),
                    )[j].0
                    &&& r@[j].length as int == missing_of(self@.segs.take(i as int))[j].1
                    &&& r@[j].wf()
                },
            decreases n - i,
        {
            let (miss, s, z) = self.seg_bounds(i);
            proof {
                assert(self@.segs.take(i as int + 1).drop_last() =~= self@.segs.take(i as int));
                assert(self@.segs.take(i as int + 1).last() == self@.segs[i as int]);
                lemma_seg_in_range(self@, i as int);
            }
            if miss {
                r.push(MissingSegment { offset: s, length: z });
            }
            i += 1;
        }
        proof {
            assert(self@.segs.take(n as int) =~= self@.segs);
        }
        r
    }

    /// The reassembled stream as one vector: the ledger's bytes in order,
    /// then the live tail.
    pub(crate) fn assemble(self) -> (out: Vec<u8>)
        requires
            self@.wf(),
            self@.complete(),
        ensures
            out@ == self@.assembled(),
    {
        let ghost m = self@;
        proof {
            lemma_no_missing(m.segs);
        }
        let BytesQuilt { tail_offset: _, segments, buffer_tail: mut tail_part } = self;
        let mut out: Vec<u8> = Vec::new();
        let n = segments.len();
        let mut i: usize = 0;
        while i < n
            invariant
                n == segments@.len(),
                m.segs == segments@.map_values(|s: Segment| s@),
                forall|j: int| 0 <= j < m.segs.len() ==> !(#[trigger] m.segs[j]).is_missing(),
                i <= n,
                out@ == content_of(m.segs.take(i as int)),
            decreases n - i,
        {
            proof {
                assert(m.segs.take(i as int + 1).drop_last() =~= m.segs.take(i as int));
                assert(m.segs.take(i as int + 1).last() == m.segs[i as int]);
            }
            match &segments[i] {
                Segment::Received { data, .. } => {
                    let mut piece = slice_to_vec(data.as_slice());
                    out.append(&mut piece);
                },
                Segment::Missing { .. } => {
                    proof {
                        assert(m.segs[i as int].is_missing());
                        assert(false);
                    }
                },
            }
            i += 1;
        }
        proof {
            assert(m.segs.take(n as int) =~= m.segs);
        }
        out.append(&mut tail_part);
        out
    }

    /// Reassemble the stream and return it as one `bytes::BytesMut`,
    /// consuming the buffer.
    ///
    /// Every gap must have been filled before this is called: assembling
    /// with an outstanding gap is a contract violation, so the gap-free
    /// state is a precondition here rather than a checked error.
    pub fn into_inner(self) -> (r: bytes::BytesMut)
        requires
            self@.wf(),
            self@.complete(),
        ensures
            bytes_mut_data(r) == self@.assembled(),
    {
        let out = self.assemble();
        bytes_mut_from_slice(out.as_slice())
    }
}

impl Default for BytesQuilt {
    /// An empty buffer, as `new` returns.
    fn default() -> (r: Self)
        ensures
            r@ == QuiltModel::empty(),
            r@.wf(),
    {
        Self::new()
    }
}

} // verus!
