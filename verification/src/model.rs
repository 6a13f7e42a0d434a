//! The mathematical model of the buffer: abstract states, the transition
//! one write makes, and the lemmas about both that the rest of the crate
//! builds on.

use vstd::prelude::*;

verus! {

use crate::errors::Error;

/// One ledger entry, as specifications see it: either a reserved range
/// that has not been filled yet, or a range of received bytes.
pub enum SegModel {
    /// A reserved gap of `size` bytes beginning at `start`.
    Missing { start: int, size: int },
    /// Received bytes beginning at `start`.
    Received { start: int, data: Seq<u8> },
}

impl SegModel {
    /// Absolute offset of the entry's first byte.
    pub open spec fn start(self) -> int {
        match self {
            SegModel::Missing { start, .. } => start,
            SegModel::Received { start, .. } => start,
        }
    }

    /// Number of bytes the entry covers: the reserved size of a gap, or
    /// the number of received bytes.
    pub open spec fn size(self) -> int {
        match self {
            SegModel::Missing { size, .. } => size,
            SegModel::Received { data, .. } => data.len() as int,
        }
    }

    /// Absolute offset one past the entry's last byte.
    pub open spec fn end(self) -> int {
        self.start() + self.size()
    }

    pub open spec fn is_missing(self) -> bool {
        self matches SegModel::Missing { .. }
    }

    /// The bytes the entry holds: none for a gap.
    pub open spec fn data(self) -> Seq<u8> {
        match self {
            SegModel::Missing { .. } => Seq::empty(),
            SegModel::Received { data, .. } => data,
        }
    }
}

/// Ledger entries cover at least one byte each and are contiguous: every
/// entry begins exactly where the previous one ends.
pub open spec fn segs_wf(segs: Seq<SegModel>) -> bool {
    &&& forall|i: int| 0 <= i < segs.len() ==> (#[trigger] segs[i]).size() > 0
    &&& forall|i: int| 0 <= i < segs.len() - 1 ==> (#[trigger] segs[i]).end() == segs[i + 1].start()
}

/// The abstract state of the buffer: a ledger of segments covering
/// `[0, frontier)` and the live tail holding the received bytes of
/// `[frontier, frontier + tail.len())`.
#[verifier::ext_equal]
pub struct QuiltModel {
    pub frontier: int,
    pub segs: Seq<SegModel>,
    pub tail: Seq<u8>,
}

impl QuiltModel {
    /// The offset one past the last received byte of the live tail: the
    /// append point for in-order writes.
    pub open spec fn end(self) -> int {
        self.frontier + self.tail.len()
    }

    /// The invariant every public operation preserves: the ledger is
    /// contiguous from offset 0 up to the frontier, and the stream stays
    /// addressable by `usize`.
    pub open spec fn wf(self) -> bool {
        &&& 0 <= self.frontier
        &&& segs_wf(self.segs)
        &&& self.segs.len() > 0 ==> self.segs[0].start() == 0 && self.segs.last().end()
            == self.frontier
        &&& self.segs.len() == 0 ==> self.frontier == 0
        &&& self.end() <= usize::MAX
    }

    /// The `(offset, length)` pairs of the gaps, in ascending offset order.
    pub open spec fn missing_list(self) -> Seq<(int, int)> {
        missing_of(self.segs)
    }

    /// No gap remains: every byte below the frontier has been received.
    pub open spec fn complete(self) -> bool {
        self.missing_list().len() == 0
    }

    /// The whole received stream: the ledger's bytes in order, then the tail.
    pub open spec fn assembled(self) -> Seq<u8> {
        content_of(self.segs) + self.tail
    }

    /// The state of a freshly created buffer.
    pub open spec fn empty() -> QuiltModel {
        QuiltModel { frontier: 0, segs: Seq::empty(), tail: Seq::empty() }
    }
}

/// The `(offset, length)` pairs of the gaps among `segs`, in order.
pub open spec fn missing_of(segs: Seq<SegModel>) -> Seq<(int, int)>
    decreases segs.len(),
{
    if segs.len() == 0 {
        Seq::empty()
    } else if segs.last().is_missing() {
        missing_of(segs.drop_last()).push((segs.last().start(), segs.last().size()))
    } else {
        missing_of(segs.drop_last())
    }
}

/// The bytes held by `segs`, concatenated in order; gaps contribute nothing.
pub open spec fn content_of(segs: Seq<SegModel>) -> Seq<u8>
    decreases segs.len(),
{
    if segs.len() == 0 {
        Seq::empty()
    } else {
        content_of(segs.drop_last()) + segs.last().data()
    }
}

/// The index of the ledger entry whose range contains `pos`: the first
/// entry that ends past `pos`.
pub open spec fn locate(segs: Seq<SegModel>, pos: int) -> int
    decreases segs.len(),
{
    if segs.len() == 0 {
        0
    } else if pos < segs[0].end() {
        0
    } else {
        1 + locate(segs.subrange(1, segs.len() as int), pos)
    }
}

/// What one write can report: acceptance, acceptance together with the
/// newly opened gap, or a refusal with its error.
pub enum PutOutcome {
    Stored,
    GapOpened { start: int, size: int },
    Refused { reason: Error },
}

/// The entries that replace a gap `[s, e)` once `src` has been written at
/// `pos` inside it: a shorter gap in front where the write began past `s`,
/// the received bytes, and a shorter gap behind where the write stopped
/// short of `e`.
pub open spec fn filled(s: int, e: int, pos: int, src: Seq<u8>) -> Seq<SegModel> {
    let front: Seq<SegModel> = if pos > s {
        seq![SegModel::Missing { start: s, size: pos - s }]
    } else {
        Seq::empty()
    };
    let back: Seq<SegModel> = if pos + src.len() < e {
        seq![SegModel::Missing { start: pos + src.len(), size: e - pos - src.len() }]
    } else {
        Seq::empty()
    };
    front + seq![SegModel::Received { start: pos, data: src }] + back
}

/// The ledger after the entry at `i`, a gap containing `pos`, has been
/// filled with `src` starting at `pos`.
pub open spec fn splice_fill(segs: Seq<SegModel>, i: int, pos: int, src: Seq<u8>) -> Seq<
    SegModel,
> {
    segs.subrange(0, i) + filled(segs[i].start(), segs[i].end(), pos, src) + segs.subrange(
        i + 1,
        segs.len() as int,
    )
}

/// The transition one write makes: the state after the call, paired with
/// what the call reports. A refused write leaves the state unchanged.
pub open spec fn put_model(m: QuiltModel, pos: int, src: Seq<u8>) -> (QuiltModel, PutOutcome) {
    if pos < m.frontier {
        // The write lands below the frontier: it must fill a recorded gap.
        let i = locate(m.segs, pos);
        match m.segs[i] {
            SegModel::Received { .. } => (
                m,
                PutOutcome::Refused { reason: Error::WouldOverwrite },
            ),
            SegModel::Missing { start, size } => {
                if src.len() == 0 {
                    (m, PutOutcome::Stored)
                } else if pos + src.len() > start + size {
                    (m, PutOutcome::Refused { reason: Error::NotEnoughSpace })
                } else {
                    (
                        QuiltModel {
                            frontier: m.frontier,
                            segs: splice_fill(m.segs, i, pos, src),
                            tail: m.tail,
                        },
                        PutOutcome::Stored,
                    )
                }
            },
        }
    } else if pos > m.end() {
        // The write starts beyond the live edge: freeze the tail, record
        // the new gap, and start a fresh tail at `pos`.
        let frozen: Seq<SegModel> = if m.tail.len() > 0 {
            m.segs.push(SegModel::Received { start: m.frontier, data: m.tail })
        } else {
            m.segs
        };
        let gap_start = m.end();
        (
            QuiltModel {
                frontier: pos,
                segs: frozen.push(SegModel::Missing { start: gap_start, size: pos - gap_start }),
                tail: src,
            },
            PutOutcome::GapOpened { start: gap_start, size: pos - gap_start },
        )
    } else if pos == m.frontier && m.tail.len() > 0 {
        // The write would restart the live tail over bytes already held.
        (m, PutOutcome::Refused { reason: Error::WouldOverwrite })
    } else {
        // The write lands in the live tail's range: append.
        (
            QuiltModel { frontier: m.frontier, segs: m.segs, tail: m.tail + src },
            PutOutcome::Stored,
        )
    }
}

/// In a contiguous ledger, entries appear in ascending offset order, and
/// distinct entries' ranges do not overlap.
pub proof fn lemma_segs_ordered(segs: Seq<SegModel>, i: int, j: int)
    requires
        segs_wf(segs),
        0 <= i <= j < segs.len(),
    ensures
        segs[i].start() <= segs[j].start(),
        segs[i].end() <= segs[j].end(),
        i < j ==> segs[i].end() <= segs[j].start(),
    decreases j - i,
{
    if i < j {
        lemma_segs_ordered(segs, i, j - 1);
        assert(segs[j - 1].end() == segs[j].start());
        assert(segs[j].size() > 0);
    }
}

/// Every entry of a well-formed ledger lies inside `[0, frontier)`.
pub proof fn lemma_seg_in_range(m: QuiltModel, i: int)
    requires
        m.wf(),
        0 <= i < m.segs.len(),
    ensures
        0 <= m.segs[i].start(),
        m.segs[i].start() < m.segs[i].end(),
        m.segs[i].end() <= m.frontier,
{
    lemma_segs_ordered(m.segs, 0, i);
    lemma_segs_ordered(m.segs, i, m.segs.len() - 1);
}

/// Dropping the first entry keeps a ledger well formed.
proof fn lemma_segs_wf_tail(segs: Seq<SegModel>)
    requires
        segs_wf(segs),
        segs.len() > 0,
    ensures
        segs_wf(segs.subrange(1, segs.len() as int)),
{
    let rest = segs.subrange(1, segs.len() as int);
    assert forall|i: int| 0 <= i < rest.len() implies (#[trigger] rest[i]).size() > 0 by {
        assert(rest[i] == segs[i + 1]);
    }
    assert forall|i: int| 0 <= i < rest.len() - 1 implies (#[trigger] rest[i]).end() == rest[i + 1].start() by {
        assert(rest[i] == segs[i + 1]);
        assert(rest[i + 1] == segs[i + 2]);
    }
}

/// `locate` finds an entry whose range contains `pos`, whenever `pos` lies
/// inside the ledger's overall range.
pub proof fn lemma_locate(segs: Seq<SegModel>, pos: int)
    requires
        segs_wf(segs),
        segs.len() > 0,
        segs[0].start() <= pos < segs.last().end(),
    ensures
        0 <= locate(segs, pos) < segs.len(),
        segs[locate(segs, pos)].start() <= pos < segs[locate(segs, pos)].end(),
    decreases segs.len(),
{
    if pos >= segs[0].end() {
        let rest = segs.subrange(1, segs.len() as int);
        lemma_segs_wf_tail(segs);
        assert(segs.len() > 1);
        assert(rest[0] == segs[1]);
        assert(rest.last() == segs.last());
        lemma_locate(rest, pos);
        assert(segs[locate(segs, pos)] == rest[locate(rest, pos)]);
    }
}

/// `locate` is the only entry whose range contains `pos`.
pub proof fn lemma_locate_unique(segs: Seq<SegModel>, pos: int, i: int)
    requires
        segs_wf(segs),
        0 <= i < segs.len(),
        segs[i].start() <= pos < segs[i].end(),
    ensures
        locate(segs, pos) == i,
    decreases segs.len(),
{
    if i == 0 {
        assert(pos < segs[0].end());
    } else {
        lemma_segs_ordered(segs, 0, i);
        assert(pos >= segs[0].end());
        let rest = segs.subrange(1, segs.len() as int);
        lemma_segs_wf_tail(segs);
        assert(rest[i - 1] == segs[i]);
        lemma_locate_unique(rest, pos, i - 1);
    }
}

/// Two well-formed ledgers whose ranges meet form a well-formed ledger.
pub proof fn lemma_segs_wf_concat(a: Seq<SegModel>, b: Seq<SegModel>)
    requires
        segs_wf(a),
        segs_wf(b),
        a.len() > 0 && b.len() > 0 ==> a.last().end() == b[0].start(),
    ensures
        segs_wf(a + b),
{
    let c = a + b;
    assert forall|i: int| 0 <= i < c.len() implies (#[trigger] c[i]).size() > 0 by {
        if i < a.len() {
            assert(c[i] == a[i]);
        } else {
            assert(c[i] == b[i - a.len()]);
        }
    }
    assert forall|i: int| 0 <= i < c.len() - 1 implies (#[trigger] c[i]).end() == c[i + 1].start() by {
        if i + 1 < a.len() {
            assert(c[i] == a[i]);
            assert(c[i + 1] == a[i + 1]);
        } else if i + 1 == a.len() {
            assert(c[i] == a[i]);
            assert(a[i] == a.last());
            assert(c[i + 1] == b[0]);
        } else {
            assert(c[i] == b[i - a.len()]);
            assert(c[i + 1] == b[i + 1 - a.len()]);
        }
    }
}

/// A contiguous slice of a well-formed ledger is well formed.
pub proof fn lemma_segs_wf_subrange(segs: Seq<SegModel>, lo: int, hi: int)
    requires
        segs_wf(segs),
        0 <= lo <= hi <= segs.len(),
    ensures
        segs_wf(segs.subrange(lo, hi)),
{
    let part = segs.subrange(lo, hi);
    assert forall|i: int| 0 <= i < part.len() implies (#[trigger] part[i]).size() > 0 by {
        assert(part[i] == segs[lo + i]);
    }
    assert forall|i: int| 0 <= i < part.len() - 1 implies (#[trigger] part[i]).end() == part[i + 1].start() by {
        assert(part[i] == segs[lo + i]);
        assert(part[i + 1] == segs[lo + i + 1]);
    }
}

/// Gap listing distributes over concatenation of ledgers.
pub proof fn lemma_missing_of_concat(a: Seq<SegModel>, b: Seq<SegModel>)
    ensures
        missing_of(a + b) == missing_of(a) + missing_of(b),
    decreases b.len(),
{
    if b.len() == 0 {
        assert(a + b =~= a);
        assert(missing_of(a) + missing_of(b) =~= missing_of(a));
    } else {
        lemma_missing_of_concat(a, b.drop_last());
        assert((a + b).drop_last() =~= a + b.drop_last());
        assert((a + b).last() == b.last());
        if b.last().is_missing() {
            assert(missing_of(a) + missing_of(b) =~= (missing_of(a) + missing_of(
                b.drop_last(),
            )).push((b.last().start(), b.last().size())));
        }
    }
}

/// The gaps and content of a one-entry ledger.
pub proof fn lemma_one_seg(s: SegModel)
    ensures
        missing_of(seq![s]) == if s.is_missing() {
            seq![(s.start(), s.size())]
        } else {
            Seq::<(int, int)>::empty()
        },
        content_of(seq![s]) == s.data(),
{
    let one = seq![s];
    assert(one.drop_last() =~= Seq::<SegModel>::empty());
    assert(one.last() == s);
    assert(missing_of(Seq::<SegModel>::empty()) == Seq::<(int, int)>::empty());
    assert(content_of(Seq::<SegModel>::empty()) == Seq::<u8>::empty());
    if s.is_missing() {
        assert(missing_of(one) == Seq::<(int, int)>::empty().push((s.start(), s.size())));
        assert(Seq::<(int, int)>::empty().push((s.start(), s.size())) =~= seq![
            (s.start(), s.size()),
        ]);
    } else {
        assert(missing_of(one) == Seq::<(int, int)>::empty());
    }
    assert(content_of(one) == Seq::<u8>::empty() + s.data());
    assert(Seq::<u8>::empty() + s.data() =~= s.data());
}

/// The entries that replace a filled gap are well formed and cover exactly
/// the gap's range.
pub proof fn lemma_filled_wf(s: int, e: int, pos: int, src: Seq<u8>)
    requires
        s <= pos,
        src.len() > 0,
        pos + src.len() <= e,
    ensures
        segs_wf(filled(s, e, pos, src)),
        filled(s, e, pos, src).len() > 0,
        filled(s, e, pos, src)[0].start() == s,
        filled(s, e, pos, src).last().end() == e,
{
    let front: Seq<SegModel> = if pos > s {
        seq![SegModel::Missing { start: s, size: pos - s }]
    } else {
        Seq::empty()
    };
    let back: Seq<SegModel> = if pos + src.len() < e {
        seq![SegModel::Missing { start: pos + src.len(), size: e - pos - src.len() }]
    } else {
        Seq::empty()
    };
    let mid = seq![SegModel::Received { start: pos, data: src }];
    assert(segs_wf(front));
    assert(segs_wf(mid));
    assert(segs_wf(back));
    lemma_segs_wf_concat(front, mid);
    lemma_segs_wf_concat(front + mid, back);
    assert(filled(s, e, pos, src) == front + mid + back);
    assert((front + mid)[0].start() == s);
    if pos + src.len() < e {
        assert((front + mid + back).last() == back[0]);
    } else {
        assert((front + mid + back).last() == mid[0]);
    }
}

/// One write preserves the buffer's invariant, provided the write stays
/// inside the `usize`-addressable stream.
#[verifier::rlimit(80)]
pub proof fn lemma_put_model_wf(m: QuiltModel, pos: int, src: Seq<u8>)
    requires
        m.wf(),
        0 <= pos,
        pos + src.len() <= usize::MAX,
        m.end() + src.len() <= usize::MAX,
    ensures
        put_model(m, pos, src).0.wf(),
{
    let m2 = put_model(m, pos, src).0;
    if pos < m.frontier {
        assert(m.segs.len() > 0);
        lemma_locate(m.segs, pos);
        let i = locate(m.segs, pos);
        match m.segs[i] {
            SegModel::Received { .. } => {},
            SegModel::Missing { start: s, size: z } => {
                if src.len() == 0 || pos + src.len() > s + z {
                } else {
                    let n = m.segs.len() as int;
                    let a = m.segs.subrange(0, i);
                    let f = filled(s, s + z, pos, src);
                    let b = m.segs.subrange(i + 1, n);
                    lemma_segs_wf_subrange(m.segs, 0, i);
                    lemma_segs_wf_subrange(m.segs, i + 1, n);
                    lemma_filled_wf(s, s + z, pos, src);
                    if i > 0 {
                        assert(a.last() == m.segs[i - 1]);
                        assert(m.segs[i - 1].end() == m.segs[i].start());
                    }
                    lemma_segs_wf_concat(a, f);
                    assert((a + f).last() == f.last());
                    if i + 1 < n {
                        assert(b[0] == m.segs[i + 1]);
                        assert(m.segs[i].end() == m.segs[i + 1].start());
                    }
                    lemma_segs_wf_concat(a + f, b);
                    assert(m2.segs == a + f + b);
                    assert(segs_wf(m2.segs));
                    // The first entry still starts at 0.
                    if i > 0 {
                        assert((a + f + b)[0] == a[0]);
                        assert(a[0] == m.segs[0]);
                    } else {
                        assert((a + f + b)[0] == f[0]);
                    }
                    // The last entry still ends at the frontier.
                    if i + 1 < n {
                        assert((a + f + b).last() == b.last());
                        assert(b.last() == m.segs[n - 1]);
                    } else {
                        assert((a + f + b).last() == f.last());
                        assert(m.segs[i] == m.segs.last());
                    }
                }
            },
        }
    } else if pos > m.end() {
        let gap_start = m.end();
        let gap = SegModel::Missing { start: gap_start, size: pos - gap_start };
        if m.tail.len() > 0 {
            let rec = SegModel::Received { start: m.frontier, data: m.tail };
            let frozen = m.segs.push(rec);
            assert(frozen =~= m.segs + seq![rec]);
            assert(segs_wf(seq![rec]));
            if m.segs.len() > 0 {
                assert(m.segs.last().end() == m.frontier);
            }
            lemma_segs_wf_concat(m.segs, seq![rec]);
            assert(segs_wf(frozen));
            assert(frozen.last() == rec);
            assert(m2.segs =~= frozen + seq![gap]);
            lemma_segs_wf_concat(frozen, seq![gap]);
            assert(m2.segs[0] == frozen[0]);
            if m.segs.len() > 0 {
                assert(frozen[0] == m.segs[0]);
            }
            assert(m2.segs.last() == gap);
        } else {
            assert(m2.segs =~= m.segs + seq![gap]);
            if m.segs.len() > 0 {
                assert(m.segs.last().end() == m.frontier == gap_start);
            }
            lemma_segs_wf_concat(m.segs, seq![gap]);
            assert(m2.segs.last() == gap);
            if m.segs.len() > 0 {
                assert(m2.segs[0] == m.segs[0]);
            }
        }
    } else if pos == m.frontier && m.tail.len() > 0 {
    } else {
    }
}

/// A ledger that lists no gap holds no `Missing` entry at all.
pub proof fn lemma_no_missing(segs: Seq<SegModel>)
    requires
        missing_of(segs).len() == 0,
    ensures
        forall|i: int| 0 <= i < segs.len() ==> !(#[trigger] segs[i]).is_missing(),
    decreases segs.len(),
{
    if segs.len() > 0 {
        assert(!segs.last().is_missing());
        lemma_no_missing(segs.drop_last());
        assert forall|i: int| 0 <= i < segs.len() implies !(#[trigger] segs[i]).is_missing() by {
            if i < segs.len() - 1 {
                assert(segs.drop_last()[i] == segs[i]);
            }
        }
    }
}

} // verus!
