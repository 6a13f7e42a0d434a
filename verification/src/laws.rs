//! The buffer's laws: what holds of every write, proved once and for all
//! over the abstract transition that `put_at` is specified against.

use vstd::prelude::*;

verus! {

use crate::errors::Error;
use crate::model::{
    filled, locate, missing_of, put_model, PutOutcome, QuiltModel, SegModel,
    lemma_locate, lemma_missing_of_concat, lemma_one_seg, lemma_put_model_wf,
};

/// In-order writes keep the buffer gap-free: a write placed exactly at the
/// live edge of a well-formed, gap-free buffer is accepted without opening
/// a gap, leaves the buffer gap-free, and extends the assembled stream by
/// exactly the written bytes.
#[verifier::rlimit(80)]
pub proof fn lemma_in_order_write(m: QuiltModel, pos: int, src: Seq<u8>)
    requires
        m.wf(),
        m.complete(),
        pos == m.end(),
        m.end() + src.len() <= usize::MAX,
    ensures
        put_model(m, pos, src).1 == PutOutcome::Stored,
        put_model(m, pos, src).0.wf(),
        put_model(m, pos, src).0.complete(),
        put_model(m, pos, src).0.assembled() == m.assembled() + src,
        put_model(m, pos, src).0.end() == m.end() + src.len(),
{
    lemma_put_model_wf(m, pos, src);
    assert(put_model(m, pos, src).0.assembled() =~= m.assembled() + src);
}

/// Writing `a` and then `b`, each at the live edge of the moment, yields
/// the same assembled stream, the same absence of gaps and the same live
/// edge as writing `a + b` at the live edge in one call: in-order writes
/// finalize to the concatenation of what was written, however they are
/// chunked.
pub proof fn lemma_in_order_chunking(m: QuiltModel, a: Seq<u8>, b: Seq<u8>)
    requires
        m.wf(),
        m.complete(),
        m.end() + a.len() + b.len() <= usize::MAX,
    ensures
        ({
            let split_once = put_model(m, m.end(), a).0;
            let split_twice = put_model(split_once, split_once.end(), b).0;
            let joined = put_model(m, m.end(), a + b).0;
            &&& split_twice.assembled() == joined.assembled()
            &&& split_twice.complete() && joined.complete()
            &&& split_twice.end() == joined.end()
        }),
{
    lemma_in_order_write(m, m.end(), a);
    let m1 = put_model(m, m.end(), a).0;
    lemma_in_order_write(m1, m1.end(), b);
    lemma_in_order_write(m, m.end(), a + b);
    assert((m.assembled() + a) + b =~= m.assembled() + (a + b));
}

/// A write past the live edge reports exactly the range it skipped: the
/// gap runs from the old live edge to the write's offset, and it is
/// appended to the gap list. This is the only transition that reports a
/// gap, so the gap is reported as new exactly once.
pub proof fn lemma_new_gap_exact(m: QuiltModel, pos: int, src: Seq<u8>)
    requires
        m.wf(),
        pos > m.end(),
    ensures
        put_model(m, pos, src).1 == (PutOutcome::GapOpened {
            start: m.end(),
            size: pos - m.end(),
        }),
        put_model(m, pos, src).0.missing_list() == m.missing_list().push(
            (m.end(), pos - m.end()),
        ),
{
    let frozen: Seq<SegModel> = if m.tail.len() > 0 {
        m.segs.push(SegModel::Received { start: m.frontier, data: m.tail })
    } else {
        m.segs
    };
    if m.tail.len() > 0 {
        let rec = SegModel::Received { start: m.frontier, data: m.tail };
        assert(m.segs.push(rec).drop_last() =~= m.segs);
        assert(m.segs.push(rec).last() == rec);
        assert(missing_of(frozen) == missing_of(m.segs));
    }
    let gap = SegModel::Missing { start: m.end(), size: pos - m.end() };
    assert(frozen.push(gap).drop_last() =~= frozen);
    assert(frozen.push(gap).last() == gap);
}

/// The converse: whenever a write reports a gap at all, the write was past
/// the live edge, and the reported gap is exactly the skipped range. No
/// other write reports one, so a gap is reported as new exactly once.
pub proof fn lemma_gap_reported_only_when_opened(m: QuiltModel, pos: int, src: Seq<u8>)
    requires
        m.wf(),
    ensures
        put_model(m, pos, src).1 matches PutOutcome::GapOpened { start, size } ==> pos > m.end()
            && start == m.end() && size == pos - m.end(),
{
}

/// Filling part of one gap splits exactly that gap: the gap list keeps
/// every other entry, in order, and replaces the filled gap's entry by
/// what the write left unfilled in front of it and behind it.
#[verifier::rlimit(100)]
pub proof fn lemma_partial_fill_splits_gap(m: QuiltModel, pos: int, src: Seq<u8>)
    requires
        m.wf(),
        0 <= pos < m.frontier,
        m.segs[locate(m.segs, pos)] is Missing,
        src.len() > 0,
        pos + src.len() <= m.segs[locate(m.segs, pos)].end(),
    ensures
        ({
            let i = locate(m.segs, pos);
            let s = m.segs[i].start();
            let e = m.segs[i].end();
            let j = missing_of(m.segs.subrange(0, i)).len() as int;
            let remainders = (if pos > s {
                seq![(s, pos - s)]
            } else {
                Seq::<(int, int)>::empty()
            }) + (if pos + src.len() < e {
                seq![(pos + src.len(), e - pos - src.len())]
            } else {
                Seq::<(int, int)>::empty()
            });
            &&& put_model(m, pos, src).1 == PutOutcome::Stored
            &&& 0 <= j < m.missing_list().len()
            &&& m.missing_list()[j] == (s, e - s)
            &&& put_model(m, pos, src).0.missing_list() == m.missing_list().subrange(0, j)
                + remainders + m.missing_list().subrange(j + 1, m.missing_list().len() as int)
        }),
{
    lemma_locate(m.segs, pos);
    let i = locate(m.segs, pos);
    let s = m.segs[i].start();
    let e = m.segs[i].end();
    let n = m.segs.len() as int;
    let a = m.segs.subrange(0, i);
    let mid = seq![m.segs[i]];
    let b = m.segs.subrange(i + 1, n);
    assert(m.segs =~= a + mid + b);
    lemma_missing_of_concat(a, mid);
    lemma_missing_of_concat(a + mid, b);
    lemma_one_seg(m.segs[i]);
    let j = missing_of(a).len() as int;
    assert(m.missing_list() == missing_of(a) + seq![(s, e - s)] + missing_of(b));
    assert(m.missing_list()[j] == (s, e - s));

    let f = filled(s, e, pos, src);
    let front: Seq<SegModel> = if pos > s {
        seq![SegModel::Missing { start: s, size: pos - s }]
    } else {
        Seq::empty()
    };
    let back: Seq<SegModel> = if pos + src.len() < e {
        seq![SegModel::Missing { start: pos + src.len(), size: e - pos - src.len() }]
    } else {
        Seq::empty()
    };
    let rec = seq![SegModel::Received { start: pos, data: src }];
    lemma_missing_of_concat(front, rec);
    lemma_missing_of_concat(front + rec, back);
    lemma_one_seg(SegModel::Received { start: pos, data: src });
    if pos > s {
        lemma_one_seg(front[0]);
    }
    if pos + src.len() < e {
        lemma_one_seg(back[0]);
    }
    lemma_missing_of_concat(a, f);
    lemma_missing_of_concat(a + f, b);
    assert(put_model(m, pos, src).0.segs == a + f + b);
    let remainders = (if pos > s {
        seq![(s, pos - s)]
    } else {
        Seq::<(int, int)>::empty()
    }) + (if pos + src.len() < e {
        seq![(pos + src.len(), e - pos - src.len())]
    } else {
        Seq::<(int, int)>::empty()
    });
    assert(missing_of(f) =~= remainders);
    assert(m.missing_list().subrange(0, j) =~= missing_of(a));
    assert(m.missing_list().subrange(j + 1, m.missing_list().len() as int) =~= missing_of(b));
    assert(put_model(m, pos, src).0.missing_list() =~= m.missing_list().subrange(0, j)
        + remainders + m.missing_list().subrange(j + 1, m.missing_list().len() as int));
}

/// A write longer than what remains of its gap from the write's offset on
/// is refused with `NotEnoughSpace`, and the buffer does not change.
pub proof fn lemma_overfill_rejected(m: QuiltModel, pos: int, src: Seq<u8>)
    requires
        m.wf(),
        0 <= pos < m.frontier,
        m.segs[locate(m.segs, pos)] is Missing,
        pos + src.len() > m.segs[locate(m.segs, pos)].end(),
    ensures
        put_model(m, pos, src) == (m, PutOutcome::Refused { reason: Error::NotEnoughSpace }),
{
    lemma_locate(m.segs, pos);
}

/// A write that lands on received bytes below the frontier, and a write at
/// the exact start of a non-empty live tail, are refused with
/// `WouldOverwrite`, and the buffer does not change.
pub proof fn lemma_overwrite_rejected(m: QuiltModel, pos: int, src: Seq<u8>)
    requires
        m.wf(),
        0 <= pos,
        (pos < m.frontier && !m.segs[locate(m.segs, pos)].is_missing()) || (pos == m.frontier
            && m.tail.len() > 0),
    ensures
        put_model(m, pos, src) == (m, PutOutcome::Refused { reason: Error::WouldOverwrite }),
{
}

} // verus!
